use treelearn::csv_parser::{record_to_strings, Reader, Record};

#[test]
fn test_reader() {
    let input: &[u8] = b"Col1,b,col3\nfoo,bar,baz\nqux,beep,foo\n";
    let mut rdr = Reader::new(input);

    assert_eq!(
        record_to_strings(&rdr, &rdr.header()),
        vec!["Col1", "b", "col3"]
    );

    let mut records = vec![];
    loop {
        let mut record = Record::new();
        if !rdr.read_record(&mut record) {
            break;
        }
        records.push(record);
    }

    let data: Vec<Vec<String>> = records
        .iter()
        .map(|record| record_to_strings(&rdr, &record))
        .collect();
    assert_eq!(
        data,
        vec![vec!["foo", "bar", "baz",], vec!["qux", "beep", "foo",]]
    );
}

#[test]
fn header_counts_columns() {
    let rdr = Reader::new(b"a,bb,ccc,d\n1,2,3,4\n");
    assert_eq!(rdr.num_columns(), 4);
    assert_eq!(rdr.header().len(), 4);
    assert_eq!(rdr.get_datum(rdr.header(), 2), b"ccc");
}

#[test]
fn last_record_without_newline() {
    let mut rdr = Reader::new(b"x,y\n1,2\n3,4");
    let mut record = Record::new();
    assert!(rdr.read_record(&mut record));
    assert_eq!(rdr.record_iter(&record), vec![&b"1"[..], &b"2"[..]]);
    assert!(rdr.read_record(&mut record));
    assert_eq!(rdr.record_iter(&record), vec![&b"3"[..], &b"4"[..]]);
    assert!(!rdr.read_record(&mut record));
    assert_eq!(record.len(), 2);
}

#[test]
fn short_record_is_refused() {
    let mut rdr = Reader::new(b"x,y,z\n1,2\n");
    let mut record = Record::new();
    assert!(!rdr.read_record(&mut record));
    // the separators are looked for across the line end, up to the data's end
    assert_eq!(record.len(), 1);
    assert_eq!(rdr.get_datum(&record, 0), b"1");
}

#[test]
fn data_without_newline_has_one_empty_header_field() {
    let rdr = Reader::new(b"abc");
    assert_eq!(rdr.num_columns(), 1);
    assert_eq!(rdr.get_datum(rdr.header(), 0), b"");
}

#[test]
fn empty_fields_are_kept() {
    let mut rdr = Reader::new(b"a,b,c\n,,\n");
    let mut record = Record::new();
    assert!(rdr.read_record(&mut record));
    assert_eq!(record_to_strings(&rdr, &record), vec!["", "", ""]);
    assert!(!rdr.read_record(&mut record));
}

#[test]
fn utf8_fields_are_decoded() {
    let mut rdr = Reader::new("n\u{e9},b\nx\u{3bb},y\n".as_bytes());
    assert_eq!(record_to_strings(&rdr, rdr.header()), vec!["n\u{e9}", "b"]);
    let mut record = Record::new();
    assert!(rdr.read_record(&mut record));
    assert_eq!(record_to_strings(&rdr, &record), vec!["x\u{3bb}", "y"]);
}
