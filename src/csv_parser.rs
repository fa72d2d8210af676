use vstd::prelude::*;
use vstd::utf8::{decode_utf8, valid_utf8};

verus! {

/// Relies on memchr::memchr: the index of the first occurrence of `needle`
/// in `haystack`, or `None` when the byte does not occur.
pub assume_specification[ memchr::memchr ](needle: u8, haystack: &[u8]) -> (r: Option<usize>)
    ensures
        match r {
            Some(i) => {
                &&& i < haystack@.len()
                &&& haystack@[i as int] == needle
                &&& forall|j: int| 0 <= j < i ==> haystack@[j] != needle
            },
            None => forall|j: int| 0 <= j < haystack@.len() ==> haystack@[j] != needle,
        },
;

pub const COMMA: u8 = 44;

pub const NEWLINE: u8 = 10;

/// Number of bytes of `s` before the first occurrence of `b` (all of `s`
/// when `b` does not occur).
pub open spec fn span_before(s: Seq<u8>, b: u8) -> nat
    decreases s.len(),
{
    if s.len() == 0 {
        0
    } else if s[0] == b {
        0
    } else {
        1 + span_before(s.drop_first(), b)
    }
}

/// The `(start, length)` chunks of the comma-separated fields of `d[pos..end]`.
pub open spec fn split_fields(d: Seq<u8>, pos: int, end: int) -> Seq<(usize, usize)>
    decreases end - pos,
{
    let k = span_before(d.subrange(pos, end), COMMA);
    if pos < end && pos + k < end {
        seq![(pos as usize, k as usize)] + split_fields(d, pos + k + 1, end)
    } else {
        seq![(pos as usize, (end - pos) as usize)]
    }
}

/// Reading a record from `pos` with `commas` separators still to find: the
/// chunks found, the position after them, and whether the record is whole.
/// Separators are looked for up to the end of the data; the last field ends
/// at the next newline or at the end of the data.
pub open spec fn read_fields(d: Seq<u8>, pos: int, commas: nat) -> (Seq<(usize, usize)>, int, bool)
    decreases commas,
{
    if commas == 0 {
        let k = span_before(d.subrange(pos, d.len() as int), NEWLINE);
        (seq![(pos as usize, k as usize)], pos + k + 1, true)
    } else {
        let k = span_before(d.subrange(pos, d.len() as int), COMMA);
        if pos + k < d.len() {
            let rest = read_fields(d, pos + k + 1, (commas - 1) as nat);
            (seq![(pos as usize, k as usize)] + rest.0, rest.1, rest.2)
        } else {
            (seq![], pos, false)
        }
    }
}

/// Position of the header's newline, or 0 when the data holds none.
pub open spec fn header_end(d: Seq<u8>) -> int {
    let k = span_before(d, NEWLINE);
    if k < d.len() { k as int } else { 0 }
}

/// Every chunk lies within data of length `n`.
pub open spec fn chunks_fit(chunks: Seq<(usize, usize)>, n: int) -> bool {
    forall|i: int| 0 <= i < chunks.len() ==> chunks[i].0 + chunks[i].1 <= n
}

proof fn lemma_span_le(s: Seq<u8>, b: u8)
    ensures
        span_before(s, b) <= s.len(),
        span_before(s, b) < s.len() ==> s[span_before(s, b) as int] == b,
    decreases s.len(),
{
    if s.len() > 0 && s[0] != b {
        lemma_span_le(s.drop_first(), b);
    }
}

/// What memchr reports is `span_before`.
proof fn lemma_span_found(s: Seq<u8>, b: u8, i: int)
    requires
        0 <= i < s.len(),
        s[i] == b,
        forall|j: int| 0 <= j < i ==> s[j] != b,
    ensures
        span_before(s, b) == i,
    decreases s.len(),
{
    if i > 0 {
        assert forall|j: int| 0 <= j < i - 1 implies s.drop_first()[j] != b by {
            assert(s[j + 1] != b);
        }
        lemma_span_found(s.drop_first(), b, i - 1);
    }
}

proof fn lemma_span_absent(s: Seq<u8>, b: u8)
    requires
        forall|j: int| 0 <= j < s.len() ==> s[j] != b,
    ensures
        span_before(s, b) == s.len(),
    decreases s.len(),
{
    if s.len() > 0 {
        assert forall|j: int| 0 <= j < s.len() - 1 implies s.drop_first()[j] != b by {
            assert(s[j + 1] != b);
        }
        lemma_span_absent(s.drop_first(), b);
    }
}

/// Finds `b` in `d[from..to]`, reporting its offset from `from` as memchr does,
/// and connects the result to `span_before`.
fn find_byte(b: u8, d: &[u8], from: usize, to: usize) -> (r: Option<usize>)
    requires
        from <= to <= d@.len(),
    ensures
        match r {
            Some(k) => k == span_before(d@.subrange(from as int, to as int), b) && from + k < to,
            None => span_before(d@.subrange(from as int, to as int), b) == to - from,
        },
{
    let r = memchr::memchr(b, &d[from..to]);
    proof {
        let s = d@.subrange(from as int, to as int);
        match r {
            Some(k) => lemma_span_found(s, b, k as int),
            None => lemma_span_absent(s, b),
        }
    }
    r
}

/// The fields of one line of CSV data, as `(start, length)` pairs into the
/// reader's data.
#[derive(Debug)]
pub struct Record {
    chunks: Vec<(usize, usize)>,
}

impl View for Record {
    type V = Seq<(usize, usize)>;

    closed spec fn view(&self) -> Seq<(usize, usize)> {
        self.chunks@
    }
}

impl Record {
    pub fn new() -> (r: Self)
        ensures
            r@.len() == 0,
    {
        Record { chunks: Vec::new() }
    }

    pub fn len(&self) -> (r: usize)
        ensures
            r == self@.len(),
    {
        self.chunks.len()
    }
}

/// A reader over comma-separated data held in memory: a header line and then
/// one record per line.
pub struct Reader<'a> {
    data: &'a [u8],
    header: Record,
    pos: usize,
}

impl<'a> Reader<'a> {
    /// The bytes read.
    pub closed spec fn bytes(&self) -> Seq<u8> {
        self.data@
    }

    /// The chunks of the header line.
    pub closed spec fn header_view(&self) -> Seq<(usize, usize)> {
        self.header@
    }

    /// Where the next record starts.
    pub closed spec fn position(&self) -> int {
        self.pos as int
    }

    pub open spec fn wf(&self) -> bool {
        &&& self.bytes().len() < usize::MAX
        &&& self.header_view().len() >= 1
        &&& chunks_fit(self.header_view(), self.bytes().len() as int)
        &&& self.position() <= self.bytes().len() + 1
    }

    /// Whether every chunk of `record` lies within the data.
    pub open spec fn fits(&self, record: &Record) -> bool {
        chunks_fit(record@, self.bytes().len() as int)
    }

    pub fn num_columns(&self) -> (r: usize)
        ensures
            r == self.header_view().len(),
    {
        self.header.len()
    }

    pub fn header(&self) -> (r: &Record)
        ensures
            r@ == self.header_view(),
    {
        &self.header
    }

    /// Opens a reader over `data`: the first line is the header.
    pub fn new(data: &'a [u8]) -> (r: Self)
        requires
            data@.len() < usize::MAX,
        ensures
            r.wf(),
            r.bytes() == data@,
            r.header_view() == split_fields(data@, 0, header_end(data@)),
            r.position() == header_end(data@) + 1,
    {
        let newline_pos = match find_byte(NEWLINE, data, 0, data.len()) {
            Some(k) => k,
            None => 0,
        };
        proof {
            assert(data@.subrange(0, data@.len() as int) =~= data@);
            lemma_span_le(data@, NEWLINE);
        }
        let mut header = Record::new();
        let mut pos: usize = 0;
        let mut done = false;
        while !done
            invariant
                pos <= newline_pos <= data@.len(),
                newline_pos == header_end(data@),
                !done ==> header@ + split_fields(data@, pos as int, newline_pos as int)
                    == split_fields(data@, 0, newline_pos as int),
                done ==> header@ == split_fields(data@, 0, newline_pos as int),
                header@.len() >= 1 || !done,
                chunks_fit(header@, data@.len() as int),
            decreases newline_pos - pos + if done { 0int } else { 1int },
        {
            let ghost before = header@;
            match find_byte(COMMA, data, pos, newline_pos) {
                Some(len) => {
                    header.chunks.push((pos, len));
                    proof {
                        assert(split_fields(data@, pos as int, newline_pos as int) == seq![
                            (pos, len),
                        ] + split_fields(data@, pos + len + 1, newline_pos as int));
                        assert(header@ + split_fields(data@, pos + len + 1, newline_pos as int)
                            =~= before + split_fields(data@, pos as int, newline_pos as int));
                    }
                    pos = pos + len + 1;
                },
                None => {
                    header.chunks.push((pos, newline_pos - pos));
                    proof {
                        assert(split_fields(data@, pos as int, newline_pos as int) == seq![
                            (pos, (newline_pos - pos) as usize),
                        ]);
                        assert(header@ =~= before + split_fields(
                            data@,
                            pos as int,
                            newline_pos as int,
                        ));
                    }
                    done = true;
                },
            }
        }
        Reader { data, header, pos: newline_pos + 1 }
    }

    /// Reads the next record into `record`. Returns false at the end of the
    /// data, leaving `record` as it was, or when the data ends before the
    /// record has as many fields as the header, leaving in `record` the
    /// fields found.
    pub fn read_record(&mut self, record: &mut Record) -> (r: bool)
        requires
            old(self).wf(),
        ensures
            final(self).wf(),
            final(self).bytes() == old(self).bytes(),
            final(self).header_view() == old(self).header_view(),
            old(self).position() >= old(self).bytes().len() ==> {
                &&& !r
                &&& final(record)@ == old(record)@
                &&& final(self).position() == old(self).position()
            },
            old(self).position() < old(self).bytes().len() ==> {
                let f = read_fields(
                    old(self).bytes(),
                    old(self).position(),
                    (old(self).header_view().len() - 1) as nat,
                );
                &&& r == f.2
                &&& final(record)@ == f.0
                &&& final(self).position() == f.1
                &&& final(self).fits(final(record))
            },
    {
        let data = self.data;
        if self.pos >= data.len() {
            return false;
        }
        record.chunks.clear();
        let ghost start = self.pos as int;
        let ghost whole = read_fields(data@, start, (self.header@.len() - 1) as nat);
        let separators = self.num_columns() - 1;
        let mut pos = self.pos;
        let mut i: usize = 0;
        while i < separators
            invariant
                self.data@ == data@,
                self.data@ == old(self).data@,
                self.header@ == old(self).header@,
                old(self).pos == start,
                start < data@.len(),
                data@.len() < usize::MAX,
                self.header@.len() >= 1,
                chunks_fit(self.header@, data@.len() as int),
                separators == self.header@.len() - 1,
                i <= separators,
                pos <= data@.len(),
                whole == read_fields(data@, start, (self.header@.len() - 1) as nat),
                ({
                    let f = read_fields(data@, pos as int, (separators - i) as nat);
                    &&& whole.0 == record@ + f.0
                    &&& whole.1 == f.1
                    &&& whole.2 == f.2
                }),
                chunks_fit(record@, data@.len() as int),
            decreases separators - i,
        {
            match find_byte(COMMA, data, pos, data.len()) {
                Some(len) => {
                    let ghost before = record@;
                    record.chunks.push((pos, len));
                    proof {
                        let f = read_fields(data@, pos as int, (separators - i) as nat);
                        let g = read_fields(data@, pos + len + 1, (separators - i - 1) as nat);
                        assert(f.0 == seq![(pos, len)] + g.0);
                        assert(record@ + g.0 =~= before + f.0);
                    }
                    pos = pos + len + 1;
                },
                None => {
                    proof {
                        assert(record@ + seq![] =~= record@);
                    }
                    self.pos = pos;
                    return false;
                },
            }
            i = i + 1;
        }
        let len = match find_byte(NEWLINE, data, pos, data.len()) {
            Some(k) => k,
            None => data.len() - pos,
        };
        let ghost before = record@;
        record.chunks.push((pos, len));
        proof {
            assert(record@ =~= before + read_fields(data@, pos as int, 0).0);
        }
        self.pos = pos + len + 1;
        true
    }

    /// The bytes of field `column` of `record`.
    pub fn get_datum(&self, record: &Record, column: usize) -> (r: &[u8])
        requires
            self.wf(),
            self.fits(record),
            column < record@.len(),
        ensures
            r@ == self.bytes().subrange(
                record@[column as int].0 as int,
                record@[column as int].0 + record@[column as int].1,
            ),
    {
        let (pos, len) = record.chunks[column];
        assert(record@[column as int].0 + record@[column as int].1 <= self.bytes().len());
        assert(pos + len <= self.data@.len());
        &self.data[pos..pos + len]
    }

    /// The bytes of every field of `record`, in order.
    pub fn record_iter<'b>(&'b self, record: &'b Record) -> (r: Vec<&'b [u8]>)
        requires
            self.wf(),
            self.fits(record),
        ensures
            r@.len() == record@.len(),
            forall|i: int|
                0 <= i < record@.len() ==> #[trigger] r@[i]@ == self.bytes().subrange(
                    record@[i].0 as int,
                    record@[i].0 + record@[i].1,
                ),
    {
        let mut out: Vec<&'b [u8]> = Vec::new();
        let mut i: usize = 0;
        while i < record.chunks.len()
            invariant
                self.wf(),
                self.fits(record),
                i <= record@.len(),
                out@.len() == i,
                forall|j: int|
                    0 <= j < i ==> #[trigger] out@[j]@ == self.bytes().subrange(
                        record@[j].0 as int,
                        record@[j].0 + record@[j].1,
                    ),
            decreases record@.len() - i,
        {
            out.push(self.get_datum(record, i));
            i = i + 1;
        }
        out
    }
}

/// Relies on std::str::from_utf8: it succeeds exactly on valid UTF-8, and the
/// string then holds the characters that the bytes encode.
#[verifier::external_body]
fn utf8_string(b: &[u8]) -> (r: Option<String>)
    ensures
        r is Some <==> valid_utf8(b@),
        r matches Some(s) ==> s@ == decode_utf8(b@),
{
    std::str::from_utf8(b).ok().map(|s| s.to_string())
}

/// The first `rdr.num_columns()` fields of `record` as strings.
pub fn record_to_strings(rdr: &Reader, record: &Record) -> (r: Vec<String>)
    requires
        rdr.wf(),
        rdr.fits(record),
        rdr.header_view().len() <= record@.len(),
        forall|i: int|
            0 <= i < rdr.header_view().len() ==> valid_utf8(
                #[trigger] rdr.bytes().subrange(record@[i].0 as int, record@[i].0 + record@[i].1),
            ),
    ensures
        r@.len() == rdr.header_view().len(),
        forall|i: int|
            0 <= i < r@.len() ==> #[trigger] r@[i]@ == decode_utf8(
                rdr.bytes().subrange(record@[i].0 as int, record@[i].0 + record@[i].1),
            ),
{
    let n = rdr.num_columns();
    let mut out: Vec<String> = Vec::new();
    let mut i: usize = 0;
    while i < n
        invariant
            n == rdr.header_view().len(),
            rdr.wf(),
            rdr.fits(record),
            rdr.header_view().len() <= record@.len(),
            forall|j: int|
                0 <= j < rdr.header_view().len() ==> valid_utf8(
                    #[trigger] rdr.bytes().subrange(
                        record@[j].0 as int,
                        record@[j].0 + record@[j].1,
                    ),
                ),
            i <= n,
            out@.len() == i,
            forall|j: int|
                0 <= j < i ==> #[trigger] out@[j]@ == decode_utf8(
                    rdr.bytes().subrange(record@[j].0 as int, record@[j].0 + record@[j].1),
                ),
        decreases n - i,
    {
        let datum = rdr.get_datum(record, i);
        match utf8_string(datum) {
            Some(s) => out.push(s),
            None => {
                assert(false);
            },
        }
        i = i + 1;
    }
    out
}

} // verus!
