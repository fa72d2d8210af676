use treelearn::dataset::{Column, Dataset};
use treelearn::util::VecExt;

fn sample() -> Dataset<f32> {
    let mut d = Dataset::new();
    d.labels = vec![1.0, 2.0, 3.0, 4.0, 5.0];
    d.inputs.push(("a".to_string(), Column::Float(vec![10.0, 20.0, 30.0, 40.0, 50.0])));
    d.inputs.push((
        "q".to_string(),
        Column::QuantizedFloat(vec![0.5, 1.5], vec![0, 1, 2, 1, 0]),
    ));
    d.inputs.push((
        "s".to_string(),
        Column::String(vec!["v".into(), "w".into(), "x".into(), "y".into(), "z".into()]),
    ));
    d
}

#[test]
fn vec_partition_is_stable() {
    let v = vec![5, 6, 7, 8, 9, 10];
    let (l, r) = v.partition_by_index(|i| i % 3 == 0);
    assert_eq!(l, vec![5, 8]);
    assert_eq!(r, vec![6, 7, 9, 10]);
}

#[test]
fn vec_partition_of_empty() {
    let v: Vec<u8> = vec![];
    let (l, r) = v.partition_by_index(|_| true);
    assert!(l.is_empty() && r.is_empty());
}

#[test]
fn dataset_partition_splits_every_column_alike() {
    let d = sample();
    let (l, r) = d.partition(|i| i == 1 || i == 3);
    assert_eq!(l.labels, vec![2.0, 4.0]);
    assert_eq!(r.labels, vec![1.0, 3.0, 5.0]);
    assert_eq!(l.labels.len() + r.labels.len(), d.labels.len());
    let names: Vec<&str> = l.inputs.iter().map(|(n, _)| n.as_str()).collect();
    assert_eq!(names, vec!["a", "q", "s"]);
    match (&l.inputs[0].1, &r.inputs[0].1) {
        (Column::Float(a), Column::Float(b)) => {
            assert_eq!(a, &vec![20.0, 40.0]);
            assert_eq!(b, &vec![10.0, 30.0, 50.0]);
        }
        _ => panic!("column kind changed"),
    }
    match (&l.inputs[1].1, &r.inputs[1].1) {
        (Column::QuantizedFloat(qa, a), Column::QuantizedFloat(qb, b)) => {
            assert_eq!(qa, &vec![0.5, 1.5]);
            assert_eq!(qb, &vec![0.5, 1.5]);
            assert_eq!(a, &vec![1, 1]);
            assert_eq!(b, &vec![0, 2, 0]);
        }
        _ => panic!("column kind changed"),
    }
    match (&l.inputs[2].1, &r.inputs[2].1) {
        (Column::String(a), Column::String(b)) => {
            assert_eq!(a, &vec!["w".to_string(), "y".to_string()]);
            assert_eq!(b, &vec!["v".to_string(), "x".to_string(), "z".to_string()]);
        }
        _ => panic!("column kind changed"),
    }
}

#[test]
fn partition_all_left() {
    let d = sample();
    let (l, r) = d.partition(|_| true);
    assert_eq!(l.labels, d.labels);
    assert!(r.labels.is_empty());
    assert_eq!(r.inputs.len(), 3);
}

#[test]
fn column_partition_keeps_boundaries() {
    let c: Column<f32> = Column::QuantizedFloat(vec![1.0, 2.0, 3.0], vec![3, 0, 2]);
    let (l, r) = c.partition(|i| i != 0);
    match (l, r) {
        (Column::QuantizedFloat(ql, bl), Column::QuantizedFloat(qr, br)) => {
            assert_eq!(ql, vec![1.0, 2.0, 3.0]);
            assert_eq!(qr, vec![1.0, 2.0, 3.0]);
            assert_eq!(bl, vec![0, 2]);
            assert_eq!(br, vec![3]);
        }
        _ => panic!("column kind changed"),
    }
}
