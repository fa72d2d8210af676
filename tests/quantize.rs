use treelearn::dataset::Column;
use treelearn::quantize::{evenly_spaced, quantize, quantize_column, sample_indices};
use treelearn::util::{binary_search, linear_search, lower_bound};

#[test]
fn searches_agree_on_edge_inputs() {
    let cases: Vec<Vec<f32>> = vec![
        vec![],
        vec![1.0],
        vec![1.0, 1.0, 1.0],
        vec![0.0, 1.0, 1.0, 2.0, 3.0, 3.0, 3.0, 7.5],
        (0..100).map(|i| (i / 3) as f32).collect(),
    ];
    for s in &cases {
        for t in [-1.0f32, 0.0, 0.5, 1.0, 1.5, 2.0, 3.0, 7.5, 8.0, 20.0, 40.0] {
            assert_eq!(binary_search(s, &t), linear_search(s, &t), "{:?} {}", s, t);
        }
    }
}

#[test]
fn search_gives_insertion_point() {
    let s = vec![1.0f32, 2.0, 2.0, 4.0];
    assert_eq!(binary_search(&s, &0.0), 0);
    assert_eq!(binary_search(&s, &1.0), 1);
    assert_eq!(binary_search(&s, &2.0), 3);
    assert_eq!(binary_search(&s, &3.0), 3);
    assert_eq!(binary_search(&s, &9.0), 4);
    assert_eq!(linear_search(&s, &2.0), 3);
}

#[test]
fn bins_fall_in_their_half_open_interval() {
    let bounds: Vec<f32> = (1..=255).map(|i| i as f32 * 0.5).collect();
    let values: Vec<f32> = (0..400).map(|i| i as f32 * 0.37 - 3.0).collect();
    let bins = quantize(&values, &bounds);
    assert_eq!(bins.len(), values.len());
    for (v, b) in values.iter().zip(&bins) {
        let b = *b as usize;
        if b > 0 {
            assert!(bounds[b - 1] < *v);
        }
        if b < bounds.len() {
            assert!(*v <= bounds[b]);
        }
        assert_eq!(b, bounds.iter().filter(|q| **q < *v).count());
    }
}

#[test]
fn quantize_column_replaces_raw_values() {
    let mut col: Column<f32> = Column::Float(vec![0.0, 2.5, 5.0, 10.0]);
    quantize_column(&mut col, vec![2.5, 5.0, 7.5]);
    match col {
        Column::QuantizedFloat(q, bins) => {
            assert_eq!(q, vec![2.5, 5.0, 7.5]);
            assert_eq!(bins, vec![0, 0, 1, 3]);
        }
        _ => panic!("not quantized"),
    }
}

#[test]
fn value_on_a_boundary_counts_only_boundaries_below() {
    assert_eq!(quantize(&[1.0f32], &[1.0, 2.0]), vec![0]);
    assert_eq!(quantize(&[2.0f32, 2.5], &[1.0, 2.0]), vec![1, 2]);
    assert_eq!(quantize(&[3.0f32, 3.0], &[3.0, 3.0, 3.0]), vec![0, 0]);
    assert_eq!(quantize::<f32>(&[], &[1.0]), Vec::<u8>::new());
    assert_eq!(quantize(&[7.0f32], &[]), vec![0]);
}

#[test]
fn lower_bound_counts_elements_below() {
    let s = vec![1.0f32, 2.0, 2.0, 4.0];
    assert_eq!(lower_bound(&s, &0.0), 0);
    assert_eq!(lower_bound(&s, &1.0), 0);
    assert_eq!(lower_bound(&s, &2.0), 1);
    assert_eq!(lower_bound(&s, &3.0), 3);
    assert_eq!(lower_bound(&s, &9.0), 4);
    assert_eq!(lower_bound::<f32>(&[], &9.0), 0);
}

#[test]
fn quantize_column_leaves_text_alone() {
    let mut col: Column<f32> = Column::String(vec!["a".into()]);
    quantize_column(&mut col, vec![1.0]);
    assert!(matches!(col, Column::String(ref s) if s == &vec!["a".to_string()]));
}

#[test]
fn evenly_spaced_takes_run_heads() {
    let sorted: Vec<u32> = (0..10).collect();
    assert_eq!(evenly_spaced(&sorted, 3), vec![0, 3, 6, 9]);
    assert_eq!(evenly_spaced(&sorted, 5), vec![0, 2, 4, 6, 8]);
    assert_eq!(evenly_spaced(&sorted, 10), sorted);
    let hundreds: Vec<u32> = (0..25500).collect();
    let picks = evenly_spaced(&hundreds, 255);
    assert_eq!(picks.len(), 255);
    assert_eq!(picks[1], 100);
}

#[test]
fn sampled_indices_stay_in_range() {
    let idx = sample_indices(1000, 7);
    assert_eq!(idx.len(), 1000);
    assert!(idx.iter().all(|&i| i < 7));
    let one = sample_indices(50, 1);
    assert!(one.iter().all(|&i| i == 0));
}
