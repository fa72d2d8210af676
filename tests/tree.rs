use treelearn::dataset::{Column, Dataset};
use treelearn::tree::{best_bin, build_tree, column_candidate, split, Tree};

/// Cumulative within-group variance per bin, scored for each quantized column.
fn variance_curves(d: &Dataset<f32>) -> Vec<Vec<f32>> {
    d.inputs
        .iter()
        .map(|(_, c)| match c {
            Column::QuantizedFloat(_, bins) => {
                let mut count = [0usize; 256];
                let mut sum = [0f32; 256];
                for (b, y) in bins.iter().zip(&d.labels) {
                    count[*b as usize] += 1;
                    sum[*b as usize] += y;
                }
                let mut mean = [0f32; 256];
                let (mut n, mut s) = (0usize, 0f32);
                for b in 0..256 {
                    n += count[b];
                    s += sum[b];
                    mean[b] = s / n as f32;
                }
                let mut dev = [0f32; 256];
                for (b, y) in bins.iter().zip(&d.labels) {
                    let m = mean[*b as usize];
                    dev[*b as usize] += (y - m) * (y - m);
                }
                let (mut n, mut s) = (0usize, 0f32);
                (0..256)
                    .map(|b| {
                        n += count[b];
                        s += dev[b];
                        s / n as f32
                    })
                    .collect()
            }
            _ => vec![],
        })
        .collect()
}

fn step_dataset() -> Dataset<f32> {
    let xs: Vec<f32> = (1..=10).map(|i| i as f32).collect();
    let (min, max) = (1.0f32, 10.0f32);
    let step = (max - min) / 256.0;
    let bounds: Vec<f32> = (1..=255).map(|i| min + step * i as f32).collect();
    let mut col = Column::Float(xs);
    treelearn::quantize::quantize_column(&mut col, bounds);
    let mut d = Dataset::new();
    d.inputs.push(("x".to_string(), col));
    d.labels = vec![0.0, 0.0, 0.0, 0.0, 0.0, 10.0, 10.0, 10.0, 10.0, 10.0];
    d
}

#[test]
fn best_bin_takes_last_least_ordered_score() {
    assert_eq!(best_bin(&[3.0f32, f32::NAN, 1.0, 2.0, 1.0]), Some(4));
    assert_eq!(best_bin(&[3.0f32, 1.0, 2.0, f32::NAN]), Some(1));
    assert_eq!(best_bin(&[f32::NAN, f32::NAN]), None);
    assert_eq!(best_bin::<f32>(&[]), None);
    assert_eq!(best_bin(&[f32::NAN, 0.0, 0.0, f32::NAN]), Some(2));
}

#[test]
fn candidate_needs_a_boundary_above_the_bin() {
    let q = [1.0f32, 2.0, 3.0];
    assert_eq!(column_candidate(&q, &[5.0, 4.0, 6.0]), Some((2, 3.0, 4.0)));
    assert_eq!(column_candidate(&q, &[5.0, 4.0, 1.0]), None);
    assert_eq!(column_candidate(&q, &[f32::NAN; 3]), None);
}

#[test]
fn step_labels_split_between_five_and_six() {
    // every bin below the one of x = 6 has a left side of zero variance; the
    // last of them wins, so both sides are homogeneous
    let d = step_dataset();
    let curves = variance_curves(&d);
    let (name, threshold, left, right) = split(&d, &curves).expect("a split");
    assert_eq!(name, "x");
    assert!(threshold > 5.0 && threshold < 6.1, "{}", threshold);
    assert_eq!(left.labels, vec![0.0; 5]);
    assert_eq!(right.labels, vec![10.0; 5]);
}

#[test]
fn step_labels_one_level_tree() {
    match build_tree(step_dataset(), 1, 1, &variance_curves) {
        Tree::Branch(name, _, l, r) => {
            assert_eq!(name, "x");
            assert!(matches!(*l, Tree::Leaf(ref d) if d.labels == vec![0.0; 5]));
            assert!(matches!(*r, Tree::Leaf(ref d) if d.labels == vec![10.0; 5]));
        }
        _ => panic!("expected a branch"),
    }
}

#[test]
fn split_prefers_first_column_on_equal_scores() {
    let mut d = Dataset::new();
    d.labels = vec![1.0, 2.0];
    d.inputs.push(("a".to_string(), Column::QuantizedFloat(vec![0.0, 1.0], vec![0, 1])));
    d.inputs.push(("b".to_string(), Column::QuantizedFloat(vec![0.0, 1.0], vec![0, 1])));
    let curves = vec![vec![0.25f32, 0.5], vec![0.25f32, 0.5]];
    let (name, threshold, left, right) = split(&d, &curves).expect("a split");
    assert_eq!(name, "a");
    assert_eq!(threshold, 1.0);
    assert_eq!(left.labels, vec![1.0]);
    assert_eq!(right.labels, vec![2.0]);
    let curves = vec![vec![0.5f32, 0.9], vec![0.25f32, 0.9]];
    let (name, _, _, _) = split(&d, &curves).expect("a split");
    assert_eq!(name, "b");
    let curves = vec![vec![0.5f32, 0.25], vec![f32::NAN, 0.0]];
    assert!(split(&d, &curves).is_none());
}

#[test]
fn no_quantized_column_means_no_split_and_one_leaf() {
    let mut d = Dataset::new();
    d.labels = (0..20).map(|i| i as f32).collect();
    d.inputs.push(("raw".to_string(), Column::Float((0..20).map(|i| i as f32).collect())));
    d.inputs.push(("txt".to_string(), Column::String((0..20).map(|i| i.to_string()).collect())));
    assert!(split(&d, &variance_curves(&d)).is_none());
    let t = build_tree(d, 8, 1, &variance_curves);
    match t {
        Tree::Leaf(leaf) => assert_eq!(leaf.labels.len(), 20),
        _ => panic!("expected a leaf"),
    }
}

#[test]
fn zero_depth_gives_the_dataset_back() {
    let d = step_dataset();
    let t = build_tree(d, 0, 1, &variance_curves);
    match t {
        Tree::Leaf(leaf) => {
            assert_eq!(leaf.labels, step_dataset().labels);
            assert_eq!(leaf.inputs.len(), 1);
        }
        _ => panic!("expected a leaf"),
    }
}

#[test]
fn small_nodes_become_leaves() {
    let t = build_tree(step_dataset(), 5, 10, &variance_curves);
    match t {
        Tree::Branch(name, _, l, r) => {
            assert_eq!(name, "x");
            assert!(matches!(*l, Tree::Leaf(ref d) if d.labels == vec![0.0; 5]));
            assert!(matches!(*r, Tree::Leaf(ref d) if d.labels == vec![10.0; 5]));
        }
        _ => panic!("expected a branch"),
    }
    let t = build_tree(step_dataset(), 5, 11, &variance_curves);
    assert!(matches!(t, Tree::Leaf(_)));
}

#[test]
fn homogeneous_nodes_stop_splitting() {
    // a node whose labels are all equal scores zero at every bin up to the
    // last, which has no boundary above it: no candidate, so a leaf
    match build_tree(step_dataset(), 4, 1, &variance_curves) {
        Tree::Branch(_, _, l, r) => {
            assert!(matches!(*l, Tree::Leaf(ref d) if d.labels.len() == 5));
            assert!(matches!(*r, Tree::Leaf(ref d) if d.labels.len() == 5));
        }
        _ => panic!("expected a branch"),
    }
}

#[test]
fn map_keeps_shape_and_summarises_leaves() {
    let t = build_tree(step_dataset(), 3, 10, &variance_curves);
    let means = t.map(&|d: Dataset<f32>| {
        d.labels.iter().sum::<f32>() / d.labels.len() as f32
    });
    match means {
        Tree::Branch(name, threshold, l, r) => {
            assert_eq!(name, "x");
            assert!(threshold > 5.0 && threshold < 6.1);
            assert!(matches!(*l, Tree::Leaf(m) if m == 0.0));
            assert!(matches!(*r, Tree::Leaf(m) if m == 10.0));
        }
        _ => panic!("expected a branch"),
    }
}

#[test]
fn map_with_identity_gives_same_tree() {
    let t: Tree<u32, f32> = Tree::Branch(
        "c".to_string(),
        2.5,
        Box::new(Tree::Leaf(1)),
        Box::new(Tree::Branch(
            "d".to_string(),
            -1.0,
            Box::new(Tree::Leaf(2)),
            Box::new(Tree::Leaf(3)),
        )),
    );
    let shown = format!("{:?}", t);
    let m = t.map(&|x| x);
    assert_eq!(format!("{:?}", m), shown);
}
