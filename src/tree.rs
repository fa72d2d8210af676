use vstd::prelude::*;
use crate::dataset::{Column, Dataset};
use crate::util::below;
use core::cmp::Ordering;
use vstd::std_specs::cmp::PartialOrdSpec;

verus! {

/// A binary tree: leaves carry a payload, branches a column name, a
/// threshold and two owned subtrees (rows below the cutoff on the left).
#[derive(Debug)]
pub enum Tree<T, V> {
    Leaf(T),
    Branch(String, V, Box<Tree<T, V>>, Box<Tree<T, V>>),
}

impl<T, V> Tree<T, V> {
    /// The tree with every payload erased.
    pub open spec fn shape(&self) -> Tree<(), V>
        decreases self,
    {
        match self {
            Tree::Leaf(_) => Tree::Leaf(()),
            Tree::Branch(name, threshold, left, right) => Tree::Branch(
                *name,
                *threshold,
                Box::new(left.shape()),
                Box::new(right.shape()),
            ),
        }
    }

    /// The payloads, left to right.
    pub open spec fn leaves(&self) -> Seq<T>
        decreases self,
    {
        match self {
            Tree::Leaf(x) => seq![*x],
            Tree::Branch(_, _, left, right) => left.leaves() + right.leaves(),
        }
    }

    /// Replaces each payload by `f` of it, keeping the branches as they are.
    pub fn map<F, B>(self, f: &F) -> (r: Tree<B, V>)
        where
            F: Fn(T) -> B,
        requires
            forall|x: T| f.requires((x,)),
        ensures
            r.shape() == self.shape(),
            r.leaves().len() == self.leaves().len(),
            forall|i: int|
                0 <= i < self.leaves().len() ==> f.ensures((self.leaves()[i],), #[trigger] r.leaves()[i]),
        decreases self,
    {
        match self {
            Tree::Leaf(x) => Tree::Leaf(f(x)),
            Tree::Branch(name, threshold, left, right) => {
                let ghost ll = left.leaves();
                let ghost rl = right.leaves();
                let l = left.map(f);
                let r = right.map(f);
                let t = Tree::Branch(name, threshold, Box::new(l), Box::new(r));
                proof {
                    assert forall|i: int| 0 <= i < ll.len() + rl.len() implies f.ensures(
                        ((ll + rl)[i],),
                        #[trigger] t.leaves()[i],
                    ) by {
                        if i < ll.len() {
                            assert(t.leaves()[i] == l.leaves()[i]);
                        } else {
                            assert(t.leaves()[i] == r.leaves()[i - ll.len()]);
                        }
                    }
                }
                t
            },
        }
    }
}

/// A tree is determined by its shape and its payloads.
pub proof fn lemma_shape_and_leaves_determine<T, V>(a: Tree<T, V>, b: Tree<T, V>)
    requires
        a.shape() == b.shape(),
        a.leaves() == b.leaves(),
    ensures
        a == b,
    decreases a,
{
    match (a, b) {
        (Tree::Branch(_, _, al, ar), Tree::Branch(_, _, bl, br)) => {
            lemma_leaves_len_by_shape(*al, *bl);
            assert(al.leaves() =~= a.leaves().subrange(0, al.leaves().len() as int));
            assert(bl.leaves() =~= b.leaves().subrange(0, bl.leaves().len() as int));
            assert(ar.leaves() =~= a.leaves().subrange(al.leaves().len() as int, a.leaves().len() as int));
            assert(br.leaves() =~= b.leaves().subrange(bl.leaves().len() as int, b.leaves().len() as int));
            lemma_shape_and_leaves_determine(*al, *bl);
            lemma_shape_and_leaves_determine(*ar, *br);
        },
        (Tree::Leaf(x), Tree::Leaf(y)) => {
            assert(a.leaves()[0] == x);
            assert(b.leaves()[0] == y);
        },
        _ => {},
    }
}

/// Trees of one shape have as many payloads.
pub proof fn lemma_leaves_len_by_shape<T, U, V>(a: Tree<T, V>, b: Tree<U, V>)
    requires
        a.shape() == b.shape(),
    ensures
        a.leaves().len() == b.leaves().len(),
    decreases a,
{
    match (a, b) {
        (Tree::Branch(_, _, al, ar), Tree::Branch(_, _, bl, br)) => {
            lemma_leaves_len_by_shape(*al, *bl);
            lemma_leaves_len_by_shape(*ar, *br);
        },
        _ => {},
    }
}

/// Mapping with a function that hands back its argument gives back a tree of
/// the same shape, with the same branch names and thresholds, and the same
/// payloads: the tree itself.
pub proof fn lemma_map_identity<T, V, F: Fn(T) -> T>(t: Tree<T, V>, f: F, r: Tree<T, V>)
    requires
        forall|x: T, y: T| f.ensures((x,), y) ==> y == x,
        r.shape() == t.shape(),
        r.leaves().len() == t.leaves().len(),
        forall|i: int| 0 <= i < t.leaves().len() ==> f.ensures((t.leaves()[i],), #[trigger] r.leaves()[i]),
    ensures
        r == t,
{
    assert forall|i: int| 0 <= i < t.leaves().len() implies r.leaves()[i] == t.leaves()[i] by {
        assert(f.ensures((t.leaves()[i],), r.leaves()[i]));
    }
    assert(r.leaves() =~= t.leaves());
    lemma_shape_and_leaves_determine(r, t);
}

/// The flags of the rows whose bin index lies below `cutoff`.
pub open spec fn below_cutoff(bins: Seq<u8>, cutoff: usize) -> Seq<bool> {
    Seq::new(bins.len(), |i: int| (bins[i] as usize) < cutoff)
}

/// Splits `dataset` on the bins of column `column`: rows whose bin index
/// lies below `cutoff` go left, the others right. `None` when there is no
/// such column or it is not quantized.
pub fn split_at_cutoff<V: Copy>(dataset: &Dataset<V>, column: usize, cutoff: usize) -> (r: Option<
    (Dataset<V>, Dataset<V>),
>)
    requires
        dataset.wf(),
    ensures
        r is Some <==> column < dataset.inputs@.len()
            && dataset.inputs@[column as int].1 is QuantizedFloat,
        r matches Some((left, right)) ==> {
            &&& left.wf()
            &&& right.wf()
            &&& match dataset.inputs@[column as int].1 {
                Column::QuantizedFloat(_, bins) => {
                    &&& left.part_of(dataset, below_cutoff(bins@, cutoff), true)
                    &&& right.part_of(dataset, below_cutoff(bins@, cutoff), false)
                },
                _ => false,
            }
        },
{
    if column >= dataset.inputs.len() {
        return None;
    }
    match &dataset.inputs[column].1 {
        Column::QuantizedFloat(_, bins) => {
            assert(bins@.len() == dataset.labels@.len());
            // row indices fit in a usize
            assert(bins@.len() == bins.len());
            let goes_left = |i: usize| -> (b: bool)
                requires
                    i < bins@.len(),
                ensures
                    b == ((bins@[i as int] as usize) < cutoff),
                { (bins[i] as usize) < cutoff };
            let (left, right) = dataset.partition(goes_left);
            proof {
                let mask = choose|mask: Seq<bool>|
                    {
                        &&& crate::util::answers(goes_left, mask, dataset.labels@.len())
                        &&& left.part_of(dataset, mask, true)
                        &&& right.part_of(dataset, mask, false)
                    };
                assert forall|i: int| 0 <= i < mask.len() implies mask[i] == below_cutoff(
                    bins@,
                    cutoff,
                )[i] by {
                    let j = i as usize;
                    assert(j as int == i);
                    assert(goes_left.ensures((j,), mask[i]));
                }
                assert(mask =~= below_cutoff(bins@, cutoff));
            }
            Some((left, right))
        },
        _ => None,
    }
}

/// `x` is comparable with itself: a score that is not a NaN.
pub open spec fn ordered<V: PartialOrd>(x: V) -> bool {
    x.partial_cmp_spec(&x) == Some(Ordering::Equal)
}

/// `below` orders the values that are comparable with themselves as a
/// strict weak order, as `<` does the floats that are not NaN.
pub open spec fn orders_scores<V: PartialOrd>() -> bool {
    &&& forall|x: V, y: V, z: V|
        ordered(x) && ordered(y) && ordered(z) && #[trigger] below(x, y) && #[trigger] below(y, z)
            ==> below(x, z)
    &&& forall|x: V, y: V, z: V|
        ordered(x) && ordered(y) && ordered(z) && below(x, y) ==> #[trigger] below(x, z)
            || #[trigger] below(z, y)
}

/// Position `k` holds the last least ordered score of `s`: no ordered
/// score lies below it, and every ordered score after it lies above it.
pub open spec fn last_min<V: PartialOrd>(s: Seq<V>, k: int) -> bool {
    &&& 0 <= k < s.len()
    &&& ordered(s[k])
    &&& forall|j: int| 0 <= j < s.len() && ordered(s[j]) ==> !below(#[trigger] s[j], s[k])
    &&& forall|j: int| k < j < s.len() && ordered(s[j]) ==> below(s[k], #[trigger] s[j])
}

/// At most one position is a last least score.
pub proof fn lemma_last_min_unique<V: PartialOrd>(s: Seq<V>, a: int, b: int)
    requires
        last_min(s, a),
        last_min(s, b),
    ensures
        a == b,
{
    if a < b {
        assert(below(s[a], s[b]));
    } else if b < a {
        assert(below(s[b], s[a]));
    }
}

/// The candidate of one quantized column with boundaries `quantiles` and
/// score curve `scores` (one score per bin, the score of splitting after
/// that bin): the cutoff above the bin of the last least score, the
/// boundary there, and the score. None when no score is ordered or the bin
/// is the last one that has a boundary above it.
pub open spec fn bin_candidate<V: PartialOrd>(quantiles: Seq<V>, scores: Seq<V>) -> Option<
    (usize, V, V),
> {
    if exists|k: int| last_min(scores, k) {
        let k = choose|k: int| last_min(scores, k);
        if k + 1 < quantiles.len() {
            Some(((k + 1) as usize, quantiles[k + 1], scores[k]))
        } else {
            None
        }
    } else {
        None
    }
}

/// The last least ordered score of `scores`, if any score is ordered.
pub fn best_bin<V: PartialOrd + Copy>(scores: &[V]) -> (r: Option<usize>)
    requires
        V::obeys_partial_cmp_spec(),
        orders_scores::<V>(),
    ensures
        r is None <==> forall|j: int| 0 <= j < scores@.len() ==> !ordered(#[trigger] scores@[j]),
        r matches Some(k) ==> last_min(scores@, k as int),
{
    let mut best: Option<usize> = None;
    let mut i: usize = 0;
    while i < scores.len()
        invariant
            V::obeys_partial_cmp_spec(),
            orders_scores::<V>(),
            i <= scores@.len(),
            best is None ==> forall|j: int| 0 <= j < i ==> !ordered(#[trigger] scores@[j]),
            best matches Some(b) ==> {
                &&& b < i
                &&& ordered(scores@[b as int])
                &&& forall|j: int|
                    0 <= j < i && ordered(scores@[j]) ==> !below(
                        #[trigger] scores@[j],
                        scores@[b as int],
                    )
                &&& forall|j: int|
                    b < j < i && ordered(scores@[j]) ==> below(
                        scores@[b as int],
                        #[trigger] scores@[j],
                    )
            },
        decreases scores@.len() - i,
    {
        let v = scores[i];
        let o = v.partial_cmp(&v);
        if matches!(o, Some(Ordering::Equal)) {
            match best {
                None => {
                    best = Some(i);
                },
                Some(b) => {
                    let higher = scores[b].lt(&v);
                    proof {
                        let sb = scores@[b as int];
                        assert(higher == below(sb, v));
                        assert(ordered(v));
                    }
                    if higher {
                        proof {
                            let sb = scores@[b as int];
                            assert(!below(v, sb) || !below(sb, v)) by {
                                if below(v, sb) && below(sb, v) {
                                    assert(below(sb, sb));
                                }
                            }
                        }
                    } else {
                        proof {
                            let sb = scores@[b as int];
                            assert forall|j: int| 0 <= j <= i && ordered(scores@[j]) implies !below(
                                #[trigger] scores@[j],
                                v,
                            ) by {
                                if j < i && below(scores@[j], v) {
                                    assert(!below(scores@[j], sb));
                                    assert(below(scores@[j], sb) || below(sb, v));
                                }
                            }
                        }
                        best = Some(i);
                    }
                },
            }
        }
        i = i + 1;
    }
    best
}

/// The candidate split of one quantized column (see `bin_candidate`).
pub fn column_candidate<V: PartialOrd + Copy>(quantiles: &[V], scores: &[V]) -> (r: Option<
    (usize, V, V),
>)
    requires
        V::obeys_partial_cmp_spec(),
        orders_scores::<V>(),
    ensures
        r == bin_candidate(quantiles@, scores@),
{
    match best_bin(scores) {
        Some(k) => {
            proof {
                let c = choose|c: int| last_min(scores@, c);
                lemma_last_min_unique(scores@, c, k as int);
            }
            if quantiles.len() > 0 && k < quantiles.len() - 1 {
                Some((k + 1, quantiles[k + 1], scores[k]))
            } else {
                None
            }
        },
        None => {
            proof {
                assert forall|k: int| !last_min(scores@, k) by {
                    if 0 <= k < scores@.len() {
                        assert(!ordered(scores@[k]));
                    }
                }
            }
            None
        },
    }
}

/// The candidate of column `c` of `d`, scored by `curves[c]`: none for a
/// column that is not quantized or has no curve.
pub open spec fn candidate_at<V: PartialOrd>(d: Dataset<V>, curves: Seq<Vec<V>>, c: int) -> Option<
    (usize, V, V),
> {
    if 0 <= c < d.inputs@.len() && c < curves.len() {
        match d.inputs@[c].1 {
            Column::QuantizedFloat(q, _) => bin_candidate(q@, curves[c]@),
            _ => None,
        }
    } else {
        None
    }
}

/// Column `c` has the least candidate score, and the first one in column
/// order among equal scores.
pub open spec fn best_column<V: PartialOrd>(d: Dataset<V>, curves: Seq<Vec<V>>, c: int) -> bool {
    &&& 0 <= c < d.inputs@.len()
    &&& candidate_at(d, curves, c) is Some
    &&& forall|j: int|
        0 <= j < d.inputs@.len() && (#[trigger] candidate_at(d, curves, j)) is Some ==> !below(
            candidate_at(d, curves, j).unwrap().2,
            candidate_at(d, curves, c).unwrap().2,
        )
    &&& forall|j: int|
        0 <= j < c && (#[trigger] candidate_at(d, curves, j)) is Some ==> below(
            candidate_at(d, curves, c).unwrap().2,
            candidate_at(d, curves, j).unwrap().2,
        )
}

/// `left` and `right` are the rows of `d` below and from the cutoff of
/// column `c`'s candidate.
pub open spec fn split_by_candidate<V: PartialOrd + Copy>(
    d: Dataset<V>,
    curves: Seq<Vec<V>>,
    c: int,
    left: Dataset<V>,
    right: Dataset<V>,
) -> bool {
    match d.inputs@[c].1 {
        Column::QuantizedFloat(_, bins) => {
            let cut = candidate_at(d, curves, c).unwrap().0;
            &&& left.part_of(&d, below_cutoff(bins@, cut), true)
            &&& right.part_of(&d, below_cutoff(bins@, cut), false)
        },
        _ => false,
    }
}

/// Chooses the split of `dataset`: over its quantized columns, each scored
/// by its curve in `curves`, the candidate with the least score (the first
/// column among equal ones), and the two sides of the rows it separates.
/// None when no column has a candidate.
pub fn split<V: PartialOrd + Copy>(dataset: &Dataset<V>, curves: &Vec<Vec<V>>) -> (r: Option<
    (String, V, Dataset<V>, Dataset<V>),
>)
    requires
        dataset.wf(),
        V::obeys_partial_cmp_spec(),
        orders_scores::<V>(),
    ensures
        r is None <==> forall|c: int|
            0 <= c < dataset.inputs@.len() ==> (#[trigger] candidate_at(*dataset, curves@, c)) is None,
        r matches Some((name, threshold, left, right)) ==> exists|c: int|
            {
                &&& #[trigger] best_column(*dataset, curves@, c)
                &&& name == dataset.inputs@[c].0
                &&& threshold == candidate_at(*dataset, curves@, c).unwrap().1
                &&& left.wf()
                &&& right.wf()
                &&& split_by_candidate(*dataset, curves@, c, left, right)
            },
{
    let mut best: Option<(usize, usize, V, V)> = None;
    let mut c: usize = 0;
    while c < dataset.inputs.len()
        invariant
            dataset.wf(),
            V::obeys_partial_cmp_spec(),
            orders_scores::<V>(),
            c <= dataset.inputs@.len(),
            best is None ==> forall|j: int|
                0 <= j < c ==> (#[trigger] candidate_at(*dataset, curves@, j)) is None,
            best matches Some((b, cut, th, sc)) ==> {
                &&& b < c
                &&& candidate_at(*dataset, curves@, b as int) == Some((cut, th, sc))
                &&& ordered(sc)
                &&& forall|j: int|
                    0 <= j < c && (#[trigger] candidate_at(*dataset, curves@, j)) is Some ==> !below(
                        candidate_at(*dataset, curves@, j).unwrap().2,
                        sc,
                    )
                &&& forall|j: int|
                    0 <= j < b && (#[trigger] candidate_at(*dataset, curves@, j)) is Some ==> below(
                        sc,
                        candidate_at(*dataset, curves@, j).unwrap().2,
                    )
            },
        decreases dataset.inputs@.len() - c,
    {
        let found = if c < curves.len() {
            match &dataset.inputs[c].1 {
                Column::QuantizedFloat(quantiles, _) => column_candidate(quantiles, &curves[c]),
                _ => None,
            }
        } else {
            None
        };
        assert(found == candidate_at(*dataset, curves@, c as int));
        match found {
            Some((cut, th, sc)) => {
                proof {
                    let q = match dataset.inputs@[c as int].1 {
                        Column::QuantizedFloat(q, _) => q@,
                        _ => Seq::empty(),
                    };
                    let k = choose|k: int| last_min(curves@[c as int]@, k);
                    assert(sc == curves@[c as int]@[k]);
                    assert(ordered(sc));
                }
                match best {
                    None => {
                        best = Some((c, cut, th, sc));
                    },
                    Some((b, _, _, bs)) => {
                        if sc.lt(&bs) {
                            proof {
                                assert(below(sc, bs));
                                assert forall|j: int|
                                    0 <= j <= c && (#[trigger] candidate_at(
                                        *dataset,
                                        curves@,
                                        j,
                                    )) is Some implies !below(
                                    candidate_at(*dataset, curves@, j).unwrap().2,
                                    sc,
                                ) by {
                                    let sj = candidate_at(*dataset, curves@, j).unwrap().2;
                                    if j < c {
                                        lemma_candidate_ordered(*dataset, curves@, j);
                                        if below(sj, sc) {
                                            assert(below(sj, bs));
                                        }
                                    }
                                }
                                assert forall|j: int|
                                    0 <= j < c && (#[trigger] candidate_at(
                                        *dataset,
                                        curves@,
                                        j,
                                    )) is Some implies below(
                                    sc,
                                    candidate_at(*dataset, curves@, j).unwrap().2,
                                ) by {
                                    let sj = candidate_at(*dataset, curves@, j).unwrap().2;
                                    lemma_candidate_ordered(*dataset, curves@, j);
                                    assert(!below(sj, bs));
                                    assert(below(sc, sj) || below(sj, bs));
                                }
                            }
                            best = Some((c, cut, th, sc));
                        }
                    },
                }
            },
            None => {},
        }
        c = c + 1;
    }
    match best {
        Some((b, cut, th, _)) => {
            match split_at_cutoff(dataset, b, cut) {
                Some((left, right)) => {
                    let name = dataset.inputs[b].0.clone();
                    proof {
                        assert(best_column(*dataset, curves@, b as int));
                    }
                    Some((name, th, left, right))
                },
                None => {
                    assert(false);
                    None
                },
            }
        },
        None => None,
    }
}

/// A column's candidate score is ordered.
proof fn lemma_candidate_ordered<V: PartialOrd>(d: Dataset<V>, curves: Seq<Vec<V>>, c: int)
    requires
        candidate_at(d, curves, c) is Some,
    ensures
        ordered(candidate_at(d, curves, c).unwrap().2),
{
    let k = choose|k: int| last_min(curves[c]@, k);
    assert(candidate_at(d, curves, c).unwrap().2 == curves[c]@[k]);
}

/// `t` is what growing a tree from `d` with depth budget `depth`, minimum
/// node size `min_rows` and score curves from `score` can give. A node
/// becomes a leaf holding its dataset when the budget is spent, when it has
/// fewer than `min_rows` rows, or when no column has a candidate under the
/// curves scored for it; otherwise it becomes a branch on the best column
/// and the boundary of its candidate, whose subtrees are grown, with one
/// less unit of budget, from the rows below the cutoff and from the others.
pub open spec fn grown<V: PartialOrd + Copy, S: Fn(&Dataset<V>) -> Vec<Vec<V>>>(
    t: Tree<Dataset<V>, V>,
    d: Dataset<V>,
    depth: nat,
    min_rows: nat,
    score: S,
) -> bool
    decreases t,
{
    match t {
        Tree::Leaf(x) => {
            &&& x == d
            &&& (depth == 0 || d.labels@.len() < min_rows || exists|curves: Vec<Vec<V>>|
                #[trigger] score.ensures((&d,), curves) && forall|c: int|
                    0 <= c < d.inputs@.len() ==> (#[trigger] candidate_at(d, curves@, c)) is None)
        },
        Tree::Branch(name, threshold, left, right) => {
            &&& depth > 0
            &&& d.labels@.len() >= min_rows
            &&& exists|curves: Vec<Vec<V>>, c: int|
                {
                    &&& #[trigger] score.ensures((&d,), curves)
                    &&& #[trigger] best_column(d, curves@, c)
                    &&& d.inputs@[c].0 == name
                    &&& candidate_at(d, curves@, c).unwrap().1 == threshold
                    &&& exists|ld: Dataset<V>, rd: Dataset<V>|
                        {
                            &&& #[trigger] split_by_candidate(d, curves@, c, ld, rd)
                            &&& grown(*left, ld, (depth - 1) as nat, min_rows, score)
                            &&& grown(*right, rd, (depth - 1) as nat, min_rows, score)
                        }
                }
        },
    }
}

/// Grows a regression tree from `dataset`. `score` gives, for a node's
/// dataset, the score curve of each column (see `split`).
pub fn build_tree<V: PartialOrd + Copy, S>(
    dataset: Dataset<V>,
    max_depth: usize,
    min_rows: usize,
    score: &S,
) -> (r: Tree<Dataset<V>, V>)
    where
        S: Fn(&Dataset<V>) -> Vec<Vec<V>>,
    requires
        dataset.wf(),
        V::obeys_partial_cmp_spec(),
        orders_scores::<V>(),
        forall|d: Dataset<V>| score.requires((&d,)),
    ensures
        grown(r, dataset, max_depth as nat, min_rows as nat, *score),
        max_depth == 0 ==> r == Tree::<Dataset<V>, V>::Leaf(dataset),
    decreases max_depth,
{
    if max_depth == 0 || dataset.labels.len() < min_rows {
        return Tree::Leaf(dataset);
    }
    let curves = score(&dataset);
    match split(&dataset, &curves) {
        Some((name, threshold, left, right)) => {
            let ghost c = choose|c: int|
                {
                    &&& #[trigger] best_column(dataset, curves@, c)
                    &&& name == dataset.inputs@[c].0
                    &&& threshold == candidate_at(dataset, curves@, c).unwrap().1
                    &&& left.wf()
                    &&& right.wf()
                    &&& split_by_candidate(dataset, curves@, c, left, right)
                };
            let ghost (l0, r0) = (left, right);
            let lt = build_tree(left, max_depth - 1, min_rows, score);
            let rt = build_tree(right, max_depth - 1, min_rows, score);
            proof {
                assert(score.ensures((&dataset,), curves));
                assert(split_by_candidate(dataset, curves@, c, l0, r0));
            }
            Tree::Branch(name, threshold, Box::new(lt), Box::new(rt))
        },
        None => {
            assert(score.ensures((&dataset,), curves));
            Tree::Leaf(dataset)
        },
    }
}

/// With no depth budget the tree is a single leaf holding the dataset.
pub proof fn lemma_no_depth_single_leaf<V: PartialOrd + Copy, S: Fn(&Dataset<V>) -> Vec<Vec<V>>>(
    t: Tree<Dataset<V>, V>,
    d: Dataset<V>,
    min_rows: nat,
    score: S,
)
    requires
        grown(t, d, 0, min_rows, score),
    ensures
        t == Tree::<Dataset<V>, V>::Leaf(d),
{
}

/// A dataset without quantized columns has no split candidate, whatever the
/// score curves: `split` reports none.
pub proof fn lemma_unquantized_no_candidate<V: PartialOrd>(d: Dataset<V>, curves: Seq<Vec<V>>)
    requires
        forall|i: int| 0 <= i < d.inputs@.len() ==> !(#[trigger] d.inputs@[i].1 is QuantizedFloat),
    ensures
        forall|c: int| 0 <= c < d.inputs@.len() ==> (#[trigger] candidate_at(d, curves, c)) is None,
{
    assert forall|c: int| 0 <= c < d.inputs@.len() implies (#[trigger] candidate_at(d, curves, c)) is None by {
        assert(!(d.inputs@[c].1 is QuantizedFloat));
    }
}

/// A dataset without quantized columns has no split candidate: whatever the
/// depth budget and the scores, the tree is a single leaf holding it.
pub proof fn lemma_unquantized_single_leaf<V: PartialOrd + Copy, S: Fn(&Dataset<V>) -> Vec<Vec<V>>>(
    t: Tree<Dataset<V>, V>,
    d: Dataset<V>,
    depth: nat,
    min_rows: nat,
    score: S,
)
    requires
        grown(t, d, depth, min_rows, score),
        forall|i: int| 0 <= i < d.inputs@.len() ==> !(#[trigger] d.inputs@[i].1 is QuantizedFloat),
    ensures
        t == Tree::<Dataset<V>, V>::Leaf(d),
{
    match t {
        Tree::Branch(..) => {
            let (curves, c) = choose|curves: Vec<Vec<V>>, c: int|
                {
                    &&& #[trigger] score.ensures((&d,), curves)
                    &&& #[trigger] best_column(d, curves@, c)
                    &&& d.inputs@[c].0 == t->Branch_0
                    &&& candidate_at(d, curves@, c).unwrap().1 == t->Branch_1
                    &&& exists|ld: Dataset<V>, rd: Dataset<V>|
                        {
                            &&& #[trigger] split_by_candidate(d, curves@, c, ld, rd)
                            &&& grown(*t->Branch_2, ld, (depth - 1) as nat, min_rows, score)
                            &&& grown(*t->Branch_3, rd, (depth - 1) as nat, min_rows, score)
                        }
                };
            assert(!(d.inputs@[c].1 is QuantizedFloat));
        },
        _ => {},
    }
}

} // verus!
