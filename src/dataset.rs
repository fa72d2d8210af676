use vstd::prelude::*;
use crate::util::{
    VecExt, answers, clones_of, select, partition_copies, lemma_select_len_by_mask, lemma_select_sizes,
};

verus! {

/// One named feature: raw values, values reduced to bins, or text.
#[derive(Debug)]
pub enum Column<V> {
    /// One value per row.
    Float(Vec<V>),
    /// Ascending bin boundaries, and one bin index per row.
    QuantizedFloat(Vec<V>, Vec<u8>),
    /// One string per row.
    String(Vec<String>),
}

impl<V: Copy> Column<V> {
    /// Number of rows the column holds.
    pub open spec fn rows(&self) -> nat {
        match self {
            Column::Float(d) => d@.len(),
            Column::QuantizedFloat(_, b) => b@.len(),
            Column::String(d) => d@.len(),
        }
    }

    /// `self` is the side `side` of `whole` under `mask`: same kind of column,
    /// the same boundaries, per-row entries selected in order.
    pub open spec fn part_of(&self, whole: &Column<V>, mask: Seq<bool>, side: bool) -> bool {
        match (whole, self) {
            (Column::Float(a), Column::Float(b)) => select(a@, mask, side) == b@,
            (Column::QuantizedFloat(q, a), Column::QuantizedFloat(p, b)) => {
                &&& q@ == p@
                &&& select(a@, mask, side) == b@
            },
            (Column::String(a), Column::String(b)) => select(a@, mask, side) == b@,
            _ => false,
        }
    }

    /// Splits the rows in two, keeping their order: rows whose index
    /// satisfies `predicate` go left, the others right.
    pub fn partition<F: Fn(usize) -> bool>(&self, predicate: F) -> (r: (Self, Self))
        requires
            forall|i: usize| i < self.rows() ==> predicate.requires((i,)),
        ensures
            exists|mask: Seq<bool>|
                {
                    &&& answers(predicate, mask, self.rows())
                    &&& r.0.part_of(self, mask, true)
                    &&& r.1.part_of(self, mask, false)
                },
    {
        match self {
            Column::Float(data) => {
                let (left, right) = partition_copies(data, predicate);
                let r = (Column::Float(left), Column::Float(right));
                proof {
                    let mask = choose|mask: Seq<bool>|
                        {
                            &&& answers(predicate, mask, data@.len())
                            &&& select(data@, mask, true) == left@
                            &&& select(data@, mask, false) == right@
                        };
                    assert(r.0.part_of(self, mask, true) && r.1.part_of(self, mask, false));
                }
                r
            },
            Column::QuantizedFloat(quantiles, data) => {
                let (left, right) = data.partition_by_index(predicate);
                let q1 = vstd::slice::slice_to_vec(quantiles.as_slice());
                let q2 = vstd::slice::slice_to_vec(quantiles.as_slice());
                let r = (Column::QuantizedFloat(q1, left), Column::QuantizedFloat(q2, right));
                proof {
                    let mask = choose|mask: Seq<bool>|
                        {
                            &&& answers(predicate, mask, data@.len())
                            &&& clones_of(select(data@, mask, true), left@)
                            &&& clones_of(select(data@, mask, false), right@)
                        };
                    crate::util::lemma_byte_clones(select(data@, mask, true), left@);
                    crate::util::lemma_byte_clones(select(data@, mask, false), right@);
                    assert(r.0.part_of(self, mask, true) && r.1.part_of(self, mask, false));
                }
                r
            },
            Column::String(data) => {
                let (left, right) = data.partition_by_index(predicate);
                let r = (Column::String(left), Column::String(right));
                proof {
                    let mask = choose|mask: Seq<bool>|
                        {
                            &&& answers(predicate, mask, data@.len())
                            &&& clones_of(select(data@, mask, true), left@)
                            &&& clones_of(select(data@, mask, false), right@)
                        };
                    crate::util::lemma_string_clones(select(data@, mask, true), left@);
                    crate::util::lemma_string_clones(select(data@, mask, false), right@);
                    assert(r.0.part_of(self, mask, true) && r.1.part_of(self, mask, false));
                }
                r
            },
        }
    }
}

/// Named feature columns and one label per row. Column names are distinct,
/// and every column has one entry per label.
#[derive(Debug)]
pub struct Dataset<V> {
    pub inputs: Vec<(String, Column<V>)>,
    pub labels: Vec<V>,
}

impl<V: Copy> Dataset<V> {
    pub open spec fn wf(&self) -> bool {
        &&& forall|i: int|
            0 <= i < self.inputs@.len() ==> (#[trigger] self.inputs@[i]).1.rows()
                == self.labels@.len()
        &&& forall|i: int, j: int|
            0 <= i < j < self.inputs@.len() ==> (#[trigger] self.inputs@[i]).0@
                != (#[trigger] self.inputs@[j]).0@
    }

    /// `self` is the side `side` of `whole` under `mask`: the same columns in
    /// the same order, each split as `Column::part_of` says, and the labels
    /// selected in order.
    pub open spec fn part_of(&self, whole: &Dataset<V>, mask: Seq<bool>, side: bool) -> bool {
        &&& select(whole.labels@, mask, side) == self.labels@
        &&& self.inputs@.len() == whole.inputs@.len()
        &&& forall|i: int|
            0 <= i < self.inputs@.len() ==> {
                &&& (#[trigger] self.inputs@[i]).0@ == whole.inputs@[i].0@
                &&& self.inputs@[i].1.part_of(&whole.inputs@[i].1, mask, side)
            }
    }

    /// An empty dataset: no columns, no rows.
    pub fn new() -> (r: Self)
        ensures
            r.wf(),
            r.inputs@.len() == 0,
            r.labels@.len() == 0,
    {
        Dataset { inputs: Vec::new(), labels: Vec::new() }
    }

    /// Splits the rows in two, keeping their order: rows whose index
    /// satisfies `predicate` go left, the others right, in the labels and in
    /// every column alike.
    pub fn partition<F: Fn(usize) -> bool>(&self, predicate: F) -> (r: (Self, Self))
        requires
            self.wf(),
            forall|i: usize| i < self.labels@.len() ==> predicate.requires((i,)),
        ensures
            r.0.wf(),
            r.1.wf(),
            exists|mask: Seq<bool>|
                {
                    &&& answers(predicate, mask, self.labels@.len())
                    &&& r.0.part_of(self, mask, true)
                    &&& r.1.part_of(self, mask, false)
                },
    {
        let n = self.labels.len();
        let mut mask: Vec<bool> = Vec::new();
        let mut i: usize = 0;
        while i < n
            invariant
                n == self.labels@.len(),
                forall|j: usize| j < n ==> predicate.requires((j,)),
                i <= n,
                answers(predicate, mask@, i as nat),
            decreases n - i,
        {
            mask.push(predicate(i));
            i = i + 1;
        }
        let m = &mask;
        let pick = |i: usize| -> (b: bool)
            requires
                i < m@.len(),
            ensures
                b == m@[i as int],
            { m[i] };
        let (left_labels, right_labels) = partition_copies(&self.labels, pick);
        proof {
            let k = choose|k: Seq<bool>|
                {
                    &&& answers(pick, k, n as nat)
                    &&& select(self.labels@, k, true) == left_labels@
                    &&& select(self.labels@, k, false) == right_labels@
                };
            assert(k =~= mask@);
        }
        let mut left = Dataset { inputs: Vec::new(), labels: left_labels };
        let mut right = Dataset { inputs: Vec::new(), labels: right_labels };
        let mut c: usize = 0;
        while c < self.inputs.len()
            invariant
                self.wf(),
                n == self.labels@.len(),
                mask@.len() == n,
                forall|j: usize| j < n ==> pick.requires((j,)),
                forall|j: usize, b: bool| pick.ensures((j,), b) ==> b == mask@[j as int],
                c <= self.inputs@.len(),
                select(self.labels@, mask@, true) == left.labels@,
                select(self.labels@, mask@, false) == right.labels@,
                left.inputs@.len() == c,
                right.inputs@.len() == c,
                forall|i: int|
                    0 <= i < c ==> {
                        &&& (#[trigger] left.inputs@[i]).0@ == self.inputs@[i].0@
                        &&& left.inputs@[i].1.part_of(&self.inputs@[i].1, mask@, true)
                    },
                forall|i: int|
                    0 <= i < c ==> {
                        &&& (#[trigger] right.inputs@[i]).0@ == self.inputs@[i].0@
                        &&& right.inputs@[i].1.part_of(&self.inputs@[i].1, mask@, false)
                    },
            decreases self.inputs@.len() - c,
        {
            let (name, column) = &self.inputs[c];
            assert(column.rows() == n);
            let (left_col, right_col) = column.partition(pick);
            proof {
                let k = choose|k: Seq<bool>|
                    {
                        &&& answers(pick, k, column.rows())
                        &&& left_col.part_of(column, k, true)
                        &&& right_col.part_of(column, k, false)
                    };
                assert(k =~= mask@);
            }
            left.inputs.push((name.clone(), left_col));
            right.inputs.push((name.clone(), right_col));
            c = c + 1;
        }
        proof {
            lemma_part_wf(self, &left, mask@, true);
            lemma_part_wf(self, &right, mask@, false);
        }
        (left, right)
    }
}

/// Partitioning keeps every row exactly once: for the labels and for each
/// column, the rows of the two sides add up to those of the whole, and
/// each side holds its rows in the order they have in the whole (`part_of`).
pub proof fn lemma_partition_keeps_rows<V: Copy>(
    whole: &Dataset<V>,
    left: &Dataset<V>,
    right: &Dataset<V>,
    mask: Seq<bool>,
)
    requires
        whole.wf(),
        mask.len() == whole.labels@.len(),
        left.part_of(whole, mask, true),
        right.part_of(whole, mask, false),
    ensures
        left.labels@.len() + right.labels@.len() == whole.labels@.len(),
        left.inputs@.len() == whole.inputs@.len(),
        right.inputs@.len() == whole.inputs@.len(),
        forall|i: int|
            0 <= i < whole.inputs@.len() ==> (#[trigger] left.inputs@[i]).1.rows()
                + right.inputs@[i].1.rows() == whole.labels@.len(),
{
    let n = whole.labels@.len() as int;
    lemma_select_sizes(whole.labels@, mask, n);
    lemma_part_wf(whole, left, mask, true);
    lemma_part_wf(whole, right, mask, false);
    assert forall|i: int| 0 <= i < whole.inputs@.len() implies (#[trigger] left.inputs@[i]).1.rows()
        + right.inputs@[i].1.rows() == n by {
        assert(left.inputs@[i].1.rows() == left.labels@.len());
        assert(right.inputs@[i].1.rows() == right.labels@.len());
    }
}

/// A side of a well-formed dataset is well formed.
proof fn lemma_part_wf<V: Copy>(whole: &Dataset<V>, part: &Dataset<V>, mask: Seq<bool>, side: bool)
    requires
        whole.wf(),
        part.part_of(whole, mask, side),
    ensures
        part.wf(),
{
    let n = whole.labels@.len() as int;
    assert forall|i: int| 0 <= i < part.inputs@.len() implies (#[trigger] part.inputs@[i]).1.rows()
        == part.labels@.len() by {
        let col = &whole.inputs@[i].1;
        assert(col.rows() == n);
        match col {
            Column::Float(a) => lemma_select_len_by_mask(a@, whole.labels@, mask, side, n),
            Column::QuantizedFloat(_, a) => lemma_select_len_by_mask(
                a@,
                whole.labels@,
                mask,
                side,
                n,
            ),
            Column::String(a) => lemma_select_len_by_mask(a@, whole.labels@, mask, side, n),
        }
    }
    assert forall|i: int, j: int| 0 <= i < j < part.inputs@.len() implies (#[trigger] part.inputs@[i]).0@
        != (#[trigger] part.inputs@[j]).0@ by {
        assert(whole.inputs@[i].0@ != whole.inputs@[j].0@);
    }
}

} // verus!
