use vstd::prelude::*;
use vstd::std_specs::cmp::{PartialOrdIs, PartialOrdSpec};

verus! {

/// The elements of the first `n` positions of `s` whose flag in `mask`
/// equals `side`, in the order they have in `s`.
pub open spec fn select_prefix<T>(s: Seq<T>, mask: Seq<bool>, side: bool, n: int) -> Seq<T>
    decreases n,
{
    if n <= 0 {
        Seq::empty()
    } else {
        let rest = select_prefix(s, mask, side, n - 1);
        if mask[n - 1] == side {
            rest.push(s[n - 1])
        } else {
            rest
        }
    }
}

/// The elements of `s` whose flag in `mask` equals `side`, in order.
pub open spec fn select<T>(s: Seq<T>, mask: Seq<bool>, side: bool) -> Seq<T> {
    select_prefix(s, mask, side, s.len() as int)
}

/// `b` holds clones of the elements of `a`, position by position.
pub open spec fn clones_of<T: Clone>(a: Seq<T>, b: Seq<T>) -> bool {
    &&& a.len() == b.len()
    &&& forall|i: int| 0 <= i < a.len() ==> cloned(#[trigger] a[i], b[i])
}

/// `mask` records what `predicate` answered for each of the indices `0..n`.
pub open spec fn answers<F: Fn(usize) -> bool>(predicate: F, mask: Seq<bool>, n: nat) -> bool {
    &&& mask.len() == n
    &&& forall|i: int| 0 <= i < n ==> predicate.ensures((i as usize,), #[trigger] mask[i])
}

/// Stable partitioning by position.
pub trait VecExt<T: Clone>: Sized + View<V = Seq<T>> {
    /// Splits the elements in two, keeping their order: those whose index
    /// satisfies `predicate` on the left, the others on the right.
    fn partition_by_index<F: Fn(usize) -> bool>(&self, predicate: F) -> (r: (Self, Self))
        requires
            forall|i: usize| i < self@.len() ==> predicate.requires((i,)),
        ensures
            exists|mask: Seq<bool>|
                {
                    &&& answers(predicate, mask, self@.len())
                    &&& clones_of(select(self@, mask, true), r.0@)
                    &&& clones_of(select(self@, mask, false), r.1@)
                },
    ;
}

impl<T: Clone> VecExt<T> for Vec<T> {
    fn partition_by_index<F: Fn(usize) -> bool>(&self, predicate: F) -> (r: (Self, Self)) {
        let mut left: Vec<T> = Vec::new();
        let mut right: Vec<T> = Vec::new();
        let ghost mut mask: Seq<bool> = Seq::empty();
        let mut i: usize = 0;
        while i < self.len()
            invariant
                forall|j: usize| j < self@.len() ==> predicate.requires((j,)),
                i <= self@.len(),
                answers(predicate, mask, i as nat),
                clones_of(select_prefix(self@, mask, true, i as int), left@),
                clones_of(select_prefix(self@, mask, false, i as int), right@),
            decreases self@.len() - i,
        {
            let keep = predicate(i);
            let item = self[i].clone();
            proof {
                lemma_select_prefix_extend(self@, mask, mask.push(keep), i as int);
                mask = mask.push(keep);
            }
            if keep {
                left.push(item);
            } else {
                right.push(item);
            }
            i = i + 1;
        }
        proof {
            lemma_select_prefix_extend(self@, mask, mask, self@.len() as int);
        }
        (left, right)
    }
}

/// Stable partitioning by position of values that are copied: each side is
/// exactly the selected elements, in order.
pub fn partition_copies<T: Copy, F: Fn(usize) -> bool>(v: &Vec<T>, predicate: F) -> (r: (
    Vec<T>,
    Vec<T>,
))
    requires
        forall|i: usize| i < v@.len() ==> predicate.requires((i,)),
    ensures
        exists|mask: Seq<bool>|
            {
                &&& answers(predicate, mask, v@.len())
                &&& select(v@, mask, true) == r.0@
                &&& select(v@, mask, false) == r.1@
            },
{
    let mut left: Vec<T> = Vec::new();
    let mut right: Vec<T> = Vec::new();
    let ghost mut mask: Seq<bool> = Seq::empty();
    let mut i: usize = 0;
    while i < v.len()
        invariant
            forall|j: usize| j < v@.len() ==> predicate.requires((j,)),
            i <= v@.len(),
            answers(predicate, mask, i as nat),
            select_prefix(v@, mask, true, i as int) == left@,
            select_prefix(v@, mask, false, i as int) == right@,
        decreases v@.len() - i,
    {
        let keep = predicate(i);
        let item = v[i];
        proof {
            lemma_select_prefix_extend(v@, mask, mask.push(keep), i as int);
            mask = mask.push(keep);
        }
        if keep {
            left.push(item);
        } else {
            right.push(item);
        }
        i = i + 1;
    }
    assert(answers(predicate, mask, v@.len()));
    assert(select(v@, mask, true) == left@);
    assert(select(v@, mask, false) == right@);
    (left, right)
}

/// `select_prefix` reads only the first `n` flags.
pub proof fn lemma_select_prefix_extend<T>(s: Seq<T>, m1: Seq<bool>, m2: Seq<bool>, n: int)
    requires
        0 <= n,
        n <= m1.len(),
        n <= m2.len(),
        forall|j: int| 0 <= j < n ==> m1[j] == m2[j],
    ensures
        select_prefix(s, m1, true, n) == select_prefix(s, m2, true, n),
        select_prefix(s, m1, false, n) == select_prefix(s, m2, false, n),
    decreases n,
{
    if n > 0 {
        lemma_select_prefix_extend(s, m1, m2, n - 1);
    }
}

/// Every element goes to exactly one side: the two sides together are as
/// long as the whole.
pub proof fn lemma_select_sizes<T>(s: Seq<T>, mask: Seq<bool>, n: int)
    requires
        0 <= n <= s.len(),
        n <= mask.len(),
    ensures
        select_prefix(s, mask, true, n).len() + select_prefix(s, mask, false, n).len() == n,
    decreases n,
{
    if n > 0 {
        lemma_select_sizes(s, mask, n - 1);
    }
}

/// How many elements land on a side depends on the flags alone.
pub proof fn lemma_select_len_by_mask<T, U>(s: Seq<T>, t: Seq<U>, mask: Seq<bool>, side: bool, n: int)
    ensures
        select_prefix(s, mask, side, n).len() == select_prefix(t, mask, side, n).len(),
    decreases n,
{
    if n > 0 {
        lemma_select_len_by_mask(s, t, mask, side, n - 1);
    }
}

/// Clones of strings are the strings themselves.
pub proof fn lemma_string_clones(a: Seq<String>, b: Seq<String>)
    requires
        clones_of(a, b),
    ensures
        a == b,
{
    assert forall|i: int| 0 <= i < a.len() implies a[i] == b[i] by {
        assert(cloned(a[i], b[i]));
    }
    assert(a =~= b);
}

/// Clones of bytes are the bytes themselves.
pub proof fn lemma_byte_clones(a: Seq<u8>, b: Seq<u8>)
    requires
        clones_of(a, b),
    ensures
        a == b,
{
    assert forall|i: int| 0 <= i < a.len() implies a[i] == b[i] by {
        assert(cloned(a[i], b[i]));
    }
    assert(a =~= b);
}

/// `t` lies below `x` in `T`'s order.
pub open spec fn below<T: PartialOrd>(t: T, x: T) -> bool {
    t.is_lt(&x)
}

/// Whether the elements of `s` that lie above `t` form a suffix, as they do
/// when `s` is ascending.
pub open spec fn above_is_suffix<T: PartialOrd>(s: Seq<T>, t: T) -> bool {
    forall|i: int, j: int|
        0 <= i <= j < s.len() && #[trigger] below(t, s[i]) ==> #[trigger] below(t, s[j])
}

/// `k` splits `s` into the elements not above `t` and those above it.
pub open spec fn splits_at<T: PartialOrd>(s: Seq<T>, t: T, k: int) -> bool {
    &&& 0 <= k <= s.len()
    &&& forall|i: int| 0 <= i < k ==> !below(t, #[trigger] s[i])
    &&& forall|i: int| k <= i < s.len() ==> below(t, #[trigger] s[i])
}

/// `k` is the first position of `s` above `t`, or its length when none is.
pub open spec fn first_above<T: PartialOrd>(s: Seq<T>, t: T, k: int) -> bool {
    &&& 0 <= k <= s.len()
    &&& forall|i: int| 0 <= i < k ==> !below(t, #[trigger] s[i])
    &&& k < s.len() ==> below(t, s[k])
}

/// The insertion point of `t` into `s`, found by halving: the number of
/// elements that do not lie above `t`.
pub fn binary_search<T: PartialOrd>(s: &[T], t: &T) -> (r: usize)
    requires
        T::obeys_partial_cmp_spec(),
        above_is_suffix(s@, *t),
    ensures
        splits_at(s@, *t, r as int),
{
    let mut lo: usize = 0;
    let mut hi: usize = s.len();
    while lo < hi
        invariant
            T::obeys_partial_cmp_spec(),
            above_is_suffix(s@, *t),
            0 <= lo <= hi <= s@.len(),
            forall|i: int| 0 <= i < lo ==> !below(*t, #[trigger] s@[i]),
            forall|i: int| hi <= i < s@.len() ==> below(*t, #[trigger] s@[i]),
        decreases hi - lo,
    {
        let mid = lo + (hi - lo) / 2;
        let above = t.lt(&s[mid]);
        assert(above == below(*t, s@[mid as int]));
        if above {
            assert forall|i: int| mid <= i < s@.len() implies below(*t, #[trigger] s@[i]) by {
                assert(below(*t, s@[mid as int]));
            }
            hi = mid;
        } else {
            assert forall|i: int| 0 <= i <= mid implies !below(*t, #[trigger] s@[i]) by {
                if below(*t, s@[i]) {
                    assert(below(*t, s@[mid as int]));
                }
            }
            lo = mid + 1;
        }
    }
    lo
}

/// The insertion point of `t` into `s`, found by scanning from the left:
/// the first position whose element lies above `t`.
pub fn linear_search<T: PartialOrd>(s: &[T], t: &T) -> (r: usize)
    requires
        T::obeys_partial_cmp_spec(),
    ensures
        first_above(s@, *t, r as int),
{
    let mut i: usize = 0;
    while i < s.len()
        invariant
            T::obeys_partial_cmp_spec(),
            i <= s@.len(),
            forall|j: int| 0 <= j < i ==> !below(*t, #[trigger] s@[j]),
        decreases s@.len() - i,
    {
        let above = t.lt(&s[i]);
        assert(above == below(*t, s@[i as int]));
        if above {
            return i;
        }
        i = i + 1;
    }
    s.len()
}

/// Whether the elements of `s` that lie below `t` form a prefix, as they do
/// when `s` is ascending.
pub open spec fn below_is_prefix<T: PartialOrd>(s: Seq<T>, t: T) -> bool {
    forall|i: int, j: int|
        0 <= i <= j < s.len() && #[trigger] below(s[j], t) ==> #[trigger] below(s[i], t)
}

/// `k` counts the elements of `s` that lie below `t`, all of them before
/// the others.
pub open spec fn counts_below<T: PartialOrd>(s: Seq<T>, t: T, k: int) -> bool {
    &&& 0 <= k <= s.len()
    &&& forall|j: int| 0 <= j < k ==> below(#[trigger] s[j], t)
    &&& forall|j: int| k <= j < s.len() ==> !below(#[trigger] s[j], t)
}

/// The first position of `s` whose element does not lie below `t`, found by
/// halving: the number of elements below `t`.
pub fn lower_bound<T: PartialOrd>(s: &[T], t: &T) -> (r: usize)
    requires
        T::obeys_partial_cmp_spec(),
        below_is_prefix(s@, *t),
    ensures
        counts_below(s@, *t, r as int),
{
    let mut lo: usize = 0;
    let mut hi: usize = s.len();
    while lo < hi
        invariant
            T::obeys_partial_cmp_spec(),
            below_is_prefix(s@, *t),
            0 <= lo <= hi <= s@.len(),
            forall|j: int| 0 <= j < lo ==> below(#[trigger] s@[j], *t),
            forall|j: int| hi <= j < s@.len() ==> !below(#[trigger] s@[j], *t),
        decreases hi - lo,
    {
        let mid = lo + (hi - lo) / 2;
        let lower = s[mid].lt(t);
        assert(lower == below(s@[mid as int], *t));
        if lower {
            assert forall|j: int| 0 <= j <= mid implies below(#[trigger] s@[j], *t) by {
                assert(below(s@[mid as int], *t));
            }
            lo = mid + 1;
        } else {
            assert forall|j: int| mid <= j < s@.len() implies !below(#[trigger] s@[j], *t) by {
                if below(s@[j], *t) {
                    assert(below(s@[mid as int], *t));
                }
            }
            hi = mid;
        }
    }
    lo
}

/// Where the elements above `t` form a suffix, the halving search and the
/// scan from the left find the same position.
pub proof fn lemma_searches_agree<T: PartialOrd>(s: Seq<T>, t: T, a: int, b: int)
    requires
        above_is_suffix(s, t),
        splits_at(s, t, a),
        first_above(s, t, b),
    ensures
        a == b,
{
    if a < b {
        assert(below(t, s[a]));
    } else if b < a {
        assert(below(t, s[b]));
    }
}

} // verus!
