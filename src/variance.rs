use vstd::prelude::*;

verus! {

/// Number of bin indices a byte can hold.
pub const NBINS: usize = 256;

/// How many of the first `n` entries of `bins` equal `b`.
pub open spec fn count_prefix(bins: Seq<u8>, b: int, n: int) -> nat
    decreases n,
{
    if n <= 0 {
        0
    } else {
        count_prefix(bins, b, n - 1) + if bins[n - 1] as int == b { 1nat } else { 0nat }
    }
}

/// How many entries of `bins` equal `b`.
pub open spec fn count_of(bins: Seq<u8>, b: int) -> nat {
    count_prefix(bins, b, bins.len() as int)
}

proof fn lemma_count_prefix_le(bins: Seq<u8>, b: int, n: int)
    requires
        0 <= n,
    ensures
        count_prefix(bins, b, n) <= n,
    decreases n,
{
    if n > 0 {
        lemma_count_prefix_le(bins, b, n - 1);
    }
}

/// The number of rows in each of the 256 bins.
pub fn bin_counts(bins: &[u8]) -> (r: Vec<usize>)
    ensures
        r@.len() == NBINS,
        forall|b: int| 0 <= b < NBINS ==> #[trigger] r@[b] == count_of(bins@, b),
{
    let mut counts: Vec<usize> = Vec::new();
    let mut b: usize = 0;
    while b < NBINS
        invariant
            b <= NBINS,
            counts@.len() == b,
            forall|j: int| 0 <= j < b ==> #[trigger] counts@[j] == 0,
        decreases NBINS - b,
    {
        counts.push(0);
        b = b + 1;
    }
    let mut i: usize = 0;
    while i < bins.len()
        invariant
            i <= bins@.len(),
            bins@.len() == bins.len(),
            counts@.len() == NBINS,
            forall|j: int| 0 <= j < NBINS ==> #[trigger] counts@[j] == count_prefix(bins@, j, i as int),
        decreases bins@.len() - i,
    {
        let v = bins[i] as usize;
        proof {
            lemma_count_prefix_le(bins@, v as int, i as int);
        }
        let c = counts[v];
        counts.set(v, c + 1);
        i = i + 1;
    }
    counts
}

} // verus!
