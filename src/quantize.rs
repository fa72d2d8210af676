use vstd::prelude::*;
use vstd::std_specs::cmp::PartialOrdSpec;
use crate::dataset::Column;
use crate::util::{below_is_prefix, counts_below, lower_bound};

verus! {

/// How many samples are drawn for each boundary wanted.
pub const SAMPLES_PER_QUANTILE: usize = 100;

/// Relies on rand::thread_rng and rand::Rng::gen_range: a value drawn from
/// `[0, high)`; gen_range panics when the range is empty.
#[verifier::external_body]
fn random_below(high: usize) -> (r: usize)
    requires
        0 < high,
    ensures
        r < high,
{
    rand::Rng::gen_range(&mut rand::thread_rng(), 0usize, high)
}

/// `count` positions drawn at random, with replacement, from `0..len`.
pub fn sample_indices(count: usize, len: usize) -> (r: Vec<usize>)
    requires
        0 < len,
    ensures
        r@.len() == count,
        forall|i: int| 0 <= i < count ==> #[trigger] r@[i] < len,
{
    let mut out: Vec<usize> = Vec::new();
    let mut i: usize = 0;
    while i < count
        invariant
            0 < len,
            i <= count,
            out@.len() == i,
            forall|j: int| 0 <= j < i ==> #[trigger] out@[j] < len,
        decreases count - i,
    {
        out.push(random_below(len));
        i = i + 1;
    }
    out
}

/// Number of runs of `step` elements (the last one possibly shorter) that
/// cover `len` elements.
pub open spec fn runs(len: nat, step: nat) -> nat
    recommends
        step > 0,
{
    if step == 0 {
        0
    } else {
        ((len + step - 1) / step as int) as nat
    }
}

/// The first element of each run of `sorted.len() / nquantiles` consecutive
/// elements: evenly spaced order statistics of an ascending sample.
pub fn evenly_spaced<V: Clone>(sorted: &[V], nquantiles: usize) -> (r: Vec<V>)
    requires
        0 < nquantiles <= sorted@.len(),
    ensures
        ({
            let step = sorted@.len() as int / nquantiles as int;
            &&& r@.len() == runs(sorted@.len(), step as nat)
            &&& forall|k: int| 0 <= k < r@.len() ==> cloned(sorted@[k * step], #[trigger] r@[k])
        }),
{
    let step = sorted.len() / nquantiles;
    assert(step >= 1) by (nonlinear_arith)
        requires
            0 < nquantiles <= sorted@.len(),
            step == sorted@.len() as int / nquantiles as int,
    ;
    let mut out: Vec<V> = Vec::new();
    let mut pos: usize = 0;
    proof {
        assert(0 * step == 0) by (nonlinear_arith);
        assert(runs(0, step as nat) == 0) by (nonlinear_arith)
            requires
                step >= 1,
        ;
    }
    while pos < sorted.len()
        invariant
            step >= 1,
            step == sorted@.len() as int / nquantiles as int,
            pos == out@.len() * step,
            pos <= sorted@.len(),
            out@.len() == runs(pos as nat, step as nat),
            forall|k: int| 0 <= k < out@.len() ==> cloned(sorted@[k * step], #[trigger] out@[k]),
        decreases sorted@.len() - pos,
    {
        let ghost n = out@.len();
        out.push(sorted[pos].clone());
        proof {
            assert((n + 1) * step == n * step + step) by (nonlinear_arith);
            assert(runs((pos + step) as nat, step as nat) == n + 1) by (nonlinear_arith)
                requires
                    step >= 1,
                    pos == n * step,
            ;
        }
        if sorted.len() - pos <= step {
            proof {
                assert(runs(sorted@.len(), step as nat) == n + 1) by (nonlinear_arith)
                    requires
                        step >= 1,
                        pos == n * step,
                        pos < sorted@.len() <= pos + step,
                ;
            }
            return out;
        }
        pos = pos + step;
    }
    out
}

/// The bin index of each value: the number of boundaries below it, which
/// is its insertion point into the boundaries ahead of equal ones.
pub fn quantize<V: PartialOrd>(values: &[V], quantiles: &[V]) -> (r: Vec<u8>)
    requires
        V::obeys_partial_cmp_spec(),
        quantiles@.len() <= 255,
        forall|i: int| 0 <= i < values@.len() ==> below_is_prefix(quantiles@, #[trigger] values@[i]),
    ensures
        r@.len() == values@.len(),
        forall|i: int|
            0 <= i < values@.len() ==> counts_below(quantiles@, values@[i], #[trigger] r@[i] as int),
{
    let mut out: Vec<u8> = Vec::new();
    let mut i: usize = 0;
    while i < values.len()
        invariant
            V::obeys_partial_cmp_spec(),
            quantiles@.len() <= 255,
            forall|j: int| 0 <= j < values@.len() ==> below_is_prefix(quantiles@, #[trigger] values@[j]),
            i <= values@.len(),
            out@.len() == i,
            forall|j: int|
                0 <= j < i ==> counts_below(quantiles@, values@[j], #[trigger] out@[j] as int),
        decreases values@.len() - i,
    {
        let k = lower_bound(quantiles, &values[i]);
        out.push(k as u8);
        i = i + 1;
    }
    out
}

/// Replaces a column of raw values by its bins over `quantiles`; other
/// columns are left as they are.
pub fn quantize_column<V: PartialOrd + Clone>(col: &mut Column<V>, quantiles: Vec<V>)
    requires
        V::obeys_partial_cmp_spec(),
        quantiles@.len() <= 255,
        match *old(col) {
            Column::Float(values) => forall|i: int|
                0 <= i < values@.len() ==> below_is_prefix(quantiles@, #[trigger] values@[i]),
            _ => true,
        },
    ensures
        match *old(col) {
            Column::Float(values) => match *final(col) {
                Column::QuantizedFloat(q, bins) => {
                    &&& q == quantiles
                    &&& bins@.len() == values@.len()
                    &&& forall|i: int|
                        0 <= i < values@.len() ==> counts_below(
                            quantiles@,
                            values@[i],
                            #[trigger] bins@[i] as int,
                        )
                },
                _ => false,
            },
            _ => *final(col) == *old(col),
        },
{
    let bins = match col {
        Column::Float(values) => quantize(values, &quantiles),
        _ => {
            return ;
        },
    };
    *col = Column::QuantizedFloat(quantiles, bins);
}

} // verus!
