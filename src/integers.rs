use crate::distributions::{
    bounded_model, lemma_bounded_fails_at_end, lemma_bounded_range, lemma_read_value_same_bits,
    lemma_same_rest_advance, same_rest,
};
use crate::sampler::{
    alias_table, entry_ok, lemma_sample_in_buffer, lemma_sample_replay, table_mass, weight_sum, Sampler,
    SamplerEntry,
};
use crate::source::{
    lemma_read_value_bound, lemma_read_value_fits, outcome, read_value, DataSource, FailedDraw,
};
use vstd::arithmetic::power2::{lemma2_to64_rest, lemma_pow2_strictly_increases};
use vstd::prelude::*;

verus! {

/// The preset weight of bit-length index `i`, in tenths: 4 for the first byte,
/// halving for each of the next three, then 0.1 up to the 63rd bit.
pub open spec fn good_bitlength_weight(i: int) -> u64 {
    if i < 8 {
        40
    } else if i < 16 {
        20
    } else if i < 24 {
        10
    } else if i < 32 {
        5
    } else {
        1
    }
}

/// The 63 preset weights, in tenths.
pub open spec fn good_bitlength_weights() -> Seq<u64> {
    Seq::new(63, |i: int| good_bitlength_weight(i))
}

/// Appends `count` copies of `w`.
fn push_copies(v: &mut Vec<u64>, w: u64, count: usize)
    requires
        weight_sum(old(v)@) + w * count <= u64::MAX,
    ensures
        final(v)@.len() == old(v)@.len() + count,
        forall|j: int| 0 <= j < old(v)@.len() ==> final(v)@[j] == old(v)@[j],
        forall|j: int| old(v)@.len() <= j < final(v)@.len() ==> final(v)@[j] == w,
        weight_sum(final(v)@) == weight_sum(old(v)@) + w * count,
{
    let mut k: usize = 0;
    while k < count
        invariant
            k <= count,
            v@.len() == old(v)@.len() + k,
            forall|j: int| 0 <= j < old(v)@.len() ==> v@[j] == old(v)@[j],
            forall|j: int| old(v)@.len() <= j < v@.len() ==> v@[j] == w,
            weight_sum(v@) == weight_sum(old(v)@) + w * k,
            weight_sum(old(v)@) + w * count <= u64::MAX,
        decreases count - k,
    {
        let ghost before = v@;
        v.push(w);
        proof {
            assert(v@.drop_last() == before);
            assert(w * (k + 1) == w * k + w) by (nonlinear_arith);
        }
        k = k + 1;
    }
}

/// The preset sampler over bit lengths 1 to 63: most of the weight sits on
/// the first byte, halving per byte up to the fourth and flat after it.
pub fn good_bitlengths() -> (r: Sampler)
    ensures
        r.wf(),
        r.table() == alias_table(good_bitlength_weights()),
        r.table().len() == 63,
        r.total() == 631,
        forall|i: int| 0 <= i < 63 ==> #[trigger] table_mass(r.table(), r.total(), i) == 63 * good_bitlength_weight(i),
        forall|i: int, j: int| 0 <= i <= j < 63 ==> #[trigger] table_mass(r.table(), r.total(), i) >= #[trigger] table_mass(r.table(), r.total(), j),
{
    let mut weights: Vec<u64> = Vec::new();
    push_copies(&mut weights, 40, 8);
    push_copies(&mut weights, 20, 8);
    push_copies(&mut weights, 10, 8);
    push_copies(&mut weights, 5, 8);
    push_copies(&mut weights, 1, 31);
    assert(forall|j: int| 0 <= j < 63 ==> weights@[j] == good_bitlength_weight(j));
    assert(weights@ =~= good_bitlength_weights());
    Sampler::new(weights)
}

/// A signed integer: a bit length `b + 1` sampled from `bitlengths`, that many
/// bits of magnitude, and one sign bit. Returns the integer and the cursor
/// afterwards.
pub open spec fn integer_model(t: Seq<SamplerEntry>, total: nat, s: Seq<bool>, pos: int) -> (Option<i64>, int) {
    let (b, at1) = Sampler::sample_model(t, total, s, pos);
    match b {
        None => (None, at1),
        Some(b) => {
            let len = (b + 1) as nat;
            if at1 + len > s.len() {
                (None, at1)
            } else if at1 + len + 1 > s.len() {
                (None, at1 + len)
            } else {
                let base = read_value(s, at1, len);
                let sign = read_value(s, at1 + len, 1);
                (Some((if sign > 0 { -(base as int) } else { base as int }) as i64), at1 + len + 1)
            }
        },
    }
}

/// Draws a signed integer whose magnitude has a bit length chosen by
/// `bitlengths`, which has at most 63 rows so that the magnitude and its
/// negation fit in an `i64`.
pub fn integer_from_bitlengths(source: &mut DataSource, bitlengths: &Sampler) -> (r: Result<i64, FailedDraw>)
    requires
        old(source).wf(),
        bitlengths.wf(),
        bitlengths.table().len() <= 63,
    ensures
        final(source).wf(),
        final(source).buffer() == old(source).buffer(),
        outcome(r) == integer_model(bitlengths.table(), bitlengths.total(), old(source).buffer(), old(source).pos()).0,
        final(source).pos() == integer_model(bitlengths.table(), bitlengths.total(), old(source).buffer(), old(source).pos()).1,
{
    let ghost s = source.buffer();
    let b = match bitlengths.sample(source) {
        Ok(b) => b,
        Err(e) => {
            return Err(e);
        },
    };
    let ghost at1 = source.pos();
    let bitlength: u64 = b as u64 + 1;
    let base = match source.bits(bitlength) {
        Ok(v) => v,
        Err(e) => {
            return Err(e);
        },
    };
    proof {
        lemma_read_value_bound(s, at1, bitlength as nat);
        if bitlength < 63 {
            lemma_pow2_strictly_increases(bitlength as nat, 63);
        }
        lemma2_to64_rest();
        assert(read_value(s, at1, bitlength as nat) < 0x8000_0000_0000_0000);
    }
    let sign = match source.bits(1) {
        Ok(v) => v,
        Err(e) => {
            return Err(e);
        },
    };
    let magnitude: i64 = base as i64;
    assert(magnitude as int == read_value(s, at1, bitlength as nat));
    proof {
        lemma_read_value_fits(s, at1 + bitlength, 1);
    }
    if sign > 0 {
        Ok(-magnitude)
    } else {
        Ok(magnitude)
    }
}

/// A signed integer depends on the table and the unread bits alone: replaying
/// them gives the same integer and the same advance.
pub proof fn lemma_integer_replay(t: Seq<SamplerEntry>, total: nat, s1: Seq<bool>, at1: int, s2: Seq<bool>, at2: int)
    requires
        same_rest(s1, at1, s2, at2),
    ensures
        integer_model(t, total, s1, at1).0 == integer_model(t, total, s2, at2).0,
        integer_model(t, total, s1, at1).1 - at1 == integer_model(t, total, s2, at2).1 - at2,
{
    lemma_sample_replay(t, total, s1, at1, s2, at2);
    let (b, q1) = Sampler::sample_model(t, total, s1, at1);
    let q2 = Sampler::sample_model(t, total, s2, at2).1;
    if b is Some {
        lemma_sample_in_buffer(t, total, s1, at1);
        lemma_same_rest_advance(s1, at1, s2, at2, q1 - at1);
        let len = (b->Some_0 + 1) as nat;
        if q1 + len + 1 <= s1.len() {
            lemma_same_rest_advance(s1, q1, s2, q2, len as int);
            lemma_read_value_same_bits(s1, q1, s2, q2, len);
            lemma_same_rest_advance(s1, q1 + len, s2, q2 + len, 1);
            lemma_read_value_same_bits(s1, q1 + len, s2, q2 + len, 1);
        }
    }
}

/// A signed integer draw that fails stops with fewer than 64 bits left: on a
/// source that never runs out it always succeeds.
pub proof fn lemma_integer_fails_at_end(t: Seq<SamplerEntry>, total: nat, s: Seq<bool>, pos: int)
    requires
        0 <= pos <= s.len(),
        0 < t.len() <= 63,
        forall|k: int| 0 <= k < t.len() ==> entry_ok(#[trigger] t[k], t.len(), total),
    ensures
        integer_model(t, total, s, pos).0 is None ==> integer_model(t, total, s, pos).1 + 64 > s.len(),
{
    let max = (t.len() - 1) as u64;
    lemma_bounded_fails_at_end(s, pos, max);
    lemma_bounded_range(s, pos, max);
    let (row, q) = bounded_model(s, pos, max);
    if row is Some {
        let e = t[row->Some_0 as int];
        assert(entry_ok(e, t.len(), total));
    }
}

} // verus!
