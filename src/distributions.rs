use crate::source::{outcome, read_value, two_to_64, lemma_read_value_fits, DataSource, FailedDraw};
use vstd::arithmetic::power2::{lemma2_to64, lemma_pow2_unfold, pow2};
use vstd::prelude::*;
use vstd::std_specs::bits::u64_leading_zeros;

verus! {

/// A probability as the number `threshold` of 64-bit values (out of `2^64`)
/// that a coin maps to `true`: the probability `p` has the threshold
/// `floor(p * 2^64)`, saturated at `u64::MAX`.
#[derive(Debug, Clone, Copy, PartialEq, Eq, Structural)]
pub struct Probability {
    pub threshold: u64,
}

impl Probability {
    pub fn from_threshold(threshold: u64) -> (r: Probability)
        ensures
            r.threshold == threshold,
    {
        Probability { threshold }
    }

    /// The probability 0: no value maps to `true`.
    pub fn zero() -> (r: Probability)
        ensures
            r.threshold == 0,
    {
        Probability { threshold: 0 }
    }

    /// The probability 1, saturated: every 64-bit value but 0 maps to `true`.
    pub fn one() -> (r: Probability)
        ensures
            r.threshold == u64::MAX,
    {
        Probability { threshold: u64::MAX }
    }

    /// The probability `num / den`, as `floor(num * 2^64 / den)` saturated at
    /// `u64::MAX`.
    pub fn from_ratio(num: u64, den: u64) -> (r: Probability)
        requires
            0 < den,
            num <= den,
        ensures
            r.threshold == ratio_threshold(num as int, den as int),
    {
        let scaled: u128 = (num as u128) * 0x1_0000_0000_0000_0000u128;
        let t: u128 = scaled / (den as u128);
        if t > u64::MAX as u128 {
            Probability { threshold: u64::MAX }
        } else {
            Probability { threshold: t as u64 }
        }
    }
}

/// `floor(num * 2^64 / den)`, saturated at `u64::MAX`.
pub open spec fn ratio_threshold(num: int, den: int) -> int {
    let t = num * two_to_64() / den;
    if t > u64::MAX {
        u64::MAX as int
    } else {
        t
    }
}

/// One weighted coin: a 64-bit read `x` gives `true` when it is among the top
/// `threshold` values, `x >= 2^64 - threshold`. Returns the outcome and the
/// cursor afterwards.
pub open spec fn coin_model(s: Seq<bool>, pos: int, p: Probability) -> (Option<bool>, int) {
    if pos + 64 <= s.len() {
        (Some(read_value(s, pos, 64) + p.threshold >= two_to_64()), pos + 64)
    } else {
        (None, pos)
    }
}

/// Draws `true` with probability `p`, from exactly one 64-bit read.
pub fn weighted(source: &mut DataSource, probability: Probability) -> (r: Result<bool, FailedDraw>)
    requires
        old(source).wf(),
    ensures
        final(source).wf(),
        final(source).buffer() == old(source).buffer(),
        outcome(r) == coin_model(old(source).buffer(), old(source).pos(), probability).0,
        final(source).pos() == coin_model(old(source).buffer(), old(source).pos(), probability).1,
{
    let ghost s = source.buffer();
    let ghost pos = source.pos();
    match source.bits(64) {
        Ok(probe) => {
            proof {
                lemma_read_value_fits(s, pos, 64);
            }
            if probability.threshold == 0 {
                Ok(false)
            } else {
                Ok(probe >= u64::MAX - probability.threshold + 1)
            }
        },
        Err(e) => Err(e),
    }
}

/// The number of bits needed to write `m`: 0 for 0.
pub open spec fn bit_length(m: nat) -> nat
    decreases m,
{
    if m == 0 {
        0
    } else {
        1 + bit_length(m / 2)
    }
}

proof fn lemma_bit_length_leading_zeros(m: u64)
    ensures
        bit_length(m as nat) == 64 - u64_leading_zeros(m),
        bit_length(m as nat) <= 64,
    decreases m,
{
    reveal(u64_leading_zeros);
    if m != 0 {
        lemma_bit_length_leading_zeros(m / 2);
    }
}

/// Rejection sampling of an integer in `[0, max]`: reads `bit_length(max)`
/// bits until the value read is at most `max`. Returns the value and the
/// cursor afterwards; `max == 0` reads nothing.
pub open spec fn bounded_model(s: Seq<bool>, pos: int, max: u64) -> (Option<u64>, int)
    decreases s.len() - pos,
{
    if max == 0 {
        (Some(0), pos)
    } else {
        let b = bit_length(max as nat);
        if pos + b > s.len() {
            (None, pos)
        } else {
            let v = read_value(s, pos, b);
            if v <= max {
                (Some(v as u64), pos + b)
            } else {
                bounded_model(s, pos + b, max)
            }
        }
    }
}

/// A bounded draw that succeeds gives a value in `[0, max]`, and `max == 0`
/// gives 0 without reading anything.
pub proof fn lemma_bounded_range(s: Seq<bool>, pos: int, max: u64)
    ensures
        bounded_model(s, pos, max).0 matches Some(v) ==> v <= max,
        max == 0 ==> bounded_model(s, pos, max) == (Some(0u64), pos),
    decreases s.len() - pos,
{
    if max != 0 {
        let b = bit_length(max as nat);
        if pos + b <= s.len() && read_value(s, pos, b) > max {
            lemma_bounded_range(s, pos + b, max);
        }
    }
}

/// Draws an integer uniformly from `[0, max]` by rejection sampling over the
/// fewest bits that can hold `max`.
pub fn bounded_int(source: &mut DataSource, max: u64) -> (r: Result<u64, FailedDraw>)
    requires
        old(source).wf(),
    ensures
        final(source).wf(),
        final(source).buffer() == old(source).buffer(),
        outcome(r) == bounded_model(old(source).buffer(), old(source).pos(), max).0,
        final(source).pos() == bounded_model(old(source).buffer(), old(source).pos(), max).1,
{
    proof {
        lemma_bit_length_leading_zeros(max);
    }
    let bitlength: u64 = 64 - max.leading_zeros() as u64;
    if bitlength == 0 {
        return Ok(0);
    }
    let ghost s = source.buffer();
    let ghost start = source.pos();
    loop
        invariant
            source.wf(),
            source.buffer() == s,
            s == old(source).buffer(),
            start == old(source).pos(),
            bitlength == bit_length(max as nat),
            1 <= bitlength <= 64,
            max > 0,
            bounded_model(s, start, max) == bounded_model(s, source.pos(), max),
        decreases s.len() - source.pos(),
    {
        let ghost pos = source.pos();
        match source.bits(bitlength) {
            Ok(probe) => {
                proof {
                    lemma_read_value_fits(s, pos, bitlength as nat);
                }
                assert(probe == read_value(s, pos, bitlength as nat));
                if probe <= max {
                    assert(bounded_model(s, pos, max) == (Some(probe), pos + bitlength));
                    return Ok(probe);
                }
            },
            Err(e) => {
                return Err(e);
            },
        }
    }
}

/// Flips coins with probability `p` until one comes out as `value`. Returns
/// whether that happened before the bits ran out, and the cursor afterwards.
pub open spec fn draw_until_model(s: Seq<bool>, pos: int, p: Probability, value: bool) -> (bool, int)
    decreases s.len() - pos,
{
    if pos + 64 > s.len() {
        (false, pos)
    } else if coin_model(s, pos, p).0 == Some(value) {
        (true, pos + 64)
    } else {
        draw_until_model(s, pos + 64, p, value)
    }
}

/// The state of a repeat controller as plain values.
pub struct RepeatState {
    pub min_count: nat,
    pub max_count: nat,
    pub p_continue: Probability,
    pub current_count: nat,
}

/// One decision of a repeat controller in state `st`: below the minimum it
/// forces `true`, at or above the maximum it forces `false`, and in between it
/// flips one coin. Returns the decision (`None` on a failed draw), the count
/// afterwards and the cursor afterwards.
pub open spec fn continue_model(st: RepeatState, s: Seq<bool>, pos: int) -> (Option<bool>, nat, int) {
    if st.current_count < st.min_count {
        let (ok, np) = draw_until_model(s, pos, st.p_continue, true);
        if ok {
            (Some(true), st.current_count + 1, np)
        } else {
            (None, st.current_count, np)
        }
    } else if st.current_count >= st.max_count {
        let (ok, np) = draw_until_model(s, pos, st.p_continue, false);
        if ok {
            (Some(false), st.current_count, np)
        } else {
            (None, st.current_count, np)
        }
    } else {
        let (d, np) = coin_model(s, pos, st.p_continue);
        match d {
            Some(true) => (Some(true), st.current_count + 1, np),
            _ => (d, st.current_count, np),
        }
    }
}

/// Decides, once per iteration, whether a loop goes on: the number of
/// iterations follows a geometric distribution cut to `[min_count, max_count]`,
/// and every decision, forced or not, is a draw from the source.
#[derive(Debug, Clone)]
pub struct Repeat {
    min_count: u64,
    max_count: u64,
    p_continue: Probability,
    current_count: u64,
}

impl Repeat {
    pub closed spec fn state(&self) -> RepeatState {
        RepeatState {
            min_count: self.min_count as nat,
            max_count: self.max_count as nat,
            p_continue: self.p_continue,
            current_count: self.current_count as nat,
        }
    }

    /// A controller with no iteration counted yet; each free decision goes on
    /// with probability `p_continue` (for a mean of `e` iterations, `e / (1 + e)`).
    pub fn new(min_count: u64, max_count: u64, p_continue: Probability) -> (r: Repeat)
        ensures
            r.state() == (RepeatState {
                min_count: min_count as nat,
                max_count: max_count as nat,
                p_continue,
                current_count: 0,
            }),
    {
        Repeat { min_count, max_count, p_continue, current_count: 0 }
    }

    /// How many decisions to go on have been made so far.
    pub fn count(&self) -> (r: u64)
        ensures
            r == self.state().current_count,
    {
        self.current_count
    }

    fn draw_until(&self, source: &mut DataSource, value: bool) -> (r: Result<(), FailedDraw>)
        requires
            old(source).wf(),
        ensures
            final(source).wf(),
            final(source).buffer() == old(source).buffer(),
            r is Ok == draw_until_model(old(source).buffer(), old(source).pos(), self.p_continue, value).0,
            final(source).pos() == draw_until_model(old(source).buffer(), old(source).pos(), self.p_continue, value).1,
    {
        let ghost s = source.buffer();
        let ghost start = source.pos();
        loop
            invariant
                source.wf(),
                source.buffer() == s,
                s == old(source).buffer(),
                start == old(source).pos(),
                draw_until_model(s, start, self.p_continue, value) == draw_until_model(s, source.pos(), self.p_continue, value),
            decreases s.len() - source.pos(),
        {
            match weighted(source, self.p_continue) {
                Ok(d) => {
                    if d == value {
                        return Ok(());
                    }
                },
                Err(e) => {
                    return Err(e);
                },
            }
        }
    }

    /// Whether the loop goes on for one more iteration. Below `min_count` the
    /// answer is forced to `true` and above or at `max_count` to `false`, by
    /// drawing until the draw agrees; a `true` counts one iteration.
    pub fn should_continue(&mut self, source: &mut DataSource) -> (r: Result<bool, FailedDraw>)
        requires
            old(source).wf(),
        ensures
            final(source).wf(),
            final(source).buffer() == old(source).buffer(),
            ({
                let (o, c, np) = continue_model(old(self).state(), old(source).buffer(), old(source).pos());
                &&& outcome(r) == o
                &&& final(self).state() == (RepeatState { current_count: c, ..old(self).state() })
                &&& final(source).pos() == np
            }),
    {
        if self.current_count < self.min_count {
            match self.draw_until(source, true) {
                Ok(()) => {
                    self.current_count = self.current_count + 1;
                    Ok(true)
                },
                Err(e) => Err(e),
            }
        } else if self.current_count >= self.max_count {
            match self.draw_until(source, false) {
                Ok(()) => Ok(false),
                Err(e) => Err(e),
            }
        } else {
            let result = weighted(source, self.p_continue);
            match result {
                Ok(true) => {
                    self.current_count = self.current_count + 1;
                },
                _ => {},
            }
            result
        }
    }
}

/// A coin of probability 0 always comes out `false`, and one of probability 1
/// (saturated) comes out `true` on every 64-bit read but 0.
pub proof fn lemma_coin_extremes(s: Seq<bool>, pos: int)
    requires
        0 <= pos,
        pos + 64 <= s.len(),
    ensures
        coin_model(s, pos, Probability { threshold: 0 }) == (Some(false), pos + 64),
        read_value(s, pos, 64) != 0 ==> coin_model(s, pos, Probability { threshold: u64::MAX }) == (
            Some(true),
            pos + 64,
        ),
        read_value(s, pos, 64) == 0 ==> coin_model(s, pos, Probability { threshold: u64::MAX }) == (
            Some(false),
            pos + 64,
        ),
{
    lemma_read_value_fits(s, pos, 64);
}

/// Reads that see the same bits give the same value.
pub proof fn lemma_read_value_same_bits(s1: Seq<bool>, at1: int, s2: Seq<bool>, at2: int, n: nat)
    requires
        0 <= at1,
        at1 + n <= s1.len(),
        0 <= at2,
        at2 + n <= s2.len(),
        s1.subrange(at1, at1 + n) == s2.subrange(at2, at2 + n),
    ensures
        read_value(s1, at1, n) == read_value(s2, at2, n),
    decreases n,
{
    if n > 0 {
        assert(s1.subrange(at1, at1 + n - 1) =~= s1.subrange(at1, at1 + n).subrange(0, n - 1));
        assert(s2.subrange(at2, at2 + n - 1) =~= s2.subrange(at2, at2 + n).subrange(0, n - 1));
        lemma_read_value_same_bits(s1, at1, s2, at2, (n - 1) as nat);
        assert(s1[at1 + n - 1] == s1.subrange(at1, at1 + n)[n - 1]);
        assert(s2[at2 + n - 1] == s2.subrange(at2, at2 + n)[n - 1]);
    }
}

/// `s1` from `at1` on and `s2` from `at2` on hold the same bits.
pub open spec fn same_rest(s1: Seq<bool>, at1: int, s2: Seq<bool>, at2: int) -> bool {
    &&& 0 <= at1 <= s1.len()
    &&& 0 <= at2 <= s2.len()
    &&& s1.len() - at1 == s2.len() - at2
    &&& s1.subrange(at1, s1.len() as int) == s2.subrange(at2, s2.len() as int)
}

/// Two sources whose unread bits agree also agree on the next `n` of them,
/// and stay in agreement after both advance by `n`.
pub proof fn lemma_same_rest_advance(s1: Seq<bool>, at1: int, s2: Seq<bool>, at2: int, n: int)
    requires
        same_rest(s1, at1, s2, at2),
        0 <= n <= s1.len() - at1,
    ensures
        same_rest(s1, at1 + n, s2, at2 + n),
        s1.subrange(at1, at1 + n) == s2.subrange(at2, at2 + n),
{
    let r1 = s1.subrange(at1, s1.len() as int);
    let r2 = s2.subrange(at2, s2.len() as int);
    assert(r1.len() == r2.len());
    assert(s1.subrange(at1 + n, s1.len() as int) =~= r1.subrange(n, r1.len() as int));
    assert(s2.subrange(at2 + n, s2.len() as int) =~= r2.subrange(n, r2.len() as int));
    assert(s1.subrange(at1, at1 + n) =~= r1.subrange(0, n));
    assert(s2.subrange(at2, at2 + n) =~= r2.subrange(0, n));
}

/// A coin depends on the unread bits alone: replaying them gives the same
/// outcome and the same advance.
pub proof fn lemma_coin_replay(s1: Seq<bool>, at1: int, s2: Seq<bool>, at2: int, p: Probability)
    requires
        same_rest(s1, at1, s2, at2),
    ensures
        coin_model(s1, at1, p).0 == coin_model(s2, at2, p).0,
        coin_model(s1, at1, p).1 - at1 == coin_model(s2, at2, p).1 - at2,
{
    if at1 + 64 <= s1.len() {
        lemma_same_rest_advance(s1, at1, s2, at2, 64);
        lemma_read_value_same_bits(s1, at1, s2, at2, 64);
    }
}

/// A bounded draw depends on the unread bits alone: replaying them gives the
/// same value and the same advance.
pub proof fn lemma_bounded_replay(s1: Seq<bool>, at1: int, s2: Seq<bool>, at2: int, max: u64)
    requires
        same_rest(s1, at1, s2, at2),
    ensures
        bounded_model(s1, at1, max).0 == bounded_model(s2, at2, max).0,
        bounded_model(s1, at1, max).1 - at1 == bounded_model(s2, at2, max).1 - at2,
    decreases s1.len() - at1,
{
    if max != 0 {
        let b = bit_length(max as nat);
        if at1 + b <= s1.len() {
            lemma_same_rest_advance(s1, at1, s2, at2, b as int);
            lemma_read_value_same_bits(s1, at1, s2, at2, b);
            if read_value(s1, at1, b) > max {
                lemma_bounded_replay(s1, at1 + b, s2, at2 + b, max);
            }
        }
    }
}

/// Forced draws depend on the unread bits alone.
pub proof fn lemma_draw_until_replay(s1: Seq<bool>, at1: int, s2: Seq<bool>, at2: int, p: Probability, value: bool)
    requires
        same_rest(s1, at1, s2, at2),
    ensures
        draw_until_model(s1, at1, p, value).0 == draw_until_model(s2, at2, p, value).0,
        draw_until_model(s1, at1, p, value).1 - at1 == draw_until_model(s2, at2, p, value).1 - at2,
    decreases s1.len() - at1,
{
    if at1 + 64 <= s1.len() {
        lemma_coin_replay(s1, at1, s2, at2, p);
        lemma_same_rest_advance(s1, at1, s2, at2, 64);
        if coin_model(s1, at1, p).0 != Some(value) {
            lemma_draw_until_replay(s1, at1 + 64, s2, at2 + 64, p, value);
        }
    }
}

/// A repeat decision depends on the controller's state and the unread bits
/// alone: replaying them gives the same decision, count and advance.
pub proof fn lemma_continue_replay(st: RepeatState, s1: Seq<bool>, at1: int, s2: Seq<bool>, at2: int)
    requires
        same_rest(s1, at1, s2, at2),
    ensures
        continue_model(st, s1, at1).0 == continue_model(st, s2, at2).0,
        continue_model(st, s1, at1).1 == continue_model(st, s2, at2).1,
        continue_model(st, s1, at1).2 - at1 == continue_model(st, s2, at2).2 - at2,
{
    lemma_draw_until_replay(s1, at1, s2, at2, st.p_continue, true);
    lemma_draw_until_replay(s1, at1, s2, at2, st.p_continue, false);
    lemma_coin_replay(s1, at1, s2, at2, st.p_continue);
}

/// With `min_count == max_count == k`, a decision that succeeds is `true`
/// while fewer than `k` iterations are counted and `false` from then on,
/// whatever the bits and the continuation probability: each `true` counts one
/// more, and the count never passes `k`.
pub proof fn lemma_fixed_count(st: RepeatState, s: Seq<bool>, pos: int)
    requires
        st.min_count == st.max_count,
        st.current_count <= st.max_count,
    ensures
        ({
            let (o, c, _) = continue_model(st, s, pos);
            &&& o matches Some(b) ==> b == (st.current_count < st.max_count)
            &&& o == Some(true) ==> c == st.current_count + 1
            &&& o != Some(true) ==> c == st.current_count
            &&& c <= st.max_count
        }),
{
}

/// The decisions of `steps` calls in a row, each on the state and cursor that
/// the one before left, up to the first failed draw.
pub open spec fn run_model(st: RepeatState, s: Seq<bool>, pos: int, steps: nat) -> Seq<bool>
    decreases steps,
{
    if steps == 0 {
        seq![]
    } else {
        let (o, c, np) = continue_model(st, s, pos);
        match o {
            None => seq![],
            Some(b) => seq![b] + run_model(RepeatState { current_count: c, ..st }, s, np, (steps - 1) as nat),
        }
    }
}

/// With `min_count == max_count == k`, a run of decisions from a count of
/// `c <= k` is `true` exactly `k - c` times and `false` from then on, as far as
/// the draws succeed, whatever the bits and the continuation probability.
pub proof fn lemma_fixed_count_run(st: RepeatState, s: Seq<bool>, pos: int, steps: nat)
    requires
        st.min_count == st.max_count,
        st.current_count <= st.max_count,
    ensures
        forall|i: int| 0 <= i < run_model(st, s, pos, steps).len() ==> #[trigger] run_model(st, s, pos, steps)[i] == (st.current_count + i < st.max_count),
    decreases steps,
{
    if steps > 0 {
        lemma_fixed_count(st, s, pos);
        let (o, c, np) = continue_model(st, s, pos);
        if o is Some {
            let next = RepeatState { current_count: c, ..st };
            lemma_fixed_count_run(next, s, np, (steps - 1) as nat);
            let r = run_model(st, s, pos, steps);
            let rest = run_model(next, s, np, (steps - 1) as nat);
            assert forall|i: int| 0 <= i < r.len() implies #[trigger] r[i] == (st.current_count + i < st.max_count) by {
                if i > 0 {
                    assert(r[i] == rest[i - 1]);
                }
            }
        }
    }
}

/// The `b` bits that write `v`, first bit most significant.
pub open spec fn bits_of(v: nat, b: nat) -> Seq<bool>
    decreases b,
{
    if b == 0 {
        seq![]
    } else {
        bits_of(v / 2, (b - 1) as nat).push(v % 2 == 1)
    }
}

proof fn lemma_bits_of_read(v: nat, b: nat)
    requires
        v < pow2(b),
    ensures
        bits_of(v, b).len() == b,
        read_value(bits_of(v, b), 0, b) == v,
    decreases b,
{
    if b == 0 {
        lemma2_to64();
    } else {
        lemma_pow2_unfold(b);
        let s = bits_of(v, b);
        let d = bits_of(v / 2, (b - 1) as nat);
        lemma_bits_of_read(v / 2, (b - 1) as nat);
        assert(s.subrange(0, b - 1) =~= d.subrange(0, b - 1));
        lemma_read_value_same_bits(s, 0, d, 0, (b - 1) as nat);
    }
}

proof fn lemma_read_bits_of(s: Seq<bool>, pos: int, b: nat)
    requires
        0 <= pos,
        pos + b <= s.len(),
    ensures
        s.subrange(pos, pos + b) == bits_of(read_value(s, pos, b), b),
    decreases b,
{
    if b == 0 {
        assert(s.subrange(pos, pos) =~= Seq::<bool>::empty());
    } else {
        let r = read_value(s, pos, (b - 1) as nat);
        lemma_read_bits_of(s, pos, (b - 1) as nat);
        let v = read_value(s, pos, b);
        assert(v / 2 == r && (v % 2 == 1) == s[pos + b - 1]);
        assert(s.subrange(pos, pos + b) =~= s.subrange(pos, pos + b - 1).push(s[pos + b - 1]));
    }
}

/// A bounded draw is uniform over `[0, max]`: with `b = bit_length(max)`,
/// each value `v <= max` is returned by the first probe on exactly one of the
/// `2^b` patterns of its bits, `bits_of(v, b)`, and every pattern above `max`
/// is redrawn. So over uniformly random bits every value in `[0, max]` has
/// the same chance.
pub proof fn lemma_bounded_uniform(s: Seq<bool>, pos: int, max: u64, v: nat)
    requires
        max > 0,
        v <= max,
        0 <= pos,
        pos + bit_length(max as nat) <= s.len(),
    ensures
        bits_of(v, bit_length(max as nat)).len() == bit_length(max as nat),
        read_value(s, pos, bit_length(max as nat)) == v <==> s.subrange(pos, pos + bit_length(max as nat)) == bits_of(v, bit_length(max as nat)),
        s.subrange(pos, pos + bit_length(max as nat)) == bits_of(v, bit_length(max as nat)) ==> bounded_model(s, pos, max) == (
            Some(v as u64),
            pos + bit_length(max as nat),
        ),
        read_value(s, pos, bit_length(max as nat)) > max ==> bounded_model(s, pos, max) == bounded_model(
            s,
            pos + bit_length(max as nat),
            max,
        ),
{
    let b = bit_length(max as nat);
    lemma_bit_length_bound(max as nat);
    lemma_bits_of_read(v, b);
    lemma_read_bits_of(s, pos, b);
    if s.subrange(pos, pos + b) == bits_of(v, b) {
        assert(bits_of(v, b).subrange(0, b as int) =~= bits_of(v, b));
        lemma_read_value_same_bits(s, pos, bits_of(v, b), 0, b);
    }
}

/// A value is below 2 to the power of its bit length.
proof fn lemma_bit_length_bound(m: nat)
    ensures
        m < pow2(bit_length(m)),
    decreases m,
{
    if m == 0 {
        lemma2_to64();
    } else {
        lemma_bit_length_bound(m / 2);
        lemma_pow2_unfold(bit_length(m));
    }
}

/// A failed forced draw stops with fewer than 64 bits left.
pub proof fn lemma_draw_until_fails_at_end(s: Seq<bool>, pos: int, p: Probability, value: bool)
    ensures
        !draw_until_model(s, pos, p, value).0 ==> draw_until_model(s, pos, p, value).1 + 64 > s.len(),
    decreases s.len() - pos,
{
    if pos + 64 <= s.len() && coin_model(s, pos, p).0 != Some(value) {
        lemma_draw_until_fails_at_end(s, pos + 64, p, value);
    }
}

/// A failed bounded draw stops with fewer than 64 bits left, so a source that
/// never runs out never makes it fail.
pub proof fn lemma_bounded_fails_at_end(s: Seq<bool>, pos: int, max: u64)
    ensures
        bounded_model(s, pos, max).0 is None ==> bounded_model(s, pos, max).1 + 64 > s.len(),
    decreases s.len() - pos,
{
    lemma_bit_length_leading_zeros(max);
    if max != 0 {
        let b = bit_length(max as nat);
        if pos + b <= s.len() && read_value(s, pos, b) > max {
            lemma_bounded_fails_at_end(s, pos + b, max);
        }
    }
}

} // verus!
