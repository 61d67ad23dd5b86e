use crate::distributions::{
    bit_length, bounded_int, bounded_model, coin_model, lemma_bounded_range, lemma_bounded_replay,
    lemma_coin_replay, lemma_same_rest_advance, ratio_threshold, same_rest, weighted, Probability,
};
use crate::source::{outcome, read_value, two_to_64, DataSource, FailedDraw};
use vstd::arithmetic::div_mod::{lemma_fundamental_div_mod, lemma_mod_bound};
use vstd::prelude::*;

verus! {

/// One row of the alias table: when the row is picked, `alternate` is taken
/// with probability `use_alternate / total` (the sampler's total weight) and
/// `primary` otherwise.
#[derive(Debug, Clone, Copy, PartialEq, Eq, Structural)]
pub struct SamplerEntry {
    pub primary: usize,
    pub alternate: usize,
    pub use_alternate: u64,
}

impl SamplerEntry {
    /// A row that always gives `i`.
    fn single(i: usize) -> (r: SamplerEntry)
        ensures
            r == (SamplerEntry { primary: i, alternate: i, use_alternate: 0 }),
    {
        SamplerEntry { primary: i, alternate: i, use_alternate: 0 }
    }
}

/// Rows ordered by `(primary, alternate)`.
pub open spec fn entry_le(a: SamplerEntry, b: SamplerEntry) -> bool {
    a.primary < b.primary || (a.primary == b.primary && a.alternate <= b.alternate)
}

fn entry_lt(a: &SamplerEntry, b: &SamplerEntry) -> (r: bool)
    ensures
        r == !entry_le(*b, *a),
{
    a.primary < b.primary || (a.primary == b.primary && a.alternate < b.alternate)
}

/// A row of a table over `n` outcomes with total weight `total`.
pub open spec fn entry_ok(e: SamplerEntry, n: nat, total: nat) -> bool {
    &&& e.primary <= e.alternate < n
    &&& e.use_alternate <= total
    &&& e.primary == e.alternate ==> e.use_alternate == 0
}

pub open spec fn table_sorted(t: Seq<SamplerEntry>) -> bool {
    forall|a: int, b: int| 0 <= a < b < t.len() ==> entry_le(#[trigger] t[a], #[trigger] t[b])
}

/// The sum of the weights.
pub open spec fn weight_sum(w: Seq<u64>) -> nat
    decreases w.len(),
{
    if w.len() == 0 {
        0
    } else {
        weight_sum(w.drop_last()) + w.last() as nat
    }
}

proof fn lemma_weight_sum_prefix(w: Seq<u64>, i: int)
    requires
        0 <= i <= w.len(),
    ensures
        weight_sum(w.take(i)) <= weight_sum(w),
    decreases w.len() - i,
{
    if i < w.len() {
        lemma_weight_sum_prefix(w, i + 1);
        assert(w.take(i + 1).drop_last() == w.take(i));
    } else {
        assert(w.take(i) == w);
    }
}

/// What row `e` adds, in units of `1 / total`, to the chance of index `i`
/// once the row is picked.
pub open spec fn entry_mass(e: SamplerEntry, total: nat, i: int) -> int {
    (if e.primary == i { total - e.use_alternate } else { 0 }) + (if e.alternate == i {
        e.use_alternate as int
    } else {
        0
    })
}

/// The chance of index `i` over all rows of `t`, in units of `1 / total`; a
/// row is picked with chance `1 / t.len()`, so `i` is drawn with probability
/// `table_mass(t, total, i) / (t.len() * total)`.
pub open spec fn table_mass(t: Seq<SamplerEntry>, total: nat, i: int) -> int
    decreases t.len(),
{
    if t.len() == 0 {
        0
    } else {
        table_mass(t.drop_last(), total, i) + entry_mass(t.last(), total, i)
    }
}

proof fn lemma_mass_update(t: Seq<SamplerEntry>, total: nat, j: int, e: SamplerEntry)
    requires
        0 <= j < t.len(),
        forall|i: int| entry_mass(e, total, i) == entry_mass(t[j], total, i),
    ensures
        forall|i: int| #[trigger] table_mass(t.update(j, e), total, i) == table_mass(t, total, i),
    decreases t.len(),
{
    let u = t.update(j, e);
    if j < t.len() - 1 {
        lemma_mass_update(t.drop_last(), total, j, e);
        assert(u.drop_last() =~= t.drop_last().update(j, e));
        assert(u.last() == t.last());
    } else {
        assert(u.drop_last() =~= t.drop_last());
        assert(u.last() == e);
    }
    assert forall|i: int| table_mass(u, total, i) == table_mass(t, total, i) by {
        assert(table_mass(u, total, i) == table_mass(u.drop_last(), total, i) + entry_mass(u.last(), total, i));
        assert(table_mass(t, total, i) == table_mass(t.drop_last(), total, i) + entry_mass(t.last(), total, i));
    }
}

/// The sum of `sc[k]` over the indices `k` in `idx`.
spec fn scaled_sum(sc: Seq<u128>, idx: Seq<usize>) -> int
    decreases idx.len(),
{
    if idx.len() == 0 {
        0
    } else {
        scaled_sum(sc, idx.drop_last()) + sc[idx.last() as int]
    }
}

proof fn lemma_scaled_sum_insert(sc: Seq<u128>, idx: Seq<usize>, p: int, x: usize)
    requires
        0 <= p <= idx.len(),
    ensures
        scaled_sum(sc, idx.insert(p, x)) == scaled_sum(sc, idx) + sc[x as int],
    decreases idx.len(),
{
    if p < idx.len() {
        lemma_scaled_sum_insert(sc, idx.drop_last(), p, x);
        assert(idx.insert(p, x).drop_last() =~= idx.drop_last().insert(p, x));
    } else {
        assert(idx.insert(p, x).drop_last() =~= idx);
    }
}

proof fn lemma_scaled_sum_update(sc: Seq<u128>, idx: Seq<usize>, x: usize, v: u128)
    requires
        !idx.contains(x),
        x < sc.len(),
        forall|k: int| 0 <= k < idx.len() ==> #[trigger] idx[k] < sc.len(),
    ensures
        scaled_sum(sc.update(x as int, v), idx) == scaled_sum(sc, idx),
    decreases idx.len(),
{
    if idx.len() > 0 {
        let d = idx.drop_last();
        assert forall|k: int| 0 <= k < d.len() implies d[k] != x && d[k] < sc.len() by {
            assert(d[k] == idx[k]);
        }
        lemma_scaled_sum_update(sc, d, x, v);
        assert(idx[idx.len() - 1] != x);
    }
}

/// A sum of values all below `total` is below `total` times their number.
proof fn lemma_scaled_sum_below(sc: Seq<u128>, idx: Seq<usize>, total: int)
    requires
        idx.len() > 0,
        forall|k: int| 0 <= k < idx.len() ==> sc[#[trigger] idx[k] as int] < total,
    ensures
        scaled_sum(sc, idx) < total * idx.len(),
    decreases idx.len(),
{
    let d = idx.drop_last();
    assert(total * idx.len() == total * d.len() + total) by (nonlinear_arith)
        requires
            d.len() + 1 == idx.len();
    if idx.len() > 1 {
        assert forall|k: int| 0 <= k < d.len() implies sc[#[trigger] d[k] as int] < total by {
            assert(d[k] == idx[k]);
        }
        lemma_scaled_sum_below(sc, d, total);
    } else {
        assert(scaled_sum(sc, d) == 0);
    }
    assert(sc[idx[idx.len() - 1] as int] < total);
    assert(scaled_sum(sc, idx) == scaled_sum(sc, d) + sc[idx.last() as int]);
}

/// A sum of values all above `total` is above `total` times their number.
proof fn lemma_scaled_sum_above(sc: Seq<u128>, idx: Seq<usize>, total: int)
    requires
        idx.len() > 0,
        forall|k: int| 0 <= k < idx.len() ==> sc[#[trigger] idx[k] as int] > total,
    ensures
        scaled_sum(sc, idx) > total * idx.len(),
    decreases idx.len(),
{
    let d = idx.drop_last();
    assert(total * idx.len() == total * d.len() + total) by (nonlinear_arith)
        requires
            d.len() + 1 == idx.len();
    if idx.len() > 1 {
        assert forall|k: int| 0 <= k < d.len() implies sc[#[trigger] d[k] as int] > total by {
            assert(d[k] == idx[k]);
        }
        lemma_scaled_sum_above(sc, d, total);
    } else {
        assert(scaled_sum(sc, d) == 0);
        assert(total * d.len() == 0) by (nonlinear_arith)
            requires
                d.len() == 0;
    }
    assert(scaled_sum(sc, d) >= total * d.len());
    assert(sc[idx[idx.len() - 1] as int] > total);
    assert(scaled_sum(sc, idx) == scaled_sum(sc, d) + sc[idx.last() as int]);
}

proof fn lemma_insert_contains(s: Seq<usize>, p: int, x: usize)
    requires
        0 <= p <= s.len(),
    ensures
        forall|j: usize| s.insert(p, x).contains(j) <==> (s.contains(j) || j == x),
{
    let u = s.insert(p, x);
    assert forall|j: usize| u.contains(j) <==> (s.contains(j) || j == x) by {
        if u.contains(j) {
            let k = choose|k: int| 0 <= k < u.len() && u[k] == j;
            if k < p {
                assert(s[k] == j);
            } else if k > p {
                assert(s[k - 1] == j);
            }
        }
        if s.contains(j) {
            let k = choose|k: int| 0 <= k < s.len() && s[k] == j;
            if k < p {
                assert(u[k] == j);
            } else {
                assert(u[k + 1] == j);
            }
        }
        if j == x {
            assert(u[p] == x);
        }
    }
}

/// A row before its two outcomes are put in order.
spec fn raw_entry_ok(e: SamplerEntry, n: nat, total: nat) -> bool {
    &&& e.primary < n
    &&& e.alternate < n
    &&& e.use_alternate <= total
    &&& e.primary == e.alternate ==> e.use_alternate == 0
}

/// The scaled weight that index `j` still holds while it waits in a partition.
spec fn residual(sc: Seq<u128>, small: Seq<usize>, large: Seq<usize>, j: int) -> int {
    if small.contains(j as usize) || large.contains(j as usize) {
        sc[j] as int
    } else {
        0
    }
}

proof fn lemma_pop_contains(s: Seq<usize>)
    requires
        s.len() > 0,
    ensures
        forall|x: usize| s.contains(x) <==> (s.drop_last().contains(x) || x == s.last()),
{
    let d = s.drop_last();
    assert forall|x: usize| s.contains(x) <==> (d.contains(x) || x == s.last()) by {
        if s.contains(x) {
            let k = choose|k: int| 0 <= k < s.len() && s[k] == x;
            if k < d.len() {
                assert(d[k] == x);
            }
        }
        if d.contains(x) {
            let k = choose|k: int| 0 <= k < d.len() && d[k] == x;
            assert(s[k] == x);
        }
        if x == s.last() {
            assert(s[s.len() - 1] == x);
        }
    }
}

/// The state of the alias construction: rows emitted so far, the scaled
/// weights, and the two partitions, each in descending order so that its last
/// element is its lowest index.
pub struct AliasState {
    pub table: Seq<SamplerEntry>,
    pub scaled: Seq<u128>,
    pub small: Seq<usize>,
    pub large: Seq<usize>,
}

/// Each weight times the number of weights: an average weight scales to the
/// total weight.
pub open spec fn scaled_weights(w: Seq<u64>) -> Seq<u128> {
    Seq::new(w.len(), |i: int| (w.len() * w[i]) as u128)
}

/// `s`, in descending order, with `x` put in its place.
pub open spec fn insert_desc(s: Seq<usize>, x: usize) -> Seq<usize>
    decreases s.len(),
{
    if s.len() == 0 || s[0] <= x {
        seq![x] + s
    } else {
        seq![s[0]] + insert_desc(s.subrange(1, s.len() as int), x)
    }
}

/// Classifies indices `i..` by their scaled weight: equal to `total` gives a
/// certain row, above it goes to `large`, below it to `small`.
pub open spec fn classify(st: AliasState, total: int, i: int) -> AliasState
    decreases st.scaled.len() - i,
{
    if i < 0 || i >= st.scaled.len() {
        st
    } else {
        let s = st.scaled[i] as int;
        let next = if s == total {
            AliasState { table: st.table.push(SamplerEntry { primary: i as usize, alternate: i as usize, use_alternate: 0 }), ..st }
        } else if s > total {
            AliasState { large: seq![i as usize] + st.large, ..st }
        } else {
            AliasState { small: seq![i as usize] + st.small, ..st }
        };
        classify(next, total, i + 1)
    }
}

/// Pairs the lowest index `lo` of `small` with the lowest `hi` of `large` for
/// as long as both have one: the row `(lo, hi)` takes `hi` with the chance
/// `lo` lacks, `hi` gives up that much, and is then classified again. Each
/// round emits a row, so at most one round for each of the `n` outcomes is
/// needed.
pub open spec fn pair_off(st: AliasState, total: int, n: nat) -> AliasState
    decreases n + 1 - st.table.len(),
{
    if st.small.len() == 0 || st.large.len() == 0 || st.table.len() >= n {
        st
    } else {
        let lo = st.small.last();
        let hi = st.large.last();
        let small = st.small.drop_last();
        let large = st.large.drop_last();
        let s_lo = st.scaled[lo as int] as int;
        let s_hi = st.scaled[hi as int] - (total - s_lo);
        let scaled = st.scaled.update(hi as int, s_hi as u128);
        let table = st.table.push(SamplerEntry { primary: lo, alternate: hi, use_alternate: (total - s_lo) as u64 });
        let next = if s_hi < total {
            AliasState { table, scaled, small: insert_desc(small, hi), large }
        } else if s_hi > total {
            AliasState { table, scaled, small, large: insert_desc(large, hi) }
        } else {
            AliasState {
                table: table.push(SamplerEntry { primary: hi, alternate: hi, use_alternate: 0 }),
                scaled,
                small,
                large,
            }
        };
        pair_off(next, total, n)
    }
}

/// Emits a certain row for each index left in `idx`, lowest first.
pub open spec fn emit_rest(t: Seq<SamplerEntry>, idx: Seq<usize>) -> Seq<SamplerEntry>
    decreases idx.len(),
{
    if idx.len() == 0 {
        t
    } else {
        emit_rest(t.push(SamplerEntry { primary: idx.last(), alternate: idx.last(), use_alternate: 0 }), idx.drop_last())
    }
}

/// Row `e` with its outcomes in order, the chance flipped if they swap.
pub open spec fn norm_entry(e: SamplerEntry, total: int) -> SamplerEntry {
    if e.alternate < e.primary {
        SamplerEntry { primary: e.alternate, alternate: e.primary, use_alternate: (total - e.use_alternate) as u64 }
    } else {
        e
    }
}

pub open spec fn entry_lt_spec(a: SamplerEntry, b: SamplerEntry) -> bool {
    !entry_le(b, a)
}

/// `s` with `e` put after every row not above it (a stable insertion).
pub open spec fn sorted_insert(s: Seq<SamplerEntry>, e: SamplerEntry) -> Seq<SamplerEntry>
    decreases s.len(),
{
    if s.len() == 0 || !entry_lt_spec(e, s.last()) {
        s.push(e)
    } else {
        sorted_insert(s.drop_last(), e).push(s.last())
    }
}

/// The rows of `t` in order of `(primary, alternate)`, by stable insertion.
pub open spec fn sort_rows(t: Seq<SamplerEntry>) -> Seq<SamplerEntry>
    decreases t.len(),
{
    if t.len() == 0 {
        t
    } else {
        sorted_insert(sort_rows(t.drop_last()), t.last())
    }
}

/// The alias table of `w` (Vose's method on exact scaled weights): classify,
/// pair off lowest index first from each partition, emit what is left as
/// certain rows, put each row's outcomes in order and sort the rows.
pub open spec fn alias_table(w: Seq<u64>) -> Seq<SamplerEntry> {
    let total = weight_sum(w) as int;
    let start = AliasState { table: seq![], scaled: scaled_weights(w), small: seq![], large: seq![] };
    let paired = pair_off(classify(start, total, 0), total, w.len());
    let rows = emit_rest(emit_rest(paired.table, paired.small), paired.large);
    sort_rows(Seq::new(rows.len(), |k: int| norm_entry(rows[k], total)))
}

spec fn state_of(table: Seq<SamplerEntry>, scaled: Seq<u128>, small: Seq<usize>, large: Seq<usize>) -> AliasState {
    AliasState { table, scaled, small, large }
}

proof fn lemma_insert_desc(s: Seq<usize>, p: int, x: usize)
    requires
        0 <= p <= s.len(),
        forall|q: int| 0 <= q < p ==> s[q] > x,
        p == s.len() || s[p] <= x,
    ensures
        s.insert(p, x) == insert_desc(s, x),
    decreases s.len(),
{
    if p == 0 {
        assert(s.insert(0, x) =~= seq![x] + s);
    } else {
        let r = s.subrange(1, s.len() as int);
        assert forall|q: int| 0 <= q < p - 1 implies r[q] > x by {
            assert(r[q] == s[q + 1]);
        }
        if p < s.len() {
            assert(r[p - 1] == s[p]);
        }
        lemma_insert_desc(r, p - 1, x);
        assert(s.insert(p, x) =~= seq![s[0]] + r.insert(p - 1, x));
    }
}

proof fn lemma_sorted_insert(s: Seq<SamplerEntry>, p: int, e: SamplerEntry)
    requires
        0 <= p <= s.len(),
        forall|q: int| p <= q < s.len() ==> entry_lt_spec(e, #[trigger] s[q]),
        p == 0 || !entry_lt_spec(e, s[p - 1]),
    ensures
        s.insert(p, e) == sorted_insert(s, e),
    decreases s.len(),
{
    if p == s.len() {
        assert(s.insert(p, e) =~= s.push(e));
    } else {
        let d = s.drop_last();
        assert(entry_lt_spec(e, s[s.len() - 1]));
        assert forall|q: int| p <= q < d.len() implies entry_lt_spec(e, #[trigger] d[q]) by {
            assert(d[q] == s[q]);
        }
        if p > 0 {
            assert(d[p - 1] == s[p - 1]);
        }
        lemma_sorted_insert(d, p, e);
        assert(s.insert(p, e) =~= d.insert(p, e).push(s.last()));
    }
}

proof fn lemma_mass_insert(t: Seq<SamplerEntry>, total: nat, p: int, e: SamplerEntry)
    requires
        0 <= p <= t.len(),
    ensures
        forall|i: int| #[trigger] table_mass(t.insert(p, e), total, i) == table_mass(t, total, i) + entry_mass(e, total, i),
    decreases t.len(),
{
    let u = t.insert(p, e);
    if p < t.len() {
        lemma_mass_insert(t.drop_last(), total, p, e);
        assert(u.drop_last() =~= t.drop_last().insert(p, e));
        assert(u.last() == t.last());
    } else {
        assert(u.drop_last() =~= t);
        assert(u.last() == e);
    }
    assert forall|i: int| #[trigger] table_mass(u, total, i) == table_mass(t, total, i) + entry_mass(e, total, i) by {
        assert(table_mass(u, total, i) == table_mass(u.drop_last(), total, i) + entry_mass(u.last(), total, i));
        if p < t.len() {
            assert(table_mass(t, total, i) == table_mass(t.drop_last(), total, i) + entry_mass(t.last(), total, i));
        }
    }
}

/// A table built once by the alias method; each sample picks a row uniformly
/// and then one of its two outcomes by a weighted coin.
#[derive(Debug, Clone)]
pub struct Sampler {
    table: Vec<SamplerEntry>,
    total: u64,
}

impl Sampler {
    pub closed spec fn table(&self) -> Seq<SamplerEntry> {
        self.table@
    }

    /// The total weight, the denominator of each row's `use_alternate`.
    pub closed spec fn total(&self) -> nat {
        self.total as nat
    }

    pub open spec fn wf(&self) -> bool {
        &&& self.table().len() > 0
        &&& self.total() > 0
        &&& forall|k: int| 0 <= k < self.table().len() ==> entry_ok(#[trigger] self.table()[k], self.table().len(), self.total())
        &&& table_sorted(self.table())
    }

    /// Builds the alias table for `weights` (Vose's method): index `i` is
    /// drawn with probability `weights[i] / sum(weights)`, which the rows
    /// give exactly: over all rows, `i` gets `len * weights[i]` units of
    /// `1 / total`.
    #[verifier::rlimit(60)]
    pub fn new(weights: Vec<u64>) -> (r: Sampler)
        requires
            weights.len() > 0,
            0 < weight_sum(weights@) <= u64::MAX,
        ensures
            r.wf(),
            r.table().len() == weights.len(),
            r.total() == weight_sum(weights@),
            r.table() == alias_table(weights@),
            forall|i: int| 0 <= i < weights.len() ==> #[trigger] table_mass(r.table(), r.total(), i) == weights.len() * weights@[i],
    {
        let n: usize = weights.len();
        let ghost w = weights@;
        let mut total: u64 = 0;
        let mut k: usize = 0;
        while k < n
            invariant
                n == weights.len(),
                w == weights@,
                k <= n,
                total == weight_sum(w.take(k as int)),
                weight_sum(w) <= u64::MAX,
            decreases n - k,
        {
            proof {
                lemma_weight_sum_prefix(w, k + 1);
                assert(w.take(k + 1).drop_last() == w.take(k as int));
            }
            total = total + weights[k];
            k = k + 1;
        }
        assert(w.take(n as int) == w);
        // Each weight scaled so that an average weight is `total`.
        let mut scaled: Vec<u128> = Vec::new();
        let mut k: usize = 0;
        while k < n
            invariant
                n == weights.len(),
                w == weights@,
                k <= n,
                scaled@.len() == k,
                forall|j: int| 0 <= j < k ==> scaled@[j] == n * w[j],
            decreases n - k,
        {
            assert((n as u128) * (weights[k as int] as u128) <= 0xffff_ffff_ffff_ffffu128 * 0xffff_ffff_ffff_ffffu128) by (nonlinear_arith)
                requires
                    n <= 0xffff_ffff_ffff_ffffu128,
                    weights[k as int] <= 0xffff_ffff_ffff_ffffu128;
            scaled.push((n as u128) * (weights[k] as u128));
            k = k + 1;
        }
        let ghost sc = scaled@;
        assert(sc =~= scaled_weights(w));
        let ghost start = state_of(seq![], sc, seq![], seq![]);
        let mut table: Vec<SamplerEntry> = Vec::new();
        // Partitions kept in descending order, so that `pop` gives the lowest index.
        let mut small: Vec<usize> = Vec::new();
        let mut large: Vec<usize> = Vec::new();
        let mut i: usize = 0;
        while i < n
            invariant
                n == weights.len(),
                w == weights@,
                i <= n,
                total > 0,
                total == weight_sum(w),
                scaled@ == sc,
                sc.len() == n,
                forall|j: int| 0 <= j < n ==> sc[j] == n * w[j],
                table@.len() + small@.len() + large@.len() == i,
                forall|j: int| 0 <= j < small@.len() ==> #[trigger] small@[j] < i && sc[small@[j] as int] < total,
                forall|j: int| 0 <= j < large@.len() ==> #[trigger] large@[j] < i && sc[large@[j] as int] > total,
                forall|a: int, b: int| 0 <= a < b < small@.len() ==> small@[a] > small@[b],
                forall|a: int, b: int| 0 <= a < b < large@.len() ==> large@[a] > large@[b],
                forall|a: int, b: int| 0 <= a < small@.len() && 0 <= b < large@.len() ==> small@[a] != large@[b],
                forall|j: int| 0 <= j < table@.len() ==> raw_entry_ok(#[trigger] table@[j], n as nat, total as nat),
                forall|j: int| 0 <= j < table@.len() ==> (#[trigger] table@[j]).primary < i,
                forall|j: int| 0 <= j < n ==> #[trigger] table_mass(table@, total as nat, j) + residual(sc, small@, large@, j) == if j < i {
                    n * w[j]
                } else {
                    0
                },
                scaled_sum(sc, small@) + scaled_sum(sc, large@) + total * table@.len() == n * weight_sum(w.take(i as int)),
                classify(state_of(table@, sc, small@, large@), total as int, i as int) == classify(start, total as int, 0),
            decreases n - i,
        {
            let ghost t0 = table@;
            let ghost sm0 = small@;
            let ghost lg0 = large@;
            let s: u128 = scaled[i];
            let ghost before = state_of(t0, sc, sm0, lg0);
            proof {
                lemma_weight_sum_prefix(w, i + 1);
                assert(w.take(i + 1).drop_last() == w.take(i as int));
                assert(n * weight_sum(w.take(i + 1)) == n * weight_sum(w.take(i as int)) + n * w[i as int]) by (nonlinear_arith)
                    requires
                        weight_sum(w.take(i + 1)) == weight_sum(w.take(i as int)) + w[i as int];
                assert(!sm0.contains(i));
                assert(!lg0.contains(i));
            }
            if s == total as u128 {
                table.push(SamplerEntry::single(i));
                proof {
                    assert(table@.drop_last() == t0);
                    assert(classify(before, total as int, i as int) == classify(state_of(table@, sc, small@, large@), total as int, i + 1));
                    assert(total * table@.len() == total * t0.len() + total) by (nonlinear_arith)
                        requires
                            table@.len() == t0.len() + 1;
                }
            } else if s > total as u128 {
                large.insert(0, i);
                proof {
                    assert(large@ =~= seq![i] + lg0);
                    assert(classify(before, total as int, i as int) == classify(state_of(table@, sc, small@, large@), total as int, i + 1));
                    lemma_insert_contains(lg0, 0, i);
                    lemma_scaled_sum_insert(sc, lg0, 0, i);
                }
            } else {
                small.insert(0, i);
                proof {
                    assert(small@ =~= seq![i] + sm0);
                    assert(classify(before, total as int, i as int) == classify(state_of(table@, sc, small@, large@), total as int, i + 1));
                    lemma_insert_contains(sm0, 0, i);
                    lemma_scaled_sum_insert(sc, sm0, 0, i);
                }
            }
            proof {
                assert forall|j: int| 0 <= j < n implies #[trigger] table_mass(table@, total as nat, j) + residual(sc, small@, large@, j) == if j < i + 1 {
                    n * w[j]
                } else {
                    0
                } by {
                    if table@.len() > t0.len() {
                        assert(table_mass(table@, total as nat, j) == table_mass(t0, total as nat, j) + entry_mass(table@.last(), total as nat, j));
                    }
                    if j == i {
                        if small@.len() > sm0.len() {
                            assert(small@[0] == i);
                        }
                        if large@.len() > lg0.len() {
                            assert(large@[0] == i);
                        }
                    }
                }
            }
            i = i + 1;
        }
        let ghost classified = state_of(table@, scaled@, small@, large@);
        assert(classified == classify(start, total as int, 0));
        proof {
            assert(w.take(n as int) == w);
            assert(total * (small@.len() + large@.len()) == n * total - total * table@.len()) by (nonlinear_arith)
                requires
                    table@.len() + small@.len() + large@.len() == n;
            assert forall|j: int| 0 <= j < n implies #[trigger] table_mass(table@, total as nat, j) + residual(scaled@, small@, large@, j) == n * w[j] by {
                assert(j < n);
            }
        }
        while small.len() > 0 && large.len() > 0
            invariant
                n == weights.len(),
                w == weights@,
                total > 0,
                scaled@.len() == n,
                table@.len() + small@.len() + large@.len() == n,
                forall|j: int| 0 <= j < small@.len() ==> #[trigger] small@[j] < n && scaled@[small@[j] as int] < total,
                forall|j: int| 0 <= j < large@.len() ==> #[trigger] large@[j] < n && scaled@[large@[j] as int] > total,
                forall|a: int, b: int| 0 <= a < b < small@.len() ==> small@[a] > small@[b],
                forall|a: int, b: int| 0 <= a < b < large@.len() ==> large@[a] > large@[b],
                forall|a: int, b: int| 0 <= a < small@.len() && 0 <= b < large@.len() ==> small@[a] != large@[b],
                forall|j: int| 0 <= j < table@.len() ==> raw_entry_ok(#[trigger] table@[j], n as nat, total as nat),
                forall|j: int| 0 <= j < n ==> #[trigger] table_mass(table@, total as nat, j) + residual(scaled@, small@, large@, j) == n * w[j],
                scaled_sum(scaled@, small@) + scaled_sum(scaled@, large@) == total * (small@.len() + large@.len()),
                pair_off(state_of(table@, scaled@, small@, large@), total as int, n as nat) == pair_off(classified, total as int, n as nat),
            decreases small@.len() + 2 * large@.len(),
        {
            let ghost t0 = table@;
            let ghost sc0 = scaled@;
            let ghost sm0 = small@;
            let ghost lg0 = large@;
            let ghost before = state_of(t0, sc0, sm0, lg0);
            let lo = small.pop().unwrap();
            let hi = large.pop().unwrap();
            let ghost sm1 = small@;
            let ghost lg1 = large@;
            proof {
                assert(sm0[sm0.len() - 1] == lo);
                assert(lg0[lg0.len() - 1] == hi);
                assert(sm1 == sm0.drop_last());
                lemma_pop_contains(sm0);
                lemma_pop_contains(lg0);
                assert(!sm1.contains(lo)) by {
                    assert forall|k: int| 0 <= k < sm1.len() implies sm1[k] != lo by {
                        assert(sm0[k] > sm0[sm0.len() - 1]);
                    }
                }
                assert(!lg1.contains(hi)) by {
                    assert forall|k: int| 0 <= k < lg1.len() implies lg1[k] != hi by {
                        assert(lg0[k] > lg0[lg0.len() - 1]);
                    }
                }
                assert(!sm1.contains(hi)) by {
                    assert forall|k: int| 0 <= k < sm1.len() implies sm1[k] != hi by {
                        assert(sm0[k] != lg0[lg0.len() - 1]);
                    }
                }
                assert(!lg1.contains(lo)) by {
                    assert forall|k: int| 0 <= k < lg1.len() implies lg1[k] != lo by {
                        assert(sm0[sm0.len() - 1] != lg0[k]);
                    }
                }
                assert(lo != hi) by {
                    assert(sm0[sm0.len() - 1] != lg0[lg0.len() - 1]);
                }
                assert(scaled_sum(sc0, sm0) == scaled_sum(sc0, sm1) + sc0[lo as int]);
                assert(scaled_sum(sc0, lg0) == scaled_sum(sc0, lg1) + sc0[hi as int]);
            }
            let s_lo: u128 = scaled[lo];
            let s_hi: u128 = scaled[hi] - (total as u128 - s_lo);
            scaled[hi] = s_hi;
            let ghost sc1 = scaled@;
            proof {
                assert(sc1 == sc0.update(hi as int, s_hi));
                assert forall|k: int| 0 <= k < sm1.len() implies #[trigger] sm1[k] < sc0.len() by {
                    assert(sm1[k] == sm0[k]);
                }
                assert forall|k: int| 0 <= k < lg1.len() implies #[trigger] lg1[k] < sc0.len() by {
                    assert(lg1[k] == lg0[k]);
                }
                lemma_scaled_sum_update(sc0, sm1, hi, s_hi);
                lemma_scaled_sum_update(sc0, lg1, hi, s_hi);
                assert(sm1 =~= sm0.drop_last());
                assert(lg1 =~= lg0.drop_last());
            }
            let pair = SamplerEntry { primary: lo, alternate: hi, use_alternate: (total as u128 - s_lo) as u64 };
            table.push(pair);
            let ghost t1 = table@;
            proof {
                assert(t1.drop_last() == t0);
            }
            if s_hi < total as u128 {
                let mut p: usize = 0;
                while p < small.len() && small[p] > hi
                    invariant
                        p <= small@.len(),
                        forall|q: int| 0 <= q < p ==> small@[q] > hi,
                    decreases small@.len() - p,
                {
                    p = p + 1;
                }
                proof {
                    lemma_insert_desc(sm1, p as int, hi);
                }
                small.insert(p, hi);
                proof {
                    lemma_insert_contains(sm1, p as int, hi);
                    lemma_scaled_sum_insert(sc1, sm1, p as int, hi);
                }
            } else if s_hi > total as u128 {
                let mut p: usize = 0;
                while p < large.len() && large[p] > hi
                    invariant
                        p <= large@.len(),
                        forall|q: int| 0 <= q < p ==> large@[q] > hi,
                    decreases large@.len() - p,
                {
                    p = p + 1;
                }
                proof {
                    lemma_insert_desc(lg1, p as int, hi);
                }
                large.insert(p, hi);
                proof {
                    lemma_insert_contains(lg1, p as int, hi);
                    lemma_scaled_sum_insert(sc1, lg1, p as int, hi);
                }
            } else {
                table.push(SamplerEntry::single(hi));
                proof {
                    assert(table@.drop_last() == t1);
                }
            }
            proof {
                assert(pair_off(before, total as int, n as nat) == pair_off(state_of(table@, scaled@, small@, large@), total as int, n as nat));
                let m = (sm0.len() + lg0.len()) as int;
                assert(total * (m - 1) == total * m - total && total * (m - 2) == total * m - 2 * total) by (nonlinear_arith);
                assert forall|j: int| 0 <= j < n implies #[trigger] table_mass(table@, total as nat, j) + residual(scaled@, small@, large@, j) == n * w[j] by {
                    assert(table_mass(t1, total as nat, j) == table_mass(t0, total as nat, j) + entry_mass(pair, total as nat, j));
                    if table@.len() > t1.len() {
                        assert(table_mass(table@, total as nat, j) == table_mass(t1, total as nat, j) + entry_mass(table@.last(), total as nat, j));
                    }
                    assert(sm0.contains(lo));
                    assert(lg0.contains(hi));
                }
            }
        }
        proof {
            if small@.len() > 0 {
                lemma_scaled_sum_below(scaled@, small@, total as int);
                assert(false);
            }
            if large@.len() > 0 {
                lemma_scaled_sum_above(scaled@, large@, total as int);
                assert(false);
            }
            assert(small@ =~= Seq::<usize>::empty() && large@ =~= Seq::<usize>::empty());
            // With exact arithmetic no index is left over in either partition.
            assert forall|j: int| 0 <= j < n implies #[trigger] table_mass(table@, total as nat, j) == n * w[j] by {
                assert(!small@.contains(j as usize));
                assert(!large@.contains(j as usize));
            }
        }
        let ghost paired = pair_off(classified, total as int, n as nat);
        let ghost rows = table@;
        assert(paired == state_of(table@, scaled@, small@, large@));
        assert(emit_rest(emit_rest(paired.table, paired.small), paired.large) == rows);
        let mut j: usize = 0;
        while j < table.len()
            invariant
                n == table@.len(),
                rows.len() == n,
                w == weights@,
                j <= n,
                forall|a: int| 0 <= a < j ==> table@[a] == norm_entry(#[trigger] rows[a], total as int),
                forall|a: int| j <= a < n ==> table@[a] == #[trigger] rows[a],
                forall|a: int| 0 <= a < j ==> entry_ok(#[trigger] table@[a], n as nat, total as nat),
                forall|a: int| j <= a < n ==> raw_entry_ok(#[trigger] table@[a], n as nat, total as nat),
                forall|i: int| 0 <= i < n ==> #[trigger] table_mass(table@, total as nat, i) == n * w[i],
            decreases n - j,
        {
            let e = table[j];
            if e.alternate < e.primary {
                let swapped = SamplerEntry { primary: e.alternate, alternate: e.primary, use_alternate: total - e.use_alternate };
                let ghost t0 = table@;
                proof {
                    assert forall|i: int| entry_mass(swapped, total as nat, i) == entry_mass(t0[j as int], total as nat, i) by {}
                    lemma_mass_update(t0, total as nat, j as int, swapped);
                }
                table[j] = swapped;
                assert(table@ == t0.update(j as int, swapped));
            }
            j = j + 1;
        }
        assert(table@ =~= Seq::new(rows.len(), |k: int| norm_entry(rows[k], total as int)));
        let sorted = sort_table(&table, Ghost(n as nat), Ghost(total as nat));
        Sampler { table: sorted, total }
    }

    /// The number of rows, one per weight.
    pub fn len(&self) -> (r: usize)
        ensures
            r == self.table().len(),
    {
        self.table.len()
    }

    /// The row at `i`.
    pub fn entry(&self, i: usize) -> (r: SamplerEntry)
        requires
            i < self.table().len(),
        ensures
            r == self.table()[i as int],
    {
        self.table[i]
    }

    /// The total weight.
    pub fn total_weight(&self) -> (r: u64)
        ensures
            r == self.total(),
    {
        self.total
    }

    /// The probability, as a coin, that row `e` gives its alternate.
    pub open spec fn alternate_chance(e: SamplerEntry, total: nat) -> Probability {
        Probability { threshold: ratio_threshold(e.use_alternate as int, total as int) as u64 }
    }

    /// One sample: a uniform row index, then one coin on that row. Returns the
    /// index drawn and the cursor afterwards.
    pub open spec fn sample_model(t: Seq<SamplerEntry>, total: nat, s: Seq<bool>, pos: int) -> (Option<usize>, int) {
        let (row, at1) = bounded_model(s, pos, (t.len() - 1) as u64);
        match row {
            None => (None, at1),
            Some(k) => {
                let e = t[k as int];
                let (c, at2) = coin_model(s, at1, Self::alternate_chance(e, total));
                match c {
                    None => (None, at2),
                    Some(b) => (Some(if b { e.alternate } else { e.primary }), at2),
                }
            },
        }
    }

    /// Draws an index with probability proportional to its weight.
    pub fn sample(&self, source: &mut DataSource) -> (r: Result<usize, FailedDraw>)
        requires
            self.wf(),
            old(source).wf(),
        ensures
            final(source).wf(),
            final(source).buffer() == old(source).buffer(),
            outcome(r) == Self::sample_model(self.table(), self.total(), old(source).buffer(), old(source).pos()).0,
            final(source).pos() == Self::sample_model(self.table(), self.total(), old(source).buffer(), old(source).pos()).1,
            r is Ok ==> r->Ok_0 < self.table().len(),
    {
        let ghost s = source.buffer();
        let ghost pos = source.pos();
        let max: u64 = (self.table.len() - 1) as u64;
        match bounded_int(source, max) {
            Ok(k) => {
                proof {
                    lemma_bounded_range(s, pos, max);
                }
                let entry = self.table[k as usize];
                let p = Probability::from_ratio(entry.use_alternate, self.total);
                match weighted(source, p) {
                    Ok(use_alternate) => {
                        if use_alternate {
                            Ok(entry.alternate)
                        } else {
                            Ok(entry.primary)
                        }
                    },
                    Err(e) => Err(e),
                }
            },
            Err(e) => Err(e),
        }
    }
}

/// The rows in order of `(primary, alternate)`, by stable insertion; the
/// chance of every index is kept.
fn sort_table(table: &Vec<SamplerEntry>, Ghost(n): Ghost<nat>, Ghost(total): Ghost<nat>) -> (r: Vec<SamplerEntry>)
    requires
        table@.len() == n,
        forall|a: int| 0 <= a < n ==> entry_ok(#[trigger] table@[a], n, total),
    ensures
        r@ == sort_rows(table@),
        r@.len() == n,
        forall|a: int| 0 <= a < n ==> entry_ok(#[trigger] r@[a], n, total),
        table_sorted(r@),
        forall|i: int| #[trigger] table_mass(r@, total, i) == table_mass(table@, total, i),
{
    let mut sorted: Vec<SamplerEntry> = Vec::new();
    let mut k: usize = 0;
    while k < table.len()
        invariant
            table@.len() == n,
            forall|a: int| 0 <= a < n ==> entry_ok(#[trigger] table@[a], n, total),
            k <= n,
            sorted@ == sort_rows(table@.take(k as int)),
            sorted@.len() == k,
            forall|a: int| 0 <= a < k ==> entry_ok(#[trigger] sorted@[a], n, total),
            table_sorted(sorted@),
            forall|i: int| #[trigger] table_mass(sorted@, total, i) == table_mass(table@.take(k as int), total, i),
        decreases n - k,
    {
        let e = table[k];
        let mut p: usize = sorted.len();
        while p > 0 && entry_lt(&e, &sorted[p - 1])
            invariant
                p <= sorted@.len(),
                forall|q: int| p <= q < sorted@.len() ==> entry_lt_spec(e, #[trigger] sorted@[q]),
            decreases p,
        {
            p = p - 1;
        }
        let ghost s0 = sorted@;
        proof {
            lemma_sorted_insert(s0, p as int, e);
            lemma_mass_insert(s0, total, p as int, e);
            assert(table@.take(k + 1).drop_last() =~= table@.take(k as int));
            assert(table@.take(k + 1).last() == e);
            assert forall|q: int| 0 <= q < p implies entry_le(#[trigger] s0[q], e) by {
                assert(entry_le(s0[q], s0[p - 1]));
            }
        }
        sorted.insert(p, e);
        proof {
            assert forall|i: int| #[trigger] table_mass(sorted@, total, i) == table_mass(table@.take(k + 1), total, i) by {
                assert(table_mass(table@.take(k + 1), total, i) == table_mass(table@.take(k as int), total, i) + entry_mass(e, total, i));
            }
            assert forall|a: int, b: int| 0 <= a < b < sorted@.len() implies entry_le(#[trigger] sorted@[a], #[trigger] sorted@[b]) by {
                if b < p {
                } else if b == p {
                } else if a < p {
                } else if a == p {
                    assert(entry_lt_spec(e, s0[b - 1]));
                } else {
                }
            }
        }
        k = k + 1;
    }
    assert(table@.take(n as int) =~= table@);
    sorted
}

/// Of the `2^64` values of a row's coin read, how many give index `i`: the
/// top `threshold` values give the alternate, the others the primary.
pub open spec fn entry_patterns(e: SamplerEntry, total: nat, i: int) -> int {
    let t = Sampler::alternate_chance(e, total).threshold as int;
    (if e.primary == i { two_to_64() - t } else { 0 }) + (if e.alternate == i { t } else { 0 })
}

/// Over all rows, how many (row, coin read) pairs give index `i`; each pair
/// has the chance `1 / (t.len() * 2^64)` on uniform bits.
pub open spec fn table_patterns(t: Seq<SamplerEntry>, total: nat, i: int) -> int
    decreases t.len(),
{
    if t.len() == 0 {
        0
    } else {
        table_patterns(t.drop_last(), total, i) + entry_patterns(t.last(), total, i)
    }
}

/// Sampling over uniform bits gives each index its exact chance up to the
/// rounding of the coins: for the rows of a table over `n` outcomes, the
/// pattern count of `i`, scaled by `total`, is
/// within `t.len() * total` of its mass scaled by `2^64`. With the masses of
/// `Sampler::new` this puts the chance of `i` within `2^-64` of
/// `weights[i] / sum(weights)`.
pub proof fn lemma_sample_frequencies(t: Seq<SamplerEntry>, n: nat, total: nat, i: int)
    requires
        total > 0,
        forall|k: int| 0 <= k < t.len() ==> entry_ok(#[trigger] t[k], n, total),
    ensures
        -(t.len() * total) <= table_patterns(t, total, i) * total - table_mass(t, total, i) * two_to_64() <= t.len() * total,
    decreases t.len(),
{
    if t.len() > 0 {
        let d = t.drop_last();
        assert forall|k: int| 0 <= k < d.len() implies entry_ok(#[trigger] d[k], n, total) by {
            assert(d[k] == t[k]);
        }
        lemma_sample_frequencies(d, n, total, i);
        let e = t.last();
        assert(entry_ok(t[t.len() - 1], n, total));
        let u = e.use_alternate as int;
        let q = u * two_to_64() / (total as int);
        lemma_fundamental_div_mod(u * two_to_64(), total as int);
        lemma_mod_bound(u * two_to_64(), total as int);
        assert(q <= two_to_64()) by (nonlinear_arith)
            requires
                q * total <= u * two_to_64(),
                u <= total,
                total > 0,
                two_to_64() > 0;
        assert(q == two_to_64() ==> u == total) by (nonlinear_arith)
            requires
                q * total <= u * two_to_64(),
                u <= total,
                two_to_64() > 0;
        let th = Sampler::alternate_chance(e, total).threshold as int;
        assert(0 <= u * two_to_64() - th * total <= total) by (nonlinear_arith)
            requires
                q * total <= u * two_to_64() < q * total + total,
                q <= two_to_64(),
                th == if q > u64::MAX { u64::MAX as int } else { q },
                u64::MAX == two_to_64() - 1,
                u <= total,
                q == two_to_64() ==> u == total;
        let de = entry_patterns(e, total, i) * total - entry_mass(e, total, i) * two_to_64();
        assert(-(total as int) <= de <= total) by (nonlinear_arith)
            requires
                de == entry_patterns(e, total, i) * total - entry_mass(e, total, i) * two_to_64(),
                entry_patterns(e, total, i) == (if e.primary == i { two_to_64() - th } else { 0 }) + (if e.alternate == i { th } else { 0 }),
                entry_mass(e, total, i) == (if e.primary == i { total - u } else { 0 }) + (if e.alternate == i { u } else { 0 }),
                0 <= u * two_to_64() - th * total <= total,
                e.primary == e.alternate ==> u == 0 && th == 0,
                total > 0;
        assert(t.len() * total == d.len() * total + total) by (nonlinear_arith)
            requires
                t.len() == d.len() + 1;
        assert(table_patterns(t, total, i) * total - table_mass(t, total, i) * two_to_64() == (table_patterns(d, total, i) * total - table_mass(d, total, i) * two_to_64()) + de) by (nonlinear_arith)
            requires
                table_patterns(t, total, i) == table_patterns(d, total, i) + entry_patterns(e, total, i),
                table_mass(t, total, i) == table_mass(d, total, i) + entry_mass(e, total, i),
                de == entry_patterns(e, total, i) * total - entry_mass(e, total, i) * two_to_64();
    }
}

/// A sampler with a single row always gives index 0: the row draw reads no
/// bits, and the one coin that follows is read and cannot change the index.
pub proof fn lemma_single_row(t: Seq<SamplerEntry>, total: nat, s: Seq<bool>, pos: int)
    requires
        t.len() == 1,
        entry_ok(t[0], 1, total),
        0 <= pos,
    ensures
        pos + 64 <= s.len() ==> Sampler::sample_model(t, total, s, pos) == (Some(0usize), pos + 64),
        pos + 64 > s.len() ==> Sampler::sample_model(t, total, s, pos) == (None::<usize>, pos),
{
    lemma_bounded_range(s, pos, 0);
}

/// A sample depends on the table and the unread bits alone.
pub proof fn lemma_sample_replay(t: Seq<SamplerEntry>, total: nat, s1: Seq<bool>, at1: int, s2: Seq<bool>, at2: int)
    requires
        same_rest(s1, at1, s2, at2),
    ensures
        Sampler::sample_model(t, total, s1, at1).0 == Sampler::sample_model(t, total, s2, at2).0,
        Sampler::sample_model(t, total, s1, at1).1 - at1 == Sampler::sample_model(t, total, s2, at2).1 - at2,
{
    let max = (t.len() - 1) as u64;
    lemma_bounded_replay(s1, at1, s2, at2, max);
    lemma_bounded_range(s1, at1, max);
    let (row, q1) = bounded_model(s1, at1, max);
    let q2 = bounded_model(s2, at2, max).1;
    if row is Some {
        lemma_bounded_in_buffer(s1, at1, max);
        lemma_same_rest_advance(s1, at1, s2, at2, q1 - at1);
        let e = t[row->Some_0 as int];
        lemma_coin_replay(s1, q1, s2, q2, Sampler::alternate_chance(e, total));
    }
}

/// A successful bounded draw stays inside the buffer.
pub proof fn lemma_bounded_in_buffer(s: Seq<bool>, pos: int, max: u64)
    requires
        0 <= pos <= s.len(),
    ensures
        pos <= bounded_model(s, pos, max).1 <= s.len(),
    decreases s.len() - pos,
{
    if max != 0 {
        let b = bit_length(max as nat);
        if pos + b <= s.len() && read_value(s, pos, b) > max {
            lemma_bounded_in_buffer(s, pos + b, max);
        }
    }
}

pub proof fn lemma_sample_in_buffer(t: Seq<SamplerEntry>, total: nat, s: Seq<bool>, pos: int)
    requires
        0 <= pos <= s.len(),
    ensures
        pos <= Sampler::sample_model(t, total, s, pos).1 <= s.len(),
{
    lemma_bounded_in_buffer(s, pos, (t.len() - 1) as u64);
}

} // verus!
