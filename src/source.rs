use vstd::arithmetic::power2::{lemma2_to64, lemma2_to64_rest, lemma_pow2_strictly_increases, lemma_pow2_unfold, pow2};
use vstd::prelude::*;

verus! {

/// The one way a draw can fail: the bit source cannot supply the bits asked for.
#[derive(Debug, Clone, Copy, PartialEq, Eq, Structural)]
pub struct FailedDraw;

/// `2^64`, the number of distinct values of a 64-bit read.
pub open spec fn two_to_64() -> int {
    0x1_0000_0000_0000_0000
}

/// The value of the bit at `i`: 1 when set, 0 otherwise.
pub open spec fn bit_at(s: Seq<bool>, i: int) -> nat {
    if s[i] {
        1
    } else {
        0
    }
}

/// The `n` bits of `s` starting at `start`, read as an unsigned integer with
/// the first bit most significant.
pub open spec fn read_value(s: Seq<bool>, start: int, n: nat) -> nat
    decreases n,
{
    if n == 0 {
        0
    } else {
        2 * read_value(s, start, (n - 1) as nat) + bit_at(s, start + n - 1)
    }
}

/// What a draw returns, with the failure dropped to `None`.
pub open spec fn outcome<T>(r: Result<T, FailedDraw>) -> Option<T> {
    match r {
        Ok(v) => Some(v),
        Err(_) => None,
    }
}

/// A read of `n` bits is below `2^n`.
pub proof fn lemma_read_value_bound(s: Seq<bool>, start: int, n: nat)
    ensures
        read_value(s, start, n) < pow2(n),
    decreases n,
{
    if n == 0 {
        assert(pow2(0) == 1) by {
            lemma2_to64();
        }
    } else {
        lemma_read_value_bound(s, start, (n - 1) as nat);
        lemma_pow2_unfold(n);
    }
}

/// A read of at most 64 bits fits in a `u64`.
pub proof fn lemma_read_value_fits(s: Seq<bool>, start: int, n: nat)
    requires
        n <= 64,
    ensures
        read_value(s, start, n) < two_to_64(),
{
    lemma_read_value_bound(s, start, n);
    lemma2_to64();
    lemma2_to64_rest();
    if n < 64 {
        lemma_pow2_strictly_increases(n, 64);
    }
}

/// A sequential cursor over a finite buffer of bits. Each read takes the next
/// bits in order; a read that asks for more bits than are left fails and
/// leaves the cursor where it was.
pub struct DataSource {
    bits: Vec<bool>,
    index: usize,
}

impl DataSource {
    /// The whole buffer, read or not.
    pub closed spec fn buffer(&self) -> Seq<bool> {
        self.bits@
    }

    /// How many bits have been read so far.
    pub closed spec fn pos(&self) -> int {
        self.index as int
    }

    pub open spec fn wf(&self) -> bool {
        0 <= self.pos() <= self.buffer().len()
    }

    /// A source that will hand out `bits` in order.
    pub fn from_bits(bits: Vec<bool>) -> (r: DataSource)
        ensures
            r.wf(),
            r.buffer() == bits@,
            r.pos() == 0,
    {
        DataSource { bits, index: 0 }
    }

    /// How many bits have been read so far.
    pub fn position(&self) -> (r: usize)
        ensures
            r == self.pos(),
    {
        self.index
    }

    /// How many bits are left to read.
    pub fn remaining(&self) -> (r: usize)
        requires
            self.wf(),
        ensures
            r == self.buffer().len() - self.pos(),
    {
        self.bits.len() - self.index
    }

    /// Reads the next `n` bits as an unsigned integer, first bit most
    /// significant, or fails when fewer than `n` bits are left.
    pub fn bits(&mut self, n: u64) -> (r: Result<u64, FailedDraw>)
        requires
            old(self).wf(),
            1 <= n <= 64,
        ensures
            final(self).wf(),
            final(self).buffer() == old(self).buffer(),
            old(self).pos() + n <= old(self).buffer().len() ==> r == Ok::<u64, FailedDraw>(
                read_value(old(self).buffer(), old(self).pos(), n as nat) as u64,
            ) && final(self).pos() == old(self).pos() + n,
            old(self).pos() + n > old(self).buffer().len() ==> r is Err && final(self).pos()
                == old(self).pos(),
    {
        if n as usize > self.bits.len() - self.index {
            return Err(FailedDraw);
        }
        let ghost s = self.bits@;
        let ghost start = self.index as int;
        let mut value: u64 = 0;
        let mut i: u64 = 0;
        while i < n
            invariant
                self.bits@ == s,
                self.index == start,
                start + n <= s.len(),
                s.len() == self.bits.len(),
                n <= 64,
                i <= n,
                value == read_value(s, start, i as nat),
            decreases n - i,
        {
            proof {
                lemma_read_value_fits(s, start, (i + 1) as nat);
            }
            let b: u64 = if self.bits[self.index + i as usize] {
                1
            } else {
                0
            };
            value = value * 2 + b;
            i = i + 1;
        }
        self.index = self.index + n as usize;
        Ok(value)
    }
}

} // verus!
