//! A tiny deterministic xorshift64 generator.
use vstd::prelude::*;

verus! {

/// One xorshift64 step (shifts 13, 7, 17).
pub open spec fn xorshift64(x: u64) -> u64 {
    let a = x ^ (x << 13u64);
    let b = a ^ (a >> 7u64);
    b ^ (b << 17u64)
}

/// `n` xorshift64 steps from `x`.
pub open spec fn xorshift64_iter(x: u64, n: nat) -> u64
    decreases n,
{
    if n == 0 {
        x
    } else {
        xorshift64(xorshift64_iter(x, (n - 1) as nat))
    }
}

/// A xorshift64 generator.
pub struct Rng(u64);

impl Rng {
    /// The generator's state.
    pub closed spec fn state(&self) -> u64 {
        self.0
    }

    /// A generator seeded with `seed`, its low bit forced to one so that the
    /// state is never zero.
    pub fn new(seed: u64) -> (r: Self)
        ensures
            r.state() == seed | 1,
    {
        Rng(seed | 1)
    }

    /// Steps the generator and returns its new state.
    pub fn next_u64(&mut self) -> (x: u64)
        ensures
            x == xorshift64(old(self).state()),
            final(self).state() == x,
    {
        let mut x = self.0;
        x ^= x << 13u64;
        x ^= x >> 7u64;
        x ^= x << 17u64;
        self.0 = x;
        x
    }

    /// Fills `buf` with the low bytes of successive outputs.
    pub fn fill(&mut self, buf: &mut [u8])
        ensures
            final(buf)@.len() == old(buf)@.len(),
            final(self).state() == xorshift64_iter(old(self).state(), old(buf)@.len()),
            forall|i: int|
                0 <= i < old(buf)@.len() ==> #[trigger] final(buf)@[i] == xorshift64_iter(
                    old(self).state(),
                    (i + 1) as nat,
                ) as u8,
    {
        let ghost s0 = self.0;
        let mut i: usize = 0;
        while i < buf.len()
            invariant
                i <= buf@.len(),
                buf@.len() == old(buf)@.len(),
                s0 == old(self).state(),
                self.0 == xorshift64_iter(s0, i as nat),
                forall|k: int|
                    0 <= k < i ==> #[trigger] buf@[k] == xorshift64_iter(s0, (k + 1) as nat) as u8,
            decreases buf@.len() - i,
        {
            buf[i] = self.next_u64() as u8;
            i += 1;
        }
    }
}

} // verus!
