//! An MSB-first bit writer into a byte buffer.
use crate::bits::{
    lemma_stream_bits_push, lemma_word_bits_low_byte, lemma_word_bits_pad,
    lemma_word_bits_push_n, lemma_word_bits_skip, lemma_word_bits_take, stream_bits, word_bits,
};
use vstd::prelude::*;

verus! {

/// Writes bits MSB-first into `buf`: whole bytes go to `buf[..idx]`, and
/// the `acc_len` bits that do not yet fill a byte wait in `acc`.
pub struct BitWriter<'a> {
    pub buf: &'a mut [u8],
    pub acc: u64,
    pub acc_len: u32,
    pub idx: usize,
}

impl<'a> BitWriter<'a> {
    /// The bits written so far.
    pub open spec fn bits(&self) -> Seq<bool> {
        stream_bits(self.buf@.take(self.idx as int)) + word_bits(self.acc, self.acc_len as nat)
    }

    /// Fewer than eight bits wait, and the flushed bytes fit in the buffer.
    pub open spec fn wf(&self) -> bool {
        self.acc_len < 8 && self.idx <= self.buf@.len()
    }

    /// Every flushed byte counts eight bits.
    pub proof fn lemma_bits_len(&self)
        requires
            self.wf(),
        ensures
            self.bits().len() == 8 * self.idx + self.acc_len,
    {
    }

    /// A writer at the start of `buf`.
    pub fn new(buf: &'a mut [u8]) -> (w: Self)
        ensures
            w.wf(),
            w.bits() == Seq::<bool>::empty(),
            w.idx == 0,
            w.buf@ == old(buf)@,
            final(w.buf)@ == final(buf)@,
    {
        let w = BitWriter { buf, acc: 0, acc_len: 0, idx: 0 };
        assert(w.bits() =~= Seq::<bool>::empty());
        w
    }

    /// Writes the low `n` bits of `bits`, most significant first.
    pub fn push(&mut self, bits: u64, n: u32)
        requires
            old(self).wf(),
            n <= 56,
            old(self).idx + (old(self).acc_len + n) / 8 <= old(self).buf@.len(),
        ensures
            final(self).wf(),
            final(self).bits() == old(self).bits() + word_bits(bits, n as nat),
            final(self).buf@.len() == old(self).buf@.len(),
            old(self).idx <= final(self).idx,
            forall|k: int|
                final(self).idx <= k < final(self).buf@.len() ==> #[trigger] final(self).buf@[k]
                    == old(self).buf@[k],
            final(old(self).buf)@ == final(final(self).buf)@,
    {
        let ghost target = self.bits() + word_bits(bits, n as nat);
        let ghost b0 = self.buf@;
        let ghost i0 = self.idx;
        proof {
            lemma_word_bits_push_n(self.acc, self.acc_len as nat, bits, n as u64);
            assert((1u64 << (n as u64)) >= 1) by (bit_vector)
                requires
                    n <= 56,
            ;
        }
        self.acc = (self.acc << n) | (bits & ((1u64 << n) - 1));
        self.acc_len += n;
        assert(self.bits() =~= target);
        while self.acc_len >= 8
            invariant
                self.acc_len <= 63,
                self.bits() == target,
                self.idx + self.acc_len / 8 <= self.buf@.len(),
                self.buf@.len() == b0.len(),
                i0 <= self.idx,
                forall|k: int| self.idx <= k < b0.len() ==> #[trigger] self.buf@[k] == b0[k],
                final(old(self).buf)@ == final(self.buf)@,
            decreases self.acc_len,
        {
            let ghost l = self.acc_len;
            let ghost before = self.buf@;
            self.acc_len -= 8;
            let byte = ((self.acc >> self.acc_len) & 0xFF) as u8;
            proof {
                lemma_word_bits_take(self.acc, l as nat, 8);
                lemma_word_bits_skip(self.acc, l as nat, 8);
                lemma_word_bits_low_byte(self.acc >> self.acc_len);
                lemma_stream_bits_push(before.take(self.idx as int), byte);
                assert(before.update(self.idx as int, byte).take(self.idx + 1) =~= before.take(
                    self.idx as int,
                ).push(byte));
                assert(word_bits(self.acc, l as nat) =~= word_bits(self.acc, l as nat).take(8)
                    + word_bits(self.acc, l as nat).skip(8));
            }
            self.buf[self.idx] = byte;
            self.idx += 1;
            proof {
                assert(self.bits() =~= target);
            }
        }
    }

    /// Flushes the waiting bits, zero-padded on the right to a whole byte,
    /// and returns the number of bytes written.
    pub fn finish(self) -> (n: usize)
        requires
            self.wf(),
            self.acc_len > 0 ==> self.idx < old(self.buf)@.len(),
        ensures
            n == self.idx + (if self.acc_len > 0 {
                1int
            } else {
                0int
            }),
            final(self.buf)@.len() == old(self.buf)@.len(),
            stream_bits(final(self.buf)@.take(n as int)) == self.bits() + Seq::new(
                (8 * n - self.bits().len()) as nat,
                |i: int| false,
            ),
            final(self.buf)@.skip(n as int) == old(self.buf)@.skip(n as int),
    {
        let ghost bits0 = self.bits();
        let mut w = self;
        let ghost b0 = w.buf@;
        if w.acc_len > 0 {
            let byte = ((w.acc << (8 - w.acc_len)) & 0xFF) as u8;
            proof {
                lemma_word_bits_pad(w.acc, w.acc_len as u64);
                lemma_stream_bits_push(b0.take(w.idx as int), byte);
                assert(b0.update(w.idx as int, byte).take(w.idx + 1) =~= b0.take(
                    w.idx as int,
                ).push(byte));
            }
            w.buf[w.idx] = byte;
            w.idx += 1;
            w.acc_len = 0;
            proof {
                assert(w.buf@.skip(w.idx as int) =~= b0.skip(w.idx as int));
            }
        }
        assert(stream_bits(w.buf@.take(w.idx as int)) =~= bits0 + Seq::new(
            (8 * w.idx - bits0.len()) as nat,
            |i: int| false,
        ));
        w.idx
    }
}

} // verus!
