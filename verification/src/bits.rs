//! Bit strings: the MSB-first view of byte buffers and of the low bits of a
//! machine word, and the facts that let a shift-register decoder be read as
//! a walk over such a string.
use vstd::arithmetic::div_mod::*;
use vstd::arithmetic::power2::*;
use vstd::prelude::*;

verus! {

/// The low `n` bits of `x`, most significant first.
pub open spec fn word_bits(x: u64, n: nat) -> Seq<bool> {
    Seq::new(n, |i: int| (x >> ((n - 1 - i) as u64)) & 1 == 1)
}

/// Bit `i` of a byte buffer read MSB-first, byte after byte.
pub open spec fn stream_bit(buf: Seq<u8>, i: int) -> bool {
    ((buf[i / 8] as u64) >> ((7 - i % 8) as u64)) & 1 == 1
}

/// The whole buffer as a bit string, MSB-first within each byte.
pub open spec fn stream_bits(buf: Seq<u8>) -> Seq<bool> {
    Seq::new(8 * buf.len(), |i: int| stream_bit(buf, i))
}

/// The unsigned integer that a bit string spells, most significant bit first.
pub open spec fn bits_value(s: Seq<bool>) -> nat
    decreases s.len(),
{
    if s.len() == 0 {
        0
    } else {
        2 * bits_value(s.drop_last()) + (if s.last() {
            1nat
        } else {
            0nat
        })
    }
}

/// Every bit of the string is zero.
pub open spec fn all_zero(s: Seq<bool>) -> bool {
    forall|i: int| 0 <= i < s.len() ==> !s[i]
}

/// The bits of a shift-register state (`acc`, holding `acc_len` pending bits)
/// followed by the bytes of `buf` from `idx` on: what a decoder in that state
/// has still to read.
pub open spec fn pending_bits(acc: u64, acc_len: nat, buf: Seq<u8>, idx: nat) -> Seq<bool> {
    if idx <= buf.len() {
        word_bits(acc, acc_len) + stream_bits(buf).subrange(8 * (idx as int), 8 * (buf.len() as int))
    } else {
        word_bits(acc, acc_len)
    }
}

/// The low `n` bits of `x` spell `x mod 2^n`.
pub proof fn lemma_bits_value_word(x: u64, n: nat)
    requires
        n <= 64,
    ensures
        bits_value(word_bits(x, n)) == (x as nat) % pow2(n),
    decreases n,
{
    lemma_pow2_pos(n);
    if n == 0 {
        assert(pow2(0) == 1) by {
            lemma2_to64();
        }
    } else {
        let m = (n - 1) as nat;
        let y: u64 = x >> 1u64;
        assert(word_bits(x, n).drop_last() =~= word_bits(y, m)) by {
            assert forall|i: int| 0 <= i < m implies word_bits(x, n)[i] == word_bits(y, m)[i] by {
                let s: u64 = (m - 1 - i) as u64;
                assert((x >> ((s + 1) as u64)) & 1 == ((x >> 1u64) >> s) & 1) by (bit_vector)
                    requires
                        s < 63,
                ;
            }
        }
        assert(x >> 0u64 == x) by (bit_vector);
        assert(word_bits(x, n).last() == (x & 1 == 1));
        lemma_bits_value_word(y, m);
        assert(x >> 1u64 == x / 2) by (bit_vector);
        assert(x & 1 == x % 2) by (bit_vector);
        lemma_pow2_unfold(n);
        lemma_pow2_pos(m);
        lemma_mod_breakdown(x as int, 2, pow2(m) as int);
    }
}

/// A bit string of length `n` spells a number below `2^n`.
pub proof fn lemma_bits_value_bound(s: Seq<bool>)
    ensures
        bits_value(s) < pow2(s.len()),
    decreases s.len(),
{
    if s.len() == 0 {
        lemma2_to64();
    } else {
        lemma_bits_value_bound(s.drop_last());
        lemma_pow2_unfold(s.len());
    }
}

/// A word's bits are all zero exactly when the word is zero modulo `2^n`.
pub proof fn lemma_word_bits_zero(x: u64, n: nat)
    requires
        n <= 64,
    ensures
        all_zero(word_bits(x, n)) <==> (x as nat) % pow2(n) == 0,
{
    lemma_bits_value_word(x, n);
    lemma_bits_value_zero(word_bits(x, n));
}

/// A bit string spells zero exactly when all its bits are zero.
pub proof fn lemma_bits_value_zero(s: Seq<bool>)
    ensures
        all_zero(s) <==> bits_value(s) == 0,
    decreases s.len(),
{
    if s.len() > 0 {
        lemma_bits_value_zero(s.drop_last());
        if all_zero(s) {
            assert(all_zero(s.drop_last()));
        }
        if bits_value(s) == 0 {
            assert forall|i: int| 0 <= i < s.len() implies !s[i] by {
                if i < s.len() - 1 {
                    assert(s.drop_last()[i] == s[i]);
                }
            }
        }
    }
}

/// Shifting a byte into a register appends its eight bits.
pub proof fn lemma_word_bits_push(acc: u64, n: nat, b: u8)
    requires
        n + 8 <= 64,
    ensures
        word_bits((acc << 8u64) | (b as u64), n + 8) =~= word_bits(acc, n) + word_bits(b as u64, 8),
{
    let a2: u64 = (acc << 8u64) | (b as u64);
    let bb: u64 = b as u64;
    assert forall|i: int| 0 <= i < n + 8 implies word_bits(a2, n + 8)[i] == (word_bits(acc, n)
        + word_bits(bb, 8))[i] by {
        if i < n {
            let s: u64 = (n - 1 - i) as u64;
            assert((((acc << 8u64) | bb) >> ((s + 8) as u64)) & 1 == (acc >> s) & 1) by (bit_vector)
                requires
                    s < 56,
                    bb < 256,
            ;
        } else {
            let s: u64 = (7 - (i - n)) as u64;
            assert((((acc << 8u64) | bb) >> s) & 1 == (bb >> s) & 1) by (bit_vector)
                requires
                    s < 8,
                    bb < 256,
            ;
        }
    }
}

/// Dropping the first `k` bits of a word's string leaves the low `n - k` bits.
pub proof fn lemma_word_bits_skip(x: u64, n: nat, k: nat)
    requires
        k <= n,
    ensures
        word_bits(x, n).skip(k as int) =~= word_bits(x, (n - k) as nat),
{
}

/// The first `k` of the low `n` bits of `x` are the low `k` bits of `x >> (n - k)`.
pub proof fn lemma_word_bits_take(x: u64, n: nat, k: nat)
    requires
        k <= n <= 64,
    ensures
        word_bits(x, n).take(k as int) =~= word_bits(x >> ((n - k) as u64), k),
{
    assert forall|i: int| 0 <= i < k implies word_bits(x, n)[i] == word_bits(
        x >> ((n - k) as u64),
        k,
    )[i] by {
        let a: u64 = (n - k) as u64;
        let b: u64 = (k - 1 - i) as u64;
        assert((x >> ((a + b) as u64)) & 1 == ((x >> a) >> b) & 1) by (bit_vector)
            requires
                a + b < 64,
        ;
    }
}

/// Byte `k` of a buffer occupies bits `8k .. 8k + 8` of its stream.
pub proof fn lemma_stream_byte(buf: Seq<u8>, k: int)
    requires
        0 <= k < buf.len(),
    ensures
        stream_bits(buf).subrange(8 * k, 8 * k + 8) =~= word_bits(buf[k] as u64, 8),
{
    assert forall|j: int| 0 <= j < 8 implies #[trigger] stream_bits(buf).subrange(8 * k, 8 * k + 8)[j]
        == word_bits(buf[k] as u64, 8)[j] by {
        assert((8 * k + j) / 8 == k);
        assert((8 * k + j) % 8 == j);
    }
}

/// Reading byte `idx` into the register does not change what is pending.
pub proof fn lemma_pending_push(acc: u64, n: nat, buf: Seq<u8>, idx: nat)
    requires
        n + 8 <= 64,
        idx < buf.len(),
    ensures
        pending_bits((acc << 8u64) | (buf[idx as int] as u64), n + 8, buf, idx + 1)
            =~= pending_bits(acc, n, buf, idx),
{
    let s = stream_bits(buf);
    lemma_word_bits_push(acc, n, buf[idx as int]);
    lemma_stream_byte(buf, idx as int);
    let i = idx as int;
    let l = buf.len() as int;
    assert(s.subrange(8 * i, 8 * l) =~= s.subrange(8 * i, 8 * i + 8) + s.subrange(8 * (i + 1), 8 * l));
}

/// Consuming `k` bits from the register consumes them from what is pending.
pub proof fn lemma_pending_consume(acc: u64, n: nat, buf: Seq<u8>, idx: nat, k: nat)
    requires
        k <= n,
    ensures
        pending_bits(acc, (n - k) as nat, buf, idx) =~= pending_bits(acc, n, buf, idx).skip(
            k as int,
        ),
{
    lemma_word_bits_skip(acc, n, k);
}

/// A byte is zero exactly when its eight bits are.
pub proof fn lemma_byte_zero(b: u8)
    ensures
        all_zero(word_bits(b as u64, 8)) <==> b == 0,
{
    lemma_word_bits_zero(b as u64, 8);
    assert(pow2(8) == 256) by {
        lemma2_to64();
    }
}

/// Shifting the low `n` bits of `v` into a register appends those bits.
pub proof fn lemma_word_bits_push_n(acc: u64, m: nat, v: u64, n: u64)
    requires
        m + n <= 64,
        n <= 56,
    ensures
        word_bits((acc << n) | (v & (((1u64 << n) - 1) as u64)), (m + n) as nat) =~= word_bits(acc, m)
            + word_bits(v, n as nat),
{
    let a2: u64 = (acc << n) | (v & (((1u64 << n) - 1) as u64));
    assert forall|i: int| 0 <= i < m + n implies word_bits(a2, (m + n) as nat)[i] == (word_bits(acc, m)
        + word_bits(v, n as nat))[i] by {
        if i < m {
            let s: u64 = (m - 1 - i) as u64;
            assert((((acc << n) | (v & (((1u64 << n) - 1) as u64))) >> ((s + n) as u64)) & 1 == (acc
                >> s) & 1) by (bit_vector)
                requires
                    n <= 56,
                    s + n < 64,
            ;
        } else {
            let s: u64 = (n - 1 - (i - m)) as u64;
            assert((((acc << n) | (v & (((1u64 << n) - 1) as u64))) >> s) & 1 == (v >> s) & 1)
                by (bit_vector)
                requires
                    n <= 56,
                    s < n,
            ;
        }
    }
}

/// Appending a byte to a buffer appends its eight bits to the stream.
pub proof fn lemma_stream_bits_push(buf: Seq<u8>, b: u8)
    ensures
        stream_bits(buf.push(b)) =~= stream_bits(buf) + word_bits(b as u64, 8),
{
    let n = buf.len() as int;
    assert forall|i: int| 0 <= i < 8 * n + 8 implies #[trigger] stream_bits(buf.push(b))[i] == (
    stream_bits(buf) + word_bits(b as u64, 8))[i] by {
        if i < 8 * n {
            assert(i / 8 < n);
        } else {
            assert(i / 8 == n);
            assert(i % 8 == i - 8 * n);
        }
    }
}

/// The byte that holds the top `n` bits of a word followed by zero bits.
pub proof fn lemma_word_bits_pad(acc: u64, n: u64)
    requires
        0 < n < 8,
    ensures
        word_bits(((acc << ((8 - n) as u64)) & 0xFF) as u8 as u64, 8) =~= word_bits(acc, n as nat)
            + Seq::new((8 - n) as nat, |i: int| false),
{
    let b: u64 = ((acc << ((8 - n) as u64)) & 0xFF) as u8 as u64;
    assert(b == (acc << ((8 - n) as u64)) & 0xFF) by (bit_vector)
        requires
            b == ((acc << ((8 - n) as u64)) & 0xFF) as u8 as u64,
    ;
    assert forall|i: int| 0 <= i < 8 implies word_bits(b, 8)[i] == (word_bits(acc, n as nat)
        + Seq::new((8 - n) as nat, |i: int| false))[i] by {
        let s: u64 = (7 - i) as u64;
        if i < n {
            assert((((acc << ((8 - n) as u64)) & 0xFF) >> s) & 1 == (acc >> ((s - (8 - n)) as u64))
                & 1) by (bit_vector)
                requires
                    s < 8,
                    8 - n <= s,
                    0 < n < 8,
            ;
        } else {
            assert((((acc << ((8 - n) as u64)) & 0xFF) >> s) & 1 == 0) by (bit_vector)
                requires
                    s < 8 - n,
                    0 < n < 8,
            ;
        }
    }
}

/// The low eight bits of a word, as a byte.
pub proof fn lemma_word_bits_low_byte(x: u64)
    ensures
        word_bits((x & 0xFF) as u8 as u64, 8) =~= word_bits(x, 8),
{
    let b: u64 = (x & 0xFF) as u8 as u64;
    assert(b == x & 0xFF) by (bit_vector)
        requires
            b == (x & 0xFF) as u8 as u64,
    ;
    assert forall|i: int| 0 <= i < 8 implies word_bits(b, 8)[i] == word_bits(x, 8)[i] by {
        let s: u64 = (7 - i) as u64;
        assert(((x & 0xFF) >> s) & 1 == (x >> s) & 1) by (bit_vector)
            requires
                s < 8,
        ;
    }
}

/// The bits of two buffers one after the other are the bits of each in turn.
pub proof fn lemma_stream_bits_append(a: Seq<u8>, b: Seq<u8>)
    ensures
        stream_bits(a + b) =~= stream_bits(a) + stream_bits(b),
{
    let n = a.len() as int;
    assert forall|i: int| 0 <= i < 8 * (n + b.len()) implies #[trigger] stream_bits(a + b)[i] == (
    stream_bits(a) + stream_bits(b))[i] by {
        if i < 8 * n {
            assert(i / 8 < n);
        } else {
            assert((i - 8 * n) / 8 == i / 8 - n);
            assert((i - 8 * n) % 8 == i % 8);
        }
    }
}

/// A buffer of zero bytes has only zero bits.
pub proof fn lemma_stream_bits_zero(buf: Seq<u8>)
    requires
        forall|k: int| 0 <= k < buf.len() ==> #[trigger] buf[k] == 0,
    ensures
        all_zero(stream_bits(buf)),
{
    assert forall|i: int| 0 <= i < 8 * buf.len() implies !#[trigger] stream_bits(buf)[i] by {
        let b = buf[i / 8] as u64;
        let s: u64 = (7 - i % 8) as u64;
        assert((b >> s) & 1 == 0) by (bit_vector)
            requires
                b == 0,
        ;
    }
}

} // verus!
