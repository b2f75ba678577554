//! Wire codecs: the 14-bit packed public key, the Golomb-Rice compressed
//! signature vector, and hashing a message to a point.
use crate::bits::{
    all_zero, bits_value, lemma_bits_value_bound, lemma_bits_value_word, lemma_byte_zero,
    lemma_word_bits_zero, lemma_pending_consume, lemma_pending_push,
    lemma_stream_byte, lemma_word_bits_push, lemma_word_bits_skip, lemma_word_bits_take,
    pending_bits, stream_bits, word_bits,
};
use crate::keccak::{
    lane_byte, lemma_output_block_len, output_block, shake256_byte, Shake256, RATE,
};
use crate::{N, Q};
use vstd::arithmetic::div_mod::*;
use vstd::arithmetic::power2::*;
use vstd::bits::*;
use vstd::prelude::*;

verus! {

/// Number of bytes that hold the 512 packed 14-bit public-key coefficients.
pub const PUBKEY_BODY_LEN: usize = 896;

/// Coefficient `j` of a packed public key: bits `14j .. 14j + 14` of the
/// buffer's MSB-first stream.
pub open spec fn pubkey_coeff(buf: Seq<u8>, j: int) -> nat {
    bits_value(stream_bits(buf).subrange(14 * j, 14 * j + 14))
}

/// The first `k` packed coefficients are all below `Q`.
pub open spec fn pubkey_prefix_valid(buf: Seq<u8>, k: int) -> bool {
    forall|j: int| 0 <= j < k ==> #[trigger] pubkey_coeff(buf, j) < Q
}

/// A packed public key is accepted: it is long enough and every one of its
/// 512 coefficients is canonical (below `Q`).
pub open spec fn pubkey_accepts(buf: Seq<u8>) -> bool {
    buf.len() >= PUBKEY_BODY_LEN && pubkey_prefix_valid(buf, N as int)
}

/// Decodes the 512 coefficients of a 14-bit packed public key into `h`.
///
/// Returns `false` when `buf` is shorter than 896 bytes or when a
/// coefficient is not below `Q`; bytes past the first 896 are not read.
/// Coefficients are stored as they are decoded, so on a rejection `h`
/// holds the coefficients before the first bad one and is unchanged from
/// there on.
pub fn decode_pubkey_u32(buf: &[u8], h: &mut [u32; N]) -> (ok: bool)
    ensures
        ok == pubkey_accepts(buf@),
        forall|j: int|
            0 <= j < N ==> #[trigger] final(h)@[j] == (if buf@.len() >= PUBKEY_BODY_LEN
                && pubkey_prefix_valid(buf@, j + 1) {
                pubkey_coeff(buf@, j) as u32
            } else {
                old(h)@[j]
            }),
{
    if buf.len() < (N * 14) / 8 {
        return false;
    }
    let ghost s = stream_bits(buf@);
    let ghost h0 = h@;
    let mut acc: u64 = 0;
    let mut acc_len: u64 = 0;
    let mut idx_in: usize = 0;
    let mut idx_out: usize = 0;
    assert(word_bits(acc, 0) =~= s.subrange(0, 0));
    while idx_out < N
        invariant
            buf@.len() >= PUBKEY_BODY_LEN,
            s == stream_bits(buf@),
            h0 == old(h)@,
            idx_out <= N,
            acc_len < 14,
            8 * idx_in == 14 * idx_out + acc_len,
            idx_in <= PUBKEY_BODY_LEN,
            word_bits(acc, acc_len as nat) =~= s.subrange(14 * idx_out, 8 * idx_in),
            pubkey_prefix_valid(buf@, idx_out as int),
            forall|j: int| 0 <= j < idx_out ==> #[trigger] h@[j] == pubkey_coeff(buf@, j) as u32,
            forall|j: int| idx_out <= j < N ==> #[trigger] h@[j] == h0[j],
        decreases PUBKEY_BODY_LEN - idx_in,
    {
        let byte = buf[idx_in];
        proof {
            lemma_word_bits_push(acc, acc_len as nat, byte);
            lemma_stream_byte(buf@, idx_in as int);
            assert(s.subrange(14 * idx_out, 8 * idx_in + 8) =~= s.subrange(14 * idx_out, 8 * idx_in)
                + s.subrange(8 * idx_in, 8 * idx_in + 8));
        }
        acc = (acc << 8u64) | byte as u64;
        idx_in += 1;
        acc_len += 8;
        if acc_len >= 14 {
            acc_len -= 14;
            let w = ((acc >> acc_len) & 0x3FFF) as u32;
            proof {
                let p = 14 * idx_out;
                let full = word_bits(acc, (acc_len + 14) as nat);
                lemma_word_bits_take(acc, (acc_len + 14) as nat, 14);
                lemma_word_bits_skip(acc, (acc_len + 14) as nat, 14);
                assert(full.take(14) =~= s.subrange(p, p + 14));
                assert(full.skip(14) =~= s.subrange(p + 14, 8 * idx_in));
                lemma_bits_value_word(acc >> acc_len, 14);
                assert(pow2(14) == 16384) by {
                    lemma2_to64();
                }
                let x = acc >> acc_len;
                assert(x & 0x3FFF == x % 16384) by (bit_vector);
                assert(w == pubkey_coeff(buf@, idx_out as int));
            }
            if w >= Q {
                return false;
            }
            h[idx_out] = w;
            idx_out += 1;
        }
    }
    assert(acc_len == 0);
    assert(acc & (((1u64 << 0u64) - 1) as u64) == 0) by (bit_vector);
    assert(1u64 << 0u64 == 1) by (bit_vector);
    if (acc & ((1u64 << acc_len) - 1)) != 0 {
        return false;
    }
    true
}

/// Adds `k` to the number of bits that a successful decode consumed.
pub open spec fn shift_consumed(o: Option<(int, int)>, k: int) -> Option<(int, int)> {
    match o {
        Some((v, c)) => Some((v, c + k)),
        None => None,
    }
}

/// The unary part of a Golomb-Rice coefficient: starting from the partial
/// magnitude `m`, each `0` bit adds 128 and a `1` bit ends the code. Fails
/// when the bits run out or the magnitude would reach 2048. On success gives
/// the magnitude and the number of bits read.
pub open spec fn rice_tail(t: Seq<bool>, m: int) -> Option<(int, int)>
    decreases t.len(),
{
    if t.len() == 0 {
        None
    } else if t[0] {
        Some((m, 1))
    } else if m + 128 >= 2048 {
        None
    } else {
        shift_consumed(rice_tail(t.skip(1), m + 128), 1)
    }
}

/// One Golomb-Rice coefficient at the front of `t`: a sign bit, the seven
/// low magnitude bits, then the unary high part. A negative zero is
/// refused. On success gives the value and the number of bits read.
pub open spec fn decode_coeff(t: Seq<bool>) -> Option<(int, int)> {
    if t.len() < 8 {
        None
    } else {
        match rice_tail(t.skip(8), bits_value(t.subrange(1, 8)) as int) {
            None => None,
            Some((m, c)) => if t[0] && m == 0 {
                None
            } else {
                Some((if t[0] {
                    -m
                } else {
                    m
                }, 8 + c))
            },
        }
    }
}

/// How many bits the unary part reads, whether it succeeds or fails: up to
/// and including the closing `1`, or the `0` that would take the magnitude
/// to 2048, or all of `t` when the bits run out first.
pub open spec fn rice_tail_read(t: Seq<bool>, m: int) -> int
    decreases t.len(),
{
    if t.len() == 0 {
        0
    } else if t[0] || m + 128 >= 2048 {
        1
    } else {
        1 + rice_tail_read(t.skip(1), m + 128)
    }
}

/// How many bits decoding one coefficient from the front of `t` reads,
/// whether it succeeds or fails: nothing when fewer than eight bits are
/// left, else the eight header bits and what the unary part reads.
pub open spec fn coeff_bits_read(t: Seq<bool>) -> int {
    if t.len() < 8 {
        0
    } else {
        8 + rice_tail_read(t.skip(8), bits_value(t.subrange(1, 8)) as int)
    }
}

/// The value of a successful decode, as the `i16` that the decoder returns.
pub open spec fn decoded_value(o: Option<(int, int)>) -> Option<i16> {
    match o {
        Some((v, _c)) => Some(v as i16),
        None => None,
    }
}

/// The number of bits that a successful decode consumed.
pub open spec fn decoded_len(o: Option<(int, int)>) -> int {
    match o {
        Some((_v, c)) => c,
        None => 0,
    }
}

/// Decodes one Golomb-Rice coefficient from the bit stream whose state is
/// the register `acc` (holding `acc_len` pending bits) followed by the bytes
/// of `buf` from `idx_in` on, and advances that state past it.
///
/// Returns `None` when the stream runs out, the magnitude reaches 2048, or
/// the code is a negative zero.
pub fn decompress_one_coeff(buf: &[u8], acc: &mut u64, acc_len: &mut u64, idx_in: &mut usize) -> (r:
    Option<i16>)
    requires
        *old(acc_len) <= 7,
    ensures
        r == decoded_value(
            decode_coeff(
                pending_bits(*old(acc), *old(acc_len) as nat, buf@, *old(idx_in) as nat),
            ),
        ),
        r matches Some(v) ==> -2047 <= v <= 2047,
        r is Some ==> {
            &&& *final(acc_len) <= 7
            &&& *final(idx_in) <= buf@.len()
            &&& pending_bits(*final(acc), *final(acc_len) as nat, buf@, *final(idx_in) as nat)
                =~= pending_bits(*old(acc), *old(acc_len) as nat, buf@, *old(idx_in) as nat).skip(
                decoded_len(
                    decode_coeff(
                        pending_bits(*old(acc), *old(acc_len) as nat, buf@, *old(idx_in) as nat),
                    ),
                ),
            )
        },
        r is None ==> {
            &&& *final(acc_len) <= 7
            &&& *final(idx_in) <= buf@.len() || *final(idx_in) == *old(idx_in)
            &&& pending_bits(*final(acc), *final(acc_len) as nat, buf@, *final(idx_in) as nat)
                =~= pending_bits(*old(acc), *old(acc_len) as nat, buf@, *old(idx_in) as nat).skip(
                coeff_bits_read(
                    pending_bits(*old(acc), *old(acc_len) as nat, buf@, *old(idx_in) as nat),
                ),
            )
        },
{
    let ghost t = pending_bits(*acc, *acc_len as nat, buf@, *idx_in as nat);
    proof {
        lemma_decode_coeff_bounds(t);
    }
    if *idx_in >= buf.len() {
        assert(t.len() < 8);
        assert(t.skip(0) =~= t);
        return None;
    }
    proof {
        lemma_pending_push(*acc, *acc_len as nat, buf@, *idx_in as nat);
    }
    *acc = (*acc << 8u64) | buf[*idx_in] as u64;
    *idx_in += 1;
    let b = *acc >> *acc_len;
    let s = b & 128;
    let mut m: u64 = b & 127;
    let ghost low: int = bits_value(t.subrange(1, 8)) as int;
    proof {
        let n = *acc_len as nat;
        let w = word_bits(*acc, n + 8);
        lemma_word_bits_take(*acc, n + 8, 8);
        assert(t.take(8) =~= w.take(8));
        let wb = word_bits(b, 8);
        assert(t.take(8) =~= wb);
        assert(t[0] == wb[0]);
        assert(wb[0] == ((b >> 7u64) & 1 == 1));
        assert((b >> 7u64) & 1 == 1 <==> b & 128 != 0) by (bit_vector);
        assert(t.subrange(1, 8) =~= wb.skip(1));
        lemma_word_bits_skip(b, 8, 1);
        lemma_bits_value_word(b, 7);
        assert(pow2(7) == 128) by {
            lemma2_to64();
        }
        assert(b & 127 == b % 128) by (bit_vector);
        lemma_pending_consume(*acc, n + 8, buf@, *idx_in as nat, 8);
    }
    let ghost mut c: int = 8;
    loop
        invariant_except_break
            t == pending_bits(*old(acc), *old(acc_len) as nat, buf@, *old(idx_in) as nat),
            t.len() >= 8,
            low == bits_value(t.subrange(1, 8)) as int,
            t[0] == (s != 0),
            *acc_len <= 7,
            *idx_in <= buf@.len(),
            8 <= c <= t.len(),
            m < 2048,
            pending_bits(*acc, *acc_len as nat, buf@, *idx_in as nat) =~= t.skip(c),
            rice_tail(t.skip(8), low) == shift_consumed(rice_tail(t.skip(c), m as int), c - 8),
            rice_tail_read(t.skip(8), low) == (c - 8) + rice_tail_read(t.skip(c), m as int),
        ensures
            t == pending_bits(*old(acc), *old(acc_len) as nat, buf@, *old(idx_in) as nat),
            t.len() >= 8,
            low == bits_value(t.subrange(1, 8)) as int,
            t[0] == (s != 0),
            *acc_len <= 7,
            *idx_in <= buf@.len(),
            8 <= c <= t.len(),
            pending_bits(*acc, *acc_len as nat, buf@, *idx_in as nat) =~= t.skip(c),
            rice_tail(t.skip(8), low) == Some((m as int, c - 8)),
            rice_tail_read(t.skip(8), low) == c - 8,
            m < 2048,
        decreases 2048 - m,
    {
        if *acc_len == 0 {
            if *idx_in >= buf.len() {
                assert(t.skip(c).len() == 0);
                assert(rice_tail(t.skip(c), m as int) is None);
                assert(rice_tail(t.skip(8), low) is None);
                assert(rice_tail_read(t.skip(c), m as int) == 0);
                assert(t.len() >= 8);
                assert(decode_coeff(t) is None);
                assert(t.skip(c) =~= pending_bits(*acc, *acc_len as nat, buf@, *idx_in as nat));
                return None;
            }
            proof {
                lemma_pending_push(*acc, 0, buf@, *idx_in as nat);
            }
            *acc = (*acc << 8u64) | buf[*idx_in] as u64;
            *idx_in += 1;
            *acc_len = 8;
        }
        *acc_len -= 1;
        proof {
            let n = (*acc_len + 1) as nat;
            assert(t.skip(c).len() >= 1);
            assert(t.skip(c)[0] == word_bits(*acc, n)[0]);
            lemma_pending_consume(*acc, n, buf@, *idx_in as nat, 1);
            assert(t.skip(c).skip(1) =~= t.skip(c + 1));
            let a = *acc;
            let l = *acc_len;
            assert(((a >> l) & 1 == 1) <==> ((a >> l) & 1 != 0)) by (bit_vector);
        }
        if ((*acc >> *acc_len) & 1) != 0 {
            proof {
                assert(t.skip(c)[0]);
                assert(rice_tail(t.skip(c), m as int) == Some((m as int, 1int)));
                assert(rice_tail_read(t.skip(c), m as int) == 1);
                c = c + 1;
            }
            break ;
        }
        proof {
            assert(!t.skip(c)[0]);
        }
        m += 128;
        if m >= 2048 {
            assert(rice_tail(t.skip(c), (m - 128) as int) is None);
            assert(rice_tail_read(t.skip(c), (m - 128) as int) == 1);
            assert(t.skip(c + 1) =~= pending_bits(*acc, *acc_len as nat, buf@, *idx_in as nat));
            return None;
        }
        proof {
            assert(rice_tail(t.skip(c), (m - 128) as int) == shift_consumed(
                rice_tail(t.skip(c + 1), m as int),
                1,
            ));
            assert(rice_tail_read(t.skip(c), (m - 128) as int) == 1 + rice_tail_read(
                t.skip(c).skip(1),
                m as int,
            ));
            c = c + 1;
        }
    }
    if s != 0 && m == 0 {
        assert(t.skip(c) =~= pending_bits(*acc, *acc_len as nat, buf@, *idx_in as nat));
        return None;
    }
    let m_i16 = m as i16;
    Some(
        if s != 0 {
            -m_i16
        } else {
            m_i16
        },
    )
}

/// Decodes up to `n` coefficients one after the other from the front of `t`,
/// stopping at the first failure: the values decoded, the bits they took,
/// and whether all `n` were decoded.
pub open spec fn decode_run(t: Seq<bool>, n: nat) -> (Seq<int>, int, bool)
    decreases n,
{
    if n == 0 {
        (Seq::empty(), 0, true)
    } else {
        match decode_coeff(t) {
            None => (Seq::empty(), 0, false),
            Some((v, c)) => {
                let r = decode_run(t.skip(c), (n - 1) as nat);
                (seq![v] + r.0, c + r.1, r.2)
            },
        }
    }
}

/// The coefficients that a compressed signature vector decodes to, up to the
/// first coefficient that fails.
pub open spec fn signature_values(buf: Seq<u8>) -> Seq<int> {
    decode_run(stream_bits(buf), N as nat).0
}

/// A compressed signature vector is accepted: all 512 coefficients decode,
/// and every bit after the last one is zero (the unused bits of the last
/// byte and all padding bytes).
pub open spec fn signature_accepts(buf: Seq<u8>) -> bool {
    let r = decode_run(stream_bits(buf), N as nat);
    r.2 && all_zero(stream_bits(buf).skip(r.1))
}

/// The unary tail never reads past the bits it is given, and keeps a
/// magnitude below 2048 at or above the one it started from.
pub proof fn lemma_rice_tail_bounds(t: Seq<bool>, m: int)
    requires
        0 <= m < 2048,
    ensures
        rice_tail(t, m) matches Some((mm, c)) ==> 1 <= c <= t.len() && m <= mm < 2048 && (mm
            - m) % 128 == 0,
    decreases t.len(),
{
    if t.len() > 0 && !t[0] && m + 128 < 2048 {
        lemma_rice_tail_bounds(t.skip(1), m + 128);
    }
}

/// A decoded coefficient lies in `[-2047, 2047]` and took between 9 bits and
/// all of `t`.
pub proof fn lemma_decode_coeff_bounds(t: Seq<bool>)
    ensures
        decode_coeff(t) matches Some((v, c)) ==> 9 <= c <= t.len() && -2047 <= v <= 2047,
{
    if t.len() >= 8 {
        lemma_bits_value_bound(t.subrange(1, 8));
        lemma2_to64();
        lemma_rice_tail_bounds(t.skip(8), bits_value(t.subrange(1, 8)) as int);
    }
}

/// Decompresses the Golomb-Rice encoded signature vector in `buf` into `s2`.
///
/// Returns `true` exactly when all 512 coefficients decode and every bit
/// after the last one is zero. Coefficients are stored as they are decoded:
/// `s2` holds the coefficients decoded before the first failure and is
/// unchanged from there on.
pub fn decompress_signature(buf: &[u8], s2: &mut [i16; N]) -> (ok: bool)
    ensures
        ok == signature_accepts(buf@),
        forall|j: int|
            0 <= j < N ==> #[trigger] final(s2)@[j] == (if j < signature_values(buf@).len() {
                signature_values(buf@)[j] as i16
            } else {
                old(s2)@[j]
            }),
{
    let ghost st = stream_bits(buf@);
    let ghost s0 = s2@;
    let mut acc: u64 = 0;
    let mut acc_len: u64 = 0;
    let mut idx_in: usize = 0;
    let ghost mut pos: int = 0;
    let ghost mut vals: Seq<int> = Seq::empty();
    let mut k: usize = 0;
    assert(pending_bits(acc, 0, buf@, 0) =~= st.skip(0));
    assert(st.skip(0) =~= st);
    assert(vals + decode_run(st, N as nat).0 =~= decode_run(st, N as nat).0);
    while k < N
        invariant
            st == stream_bits(buf@),
            s0 == old(s2)@,
            k <= N,
            acc_len <= 7,
            idx_in <= buf@.len(),
            0 <= pos <= st.len(),
            pending_bits(acc, acc_len as nat, buf@, idx_in as nat) =~= st.skip(pos),
            vals.len() == k,
            decode_run(st, N as nat) == ({
                let r = decode_run(st.skip(pos), (N - k) as nat);
                (vals + r.0, pos + r.1, r.2)
            }),
            forall|j: int| 0 <= j < k ==> #[trigger] s2@[j] == vals[j] as i16,
            forall|j: int| k <= j < N ==> #[trigger] s2@[j] == s0[j],
        decreases N - k,
    {
        let ghost t = st.skip(pos);
        proof {
            lemma_decode_coeff_bounds(t);
        }
        match decompress_one_coeff(buf, &mut acc, &mut acc_len, &mut idx_in) {
            Some(v) => {
                proof {
                    let (vi, c) = decode_coeff(t).unwrap();
                    assert(t.skip(c) =~= st.skip(pos + c));
                    let r = decode_run(st.skip(pos + c), (N - k - 1) as nat);
                    assert(decode_run(t, (N - k) as nat) == (seq![vi] + r.0, c + r.1, r.2));
                    assert(vals + (seq![vi] + r.0) =~= vals.push(vi) + r.0);
                    vals = vals.push(vi);
                    pos = pos + c;
                }
                s2[k] = v;
            },
            None => {
                proof {
                    assert(decode_run(t, (N - k) as nat).2 == false);
                    assert(decode_run(t, (N - k) as nat).0 =~= Seq::<int>::empty());
                    assert(vals + Seq::<int>::empty() =~= vals);
                }
                return false;
            },
        }
        k += 1;
    }
    proof {
        assert(decode_run(st.skip(pos), 0) == (Seq::<int>::empty(), 0int, true));
        assert(vals + Seq::<int>::empty() =~= vals);
        lemma_word_bits_zero(acc, acc_len as nat);
        lemma_u64_low_bits_mask_is_mod(acc, acc_len as nat);
        lemma_u64_pow2_no_overflow(acc_len as nat);
        lemma_u64_shl_is_mul(1, acc_len);
        lemma_pow2_pos(acc_len as nat);
    }
    if (acc & ((1u64 << acc_len) - 1)) != 0 {
        proof {
            let w = word_bits(acc, acc_len as nat);
            let i = choose|i: int| 0 <= i < w.len() && w[i];
            assert(st.skip(pos)[i] == w[i]);
        }
        return false;
    }
    let ghost rest = st.subrange(8 * (idx_in as int), 8 * (buf@.len() as int));
    assert(decode_run(st, N as nat) == (vals, pos, true));
    let mut i = idx_in;
    while i < buf.len()
        invariant
            st == stream_bits(buf@),
            idx_in <= i <= buf@.len(),
            rest == st.subrange(8 * (idx_in as int), 8 * (buf@.len() as int)),
            all_zero(st.subrange(8 * (idx_in as int), 8 * (i as int))),
            0 <= pos <= st.len(),
            st.skip(pos) =~= word_bits(acc, acc_len as nat) + rest,
            decode_run(st, N as nat) == (vals, pos, true),
            vals.len() == N,
            forall|j: int| 0 <= j < N ==> #[trigger] s2@[j] == vals[j] as i16,
        decreases buf@.len() - i,
    {
        proof {
            lemma_stream_byte(buf@, i as int);
            lemma_byte_zero(buf@[i as int]);
        }
        if buf[i] != 0 {
            proof {
                let w = word_bits(buf@[i as int] as u64, 8);
                let j = choose|j: int| 0 <= j < 8 && w[j];
                assert(rest[8 * (i - idx_in) + j] == w[j]);
                assert(st.skip(pos)[acc_len + 8 * (i - idx_in) + j]);
            }
            return false;
        }
        proof {
            assert forall|j: int|
                0 <= j < 8 * (i as int + 1) - 8 * (idx_in as int) implies !#[trigger] st.subrange(
                8 * (idx_in as int),
                8 * (i as int + 1),
            )[j] by {
                if j >= 8 * (i - idx_in) {
                    assert(st.subrange(8 * (idx_in as int), 8 * (i as int + 1))[j] == st.subrange(
                        8 * (i as int),
                        8 * (i as int) + 8,
                    )[j - 8 * (i - idx_in)]);
                } else {
                    assert(st.subrange(8 * (idx_in as int), 8 * (i as int + 1))[j] == st.subrange(
                        8 * (idx_in as int),
                        8 * (i as int),
                    )[j]);
                }
            }
        }
        i += 1;
    }
    proof {
        let w = word_bits(acc, acc_len as nat);
        assert forall|j: int| 0 <= j < st.skip(pos).len() implies !st.skip(pos)[j] by {
            if j < w.len() {
                assert(st.skip(pos)[j] == w[j]);
            } else {
                assert(st.skip(pos)[j] == rest[j - w.len()]);
            }
        }
    }
    true
}


/// Candidate `k` of hash-to-point: output bytes `2k` and `2k + 1` of
/// SHAKE256(`msg`), read as a big-endian 16-bit number.
pub open spec fn candidate(msg: Seq<u8>, k: nat) -> int {
    (shake256_byte(msg, 2 * k) as int) * 256 + (shake256_byte(msg, 2 * k + 1) as int)
}

/// The candidates below `5Q` among the first `count` candidates, in order.
#[verifier::opaque]
pub open spec fn sampled(msg: Seq<u8>, count: nat) -> Seq<u16>
    decreases count,
{
    if count == 0 {
        Seq::empty()
    } else {
        let s = sampled(msg, (count - 1) as nat);
        let w = candidate(msg, (count - 1) as nat);
        if w < 5 * Q {
            s.push(w as u16)
        } else {
            s
        }
    }
}

/// Output bytes `2k` and `2k + 1` of SHAKE256(`msg`) read as a big-endian
/// `u16`: the first byte is the high byte.
pub open spec fn output_word_be(msg: Seq<u8>, k: nat) -> u16 {
    ((shake256_byte(msg, 2 * k) as u16) << 8u16) | (shake256_byte(msg, 2 * k + 1) as u16)
}

/// Candidate `k` is the big-endian 16-bit word at output bytes `2k` and
/// `2k + 1`.
pub proof fn lemma_candidate_big_endian(msg: Seq<u8>, k: nat)
    ensures
        candidate(msg, k) == (((shake256_byte(msg, 2 * k) as u16) << 8u16) | (shake256_byte(
            msg,
            2 * k + 1,
        ) as u16)) as int,
        candidate(msg, k) == output_word_be(msg, k) as int,
{
    lemma_be_word(shake256_byte(msg, 2 * k), shake256_byte(msg, 2 * k + 1));
}

/// A high and a low byte make the word `256 * hi + lo`.
proof fn lemma_be_word(hi: u8, lo: u8)
    ensures
        (((hi as u16) << 8u16) | (lo as u16)) as int == (hi as int) * 256 + (lo as int),
{
    assert((((hi as u16) << 8u16) | (lo as u16)) as int == (hi as int) * 256 + (lo as int))
        by (bit_vector);
}

/// Sampling, byte by byte: no candidates sample nothing, and each further
/// big-endian output word is kept, unreduced, exactly when it is below `5Q`.
pub proof fn lemma_sampled_big_endian(msg: Seq<u8>, k: nat)
    ensures
        output_word_be(msg, k) as int == 256 * (shake256_byte(msg, 2 * k) as int) + (shake256_byte(
            msg,
            2 * k + 1,
        ) as int),
        sampled(msg, 0) == Seq::<u16>::empty(),
        sampled(msg, k + 1) == (if (output_word_be(msg, k) as int) < 5 * Q {
            sampled(msg, k).push(output_word_be(msg, k))
        } else {
            sampled(msg, k)
        }),
{
    reveal(sampled);
    lemma_candidate_big_endian(msg, k);
}

/// The SHAKE256 output of `msg` holds at least 512 candidates below `5Q`,
/// so sampling them ends.
pub open spec fn hash_to_point_ends(msg: Seq<u8>) -> bool {
    exists|k: nat| #[trigger] sampled(msg, k).len() >= N
}

/// Looking at more candidates never samples fewer.
pub proof fn lemma_sampled_monotone(msg: Seq<u8>, a: nat, b: nat)
    requires
        a <= b,
    ensures
        sampled(msg, a).len() <= sampled(msg, b).len(),
        sampled(msg, a) =~= sampled(msg, b).take(sampled(msg, a).len() as int),
    decreases b,
{
    reveal(sampled);
    if a < b {
        lemma_sampled_monotone(msg, a, (b - 1) as nat);
    }
}

/// Byte `2i` and `2i + 1` of a block, as a big-endian 16-bit number.
pub open spec fn block_candidate(lanes: Seq<u64>, i: int) -> int {
    (lane_byte(lanes, 2 * i) as int) * 256 + (lane_byte(lanes, 2 * i + 1) as int)
}

/// Candidate `68b + i` lies in output block `b`, where it is the `i`-th.
pub proof fn lemma_candidate_in_block(msg: Seq<u8>, b: nat, i: nat)
    requires
        i < 68,
    ensures
        candidate(msg, 68 * b + i) == block_candidate(output_block(msg, b), i as int),
{
    let k = 68 * b + i;
    lemma_fundamental_div_mod_converse((2 * k) as int, RATE as int, b as int, (2 * i) as int);
    lemma_fundamental_div_mod_converse(
        (2 * k + 1) as int,
        RATE as int,
        b as int,
        (2 * i + 1) as int,
    );
}

/// Candidate `j` (0..4) of one lane: its bytes `2j` and `2j + 1` (lanes are
/// little-endian) as a big-endian 16-bit number.
pub open spec fn lane_candidate_value(lane: u64, j: int) -> int {
    ((lane >> ((16 * j) as u64)) as u8 as int) * 256 + ((lane >> ((16 * j + 8) as u64)) as u8 as int)
}

/// Candidate `68b + 4L + j` is candidate `j` of lane `L` of output block `b`.
pub proof fn lemma_candidate_in_lane(msg: Seq<u8>, b: nat, l: int, j: int)
    requires
        0 <= l < 17,
        0 <= j < 4,
    ensures
        candidate(msg, (68 * b + 4 * l + j) as nat) == lane_candidate_value(
            output_block(msg, b)[l],
            j,
        ),
{
    let i = 4 * l + j;
    lemma_candidate_in_block(msg, b, i as nat);
    assert((2 * i) / 8 == l && (2 * i) % 8 == 2 * j);
    assert((2 * i + 1) / 8 == l && (2 * i + 1) % 8 == 2 * j + 1);
}

/// Candidate `j` of a lane, computed.
fn lane_candidate(lane: u64, j: u64) -> (w: u32)
    requires
        j < 4,
    ensures
        w == lane_candidate_value(lane, j as int),
{
    let hi = (lane >> (16 * j)) as u8;
    let lo = (lane >> (16 * j + 8)) as u8;
    assert(((hi as u32) << 8u32) | (lo as u32) == (hi as u32) * 256 + (lo as u32)) by (bit_vector);
    ((hi as u32) << 8u32) | (lo as u32)
}

/// Sampling one more candidate extends the sampled prefix held in `c`.
pub proof fn lemma_sample_step(msg: Seq<u8>, e: nat, c0: Seq<u16>, c1: Seq<u16>, count: int, w: int)
    requires
        w == candidate(msg, e),
        0 <= count < c0.len(),
        c0.len() == c1.len(),
        sampled(msg, e).len() == count,
        c0.take(count) == sampled(msg, e),
        w < 5 * Q ==> c1 == c0.update(count, w as u16),
        w >= 5 * Q ==> c1 == c0,
    ensures
        w < 5 * Q ==> sampled(msg, e + 1).len() == count + 1 && c1.take(count + 1) == sampled(
            msg,
            e + 1,
        ),
        w >= 5 * Q ==> sampled(msg, e + 1).len() == count && c1.take(count) == sampled(
            msg,
            e + 1,
        ),
{
    reveal(sampled);
    if w < 5 * Q {
        assert(c1.take(count + 1) =~= c0.take(count).push(w as u16));
    }
}

/// Writing slot `i` leaves the slots after it as they were.
proof fn lemma_skip_past_update(c0: Seq<u16>, c_in: Seq<u16>, i: int, v: u16)
    requires
        0 <= i < c0.len(),
        c0.len() == c_in.len(),
        c0.skip(i) == c_in.skip(i),
    ensures
        c0.update(i, v).skip(i + 1) == c_in.skip(i + 1),
{
    assert forall|k: int| 0 <= k < c0.len() - i - 1 implies #[trigger] c0.update(i, v).skip(
        i + 1,
    )[k] == c_in.skip(i + 1)[k] by {
        assert(c0.skip(i)[k + 1] == c_in.skip(i)[k + 1]);
    }
    assert(c0.update(i, v).skip(i + 1) =~= c_in.skip(i + 1));
}

/// Two sequences that agree from `i` on agree from any later `j` on.
proof fn lemma_skip_further(a: Seq<u16>, b: Seq<u16>, i: int, j: int)
    requires
        0 <= i <= j <= a.len(),
        a.len() == b.len(),
        a.skip(i) == b.skip(i),
    ensures
        a.skip(j) == b.skip(j),
{
    assert forall|k: int| 0 <= k < a.len() - j implies #[trigger] a.skip(j)[k] == b.skip(j)[k] by {
        assert(a.skip(i)[k + j - i] == b.skip(i)[k + j - i]);
    }
    assert(a.skip(j) =~= b.skip(j));
}

/// Samples the 68 candidates of output block `blk` (its 17 rate lanes) into
/// `c`, stopping when `c` is full. Returns the new count of sampled values.
#[verifier::spinoff_prover]
#[verifier::rlimit(30)]
fn sample_block(
    lanes: &[u64],
    c: &mut [u16; N],
    start: usize,
    Ghost(msg): Ghost<Seq<u8>>,
    Ghost(blk): Ghost<nat>,
) -> (r: (usize, Ghost<nat>))
    requires
        lanes@ == output_block(msg, blk).take(17),
        output_block(msg, blk).len() == 25,
        start < N,
        sampled(msg, 68 * blk).len() == start,
        old(c)@.take(start as int) == sampled(msg, 68 * blk),
    ensures
        r.0 <= N,
        r.0 < N ==> sampled(msg, 68 * blk + 68).len() == r.0 && final(c)@.take(r.0 as int)
            == sampled(msg, 68 * blk + 68),
        r.0 == N ==> sampled(msg, r.1@).len() == N && final(c)@ == sampled(msg, r.1@) && r.1@
            <= 68 * blk + 68,
        start <= r.0,
        final(c)@.skip(r.0 as int) == old(c)@.skip(r.0 as int),
{
    let ghost c_in = c@;
    let mut count = start;
    let mut i: usize = 0;
    while i < 68
        invariant
            lanes@ == output_block(msg, blk).take(17),
            output_block(msg, blk).len() == 25,
            i <= 68,
            count < N,
            sampled(msg, (68 * blk + i) as nat).len() == count,
            c@.take(count as int) == sampled(msg, (68 * blk + i) as nat),
            c_in == old(c)@,
            start <= count,
            c@.skip(count as int) == c_in.skip(count as int),
        decreases 68 - i,
    {
        let lane = lanes[i / 4];
        let w = lane_candidate(lane, (i % 4) as u64);
        let ghost e: nat = (68 * blk + i) as nat;
        let ghost c0 = c@;
        proof {
            lemma_candidate_in_lane(msg, blk, (i / 4) as int, (i % 4) as int);
            assert(e == 68 * blk + 4 * (i / 4) + i % 4);
        }
        if w < 5 * Q {
            c[count] = w as u16;
            proof {
                lemma_sample_step(msg, e, c0, c@, count as int, w as int);
                lemma_skip_past_update(c0, c_in, count as int, w as u16);
            }
            count += 1;
            if count == N {
                proof {
                    assert(c@ =~= c@.take(count as int));
                }
                return (count, Ghost(e + 1));
            }
        } else {
            proof {
                lemma_sample_step(msg, e, c0, c@, count as int, w as int);
            }
        }
        i += 1;
    }
    (count, Ghost(0))
}

/// While fewer than 512 values are sampled, fewer candidates have been
/// seen than a run known to sample 512.
pub proof fn lemma_more_candidates_needed(msg: Seq<u8>, bound: nat, seen: nat)
    requires
        sampled(msg, bound).len() >= N,
        sampled(msg, seen).len() < N,
    ensures
        seen < bound,
{
    if seen >= bound {
        lemma_sampled_monotone(msg, bound, seen);
    }
}

/// Output block `b` starts at byte `136b`.
proof fn lemma_block_start(blk: nat)
    ensures
        ((136 * blk) as nat) / (RATE as nat) == blk,
{
    lemma_fundamental_div_mod_converse((136 * blk) as int, 136, blk as int, 0);
}

/// The first 512 candidates below `5Q` of the SHAKE256 output of `msg`.
pub open spec fn hash_point(msg: Seq<u8>) -> Seq<u16> {
    sampled(msg, choose|k: nat| #[trigger] sampled(msg, k).len() == N)
}

/// Any run of candidates that samples exactly 512 values samples the same
/// ones: those of `hash_point`.
pub proof fn lemma_hash_point(msg: Seq<u8>, k: nat)
    requires
        sampled(msg, k).len() == N,
    ensures
        hash_point(msg) == sampled(msg, k),
{
    let k2 = choose|k: nat| #[trigger] sampled(msg, k).len() == N;
    if k <= k2 {
        lemma_sampled_monotone(msg, k, k2);
    } else {
        lemma_sampled_monotone(msg, k2, k);
    }
}

/// Sampling stops growing by one value at a time, so a run that samples at
/// least 512 values passes through a point where it has exactly 512.
pub proof fn lemma_sampled_reaches(msg: Seq<u8>, k: nat)
    requires
        sampled(msg, k).len() >= N,
    ensures
        exists|j: nat| j <= k && #[trigger] sampled(msg, j).len() == N,
    decreases k,
{
    reveal(sampled);
    if sampled(msg, k).len() == N {
        assert(sampled(msg, k).len() == N);
    } else {
        assert(k > 0);
        lemma_sampled_reaches(msg, (k - 1) as nat);
    }
}

/// Every sampled value is a candidate below `5Q`.
pub proof fn lemma_sampled_below_5q(msg: Seq<u8>, k: nat)
    ensures
        forall|i: int| 0 <= i < sampled(msg, k).len() ==> (#[trigger] sampled(msg, k)[i]) < 5 * Q,
    decreases k,
{
    reveal(sampled);
    if k > 0 {
        lemma_sampled_below_5q(msg, (k - 1) as nat);
        let prev = sampled(msg, (k - 1) as nat);
        let w = candidate(msg, (k - 1) as nat);
        assert(0 <= w < 65536);
        assert forall|i: int| 0 <= i < sampled(msg, k).len() implies (#[trigger] sampled(
            msg,
            k,
        )[i]) < 5 * Q by {
            if i < prev.len() {
                assert(sampled(msg, k)[i] == prev[i]);
            } else {
                assert(sampled(msg, k)[i] == w as u16);
            }
        }
    }
}

/// When sampling ends, hash-to-point gives 512 values, each below `5Q`.
pub proof fn lemma_hash_point_range(msg: Seq<u8>)
    requires
        hash_to_point_ends(msg),
    ensures
        hash_point(msg).len() == N,
        forall|i: int| 0 <= i < N ==> (#[trigger] hash_point(msg)[i]) < 5 * Q,
{
    let k = choose|k: nat| #[trigger] sampled(msg, k).len() >= N;
    lemma_sampled_reaches(msg, k);
    let j = choose|j: nat| j <= k && #[trigger] sampled(msg, j).len() == N;
    lemma_hash_point(msg, j);
    lemma_sampled_below_5q(msg, j);
}

/// Hashes `nonce || message` to a point: fills `c` with the first 512
/// SHAKE256 candidates below `5Q`, left unreduced.
///
/// The sampling only ends once 512 candidates are found, which the
/// precondition states.
#[verifier::rlimit(60)]
pub fn hash_to_point(nonce: &[u8], message: &[u8], c: &mut [u16; N])
    requires
        hash_to_point_ends(nonce@ + message@),
    ensures
        final(c)@ == hash_point(nonce@ + message@),
{
    let ghost msg = nonce@ + message@;
    let ghost bound: nat = choose|k: nat| #[trigger] sampled(msg, k).len() >= N;
    let mut s = Shake256::new();
    s.absorb(nonce);
    s.absorb(message);
    s.finalize();
    assert(s.absorbed() =~= msg);
    let mut count: usize = 0;
    let ghost mut blk: nat = 0;
    assert(c@.take(0) =~= sampled(msg, 0)) by {
        reveal(sampled);
    }
    loop
        invariant
            msg == nonce@ + message@,
            s.wf(),
            s.finalized(),
            s.absorbed() == msg,
            s.squeezed() == 136 * blk,
            sampled(msg, bound).len() >= N,
            count < N,
            sampled(msg, 68 * blk).len() == count,
            c@.take(count as int) == sampled(msg, 68 * blk),
        decreases bound - 68 * blk,
    {
        proof {
            lemma_more_candidates_needed(msg, bound, 68 * blk);
            lemma_block_start(blk);
            lemma_output_block_len(msg, blk);
        }
        let lanes = s.rate_lanes();
        let res = sample_block(lanes, c, count, Ghost(msg), Ghost(blk));
        count = res.0;
        if count == N {
            proof {
                lemma_hash_point(msg, res.1@);
            }
            return ;
        }
        s.permute();
        proof {
            lemma_more_candidates_needed(msg, bound, 68 * blk + 68);
            blk = blk + 1;
        }
    }
}

/// Hashes `nonce || message` to a point as `hash_to_point` does, but reads
/// at most `max_blocks` SHAKE256 output blocks (68 candidates each).
/// Returns `true`, with `c` filled as by `hash_to_point`, exactly when those
/// blocks hold 512 candidates below `5Q`; otherwise `c` starts with the
/// values they do hold and keeps the rest of its old contents.
#[verifier::rlimit(60)]
pub fn hash_to_point_bounded(nonce: &[u8], message: &[u8], c: &mut [u16; N], max_blocks: u64) -> (ok:
    bool)
    ensures
        ok == (sampled(nonce@ + message@, 68 * max_blocks as nat).len() >= N),
        ok ==> hash_to_point_ends(nonce@ + message@),
        ok ==> final(c)@ == hash_point(nonce@ + message@),
        !ok ==> final(c)@.take(sampled(nonce@ + message@, 68 * max_blocks as nat).len() as int)
            == sampled(nonce@ + message@, 68 * max_blocks as nat),
        !ok ==> final(c)@.skip(sampled(nonce@ + message@, 68 * max_blocks as nat).len() as int)
            == old(c)@.skip(sampled(nonce@ + message@, 68 * max_blocks as nat).len() as int),
{
    let ghost msg = nonce@ + message@;
    let ghost c_in = c@;
    let mut s = Shake256::new();
    s.absorb(nonce);
    s.absorb(message);
    s.finalize();
    assert(s.absorbed() =~= msg);
    let mut count: usize = 0;
    let mut blk: u64 = 0;
    assert(c@.take(0) =~= sampled(msg, 0)) by {
        reveal(sampled);
    }
    while blk < max_blocks
        invariant
            msg == nonce@ + message@,
            s.wf(),
            s.finalized(),
            s.absorbed() == msg,
            s.squeezed() == 136 * blk,
            blk <= max_blocks,
            count < N,
            sampled(msg, 68 * blk as nat).len() == count,
            c@.take(count as int) == sampled(msg, 68 * blk as nat),
            c_in == old(c)@,
            c@.skip(count as int) == c_in.skip(count as int),
        decreases max_blocks - blk,
    {
        proof {
            lemma_block_start(blk as nat);
            lemma_output_block_len(msg, blk as nat);
        }
        let lanes = s.rate_lanes();
        let ghost c_prev = c@;
        let res = sample_block(lanes, c, count, Ghost(msg), Ghost(blk as nat));
        proof {
            lemma_skip_further(c_prev, c_in, count as int, res.0 as int);
        }
        count = res.0;
        if count == N {
            proof {
                lemma_hash_point(msg, res.1@);
                lemma_sampled_monotone(msg, res.1@, 68 * max_blocks as nat);
            }
            return true;
        }
        s.permute();
        blk = blk + 1;
    }
    false
}

} // verus!
