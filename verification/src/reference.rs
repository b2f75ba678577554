//! Straightforward encoders and a per-byte hash-to-point: the inverses and
//! the plain forms of what `codec` decodes and computes.
use crate::bits::{
    stream_bit, lemma_stream_bits_append, lemma_stream_bits_push, lemma_stream_bits_zero,
    lemma_word_bits_low_byte, lemma_word_bits_push_n, lemma_word_bits_skip, lemma_word_bits_take,
    stream_bits, word_bits,
};
use crate::bitwriter::BitWriter;
use crate::codec::{
    candidate, hash_point, hash_to_point_ends, lemma_hash_point, lemma_more_candidates_needed,
    lemma_sample_step, sampled, signature_accepts, signature_values,
};
use crate::encoding::{
    coeff_code, coeffs_in_range, encode_all, encode_coeff, lemma_accepted_signature_is_canonical,
    lemma_canonical_signature_accepted, lemma_encode_all_append, lemma_encode_all_push,
    lemma_pack14_push, lemma_stream_bits_injective, pack14, zeros,
};
use crate::keccak::Shake256;
use crate::{N, Q};
use vstd::prelude::*;

verus! {

/// The accumulator of `pack_pubkey` after folding in the first `j` values:
/// shifted left 14 places and OR-ed with the next value each time (in 64
/// bits; a value of 14 bits or more overlaps the bits before it).
pub open spec fn pack_acc(h: Seq<u32>, j: nat) -> u64
    decreases j,
{
    if j == 0 {
        0
    } else {
        (pack_acc(h, (j - 1) as nat) << 14u64) | (h[j - 1] as u64)
    }
}

/// Byte `k` of `pack_pubkey`'s output: taken once `j` values are folded in,
/// `j` the fewest that give `8(k + 1)` bits, from the accumulator's bits
/// `14j - 8(k + 1) ..` upwards.
pub open spec fn pack_byte(h: Seq<u32>, k: int) -> u8 {
    let j = (8 * k + 8 + 13) / 14;
    ((pack_acc(h, j as nat) >> ((14 * j - 8 * k - 8) as u64)) & 0xFF) as u8
}

/// Packs 512 coefficients as 14-bit big-endian fields, MSB-first, into 896
/// bytes. A value of 14 bits or more is OR-ed in unmasked.
pub fn pack_pubkey(h: &[u32; N]) -> (out: [u8; 896])
    ensures
        out@ == Seq::new(896, |k: int| pack_byte(h@, k)),
        (forall|j: int| 0 <= j < N ==> #[trigger] h@[j] < 16384) ==> stream_bits(out@) == pack14(
            h@,
        ),
{
    let mut out = [0u8; 896];
    let mut acc: u64 = 0;
    let mut acc_len: u32 = 0;
    let mut idx: usize = 0;
    let mut j: usize = 0;
    let ghost mut good: bool = true;
    assert(stream_bits(out@.take(0)) + word_bits(acc, 0) =~= pack14(h@.take(0)));
    while j < N
        invariant
            j <= N,
            acc_len < 8,
            8 * idx + acc_len == 14 * j,
            out@.len() == 896,
            good == (forall|k: int| 0 <= k < j ==> #[trigger] h@[k] < 16384),
            good ==> stream_bits(out@.take(idx as int)) + word_bits(acc, acc_len as nat) == pack14(
                h@.take(j as int),
            ),
            acc == pack_acc(h@, j as nat),
            forall|k: int| 0 <= k < idx ==> #[trigger] out@[k] == pack_byte(h@, k),
        decreases N - j,
    {
        let v = h[j];
        let ghost was_good = good;
        proof {
            good = good && v < 16384;
            if good {
                let vv = v as u64;
                assert(vv & (((1u64 << 14u64) - 1) as u64) == vv) by (bit_vector)
                    requires
                        vv < 16384,
                ;
                lemma_word_bits_push_n(acc, acc_len as nat, vv, 14);
                lemma_pack14_push(h@.take(j as int), v);
                assert(h@.take(j + 1) =~= h@.take(j as int).push(v));
            }
            assert(good == (forall|k: int| 0 <= k < j + 1 ==> #[trigger] h@[k] < 16384)) by {
                if was_good && v < 16384 {
                    assert forall|k: int| 0 <= k < j + 1 implies #[trigger] h@[k] < 16384 by {
                        if k == j {
                        }
                    }
                }
            }
        }
        acc = (acc << 14u64) | (v as u64);
        acc_len += 14;
        let ghost target = pack14(h@.take(j + 1));
        assert(good ==> stream_bits(out@.take(idx as int)) + word_bits(acc, acc_len as nat)
            =~= target);
        while acc_len >= 8
            invariant
                acc_len < 22,
                j < N,
                8 * idx + acc_len == 14 * (j + 1),
                out@.len() == 896,
                good ==> stream_bits(out@.take(idx as int)) + word_bits(acc, acc_len as nat)
                    == target,
                acc == pack_acc(h@, (j + 1) as nat),
                14 * j < 8 * idx + 8,
                forall|k: int| 0 <= k < idx ==> #[trigger] out@[k] == pack_byte(h@, k),
            decreases acc_len,
        {
            let ghost l = acc_len;
            let ghost before = out@;
            acc_len -= 8;
            let byte = ((acc >> acc_len) & 0xFF) as u8;
            proof {
                lemma_word_bits_take(acc, l as nat, 8);
                lemma_word_bits_skip(acc, l as nat, 8);
                lemma_word_bits_low_byte(acc >> acc_len);
                lemma_stream_bits_push(before.take(idx as int), byte);
                assert(before.update(idx as int, byte).take(idx + 1) =~= before.take(
                    idx as int,
                ).push(byte));
                assert(word_bits(acc, l as nat) =~= word_bits(acc, l as nat).take(8) + word_bits(
                    acc,
                    l as nat,
                ).skip(8));
            }
            proof {
                let jj = (8 * idx + 8 + 13) / 14;
                vstd::arithmetic::div_mod::lemma_fundamental_div_mod_converse(
                    8 * idx + 21,
                    14,
                    j + 1,
                    8 * idx + 7 - 14 * j,
                );
                assert(jj == j + 1);
                assert(byte == pack_byte(h@, idx as int));
            }
            out[idx] = byte;
            idx += 1;
            assert(good ==> stream_bits(out@.take(idx as int)) + word_bits(acc, acc_len as nat)
                =~= target);
        }
        j += 1;
    }
    assert(idx == 896 && acc_len == 0);
    assert(out@.take(896) =~= out@);
    assert(h@.take(N as int) =~= h@);
    assert(good ==> stream_bits(out@) =~= pack14(h@));
    assert(out@ =~= Seq::new(896, |k: int| pack_byte(h@, k)));
    out
}

/// The code that `pack_coeffs` writes for one `(sign, magnitude)` pair: an
/// 8-bit header of the sign bit and the magnitude's low seven bits, then
/// the magnitude's high part in unary.
pub open spec fn pair_code(sign: u64, mag: u32) -> Seq<bool> {
    word_bits((sign << 7u64) | ((mag as u64) & 0x7F), 8) + zeros((mag >> 7u32) as nat) + seq![true]
}

/// The codes of a run of pairs, one after the other.
pub open spec fn pair_codes(c: Seq<(u64, u32)>) -> Seq<bool>
    decreases c.len(),
{
    if c.len() == 0 {
        Seq::empty()
    } else {
        pair_codes(c.drop_last()) + pair_code(c.last().0, c.last().1)
    }
}

/// The codes of a prefix grow one pair at a time and stay within the whole.
proof fn lemma_pair_codes_prefix(c: Seq<(u64, u32)>, i: int)
    requires
        0 <= i < c.len(),
    ensures
        pair_codes(c.take(i + 1)) =~= pair_codes(c.take(i)) + pair_code(c[i].0, c[i].1),
        pair_codes(c.take(i + 1)).len() <= pair_codes(c).len(),
    decreases c.len(),
{
    assert(c.take(i + 1).drop_last() =~= c.take(i));
    if i + 1 < c.len() {
        lemma_pair_codes_prefix(c.drop_last(), i);
        assert(c.drop_last().take(i + 1) =~= c.take(i + 1));
        assert(c.drop_last().take(i) =~= c.take(i));
    } else {
        assert(c.take(i + 1) =~= c);
    }
}

/// The low bits of zero are zeros.
proof fn lemma_word_bits_zero_value(n: nat)
    requires
        n <= 64,
    ensures
        word_bits(0, n) =~= zeros(n),
{
    assert forall|i: int| 0 <= i < n implies word_bits(0, n)[i] == zeros(n)[i] by {
        let s: u64 = (n - 1 - i) as u64;
        assert((0u64 >> s) & 1 == 0) by (bit_vector);
    }
}

/// The lowest bit of one is a one.
proof fn lemma_word_bits_one()
    ensures
        word_bits(1, 1) =~= seq![true],
{
    assert((1u64 >> 0u64) & 1 == 1) by (bit_vector);
}

/// Writes the codes of 512 `(sign, magnitude)` pairs one after the other,
/// MSB-first, into a zeroed 625-byte buffer.
pub fn pack_coeffs(coeffs: &[(u64, u32)]) -> (buf: [u8; 625])
    requires
        coeffs@.len() == N,
        forall|i: int| 0 <= i < coeffs@.len() ==> (#[trigger] coeffs@[i]).1 >> 7u32 <= 56,
        pair_codes(coeffs@).len() <= 5000,
    ensures
        stream_bits(buf@) == pair_codes(coeffs@) + zeros(
            (5000 - pair_codes(coeffs@).len()) as nat,
        ),
{
    let mut buf = [0u8; 625];
    let mut w = BitWriter::new(&mut buf);
    let mut i: usize = 0;
    assert(pair_codes(coeffs@.take(0)) =~= Seq::<bool>::empty());
    while i < coeffs.len()
        invariant
            i <= coeffs@.len(),
            coeffs@.len() == N,
            forall|i: int| 0 <= i < coeffs@.len() ==> (#[trigger] coeffs@[i]).1 >> 7u32 <= 56,
            pair_codes(coeffs@).len() <= 5000,
            w.wf(),
            w.buf@.len() == 625,
            w.bits() == pair_codes(coeffs@.take(i as int)),
            forall|k: int| w.idx <= k < 625 ==> #[trigger] w.buf@[k] == 0,
            after_borrow(buf)@ == final(w.buf)@,
        decreases coeffs@.len() - i,
    {
        let (sign, mag) = coeffs[i];
        proof {
            lemma_pair_codes_prefix(coeffs@, i as int);
            lemma_word_bits_zero_value((mag >> 7u32) as nat);
            lemma_word_bits_one();
        }
        let header = (sign << 7u64) | (mag as u64 & 0x7F);
        proof {
            w.lemma_bits_len();
        }
        w.push(header, 8);
        let high = mag >> 7u32;
        if high > 0 {
            proof {
                w.lemma_bits_len();
            }
            w.push(0, high);
        }
        proof {
            w.lemma_bits_len();
        }
        w.push(1, 1);
        proof {
            assert(w.bits() =~= pair_codes(coeffs@.take(i + 1)));
        }
        i += 1;
    }
    proof {
        w.lemma_bits_len();
        assert(coeffs@.take(N as int) =~= coeffs@);
    }
    let n = w.finish();
    proof {
        lemma_stream_bits_append(buf@.take(n as int), buf@.skip(n as int));
        lemma_stream_bits_zero(buf@.skip(n as int));
        assert(buf@ =~= buf@.take(n as int) + buf@.skip(n as int));
    }
    buf
}

/// The signature coefficients as integers.
pub open spec fn coeff_values(s2: Seq<i16>) -> Seq<int> {
    Seq::new(s2.len(), |i: int| s2[i] as int)
}

/// A coefficient header: the sign bit, then the seven low magnitude bits.
proof fn lemma_header_bits(sign: u64, a: u64)
    requires
        sign <= 1,
    ensures
        word_bits((sign << 7u64) | (a & 0x7F), 8) =~= seq![sign == 1] + word_bits(a & 0x7F, 7),
{
    let h: u64 = (sign << 7u64) | (a & 0x7F);
    assert(((h >> 7u64) & 1 == 1) == (sign == 1)) by (bit_vector)
        requires
            h == (sign << 7u64) | (a & 0x7F),
            sign <= 1,
    ;
    assert forall|i: int| 1 <= i < 8 implies word_bits(h, 8)[i] == word_bits(a & 0x7F, 7)[i - 1] by {
        let s: u64 = (7 - i) as u64;
        assert((h >> s) & 1 == ((a & 0x7F) >> s) & 1) by (bit_vector)
            requires
                h == (sign << 7u64) | (a & 0x7F),
                s < 7,
        ;
    }
}

/// A writer stopped at coefficient `i` has flushed the whole bytes of the
/// codes before it and left the rest of the buffer alone.
proof fn lemma_refused_prefix(
    vals: Seq<int>,
    i: int,
    before: Seq<u8>,
    buf: Seq<u8>,
    idx: int,
    acc: u64,
    acc_len: nat,
)
    requires
        compress_stops_at(vals, i),
        acc_len < 8,
        0 <= idx <= buf.len(),
        buf.len() == before.len(),
        stream_bits(buf.take(idx)) + word_bits(acc, acc_len) == encode_all(vals.take(i)),
        forall|k: int| idx <= k < buf.len() ==> #[trigger] buf[k] == before[k],
    ensures
        compress_partial(vals, i, before, buf),
{
    let done = encode_all(vals.take(i));
    assert(done.len() == 8 * idx + acc_len);
    assert(done.len() / 8 == idx) by (nonlinear_arith)
        requires
            done.len() == 8 * idx + acc_len,
            acc_len < 8,
            idx >= 0,
    ;
    assert(done.take(8 * idx) =~= stream_bits(buf.take(idx)));
}

/// Compression stops at coefficient `i`: all before it are in range and
/// their codes fit in 625 bytes, while coefficient `i` is out of range or
/// its code would no longer fit.
pub open spec fn compress_stops_at(vals: Seq<int>, i: int) -> bool {
    &&& 0 <= i < vals.len()
    &&& coeffs_in_range(vals.take(i))
    &&& encode_all(vals.take(i)).len() <= 5000
    &&& (!(-2047 <= vals[i] <= 2047) || encode_all(vals.take(i + 1)).len() > 5000)
}

/// What a refused compression leaves in `out`: the whole bytes of the codes
/// of the coefficients before the one it stopped at, and the rest of `out`
/// as it was.
pub open spec fn compress_partial(vals: Seq<int>, i: int, before: Seq<u8>, after: Seq<u8>) -> bool {
    let done = encode_all(vals.take(i));
    let nb = done.len() / 8;
    &&& after.len() == before.len()
    &&& stream_bits(after.take(nb as int)) == done.take(8 * nb as int)
    &&& forall|k: int| nb <= k < after.len() ==> #[trigger] after[k] == before[k]
}

/// Golomb-Rice compresses the 512 coefficients of `s2` into `out`, zero
/// padded. Returns `false` when a coefficient's magnitude exceeds 2047 or
/// the codes do not fit in 625 bytes; `out` then holds the whole bytes
/// written before the coefficient it stopped at.
pub fn ref_compress(s2: &[i16; N], out: &mut [u8; 625]) -> (ok: bool)
    ensures
        ok == (coeffs_in_range(coeff_values(s2@)) && encode_all(coeff_values(s2@)).len() <= 5000),
        ok ==> stream_bits(final(out)@) == encode_all(coeff_values(s2@)) + zeros(
            (5000 - encode_all(coeff_values(s2@)).len()) as nat,
        ),
        !ok ==> exists|i: int|
            #![trigger compress_stops_at(coeff_values(s2@), i)]
            compress_stops_at(coeff_values(s2@), i) && compress_partial(
                coeff_values(s2@),
                i,
                old(out)@,
                final(out)@,
            ),
{
    let ghost vals = coeff_values(s2@);
    let ghost out0 = out@;
    let mut w = BitWriter::new(out);
    let mut i: usize = 0;
    let mut stopped = false;
    assert(encode_all(vals.take(0)) =~= Seq::<bool>::empty());
    while i < N
        invariant_except_break
            !stopped,
        invariant
            i <= N,
            vals == coeff_values(s2@),
            coeffs_in_range(vals.take(i as int)),
            w.wf(),
            w.buf@.len() == 625,
            w.bits() == encode_all(vals.take(i as int)),
            w.bits().len() <= 5000,
            forall|k: int| w.idx <= k < 625 ==> #[trigger] w.buf@[k] == out0[k],
            out0 == old(out)@,
            out0.len() == 625,
            after_borrow(out)@ == final(w.buf)@,
        ensures
            stopped ==> compress_stops_at(vals, i as int) && compress_partial(
                vals,
                i as int,
                out0,
                w.buf@,
            ),
            stopped ==> !(coeffs_in_range(vals) && encode_all(vals).len() <= 5000),
            !stopped ==> i == N,
        decreases N - i,
    {
        let v = s2[i];
        let abs_v: u32 = if v < 0 {
            (-(v as i32)) as u32
        } else {
            v as u32
        };
        proof {
            lemma_encode_all_append(vals.take(i + 1), vals.skip(i + 1));
            assert(vals =~= vals.take(i + 1) + vals.skip(i + 1));
            lemma_encode_all_push(vals.take(i as int), v as int);
            assert(vals.take(i + 1) =~= vals.take(i as int).push(v as int));
        }
        if abs_v > 2047 {
            assert(!(-2047 <= vals[i as int] <= 2047));
            proof {
                lemma_refused_prefix(vals, i as int, out0, w.buf@, w.idx as int, w.acc, w.acc_len as nat);
            }
            stopped = true;
            break;
        }
        let sign: u64 = if v < 0 {
            1
        } else {
            0
        };
        let header = (sign << 7u64) | (abs_v as u64 & 0x7F);
        let high = abs_v >> 7u32;
        proof {
            w.lemma_bits_len();
            assert(abs_v as u64 & 0x7F == abs_v as u64 % 128) by (bit_vector);
            assert(abs_v >> 7u32 == abs_v / 128) by (bit_vector);
            lemma_header_bits(sign, abs_v as u64);
            lemma_word_bits_zero_value(high as nat);
            lemma_word_bits_one();
            assert(encode_coeff(v as int).len() == 9 + high);
        }
        if w.idx * 8 + w.acc_len as usize + 8 + (high + 1) as usize > 625 * 8 {
            proof {
                assert(compress_stops_at(vals, i as int));
                lemma_refused_prefix(vals, i as int, out0, w.buf@, w.idx as int, w.acc, w.acc_len as nat);
            }
            stopped = true;
            break;
        }
        w.push(header, 8);
        if high > 0 {
            proof {
                w.lemma_bits_len();
            }
            w.push(0, high);
        }
        proof {
            w.lemma_bits_len();
        }
        w.push(1, 1);
        proof {
            assert(w.bits() =~= encode_all(vals.take(i + 1)));
            assert forall|k: int| 0 <= k < i + 1 implies -2047 <= #[trigger] vals.take(i + 1)[k]
                <= 2047 by {
                if k < i {
                    assert(vals.take(i + 1)[k] == vals.take(i as int)[k]);
                }
            }
        }
        i += 1;
    }
    if stopped {
        return false;
    }
    proof {
        w.lemma_bits_len();
        assert(vals.take(N as int) =~= vals);
    }
    let consumed = w.finish();
    let mut k = consumed;
    while k < 625
        invariant
            consumed <= k <= 625,
            out@.len() == 625,
            stream_bits(out@.take(consumed as int)) == encode_all(vals) + zeros(
                (8 * consumed - encode_all(vals).len()) as nat,
            ),
            forall|j: int| consumed <= j < k ==> #[trigger] out@[j] == 0,
        decreases 625 - k,
    {
        let ghost prev = out@;
        out[k] = 0;
        assert(out@.take(consumed as int) =~= prev.take(consumed as int));
        k += 1;
    }
    proof {
        lemma_stream_bits_append(out@.take(consumed as int), out@.skip(consumed as int));
        lemma_stream_bits_zero(out@.skip(consumed as int));
        assert(out@ =~= out@.take(consumed as int) + out@.skip(consumed as int));
        assert(stream_bits(out@) =~= encode_all(vals) + zeros(
            (5000 - encode_all(vals).len()) as nat,
        ));
    }
    true
}

/// Hashes `nonce || message` to a point the plain way: squeezes SHAKE256
/// two bytes at a time and keeps each big-endian pair below `5Q`, left
/// unreduced, until 512 are kept.
///
/// The sampling only ends once 512 candidates are found, which the
/// precondition states.
pub fn ref_hash_to_point(nonce: &[u8], message: &[u8], c: &mut [u16; N])
    requires
        hash_to_point_ends(nonce@ + message@),
    ensures
        final(c)@ == hash_point(nonce@ + message@),
{
    let ghost msg = nonce@ + message@;
    let ghost bound: nat = choose|k: nat| #[trigger] sampled(msg, k).len() >= N;
    let mut s = Shake256::new();
    s.absorb(nonce);
    s.absorb(message);
    s.finalize();
    assert(s.absorbed() =~= msg);
    let mut i: usize = 0;
    let ghost mut k: nat = 0;
    assert(c@.take(0) =~= sampled(msg, 0)) by {
        reveal(sampled);
    }
    while i < N
        invariant
            msg == nonce@ + message@,
            s.wf(),
            s.finalized(),
            s.absorbed() == msg,
            s.squeezed() == 2 * k,
            sampled(msg, bound).len() >= N,
            i <= N,
            sampled(msg, k).len() == i,
            c@.take(i as int) == sampled(msg, k),
        decreases bound - k,
    {
        proof {
            lemma_more_candidates_needed(msg, bound, k);
        }
        let mut buf = [0u8; 2];
        s.squeeze(&mut buf);
        let w = ((buf[0] as u32) << 8u32) | (buf[1] as u32);
        let ghost c0 = c@;
        proof {
            let b0 = buf[0];
            let b1 = buf[1];
            assert(((b0 as u32) << 8u32) | (b1 as u32) == (b0 as u32) * 256 + (b1 as u32))
                by (bit_vector);
            assert(w == candidate(msg, k));
        }
        if w < 5 * Q {
            c[i] = w as u16;
            proof {
                lemma_sample_step(msg, k, c0, c@, i as int, w as int);
            }
            i += 1;
        } else {
            proof {
                lemma_sample_step(msg, k, c0, c@, i as int, w as int);
            }
        }
        proof {
            k = k + 1;
        }
    }
    proof {
        lemma_hash_point(msg, k);
        assert(c@ =~= c@.take(N as int));
    }
}

/// An accepted 625-byte compressed signature vector is exactly what
/// `ref_compress` writes for the values it decodes to: the compressor
/// accepts those values, and its output is the same bytes.
pub proof fn lemma_accepted_is_compressed(buf: Seq<u8>, s2: Seq<i16>, out: Seq<u8>)
    requires
        buf.len() == 625,
        signature_accepts(buf),
        coeff_values(s2) == signature_values(buf),
        out.len() == 625,
        stream_bits(out) == encode_all(coeff_values(s2)) + zeros(
            (5000 - encode_all(coeff_values(s2)).len()) as nat,
        ),
    ensures
        coeffs_in_range(coeff_values(s2)),
        encode_all(coeff_values(s2)).len() <= 5000,
        out == buf,
{
    lemma_accepted_signature_is_canonical(buf);
    lemma_stream_bits_injective(out, buf);
}

/// Decompressing what `ref_compress` writes gives the coefficients back.
pub proof fn lemma_compress_round_trip(s2: Seq<i16>, out: Seq<u8>)
    requires
        s2.len() == N,
        coeffs_in_range(coeff_values(s2)),
        encode_all(coeff_values(s2)).len() <= 5000,
        out.len() == 625,
        stream_bits(out) == encode_all(coeff_values(s2)) + zeros(
            (5000 - encode_all(coeff_values(s2)).len()) as nat,
        ),
    ensures
        signature_accepts(out),
        signature_values(out) == coeff_values(s2),
{
    lemma_canonical_signature_accepted(out, coeff_values(s2));
}

/// The signed value that a `(sign, magnitude)` pair stands for.
pub open spec fn pair_value(p: (u64, u32)) -> int {
    if p.0 == 1 {
        -(p.1 as int)
    } else {
        p.1 as int
    }
}

/// A pair with a sign bit, a magnitude below 2048, and no negative zero.
pub open spec fn pair_well_formed(p: (u64, u32)) -> bool {
    p.0 <= 1 && p.1 <= 2047 && !(p.0 == 1 && p.1 == 0)
}

/// The code of a well-formed pair is the code of the value it stands for.
proof fn lemma_pair_code_is_coeff_code(sign: u64, mag: u32)
    requires
        pair_well_formed((sign, mag)),
    ensures
        pair_code(sign, mag) =~= encode_coeff(pair_value((sign, mag))),
{
    let a = mag as u64;
    lemma_header_bits(sign, a);
    assert(a & 0x7F == (mag % 128) as u64) by (bit_vector)
        requires
            a == mag as u64,
    ;
    assert(mag >> 7u32 == mag / 128) by (bit_vector);
}

/// `pack_coeffs` and `ref_compress` write the same code: for well-formed
/// pairs and the coefficients they stand for, the codes of the pairs are
/// the Golomb-Rice codes of the coefficients, and those coefficients are
/// all in range.
pub proof fn lemma_pack_coeffs_codes(c: Seq<(u64, u32)>, s2: Seq<i16>)
    requires
        c.len() == s2.len(),
        forall|i: int| 0 <= i < c.len() ==> pair_well_formed(#[trigger] c[i]),
        forall|i: int| 0 <= i < c.len() ==> s2[i] as int == pair_value(#[trigger] c[i]),
    ensures
        pair_codes(c) == encode_all(coeff_values(s2)),
        coeffs_in_range(coeff_values(s2)),
    decreases c.len(),
{
    if c.len() == 0 {
        assert(coeff_values(s2) =~= Seq::<int>::empty());
    } else {
        let n = c.len() - 1;
        assert forall|i: int| 0 <= i < n implies pair_well_formed(#[trigger] c.drop_last()[i]) by {
            assert(c.drop_last()[i] == c[i]);
        }
        assert forall|i: int| 0 <= i < n implies s2.drop_last()[i] as int == pair_value(
            #[trigger] c.drop_last()[i],
        ) by {
            assert(c.drop_last()[i] == c[i]);
        }
        lemma_pack_coeffs_codes(c.drop_last(), s2.drop_last());
        assert(coeff_values(s2) =~= coeff_values(s2.drop_last()).push(s2[n] as int));
        lemma_encode_all_push(coeff_values(s2.drop_last()), s2[n] as int);
        assert(pair_well_formed(c[n]));
        assert(s2[n] as int == pair_value(c[n]));
        lemma_pair_code_is_coeff_code(c[n].0, c[n].1);
        assert forall|i: int| 0 <= i < coeff_values(s2).len() implies -2047 <= #[trigger] coeff_values(
            s2,
        )[i] <= 2047 by {
            if i < n {
                assert(coeff_values(s2)[i] == coeff_values(s2.drop_last())[i]);
            } else {
                assert(pair_well_formed(c[i]));
                assert(s2[i] as int == pair_value(c[i]));
            }
        }
    }
}

/// Under the conditions of `lemma_pack_coeffs_codes`, with the codes within
/// 5000 bits, the bytes that `pack_coeffs` returns are the bytes that
/// `ref_compress` writes, and `ref_compress` accepts.
pub proof fn lemma_pack_coeffs_is_compress(
    c: Seq<(u64, u32)>,
    s2: Seq<i16>,
    buf: Seq<u8>,
    out: Seq<u8>,
)
    requires
        c.len() == s2.len(),
        forall|i: int| 0 <= i < c.len() ==> pair_well_formed(#[trigger] c[i]),
        forall|i: int| 0 <= i < c.len() ==> s2[i] as int == pair_value(#[trigger] c[i]),
        pair_codes(c).len() <= 5000,
        buf.len() == 625,
        out.len() == 625,
        stream_bits(buf) == pair_codes(c) + zeros((5000 - pair_codes(c).len()) as nat),
        stream_bits(out) == encode_all(coeff_values(s2)) + zeros(
            (5000 - encode_all(coeff_values(s2)).len()) as nat,
        ),
    ensures
        coeffs_in_range(coeff_values(s2)) && encode_all(coeff_values(s2)).len() <= 5000,
        buf == out,
{
    lemma_pack_coeffs_codes(c, s2);
    lemma_stream_bits_injective(buf, out);
}

/// Appends the Golomb-Rice code of `(sign, mag)` to `out`, one bit at a
/// time.
pub fn encode_coeff_spec_bits(sign: bool, mag: u16, out: &mut Vec<bool>)
    ensures
        final(out)@ == old(out)@ + coeff_code(sign, mag as nat),
{
    let ghost o0 = out@;
    out.push(sign);
    let lo = (mag % 128) as u32;
    let mut k: u32 = 0;
    assert(word_bits(lo as u64, 7).take(0) =~= Seq::<bool>::empty());
    while k < 7
        invariant
            k <= 7,
            lo < 128,
            out@ =~= o0 + seq![sign] + word_bits(lo as u64, 7).take(k as int),
        decreases 7 - k,
    {
        let bit = (lo >> (6 - k)) & 1 == 1;
        proof {
            let sh: u32 = (6 - k) as u32;
            assert(((lo >> sh) & 1 == 1) == (((lo as u64) >> (sh as u64)) & 1 == 1)) by (bit_vector);
            assert(word_bits(lo as u64, 7).take(k + 1) =~= word_bits(lo as u64, 7).take(k as int).push(
                bit,
            ));
        }
        out.push(bit);
        k += 1;
    }
    let high = (mag / 128) as usize;
    let mut j: usize = 0;
    let ghost base = out@;
    while j < high
        invariant
            j <= high,
            out@ =~= base + zeros(j as nat),
        decreases high - j,
    {
        out.push(false);
        j += 1;
        assert(out@ =~= base + zeros(j as nat));
    }
    out.push(true);
    assert(word_bits(lo as u64, 7).take(7) =~= word_bits(lo as u64, 7));
    assert(out@ =~= o0 + coeff_code(sign, mag as nat));
}

/// The bit that `pack_msb_first` leaves at stream position `i`.
pub open spec fn packed_bit(bits: Seq<bool>, i: int) -> bool {
    i < bits.len() && bits[i]
}

/// Setting bit `7 - r` of a byte sets stream bit `r` of it and keeps the
/// others.
proof fn lemma_set_stream_bit(x: u8, r: u64, r2: u64)
    requires
        r < 8,
        r2 < 8,
    ensures
        ((((x | (1u8 << ((7 - r) as u8))) as u8) as u64 >> ((7 - r2) as u64)) & 1 == 1) == (r2 == r
            || ((x as u64) >> ((7 - r2) as u64)) & 1 == 1),
{
    assert(((((x | (1u8 << ((7 - r) as u8))) as u8) as u64 >> ((7 - r2) as u64)) & 1 == 1) == (r2
        == r || ((x as u64) >> ((7 - r2) as u64)) & 1 == 1)) by (bit_vector)
        requires
            r < 8,
            r2 < 8,
    ;
}

/// Packs `bits` MSB-first into `out`, zero-filling it first; bits past the
/// end of `out` must be zero.
pub fn pack_msb_first(bits: &[bool], out: &mut [u8])
    requires
        forall|i: int| 0 <= i < bits@.len() && #[trigger] bits@[i] ==> i < 8 * old(out)@.len(),
    ensures
        final(out)@.len() == old(out)@.len(),
        stream_bits(final(out)@) == Seq::new(
            8 * old(out)@.len(),
            |i: int| packed_bit(bits@, i),
        ),
{
    let mut i: usize = 0;
    while i < out.len()
        invariant
            i <= out@.len(),
            out@.len() == old(out)@.len(),
            forall|k: int| 0 <= k < i ==> #[trigger] out@[k] == 0,
        decreases out@.len() - i,
    {
        out[i] = 0;
        i += 1;
    }
    assert forall|j: int| 0 <= j < 8 * out@.len() implies !#[trigger] stream_bit(out@, j) by {
        let b = out@[j / 8] as u64;
        let sh: u64 = (7 - j % 8) as u64;
        assert((b >> sh) & 1 == 0) by (bit_vector)
            requires
                b == 0,
        ;
    }
    let mut i: usize = 0;
    while i < bits.len()
        invariant
            i <= bits@.len(),
            out@.len() == old(out)@.len(),
            forall|i: int| 0 <= i < bits@.len() && #[trigger] bits@[i] ==> i < 8 * out@.len(),
            forall|j: int|
                0 <= j < 8 * out@.len() ==> #[trigger] stream_bit(out@, j) == (j < i && packed_bit(
                    bits@,
                    j,
                )),
        decreases bits@.len() - i,
    {
        if bits[i] {
            let ghost before = out@;
            let k = i / 8;
            let r = i % 8;
            out[k] = out[k] | (1u8 << ((7 - r) as u8));
            proof {
                assert forall|j: int| 0 <= j < 8 * out@.len() implies #[trigger] stream_bit(out@, j)
                    == (j < i + 1 && packed_bit(bits@, j)) by {
                    if j / 8 == k {
                        lemma_set_stream_bit(before[k as int], r as u64, (j % 8) as u64);
                        assert(stream_bit(before, j) == (j < i && packed_bit(bits@, j)));
                    } else {
                        assert(out@[j / 8] == before[j / 8]);
                        assert(stream_bit(before, j) == (j < i && packed_bit(bits@, j)));
                    }
                }
            }
        }
        i += 1;
    }
    assert(stream_bits(out@) =~= Seq::new(8 * old(out)@.len(), |i: int| packed_bit(bits@, i)));
}

} // verus!
