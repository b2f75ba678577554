//! The encodings that the decoders in `codec` invert, and the laws that tie
//! the two together: decoding an encoding gives back its values, and an
//! accepted input is the encoding of what it decodes to.
use crate::bits::{
    bits_value, lemma_bits_value_bound, lemma_bits_value_word, stream_bits, word_bits,
};
use crate::codec::{
    decode_coeff, decode_run, lemma_decode_coeff_bounds, lemma_rice_tail_bounds, pubkey_accepts,
    pubkey_coeff, rice_tail, shift_consumed, signature_accepts, signature_values,
};
use crate::{N, Q};
use vstd::arithmetic::power2::*;
use vstd::prelude::*;

verus! {

/// `n` zero bits.
pub open spec fn zeros(n: nat) -> Seq<bool> {
    Seq::new(n, |i: int| false)
}

/// The Golomb-Rice code of a sign and a magnitude: the sign bit, the seven
/// low bits of the magnitude, then its high part in unary (that many zeros
/// and a closing one).
pub open spec fn coeff_code(sign: bool, mag: nat) -> Seq<bool> {
    seq![sign] + word_bits((mag % 128) as u64, 7) + zeros(mag / 128) + seq![true]
}

/// The Golomb-Rice code of one coefficient.
pub open spec fn encode_coeff(v: int) -> Seq<bool> {
    coeff_code(
        v < 0,
        (if v < 0 {
            -v
        } else {
            v
        }) as nat,
    )
}

/// The codes of a run of coefficients, one after the other.
pub open spec fn encode_all(vals: Seq<int>) -> Seq<bool>
    decreases vals.len(),
{
    if vals.len() == 0 {
        Seq::empty()
    } else {
        encode_coeff(vals[0]) + encode_all(vals.skip(1))
    }
}

/// Every coefficient has a magnitude below 2048.
pub open spec fn coeffs_in_range(vals: Seq<int>) -> bool {
    forall|i: int| 0 <= i < vals.len() ==> -2047 <= #[trigger] vals[i] <= 2047
}

/// The 14-bit big-endian packing of public-key coefficients, one after the
/// other.
pub open spec fn pack14(h: Seq<u32>) -> Seq<bool>
    decreases h.len(),
{
    if h.len() == 0 {
        Seq::empty()
    } else {
        word_bits(h[0] as u64, 14) + pack14(h.skip(1))
    }
}

/// `k` zeros and a one decode as a unary high part of `k`.
proof fn lemma_rice_tail_unary(t: Seq<bool>, m: int, k: nat)
    requires
        0 <= m,
        m + 128 * k < 2048,
        t.len() >= k + 1,
        t.take(k as int) =~= zeros(k),
        t[k as int],
    ensures
        rice_tail(t, m) == Some((m + 128 * k, (k + 1) as int)),
    decreases k,
{
    if k > 0 {
        assert(!t[0]) by {
            assert(t.take(k as int)[0] == t[0]);
        }
        let t1 = t.skip(1);
        assert(t1.take((k - 1) as int) =~= zeros((k - 1) as nat)) by {
            assert forall|i: int| 0 <= i < k - 1 implies #[trigger] t1.take((k - 1) as int)[i] == zeros(
                (k - 1) as nat,
            )[i] by {
                assert(t.take(k as int)[i + 1] == t[i + 1]);
            }
        }
        lemma_rice_tail_unary(t1, m + 128, (k - 1) as nat);
        assert(rice_tail(t, m) == shift_consumed(rice_tail(t1, m + 128), 1));
    }
}

/// What the unary tail consumed is zeros and a closing one.
proof fn lemma_rice_tail_shape(t: Seq<bool>, m: int)
    requires
        0 <= m < 2048,
        rice_tail(t, m) is Some,
    ensures
        ({
            let (mm, c) = rice_tail(t, m).unwrap();
            &&& c == (mm - m) / 128 + 1
            &&& t.take(c) =~= zeros((c - 1) as nat) + seq![true]
        }),
    decreases t.len(),
{
    lemma_rice_tail_bounds(t, m);
    if !t[0] {
        let t1 = t.skip(1);
        lemma_rice_tail_shape(t1, m + 128);
        lemma_rice_tail_bounds(t1, m + 128);
        let (mm, c1) = rice_tail(t1, m + 128).unwrap();
        assert(t.take(c1 + 1) =~= seq![false] + t1.take(c1));
        assert(seq![false] + (zeros((c1 - 1) as nat) + seq![true]) =~= zeros(c1 as nat) + seq![
            true,
        ]);
    }
}

/// A short bit string is the bits of the number it spells.
proof fn lemma_word_bits_of_value(s: Seq<bool>)
    requires
        s.len() <= 16,
    ensures
        bits_value(s) < pow2(s.len()),
        word_bits(bits_value(s) as u64, s.len()) =~= s,
    decreases s.len(),
{
    lemma_bits_value_bound(s);
    lemma_pow2_strictly_increases_or_eq(s.len(), 16);
    lemma2_to64();
    let x = bits_value(s) as u64;
    if s.len() > 0 {
        let n = s.len();
        let s1 = s.drop_last();
        lemma_word_bits_of_value(s1);
        let y = bits_value(s1) as u64;
        let b: u64 = if s.last() {
            1
        } else {
            0
        };
        assert(x == 2 * y + b);
        assert(x >> 1u64 == y && x & 1 == b) by (bit_vector)
            requires
                x == 2 * y + b,
                b < 2,
                y < 0x8000_0000_0000_0000,
        ;
        lemma_bits_value_bound(s1);
        lemma_pow2_strictly_increases_or_eq((n - 1) as nat, 16);
        assert forall|i: int| 0 <= i < n implies word_bits(x, n)[i] == s[i] by {
            if i < n - 1 {
                let sh: u64 = (n - 2 - i) as u64;
                assert((x >> ((sh + 1) as u64)) & 1 == ((x >> 1u64) >> sh) & 1) by (bit_vector)
                    requires
                        sh < 63,
                ;
                assert(word_bits(y, (n - 1) as nat)[i] == s1[i]);
            } else {
                assert(x >> 0u64 == x) by (bit_vector);
            }
        }
    }
}

/// `2^a <= 2^b` for `a <= b`.
proof fn lemma_pow2_strictly_increases_or_eq(a: nat, b: nat)
    requires
        a <= b,
    ensures
        pow2(a) <= pow2(b),
{
    if a < b {
        lemma_pow2_strictly_increases(a, b);
    }
}

/// Decoding the code of an in-range coefficient, whatever follows it, gives
/// back the coefficient and consumes exactly its code.
pub proof fn lemma_decode_encode_coeff(v: int, rest: Seq<bool>)
    requires
        -2047 <= v <= 2047,
    ensures
        decode_coeff(encode_coeff(v) + rest) == Some((v, encode_coeff(v).len() as int)),
{
    let a = if v < 0 {
        -v
    } else {
        v
    };
    let lo = a % 128;
    let k = (a / 128) as nat;
    let e = encode_coeff(v);
    let t = e + rest;
    assert(e.len() == 9 + k);
    assert(t.subrange(1, 8) =~= word_bits(lo as u64, 7));
    lemma_bits_value_word(lo as u64, 7);
    assert(pow2(7) == 128) by {
        lemma2_to64();
    }
    let t8 = t.skip(8);
    assert(t8.take(k as int) =~= zeros(k));
    assert(t8[k as int]);
    lemma_rice_tail_unary(t8, lo, k);
    assert(lo + 128 * k == a);
}

/// Whatever `decode_coeff` accepts at the front of a bit string is the code
/// of the value it returns: a coefficient has exactly one code.
pub proof fn lemma_decode_coeff_canonical(t: Seq<bool>)
    requires
        decode_coeff(t) is Some,
    ensures
        t.take(decode_coeff(t).unwrap().1) =~= encode_coeff(decode_coeff(t).unwrap().0),
{
    let (v, c) = decode_coeff(t).unwrap();
    let hdr = t.subrange(1, 8);
    let lo = bits_value(hdr) as int;
    lemma_word_bits_of_value(hdr);
    assert(pow2(7) == 128) by {
        lemma2_to64();
    }
    let t8 = t.skip(8);
    lemma_rice_tail_shape(t8, lo);
    lemma_rice_tail_bounds(t8, lo);
    let (m, c1) = rice_tail(t8, lo).unwrap();
    let a = if v < 0 {
        -v
    } else {
        v
    };
    assert(a == m);
    assert(m % 128 == lo && m / 128 == c1 - 1) by {
        assert(m == lo + 128 * ((m - lo) / 128));
    }
    assert(t.take(c) =~= seq![t[0]] + hdr + t8.take(c1));
    assert(t[0] == (v < 0));
}

/// Decoding the codes of a run of in-range coefficients, whatever follows,
/// gives back the run and consumes exactly the codes.
pub proof fn lemma_decode_encode_all(vals: Seq<int>, rest: Seq<bool>)
    requires
        coeffs_in_range(vals),
    ensures
        decode_run(encode_all(vals) + rest, vals.len()) == (vals, encode_all(vals).len() as int,
        true),
    decreases vals.len(),
{
    if vals.len() > 0 {
        let e = encode_coeff(vals[0]);
        let tail = vals.skip(1);
        assert(coeffs_in_range(tail)) by {
            assert forall|i: int| 0 <= i < tail.len() implies -2047 <= #[trigger] tail[i] <= 2047 by {
                assert(tail[i] == vals[i + 1]);
            }
        }
        let t = encode_all(vals) + rest;
        assert(t =~= e + (encode_all(tail) + rest));
        lemma_decode_encode_coeff(vals[0], encode_all(tail) + rest);
        assert(t.skip(e.len() as int) =~= encode_all(tail) + rest);
        lemma_decode_encode_all(tail, rest);
        assert(seq![vals[0]] + tail =~= vals);
    }
}

/// What `decode_run` decodes in full is laid out as the codes of the values
/// it returns.
pub proof fn lemma_decode_run_canonical(t: Seq<bool>, n: nat)
    requires
        decode_run(t, n).2,
    ensures
        decode_run(t, n).0.len() == n,
        coeffs_in_range(decode_run(t, n).0),
        0 <= decode_run(t, n).1 <= t.len(),
        t.take(decode_run(t, n).1) =~= encode_all(decode_run(t, n).0),
    decreases n,
{
    if n > 0 {
        let (v, c) = decode_coeff(t).unwrap();
        lemma_decode_coeff_bounds(t);
        lemma_decode_coeff_canonical(t);
        let t1 = t.skip(c);
        lemma_decode_run_canonical(t1, (n - 1) as nat);
        let r = decode_run(t1, (n - 1) as nat);
        let vals = seq![v] + r.0;
        assert(vals.skip(1) =~= r.0);
        assert(vals[0] == v);
        assert(t.take(c + r.1) =~= t.take(c) + t1.take(r.1));
        assert forall|i: int| 0 <= i < vals.len() implies -2047 <= #[trigger] vals[i] <= 2047 by {
            if i > 0 {
                assert(vals[i] == r.0[i - 1]);
            }
        }
    }
}

/// A compressed signature vector that is accepted is the code of its
/// values followed by zero bits only: the decoder accepts exactly one byte
/// string per value vector and buffer length.
pub proof fn lemma_accepted_signature_is_canonical(buf: Seq<u8>)
    requires
        signature_accepts(buf),
    ensures
        signature_values(buf).len() == N,
        coeffs_in_range(signature_values(buf)),
        encode_all(signature_values(buf)).len() <= 8 * buf.len(),
        stream_bits(buf) =~= encode_all(signature_values(buf)) + zeros(
            (8 * buf.len() - encode_all(signature_values(buf)).len()) as nat,
        ),
{
    let st = stream_bits(buf);
    lemma_decode_run_canonical(st, N as nat);
    let r = decode_run(st, N as nat);
    assert(st =~= st.take(r.1) + st.skip(r.1));
    assert(st.skip(r.1) =~= zeros((st.len() - r.1) as nat));
}

/// A buffer whose bits are the code of 512 in-range coefficients followed by
/// zero bits is accepted and decodes to those coefficients.
pub proof fn lemma_canonical_signature_accepted(buf: Seq<u8>, vals: Seq<int>)
    requires
        vals.len() == N,
        coeffs_in_range(vals),
        encode_all(vals).len() <= 8 * buf.len(),
        stream_bits(buf) =~= encode_all(vals) + zeros((8 * buf.len() - encode_all(vals).len()) as nat),
    ensures
        signature_accepts(buf),
        signature_values(buf) == vals,
{
    let st = stream_bits(buf);
    let z = zeros((8 * buf.len() - encode_all(vals).len()) as nat);
    lemma_decode_encode_all(vals, z);
    assert(st.skip(encode_all(vals).len() as int) =~= z);
}

/// Two byte buffers of one length with the same bits are the same buffer.
pub proof fn lemma_stream_bits_injective(a: Seq<u8>, b: Seq<u8>)
    requires
        a.len() == b.len(),
        stream_bits(a) == stream_bits(b),
    ensures
        a == b,
{
    assert forall|k: int| 0 <= k < a.len() implies a[k] == b[k] by {
        crate::bits::lemma_stream_byte(a, k);
        crate::bits::lemma_stream_byte(b, k);
        let wa = word_bits(a[k] as u64, 8);
        let wb = word_bits(b[k] as u64, 8);
        assert(wa =~= wb) by {
            assert(stream_bits(a).subrange(8 * k, 8 * k + 8) =~= stream_bits(b).subrange(
                8 * k,
                8 * k + 8,
            ));
        }
        lemma_bits_value_word(a[k] as u64, 8);
        lemma_bits_value_word(b[k] as u64, 8);
        assert(pow2(8) == 256) by {
            lemma2_to64();
        }
    }
    assert(a =~= b);
}

/// Two accepted compressed signature vectors of one length that decode to
/// the same values are the same bytes.
pub proof fn lemma_signature_encoding_unique(a: Seq<u8>, b: Seq<u8>)
    requires
        signature_accepts(a),
        signature_accepts(b),
        a.len() == b.len(),
        signature_values(a) == signature_values(b),
    ensures
        a == b,
{
    lemma_accepted_signature_is_canonical(a);
    lemma_accepted_signature_is_canonical(b);
    lemma_stream_bits_injective(a, b);
}

/// The 512 coefficients of a packed public key, each as the decoder reads
/// it.
pub open spec fn pubkey_values(buf: Seq<u8>) -> Seq<u32> {
    Seq::new(N as nat, |j: int| pubkey_coeff(buf, j) as u32)
}

/// Field `j` of a 14-bit packing holds coefficient `j`.
proof fn lemma_pack14_index(h: Seq<u32>, j: int)
    requires
        0 <= j < h.len(),
    ensures
        pack14(h).len() == 14 * h.len(),
        pack14(h).subrange(14 * j, 14 * j + 14) =~= word_bits(h[j] as u64, 14),
    decreases j,
{
    lemma_pack14_len(h);
    if j > 0 {
        let t = h.skip(1);
        lemma_pack14_index(t, j - 1);
        assert(pack14(h).subrange(14 * j, 14 * j + 14) =~= pack14(t).subrange(
            14 * (j - 1),
            14 * (j - 1) + 14,
        ));
    }
}

/// A 14-bit packing has 14 bits per coefficient.
proof fn lemma_pack14_len(h: Seq<u32>)
    ensures
        pack14(h).len() == 14 * h.len(),
    decreases h.len(),
{
    if h.len() > 0 {
        lemma_pack14_len(h.skip(1));
    }
}

/// Decoding the 14-bit packing of 512 coefficients below `2^14` gives the
/// coefficients back, and the key is accepted exactly when all of them are
/// below `Q`.
pub proof fn lemma_decode_pack_pubkey(buf: Seq<u8>, h: Seq<u32>)
    requires
        h.len() == N,
        forall|j: int| 0 <= j < N ==> #[trigger] h[j] < 16384,
        buf.len() >= 896,
        stream_bits(buf).take(7168) =~= pack14(h),
    ensures
        pubkey_values(buf) == h,
        pubkey_accepts(buf) <==> forall|j: int| 0 <= j < N ==> #[trigger] h[j] < Q,
{
    assert(pow2(14) == 16384) by {
        lemma2_to64();
    }
    assert forall|j: int| 0 <= j < N implies #[trigger] pubkey_coeff(buf, j) == h[j] by {
        lemma_pack14_index(h, j);
        assert(stream_bits(buf).subrange(14 * j, 14 * j + 14) =~= pack14(h).subrange(
            14 * j,
            14 * j + 14,
        ));
        lemma_bits_value_word(h[j] as u64, 14);
    }
    assert(pubkey_values(buf) =~= h);
}

/// An accepted public key starts with the 14-bit packing of its
/// coefficients, which are all below `Q`.
pub proof fn lemma_accepted_pubkey_is_canonical(buf: Seq<u8>)
    requires
        pubkey_accepts(buf),
    ensures
        forall|j: int| 0 <= j < N ==> #[trigger] pubkey_values(buf)[j] < Q,
        stream_bits(buf).take(7168) =~= pack14(pubkey_values(buf)),
{
    let h = pubkey_values(buf);
    let st = stream_bits(buf);
    lemma_pack14_len(h);
    assert forall|i: int| 0 <= i < 7168 implies #[trigger] st.take(7168)[i] == pack14(h)[i] by {
        let j = i / 14;
        lemma_pack14_index(h, j);
        let seg = st.subrange(14 * j, 14 * j + 14);
        lemma_word_bits_of_value(seg);
        assert(pubkey_coeff(buf, j) < Q);
        assert(word_bits(h[j] as u64, 14) =~= seg);
        assert(pack14(h)[i] == pack14(h).subrange(14 * j, 14 * j + 14)[i - 14 * j]);
    }
    assert forall|j: int| 0 <= j < N implies #[trigger] pubkey_values(buf)[j] < Q by {
        assert(pubkey_coeff(buf, j) < Q);
    }
}

/// Two accepted public keys with the same coefficients agree on their first
/// 896 bytes: a key has exactly one packed form.
pub proof fn lemma_pubkey_encoding_unique(a: Seq<u8>, b: Seq<u8>)
    requires
        pubkey_accepts(a),
        pubkey_accepts(b),
        pubkey_values(a) == pubkey_values(b),
    ensures
        a.take(896) == b.take(896),
{
    lemma_accepted_pubkey_is_canonical(a);
    lemma_accepted_pubkey_is_canonical(b);
    assert(stream_bits(a.take(896)) =~= stream_bits(a).take(7168));
    assert(stream_bits(b.take(896)) =~= stream_bits(b).take(7168));
    lemma_stream_bits_injective(a.take(896), b.take(896));
}

/// The codes of a run followed by one more coefficient.
pub proof fn lemma_encode_all_push(vals: Seq<int>, v: int)
    ensures
        encode_all(vals.push(v)) =~= encode_all(vals) + encode_coeff(v),
    decreases vals.len(),
{
    if vals.len() == 0 {
        assert(vals.push(v).skip(1) =~= Seq::<int>::empty());
        assert(encode_all(vals.push(v)) =~= encode_coeff(v) + encode_all(Seq::<int>::empty()));
    } else {
        assert(vals.push(v).skip(1) =~= vals.skip(1).push(v));
        lemma_encode_all_push(vals.skip(1), v);
        assert(vals.push(v)[0] == vals[0]);
        assert(encode_all(vals.push(v)) =~= encode_coeff(vals[0]) + encode_all(vals.skip(1).push(v)));
    }
}

/// The 14-bit packing of a run followed by one more coefficient.
pub proof fn lemma_pack14_push(h: Seq<u32>, v: u32)
    ensures
        pack14(h.push(v)) =~= pack14(h) + word_bits(v as u64, 14),
    decreases h.len(),
{
    if h.len() == 0 {
        assert(h.push(v).skip(1) =~= Seq::<u32>::empty());
        assert(pack14(h.push(v)) =~= word_bits(v as u64, 14) + pack14(Seq::<u32>::empty()));
    } else {
        assert(h.push(v).skip(1) =~= h.skip(1).push(v));
        lemma_pack14_push(h.skip(1), v);
        assert(h.push(v)[0] == h[0]);
        assert(pack14(h.push(v)) =~= word_bits(h[0] as u64, 14) + pack14(h.skip(1).push(v)));
    }
}

/// The codes of two runs one after the other.
pub proof fn lemma_encode_all_append(a: Seq<int>, b: Seq<int>)
    ensures
        encode_all(a + b) =~= encode_all(a) + encode_all(b),
    decreases a.len(),
{
    if a.len() > 0 {
        assert((a + b).skip(1) =~= a.skip(1) + b);
        assert((a + b)[0] == a[0]);
        lemma_encode_all_append(a.skip(1), b);
    } else {
        assert(a + b =~= b);
    }
}

} // verus!
