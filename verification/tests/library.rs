//! Concrete checks of the library's contracts and laws: one decoded
//! coefficient, the bit writer, the generators, partial writes on
//! rejection, and the equivalences between the plain and fast forms.

use solana_falcon512::bitwriter::BitWriter;
use solana_falcon512::codec::{
    decode_pubkey_u32, decompress_one_coeff, decompress_signature, hash_to_point,
    hash_to_point_bounded,
};
use solana_falcon512::keccak::{keccak_f1600, Shake256, RATE, RC};
use solana_falcon512::keccak_ref::{keccak_lfsr_next_bit, rc_if_bit_set, spec_round_constants};
use solana_falcon512::reference::{
    encode_coeff_spec_bits, pack_coeffs, pack_msb_first, pack_pubkey, ref_compress,
    ref_hash_to_point,
};
use solana_falcon512::rng::Rng;
use solana_falcon512::instruction::{parse_instruction, HashMode};
use solana_falcon512::{FALCON_512_SIGNATURE_LEN, N, Q};

fn xorshift(mut x: u64) -> u64 {
    x ^= x << 13;
    x ^= x >> 7;
    x ^= x << 17;
    x
}

#[test]
fn one_coeff_decodes_and_advances() {
    // +5: header 0b0000_0101, then the terminating 1 bit.
    // -130: header 0b1000_0010 (sign, low bits 2), one zero, then a 1.
    // Stream: 00000101 1 10000010 0 1 -> bytes 0x05, 0xC1, 0x20.
    let buf = [0x05u8, 0xC1, 0x20];
    let mut acc = 0u64;
    let mut acc_len = 0u64;
    let mut idx = 0usize;
    assert_eq!(
        decompress_one_coeff(&buf, &mut acc, &mut acc_len, &mut idx),
        Some(5)
    );
    assert_eq!(idx, 2);
    assert_eq!(acc_len, 7);
    assert_eq!(
        decompress_one_coeff(&buf, &mut acc, &mut acc_len, &mut idx),
        Some(-130)
    );
    assert_eq!(idx, 3);
    assert_eq!(acc_len, 5);
    // Five zero bits remain, then the stream is exhausted: fewer than eight
    // bits are left, so nothing is read.
    assert_eq!(
        decompress_one_coeff(&buf, &mut acc, &mut acc_len, &mut idx),
        None
    );
    assert_eq!((acc_len, idx), (5, 3));
}

#[test]
fn one_coeff_rejects_negative_zero_and_empty_input() {
    // Negative zero: the whole 9-bit code is read.
    let buf = [0x80u8, 0x80];
    let (mut acc, mut acc_len, mut idx) = (0u64, 0u64, 0usize);
    assert_eq!(
        decompress_one_coeff(&buf, &mut acc, &mut acc_len, &mut idx),
        None
    );
    assert_eq!((acc_len, idx), (7, 2));
    let empty: [u8; 0] = [];
    let (mut acc, mut acc_len, mut idx) = (0u64, 0u64, 0usize);
    assert_eq!(
        decompress_one_coeff(&empty, &mut acc, &mut acc_len, &mut idx),
        None
    );
    assert_eq!((acc, acc_len, idx), (0, 0, 0));
}

#[test]
fn bit_writer_writes_msb_first_and_pads() {
    let mut buf = [0xAAu8; 4];
    let mut w = BitWriter::new(&mut buf);
    w.push(0b101, 3);
    w.push(0xFFFF_FFFF_FFFF_FF01, 8); // only the low 8 bits count
    w.push(0b11, 2);
    let n = w.finish();
    // 101 00000001 11 -> 10100000 00111000 (padded with zeros)
    assert_eq!(n, 2);
    assert_eq!(buf, [0b1010_0000, 0b0011_1000, 0xAA, 0xAA]);
}

#[test]
fn rng_is_xorshift64() {
    let mut r = Rng::new(4);
    let a = r.next_u64();
    assert_eq!(a, xorshift(5));
    let mut buf = [0u8; 3];
    r.fill(&mut buf);
    let b = xorshift(a);
    let c = xorshift(b);
    let d = xorshift(c);
    assert_eq!(buf, [b as u8, c as u8, d as u8]);
    assert_eq!(r.next_u64(), xorshift(d));
}

#[test]
fn lfsr_and_round_constant_bits() {
    let mut r = 1u8;
    let bits: Vec<u64> = (0..8).map(|_| keccak_lfsr_next_bit(&mut r)).collect();
    assert_eq!(bits, vec![1, 0, 0, 0, 0, 0, 0, 0]);
    assert_eq!(r, 0x71);
    let mut rc = 0u64;
    rc_if_bit_set(&mut rc, 1, 63);
    rc_if_bit_set(&mut rc, 0, 3);
    rc_if_bit_set(&mut rc, 0, 100);
    rc_if_bit_set(&mut rc, 1, 0);
    assert_eq!(rc, 0x8000_0000_0000_0001);
    assert_eq!(spec_round_constants(), RC);
}

#[test]
fn pubkey_decode_is_inverse_of_pack() {
    let mut h = [0u32; N];
    for (i, slot) in h.iter_mut().enumerate() {
        *slot = ((i as u32) * 7919) % Q;
    }
    let packed = pack_pubkey(&h);
    let mut decoded = [0u32; N];
    assert!(decode_pubkey_u32(&packed, &mut decoded));
    assert_eq!(decoded, h);
    // Extra bytes after the 896 are not read.
    let mut longer = packed.to_vec();
    longer.extend_from_slice(&[0xFF; 10]);
    let mut decoded2 = [0u32; N];
    assert!(decode_pubkey_u32(&longer, &mut decoded2));
    assert_eq!(decoded2, h);
}

#[test]
fn pubkey_reject_keeps_later_slots() {
    let mut h = [1u32; N];
    h[10] = Q;
    let packed = pack_pubkey(&h);
    let mut decoded = [7u32; N];
    assert!(!decode_pubkey_u32(&packed, &mut decoded));
    for (i, &v) in decoded.iter().enumerate() {
        assert_eq!(v, if i < 10 { 1 } else { 7 }, "slot {i}");
    }
    // A short buffer leaves `h` untouched.
    let mut untouched = [3u32; N];
    assert!(!decode_pubkey_u32(&packed[..895], &mut untouched));
    assert_eq!(untouched, [3u32; N]);
}

#[test]
fn pack_pubkey_accepts_wide_values() {
    // Values of 14 bits or more pack without a panic.
    // Every window of the accumulator then holds only ones.
    let h = [u32::MAX; N];
    let packed = pack_pubkey(&h);
    assert_eq!(packed, [0xFFu8; 896]);
}

#[test]
fn decompress_reject_keeps_later_slots() {
    // Slot 3 holds a negative zero: slots 0..3 are written, the rest kept.
    let mut coeffs = vec![(0u64, 9u32); N];
    coeffs[3] = (1, 0);
    let buf = pack_coeffs(&coeffs);
    let mut s2 = [100i16; N];
    assert!(!decompress_signature(&buf, &mut s2));
    for (i, &v) in s2.iter().enumerate() {
        assert_eq!(v, if i < 3 { 9 } else { 100 }, "slot {i}");
    }
}

#[test]
fn ref_compress_rejects_out_of_range_and_overlong() {
    let mut s2 = [0i16; N];
    s2[7] = 2048;
    let mut out = [0u8; 625];
    assert!(!ref_compress(&s2, &mut out));
    s2[7] = i16::MIN;
    assert!(!ref_compress(&s2, &mut out));
    // 512 coefficients of magnitude 2047 need 512 * 24 bits > 5000.
    let big = [2047i16; N];
    assert!(!ref_compress(&big, &mut out));
}

#[test]
fn accepted_signature_recompresses_to_itself() {
    let mut s2 = [0i16; N];
    for (i, slot) in s2.iter_mut().enumerate() {
        *slot = ((i as i16) % 41) - 20;
    }
    let mut buf = [0u8; 625];
    assert!(ref_compress(&s2, &mut buf));
    let mut decoded = [0i16; N];
    assert!(decompress_signature(&buf, &mut decoded));
    assert_eq!(decoded, s2);
    let mut again = [0xFFu8; 625];
    assert!(ref_compress(&decoded, &mut again));
    assert_eq!(again, buf);
}

#[test]
fn hash_to_point_matches_plain_sampling_and_range() {
    let nonce = [7u8; 40];
    for len in [0usize, 1, 95, 96, 97, 135, 136, 137, 500] {
        let msg = vec![0x3Cu8; len];
        let mut fast = [0u16; N];
        hash_to_point(&nonce, &msg, &mut fast);
        let mut slow = [0u16; N];
        ref_hash_to_point(&nonce, &msg, &mut slow);
        assert_eq!(fast, slow, "len {len}");
        assert!(fast.iter().all(|&w| (w as u32) < 5 * Q));
    }
}

#[test]
fn squeeze_in_pieces_equals_squeeze_at_once() {
    let mut a = Shake256::new();
    a.absorb(b"pieces");
    a.finalize();
    let mut whole = [0u8; 3 * RATE + 5];
    a.squeeze(&mut whole);
    let mut b = Shake256::new();
    b.absorb(b"pie");
    b.absorb(b"");
    b.absorb(b"ces");
    b.finalize();
    let mut parts = vec![0u8; 3 * RATE + 5];
    let (x, rest) = parts.split_at_mut(1);
    b.squeeze(x);
    let (y, z) = rest.split_at_mut(RATE);
    b.squeeze(y);
    b.squeeze(z);
    assert_eq!(parts, whole.to_vec());
}

#[test]
fn permute_skips_one_output_block() {
    let mut a = Shake256::new();
    a.finalize();
    let mut first = [0u8; 2 * RATE];
    a.squeeze(&mut first);
    let mut b = Shake256::new();
    b.finalize();
    b.permute();
    let lanes = b.rate_lanes();
    let mut bytes = Vec::new();
    for lane in lanes {
        bytes.extend_from_slice(&lane.to_le_bytes());
    }
    assert_eq!(&bytes[..], &first[RATE..]);
}

#[test]
fn keccak_f1600_zero_state_known_answer() {
    // Keccak-f[1600] on the zero state: first lane of the result.
    let mut s = [0u64; 25];
    keccak_f1600(&mut s);
    assert_eq!(s[0], 0xF1258F7940E1DDE7);
}

#[test]
fn pubkey_every_single_bit_flip_is_detected() {
    let zero = [0u8; 896];
    let mut h0 = [0u32; N];
    assert!(decode_pubkey_u32(&zero, &mut h0));
    for bit_pos in 0..7168 {
        let mut buf = zero;
        buf[bit_pos / 8] ^= 1 << (bit_pos % 8);
        let mut h = [0u32; N];
        if decode_pubkey_u32(&buf, &mut h) {
            assert_ne!(h, h0, "bit flip at {bit_pos} not detected");
        }
    }
}

#[test]
fn random_inputs_decode_in_range() {
    let mut rng = Rng::new(0x0BAD_5EED_0000_0001);
    for _ in 0..2000 {
        let mut sig = [0u8; 625];
        rng.fill(&mut sig);
        let mut s2 = [0i16; N];
        if decompress_signature(&sig, &mut s2) {
            assert!(s2.iter().all(|&v| (-2047..=2047).contains(&v)));
        }
        let mut pk = [0u8; 896];
        rng.fill(&mut pk);
        let mut h = [0u32; N];
        if decode_pubkey_u32(&pk, &mut h) {
            assert!(h.iter().all(|&v| v < Q));
        }
    }
}

#[test]
fn decompress_matches_bitwise_encoding() {
    let mut rng = Rng::new(0x5EC0_DE00_1234_5678);
    let mut checked = 0;
    for _ in 0..300 {
        let mut s2 = [0i16; N];
        for slot in s2.iter_mut() {
            let bias = rng.next_u64() % 100;
            let raw = (rng.next_u64() % 2048) as u16;
            let mag: u16 = if bias < 80 {
                raw % 128
            } else if bias < 95 {
                raw % 256
            } else {
                raw % 512
            };
            let neg = (rng.next_u64() & 1) != 0 && mag != 0;
            *slot = if neg { -(mag as i16) } else { mag as i16 };
        }
        let mut bits: Vec<bool> = Vec::with_capacity(N * 12);
        for &v in s2.iter() {
            encode_coeff_spec_bits(v < 0, v.unsigned_abs(), &mut bits);
        }
        if bits.len() > 625 * 8 {
            continue;
        }
        let mut wire = [0xFFu8; 625];
        pack_msb_first(&bits, &mut wire);
        let mut decoded = [0i16; N];
        assert!(decompress_signature(&wire, &mut decoded));
        assert_eq!(decoded, s2);
        let mut compressed = [0u8; 625];
        assert!(ref_compress(&s2, &mut compressed));
        assert_eq!(compressed, wire);
        checked += 1;
    }
    assert!(checked >= 100);
}

#[test]
fn bitwise_encoding_of_one_coefficient() {
    let mut bits = vec![true];
    encode_coeff_spec_bits(true, 130, &mut bits);
    let expected = [
        true, // already there
        true, false, false, false, false, false, true, false, // sign, low bits of 130 = 2
        false, // one unary zero (130 / 128 = 1)
        true,  // terminator
    ];
    assert_eq!(bits, expected.to_vec());
    let mut out = [0xEEu8; 2];
    pack_msb_first(&bits, &mut out);
    assert_eq!(out, [0b1100_0001, 0b0010_0000]);
}

#[test]
fn ref_compress_refusal_keeps_flushed_prefix() {
    // Ten zero coefficients (9 bits each, "000000001") then one out of
    // range: 90 bits were written, so 11 whole bytes are flushed.
    let mut s2 = [0i16; N];
    s2[10] = -2048;
    let mut out = [0xAAu8; 625];
    assert!(!ref_compress(&s2, &mut out));
    let mut bits = Vec::new();
    for _ in 0..10 {
        bits.extend_from_slice(&[false, false, false, false, false, false, false, false, true]);
    }
    let mut expected = [0u8; 11];
    for (i, &b) in bits.iter().take(88).enumerate() {
        if b {
            expected[i / 8] |= 0x80 >> (i % 8);
        }
    }
    assert_eq!(&out[..11], &expected[..]);
    assert!(out[11..].iter().all(|&b| b == 0xAA));

    // Magnitude 2047 codes in 24 bits (0x7F 0x00 0x01): 208 of them fit in
    // 5000 bits, the 209th does not.
    let big = [2047i16; N];
    let mut out = [0xAAu8; 625];
    assert!(!ref_compress(&big, &mut out));
    for k in 0..624 {
        assert_eq!(out[k], [0x7Fu8, 0x00, 0x01][k % 3], "byte {k}");
    }
    assert_eq!(out[624], 0xAA);

    // A refusal at the first coefficient writes nothing.
    let mut s2 = [0i16; N];
    s2[0] = 3000;
    let mut out = [0x55u8; 625];
    assert!(!ref_compress(&s2, &mut out));
    assert_eq!(out, [0x55u8; 625]);
}

#[test]
fn pack_coeffs_equals_ref_compress() {
    let mut x = 0x1234_5678_9ABC_DEF0u64;
    for _ in 0..50 {
        let mut coeffs = Vec::with_capacity(N);
        let mut s2 = [0i16; N];
        for slot in s2.iter_mut() {
            x = xorshift(x);
            let mag = (x % 200) as u32;
            let sign = if mag == 0 { 0 } else { (x >> 20) & 1 };
            coeffs.push((sign, mag));
            *slot = if sign == 1 { -(mag as i16) } else { mag as i16 };
        }
        let packed = pack_coeffs(&coeffs);
        let mut out = [0xEEu8; 625];
        assert!(ref_compress(&s2, &mut out));
        assert_eq!(packed, out);
    }
}

#[test]
fn hash_to_point_bounded_agrees_or_stops_early() {
    let nonce = [9u8; 40];
    let msg = b"bounded sampling";
    let mut full = [0u16; N];
    hash_to_point(&nonce, msg, &mut full);

    // Enough blocks: the same point.
    let mut c = [0xFFFFu16; N];
    assert!(hash_to_point_bounded(&nonce, msg, &mut c, 100));
    assert_eq!(c, full);

    // No block: nothing sampled, nothing written.
    let mut c = [0xFFFFu16; N];
    assert!(!hash_to_point_bounded(&nonce, msg, &mut c, 0));
    assert_eq!(c, [0xFFFFu16; N]);

    // One block (68 candidates): a prefix of the point, the rest kept.
    let mut c = [0xFFFFu16; N];
    assert!(!hash_to_point_bounded(&nonce, msg, &mut c, 1));
    let n = c.iter().position(|&w| w == 0xFFFF).unwrap();
    assert!(n > 0 && n <= 68);
    assert_eq!(&c[..n], &full[..n]);
    assert!(c[n..].iter().all(|&w| w == 0xFFFF));
}

#[test]
fn lfsr_returns_after_255_steps() {
    for start in [1u8, 0x5A, 0x80, 0xFF] {
        let mut r = start;
        for step in 1..=255 {
            keccak_lfsr_next_bit(&mut r);
            assert_ne!(r, 0);
            if step < 255 {
                assert_ne!(r, start, "step {step}");
            }
        }
        assert_eq!(r, start);
    }
}

#[test]
fn one_coeff_failure_cursor() {
    // Sixteen zero bits after the header take the magnitude to 2048: the
    // header and those sixteen bits are read, the last byte is not.
    let buf = [0x00u8, 0x00, 0x00, 0xFF];
    let (mut acc, mut acc_len, mut idx) = (0u64, 0u64, 0usize);
    assert_eq!(
        decompress_one_coeff(&buf, &mut acc, &mut acc_len, &mut idx),
        None
    );
    assert_eq!((acc_len, idx), (0, 3));
    // The unary part runs out of bits: everything is read.
    let buf = [0x00u8, 0x00];
    let (mut acc, mut acc_len, mut idx) = (0u64, 0u64, 0usize);
    assert_eq!(
        decompress_one_coeff(&buf, &mut acc, &mut acc_len, &mut idx),
        None
    );
    assert_eq!((acc_len, idx), (0, 2));
}

#[test]
fn instruction_data_splits_or_is_refused() {
    let mut data = vec![1u8];
    data.extend((0..FALCON_512_SIGNATURE_LEN).map(|i| (i % 251) as u8));
    data.extend_from_slice(b"msg");
    let ix = parse_instruction(&data).unwrap();
    assert_eq!(ix.mode, HashMode::TurboShake);
    assert_eq!(ix.signature, &data[1..1 + FALCON_512_SIGNATURE_LEN]);
    assert_eq!(ix.message, b"msg");

    data[0] = 0;
    let ix = parse_instruction(&data).unwrap();
    assert_eq!(ix.mode, HashMode::Shake);

    // An empty message is fine; one byte short of a signature is not.
    let exact = &data[..1 + FALCON_512_SIGNATURE_LEN];
    assert_eq!(parse_instruction(exact).unwrap().message.len(), 0);
    assert!(parse_instruction(&data[..FALCON_512_SIGNATURE_LEN]).is_none());
    assert!(parse_instruction(&[]).is_none());

    data[0] = 2;
    assert!(parse_instruction(&data).is_none());
}
