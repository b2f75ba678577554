//! Pins of the Falcon-512 constants to their defining equations.

use solana_falcon512::{
    FALCON_512_PUBKEY_LEN, FALCON_512_SIGNATURE_LEN, L2_BOUND, N, NONCE_LEN, PUBKEY_HEADER, Q,
    SIG_HEADER,
};

/// Polynomial degree N = 512; the ring is Z_q[x] / (x^512 + 1).
#[test]
fn polynomial_degree_n_eq_512() {
    assert_eq!(N, 512);
    assert_eq!(N, 1 << 9, "N = 2^logn = 2^9 for Falcon-512");
}

/// Modulus Q = 12289, with Q = 1 (mod 2N) so that the negacyclic NTT exists.
#[test]
fn modulus_q_eq_12289() {
    assert_eq!(Q, 12289);
    assert_eq!(Q as usize, 12 * 1024 + 1, "Q = 12*2^10 + 1");
    assert_eq!(
        (Q as usize) % (2 * N),
        1,
        "Q = 1 (mod 2N), required for the negacyclic NTT"
    );
}

/// The squared L2-norm bound, floor(beta^2) for Falcon-512.
#[test]
fn l2_bound_matches_pqclean() {
    assert_eq!(L2_BOUND, 34_034_726);
}

/// Salt length: 40 bytes (320 bits).
#[test]
fn nonce_len_eq_40() {
    assert_eq!(NONCE_LEN, 40);
}

/// Public key header: 0x00 | logn with logn = 9.
#[test]
#[allow(clippy::identity_op)]
fn pubkey_header_byte() {
    assert_eq!(PUBKEY_HEADER, 0x09);
    assert_eq!(PUBKEY_HEADER, 0x00 | 0x09_u8);
}

/// Compressed signature header: 0x30 | logn with logn = 9.
#[test]
fn sig_header_byte() {
    assert_eq!(SIG_HEADER, 0x39);
    assert_eq!(SIG_HEADER, 0x30 | 0x09_u8);
}

/// Wire-format lengths: pk = 1 + N*14/8 = 897, sig = 1 + nonce + 625 = 666.
#[test]
fn wire_format_lengths() {
    assert_eq!(FALCON_512_PUBKEY_LEN, 1 + (N * 14) / 8);
    assert_eq!(FALCON_512_PUBKEY_LEN, 897);
    assert_eq!(FALCON_512_SIGNATURE_LEN, 1 + NONCE_LEN + 625);
    assert_eq!(FALCON_512_SIGNATURE_LEN, 666);
}

/// The hash-to-point rejection bound 5*Q is the largest multiple of Q that
/// fits 16-bit candidates: 5*Q = 61445 <= 65536 < 6*Q = 73734.
#[test]
#[allow(clippy::assertions_on_constants)]
fn hash_to_point_rejection_bound_is_5q() {
    assert!(5 * Q <= 1 << 16, "5*Q must fit in u16 candidates");
    assert!(6 * Q > 1 << 16, "6*Q would exceed 2^16, so 5*Q is the max");
}
