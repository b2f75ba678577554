//! Falcon-512 wire codecs (packed public keys, Golomb-Rice compressed
//! signatures), hash-to-point over SHAKE256, and the Keccak-f[1600]
//! permutation under them, with their contracts proved by Verus.
use vstd::prelude::*;

pub mod bits;
pub mod bitwriter;
pub mod codec;
pub mod encoding;
pub mod instruction;
pub mod keccak;
pub mod keccak_ref;
pub mod reference;
pub mod rng;

verus! {

/// Polynomial degree of Falcon-512: the ring is `Z_q[x] / (x^512 + 1)`.
pub const N: usize = 512;

/// Falcon modulus `q = 12 * 1024 + 1`.
pub const Q: u32 = 12289;

/// Bound on the squared L2 norm of an accepted signature, `floor(beta^2)`.
pub const L2_BOUND: u32 = 34_034_726;

/// Length of the signature nonce (salt) in bytes.
pub const NONCE_LEN: usize = 40;

/// Header byte of a Falcon-512 public key: `0x00 | logn`.
pub const PUBKEY_HEADER: u8 = 0x09;

/// Header byte of a compressed Falcon-512 signature: `0x30 | logn`.
pub const SIG_HEADER: u8 = 0x39;

/// Public key: header byte and 512 packed 14-bit coefficients.
pub const FALCON_512_PUBKEY_LEN: usize = 1 + (N * 14) / 8;

/// Signature: header byte, nonce and the 625-byte compressed vector.
pub const FALCON_512_SIGNATURE_LEN: usize = 1 + NONCE_LEN + 625;

} // verus!
