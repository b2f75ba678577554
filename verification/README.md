# solana-falcon512 (codec and hashing core)

The wire codecs and the hashing of a Falcon-512 signature verifier, with
their behaviour stated as contracts and proved by Verus.

- `bits`: bit strings (MSB-first byte streams, the low bits of a word) and
  the facts that let a shift-register decoder be read as a walk over one.
- `codec`: `decode_pubkey_u32` (14-bit packed public key),
  `decompress_one_coeff` / `decompress_signature` (Golomb-Rice compressed
  signature vector) and `hash_to_point` (rejection sampling of SHAKE256
  output), each specified over the bits of its input;
  `hash_to_point_bounded` samples from at most a given number of output
  blocks and says whether that was enough.
- `encoding`: the encodings those decoders invert, and the laws: decoding an
  encoding gives its values back, and an accepted input is the one encoding
  of what it decodes to.
- `instruction`: `parse_instruction`, the split of the on-chain
  instruction data into mode byte, signature and message.
- `keccak`: Keccak-f[1600] (`keccak_f1600`) and the incremental `Shake256`
  sponge, specified over an abstract sponge of absorbed input and squeezed
  output.
- `keccak_ref`: the permutation written one step mapping at a time, and the
  round constants derived from their LFSR; both proved equal to `keccak`.
- `bitwriter`, `reference`, `rng`: an MSB-first bit writer, the plain
  encoders (`pack_pubkey`, `pack_coeffs`, `ref_compress`,
  `encode_coeff_spec_bits`, `pack_msb_first`), a per-byte
  `ref_hash_to_point`, and a xorshift64 generator.

`tests/` runs the codec, Keccak and constant checks on concrete inputs,
including a differential check of SHAKE256 against the `sha3` crate.
