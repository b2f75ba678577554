//! The instruction data of the on-chain verifier: a mode byte choosing the
//! hash, then the signature, then the message.
use crate::FALCON_512_SIGNATURE_LEN;
use vstd::prelude::*;
use vstd::slice::slice_subrange;

verus! {

/// The hash that a signature is checked with.
#[derive(Clone, Copy, Debug, PartialEq, Eq, Structural)]
pub enum HashMode {
    /// Mode byte 0: SHAKE256.
    Shake,
    /// Mode byte 1: TurboSHAKE.
    TurboShake,
}

/// The mode that a mode byte selects, if any.
pub open spec fn mode_of(b: u8) -> Option<HashMode> {
    if b == 0 {
        Some(HashMode::Shake)
    } else if b == 1 {
        Some(HashMode::TurboShake)
    } else {
        None
    }
}

/// Only the mode bytes 0 (SHAKE256) and 1 (TurboSHAKE) select a mode; every
/// other byte is refused.
pub proof fn lemma_mode_bytes(b: u8)
    ensures
        mode_of(b) is Some <==> (b == 0 || b == 1),
        mode_of(b) == Some(HashMode::Shake) <==> b == 0,
        mode_of(b) == Some(HashMode::TurboShake) <==> b == 1,
{
}

/// Instruction data split into its parts.
pub struct Instruction<'a> {
    pub mode: HashMode,
    pub signature: &'a [u8],
    pub message: &'a [u8],
}

/// Splits instruction data `[mode][signature (666 bytes)][message]`.
/// Returns `None` when the data is shorter than the mode byte and a
/// signature, or the mode byte is neither 0 nor 1.
pub fn parse_instruction(data: &[u8]) -> (r: Option<Instruction<'_>>)
    ensures
        r is Some <==> data@.len() >= 1 + FALCON_512_SIGNATURE_LEN && (data@[0] == 0 || data@[0]
            == 1),
        r matches Some(ix) ==> {
            &&& (ix.mode == HashMode::Shake <==> data@[0] == 0)
            &&& (ix.mode == HashMode::TurboShake <==> data@[0] == 1)
            &&& Some(ix.mode) == mode_of(data@[0])
            &&& ix.signature@ == data@.subrange(1, 1 + FALCON_512_SIGNATURE_LEN as int)
            &&& ix.message@ == data@.subrange(1 + FALCON_512_SIGNATURE_LEN as int, data@.len() as int)
        },
{
    if data.len() < 1 + FALCON_512_SIGNATURE_LEN {
        return None;
    }
    let mode = if data[0] == 0 {
        HashMode::Shake
    } else if data[0] == 1 {
        HashMode::TurboShake
    } else {
        return None;
    };
    let signature = slice_subrange(data, 1, 1 + FALCON_512_SIGNATURE_LEN);
    let message = slice_subrange(data, 1 + FALCON_512_SIGNATURE_LEN, data.len());
    Some(Instruction { mode, signature, message })
}

} // verus!
