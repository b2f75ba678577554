//! Keccak-f[1600] and the SHAKE256 sponge.
use vstd::arithmetic::div_mod::*;
use vstd::prelude::*;
use vstd::slice::slice_subrange;

verus! {

/// SHAKE256 rate in bytes: `(1600 - 2 * 256) / 8`.
pub const RATE: usize = 136;

/// SHAKE256 domain-separation suffix, with the first padding bit.
pub const SHAKE256_DOMAIN_SUFFIX: u8 = 0x1f;

/// The last padding bit of the multi-rate padding, in the last rate byte.
pub const SHAKE256_FINAL_RATE_BIT: u8 = 0x80;

/// Keccak-f[1600] round constants.
pub const RC: [u64; 24] = [
    0x0000000000000001,
    0x0000000000008082,
    0x800000000000808A,
    0x8000000080008000,
    0x000000000000808B,
    0x0000000080000001,
    0x8000000080008081,
    0x8000000000008009,
    0x000000000000008A,
    0x0000000000000088,
    0x0000000080008009,
    0x000000008000000A,
    0x000000008000808B,
    0x800000000000008B,
    0x8000000000008089,
    0x8000000000008003,
    0x8000000000008002,
    0x8000000000000080,
    0x000000000000800A,
    0x800000008000000A,
    0x8000000080008081,
    0x8000000000008080,
    0x0000000080000001,
    0x8000000080008008,
];

/// Rotation offsets of the rho step, by lane `x + 5y`.
pub open spec fn rho_offset(i: int) -> u64 {
    seq![
        0u64, 1, 62, 28, 27, 36, 44, 6, 55, 20, 3, 10, 43, 25, 39, 41, 45, 15, 21, 8, 18, 2, 61,
        56, 14,
    ][i]
}

/// Left rotation of a 64-bit lane by `n < 64` places.
pub open spec fn rotl(x: u64, n: u64) -> u64 {
    if n == 0 {
        x
    } else {
        (x << n) | (x >> ((64 - n) as u64))
    }
}

/// Parity of column `x`.
pub open spec fn column_parity(s: Seq<u64>, x: int) -> u64 {
    s[x] ^ s[x + 5] ^ s[x + 10] ^ s[x + 15] ^ s[x + 20]
}

/// What theta adds to every lane of column `x`.
pub open spec fn theta_effect(s: Seq<u64>, x: int) -> u64 {
    column_parity(s, (x + 4) % 5) ^ rotl(column_parity(s, (x + 1) % 5), 1)
}

/// The theta step.
pub open spec fn theta(s: Seq<u64>) -> Seq<u64> {
    Seq::new(25, |i: int| s[i] ^ theta_effect(s, i % 5))
}

/// The lane that the pi step moves to position `i`: lane `(x, y)` goes to
/// `(y, 2x + 3y)`, so position `(X, Y)` comes from `((X + 3Y) mod 5, X)`.
pub open spec fn pi_source(i: int) -> int {
    (i % 5 + 3 * (i / 5)) % 5 + 5 * (i % 5)
}

/// The rho and pi steps.
pub open spec fn rho_pi(s: Seq<u64>) -> Seq<u64> {
    Seq::new(25, |i: int| rotl(s[pi_source(i)], rho_offset(pi_source(i))))
}

/// The chi step.
pub open spec fn chi(s: Seq<u64>) -> Seq<u64> {
    Seq::new(
        25,
        |i: int|
            {
                let x = i % 5;
                let row = i - x;
                s[i] ^ (!s[row + (x + 1) % 5] & s[row + (x + 2) % 5])
            },
    )
}

/// The iota step.
pub open spec fn iota(s: Seq<u64>, rc: u64) -> Seq<u64> {
    s.update(0, s[0] ^ rc)
}

/// One round of Keccak-f[1600].
pub open spec fn keccak_round(s: Seq<u64>, rc: u64) -> Seq<u64> {
    iota(chi(rho_pi(theta(s))), rc)
}

/// The first `n` rounds of Keccak-f[1600].
pub open spec fn keccak_rounds(s: Seq<u64>, n: nat) -> Seq<u64>
    decreases n,
{
    if n == 0 {
        s
    } else {
        keccak_round(keccak_rounds(s, (n - 1) as nat), RC[n - 1])
    }
}

/// The Keccak-f[1600] permutation.
pub open spec fn keccak_f(s: Seq<u64>) -> Seq<u64> {
    keccak_rounds(s, 24)
}

/// Two 25-lane states that agree lane by lane are equal.
pub proof fn lemma_lanes_eq(a: Seq<u64>, b: Seq<u64>)
    requires
        a.len() == 25,
        b.len() == 25,
        a[0] == b[0],
        a[1] == b[1],
        a[2] == b[2],
        a[3] == b[3],
        a[4] == b[4],
        a[5] == b[5],
        a[6] == b[6],
        a[7] == b[7],
        a[8] == b[8],
        a[9] == b[9],
        a[10] == b[10],
        a[11] == b[11],
        a[12] == b[12],
        a[13] == b[13],
        a[14] == b[14],
        a[15] == b[15],
        a[16] == b[16],
        a[17] == b[17],
        a[18] == b[18],
        a[19] == b[19],
        a[20] == b[20],
        a[21] == b[21],
        a[22] == b[22],
        a[23] == b[23],
        a[24] == b[24],
    ensures
        a == b,
{
    assert(a =~= b);
}

/// Left rotation of a lane.
pub fn rotl64(x: u64, n: u64) -> (r: u64)
    requires
        n < 64,
    ensures
        r == rotl(x, n),
{
    if n == 0 {
        x
    } else {
        (x << n) | (x >> (64 - n))
    }
}

/// The theta step on 25 lanes.
fn theta_lanes(a: &[u64; 25]) -> (r: [u64; 25])
    ensures
        r@ == theta(a@),
{
    let c0 = a[0] ^ a[5] ^ a[10] ^ a[15] ^ a[20];
    let c1 = a[1] ^ a[6] ^ a[11] ^ a[16] ^ a[21];
    let c2 = a[2] ^ a[7] ^ a[12] ^ a[17] ^ a[22];
    let c3 = a[3] ^ a[8] ^ a[13] ^ a[18] ^ a[23];
    let c4 = a[4] ^ a[9] ^ a[14] ^ a[19] ^ a[24];
    let d0 = c4 ^ rotl64(c1, 1);
    let d1 = c0 ^ rotl64(c2, 1);
    let d2 = c1 ^ rotl64(c3, 1);
    let d3 = c2 ^ rotl64(c4, 1);
    let d4 = c3 ^ rotl64(c0, 1);
    let t: [u64; 25] = [
        a[0] ^ d0,
        a[1] ^ d1,
        a[2] ^ d2,
        a[3] ^ d3,
        a[4] ^ d4,
        a[5] ^ d0,
        a[6] ^ d1,
        a[7] ^ d2,
        a[8] ^ d3,
        a[9] ^ d4,
        a[10] ^ d0,
        a[11] ^ d1,
        a[12] ^ d2,
        a[13] ^ d3,
        a[14] ^ d4,
        a[15] ^ d0,
        a[16] ^ d1,
        a[17] ^ d2,
        a[18] ^ d3,
        a[19] ^ d4,
        a[20] ^ d0,
        a[21] ^ d1,
        a[22] ^ d2,
        a[23] ^ d3,
        a[24] ^ d4,
    ];
    proof {
        lemma_lanes_eq(t@, theta(a@));
    }
    t
}

/// The rho and pi steps on 25 lanes.
fn rho_pi_lanes(t: &[u64; 25]) -> (r: [u64; 25])
    ensures
        r@ == rho_pi(t@),
{
    let b: [u64; 25] = [
        rotl64(t[0], 0),
        rotl64(t[6], 44),
        rotl64(t[12], 43),
        rotl64(t[18], 21),
        rotl64(t[24], 14),
        rotl64(t[3], 28),
        rotl64(t[9], 20),
        rotl64(t[10], 3),
        rotl64(t[16], 45),
        rotl64(t[22], 61),
        rotl64(t[1], 1),
        rotl64(t[7], 6),
        rotl64(t[13], 25),
        rotl64(t[19], 8),
        rotl64(t[20], 18),
        rotl64(t[4], 27),
        rotl64(t[5], 36),
        rotl64(t[11], 10),
        rotl64(t[17], 15),
        rotl64(t[23], 56),
        rotl64(t[2], 62),
        rotl64(t[8], 55),
        rotl64(t[14], 39),
        rotl64(t[15], 41),
        rotl64(t[21], 2),
    ];
    proof {
        lemma_lanes_eq(b@, rho_pi(t@));
    }
    b
}

/// The chi and iota steps on 25 lanes.
fn chi_iota_lanes(b: &[u64; 25], rc: u64) -> (r: [u64; 25])
    ensures
        r@ == iota(chi(b@), rc),
{
    let e: [u64; 25] = [
        b[0] ^ (!b[1] & b[2]) ^ rc,
        b[1] ^ (!b[2] & b[3]),
        b[2] ^ (!b[3] & b[4]),
        b[3] ^ (!b[4] & b[0]),
        b[4] ^ (!b[0] & b[1]),
        b[5] ^ (!b[6] & b[7]),
        b[6] ^ (!b[7] & b[8]),
        b[7] ^ (!b[8] & b[9]),
        b[8] ^ (!b[9] & b[5]),
        b[9] ^ (!b[5] & b[6]),
        b[10] ^ (!b[11] & b[12]),
        b[11] ^ (!b[12] & b[13]),
        b[12] ^ (!b[13] & b[14]),
        b[13] ^ (!b[14] & b[10]),
        b[14] ^ (!b[10] & b[11]),
        b[15] ^ (!b[16] & b[17]),
        b[16] ^ (!b[17] & b[18]),
        b[17] ^ (!b[18] & b[19]),
        b[18] ^ (!b[19] & b[15]),
        b[19] ^ (!b[15] & b[16]),
        b[20] ^ (!b[21] & b[22]),
        b[21] ^ (!b[22] & b[23]),
        b[22] ^ (!b[23] & b[24]),
        b[23] ^ (!b[24] & b[20]),
        b[24] ^ (!b[20] & b[21]),
    ];
    proof {
        lemma_lanes_eq(e@, iota(chi(b@), rc));
    }
    e
}

/// Applies Keccak-f[1600] to the 25 lanes of `state`.
pub fn keccak_f1600(state: &mut [u64; 25])
    ensures
        final(state)@ == keccak_f(old(state)@),
{
    let ghost s0 = state@;
    let mut round: usize = 0;
    while round < 24
        invariant
            round <= 24,
            s0 == old(state)@,
            state@ == keccak_rounds(s0, round as nat),
        decreases 24 - round,
    {
        let t = theta_lanes(state);
        let b = rho_pi_lanes(&t);
        let e = chi_iota_lanes(&b, RC[round]);
        *state = e;
        round += 1;
    }
}


/// Rounds keep a state of 25 lanes.
pub proof fn lemma_keccak_rounds_len(s: Seq<u64>, n: nat)
    requires
        s.len() == 25,
    ensures
        keccak_rounds(s, n).len() == 25,
    decreases n,
{
    if n > 0 {
        lemma_keccak_rounds_len(s, (n - 1) as nat);
    }
}

/// The all-zero Keccak state.
pub open spec fn zero_lanes() -> Seq<u64> {
    Seq::new(25, |i: int| 0u64)
}

/// XORs byte `b` into byte `pos` of the state (lanes are little-endian).
pub open spec fn xor_byte(lanes: Seq<u64>, pos: int, b: u8) -> Seq<u64> {
    lanes.update(pos / 8, lanes[pos / 8] ^ ((b as u64) << ((8 * (pos % 8)) as u64)))
}

/// Byte `pos` of the state.
pub open spec fn lane_byte(lanes: Seq<u64>, pos: int) -> u8 {
    (lanes[pos / 8] >> ((8 * (pos % 8)) as u64)) as u8
}

/// Absorbing one byte: XOR it in at the current position, and permute once
/// the rate is full.
pub open spec fn absorb_byte(st: (Seq<u64>, nat), b: u8) -> (Seq<u64>, nat) {
    let lanes = xor_byte(st.0, st.1 as int, b);
    if st.1 + 1 == RATE {
        (keccak_f(lanes), 0)
    } else {
        (lanes, st.1 + 1)
    }
}

/// The sponge state after absorbing `data`, byte by byte, from `st`.
pub open spec fn absorb_bytes(st: (Seq<u64>, nat), data: Seq<u8>) -> (Seq<u64>, nat)
    decreases data.len(),
{
    if data.len() == 0 {
        st
    } else {
        absorb_byte(absorb_bytes(st, data.drop_last()), data.last())
    }
}

/// The sponge state after absorbing `msg` from the all-zero state.
pub open spec fn absorbed_state(msg: Seq<u8>) -> (Seq<u64>, nat) {
    absorb_bytes((zero_lanes(), 0), msg)
}

/// Block `b` of the SHAKE256 output of `msg`: the padded, permuted state,
/// permuted `b` more times.
pub open spec fn output_block(msg: Seq<u8>, b: nat) -> Seq<u64>
    decreases b,
{
    if b == 0 {
        let st = absorbed_state(msg);
        keccak_f(
            xor_byte(
                xor_byte(st.0, st.1 as int, SHAKE256_DOMAIN_SUFFIX),
                RATE - 1,
                SHAKE256_FINAL_RATE_BIT,
            ),
        )
    } else {
        keccak_f(output_block(msg, (b - 1) as nat))
    }
}

/// Byte `k` of the SHAKE256 output stream of `msg`.
pub open spec fn shake256_byte(msg: Seq<u8>, k: nat) -> u8 {
    lane_byte(output_block(msg, k / (RATE as nat)), (k % (RATE as nat)) as int)
}

/// Absorbing a concatenation is absorbing its parts one after the other.
pub proof fn lemma_absorb_bytes_append(st: (Seq<u64>, nat), a: Seq<u8>, b: Seq<u8>)
    ensures
        absorb_bytes(st, a + b) == absorb_bytes(absorb_bytes(st, a), b),
    decreases b.len(),
{
    if b.len() == 0 {
        assert(a + b =~= a);
    } else {
        assert((a + b).drop_last() =~= a + b.drop_last());
        lemma_absorb_bytes_append(st, a, b.drop_last());
    }
}

/// Absorbing keeps 25 lanes and a position inside the rate.
pub proof fn lemma_absorb_bytes_shape(st: (Seq<u64>, nat), data: Seq<u8>)
    requires
        st.0.len() == 25,
        st.1 < RATE,
    ensures
        absorb_bytes(st, data).0.len() == 25,
        absorb_bytes(st, data).1 < RATE,
    decreases data.len(),
{
    if data.len() > 0 {
        lemma_absorb_bytes_shape(st, data.drop_last());
        let s1 = absorb_bytes(st, data.drop_last());
        lemma_keccak_rounds_len(xor_byte(s1.0, s1.1 as int, data.last()), 24);
    }
}

/// Every output block has 25 lanes.
pub proof fn lemma_output_block_len(msg: Seq<u8>, b: nat)
    ensures
        output_block(msg, b).len() == 25,
    decreases b,
{
    if b == 0 {
        let st = absorbed_state(msg);
        lemma_absorb_bytes_shape((zero_lanes(), 0), msg);
        lemma_keccak_rounds_len(
            xor_byte(
                xor_byte(st.0, st.1 as int, SHAKE256_DOMAIN_SUFFIX),
                RATE - 1,
                SHAKE256_FINAL_RATE_BIT,
            ),
            24,
        );
    } else {
        lemma_output_block_len(msg, (b - 1) as nat);
        lemma_keccak_rounds_len(output_block(msg, (b - 1) as nat), 24);
    }
}

/// Byte `i` of output block `b`, read from its lanes (little-endian), is
/// output byte `136b + i`: the rate lanes of a block are the next 136
/// bytes that squeezing gives.
pub proof fn lemma_rate_lanes_are_output(msg: Seq<u8>, b: nat, i: int)
    requires
        0 <= i < RATE,
    ensures
        lane_byte(output_block(msg, b), i) == shake256_byte(msg, (136 * b + i) as nat),
{
    lemma_fundamental_div_mod_converse(136 * b + i, 136, b as int, i);
}

/// An incremental SHAKE256 instance: it absorbs input, is finalized once,
/// then squeezes output.
pub struct Shake256 {
    state: [u64; 25],
    pos: usize,
    absorbed: Ghost<Seq<u8>>,
    squeezed: Ghost<nat>,
    finalized: Ghost<bool>,
}

impl Shake256 {
    /// The input absorbed so far.
    pub closed spec fn absorbed(&self) -> Seq<u8> {
        self.absorbed@
    }

    /// The number of output bytes squeezed (or skipped by `permute`) since
    /// finalization.
    pub closed spec fn squeezed(&self) -> nat {
        self.squeezed@
    }

    /// Whether the input is finalized and output can be read.
    pub closed spec fn finalized(&self) -> bool {
        self.finalized@
    }

    /// The lanes and position match the absorbed input and, once finalized,
    /// the output read so far.
    pub closed spec fn wf(&self) -> bool {
        if self.finalized@ {
            &&& self.state@ == output_block(self.absorbed@, self.squeezed@ / (RATE as nat))
            &&& self.pos == self.squeezed@ % (RATE as nat)
        } else {
            &&& self.state@ == absorbed_state(self.absorbed@).0
            &&& self.pos == absorbed_state(self.absorbed@).1
        }
    }

    /// A fresh instance that has absorbed nothing.
    pub fn new() -> (r: Self)
        ensures
            r.wf(),
            !r.finalized(),
            r.absorbed() == Seq::<u8>::empty(),
    {
        let r = Shake256 {
            state: [0u64; 25],
            pos: 0,
            absorbed: Ghost(Seq::empty()),
            squeezed: Ghost(0),
            finalized: Ghost(false),
        };
        assert(r.state@ =~= zero_lanes());
        r
    }

    /// Absorbs `data`.
    pub fn absorb(&mut self, data: &[u8])
        requires
            old(self).wf(),
            !old(self).finalized(),
        ensures
            final(self).wf(),
            !final(self).finalized(),
            final(self).absorbed() == old(self).absorbed() + data@,
    {
        let ghost m0 = self.absorbed@;
        let mut i: usize = 0;
        proof {
            lemma_absorb_bytes_shape((zero_lanes(), 0), m0);
            assert(m0 + data@.take(0) =~= m0);
        }
        while i < data.len()
            invariant
                i <= data@.len(),
                !self.finalized@,
                self.absorbed@ == m0 + data@.take(i as int),
                self.wf(),
                self.pos < RATE,
                self.state@.len() == 25,
            decreases data@.len() - i,
        {
            let ghost before = self.absorbed@;
            proof {
                assert((m0 + data@.take(i + 1)).drop_last() =~= before);
                assert((m0 + data@.take(i + 1)).last() == data@[i as int]);
                lemma_absorb_bytes_shape((zero_lanes(), 0), m0 + data@.take(i + 1));
            }
            let j = self.pos / 8;
            let sh = (8 * (self.pos % 8)) as u64;
            self.state[j] = self.state[j] ^ ((data[i] as u64) << sh);
            self.pos = self.pos + 1;
            if self.pos == RATE {
                keccak_f1600(&mut self.state);
                self.pos = 0;
            }
            self.absorbed = Ghost(m0 + data@.take(i + 1));
            i += 1;
        }
        assert(data@.take(i as int) =~= data@);
    }

    /// Applies the SHAKE256 padding and permutes: the output can now be
    /// read.
    pub fn finalize(&mut self)
        requires
            old(self).wf(),
            !old(self).finalized(),
        ensures
            final(self).wf(),
            final(self).finalized(),
            final(self).absorbed() == old(self).absorbed(),
            final(self).squeezed() == 0,
    {
        proof {
            lemma_absorb_bytes_shape((zero_lanes(), 0), self.absorbed@);
        }
        let j = self.pos / 8;
        let sh = (8 * (self.pos % 8)) as u64;
        self.state[j] = self.state[j] ^ ((SHAKE256_DOMAIN_SUFFIX as u64) << sh);
        self.state[(RATE - 1) / 8] = self.state[(RATE - 1) / 8] ^ ((SHAKE256_FINAL_RATE_BIT as u64)
            << 56u64);
        keccak_f1600(&mut self.state);
        self.pos = 0;
        self.squeezed = Ghost(0);
        self.finalized = Ghost(true);
    }

    /// Squeezes the next `out.len()` output bytes into `out`.
    pub fn squeeze(&mut self, out: &mut [u8])
        requires
            old(self).wf(),
            old(self).finalized(),
        ensures
            final(self).wf(),
            final(self).finalized(),
            final(self).absorbed() == old(self).absorbed(),
            final(self).squeezed() == old(self).squeezed() + old(out)@.len(),
            final(out)@.len() == old(out)@.len(),
            forall|i: int|
                0 <= i < old(out)@.len() ==> #[trigger] final(out)@[i] == shake256_byte(
                    old(self).absorbed(),
                    (old(self).squeezed() + i) as nat,
                ),
    {
        let ghost q0 = self.squeezed@;
        let mut i: usize = 0;
        while i < out.len()
            invariant
                i <= out@.len(),
                out@.len() == old(out)@.len(),
                self.finalized@,
                self.absorbed@ == old(self).absorbed@,
                self.squeezed@ == q0 + i,
                q0 == old(self).squeezed@,
                self.wf(),
                forall|k: int|
                    0 <= k < i ==> #[trigger] out@[k] == shake256_byte(
                        self.absorbed@,
                        (q0 + k) as nat,
                    ),
            decreases out@.len() - i,
        {
            let ghost sq: int = self.squeezed@ as int;
            proof {
                lemma_output_block_len(self.absorbed@, (sq / (RATE as int)) as nat);
                lemma_fundamental_div_mod(sq as int, RATE as int);
            }
            let j = self.pos / 8;
            let sh = (8 * (self.pos % 8)) as u64;
            out[i] = (self.state[j] >> sh) as u8;
            self.pos = self.pos + 1;
            if self.pos == RATE {
                keccak_f1600(&mut self.state);
                self.pos = 0;
                proof {
                    lemma_fundamental_div_mod_converse(
                        sq + 1,
                        RATE as int,
                        sq / (RATE as int) + 1,
                        0,
                    );
                }
            } else {
                proof {
                    lemma_fundamental_div_mod_converse(
                        sq + 1,
                        RATE as int,
                        sq / (RATE as int),
                        (sq % (RATE as int)) + 1,
                    );
                }
            }
            self.squeezed = Ghost((sq + 1) as nat);
            i += 1;
        }
    }

    /// The 17 rate lanes of the current output block.
    pub fn rate_lanes(&self) -> (r: &[u64])
        requires
            self.wf(),
            self.finalized(),
        ensures
            r@ == output_block(self.absorbed(), self.squeezed() / (RATE as nat)).take(17),
    {
        slice_subrange(self.state.as_slice(), 0, 17)
    }

    /// Permutes the state: the output moves on by one full block.
    pub fn permute(&mut self)
        requires
            old(self).wf(),
            old(self).finalized(),
        ensures
            final(self).wf(),
            final(self).finalized(),
            final(self).absorbed() == old(self).absorbed(),
            final(self).squeezed() == old(self).squeezed() + RATE,
    {
        let ghost sq: int = self.squeezed@ as int;
        keccak_f1600(&mut self.state);
        proof {
            lemma_fundamental_div_mod(sq as int, RATE as int);
            lemma_fundamental_div_mod_converse(
                sq + RATE,
                RATE as int,
                sq / (RATE as int) + 1,
                sq % (RATE as int),
            );
        }
        self.squeezed = Ghost((sq + RATE) as nat);
    }
}

} // verus!
