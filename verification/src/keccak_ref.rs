//! Keccak-f[1600] written step by step, with its round constants
//! derived from the round-constant LFSR rather than taken from a table.
use crate::keccak::{
    chi, column_parity, keccak_f, keccak_round, keccak_rounds, pi_source, rho_offset, rho_pi,
    rotl, rotl64, theta, theta_effect, RC,
};
use vstd::prelude::*;

verus! {

/// One step of the round-constant LFSR `x^8 + x^6 + x^5 + x^4 + 1`
/// on its 8-bit state.
pub open spec fn lfsr_step(r: u8) -> u8 {
    if r & 0x80 != 0 {
        (r << 1u8) ^ 0x71
    } else {
        r << 1u8
    }
}

/// The LFSR state after `k` steps from 1.
pub open spec fn lfsr_state(k: nat) -> u8
    decreases k,
{
    if k == 0 {
        1
    } else {
        lfsr_step(lfsr_state((k - 1) as nat))
    }
}

/// `n` LFSR steps from state `r`.
pub open spec fn lfsr_iter(r: u8, n: nat) -> u8
    decreases n,
{
    if n == 0 {
        r
    } else {
        lfsr_step(lfsr_iter(r, (n - 1) as nat))
    }
}

/// Steps compose.
pub proof fn lemma_lfsr_iter_state(k: nat, n: nat)
    ensures
        lfsr_iter(lfsr_state(k), n) == lfsr_state(k + n),
    decreases n,
{
    if n > 0 {
        lemma_lfsr_iter_state(k, (n - 1) as nat);
    }
}

/// The states from 1 repeat with period 255.
pub proof fn lemma_lfsr_state_period(k: nat)
    requires
        lfsr_state(255) == 1,
    ensures
        lfsr_state(k + 255) == lfsr_state(k),
    decreases k,
{
    if k > 0 {
        lemma_lfsr_state_period((k - 1) as nat);
        assert(lfsr_state(k + 255) == lfsr_step(lfsr_state((k - 1 + 255) as nat)));
    }
}

/// The LFSR never reaches zero from a non-zero state, and every non-zero
/// state comes back after 255 steps.
pub proof fn lemma_lfsr_nonzero_period(r: u8)
    requires
        r != 0,
    ensures
        lfsr_step(r) != 0,
        lfsr_iter(r, 255) == r,
{
    assert(lfsr_step(r) != 0) by (bit_vector)
        requires
            r != 0,
    ;
    assert({
        &&& lfsr_state(0) == 1u8
        &&& lfsr_state(1) == 2u8
        &&& lfsr_state(2) == 4u8
        &&& lfsr_state(3) == 8u8
        &&& lfsr_state(4) == 16u8
        &&& lfsr_state(5) == 32u8
        &&& lfsr_state(6) == 64u8
        &&& lfsr_state(7) == 128u8
        &&& lfsr_state(8) == 113u8
        &&& lfsr_state(9) == 226u8
        &&& lfsr_state(10) == 181u8
        &&& lfsr_state(11) == 27u8
        &&& lfsr_state(12) == 54u8
        &&& lfsr_state(13) == 108u8
        &&& lfsr_state(14) == 216u8
        &&& lfsr_state(15) == 193u8
        &&& lfsr_state(16) == 243u8
        &&& lfsr_state(17) == 151u8
        &&& lfsr_state(18) == 95u8
        &&& lfsr_state(19) == 190u8
        &&& lfsr_state(20) == 13u8
        &&& lfsr_state(21) == 26u8
        &&& lfsr_state(22) == 52u8
        &&& lfsr_state(23) == 104u8
        &&& lfsr_state(24) == 208u8
        &&& lfsr_state(25) == 209u8
        &&& lfsr_state(26) == 211u8
        &&& lfsr_state(27) == 215u8
        &&& lfsr_state(28) == 223u8
        &&& lfsr_state(29) == 207u8
        &&& lfsr_state(30) == 239u8
        &&& lfsr_state(31) == 175u8
        &&& lfsr_state(32) == 47u8
        &&& lfsr_state(33) == 94u8
        &&& lfsr_state(34) == 188u8
        &&& lfsr_state(35) == 9u8
        &&& lfsr_state(36) == 18u8
        &&& lfsr_state(37) == 36u8
        &&& lfsr_state(38) == 72u8
        &&& lfsr_state(39) == 144u8
        &&& lfsr_state(40) == 81u8
        &&& lfsr_state(41) == 162u8
        &&& lfsr_state(42) == 53u8
        &&& lfsr_state(43) == 106u8
        &&& lfsr_state(44) == 212u8
        &&& lfsr_state(45) == 217u8
        &&& lfsr_state(46) == 195u8
        &&& lfsr_state(47) == 247u8
        &&& lfsr_state(48) == 159u8
        &&& lfsr_state(49) == 79u8
        &&& lfsr_state(50) == 158u8
        &&& lfsr_state(51) == 77u8
        &&& lfsr_state(52) == 154u8
        &&& lfsr_state(53) == 69u8
        &&& lfsr_state(54) == 138u8
        &&& lfsr_state(55) == 101u8
        &&& lfsr_state(56) == 202u8
        &&& lfsr_state(57) == 229u8
        &&& lfsr_state(58) == 187u8
        &&& lfsr_state(59) == 7u8
        &&& lfsr_state(60) == 14u8
        &&& lfsr_state(61) == 28u8
        &&& lfsr_state(62) == 56u8
        &&& lfsr_state(63) == 112u8
        &&& lfsr_state(64) == 224u8
        &&& lfsr_state(65) == 177u8
        &&& lfsr_state(66) == 19u8
        &&& lfsr_state(67) == 38u8
        &&& lfsr_state(68) == 76u8
        &&& lfsr_state(69) == 152u8
        &&& lfsr_state(70) == 65u8
        &&& lfsr_state(71) == 130u8
        &&& lfsr_state(72) == 117u8
        &&& lfsr_state(73) == 234u8
        &&& lfsr_state(74) == 165u8
        &&& lfsr_state(75) == 59u8
        &&& lfsr_state(76) == 118u8
        &&& lfsr_state(77) == 236u8
        &&& lfsr_state(78) == 169u8
        &&& lfsr_state(79) == 35u8
        &&& lfsr_state(80) == 70u8
        &&& lfsr_state(81) == 140u8
        &&& lfsr_state(82) == 105u8
        &&& lfsr_state(83) == 210u8
        &&& lfsr_state(84) == 213u8
        &&& lfsr_state(85) == 219u8
        &&& lfsr_state(86) == 199u8
        &&& lfsr_state(87) == 255u8
        &&& lfsr_state(88) == 143u8
        &&& lfsr_state(89) == 111u8
        &&& lfsr_state(90) == 222u8
        &&& lfsr_state(91) == 205u8
        &&& lfsr_state(92) == 235u8
        &&& lfsr_state(93) == 167u8
        &&& lfsr_state(94) == 63u8
        &&& lfsr_state(95) == 126u8
        &&& lfsr_state(96) == 252u8
        &&& lfsr_state(97) == 137u8
        &&& lfsr_state(98) == 99u8
        &&& lfsr_state(99) == 198u8
        &&& lfsr_state(100) == 253u8
        &&& lfsr_state(101) == 139u8
        &&& lfsr_state(102) == 103u8
        &&& lfsr_state(103) == 206u8
        &&& lfsr_state(104) == 237u8
        &&& lfsr_state(105) == 171u8
        &&& lfsr_state(106) == 39u8
        &&& lfsr_state(107) == 78u8
        &&& lfsr_state(108) == 156u8
        &&& lfsr_state(109) == 73u8
        &&& lfsr_state(110) == 146u8
        &&& lfsr_state(111) == 85u8
        &&& lfsr_state(112) == 170u8
        &&& lfsr_state(113) == 37u8
        &&& lfsr_state(114) == 74u8
        &&& lfsr_state(115) == 148u8
        &&& lfsr_state(116) == 89u8
        &&& lfsr_state(117) == 178u8
        &&& lfsr_state(118) == 21u8
        &&& lfsr_state(119) == 42u8
        &&& lfsr_state(120) == 84u8
        &&& lfsr_state(121) == 168u8
        &&& lfsr_state(122) == 33u8
        &&& lfsr_state(123) == 66u8
        &&& lfsr_state(124) == 132u8
        &&& lfsr_state(125) == 121u8
        &&& lfsr_state(126) == 242u8
        &&& lfsr_state(127) == 149u8
        &&& lfsr_state(128) == 91u8
        &&& lfsr_state(129) == 182u8
        &&& lfsr_state(130) == 29u8
        &&& lfsr_state(131) == 58u8
        &&& lfsr_state(132) == 116u8
        &&& lfsr_state(133) == 232u8
        &&& lfsr_state(134) == 161u8
        &&& lfsr_state(135) == 51u8
        &&& lfsr_state(136) == 102u8
        &&& lfsr_state(137) == 204u8
        &&& lfsr_state(138) == 233u8
        &&& lfsr_state(139) == 163u8
        &&& lfsr_state(140) == 55u8
        &&& lfsr_state(141) == 110u8
        &&& lfsr_state(142) == 220u8
        &&& lfsr_state(143) == 201u8
        &&& lfsr_state(144) == 227u8
        &&& lfsr_state(145) == 183u8
        &&& lfsr_state(146) == 31u8
        &&& lfsr_state(147) == 62u8
        &&& lfsr_state(148) == 124u8
        &&& lfsr_state(149) == 248u8
        &&& lfsr_state(150) == 129u8
        &&& lfsr_state(151) == 115u8
        &&& lfsr_state(152) == 230u8
        &&& lfsr_state(153) == 189u8
        &&& lfsr_state(154) == 11u8
        &&& lfsr_state(155) == 22u8
        &&& lfsr_state(156) == 44u8
        &&& lfsr_state(157) == 88u8
        &&& lfsr_state(158) == 176u8
        &&& lfsr_state(159) == 17u8
        &&& lfsr_state(160) == 34u8
        &&& lfsr_state(161) == 68u8
        &&& lfsr_state(162) == 136u8
        &&& lfsr_state(163) == 97u8
        &&& lfsr_state(164) == 194u8
        &&& lfsr_state(165) == 245u8
        &&& lfsr_state(166) == 155u8
        &&& lfsr_state(167) == 71u8
        &&& lfsr_state(168) == 142u8
        &&& lfsr_state(169) == 109u8
        &&& lfsr_state(170) == 218u8
        &&& lfsr_state(171) == 197u8
        &&& lfsr_state(172) == 251u8
        &&& lfsr_state(173) == 135u8
        &&& lfsr_state(174) == 127u8
        &&& lfsr_state(175) == 254u8
        &&& lfsr_state(176) == 141u8
        &&& lfsr_state(177) == 107u8
        &&& lfsr_state(178) == 214u8
        &&& lfsr_state(179) == 221u8
        &&& lfsr_state(180) == 203u8
        &&& lfsr_state(181) == 231u8
        &&& lfsr_state(182) == 191u8
        &&& lfsr_state(183) == 15u8
        &&& lfsr_state(184) == 30u8
        &&& lfsr_state(185) == 60u8
        &&& lfsr_state(186) == 120u8
        &&& lfsr_state(187) == 240u8
        &&& lfsr_state(188) == 145u8
        &&& lfsr_state(189) == 83u8
        &&& lfsr_state(190) == 166u8
        &&& lfsr_state(191) == 61u8
        &&& lfsr_state(192) == 122u8
        &&& lfsr_state(193) == 244u8
        &&& lfsr_state(194) == 153u8
        &&& lfsr_state(195) == 67u8
        &&& lfsr_state(196) == 134u8
        &&& lfsr_state(197) == 125u8
        &&& lfsr_state(198) == 250u8
        &&& lfsr_state(199) == 133u8
        &&& lfsr_state(200) == 123u8
        &&& lfsr_state(201) == 246u8
        &&& lfsr_state(202) == 157u8
        &&& lfsr_state(203) == 75u8
        &&& lfsr_state(204) == 150u8
        &&& lfsr_state(205) == 93u8
        &&& lfsr_state(206) == 186u8
        &&& lfsr_state(207) == 5u8
        &&& lfsr_state(208) == 10u8
        &&& lfsr_state(209) == 20u8
        &&& lfsr_state(210) == 40u8
        &&& lfsr_state(211) == 80u8
        &&& lfsr_state(212) == 160u8
        &&& lfsr_state(213) == 49u8
        &&& lfsr_state(214) == 98u8
        &&& lfsr_state(215) == 196u8
        &&& lfsr_state(216) == 249u8
        &&& lfsr_state(217) == 131u8
        &&& lfsr_state(218) == 119u8
        &&& lfsr_state(219) == 238u8
        &&& lfsr_state(220) == 173u8
        &&& lfsr_state(221) == 43u8
        &&& lfsr_state(222) == 86u8
        &&& lfsr_state(223) == 172u8
        &&& lfsr_state(224) == 41u8
        &&& lfsr_state(225) == 82u8
        &&& lfsr_state(226) == 164u8
        &&& lfsr_state(227) == 57u8
        &&& lfsr_state(228) == 114u8
        &&& lfsr_state(229) == 228u8
        &&& lfsr_state(230) == 185u8
        &&& lfsr_state(231) == 3u8
        &&& lfsr_state(232) == 6u8
        &&& lfsr_state(233) == 12u8
        &&& lfsr_state(234) == 24u8
        &&& lfsr_state(235) == 48u8
        &&& lfsr_state(236) == 96u8
        &&& lfsr_state(237) == 192u8
        &&& lfsr_state(238) == 241u8
        &&& lfsr_state(239) == 147u8
        &&& lfsr_state(240) == 87u8
        &&& lfsr_state(241) == 174u8
        &&& lfsr_state(242) == 45u8
        &&& lfsr_state(243) == 90u8
        &&& lfsr_state(244) == 180u8
        &&& lfsr_state(245) == 25u8
        &&& lfsr_state(246) == 50u8
        &&& lfsr_state(247) == 100u8
        &&& lfsr_state(248) == 200u8
        &&& lfsr_state(249) == 225u8
        &&& lfsr_state(250) == 179u8
        &&& lfsr_state(251) == 23u8
        &&& lfsr_state(252) == 46u8
        &&& lfsr_state(253) == 92u8
        &&& lfsr_state(254) == 184u8
        &&& lfsr_state(255) == 1u8
    }) by (bit_vector);
    assert({
        ||| r == lfsr_state(0)
        ||| r == lfsr_state(1)
        ||| r == lfsr_state(2)
        ||| r == lfsr_state(3)
        ||| r == lfsr_state(4)
        ||| r == lfsr_state(5)
        ||| r == lfsr_state(6)
        ||| r == lfsr_state(7)
        ||| r == lfsr_state(8)
        ||| r == lfsr_state(9)
        ||| r == lfsr_state(10)
        ||| r == lfsr_state(11)
        ||| r == lfsr_state(12)
        ||| r == lfsr_state(13)
        ||| r == lfsr_state(14)
        ||| r == lfsr_state(15)
        ||| r == lfsr_state(16)
        ||| r == lfsr_state(17)
        ||| r == lfsr_state(18)
        ||| r == lfsr_state(19)
        ||| r == lfsr_state(20)
        ||| r == lfsr_state(21)
        ||| r == lfsr_state(22)
        ||| r == lfsr_state(23)
        ||| r == lfsr_state(24)
        ||| r == lfsr_state(25)
        ||| r == lfsr_state(26)
        ||| r == lfsr_state(27)
        ||| r == lfsr_state(28)
        ||| r == lfsr_state(29)
        ||| r == lfsr_state(30)
        ||| r == lfsr_state(31)
        ||| r == lfsr_state(32)
        ||| r == lfsr_state(33)
        ||| r == lfsr_state(34)
        ||| r == lfsr_state(35)
        ||| r == lfsr_state(36)
        ||| r == lfsr_state(37)
        ||| r == lfsr_state(38)
        ||| r == lfsr_state(39)
        ||| r == lfsr_state(40)
        ||| r == lfsr_state(41)
        ||| r == lfsr_state(42)
        ||| r == lfsr_state(43)
        ||| r == lfsr_state(44)
        ||| r == lfsr_state(45)
        ||| r == lfsr_state(46)
        ||| r == lfsr_state(47)
        ||| r == lfsr_state(48)
        ||| r == lfsr_state(49)
        ||| r == lfsr_state(50)
        ||| r == lfsr_state(51)
        ||| r == lfsr_state(52)
        ||| r == lfsr_state(53)
        ||| r == lfsr_state(54)
        ||| r == lfsr_state(55)
        ||| r == lfsr_state(56)
        ||| r == lfsr_state(57)
        ||| r == lfsr_state(58)
        ||| r == lfsr_state(59)
        ||| r == lfsr_state(60)
        ||| r == lfsr_state(61)
        ||| r == lfsr_state(62)
        ||| r == lfsr_state(63)
        ||| r == lfsr_state(64)
        ||| r == lfsr_state(65)
        ||| r == lfsr_state(66)
        ||| r == lfsr_state(67)
        ||| r == lfsr_state(68)
        ||| r == lfsr_state(69)
        ||| r == lfsr_state(70)
        ||| r == lfsr_state(71)
        ||| r == lfsr_state(72)
        ||| r == lfsr_state(73)
        ||| r == lfsr_state(74)
        ||| r == lfsr_state(75)
        ||| r == lfsr_state(76)
        ||| r == lfsr_state(77)
        ||| r == lfsr_state(78)
        ||| r == lfsr_state(79)
        ||| r == lfsr_state(80)
        ||| r == lfsr_state(81)
        ||| r == lfsr_state(82)
        ||| r == lfsr_state(83)
        ||| r == lfsr_state(84)
        ||| r == lfsr_state(85)
        ||| r == lfsr_state(86)
        ||| r == lfsr_state(87)
        ||| r == lfsr_state(88)
        ||| r == lfsr_state(89)
        ||| r == lfsr_state(90)
        ||| r == lfsr_state(91)
        ||| r == lfsr_state(92)
        ||| r == lfsr_state(93)
        ||| r == lfsr_state(94)
        ||| r == lfsr_state(95)
        ||| r == lfsr_state(96)
        ||| r == lfsr_state(97)
        ||| r == lfsr_state(98)
        ||| r == lfsr_state(99)
        ||| r == lfsr_state(100)
        ||| r == lfsr_state(101)
        ||| r == lfsr_state(102)
        ||| r == lfsr_state(103)
        ||| r == lfsr_state(104)
        ||| r == lfsr_state(105)
        ||| r == lfsr_state(106)
        ||| r == lfsr_state(107)
        ||| r == lfsr_state(108)
        ||| r == lfsr_state(109)
        ||| r == lfsr_state(110)
        ||| r == lfsr_state(111)
        ||| r == lfsr_state(112)
        ||| r == lfsr_state(113)
        ||| r == lfsr_state(114)
        ||| r == lfsr_state(115)
        ||| r == lfsr_state(116)
        ||| r == lfsr_state(117)
        ||| r == lfsr_state(118)
        ||| r == lfsr_state(119)
        ||| r == lfsr_state(120)
        ||| r == lfsr_state(121)
        ||| r == lfsr_state(122)
        ||| r == lfsr_state(123)
        ||| r == lfsr_state(124)
        ||| r == lfsr_state(125)
        ||| r == lfsr_state(126)
        ||| r == lfsr_state(127)
        ||| r == lfsr_state(128)
        ||| r == lfsr_state(129)
        ||| r == lfsr_state(130)
        ||| r == lfsr_state(131)
        ||| r == lfsr_state(132)
        ||| r == lfsr_state(133)
        ||| r == lfsr_state(134)
        ||| r == lfsr_state(135)
        ||| r == lfsr_state(136)
        ||| r == lfsr_state(137)
        ||| r == lfsr_state(138)
        ||| r == lfsr_state(139)
        ||| r == lfsr_state(140)
        ||| r == lfsr_state(141)
        ||| r == lfsr_state(142)
        ||| r == lfsr_state(143)
        ||| r == lfsr_state(144)
        ||| r == lfsr_state(145)
        ||| r == lfsr_state(146)
        ||| r == lfsr_state(147)
        ||| r == lfsr_state(148)
        ||| r == lfsr_state(149)
        ||| r == lfsr_state(150)
        ||| r == lfsr_state(151)
        ||| r == lfsr_state(152)
        ||| r == lfsr_state(153)
        ||| r == lfsr_state(154)
        ||| r == lfsr_state(155)
        ||| r == lfsr_state(156)
        ||| r == lfsr_state(157)
        ||| r == lfsr_state(158)
        ||| r == lfsr_state(159)
        ||| r == lfsr_state(160)
        ||| r == lfsr_state(161)
        ||| r == lfsr_state(162)
        ||| r == lfsr_state(163)
        ||| r == lfsr_state(164)
        ||| r == lfsr_state(165)
        ||| r == lfsr_state(166)
        ||| r == lfsr_state(167)
        ||| r == lfsr_state(168)
        ||| r == lfsr_state(169)
        ||| r == lfsr_state(170)
        ||| r == lfsr_state(171)
        ||| r == lfsr_state(172)
        ||| r == lfsr_state(173)
        ||| r == lfsr_state(174)
        ||| r == lfsr_state(175)
        ||| r == lfsr_state(176)
        ||| r == lfsr_state(177)
        ||| r == lfsr_state(178)
        ||| r == lfsr_state(179)
        ||| r == lfsr_state(180)
        ||| r == lfsr_state(181)
        ||| r == lfsr_state(182)
        ||| r == lfsr_state(183)
        ||| r == lfsr_state(184)
        ||| r == lfsr_state(185)
        ||| r == lfsr_state(186)
        ||| r == lfsr_state(187)
        ||| r == lfsr_state(188)
        ||| r == lfsr_state(189)
        ||| r == lfsr_state(190)
        ||| r == lfsr_state(191)
        ||| r == lfsr_state(192)
        ||| r == lfsr_state(193)
        ||| r == lfsr_state(194)
        ||| r == lfsr_state(195)
        ||| r == lfsr_state(196)
        ||| r == lfsr_state(197)
        ||| r == lfsr_state(198)
        ||| r == lfsr_state(199)
        ||| r == lfsr_state(200)
        ||| r == lfsr_state(201)
        ||| r == lfsr_state(202)
        ||| r == lfsr_state(203)
        ||| r == lfsr_state(204)
        ||| r == lfsr_state(205)
        ||| r == lfsr_state(206)
        ||| r == lfsr_state(207)
        ||| r == lfsr_state(208)
        ||| r == lfsr_state(209)
        ||| r == lfsr_state(210)
        ||| r == lfsr_state(211)
        ||| r == lfsr_state(212)
        ||| r == lfsr_state(213)
        ||| r == lfsr_state(214)
        ||| r == lfsr_state(215)
        ||| r == lfsr_state(216)
        ||| r == lfsr_state(217)
        ||| r == lfsr_state(218)
        ||| r == lfsr_state(219)
        ||| r == lfsr_state(220)
        ||| r == lfsr_state(221)
        ||| r == lfsr_state(222)
        ||| r == lfsr_state(223)
        ||| r == lfsr_state(224)
        ||| r == lfsr_state(225)
        ||| r == lfsr_state(226)
        ||| r == lfsr_state(227)
        ||| r == lfsr_state(228)
        ||| r == lfsr_state(229)
        ||| r == lfsr_state(230)
        ||| r == lfsr_state(231)
        ||| r == lfsr_state(232)
        ||| r == lfsr_state(233)
        ||| r == lfsr_state(234)
        ||| r == lfsr_state(235)
        ||| r == lfsr_state(236)
        ||| r == lfsr_state(237)
        ||| r == lfsr_state(238)
        ||| r == lfsr_state(239)
        ||| r == lfsr_state(240)
        ||| r == lfsr_state(241)
        ||| r == lfsr_state(242)
        ||| r == lfsr_state(243)
        ||| r == lfsr_state(244)
        ||| r == lfsr_state(245)
        ||| r == lfsr_state(246)
        ||| r == lfsr_state(247)
        ||| r == lfsr_state(248)
        ||| r == lfsr_state(249)
        ||| r == lfsr_state(250)
        ||| r == lfsr_state(251)
        ||| r == lfsr_state(252)
        ||| r == lfsr_state(253)
        ||| r == lfsr_state(254)
    });
    let k = choose|k: nat| k < 255 && r == lfsr_state(k);
    lemma_lfsr_iter_state(k, 255);
    lemma_lfsr_state_period(k);
}

/// Round constant `i` built from its first `j` LFSR bits: bit `j'` of the
/// LFSR output `7i + j'` goes to lane bit `2^j' - 1`.
pub open spec fn rc_from_lfsr(i: nat, j: nat) -> u64
    decreases j,
{
    if j == 0 {
        0
    } else {
        let prev = rc_from_lfsr(i, (j - 1) as nat);
        if lfsr_state((7 * i + j - 1) as nat) & 1 != 0 {
            prev ^ (1u64 << (((1u64 << ((j - 1) as u64)) - 1) as u64))
        } else {
            prev
        }
    }
}

/// The 24 round constants that the LFSR defines.
pub open spec fn lfsr_round_constants() -> Seq<u64> {
    Seq::new(24, |i: int| rc_from_lfsr(i as nat, 7))
}

/// The round-constant table is the one that the LFSR defines.
pub proof fn lemma_round_constants_from_lfsr()
    ensures
        RC@ == lfsr_round_constants(),
{
    assert({
        &&& rc_from_lfsr(0, 7) == 0x0000000000000001u64
        &&& rc_from_lfsr(1, 7) == 0x0000000000008082u64
        &&& rc_from_lfsr(2, 7) == 0x800000000000808Au64
        &&& rc_from_lfsr(3, 7) == 0x8000000080008000u64
        &&& rc_from_lfsr(4, 7) == 0x000000000000808Bu64
        &&& rc_from_lfsr(5, 7) == 0x0000000080000001u64
        &&& rc_from_lfsr(6, 7) == 0x8000000080008081u64
        &&& rc_from_lfsr(7, 7) == 0x8000000000008009u64
        &&& rc_from_lfsr(8, 7) == 0x000000000000008Au64
        &&& rc_from_lfsr(9, 7) == 0x0000000000000088u64
        &&& rc_from_lfsr(10, 7) == 0x0000000080008009u64
        &&& rc_from_lfsr(11, 7) == 0x000000008000000Au64
        &&& rc_from_lfsr(12, 7) == 0x000000008000808Bu64
        &&& rc_from_lfsr(13, 7) == 0x800000000000008Bu64
        &&& rc_from_lfsr(14, 7) == 0x8000000000008089u64
        &&& rc_from_lfsr(15, 7) == 0x8000000000008003u64
        &&& rc_from_lfsr(16, 7) == 0x8000000000008002u64
        &&& rc_from_lfsr(17, 7) == 0x8000000000000080u64
        &&& rc_from_lfsr(18, 7) == 0x000000000000800Au64
        &&& rc_from_lfsr(19, 7) == 0x800000008000000Au64
        &&& rc_from_lfsr(20, 7) == 0x8000000080008081u64
        &&& rc_from_lfsr(21, 7) == 0x8000000000008080u64
        &&& rc_from_lfsr(22, 7) == 0x0000000080000001u64
        &&& rc_from_lfsr(23, 7) == 0x8000000080008008u64
    }) by (bit_vector);
    assert(RC@ =~= lfsr_round_constants());
}

/// Steps the round-constant LFSR, returning the bit it outputs (the low bit
/// of the state before the step).
pub fn keccak_lfsr_next_bit(r: &mut u8) -> (bit: u64)
    ensures
        bit == (*old(r) & 1) as u64,
        *final(r) == lfsr_step(*old(r)),
{
    let bit = (*r & 1) as u64;
    if (*r & 0x80) != 0 {
        *r = (*r << 1u8) ^ 0x71;
    } else {
        *r = *r << 1u8;
    }
    bit
}

/// Flips bit `position` of `rc` when `bit` is set.
pub fn rc_if_bit_set(rc: &mut u64, bit: u64, position: usize)
    requires
        bit != 0 ==> position < 64,
    ensures
        *final(rc) == (if bit != 0 {
            *old(rc) ^ (1u64 << (position as u64))
        } else {
            *old(rc)
        }),
{
    if bit != 0 {
        *rc = *rc ^ (1u64 << position);
    }
}

/// Derives the 24 Keccak-f[1600] round constants by running the LFSR.
pub fn spec_round_constants() -> (r: [u64; 24])
    ensures
        r@ == lfsr_round_constants(),
{
    let mut constants = [0u64; 24];
    let mut lfsr = 0x01u8;
    let mut i: usize = 0;
    while i < 24
        invariant
            i <= 24,
            lfsr == lfsr_state((7 * i) as nat),
            forall|k: int| 0 <= k < i ==> #[trigger] constants@[k] == rc_from_lfsr(k as nat, 7),
        decreases 24 - i,
    {
        let mut rc: u64 = 0;
        let mut j: usize = 0;
        while j <= 6
            invariant
                i < 24,
                j <= 7,
                lfsr == lfsr_state((7 * i + j) as nat),
                rc == rc_from_lfsr(i as nat, j as nat),
            decreases 7 - j,
        {
            let bit = keccak_lfsr_next_bit(&mut lfsr);
            assert(1usize << j >= 1 && ((1usize << j) - 1) < 64 && ((1usize << j) - 1) as u64 == (((
            1u64 << (j as u64)) - 1) as u64)) by (bit_vector)
                requires
                    j <= 6,
            ;
            rc_if_bit_set(&mut rc, bit, (1usize << j) - 1);
            j += 1;
        }
        constants[i] = rc;
        i += 1;
    }
    assert(constants@ =~= lfsr_round_constants());
    constants
}

/// Rotation offsets of the rho step, `RHO[x][y]` for lane `(x, y)`.
pub const RHO: [[u32; 5]; 5] = [
    [0, 36, 3, 41, 18],
    [1, 44, 10, 45, 2],
    [62, 6, 43, 15, 61],
    [28, 55, 25, 21, 56],
    [27, 20, 39, 8, 14],
];

/// Where the pi step sends lane `k = x + 5y`: to `(y, 2x + 3y)`.
pub open spec fn pi_dest(k: int) -> int {
    k / 5 + 5 * ((2 * (k % 5) + 3 * (k / 5)) % 5)
}

/// The rho table, read by `(x, y)`, holds the rotation of lane `x + 5y`.
proof fn lemma_rho_table(x: int, y: int)
    requires
        0 <= x < 5,
        0 <= y < 5,
    ensures
        RHO[x][y] as u64 == rho_offset(x + 5 * y),
        RHO[x][y] < 64,
{
    if x == 0 {
    } else if x == 1 {
    } else if x == 2 {
    } else if x == 3 {
    } else {
    }
}

/// `pi_dest` and `pi_source` are inverse permutations of the 25 lanes.
proof fn lemma_pi_bijection()
    ensures
        forall|k: int|
            0 <= k < 25 ==> 0 <= #[trigger] pi_dest(k) < 25 && pi_source(pi_dest(k)) == k,
        forall|i: int| 0 <= i < 25 ==> #[trigger] pi_dest(pi_source(i)) == i,
{
    assert forall|k: int| 0 <= k < 25 implies 0 <= #[trigger] pi_dest(k) < 25 && pi_source(
        pi_dest(k),
    ) == k by {
        if k < 5 {
        } else if k < 10 {
        } else if k < 15 {
        } else if k < 20 {
        } else {
        }
    }
    assert forall|i: int| 0 <= i < 25 implies #[trigger] pi_dest(pi_source(i)) == i by {
        if i < 5 {
        } else if i < 10 {
        } else if i < 15 {
        } else if i < 20 {
        } else {
        }
    }
}

/// Applies Keccak-f[1600] to `s` one step mapping at a time, with
/// round constants from `spec_round_constants`.
pub fn keccak_f1600_ref(s: &mut [u64; 25])
    ensures
        final(s)@ == keccak_f(old(s)@),
{
    let round_constants = spec_round_constants();
    proof {
        lemma_round_constants_from_lfsr();
        lemma_pi_bijection();
    }
    let ghost s0 = s@;
    let mut r: usize = 0;
    while r < 24
        invariant
            r <= 24,
            round_constants@ == RC@,
            s0 == old(s)@,
            s@ == keccak_rounds(s0, r as nat),
            forall|k: int|
                0 <= k < 25 ==> 0 <= #[trigger] pi_dest(k) < 25 && pi_source(pi_dest(k)) == k,
            forall|i: int| 0 <= i < 25 ==> #[trigger] pi_dest(pi_source(i)) == i,
        decreases 24 - r,
    {
        let rc = round_constants[r];
        let ghost start = s@;
        let mut c = [0u64; 5];
        let mut x: usize = 0;
        while x < 5
            invariant
                x <= 5,
                s@ == start,
                start.len() == 25,
                forall|k: int| 0 <= k < x ==> #[trigger] c@[k] == column_parity(start, k),
            decreases 5 - x,
        {
            c[x] = s[x] ^ s[x + 5] ^ s[x + 10] ^ s[x + 15] ^ s[x + 20];
            x += 1;
        }
        let mut d = [0u64; 5];
        let mut x: usize = 0;
        while x < 5
            invariant
                x <= 5,
                forall|k: int| 0 <= k < 5 ==> #[trigger] c@[k] == column_parity(start, k),
                forall|k: int| 0 <= k < x ==> #[trigger] d@[k] == theta_effect(start, k),
            decreases 5 - x,
        {
            d[x] = c[(x + 4) % 5] ^ rotl64(c[(x + 1) % 5], 1);
            x += 1;
        }
        let mut y: usize = 0;
        while y < 5
            invariant
                y <= 5,
                start.len() == 25,
                s@.len() == 25,
                forall|k: int| 0 <= k < 5 ==> #[trigger] d@[k] == theta_effect(start, k),
                forall|k: int| 0 <= k < 5 * y ==> #[trigger] s@[k] == start[k] ^ d@[k % 5],
                forall|k: int| 5 * y <= k < 25 ==> #[trigger] s@[k] == start[k],
            decreases 5 - y,
        {
            let mut x: usize = 0;
            while x < 5
                invariant
                    y < 5,
                    x <= 5,
                    start.len() == 25,
                    s@.len() == 25,
                    forall|k: int| 0 <= k < 5 * y + x ==> #[trigger] s@[k] == start[k] ^ d@[k % 5],
                    forall|k: int| 5 * y + x <= k < 25 ==> #[trigger] s@[k] == start[k],
                decreases 5 - x,
            {
                s[x + 5 * y] = s[x + 5 * y] ^ d[x];
                x += 1;
            }
            y += 1;
        }
        let ghost th = s@;
        assert(th =~= theta(start));
        let mut b = [0u64; 25];
        let mut y: usize = 0;
        while y < 5
            invariant
                y <= 5,
                s@ == th,
                th.len() == 25,
                forall|k: int|
                    0 <= k < 25 ==> 0 <= #[trigger] pi_dest(k) < 25 && pi_source(pi_dest(k)) == k,
                forall|k: int|
                    0 <= k < 5 * y ==> #[trigger] b@[pi_dest(k)] == rotl(th[k], rho_offset(k)),
            decreases 5 - y,
        {
            let mut x: usize = 0;
            while x < 5
                invariant
                    y < 5,
                    x <= 5,
                    s@ == th,
                    th.len() == 25,
                    forall|k: int|
                        0 <= k < 25 ==> 0 <= #[trigger] pi_dest(k) < 25 && pi_source(pi_dest(k))
                            == k,
                    forall|k: int|
                        0 <= k < 5 * y + x ==> #[trigger] b@[pi_dest(k)] == rotl(
                            th[k],
                            rho_offset(k),
                        ),
                decreases 5 - x,
            {
                proof {
                    lemma_rho_table(x as int, y as int);
                    assert(pi_dest((x + 5 * y) as int) == y + 5 * ((2 * x + 3 * y) % 5));
                }
                let v = rotl64(s[x + 5 * y], RHO[x][y] as u64);
                b[y + 5 * ((2 * x + 3 * y) % 5)] = v;
                proof {
                    assert forall|k: int| 0 <= k < 5 * y + x + 1 implies #[trigger] b@[pi_dest(k)]
                        == rotl(th[k], rho_offset(k)) by {
                        if k < 5 * y + x {
                            assert(pi_source(pi_dest(k)) != pi_source(pi_dest((x + 5 * y) as int)));
                        }
                    }
                }
                x += 1;
            }
            y += 1;
        }
        assert forall|i: int| 0 <= i < 25 implies #[trigger] b@[i] == rho_pi(th)[i] by {
            let k = pi_source(i);
            assert(0 <= k < 25);
            assert(b@[pi_dest(k)] == rotl(th[k], rho_offset(k)));
        }
        assert(b@ =~= rho_pi(th));
        let mut y: usize = 0;
        while y < 5
            invariant
                y <= 5,
                s@.len() == 25,
                b@.len() == 25,
                forall|k: int| 0 <= k < 5 * y ==> #[trigger] s@[k] == chi(b@)[k],
            decreases 5 - y,
        {
            let mut x: usize = 0;
            while x < 5
                invariant
                    y < 5,
                    x <= 5,
                    s@.len() == 25,
                    b@.len() == 25,
                    forall|k: int| 0 <= k < 5 * y + x ==> #[trigger] s@[k] == chi(b@)[k],
                decreases 5 - x,
            {
                s[x + 5 * y] = b[x + 5 * y] ^ (!b[(x + 1) % 5 + 5 * y] & b[(x + 2) % 5 + 5 * y]);
                proof {
                    let k = (x + 5 * y) as int;
                    assert(k % 5 == x && k - k % 5 == 5 * y);
                }
                x += 1;
            }
            y += 1;
        }
        assert(s@ =~= chi(b@));
        s[0] = s[0] ^ rc;
        assert(s@ =~= keccak_round(start, RC[r as int]));
        r += 1;
    }
}

} // verus!
