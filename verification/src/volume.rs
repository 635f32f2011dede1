//! The volume/balance numeric model.
//!
//! User-facing volume runs from 0 to 100 (100 loudest) and balance from
//! -100 to 100.  A negative balance boosts the right channel's input value
//! by its magnitude, saturating at 100; a positive balance reduces the left
//! channel's input value, saturating at 0.  Each per-channel value is then
//! mapped, inverted and rounded to the nearest step, onto the hardware
//! range 0x00 (loudest) to 0xFE (quietest), and the two bytes are packed
//! as `left << 8 | right`.

use vstd::prelude::*;

verus! {

/// The left channel's 0..=100 input value after the balance skew:
/// a positive balance reduces it, saturating at 0.
pub open spec fn spec_left_input(vol: u8, balance: i8) -> int {
    if balance > 0 {
        if vol >= balance {
            vol - balance
        } else {
            0
        }
    } else {
        vol as int
    }
}

/// The right channel's 0..=100 input value after the balance skew:
/// a negative balance boosts it by its magnitude, saturating at 100.
pub open spec fn spec_right_input(vol: u8, balance: i8) -> int {
    if balance < 0 {
        if vol + (-(balance as int)) > 100 {
            100
        } else {
            vol + (-(balance as int))
        }
    } else {
        vol as int
    }
}

/// The inverted linear map from a 0..=100 input value onto the hardware's
/// 0xFE (quietest) to 0x00 (loudest) attenuation range, rounded to the
/// nearest hardware step: `round((100 - x) / 100 * 0xFE)`.
pub open spec fn spec_hw_byte(x: int) -> int {
    (254 * (100 - x) + 50) / 100
}

/// Both channel bytes for a volume and balance setting.
pub open spec fn spec_volume_pair(vol: u8, balance: i8) -> (int, int) {
    (spec_hw_byte(spec_left_input(vol, balance)), spec_hw_byte(spec_right_input(vol, balance)))
}

/// The 16-bit word written to the volume register: left byte high, right
/// byte low.
pub open spec fn spec_volume_word(vol: u8, balance: i8) -> int {
    spec_volume_pair(vol, balance).0 * 256 + spec_volume_pair(vol, balance).1
}

/// Both channel bytes lie in the hardware range 0x00..=0xFE, for every
/// volume in 0..=100 and balance in -100..=100.
pub proof fn lemma_volume_pair_bounded(vol: u8, balance: i8)
    requires
        vol <= 100,
        -100 <= balance <= 100,
    ensures
        0 <= spec_volume_pair(vol, balance).0 <= 0xFE,
        0 <= spec_volume_pair(vol, balance).1 <= 0xFE,
        0 <= spec_volume_word(vol, balance) <= 0xFEFE,
{
    lemma_hw_byte_bounded(spec_left_input(vol, balance));
    lemma_hw_byte_bounded(spec_right_input(vol, balance));
}

/// The inverted linear map never gets louder as its input falls.
pub proof fn lemma_hw_byte_antitone(a: int, b: int)
    requires
        0 <= a <= b <= 100,
    ensures
        spec_hw_byte(a) >= spec_hw_byte(b),
{
    assert(254 * (100 - b) <= 254 * (100 - a)) by (nonlinear_arith)
        requires a <= b;
    assert((254 * (100 - b) + 50) / 100 <= (254 * (100 - a) + 50) / 100) by (nonlinear_arith)
        requires 254 * (100 - b) <= 254 * (100 - a) && 0 <= 254 * (100 - b);
}

/// The balance skew only ever leaves the left channel at least as quiet
/// as the right: a positive balance cuts the left channel's input, a
/// negative one boosts the right channel's, and either way the left
/// channel's hardware byte is at least the right channel's.
pub proof fn lemma_balance_skew_direction(vol: u8, balance: i8)
    requires
        vol <= 100,
        -100 <= balance <= 100,
    ensures
        spec_volume_pair(vol, balance).0 >= spec_volume_pair(vol, balance).1,
{
    lemma_hw_byte_antitone(spec_left_input(vol, balance), spec_right_input(vol, balance));
}

/// The inverted linear map stays within 0x00..=0xFE on 0..=100 inputs.
pub proof fn lemma_hw_byte_bounded(x: int)
    requires
        0 <= x <= 100,
    ensures
        0 <= spec_hw_byte(x) <= 0xFE,
{
    assert(0 <= 254 * (100 - x) <= 25400) by (nonlinear_arith)
        requires 0 <= x <= 100;
    assert(0 <= (254 * (100 - x) + 50) / 100 <= 254) by (nonlinear_arith)
        requires 0 <= 254 * (100 - x) <= 25400;
}

/// The inverted linear map of a 0..=100 input value, as executed.
pub fn hw_byte(x: u8) -> (r: u8)
    requires
        x <= 100,
    ensures
        r == spec_hw_byte(x as int),
        r <= 0xFE,
{
    proof {
        lemma_hw_byte_bounded(x as int);
    }
    let scaled: u16 = 254u16 * ((100 - x) as u16) + 50;
    (scaled / 100u16) as u8
}

/// Both channel bytes for a volume and balance setting, as executed.
pub fn volume_model(vol: u8, balance: i8) -> (r: (u8, u8))
    requires
        vol <= 100,
        -100 <= balance <= 100,
    ensures
        r.0 == spec_volume_pair(vol, balance).0,
        r.1 == spec_volume_pair(vol, balance).1,
        r.0 <= 0xFE,
        r.1 <= 0xFE,
{
    let mut left_in: u8 = vol;
    let mut right_in: u8 = vol;
    if balance < 0 {
        let boost: u8 = (0i16 - (balance as i16)) as u8;
        let sum: u16 = (vol as u16) + (boost as u16);
        right_in = if sum > 100 {
            100
        } else {
            sum as u8
        };
    } else if balance > 0 {
        let cut: u8 = balance as u8;
        left_in = if vol > cut {
            vol - cut
        } else {
            0
        };
    }
    (hw_byte(left_in), hw_byte(right_in))
}

/// The packed volume-register word, as executed.
pub fn volume_word(vol: u8, balance: i8) -> (w: u16)
    requires
        vol <= 100,
        -100 <= balance <= 100,
    ensures
        w == spec_volume_word(vol, balance),
{
    let (left, right) = volume_model(vol, balance);
    proof {
        lemma_volume_pair_bounded(vol, balance);
    }
    pack_word(left, right)
}

/// Packs two bytes into a 16-bit word, high byte first.
pub fn pack_word(hi: u8, lo: u8) -> (w: u16)
    ensures
        w == hi * 256 + lo,
{
    let h: u16 = hi as u16;
    let l: u16 = lo as u16;
    assert((h << 8u16) | l == h * 256 + l) by (bit_vector)
        requires h < 256 && l < 256;
    (h << 8u16) | l
}

} // verus!
