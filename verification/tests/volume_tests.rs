use vs1053::driver::VS1053;
use vs1053::sim::SimPort;
use vs1053::volume::{hw_byte, pack_word, volume_model, volume_word};

#[test]
fn volume_model_bytes_stay_in_hardware_range() {
    let mut v: i32 = 0;
    while v <= 100 {
        let mut b: i32 = -100;
        while b <= 100 {
            let (left, right) = volume_model(v as u8, b as i8);
            assert!(left <= 0xFE);
            assert!(right <= 0xFE);
            b += 7;
        }
        v += 3;
    }
}

#[test]
fn volume_model_is_deterministic() {
    let first = volume_model(73, -19);
    let second = volume_model(73, -19);
    assert_eq!(first, second);
}

#[test]
fn full_volume_centered_is_loudest_on_both_channels() {
    let (left, right) = volume_model(100, 0);
    assert_eq!(left, 0x00);
    assert_eq!(right, 0x00);
}

#[test]
fn zero_volume_centered_is_quietest_on_both_channels() {
    let (left, right) = volume_model(0, 0);
    assert_eq!(left, 0xFE);
    assert_eq!(right, 0xFE);
}

#[test]
fn full_right_balance_attenuates_left_channel() {
    let (left, right) = volume_model(50, 100);
    assert!(left > right);
}

#[test]
fn full_negative_balance_boosts_the_right_channel() {
    // A negative balance boosts the right channel's input, saturating at
    // 100, so the right channel's byte drops to the loudest setting.
    let (left, right) = volume_model(50, -100);
    assert_eq!(right, 0x00);
    assert!(left > right);
}

#[test]
fn balance_above_range_clamps_to_100() {
    let port = SimPort::new(true, 0);
    let mut dsp = VS1053::new(port);
    dsp.set_balance(150);
    assert_eq!(dsp.get_balance(), 100);
}

#[test]
fn balance_below_range_clamps_to_minus_100() {
    let port = SimPort::new(true, 0);
    let mut dsp = VS1053::new(port);
    dsp.set_balance(-150);
    assert_eq!(dsp.get_balance(), -100);
}

#[test]
fn balance_in_range_is_stored_unchanged() {
    let port = SimPort::new(true, 0);
    let mut dsp = VS1053::new(port);
    dsp.set_balance(-37);
    assert_eq!(dsp.get_balance(), -37);
    dsp.set_balance(82);
    assert_eq!(dsp.get_balance(), 82);
}

#[test]
fn hw_byte_matches_the_rounded_inverted_map() {
    assert_eq!(hw_byte(0), 0xFE);
    assert_eq!(hw_byte(100), 0x00);
    assert_eq!(hw_byte(50), 127);
    assert_eq!(hw_byte(80), 51);
    // round((100 - 33) / 100 * 0xFE) = round(170.18) = 170
    assert_eq!(hw_byte(33), 170);
    // round((100 - 75) / 100 * 0xFE) = round(63.5) = 64
    assert_eq!(hw_byte(75), 64);
}

#[test]
fn pack_word_puts_left_high_and_right_low() {
    assert_eq!(pack_word(0xAB, 0xCD), 0xABCD);
    assert_eq!(pack_word(0, 0xFE), 0x00FE);
}

#[test]
fn volume_word_packs_the_model_bytes() {
    let (left, right) = volume_model(60, 25);
    assert_eq!(volume_word(60, 25), ((left as u16) << 8) | right as u16);
}
