use vs1053::driver::{ProbeSpeed, VS1053, SCI_MODE, SCI_VOL};
use vs1053::sim::{RecordedOp, SimPort};

fn reg_write_count(ops: &Vec<RecordedOp>, reg: u8) -> usize {
    let mut count = 0;
    for op in ops {
        if let RecordedOp::SpiOut { bytes, .. } = op {
            if bytes.len() == 4 && bytes[0] == 0x02 && bytes[1] == reg {
                count += 1;
            }
        }
    }
    count
}

fn reg_read_count(ops: &Vec<RecordedOp>, reg: u8) -> usize {
    let mut count = 0;
    for op in ops {
        if let RecordedOp::SpiInOut { c0, c1, .. } = op {
            if *c0 == 0x03 && *c1 == reg {
                count += 1;
            }
        }
    }
    count
}

#[test]
fn self_test_fails_fast_when_the_ready_line_is_silent() {
    let port = SimPort::new(false, 0);
    let mut dsp = VS1053::new(port);
    assert!(!dsp.test_comm(ProbeSpeed::SlowProbe));
    assert_eq!(reg_write_count(dsp.port().recorded(), SCI_VOL), 0);
    assert_eq!(dsp.port().recorded().len(), 1);
}

#[test]
fn self_test_aborts_after_exactly_20_mismatched_steps() {
    let mut port = SimPort::new(true, 0);
    port.response_default = 0xBEEF;
    let mut dsp = VS1053::new(port);
    assert!(!dsp.test_comm(ProbeSpeed::SlowProbe));
    assert_eq!(reg_write_count(dsp.port().recorded(), SCI_VOL), 20);
    assert_eq!(reg_read_count(dsp.port().recorded(), SCI_VOL), 40);
}

#[test]
fn self_test_passes_when_every_step_reads_back_clean() {
    let mut port = SimPort::new(true, 0);
    let mut value: u32 = 0;
    while value < 0xFFFF {
        port.queue_response(value as u16);
        port.queue_response(value as u16);
        value += 300;
    }
    let mut dsp = VS1053::new(port);
    assert!(dsp.test_comm(ProbeSpeed::SlowProbe));
    assert_eq!(reg_write_count(dsp.port().recorded(), SCI_VOL), 219);
}

#[test]
fn self_test_fails_on_a_single_unstable_readback() {
    let mut port = SimPort::new(true, 0);
    let mut value: u32 = 0;
    while value < 0xFFFF {
        port.queue_response(value as u16);
        if value == 600 {
            port.queue_response(0x5555);
        } else {
            port.queue_response(value as u16);
        }
        value += 300;
    }
    let mut dsp = VS1053::new(port);
    assert!(!dsp.test_comm(ProbeSpeed::SlowProbe));
}

#[test]
fn the_slow_probe_sweeps_at_the_slow_clock() {
    let mut port = SimPort::new(true, 0);
    port.response_default = 0xBEEF;
    let mut dsp = VS1053::new(port);
    assert!(!dsp.test_comm(ProbeSpeed::SlowProbe));
    let mut frames = 0;
    for op in dsp.port().recorded() {
        if let RecordedOp::SpiOut { fast, bytes } = op {
            if bytes.len() == 4 && bytes[0] == 0x02 && bytes[1] == SCI_VOL {
                assert!(!*fast);
                frames += 1;
            }
        }
    }
    assert_eq!(frames, 20);
}

#[test]
fn the_fast_probe_sweeps_at_the_fast_clock() {
    let mut port = SimPort::new(true, 0);
    port.response_default = 0xBEEF;
    let mut dsp = VS1053::new(port);
    assert!(!dsp.test_comm(ProbeSpeed::FastProbe));
    for op in dsp.port().recorded() {
        if let RecordedOp::SpiOut { fast, bytes } = op {
            if bytes.len() == 4 && bytes[0] == 0x02 && bytes[1] == SCI_VOL {
                assert!(*fast);
            }
        }
    }
}

#[test]
fn begin_signals_reset_on_both_selects_first() {
    let port = SimPort::new(true, 0);
    let mut dsp = VS1053::new(port);
    assert!(dsp.begin().is_ok());
    let ops = dsp.port().recorded();
    assert!(ops.len() >= 6);
    assert!(matches!(&ops[0], RecordedOp::XdcsSet { high: true }));
    assert!(matches!(&ops[1], RecordedOp::XcsSet { high: true }));
    assert!(matches!(&ops[2], RecordedOp::XdcsSet { high: false }));
    assert!(matches!(&ops[3], RecordedOp::XcsSet { high: false }));
    assert!(matches!(&ops[4], RecordedOp::XdcsSet { high: true }));
    assert!(matches!(&ops[5], RecordedOp::XcsSet { high: true }));
}

#[test]
fn begin_boosts_the_clock_only_after_a_clean_slow_sweep() {
    let mut port = SimPort::new(true, 0);
    let mut value: u32 = 0;
    while value < 0xFFFF {
        port.queue_response(value as u16);
        port.queue_response(value as u16);
        value += 300;
    }
    let mut dsp = VS1053::new(port);
    assert!(dsp.begin().is_ok());
    let ops = dsp.port().recorded();
    // Audio rate 44101 at the slow clock, clock multiplier raised after.
    let mut audata_seen = false;
    let mut clockf_seen = false;
    for op in ops {
        if let RecordedOp::SpiOut { fast, bytes } = op {
            if bytes.len() == 4 && bytes[0] == 0x02 && bytes[1] == 0x05 {
                assert!(!*fast);
                assert_eq!(bytes[2], (44101u16 >> 8) as u8);
                assert_eq!(bytes[3], (44101u16 & 0xFF) as u8);
                audata_seen = true;
            }
            if bytes.len() == 4 && bytes[0] == 0x02 && bytes[1] == 0x03 {
                assert!(!*fast);
                assert_eq!(bytes[2], 0x60);
                assert_eq!(bytes[3], 0x00);
                clockf_seen = true;
            }
        }
    }
    assert!(audata_seen);
    assert!(clockf_seen);
}

#[test]
fn begin_skips_the_fast_path_when_the_slow_sweep_fails() {
    let mut port = SimPort::new(true, 0);
    port.response_default = 0xBEEF;
    let mut dsp = VS1053::new(port);
    assert!(dsp.begin().is_ok());
    // No audio-rate write: the clock was never raised.
    let ops = dsp.port().recorded();
    assert_eq!(reg_write_count(ops, 0x05), 0);
    assert_eq!(reg_write_count(ops, 0x03), 0);
}

#[test]
fn stop_song_is_clean_once_the_cancel_bit_clears() {
    let mut port = SimPort::new(true, 0);
    // Every mode readback answers with the cancel bit already clear.
    port.response_default = 0x0800;
    let mut dsp = VS1053::new(port);
    assert_eq!(dsp.stop_song(), Ok(true));
    assert_eq!(reg_read_count(dsp.port().recorded(), SCI_MODE), 1);
}

#[test]
fn stop_song_forces_after_200_rounds_with_the_cancel_bit_stuck() {
    let mut port = SimPort::new(true, 0);
    // Every mode readback answers with the cancel bit still set.
    port.response_default = 0x0808;
    let mut dsp = VS1053::new(port);
    assert_eq!(dsp.stop_song(), Ok(false));
    assert_eq!(reg_read_count(dsp.port().recorded(), SCI_MODE), 200);
}

fn filler_count(ops: &Vec<RecordedOp>) -> usize {
    let mut count = 0;
    for op in ops {
        if let RecordedOp::SpiOut { bytes, .. } = op {
            if bytes.len() == 2 {
                count += 1;
            }
        }
    }
    count
}

#[test]
fn a_clean_stop_flushes_before_the_cancel_and_again_after_the_clear() {
    let mut port = SimPort::new(true, 0);
    port.response_default = 0x0800;
    let mut dsp = VS1053::new(port);
    assert_eq!(dsp.stop_song(), Ok(true));
    // 2052 fillers up front, one 32-filler round, 2052 after the clear.
    assert_eq!(filler_count(dsp.port().recorded()), 2052 + 32 + 2052);
}

#[test]
fn a_forced_stop_never_issues_the_trailing_flush() {
    let mut port = SimPort::new(true, 0);
    port.response_default = 0x0808;
    let mut dsp = VS1053::new(port);
    assert_eq!(dsp.stop_song(), Ok(false));
    assert_eq!(filler_count(dsp.port().recorded()), 2052 + 32 * 200);
}

#[test]
fn stop_song_writes_the_cancel_word_before_polling() {
    let mut port = SimPort::new(true, 0);
    port.response_default = 0x0800;
    let mut dsp = VS1053::new(port);
    assert_eq!(dsp.stop_song(), Ok(true));
    // The one mode-register write carries SDINEW (bit 11) and CANCEL (bit 3).
    let mut mode_writes: Vec<u16> = Vec::new();
    for op in dsp.port().recorded() {
        if let RecordedOp::SpiOut { bytes, .. } = op {
            if bytes.len() == 4 && bytes[0] == 0x02 && bytes[1] == 0x00 {
                mode_writes.push(((bytes[2] as u16) << 8) | bytes[3] as u16);
            }
        }
    }
    assert_eq!(mode_writes, vec![(1u16 << 11) | (1u16 << 3)]);
}

#[test]
fn switch_to_mp3_mode_programs_the_gpio_words_then_soft_resets() {
    let port = SimPort::new(true, 0);
    let mut dsp = VS1053::new(port);
    assert!(dsp.switch_to_mp3_mode().is_ok());
    let ops = dsp.port().recorded();
    let mut wram_values: Vec<u16> = Vec::new();
    let mut mode_words: Vec<u16> = Vec::new();
    for op in ops {
        if let RecordedOp::SpiOut { bytes, .. } = op {
            if bytes.len() == 4 && bytes[0] == 0x02 && bytes[1] == 0x06 {
                wram_values.push(((bytes[2] as u16) << 8) | bytes[3] as u16);
            }
            if bytes.len() == 4 && bytes[0] == 0x02 && bytes[1] == 0x00 {
                mode_words.push(((bytes[2] as u16) << 8) | bytes[3] as u16);
            }
        }
    }
    assert_eq!(wram_values, vec![3, 0]);
    // The soft reset asserts SM_SDINEW (bit 11) and SM_RESET (bit 2).
    assert_eq!(mode_words, vec![(1u16 << 11) | (1u16 << 2)]);
}
