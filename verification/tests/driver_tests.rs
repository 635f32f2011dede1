use vs1053::bus::DSPError;
use vs1053::driver::{VS1053, SCI_STATUS, SCI_VOL, SCI_WRAM, SCI_WRAMADDR};
use vs1053::sim::{RecordedOp, SimPort};
use vs1053::volume::volume_model;

fn reg_write_frames(ops: &Vec<RecordedOp>, reg: u8) -> Vec<Vec<u8>> {
    let mut frames = Vec::new();
    for op in ops {
        if let RecordedOp::SpiOut { bytes, .. } = op {
            if bytes.len() == 4 && bytes[0] == 0x02 && bytes[1] == reg {
                frames.push(bytes.clone());
            }
        }
    }
    frames
}

#[test]
fn new_driver_starts_at_volume_50_and_centered_balance() {
    let port = SimPort::new(true, 0);
    let mut dsp = VS1053::new(port);
    assert_eq!(dsp.get_volume(), 50);
    assert_eq!(dsp.get_balance(), 0);
    assert!(dsp.port().recorded().is_empty());
}

#[test]
fn set_volume_writes_the_packed_model_word() {
    let port = SimPort::new(true, 0);
    let mut dsp = VS1053::new(port);
    assert!(dsp.set_volume(80).is_ok());
    assert_eq!(dsp.get_volume(), 80);
    let (left, right) = volume_model(80, 0);
    let frames = reg_write_frames(dsp.port().recorded(), SCI_VOL);
    assert_eq!(frames.len(), 1);
    assert_eq!(frames[0], vec![0x02, SCI_VOL, left, right]);
}

#[test]
fn set_volume_applies_the_stored_balance() {
    let port = SimPort::new(true, 0);
    let mut dsp = VS1053::new(port);
    dsp.set_balance(100);
    assert!(dsp.set_volume(50).is_ok());
    let (left, right) = volume_model(50, 100);
    let frames = reg_write_frames(dsp.port().recorded(), SCI_VOL);
    assert_eq!(frames.len(), 1);
    assert_eq!(frames[0], vec![0x02, SCI_VOL, left, right]);
    assert!(left > right);
}

#[test]
fn write_register_frames_are_opcode_address_value() {
    let port = SimPort::new(true, 0);
    let mut dsp = VS1053::new(port);
    assert!(dsp.write_register(true, SCI_VOL, 0x1234).is_ok());
    let frames = reg_write_frames(dsp.port().recorded(), SCI_VOL);
    assert_eq!(frames.len(), 1);
    assert_eq!(frames[0], vec![0x02, SCI_VOL, 0x12, 0x34]);
}

#[test]
fn read_register_issues_the_read_command_and_returns_big_endian() {
    let mut port = SimPort::new(true, 0);
    port.queue_response(0xBEEF);
    let mut dsp = VS1053::new(port);
    assert_eq!(dsp.read_register(SCI_STATUS), Ok(0xBEEF));
    let ops = dsp.port().recorded();
    let mut seen = false;
    for op in ops {
        if let RecordedOp::SpiInOut { c0, c1, response } = op {
            assert_eq!(*c0, 0x03);
            assert_eq!(*c1, SCI_STATUS);
            assert_eq!(*response, 0xBEEF);
            seen = true;
        }
    }
    assert!(seen);
}

#[test]
fn wram_write_points_then_writes() {
    let port = SimPort::new(true, 0);
    let mut dsp = VS1053::new(port);
    assert!(dsp.wram_write(0xC017, 3).is_ok());
    let pointer = reg_write_frames(dsp.port().recorded(), SCI_WRAMADDR);
    let window = reg_write_frames(dsp.port().recorded(), SCI_WRAM);
    assert_eq!(pointer.len(), 1);
    assert_eq!(pointer[0], vec![0x02, SCI_WRAMADDR, 0xC0, 0x17]);
    assert_eq!(window.len(), 1);
    assert_eq!(window[0], vec![0x02, SCI_WRAM, 0x00, 0x03]);
}

#[test]
fn wram_read_points_then_reads_back() {
    let mut port = SimPort::new(true, 0);
    port.queue_response(0x2A2A);
    let mut dsp = VS1053::new(port);
    assert_eq!(dsp._wram_read(0x1E06), Ok(0x2A2A));
    let pointer = reg_write_frames(dsp.port().recorded(), SCI_WRAMADDR);
    assert_eq!(pointer.len(), 1);
    assert_eq!(pointer[0], vec![0x02, SCI_WRAMADDR, 0x1E, 0x06]);
}

#[test]
fn chip_is_connected_for_an_ordinary_status() {
    let mut port = SimPort::new(true, 0);
    port.queue_response(0x0040);
    let mut dsp = VS1053::new(port);
    assert!(dsp.is_chip_connected());
}

#[test]
fn chip_is_not_connected_for_all_zero_status() {
    let mut port = SimPort::new(true, 0);
    port.queue_response(0x0000);
    let mut dsp = VS1053::new(port);
    assert!(!dsp.is_chip_connected());
}

#[test]
fn chip_is_not_connected_for_all_one_status() {
    let mut port = SimPort::new(true, 0);
    port.queue_response(0xFFFF);
    let mut dsp = VS1053::new(port);
    assert!(!dsp.is_chip_connected());
}

#[test]
fn chip_version_comes_from_status_bits_4_to_7() {
    let mut port = SimPort::new(true, 0);
    port.queue_response(0x0040);
    let mut dsp = VS1053::new(port);
    assert_eq!(dsp.get_chip_version(), 4);
}

#[test]
fn set_tone_packs_four_nibbles() {
    let port = SimPort::new(true, 0);
    let mut dsp = VS1053::new(port);
    let rtone: [u8; 4] = [0x1A, 0x02, 0x3F, 0x04];
    assert!(dsp.set_tone(&rtone).is_ok());
    let frames = reg_write_frames(dsp.port().recorded(), 0x02);
    assert_eq!(frames.len(), 1);
    assert_eq!(frames[0], vec![0x02, 0x02, 0xA2, 0xF4]);
}

#[test]
fn command_select_fault_aborts_a_volume_update() {
    let mut port = SimPort::new(true, 0);
    port.fail_xcs = true;
    let mut dsp = VS1053::new(port);
    assert_eq!(dsp.set_volume(30), Err(DSPError::UnableToSetCSPin));
    assert_eq!(dsp.get_volume(), 30);
}

#[test]
fn data_select_fault_aborts_a_volume_update() {
    let mut port = SimPort::new(true, 0);
    port.fail_xdcs = true;
    let mut dsp = VS1053::new(port);
    assert_eq!(dsp.set_volume(30), Err(DSPError::UnableToSetDCSPin));
}

#[test]
fn spi_fault_aborts_a_register_write() {
    let mut port = SimPort::new(true, 0);
    port.fail_spi = true;
    let mut dsp = VS1053::new(port);
    assert_eq!(dsp.write_register(true, SCI_VOL, 7), Err(DSPError::Spi));
}

#[test]
fn ready_line_fault_surfaces_as_its_own_error() {
    let mut port = SimPort::new(true, 0);
    port.fail_dreq = true;
    let mut dsp = VS1053::new(port);
    assert_eq!(dsp.await_ready(10), Err(DSPError::UnableToGetDREQPin));
}

#[test]
fn a_silent_ready_line_times_out_a_register_write() {
    let port = SimPort::new(false, 0);
    let mut dsp = VS1053::new(port);
    assert_eq!(dsp.write_register(true, SCI_VOL, 7), Err(DSPError::DataRequestTimeout));
}

#[test]
fn a_timed_out_register_write_still_releases_the_command_select() {
    let port = SimPort::new(false, 0);
    let mut dsp = VS1053::new(port);
    assert_eq!(dsp.write_register(true, SCI_VOL, 7), Err(DSPError::DataRequestTimeout));
    let ops = dsp.port().recorded();
    assert!(matches!(ops.last().unwrap(), RecordedOp::XcsSet { high: true }));
}

#[test]
fn a_failed_transaction_still_releases_the_command_select() {
    let mut port = SimPort::new(true, 0);
    port.fail_spi = true;
    let mut dsp = VS1053::new(port);
    assert_eq!(dsp.read_register(SCI_STATUS), Err(DSPError::Spi));
    let ops = dsp.port().recorded();
    assert!(matches!(ops.last().unwrap(), RecordedOp::XcsSet { high: true }));
}
