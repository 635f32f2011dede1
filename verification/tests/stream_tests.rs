use vs1053::bus::DSPError;
use vs1053::driver::VS1053;
use vs1053::sim::{RecordedOp, SimPort};

fn data_write_lengths(ops: &Vec<RecordedOp>) -> Vec<usize> {
    let mut lengths = Vec::new();
    for op in ops {
        if let RecordedOp::SpiOut { bytes, .. } = op {
            lengths.push(bytes.len());
        }
    }
    lengths
}

fn dreq_sample_count(ops: &Vec<RecordedOp>) -> usize {
    let mut count = 0;
    for op in ops {
        if let RecordedOp::DreqRead { .. } = op {
            count += 1;
        }
    }
    count
}

#[test]
fn await_ready_times_out_at_exactly_the_poll_bound() {
    let port = SimPort::new(false, 0);
    let mut dsp = VS1053::new(port);
    assert_eq!(dsp.await_ready(5), Err(DSPError::DataRequestTimeout));
    assert_eq!(dreq_sample_count(dsp.port().recorded()), 5);
}

#[test]
fn await_ready_returns_as_soon_as_the_line_asserts() {
    let mut port = SimPort::new(false, 0);
    port.queue_dreq(false);
    port.queue_dreq(false);
    port.queue_dreq(true);
    let mut dsp = VS1053::new(port);
    assert_eq!(dsp.await_ready(2000), Ok(()));
    assert_eq!(dreq_sample_count(dsp.port().recorded()), 3);
}

#[test]
fn await_ready_succeeds_on_an_immediately_ready_line() {
    let port = SimPort::new(true, 0);
    let mut dsp = VS1053::new(port);
    assert_eq!(dsp.await_ready(1), Ok(()));
    assert_eq!(dreq_sample_count(dsp.port().recorded()), 1);
}

#[test]
fn a_100_byte_stream_with_32_byte_chunks_sends_32_32_32_4() {
    let port = SimPort::new(true, 0);
    let mut dsp = VS1053::new(port);
    let data: Vec<u8> = (0..100u8).collect();
    assert!(dsp.play_chunk2(&data, 32).is_ok());
    assert_eq!(data_write_lengths(dsp.port().recorded()), vec![32, 32, 32, 4]);
}

#[test]
fn stream_payload_bytes_arrive_in_order() {
    let port = SimPort::new(true, 0);
    let mut dsp = VS1053::new(port);
    let data: Vec<u8> = (0..70u8).collect();
    assert!(dsp.play_chunk2(&data, 32).is_ok());
    let mut replay: Vec<u8> = Vec::new();
    for op in dsp.port().recorded() {
        if let RecordedOp::SpiOut { bytes, .. } = op {
            replay.extend_from_slice(bytes);
        }
    }
    assert_eq!(replay, data);
}

#[test]
fn every_chunk_write_follows_a_ready_sample() {
    let port = SimPort::new(true, 0);
    let mut dsp = VS1053::new(port);
    let data: Vec<u8> = (0..64u8).collect();
    assert!(dsp.play_chunk2(&data, 16).is_ok());
    let ops = dsp.port().recorded();
    for i in 0..ops.len() {
        if let RecordedOp::SpiOut { .. } = &ops[i] {
            assert!(i > 0);
            assert!(matches!(&ops[i - 1], RecordedOp::DreqRead { high: true }));
        }
    }
}

#[test]
fn an_empty_stream_only_brackets_data_mode() {
    let port = SimPort::new(true, 0);
    let mut dsp = VS1053::new(port);
    let data: Vec<u8> = Vec::new();
    assert!(dsp.play_chunk2(&data, 32).is_ok());
    assert_eq!(data_write_lengths(dsp.port().recorded()), Vec::<usize>::new());
    assert_eq!(dsp.port().recorded().len(), 3);
}

#[test]
fn a_short_stream_is_one_truncated_chunk() {
    let port = SimPort::new(true, 0);
    let mut dsp = VS1053::new(port);
    let data: Vec<u8> = vec![9, 8, 7, 6, 5];
    assert!(dsp.play_chunk2(&data, 32).is_ok());
    assert_eq!(data_write_lengths(dsp.port().recorded()), vec![5]);
}

#[test]
fn play_chunk_streams_a_prefix_in_hardware_chunks() {
    let port = SimPort::new(true, 0);
    let mut dsp = VS1053::new(port);
    let data: Vec<u8> = (0..80u8).collect();
    assert!(dsp.play_chunk(&data, 40).is_ok());
    assert_eq!(data_write_lengths(dsp.port().recorded()), vec![32, 8]);
}

#[test]
fn a_stalled_stream_reports_a_timeout() {
    let port = SimPort::new(false, 0);
    let mut dsp = VS1053::new(port);
    let data: Vec<u8> = (0..10u8).collect();
    assert_eq!(dsp.play_chunk2(&data, 32), Err(DSPError::DataRequestTimeout));
    assert_eq!(data_write_lengths(dsp.port().recorded()), Vec::<usize>::new());
}

#[test]
fn fillers_send_one_two_byte_unit_per_count() {
    let mut port = SimPort::new(true, 0);
    port.response_default = 0x1234;
    let mut dsp = VS1053::new(port);
    assert!(dsp.sdi_send_fillers(40).is_ok());
    let mut fillers = 0;
    for op in dsp.port().recorded() {
        if let RecordedOp::SpiOut { bytes, .. } = op {
            if bytes.len() == 2 {
                assert_eq!(bytes[0], 0);
                assert_eq!(bytes[1], 0x34);
                fillers += 1;
            }
        }
    }
    assert_eq!(fillers, 40);
}

#[test]
fn each_filler_uses_the_end_fill_byte_it_just_read() {
    let mut port = SimPort::new(true, 0);
    port.queue_response(0x0101);
    port.queue_response(0x0202);
    port.queue_response(0x0303);
    let mut dsp = VS1053::new(port);
    assert!(dsp.sdi_send_fillers(3).is_ok());
    let mut fillers: Vec<Vec<u8>> = Vec::new();
    for op in dsp.port().recorded() {
        if let RecordedOp::SpiOut { bytes, .. } = op {
            if bytes.len() == 2 {
                fillers.push(bytes.clone());
            }
        }
    }
    assert_eq!(fillers, vec![vec![0, 0x01], vec![0, 0x02], vec![0, 0x03]]);
}

#[test]
fn every_filler_points_the_ram_window_at_the_end_fill_byte() {
    let port = SimPort::new(true, 0);
    let mut dsp = VS1053::new(port);
    assert!(dsp.sdi_send_fillers(3).is_ok());
    let mut pointer_frames = 0;
    for op in dsp.port().recorded() {
        if let RecordedOp::SpiOut { bytes, .. } = op {
            if bytes.len() == 4 && bytes[0] == 0x02 && bytes[1] == 0x07 {
                assert_eq!(bytes[2], 0x1E);
                assert_eq!(bytes[3], 0x06);
                pointer_frames += 1;
            }
        }
    }
    assert_eq!(pointer_frames, 3);
}

#[test]
fn start_song_primes_with_ten_fillers() {
    let port = SimPort::new(true, 0);
    let mut dsp = VS1053::new(port);
    assert!(dsp.start_song().is_ok());
    let mut fillers = 0;
    for op in dsp.port().recorded() {
        if let RecordedOp::SpiOut { bytes, .. } = op {
            if bytes.len() == 2 {
                fillers += 1;
            }
        }
    }
    assert_eq!(fillers, 10);
}
