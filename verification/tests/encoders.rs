use ltc::{
    LTCEncoder, LTCEncoderError, LTCFrame, LTCTVStandard, LtcBgFlags, LtcBgFlagsKind,
    SMPTETimecode, Timezone,
};

fn utc() -> Timezone {
    Timezone::new('+', '0', '0', '0', '0')
}

fn time(h: u8, m: u8, s: u8, f: u8) -> SMPTETimecode {
    SMPTETimecode::new(utc(), 0, 0, 0, h, m, s, f)
}

fn pal() -> LTCEncoder {
    LTCEncoder::try_new(48000, 25, 1, LTCTVStandard::LTCTV_625_50, LtcBgFlags::new()).unwrap()
}

/// The lengths of the runs of equal samples.
fn runs(samples: &[u8]) -> Vec<(u8, usize)> {
    let mut out: Vec<(u8, usize)> = Vec::new();
    for &s in samples {
        match out.last_mut() {
            Some((v, n)) if *v == s => *n += 1,
            _ => out.push((s, 1)),
        }
    }
    out
}

#[test]
fn encoder_needs_rates_that_make_a_signal() {
    let std = LTCTVStandard::LTCTV_625_50;
    let f = LtcBgFlags::new();
    assert_eq!(LTCEncoder::try_new(0, 25, 1, std, f).err(), Some(LTCEncoderError::CreateError));
    assert_eq!(LTCEncoder::try_new(48000, 0, 1, std, f).err(), Some(LTCEncoderError::CreateError));
    assert_eq!(LTCEncoder::try_new(48000, 25, 0, std, f).err(), Some(LTCEncoderError::CreateError));
    // a frame of 2^32 - 1 samples is more than a buffer may hold
    assert_eq!(LTCEncoder::try_new(u32::MAX, 1, 1, std, f).err(), Some(LTCEncoderError::CreateError));
    assert!(LTCEncoder::try_new(1, 1, 1, std, f).is_ok());
    assert!(LTCEncoder::try_new(0x7FFF_FFFE, 1, 1, std, f).is_ok());
    assert!(LTCEncoder::try_new(0x7FFF_FFFF, 1, 1, std, f).is_err());
    assert_eq!(LTCEncoderError::CreateError.message(), "failed to create the encoder");
    assert_eq!(LTCEncoderError::EncodeError.message(), "failed to encode");
}

#[test]
fn buffer_holds_one_frame_and_one_more_sample() {
    assert_eq!(pal().get_buffersize(), 1921);
    let ntsc = LTCEncoder::try_new(48000, 30000, 1001, LTCTVStandard::LTCTV_525_60, LtcBgFlags::new()).unwrap();
    // 1601.6 samples to the frame
    assert_eq!(ntsc.get_buffersize(), 1603);
    let film = LTCEncoder::try_new(44100, 24, 1, LTCTVStandard::LTCTV_FILM_24, LtcBgFlags::new()).unwrap();
    assert_eq!(film.get_buffersize(), 1839);
}

#[test]
fn new_encoder_has_a_blank_frame_and_default_levels() {
    let e = pal();
    assert_eq!(e.get_frame(), LTCFrame::new());
    assert_eq!(e.get_volume(), 90);
    assert_eq!(e.get_filter(), 0);
    assert_eq!(e.buffered(), 0);
    assert_eq!(e.get_timecode(), time(0, 0, 0, 0));
}

#[test]
fn drop_frame_bit_follows_the_rate() {
    let std = LTCTVStandard::LTCTV_525_60;
    let f = LtcBgFlags::new();
    assert_eq!(LTCEncoder::try_new(48000, 30000, 1001, std, f).unwrap().get_frame().dfbit(), 1);
    assert_eq!(LTCEncoder::try_new(48000, 2997, 100, std, f).unwrap().get_frame().dfbit(), 1);
    assert_eq!(LTCEncoder::try_new(48000, 30, 1, std, f).unwrap().get_frame().dfbit(), 0);
    assert_eq!(LTCEncoder::try_new(48000, 25, 1, std, f).unwrap().get_frame().dfbit(), 0);
    assert_eq!(LTCEncoder::try_new(48000, 24000, 1001, std, f).unwrap().get_frame().dfbit(), 0);
    // 29.965 rounds to 29.97, 29.964 does not
    assert_eq!(LTCEncoder::try_new(48000, 29965, 1000, std, f).unwrap().get_frame().dfbit(), 1);
    assert_eq!(LTCEncoder::try_new(48000, 29964, 1000, std, f).unwrap().get_frame().dfbit(), 0);
    assert_eq!(LTCEncoder::try_new(48000, 29975, 1000, std, f).unwrap().get_frame().dfbit(), 0);
}

#[test]
fn volume_is_a_peak_from_1_to_127() {
    let mut e = pal();
    assert_eq!(e.set_volume(0), Err(LTCEncoderError::VolumeError));
    assert_eq!(e.set_volume(128), Err(LTCEncoderError::VolumeError));
    assert_eq!(e.set_volume(-5), Err(LTCEncoderError::VolumeError));
    assert_eq!(e.get_volume(), 90);
    assert_eq!(e.set_volume(16), Ok(()));
    assert_eq!(e.get_volume(), 16);
    e.encode_frame();
    let (samples, n) = e.copy_buffer();
    assert!(samples[..n].iter().all(|&s| s == 112 || s == 144));
    assert_eq!(e.set_volume(127), Ok(()));
    e.encode_frame();
    let (samples, n) = e.copy_buffer();
    assert!(samples[..n].iter().all(|&s| s == 1 || s == 255));
    assert_eq!(e.set_volume(1), Ok(()));
}

#[test]
fn blank_frame_is_long_pulses_and_the_sync_word() {
    let mut e = pal();
    e.encode_frame();
    assert_eq!(e.buffered(), 1920);
    let (samples, n) = e.copy_buffer();
    assert_eq!(n, 1920);
    assert_eq!(samples.len(), 1921);
    assert_eq!(samples[1920], 0);
    let r = runs(&samples[..n]);
    // 67 zeros are one pulse of 24 samples each, 13 ones are two of 12
    assert_eq!(r.len(), 67 + 2 * 13);
    for (i, &(v, len)) in r.iter().enumerate() {
        assert_eq!(v, if i % 2 == 0 { 218 } else { 38 });
        assert!(len == 24 || len == 12);
    }
    let lens: Vec<usize> = r.iter().map(|x| x.1).collect();
    // sync word on the wire: 0011 1111 1111 1101
    let mut want = vec![24usize; 66];
    want.extend(vec![12usize; 24]);
    want.push(24);
    want.extend(vec![12usize; 2]);
    assert_eq!(lens[64..], want[64..]);
    assert_eq!(lens, want);
    assert_eq!(e.buffered(), 0);
}

#[test]
fn a_one_has_an_edge_in_the_middle_of_its_cell() {
    let mut e = pal();
    let mut f = LTCFrame::new();
    f.ltc[0] = 0b0000_0101;
    e.set_frame(&f);
    assert_eq!(e.encode_byte(0, 1000), Ok(()));
    let (samples, n) = e.get_buf_ref(false);
    assert_eq!(n, 8 * 24);
    assert_eq!(
        runs(&samples),
        vec![(218, 12), (38, 12), (218, 24), (38, 12), (218, 12), (38, 24), (218, 24), (38, 24), (218, 24), (38, 24)]
    );
}

#[test]
fn reverse_phase_swaps_the_levels() {
    let flags = LtcBgFlags::new().with(LtcBgFlagsKind::LTC_REVERSE_PHASE);
    let mut a = LTCEncoder::try_new(48000, 25, 1, LTCTVStandard::LTCTV_625_50, flags).unwrap();
    let mut b = pal();
    a.set_timecode(&time(1, 2, 3, 4));
    b.set_timecode(&time(1, 2, 3, 4));
    a.encode_frame();
    b.encode_frame();
    let (x, n) = a.copy_buffer();
    let (y, m) = b.copy_buffer();
    assert_eq!(n, m);
    for i in 0..n {
        assert_eq!(x[i] as u32 + y[i] as u32, 256);
    }
    assert_eq!(x[0], 38);
}

#[test]
fn encode_byte_refuses_bad_input_and_changes_nothing() {
    let mut e = pal();
    assert_eq!(e.encode_byte(-1, 1000), Err(LTCEncoderError::EncodeError));
    assert_eq!(e.encode_byte(10, 1000), Err(LTCEncoderError::EncodeError));
    assert_eq!(e.encode_byte(0, 0), Err(LTCEncoderError::EncodeError));
    assert_eq!(e.buffered(), 0);
    // nothing was drawn, so there is nothing to close either
    assert_eq!(e.end_encode(), Ok(()));
    assert_eq!(e.buffered(), 0);
    for byte in 0..10 {
        assert_eq!(e.encode_byte(byte, 1000), Ok(()));
    }
    assert_eq!(e.buffered(), 1920);
    // the buffer is full
    let (before, _) = e.get_buf_ref(false);
    assert_eq!(e.encode_byte(0, 1000), Err(LTCEncoderError::EncodeError));
    assert_eq!(e.end_encode(), Err(LTCEncoderError::EncodeError));
    let (after, n) = e.get_buf_ref(false);
    assert_eq!(n, 1920);
    assert_eq!(before, after);
}

#[test]
fn a_frame_that_does_not_fit_is_cut_at_a_byte() {
    let mut e = pal();
    assert_eq!(e.encode_byte(0, 1000), Ok(()));
    assert_eq!(e.buffered(), 192);
    e.encode_frame();
    // nine bytes more fit, the tenth does not
    assert_eq!(e.buffered(), 1920);
    let (samples, _) = e.copy_buffer();
    // byte 0 twice, bytes 1 to 7, and byte 8 with the first six ones of the sync word
    let lens: Vec<usize> = runs(&samples[..1920]).iter().map(|x| x.1).collect();
    let mut want = vec![24usize; 74];
    want.extend(vec![12usize; 12]);
    assert_eq!(lens, want);
}

#[test]
fn speed_stretches_and_squeezes_the_cells() {
    let mut e = pal();
    assert_eq!(e.encode_byte(0, 2000), Ok(()));
    assert_eq!(e.buffered(), 8 * 48);
    e.buffer_flush();
    assert_eq!(e.encode_byte(0, 500), Ok(()));
    assert_eq!(e.buffered(), 8 * 12);
    e.buffer_flush();
    // at twelve times the length one byte is more than a frame
    assert_eq!(e.encode_byte(0, 12_000), Err(LTCEncoderError::EncodeError));
    assert_eq!(e.buffered(), 0);
    assert_eq!(e.encode_byte(0, i32::MIN), Err(LTCEncoderError::EncodeError));
    assert_eq!(e.encode_byte(0, i32::MAX), Err(LTCEncoderError::EncodeError));
}

#[test]
fn negative_speed_sends_a_byte_backwards() {
    let mut e = pal();
    let mut f = LTCFrame::new();
    f.ltc[3] = 0b0000_0001;
    e.set_frame(&f);
    assert_eq!(e.encode_byte(3, -1000), Ok(()));
    let (samples, _) = e.copy_buffer();
    let lens: Vec<usize> = runs(&samples[..192]).iter().map(|x| x.1).collect();
    assert_eq!(lens, vec![24, 24, 24, 24, 24, 24, 24, 12, 12]);
    assert_eq!(e.encode_byte(3, 1000), Ok(()));
    let (samples, _) = e.copy_buffer();
    let lens: Vec<usize> = runs(&samples[..192]).iter().map(|x| x.1).collect();
    assert_eq!(lens, vec![12, 12, 24, 24, 24, 24, 24, 24, 24]);
}

#[test]
fn reversed_frame_is_the_frame_read_from_its_end() {
    let mut e = pal();
    e.set_timecode(&time(12, 34, 56, 7));
    e.encode_frame();
    let (fwd, n) = e.copy_buffer();
    e.reset();
    e.encode_reversed_frame();
    let (rev, m) = e.copy_buffer();
    assert_eq!((n, m), (1920, 1920));
    let a: Vec<usize> = runs(&fwd[..n]).iter().map(|x| x.1).collect();
    let mut b: Vec<usize> = runs(&rev[..m]).iter().map(|x| x.1).collect();
    b.reverse();
    assert_eq!(a, b);
}

#[test]
fn cells_keep_time_when_the_frame_has_no_whole_number_of_samples() {
    let mut e = LTCEncoder::try_new(48000, 30000, 1001, LTCTVStandard::LTCTV_525_60, LtcBgFlags::new()).unwrap();
    let mut total = 0usize;
    for k in 1..=300usize {
        e.encode_frame();
        let (_, n) = e.copy_buffer();
        assert!(n == 1601 || n == 1602);
        total += n;
        // never more than half a sample from the true time
        let exact = (k as f64) * 1601.6;
        assert!((total as f64 - exact).abs() <= 0.5, "{} {}", total, exact);
    }
    assert_eq!(total, 480_480);
}

#[test]
fn end_encode_adds_an_edge_and_half_a_cell_once() {
    let mut e = pal();
    e.encode_frame();
    let (frame, n) = e.copy_buffer();
    // thirteen ones: an odd number of edges, the frame ends on the high level
    assert_eq!(frame[n - 1], 218);
    assert_eq!(e.end_encode(), Ok(()));
    assert_eq!(e.buffered(), 12);
    assert_eq!(e.end_encode(), Ok(()));
    assert_eq!(e.buffered(), 12);
    let (tail, m) = e.copy_buffer();
    assert_eq!(m, 12);
    assert!(tail[..12].iter().all(|&s| s == 38));
}

#[test]
fn flush_hands_out_a_closed_signal() {
    let mut e = pal();
    e.encode_frame();
    let (open, n) = e.get_buf_ref(false);
    assert_eq!(n, 1920);
    assert_eq!(e.buffered(), 1920);
    let (closed, m) = e.get_buf_ref(true);
    assert_eq!(m, 1932);
    assert_eq!(closed[..1920], open[..]);
    assert!(closed[1920..].iter().all(|&s| s == 38));
    assert_eq!(e.buffered(), 0);
    // nothing is pending any more
    let (empty, k) = e.get_buf_ref_mut(true);
    assert_eq!(k, 0);
    assert!(empty.is_empty());
    e.encode_frame();
    let (wide, count) = e.get_bufptr(true);
    assert_eq!(count, 1932);
    assert_eq!(wide.len(), 1932);
    assert!(wide.iter().zip(closed.iter()).all(|(&w, &c)| w == c as i32));
}

#[test]
fn buffers_of_the_caller_are_written_over() {
    let mut e = pal();
    assert_eq!(e.encode_byte(0, 1000), Ok(()));
    let mut short: Vec<u8> = vec![7; 10];
    assert_eq!(e.copy_buffer_inplace(&mut short), 192);
    assert_eq!(short.len(), 192);
    assert_eq!(short[0], 218);
    assert_eq!(e.buffered(), 0);
    assert_eq!(e.encode_byte(1, 1000), Ok(()));
    let mut long: Vec<i32> = vec![-1; 200];
    assert_eq!(e.get_buffer(&mut long), 192);
    assert_eq!(long.len(), 200);
    assert_eq!(long[0], 218);
    assert_eq!(long[191], 38);
    assert_eq!(long[192], -1);
    let mut none: Vec<u8> = vec![9; 3];
    assert_eq!(e.copy_buffer_inplace(&mut none), 0);
    assert_eq!(none, vec![9, 9, 9]);
}

#[test]
fn filter_rounds_the_edges() {
    let mut e = pal();
    e.set_filter(32768);
    assert_eq!(e.get_filter(), 32768);
    assert_eq!(e.encode_byte(0, 1000), Ok(()));
    let (samples, _) = e.copy_buffer();
    // half of the way with each sample, up to the middle of the pulse and back
    let ramp: [u8; 12] = [173, 195, 206, 212, 215, 216, 217, 217, 217, 217, 217, 217];
    for i in 0..12 {
        assert_eq!(samples[i], ramp[i]);
        assert_eq!(samples[23 - i], ramp[i]);
    }
    let down: [u8; 4] = [83, 60, 49, 43];
    for i in 0..4 {
        assert_eq!(samples[24 + i], down[i]);
        assert_eq!(samples[47 - i], down[i]);
    }
    e.set_filter(65536);
    e.encode_frame();
    let (square, n) = e.copy_buffer();
    assert!(square[..n].iter().all(|&s| s == 38 || s == 218));
    e.set_filter(70000);
    assert_eq!(e.get_filter(), 65536);
    e.set_filter(0);
    assert_eq!(e.get_filter(), 0);
}

#[test]
fn reinit_needs_a_buffer_that_is_large_enough() {
    let mut e = pal();
    e.set_timecode(&time(1, 2, 3, 4));
    e.set_filter(1000);
    e.encode_frame();
    let std = LTCTVStandard::LTCTV_525_60;
    let f = LtcBgFlags::new();
    // 2000 samples to the frame do not fit a buffer of 1921
    assert_eq!(e.reinit(48000, 24, 1, std, f), Err(LTCEncoderError::ReinitError));
    assert_eq!(e.reinit(0, 25, 1, std, f), Err(LTCEncoderError::ReinitError));
    assert_eq!(e.reinit(48000, 0, 1, std, f), Err(LTCEncoderError::ReinitError));
    assert_eq!(e.buffered(), 1920);
    assert_eq!(e.get_filter(), 1000);
    assert_eq!(e.reinit(48000, 30000, 1001, std, f), Ok(()));
    assert_eq!(e.buffered(), 0);
    assert_eq!(e.get_buffersize(), 1921);
    assert_eq!(e.get_filter(), 0);
    assert_eq!(e.get_frame().dfbit(), 1);
    assert_eq!(e.get_timecode(), time(1, 2, 3, 4));
    e.encode_frame();
    assert_eq!(e.buffered(), 1602);
    assert_eq!(e.set_bufsize(48000, 24, 1), Ok(()));
    assert_eq!(e.get_buffersize(), 2001);
    assert_eq!(e.buffered(), 0);
    assert_eq!(e.reinit(48000, 24, 1, LTCTVStandard::LTCTV_FILM_24, f), Ok(()));
    assert_eq!(e.get_frame().dfbit(), 0);
    assert_eq!(e.set_bufsize(0, 24, 1), Err(LTCEncoderError::BufferSizeError));
    assert_eq!(e.set_bufsize(48000, 24, 0), Err(LTCEncoderError::BufferSizeError));
    assert_eq!(e.get_buffersize(), 2001);
}

#[test]
fn reset_starts_the_signal_anew() {
    let mut e = pal();
    let mut f = LTCFrame::new();
    f.ltc[0] = 1;
    e.set_frame(&f);
    assert_eq!(e.encode_byte(0, 1000), Ok(()));
    let (first, n) = e.copy_buffer();
    // an odd number of edges: the signal now stands on the other level
    assert_eq!(e.encode_byte(0, 1000), Ok(()));
    let (second, _) = e.copy_buffer();
    assert_ne!(first[..n], second[..n]);
    assert_eq!(e.encode_byte(1, 1000), Ok(()));
    e.reset();
    assert_eq!(e.buffered(), 0);
    assert_eq!(e.encode_byte(0, 1000), Ok(()));
    let (third, _) = e.copy_buffer();
    assert_eq!(first[..n], third[..n]);
}

#[test]
fn encoder_counts_its_timecode() {
    let mut e = pal();
    e.set_timecode(&time(23, 59, 59, 23));
    assert!(!e.inc_timecode());
    assert_eq!(e.get_timecode(), time(23, 59, 59, 24));
    assert!(e.inc_timecode());
    assert_eq!(e.get_timecode(), time(0, 0, 0, 0));
    assert!(e.dec_timecode());
    assert!(!e.dec_timecode());
    assert_eq!(e.get_timecode(), time(23, 59, 59, 23));
    // 29.97 counts thirty frames and drops two at the minute
    let mut n = LTCEncoder::try_new(48000, 30000, 1001, LTCTVStandard::LTCTV_525_60, LtcBgFlags::new()).unwrap();
    n.set_timecode(&time(0, 0, 59, 29));
    assert!(!n.inc_timecode());
    assert_eq!(n.get_timecode(), time(0, 1, 0, 2));
    // 23.976 counts twenty-four
    let mut m = LTCEncoder::try_new(48000, 24000, 1001, LTCTVStandard::LTCTV_FILM_24, LtcBgFlags::new()).unwrap();
    m.set_timecode(&time(0, 0, 0, 23));
    assert!(!m.inc_timecode());
    assert_eq!(m.get_timecode(), time(0, 0, 1, 0));
}

#[test]
fn encoder_keeps_the_parity_of_its_frame() {
    let flags = LtcBgFlags::new().with(LtcBgFlagsKind::LTC_USE_PARITY);
    let mut e = LTCEncoder::try_new(48000, 25, 1, LTCTVStandard::LTCTV_625_50, flags).unwrap();
    let ones = |f: &LTCFrame| -> u32 { f.ltc.iter().map(|b| b.count_ones()).sum() };
    assert_eq!(ones(&e.get_frame()) % 2, 0);
    e.set_user_bits(0x0000_0001);
    assert_eq!(e.get_frame().get_user_bits(), 1);
    assert_eq!(ones(&e.get_frame()) % 2, 0);
    for _ in 0..100 {
        e.inc_timecode();
        assert_eq!(ones(&e.get_frame()) % 2, 0);
    }
    // a frame with even parity ends on the level on which it began
    e.encode_frame();
    let (samples, n) = e.copy_buffer();
    assert_eq!(samples[0], 218);
    assert_eq!(samples[n - 1], 38);
}
