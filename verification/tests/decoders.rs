use ltc::{
    LTCDecoder, LTCDecoderError, LTCEncoder, LTCFrame, LTCFrameExt, LTCTVStandard, LtcBgFlags,
    LtcBgFlagsKind, SMPTETimecode, Timezone,
};

fn utc() -> Timezone {
    Timezone::new('+', '0', '0', '0', '0')
}

fn time(h: u8, m: u8, s: u8, f: u8) -> SMPTETimecode {
    SMPTETimecode::new(utc(), 0, 0, 0, h, m, s, f)
}

fn encoder(sample_rate: u32, num: u32, den: u32, flags: LtcBgFlags) -> LTCEncoder {
    let standard = if num == 25 * den { LTCTVStandard::LTCTV_625_50 } else { LTCTVStandard::LTCTV_525_60 };
    LTCEncoder::try_new(sample_rate, num, den, standard, flags).unwrap()
}

/// Encodes `count` frames from `start` on, one after the other, and closes
/// the signal. Returns the samples and the frames that were sent.
fn stream(e: &mut LTCEncoder, start: &SMPTETimecode, count: usize) -> (Vec<u8>, Vec<LTCFrame>) {
    let mut samples: Vec<u8> = Vec::new();
    let mut frames: Vec<LTCFrame> = Vec::new();
    e.set_timecode(start);
    for _ in 0..count {
        frames.push(e.get_frame());
        e.encode_frame();
        let (buf, n) = e.copy_buffer();
        samples.extend_from_slice(&buf[..n]);
        e.inc_timecode();
    }
    assert_eq!(e.end_encode(), Ok(()));
    let (buf, n) = e.copy_buffer();
    samples.extend_from_slice(&buf[..n]);
    (samples, frames)
}

fn drain(d: &mut LTCDecoder) -> Vec<LTCFrameExt> {
    let mut out = Vec::new();
    while let Some(f) = d.read() {
        out.push(f);
    }
    out
}

fn decode(samples: &[u8], apv: i32) -> Vec<LTCFrameExt> {
    let mut d = LTCDecoder::try_new(apv, 1000).unwrap();
    let mut pos = 0usize;
    for chunk in samples.chunks(1024) {
        d.write_u8(chunk, pos as i64);
        pos += chunk.len();
    }
    drain(&mut d)
}

#[test]
fn decoder_needs_a_frame_length_and_a_queue() {
    assert_eq!(LTCDecoder::try_new(0, 32).err(), Some(LTCDecoderError::CreateError));
    assert_eq!(LTCDecoder::try_new(1920, 0).err(), Some(LTCDecoderError::CreateError));
    assert_eq!(LTCDecoder::try_new(-1, -1).err(), Some(LTCDecoderError::CreateError));
    assert!(LTCDecoder::try_new(1, 1).is_ok());
    assert!(LTCDecoder::try_new(i32::MAX, 32).is_ok());
    assert_eq!(LTCDecoderError::CreateError.message(), "failed to create the decoder");
    let mut d = LTCDecoder::try_new(1920, 32).unwrap();
    assert_eq!(d.queue_length(), 0);
    assert!(d.read().is_none());
}

#[test]
fn one_encoded_frame_decodes_to_one_frame() {
    let mut e = encoder(48000, 25, 1, LtcBgFlags::new());
    let t = time(10, 20, 30, 12);
    let (samples, frames) = stream(&mut e, &t, 1);
    assert_eq!(samples.len(), 1932);
    let got = decode(&samples, 1920);
    assert_eq!(got.len(), 1);
    assert_eq!(got[0].ltc(), frames[0]);
    assert_eq!(got[0].ltc().to_timecode(LtcBgFlags::new()), t);
    assert_eq!(got[0].off_start(), 0);
    assert_eq!(got[0].off_end(), 1919);
    assert!(got[0].off_start() < got[0].off_end());
    assert!(!got[0].reverse());
    // the envelope reaches the levels of the signal and falls back slowly
    assert_eq!(got[0].sample_min(), 38);
    assert!(got[0].sample_max() >= 208 && got[0].sample_max() <= 218);
    assert_eq!(got[0].volume(), got[0].sample_max() - got[0].sample_min());
    assert!(got[0].biphase_tics().iter().all(|&t| t == 24 * 256));
}

#[test]
fn open_signal_holds_back_its_last_frame() {
    let mut e = encoder(48000, 25, 1, LtcBgFlags::new());
    e.set_timecode(&time(1, 0, 0, 0));
    e.encode_frame();
    let (buf, n) = e.copy_buffer();
    let mut d = LTCDecoder::try_new(1920, 32).unwrap();
    d.write_u8(&buf[..n], 0);
    assert_eq!(d.queue_length(), 0);
    // the edge that closes the last cell completes the frame
    assert_eq!(e.end_encode(), Ok(()));
    let (buf, m) = e.copy_buffer();
    d.write_u8(&buf[..m], n as i64);
    assert_eq!(d.queue_length(), 1);
    assert_eq!(d.read().unwrap().ltc().to_timecode(LtcBgFlags::new()), time(1, 0, 0, 0));
}

#[test]
fn two_seconds_at_25_frames_decode_to_fifty_frames() {
    let flags = LtcBgFlags::new().with(LtcBgFlagsKind::LTC_USE_DATE);
    let mut e = encoder(48000, 25, 1, flags);
    let zone = Timezone::new('+', '0', '1', '0', '0');
    let start = SMPTETimecode::new(zone, 8, 12, 31, 3, 1, 10, 0);
    let (samples, frames) = stream(&mut e, &start, 50);
    assert_eq!(samples.len(), 50 * 1920 + 12);
    let got = decode(&samples, 1920);
    assert_eq!(got.len(), 50);
    for (k, f) in got.iter().enumerate() {
        assert_eq!(f.ltc(), frames[k]);
        let t = f.ltc().to_timecode(flags);
        assert_eq!(t, SMPTETimecode::new(zone, 8, 12, 31, 3, 1, 10 + (k / 25) as u8, (k % 25) as u8));
        assert_eq!(f.off_start(), 1920 * k as i64);
        assert_eq!(f.off_end(), 1920 * k as i64 + 1919);
        assert!(!f.reverse());
    }
}

#[test]
fn fifty_frames_cross_the_minute() {
    let flags = LtcBgFlags::new().with(LtcBgFlagsKind::LTC_USE_DATE);
    let mut e = encoder(48000, 25, 1, flags);
    let start = SMPTETimecode::new(utc(), 8, 12, 31, 3, 1, 59, 0);
    let (samples, _) = stream(&mut e, &start, 50);
    let got = decode(&samples, 1920);
    assert_eq!(got.len(), 50);
    let times: Vec<(u8, u8, u8, u8)> = got
        .iter()
        .map(|f| {
            let t = f.ltc().to_timecode(flags);
            (t.hours, t.mins, t.secs, t.frame)
        })
        .collect();
    assert_eq!(times[0], (3, 1, 59, 0));
    assert_eq!(times[24], (3, 1, 59, 24));
    assert_eq!(times[25], (3, 2, 0, 0));
    assert_eq!(times[49], (3, 2, 0, 24));
}

#[test]
fn frames_closed_one_by_one_decode_all() {
    let mut e = encoder(48000, 25, 1, LtcBgFlags::new());
    e.set_timecode(&time(3, 1, 10, 0));
    let mut samples: Vec<u8> = Vec::new();
    let mut sent: Vec<LTCFrame> = Vec::new();
    for _ in 0..50 {
        sent.push(e.get_frame());
        e.encode_frame();
        let (buf, n) = e.get_buf_ref(true);
        assert_eq!(n, 1932);
        samples.extend_from_slice(&buf);
        e.inc_timecode();
    }
    let got = decode(&samples, 1920);
    assert_eq!(got.len(), 50);
    for (k, f) in got.iter().enumerate() {
        assert_eq!(f.ltc(), sent[k]);
        assert!(f.off_start() < f.off_end());
    }
}

#[test]
fn drop_frame_rate_decodes_with_uneven_frames() {
    let mut e = encoder(48000, 30000, 1001, LtcBgFlags::new());
    let (samples, frames) = stream(&mut e, &time(0, 0, 59, 20), 30);
    assert_eq!(samples.len(), 48058);
    let got = decode(&samples, 1601);
    assert_eq!(got.len(), 30);
    for (k, f) in got.iter().enumerate() {
        assert_eq!(f.ltc(), frames[k]);
        assert_eq!(f.ltc().dfbit(), 1);
    }
    assert_eq!((got[0].off_start(), got[0].off_end()), (0, 1601));
    assert_eq!((got[1].off_start(), got[1].off_end()), (1602, 3202));
    assert_eq!((got[2].off_start(), got[2].off_end()), (3203, 4804));
    // the minute begins with frame 2
    assert_eq!(got[9].ltc().to_timecode(LtcBgFlags::new()), time(0, 0, 59, 29));
    assert_eq!(got[10].ltc().to_timecode(LtcBgFlags::new()), time(0, 1, 0, 2));
}

#[test]
fn other_rates_decode() {
    for (rate, num, den, fps) in [(44100u32, 24u32, 1u32, 24usize), (8000, 25, 1, 25), (192000, 30, 1, 30), (96000, 24000, 1001, 24)] {
        let mut e = encoder(rate, num, den, LtcBgFlags::new());
        let (samples, frames) = stream(&mut e, &time(0, 0, 0, 0), fps);
        let apv = (rate as u64 * den as u64 / num as u64) as i32;
        let got = decode(&samples, apv);
        assert_eq!(got.len(), fps);
        for (k, f) in got.iter().enumerate() {
            assert_eq!(f.ltc(), frames[k]);
        }
    }
}

#[test]
fn either_polarity_decodes() {
    let flags = LtcBgFlags::new().with(LtcBgFlagsKind::LTC_REVERSE_PHASE);
    let mut e = encoder(48000, 25, 1, flags);
    let (samples, frames) = stream(&mut e, &time(5, 6, 7, 8), 5);
    assert_eq!(samples[0], 38);
    let got = decode(&samples, 1920);
    assert_eq!(got.len(), 5);
    for (k, f) in got.iter().enumerate() {
        assert_eq!(f.ltc(), frames[k]);
    }
}

#[test]
fn quiet_loud_and_shaped_signals_decode() {
    for (peak, filter) in [(1, 0u32), (127, 0), (90, 40000), (90, 20000), (16, 61681)] {
        let mut e = encoder(48000, 25, 1, LtcBgFlags::new());
        assert_eq!(e.set_volume(peak), Ok(()));
        e.set_filter(filter);
        let (samples, frames) = stream(&mut e, &time(5, 6, 7, 8), 5);
        let got = decode(&samples, 1920);
        assert_eq!(got.len(), 5, "peak {} filter {}", peak, filter);
        for (k, f) in got.iter().enumerate() {
            assert_eq!(f.ltc(), frames[k]);
        }
    }
}

#[test]
fn decoding_does_not_depend_on_how_the_stream_is_cut() {
    let mut e = encoder(48000, 25, 1, LtcBgFlags::new());
    let (samples, _) = stream(&mut e, &time(1, 2, 3, 4), 6);
    let whole = decode(&samples, 1920);
    for size in [1usize, 7, 1000, 1920, 5000] {
        let mut d = LTCDecoder::try_new(1920, 1000).unwrap();
        let mut pos = 0usize;
        for chunk in samples.chunks(size) {
            d.write_u8(chunk, pos as i64);
            pos += chunk.len();
        }
        assert_eq!(drain(&mut d), whole);
    }
    // one sample at a time
    let mut d = LTCDecoder::try_new(1920, 1000).unwrap();
    for (i, &s) in samples.iter().enumerate() {
        d.feed(s, i as i64);
    }
    assert_eq!(drain(&mut d), whole);
}

#[test]
fn positions_follow_the_position_of_the_chunk() {
    let mut e = encoder(48000, 25, 1, LtcBgFlags::new());
    let (samples, _) = stream(&mut e, &time(1, 2, 3, 4), 3);
    let mut d = LTCDecoder::try_new(1920, 32).unwrap();
    d.write_u8(&samples, 1_000_000);
    let got = drain(&mut d);
    assert_eq!(got.len(), 3);
    assert_eq!((got[0].off_start(), got[0].off_end()), (1_000_000, 1_001_919));
    assert_eq!((got[2].off_start(), got[2].off_end()), (1_003_840, 1_005_759));
    // positions stop at the ends of the 64-bit range
    let mut d = LTCDecoder::try_new(1920, 32).unwrap();
    d.write_u8(&samples, i64::MAX - 100);
    let got = drain(&mut d);
    assert_eq!(got.len(), 3);
    assert_eq!(got[0].off_start(), i64::MAX - 100);
    assert_eq!(got[2].off_end(), i64::MAX - 1);
}

#[test]
fn silence_before_the_signal_costs_the_first_frame() {
    let mut e = encoder(48000, 25, 1, LtcBgFlags::new());
    let (mut samples, frames) = stream(&mut e, &time(3, 1, 10, 0), 5);
    let mut all: Vec<u8> = vec![128; 5000];
    all.append(&mut samples);
    let got = decode(&all, 1920);
    assert_eq!(got.len(), 4);
    for (k, f) in got.iter().enumerate() {
        assert_eq!(f.ltc(), frames[k + 1]);
        assert_eq!(f.off_start(), 5000 + 1920 * (k as i64 + 1));
        assert_eq!(f.off_end(), 5000 + 1920 * (k as i64 + 1) + 1919);
    }
}

#[test]
fn one_bad_sample_costs_no_more_than_the_frames_around_it() {
    let mut e = encoder(48000, 25, 1, LtcBgFlags::new());
    let (samples, frames) = stream(&mut e, &time(3, 1, 10, 0), 10);
    let mut seed: u64 = 0x2545_F491_4F6C_DD1D;
    for _ in 0..200 {
        seed = seed.wrapping_mul(6364136223846793005).wrapping_add(1442695040888963407);
        let at = ((seed >> 33) % (10 * 1920)) as usize;
        seed = seed.wrapping_mul(6364136223846793005).wrapping_add(1442695040888963407);
        let value = (seed >> 56) as u8;
        let mut noisy = samples.clone();
        noisy[at] = value;
        let got = decode(&noisy, 1920);
        let hit = at / 1920;
        for (k, sent) in frames.iter().enumerate() {
            if k + 1 < hit || k > hit + 1 {
                assert!(got.iter().any(|f| f.ltc() == *sent), "sample {} set to {}: frame {} lost", at, value, k);
            }
        }
        assert!(got.len() >= 9);
    }
}

#[test]
fn signal_comes_back_after_a_gap() {
    let mut e = encoder(48000, 25, 1, LtcBgFlags::new());
    let (samples, frames) = stream(&mut e, &time(0, 0, 0, 0), 12);
    let mut gapped = samples.clone();
    for s in gapped[4 * 1920 + 500..6 * 1920 + 700].iter_mut() {
        *s = 128;
    }
    let got = decode(&gapped, 1920);
    let sent: Vec<LTCFrame> = got.iter().map(|f| f.ltc()).collect();
    for k in 0..4 {
        assert!(sent.contains(&frames[k]));
    }
    for k in 8..12 {
        assert!(sent.contains(&frames[k]));
    }
    // nothing was made up out of the gap
    assert!(sent.iter().all(|f| frames.contains(f)));
}

#[test]
fn frames_played_backwards_are_told_and_put_in_order() {
    let mut e = encoder(48000, 25, 1, LtcBgFlags::new());
    let mut samples: Vec<u8> = Vec::new();
    let mut sent: Vec<LTCFrame> = Vec::new();
    e.set_timecode(&time(3, 1, 10, 4));
    for _ in 0..5 {
        sent.push(e.get_frame());
        e.encode_reversed_frame();
        let (buf, n) = e.copy_buffer();
        samples.extend_from_slice(&buf[..n]);
        e.dec_timecode();
    }
    assert_eq!(e.end_encode(), Ok(()));
    let (buf, n) = e.copy_buffer();
    samples.extend_from_slice(&buf[..n]);
    let got = decode(&samples, 1920);
    // the sync word comes first when played backwards: a frame is known
    // when the sync word of the next has passed
    assert_eq!(got.len(), 4);
    for (k, f) in got.iter().enumerate() {
        assert!(f.reverse());
        assert_eq!(f.ltc(), sent[k]);
        assert_eq!(f.ltc().to_timecode(LtcBgFlags::new()), time(3, 1, 10, 4 - k as u8));
        assert_eq!(f.off_start(), 1920 * k as i64);
        assert_eq!(f.off_end(), 1920 * k as i64 + 1919);
    }
}

#[test]
fn queue_of_the_decoder_keeps_the_newest_frames() {
    let mut e = encoder(48000, 25, 1, LtcBgFlags::new());
    let (samples, frames) = stream(&mut e, &time(0, 0, 0, 0), 10);
    let mut d = LTCDecoder::try_new(1920, 4).unwrap();
    d.write_u8(&samples, 0);
    assert_eq!(d.queue_length(), 4);
    let got = drain(&mut d);
    assert_eq!(got.len(), 4);
    for (k, f) in got.iter().enumerate() {
        assert_eq!(f.ltc(), frames[6 + k]);
    }
    assert_eq!(d.queue_length(), 0);
}

#[test]
fn queue_flush_drops_what_was_not_read() {
    let mut e = encoder(48000, 25, 1, LtcBgFlags::new());
    let (samples, frames) = stream(&mut e, &time(0, 0, 0, 0), 6);
    let mut d = LTCDecoder::try_new(1920, 32).unwrap();
    d.write_u8(&samples[..3 * 1920 + 100], 0);
    assert_eq!(d.queue_length(), 3);
    d.queue_flush();
    assert_eq!(d.queue_length(), 0);
    assert!(d.read().is_none());
    // the decoder has kept its place in the signal
    d.write_u8(&samples[3 * 1920 + 100..], 3 * 1920 + 100);
    let got = drain(&mut d);
    assert_eq!(got.len(), 3);
    assert_eq!(got[0].ltc(), frames[3]);
    assert_eq!(got[0].off_start(), 3 * 1920);
}

#[test]
fn sample_formats_are_brought_to_one_scale() {
    let mut e = encoder(48000, 25, 1, LtcBgFlags::new());
    let (samples, frames) = stream(&mut e, &time(9, 8, 7, 6), 3);
    let want = decode(&samples, 1920);
    assert_eq!(want.len(), 3);
    assert_eq!(want[0].ltc(), frames[0]);

    let wide: Vec<i32> = samples.iter().map(|&s| s as i32).collect();
    let mut d = LTCDecoder::try_new(1920, 32).unwrap();
    d.write(&wide, 0);
    assert_eq!(drain(&mut d), want);

    let signed: Vec<i16> = samples.iter().map(|&s| ((s as i32 - 128) * 256 + 77) as i16).collect();
    let mut d = LTCDecoder::try_new(1920, 32).unwrap();
    d.write_s16(&signed, 0);
    assert_eq!(drain(&mut d), want);

    let unsigned: Vec<u16> = samples.iter().map(|&s| s as u16 * 256 + 200).collect();
    let mut d = LTCDecoder::try_new(1920, 32).unwrap();
    d.write_u16(&unsigned, 0);
    assert_eq!(drain(&mut d), want);
}

#[test]
fn samples_off_the_scale_are_held_to_it() {
    let mut e = encoder(48000, 25, 1, LtcBgFlags::new());
    assert_eq!(e.set_volume(127), Ok(()));
    let (samples, _) = stream(&mut e, &time(9, 8, 7, 6), 2);
    let want = decode(&samples, 1920);
    assert_eq!(want.len(), 2);
    assert_eq!(want[0].sample_min(), 1);
    // 1 and 255 pushed far off the scale of a byte
    let wide: Vec<i32> = samples.iter().map(|&s| if s > 128 { 70_000 } else { -70_000 }).collect();
    let mut d = LTCDecoder::try_new(1920, 32).unwrap();
    d.write(&wide, 0);
    let got = drain(&mut d);
    assert_eq!(got.len(), 2);
    assert_eq!(got[0].ltc(), want[0].ltc());
    assert_eq!(got[0].sample_min(), 0);
    assert_eq!(got[0].sample_max(), want[0].sample_max());
    // the extremes of 16 bits
    let mut d = LTCDecoder::try_new(1920, 32).unwrap();
    let signed: Vec<i16> = samples.iter().map(|&s| if s > 128 { i16::MAX } else { i16::MIN }).collect();
    d.write_s16(&signed, 0);
    let got = drain(&mut d);
    assert_eq!(got.len(), 2);
    assert_eq!(got[0].sample_min(), 0);
    assert_eq!(got[0].ltc(), want[0].ltc());
}

#[test]
fn decoder_follows_a_signal_that_runs_fast_or_slow() {
    for speed in [900, 950, 1050, 1100] {
        let mut e = encoder(48000, 25, 1, LtcBgFlags::new());
        e.set_timecode(&time(0, 0, 0, 0));
        let mut samples: Vec<u8> = Vec::new();
        let mut sent: Vec<LTCFrame> = Vec::new();
        assert_eq!(e.set_bufsize(96000, 25, 1), Ok(()));
        for _ in 0..6 {
            sent.push(e.get_frame());
            for byte in 0..10 {
                assert_eq!(e.encode_byte(byte, speed), Ok(()));
            }
            let (buf, n) = e.copy_buffer();
            samples.extend_from_slice(&buf[..n]);
            e.inc_timecode();
        }
        let (buf, _) = e.get_buf_ref(true);
        samples.extend_from_slice(&buf);
        let got = decode(&samples, 1920);
        assert_eq!(got.len(), 6, "speed {}", speed);
        for (k, f) in got.iter().enumerate() {
            assert_eq!(f.ltc(), sent[k]);
        }
    }
}

#[test]
fn tolerance_can_be_set() {
    let mut e = encoder(48000, 25, 1, LtcBgFlags::new());
    let (samples, frames) = stream(&mut e, &time(0, 0, 0, 0), 8);
    // a decoder that begins with a cell of a tenth of the true length takes
    // every pulse for a gap until its first estimate is of no more use
    let mut d = LTCDecoder::try_new(192, 32).unwrap();
    d.write_u8(&samples, 0);
    assert_eq!(drain(&mut d).len(), 0);
    // with a wide tolerance it finds the cell
    let mut d = LTCDecoder::try_new(192, 32).unwrap();
    d.set_tolerance(40, 4);
    d.write_u8(&samples, 0);
    let got = drain(&mut d);
    assert!(got.len() >= 6);
    assert_eq!(got.last().unwrap().ltc(), frames[7]);
}

/// The signal with every sample moved: the first of each pulse stays beyond
/// `near` steps from the centre, the others stay on their side, and none
/// lies more than `far` steps from the centre.
fn shaken(samples: &[u8], near: u8, far: u8, mut seed: u64) -> Vec<u8> {
    let mut out = Vec::with_capacity(samples.len());
    for (i, s) in samples.iter().enumerate() {
        seed = seed.wrapping_mul(6364136223846793005).wrapping_add(1442695040888963407);
        let first = i == 0 || (samples[i - 1] < 128) != (*s < 128);
        let least = if first { near + 1 } else { 0 };
        let away = least + ((seed >> 40) % u64::from(far - least + 1)) as u8;
        out.push(if *s < 128 { 128 - away } else { 128 + away });
    }
    out
}

#[test]
fn noise_that_leaves_the_edges_changes_no_frame() {
    let mut e = encoder(48000, 30000, 1001, LtcBgFlags::new().with(LtcBgFlagsKind::LTC_USE_PARITY));
    let (samples, frames) = stream(&mut e, &time(22, 59, 59, 20), 12);
    let clean = decode(&samples, 1602);
    assert_eq!(clean.len(), 12);
    // no louder than the signal, the first of each pulse beyond half of it
    for seed in [1u64, 2, 3, 4, 5] {
        let got = decode(&shaken(&samples, 45, 90, seed), 1602);
        assert_eq!(got.len(), 12);
        for k in 0..12 {
            assert_eq!(got[k].ltc(), frames[k]);
            assert_eq!(got[k].off_start(), clean[k].off_start());
            assert_eq!(got[k].off_end(), clean[k].off_end());
            assert_eq!(got[k].reverse(), clean[k].reverse());
            assert_eq!(got[k].biphase_tics(), clean[k].biphase_tics());
        }
    }
    // as loud as samples can be, the first of each pulse beyond half of that
    for seed in [6u64, 7, 8] {
        let got = decode(&shaken(&samples, 63, 127, seed), 1602);
        assert_eq!(got.len(), 12);
        for k in 0..12 {
            assert_eq!(got[k].ltc(), frames[k]);
            assert_eq!(got[k].off_start(), clean[k].off_start());
            assert_eq!(got[k].off_end(), clean[k].off_end());
        }
    }
}

#[test]
fn one_sample_off_its_level_costs_nothing_while_it_stays_on_its_side() {
    let mut e = encoder(48000, 25, 1, LtcBgFlags::new());
    let (samples, frames) = stream(&mut e, &time(3, 1, 10, 0), 4);
    let clean = decode(&samples, 1920);
    for at in (0..samples.len()).step_by(7) {
        let first = at == 0 || (samples[at - 1] < 128) != (samples[at] < 128);
        for away in [0u8, 1, 44, 46, 90] {
            if first && away <= 45 {
                continue;
            }
            let mut noisy = samples.clone();
            noisy[at] = if samples[at] < 128 { 128 - away } else { 128 + away };
            let got = decode(&noisy, 1920);
            assert_eq!(got.len(), 4, "sample {} moved to {}", at, noisy[at]);
            for k in 0..4 {
                assert_eq!(got[k].ltc(), frames[k]);
                assert_eq!(got[k].off_start(), clean[k].off_start());
                assert_eq!(got[k].off_end(), clean[k].off_end());
            }
        }
    }
}

#[test]
fn pulses_far_too_short_for_the_estimate_are_out_of_tolerance_too() {
    let mut e = encoder(48000, 25, 1, LtcBgFlags::new());
    let (samples, frames) = stream(&mut e, &time(0, 0, 0, 0), 8);
    // a decoder that begins with a cell of ten times the true length takes
    // every pulse for noise and keeps its estimate
    let mut d = LTCDecoder::try_new(19200, 32).unwrap();
    d.write_u8(&samples, 0);
    assert_eq!(drain(&mut d).len(), 0);
    // with a wide tolerance it finds the cell
    let mut d = LTCDecoder::try_new(19200, 32).unwrap();
    d.set_tolerance(40, 4);
    d.write_u8(&samples, 0);
    let got = drain(&mut d);
    assert!(got.len() >= 6);
    assert_eq!(got.last().unwrap().ltc(), frames[7]);
    // three times the true length is within the tolerance that a decoder
    // begins with
    let mut d = LTCDecoder::try_new(3 * 1920, 32).unwrap();
    d.write_u8(&samples, 0);
    let got = drain(&mut d);
    assert!(got.len() >= 6);
    assert_eq!(got.last().unwrap().ltc(), frames[7]);
}

#[test]
fn a_sample_thrown_across_the_centre_costs_the_frame_that_holds_it_and_no_other() {
    for (rate, num, den, apv) in [(48000u32, 25u32, 1u32, 1920i32), (44100, 30000, 1001, 1472)] {
        let mut e = encoder(rate, num, den, LtcBgFlags::new());
        let (samples, frames) = stream(&mut e, &time(3, 1, 10, 0), 5);
        let spf = samples.len() / 5;
        // every sample of the third frame in turn
        for at in 2 * spf..3 * spf {
            let mut noisy = samples.clone();
            noisy[at] = if samples[at] < 128 { 255 } else { 0 };
            let got = decode(&noisy, apv);
            for (k, sent) in frames.iter().enumerate() {
                if k != 2 {
                    assert!(got.iter().any(|f| f.ltc() == *sent), "sample {}: frame {} lost", at, k);
                }
            }
            // and nothing is made up
            assert!(got.iter().all(|f| frames.contains(&f.ltc())), "sample {}", at);
        }
    }
}
