use ltc::channel::{loop_back, sync_is_clean, sync_is_only_at_end};
use ltc::{
    LTCDecoder, LTCEncoder, LTCFrame, LTCTVStandard, LtcBgFlags, LtcBgFlagsKind, SMPTETimecode,
    Timezone,
};

fn utc() -> Timezone {
    Timezone::new('+', '0', '0', '0', '0')
}

#[test]
fn frames_of_the_clock_hold_the_sync_word_at_their_end_only() {
    assert!(sync_is_only_at_end(&LTCFrame::new()));
    let flags = LtcBgFlags::new().with(LtcBgFlagsKind::LTC_USE_PARITY);
    for h in 0u8..24 {
        for m in [0u8, 19, 37, 59] {
            for s in [0u8, 28, 59] {
                for f in 0u8..30 {
                    let t = SMPTETimecode::new(utc(), 0, 0, 0, h, m, s, f);
                    let frame = LTCFrame::from_timecode(&t, LTCTVStandard::LTCTV_525_60, flags);
                    assert!(sync_is_only_at_end(&frame));
                }
            }
        }
    }
}

#[test]
fn user_bits_can_hold_a_false_sync_word() {
    let mut f = LTCFrame::new();
    f.set_user_bits(0xFFFF_FFFF);
    assert!(sync_is_only_at_end(&f));
    // twelve ones in a row with the right neighbours
    let g = LTCFrame { ltc: [0xFC, 0xBF, 0, 0, 0, 0, 0, 0, 0xFC, 0xBF] };
    assert!(!sync_is_only_at_end(&g));
    // the sync word backwards
    let h = LTCFrame { ltc: [0xFD, 0x3F, 0, 0, 0, 0, 0, 0, 0xFC, 0xBF] };
    assert!(!sync_is_only_at_end(&h));
    // no sync word at the end
    let k = LTCFrame { ltc: [0; 10] };
    assert!(!sync_is_only_at_end(&k));
}

#[test]
fn a_frame_with_a_clean_sync_word_is_decoded_from_a_square_signal() {
    let mut seed: u64 = 0x9E37_79B9_7F4A_7C15;
    let mut tried = 0;
    while tried < 200 {
        seed = seed.wrapping_mul(6364136223846793005).wrapping_add(1442695040888963407);
        let mut bytes = [0u8; 10];
        let mut x = seed;
        for b in bytes.iter_mut().take(8) {
            *b = (x >> 56) as u8;
            x = x.wrapping_mul(6364136223846793005).wrapping_add(1442695040888963407);
        }
        bytes[8] = 0xFC;
        bytes[9] = 0xBF;
        let frame = LTCFrame { ltc: bytes };
        if !sync_is_only_at_end(&frame) {
            continue;
        }
        tried += 1;
        for (rate, num, den) in [(48000u32, 25u32, 1u32), (44100, 30000, 1001), (22050, 24, 1)] {
            let mut e =
                LTCEncoder::try_new(rate, num, den, LTCTVStandard::LTCTV_525_60, LtcBgFlags::new())
                    .unwrap();
            e.set_frame(&frame);
            e.encode_frame();
            let (samples, _) = e.get_buf_ref(true);
            let apv = e.get_buffersize() as i32 - 1;
            let mut d = LTCDecoder::try_new(apv, 8).unwrap();
            d.write_u8(&samples, 1000);
            assert_eq!(d.queue_length(), 1);
            let got = d.read().unwrap();
            assert_eq!(got.ltc(), frame);
            assert!(!got.reverse());
            assert!(got.off_start() < got.off_end());
            assert!((got.off_start() - 1000).abs() <= 8);
        }
    }
}

#[test]
fn frames_of_the_clock_are_clean_after_a_sync_word_too() {
    assert!(sync_is_clean(&LTCFrame::new(), true));
    assert!(sync_is_clean(&LTCFrame::new(), false));
    let flags = LtcBgFlags::new().with(LtcBgFlagsKind::LTC_USE_DATE);
    for h in [0u8, 11, 23] {
        for m in [0u8, 33, 59] {
            for s in [0u8, 59] {
                for f in 0u8..25 {
                    let t = SMPTETimecode::new(Timezone::new('+', '0', '1', '0', '0'), 8, 12, 31, h, m, s, f);
                    let frame = LTCFrame::from_timecode(&t, LTCTVStandard::LTCTV_625_50, flags);
                    assert!(sync_is_clean(&frame, true));
                    assert!(sync_is_clean(&frame, false));
                }
            }
        }
    }
    // a frame that begins with 1101 completes a sync word that came before
    // it only if what came before ended in twelve ones: not after a sync word
    let g = LTCFrame { ltc: [0x0B, 0, 0, 0, 0, 0, 0, 0, 0xFC, 0xBF] };
    assert!(sync_is_clean(&g, true));
    // a frame that holds the sync word in its first two bytes is clean in
    // neither place
    let h = LTCFrame { ltc: [0xFC, 0xBF, 0, 0, 0, 0, 0, 0, 0xFC, 0xBF] };
    assert!(!sync_is_clean(&h, true));
    assert!(!sync_is_clean(&h, false));
}

#[test]
fn a_row_of_clean_frames_is_decoded_in_order() {
    let mut seed: u64 = 0xD1B5_4A32_D192_ED03;
    let mut frames: Vec<LTCFrame> = Vec::new();
    while frames.len() < 40 {
        let mut bytes = [0u8; 10];
        for b in bytes.iter_mut().take(8) {
            seed = seed.wrapping_mul(6364136223846793005).wrapping_add(1442695040888963407);
            *b = (seed >> 56) as u8;
        }
        bytes[8] = 0xFC;
        bytes[9] = 0xBF;
        let frame = LTCFrame { ltc: bytes };
        if sync_is_clean(&frame, !frames.is_empty()) {
            frames.push(frame);
        }
    }
    let mut e = LTCEncoder::try_new(48000, 30000, 1001, LTCTVStandard::LTCTV_525_60, LtcBgFlags::new()).unwrap();
    let mut samples: Vec<u8> = Vec::new();
    for f in frames.iter() {
        e.set_frame(f);
        e.encode_frame();
        let (buf, n) = e.copy_buffer();
        samples.extend_from_slice(&buf[..n]);
    }
    let (tail, _) = e.get_buf_ref(true);
    samples.extend_from_slice(&tail);
    // the decoder may be told a frame length that is a tenth off
    let spf = e.get_buffersize() as i32 - 1;
    assert_eq!(spf, 1602);
    for apv in [spf, 1442, 1500, 1700, 1762] {
        let mut d = LTCDecoder::try_new(apv, 40).unwrap();
        d.write_u8(&samples, 0);
        assert_eq!(d.queue_length(), 40, "told {}", apv);
        for f in frames.iter() {
            let got = d.read().unwrap();
            assert_eq!(got.ltc(), *f);
            assert!(!got.reverse());
        }
        assert!(d.read().is_none());
    }
}

#[test]
fn a_time_of_day_comes_back_from_the_loop() {
    let flags = LtcBgFlags::new().with(LtcBgFlagsKind::LTC_USE_PARITY);
    let t = SMPTETimecode::new(utc(), 0, 0, 0, 23, 59, 59, 24);
    let frame = LTCFrame::from_timecode(&t, LTCTVStandard::LTCTV_625_50, flags);
    for (rate, num, den) in [(48000u32, 25u32, 1u32), (44100, 30000, 1001), (8000, 24, 1), (192000, 30, 1)] {
        let got = loop_back(&frame, rate, num, den).unwrap();
        assert_eq!(got.ltc(), frame);
        assert!(!got.reverse());
        assert!(got.off_start() < got.off_end());
        let back = got.ltc().to_timecode(flags);
        assert_eq!((back.hours, back.mins, back.secs, back.frame), (23, 59, 59, 24));
    }
}

#[test]
fn the_loop_starts_a_frame_at_the_first_sample() {
    let got = loop_back(&LTCFrame::new(), 48000, 25, 1).unwrap();
    assert_eq!(got.off_start(), 0);
    assert_eq!(got.off_end(), 1919);
    assert_eq!(got.sample_min(), 38);
    // the envelope's upper side has sunk a little while the signal was low
    assert_eq!(got.sample_max(), 212);
    assert_eq!(got.volume(), 174);
}

#[test]
fn nothing_comes_back_where_the_rates_describe_no_signal() {
    let frame = LTCFrame::new();
    assert!(loop_back(&frame, 0, 25, 1).is_none());
    assert!(loop_back(&frame, 48000, 0, 1).is_none());
    assert!(loop_back(&frame, 48000, 25, 0).is_none());
}

#[test]
fn frames_with_quick_edges_are_decoded_like_square_ones() {
    let flags = LtcBgFlags::new();
    let mut sent: Vec<LTCFrame> = Vec::new();
    let mut square: Vec<u8> = Vec::new();
    let mut shaped: Vec<u8> = Vec::new();
    // 33497 is the least coefficient that takes the first sample of a
    // pulse beyond half of a level of 90
    for (filter, samples) in [(0u32, &mut square), (33497u32, &mut shaped)] {
        let mut e = LTCEncoder::try_new(48000, 25, 1, LTCTVStandard::LTCTV_625_50, flags).unwrap();
        e.set_filter(filter);
        e.set_timecode(&SMPTETimecode::new(utc(), 0, 0, 0, 11, 59, 59, 22));
        sent.clear();
        for _ in 0..6 {
            sent.push(e.get_frame());
            e.encode_frame();
            let (buf, n) = e.copy_buffer();
            samples.extend_from_slice(&buf[..n]);
            e.inc_timecode();
        }
        let (tail, _) = e.get_buf_ref(true);
        samples.extend_from_slice(&tail);
    }
    assert_eq!(square.len(), shaped.len());
    assert_eq!(square[0], 218);
    assert_eq!(shaped[0], 174);
    assert_ne!(square, shaped);
    let mut a = LTCDecoder::try_new(1920, 8).unwrap();
    let mut b = LTCDecoder::try_new(1920, 8).unwrap();
    a.write_u8(&square, 0);
    b.write_u8(&shaped, 0);
    assert_eq!(a.queue_length(), 6);
    assert_eq!(b.queue_length(), 6);
    for f in sent.iter() {
        let x = a.read().unwrap();
        let y = b.read().unwrap();
        assert_eq!(x.ltc(), *f);
        assert_eq!(y.ltc(), *f);
        assert_eq!(x.off_start(), y.off_start());
        assert_eq!(x.off_end(), y.off_end());
        assert_eq!(x.biphase_tics(), y.biphase_tics());
    }
}

#[test]
fn a_row_played_backwards_is_decoded_but_for_its_last_frame() {
    let flags = LtcBgFlags::new();
    let mut e = LTCEncoder::try_new(44100, 30000, 1001, LTCTVStandard::LTCTV_525_60, flags).unwrap();
    e.set_timecode(&SMPTETimecode::new(utc(), 0, 0, 0, 0, 10, 0, 3));
    e.set_user_bits(0xFFFF_FFFF);
    let mut sent: Vec<LTCFrame> = Vec::new();
    let mut samples: Vec<u8> = Vec::new();
    for _ in 0..7 {
        sent.push(e.get_frame());
        e.encode_reversed_frame();
        let (buf, n) = e.copy_buffer();
        samples.extend_from_slice(&buf[..n]);
        e.dec_timecode();
    }
    let (tail, _) = e.get_buf_ref(true);
    samples.extend_from_slice(&tail);
    let spf = e.get_buffersize() as i32 - 1;
    assert_eq!(spf, 1472);
    for apv in [spf, 1325, 1400, 1550, 1619] {
        let mut d = LTCDecoder::try_new(apv, 7).unwrap();
        d.write_u8(&samples, 0);
        assert_eq!(d.queue_length(), 6, "told {}", apv);
        for f in sent.iter().take(6) {
            let got = d.read().unwrap();
            assert_eq!(got.ltc(), *f);
            assert!(got.reverse());
        }
        assert!(d.read().is_none());
    }
}

#[test]
fn one_frame_played_backwards_is_not_known_yet() {
    let start = SMPTETimecode::new(utc(), 0, 0, 0, 1, 2, 3, 4);
    let mut e = LTCEncoder::try_new(48000, 25, 1, LTCTVStandard::LTCTV_625_50, LtcBgFlags::new()).unwrap();
    e.set_timecode(&start);
    e.encode_reversed_frame();
    let (samples, _) = e.get_buf_ref(true);
    let mut d = LTCDecoder::try_new(1920, 4).unwrap();
    d.write_u8(&samples, 0);
    assert_eq!(d.queue_length(), 0);
    // the sync word of a second frame tells the first
    let mut e = LTCEncoder::try_new(48000, 25, 1, LTCTVStandard::LTCTV_625_50, LtcBgFlags::new()).unwrap();
    e.set_timecode(&start);
    let sent = e.get_frame();
    e.encode_reversed_frame();
    let (first, n) = e.copy_buffer();
    e.dec_timecode();
    e.encode_reversed_frame();
    let (second, _) = e.get_buf_ref(true);
    let mut d = LTCDecoder::try_new(1920, 4).unwrap();
    d.write_u8(&first[..n], 0);
    d.write_u8(&second, n as i64);
    assert_eq!(d.queue_length(), 1);
    let got = d.read().unwrap();
    assert_eq!(got.ltc(), sent);
    assert_eq!(got.ltc().to_timecode(LtcBgFlags::new()), start);
    assert!(got.reverse());
    assert_eq!(got.off_start(), 0);
    assert_eq!(got.off_end(), 1919);
}
