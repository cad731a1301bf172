use ltc::{FrameQueue, LTCFrameExt};

fn frame(n: i64) -> LTCFrameExt {
    let mut f = LTCFrameExt::default();
    f.set_off_start(n);
    f.set_off_end(n + 1919);
    f
}

#[test]
fn queue_of_no_capacity_cannot_be_made() {
    assert!(FrameQueue::new(0).is_none());
    assert!(FrameQueue::new(1).is_some());
}

#[test]
fn queue_is_first_in_first_out() {
    let mut q = FrameQueue::new(4).unwrap();
    assert!(q.is_empty());
    assert_eq!(q.capacity(), 4);
    for n in 0..3 {
        assert!(!q.push(frame(n)));
    }
    assert_eq!(q.len(), 3);
    assert_eq!(q.pop().unwrap().off_start(), 0);
    assert_eq!(q.pop().unwrap().off_start(), 1);
    assert_eq!(q.pop().unwrap().off_start(), 2);
    assert!(q.pop().is_none());
    assert!(q.pop().is_none());
}

#[test]
fn full_queue_drops_the_oldest() {
    let mut q = FrameQueue::new(3).unwrap();
    for n in 0..3 {
        assert!(!q.push(frame(n)));
    }
    for n in 3..10 {
        assert!(q.push(frame(n)));
        assert_eq!(q.len(), 3);
    }
    assert_eq!(q.pop().unwrap().off_start(), 7);
    assert_eq!(q.pop().unwrap().off_start(), 8);
    assert_eq!(q.pop().unwrap().off_start(), 9);
    assert!(q.pop().is_none());
}

#[test]
fn queue_of_one_keeps_the_newest() {
    let mut q = FrameQueue::new(1).unwrap();
    assert!(!q.push(frame(5)));
    assert!(q.push(frame(6)));
    assert_eq!(q.pop().unwrap().off_start(), 6);
    assert!(q.is_empty());
}

#[test]
fn flush_empties_the_queue() {
    let mut q = FrameQueue::new(5).unwrap();
    for n in 0..4 {
        q.push(frame(n));
    }
    q.flush();
    assert_eq!(q.len(), 0);
    assert!(q.pop().is_none());
    assert!(!q.push(frame(9)));
    assert_eq!(q.pop().unwrap().off_start(), 9);
}

#[test]
fn frame_ext_fields_can_be_read_and_set() {
    let mut f = LTCFrameExt::default();
    assert_eq!(f.ltc().ltc, [0, 0, 0, 0, 0, 0, 0, 0, 0xFC, 0xBF]);
    assert_eq!((f.off_start(), f.off_end(), f.reverse()), (0, 0, false));
    f.set_off_start(-24);
    f.set_off_end(1895);
    f.set_reverse(true);
    f.set_sample_min(38);
    f.set_sample_max(218);
    f.set_volume(180);
    let mut tics = [0u32; 80];
    tics[79] = 6144;
    f.set_biphase_tics(tics);
    assert_eq!((f.off_start(), f.off_end(), f.reverse()), (-24, 1895, true));
    assert_eq!((f.sample_min(), f.sample_max(), f.volume()), (38, 218, 180));
    assert_eq!(f.biphase_tics()[79], 6144);
    assert_eq!(f.biphase_tics()[0], 0);
}
