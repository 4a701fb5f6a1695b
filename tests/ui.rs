use synthscope::ui::{apply_keys, LoopState, SampleRing};

#[test]
fn keys_resize_window() {
    assert_eq!(apply_keys(1500, &vec![b'+', b'+']), (1600, LoopState::Continue));
    assert_eq!(apply_keys(1500, &vec![b'-']), (1450, LoopState::Continue));
    assert_eq!(apply_keys(50, &vec![b'-']), (50, LoopState::Continue));
    assert_eq!(apply_keys(60, &vec![b'-', b'-']), (10, LoopState::Continue));
    assert_eq!(apply_keys(100, &vec![b'x', b'?']), (100, LoopState::Continue));
    assert_eq!(apply_keys(usize::MAX - 10, &vec![b'+']), (usize::MAX, LoopState::Continue));
}

#[test]
fn quit_stops_reading_keys() {
    assert_eq!(apply_keys(100, &vec![b'+', b'q', b'+']), (150, LoopState::Exit));
    assert_eq!(apply_keys(100, &vec![]), (100, LoopState::Continue));
}

#[test]
fn ring_frame_needs_a_full_window() {
    let mut ring = SampleRing::new(4, 0i32);
    ring.add_sample(1);
    ring.add_sample(2);
    assert_eq!(ring.frame(3), Vec::<i32>::new());
    ring.add_sample(3);
    assert_eq!(ring.frame(3), vec![1, 2, 3]);
    assert_eq!(ring.total(), 3);
    assert_eq!(ring.capacity(), 4);
}

#[test]
fn ring_overwrites_oldest() {
    let mut ring = SampleRing::new(4, 0i32);
    for x in 1..=10 {
        ring.add_sample(x);
    }
    assert_eq!(ring.frame(4), vec![7, 8, 9, 10]);
    assert_eq!(ring.frame(2), vec![9, 10]);
    assert_eq!(ring.frame(0), Vec::<i32>::new());
}
