use synthscope::adsr::{AdsrState, Envelope, EnvelopeTick};

#[test]
fn lifecycle_at_one_kilohertz() {
    // attack 0.1 s, decay 0.1 s, sustain 0.2 s, release 0.2 s at 1000 samples per second
    let mut env = Envelope::new(100, 100, 200, 200);
    let stages = [
        (AdsrState::Attack, 100u64),
        (AdsrState::Decay, 100),
        (AdsrState::Sustain, 200),
        (AdsrState::Release, 200),
    ];
    for (state, length) in stages {
        assert_eq!(env.state(), state);
        for elapsed in 1..=length {
            assert_eq!(env.next(), EnvelopeTick::Ramp { state, elapsed, length });
            assert!(!env.finished());
        }
        assert_eq!(env.next(), EnvelopeTick::End { state });
    }
    assert!(env.finished());
    for _ in 0..10 {
        assert_eq!(env.next(), EnvelopeTick::Silent);
        assert!(env.finished());
    }
}

#[test]
fn zero_length_stages_end_at_once() {
    let mut env = Envelope::new(0, 0, 0, 0);
    assert_eq!(env.next(), EnvelopeTick::End { state: AdsrState::Attack });
    assert_eq!(env.next(), EnvelopeTick::End { state: AdsrState::Decay });
    assert_eq!(env.next(), EnvelopeTick::End { state: AdsrState::Sustain });
    assert!(!env.finished());
    assert_eq!(env.next(), EnvelopeTick::End { state: AdsrState::Release });
    assert!(env.finished());
    assert_eq!(env.state(), AdsrState::Finished);
}
