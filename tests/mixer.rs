use synthscope::mixer::Mixer;

#[test]
fn voices_start_with_zero_clock() {
    let mut m: Mixer<&str> = Mixer::new();
    assert_eq!(m.chunks.len(), 0);
    m.add_sample("a");
    m.add_sample("b");
    assert_eq!(m.chunks.len(), 2);
    assert_eq!(m.chunks[1].sample, "b");
    assert_eq!(m.chunks[0].samples, 0);
}

#[test]
fn finished_voice_is_gone_on_next_tick() {
    let mut m: Mixer<char> = Mixer::new();
    for c in ['a', 'b', 'c', 'd'] {
        m.add_sample(c);
    }
    m.retire(&vec![false, true, false, true]);
    let left: Vec<(char, u64)> = m.chunks.iter().map(|c| (c.sample, c.samples)).collect();
    assert_eq!(left, vec![('a', 1), ('c', 1)]);
    m.add_sample('e');
    m.retire(&vec![false, false, false]);
    let left: Vec<(char, u64)> = m.chunks.iter().map(|c| (c.sample, c.samples)).collect();
    assert_eq!(left, vec![('a', 2), ('c', 2), ('e', 1)]);
    m.retire(&vec![true, true, true]);
    assert!(m.chunks.is_empty());
}

#[test]
fn clock_saturates() {
    let mut m: Mixer<u8> = Mixer::new();
    m.add_sample(1);
    m.chunks[0].samples = u64::MAX;
    m.retire(&vec![false]);
    assert_eq!(m.chunks[0].samples, u64::MAX);
}
