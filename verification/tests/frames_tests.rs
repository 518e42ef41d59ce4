use nbody::frames::FrameCounter;

#[test]
fn clock_is_read_on_frames_one_eleven_twenty_one() {
    let mut c = FrameCounter::new();
    let mut reads = Vec::new();
    for frame in 1..=25 {
        if c.tick() {
            reads.push(frame);
        }
    }
    assert_eq!(reads, vec![1, 11, 21]);
    assert_eq!(c.itr, 25);
}

#[test]
fn report_waits_for_a_full_second_then_restarts() {
    let mut c = FrameCounter::new();
    assert!(c.tick());
    assert_eq!(c.clock(0), None);
    assert_eq!(c.itr, 1);
    for _ in 0..10 {
        c.tick();
    }
    assert_eq!(c.itr, 11);
    assert_eq!(c.clock(2), Some(11));
    assert_eq!(c.itr, 0);
}
