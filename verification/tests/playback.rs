use au_splitter::playback::Playback;

#[test]
fn delivery_cycles_through_frames() {
    let mut loop_state = Playback::new();
    assert_eq!(0, loop_state.counter);
    assert_eq!((0, true), loop_state.tick(3));
    assert_eq!((1, false), loop_state.tick(3));
    assert_eq!((2, false), loop_state.tick(3));
    assert_eq!((0, true), loop_state.tick(3));
    assert_eq!(4, loop_state.counter);
}

#[test]
fn single_frame_is_always_key() {
    let mut loop_state = Playback::new();
    assert_eq!((0, true), loop_state.tick(1));
    assert_eq!((0, true), loop_state.tick(1));
}
