use split_kb_core::codec::{decode, encode, mirror_event, FrameError, FRAME_LEN, TAG_PRESS, TAG_RELEASE, TERMINATOR};
use split_kb_core::event::Event;

#[test]
fn encode_press_frame_layout() {
    let f = encode(Event::Press(2, 7));
    assert_eq!(f, vec![TAG_PRESS, 2, 7, TERMINATOR]);
    assert_eq!(f.len(), FRAME_LEN);
}

#[test]
fn encode_release_frame_layout() {
    let f = encode(Event::Release(3, 11));
    assert_eq!(f, vec![TAG_RELEASE, 3, 11, TERMINATOR]);
}

#[test]
fn round_trip_press() {
    let e = Event::Press(1, 9);
    assert_eq!(decode(&encode(e)), Ok(e));
}

#[test]
fn round_trip_release() {
    let e = Event::Release(0, 0);
    assert_eq!(decode(&encode(e)), Ok(e));
}

#[test]
fn round_trip_all_coordinates_of_a_small_grid() {
    for r in 0..4u8 {
        for c in 0..12u8 {
            assert_eq!(decode(&encode(Event::Press(r, c))), Ok(Event::Press(r, c)));
            assert_eq!(decode(&encode(Event::Release(r, c))), Ok(Event::Release(r, c)));
        }
    }
}

#[test]
fn decode_rejects_unknown_tag() {
    assert_eq!(decode(&[b'X', 0, 1, b'\n']), Err(FrameError));
}

#[test]
fn decode_rejects_missing_terminator() {
    assert_eq!(decode(&[b'P', 0, 1, 0]), Err(FrameError));
}

#[test]
fn decode_rejects_wrong_length() {
    assert_eq!(decode(&[b'P', 0, 1]), Err(FrameError));
    assert_eq!(decode(&[b'P', 0, 1, b'\n', 0]), Err(FrameError));
    assert_eq!(decode(&[]), Err(FrameError));
}

#[test]
fn mirrored_round_trip_reflects_column() {
    let e = Event::Press(2, 3);
    let d = decode(&encode(e)).unwrap();
    assert_eq!(mirror_event(d, 11), Event::Press(2, 8));
    let e2 = Event::Release(1, 11);
    let d2 = decode(&encode(e2)).unwrap();
    assert_eq!(mirror_event(d2, 11), Event::Release(1, 0));
}
