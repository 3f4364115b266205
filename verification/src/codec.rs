//! Half-link codec: events to and from fixed four-byte serial frames.
//!
//! Frame format: `[tag, row, col, terminator]`, where the tag selects press
//! or release, row and col are the raw coordinate bytes, and the terminator
//! is a fixed sentinel the receiver uses to detect frame completion in a
//! rolling byte buffer.

use vstd::prelude::*;
use crate::event::Event;

verus! {

/// Tag byte of a press frame.
pub const TAG_PRESS: u8 = 80;

/// Tag byte of a release frame.
pub const TAG_RELEASE: u8 = 82;

/// Sentinel byte that closes every frame.
pub const TERMINATOR: u8 = 10;

/// Number of bytes in one frame.
pub const FRAME_LEN: usize = 4;

/// A byte sequence that is not a well-formed frame: wrong length, unknown
/// tag, or the terminator not in the last position.
#[derive(Clone, Copy, Debug, PartialEq, Eq, Structural)]
pub struct FrameError;

/// The frame that carries `e`.
pub open spec fn spec_encode(e: Event) -> Seq<u8> {
    match e {
        Event::Press(r, c) => seq![TAG_PRESS, r, c, TERMINATOR],
        Event::Release(r, c) => seq![TAG_RELEASE, r, c, TERMINATOR],
    }
}

/// The event carried by `bytes`, or an error for any byte sequence that is
/// not a well-formed frame.
pub open spec fn spec_decode(bytes: Seq<u8>) -> Result<Event, FrameError> {
    if bytes.len() == FRAME_LEN && bytes[3] == TERMINATOR && bytes[0] == TAG_PRESS {
        Ok(Event::Press(bytes[1], bytes[2]))
    } else if bytes.len() == FRAME_LEN && bytes[3] == TERMINATOR && bytes[0] == TAG_RELEASE {
        Ok(Event::Release(bytes[1], bytes[2]))
    } else {
        Err(FrameError)
    }
}

/// The same event with its column reflected: `col' = max_col - col`.
pub open spec fn spec_mirror(e: Event, max_col: u8) -> Event
    recommends
        e.spec_col() <= max_col,
{
    match e {
        Event::Press(r, c) => Event::Press(r, (max_col - c) as u8),
        Event::Release(r, c) => Event::Release(r, (max_col - c) as u8),
    }
}

/// Serializes an event into one frame for the inter-half link.
pub fn encode(e: Event) -> (frame: Vec<u8>)
    ensures
        frame@ == spec_encode(e),
{
    match e {
        Event::Press(r, c) => {
            let mut frame: Vec<u8> = Vec::new();
            frame.push(TAG_PRESS);
            frame.push(r);
            frame.push(c);
            frame.push(TERMINATOR);
            assert(frame@ =~= spec_encode(e));
            frame
        }
        Event::Release(r, c) => {
            let mut frame: Vec<u8> = Vec::new();
            frame.push(TAG_RELEASE);
            frame.push(r);
            frame.push(c);
            frame.push(TERMINATOR);
            assert(frame@ =~= spec_encode(e));
            frame
        }
    }
}

/// Parses one received frame; fails on anything but a well-formed frame, so
/// the receiver resynchronizes by shifting its buffer and trying again.
pub fn decode(bytes: &[u8]) -> (r: Result<Event, FrameError>)
    ensures
        r == spec_decode(bytes@),
{
    if bytes.len() != FRAME_LEN {
        return Err(FrameError);
    }
    if bytes[3] != TERMINATOR {
        return Err(FrameError);
    }
    if bytes[0] == TAG_PRESS {
        Ok(Event::Press(bytes[1], bytes[2]))
    } else if bytes[0] == TAG_RELEASE {
        Ok(Event::Release(bytes[1], bytes[2]))
    } else {
        Err(FrameError)
    }
}

/// Reflects an event's column for the half whose physical columns run in
/// reverse, so that both halves share one logical coordinate space.
pub fn mirror_event(e: Event, max_col: u8) -> (m: Event)
    requires
        e.spec_col() <= max_col,
    ensures
        m == spec_mirror(e, max_col),
{
    match e {
        Event::Press(r, c) => Event::Press(r, max_col - c),
        Event::Release(r, c) => Event::Release(r, max_col - c),
    }
}

/// Law: decoding an encoded event yields the event back, for every event.
pub proof fn lemma_codec_round_trip(e: Event)
    ensures
        spec_decode(spec_encode(e)) == Ok::<Event, FrameError>(e),
{
}

/// Law: on a mirrored receiving half, decoding an encoded event yields the
/// event with its column reflected to `max_col - col`.
pub proof fn lemma_codec_round_trip_mirrored(e: Event, max_col: u8)
    requires
        e.spec_col() <= max_col,
    ensures
        spec_decode(spec_encode(e)) matches Ok(d) && spec_mirror(d, max_col)
            == spec_mirror(e, max_col),
        e matches Event::Press(r, c) ==> spec_mirror(
            spec_decode(spec_encode(e)).unwrap(),
            max_col,
        ) == Event::Press(r, (max_col - c) as u8),
{
}

} // verus!
