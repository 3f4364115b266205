//! Inter-half link plumbing and per-tick orchestration.
//!
//! The secondary half serializes each debounced event into a frame for the
//! serial link; the primary half shifts received bytes through a rolling
//! four-byte buffer, decoding whenever the terminator lands in the last
//! position, and feeds decoded events plus its own debounced events into the
//! layout engine, then ticks it and snapshots the HID report.

use vstd::prelude::*;
use crate::codec::FRAME_LEN;
use crate::codec::decode;
use crate::codec::encode;
use crate::codec::mirror_event;
use crate::codec::spec_decode;
use crate::codec::spec_encode;
use crate::codec::spec_mirror;
use crate::engine::CustomEvent;
use crate::engine::EngineModel;
use crate::engine::LayoutEngine;
use crate::engine::active_keys;
use crate::engine::active_mods;
use crate::engine::event_tr;
use crate::engine::tick_tr;
use crate::event::Event;
use crate::report::HidReport;
use crate::report::spec_mods;
use crate::report::spec_nonmod;

verus! {

/// The event a shifted receive buffer yields: the decoded event, with its
/// column reflected on a mirrored half; nothing for a malformed frame or a
/// column outside the mirrored range.
pub open spec fn spec_rx(buf: Seq<u8>, mirrored: bool, max_col: u8) -> Option<Event> {
    match spec_decode(buf) {
        Ok(e) => if !mirrored {
            Some(e)
        } else if e.spec_col() <= max_col {
            Some(spec_mirror(e, max_col))
        } else {
            None
        },
        Err(_) => None,
    }
}

/// Shifts one received byte into the rolling four-byte buffer and decodes
/// the buffer when it now holds a complete frame. A malformed frame yields
/// nothing and the buffer keeps shifting, so the receiver resynchronizes.
pub fn rx_push(buf: &mut Vec<u8>, b: u8, mirrored: bool, max_col: u8) -> (r: Option<Event>)
    requires
        old(buf)@.len() == FRAME_LEN,
    ensures
        final(buf)@ == old(buf)@.skip(1).push(b),
        final(buf)@.len() == FRAME_LEN,
        r == spec_rx(old(buf)@.skip(1).push(b), mirrored, max_col),
{
    let x1 = buf[1];
    let x2 = buf[2];
    let x3 = buf[3];
    buf.set(0, x1);
    buf.set(1, x2);
    buf.set(2, x3);
    buf.set(3, b);
    proof {
        assert(buf@ =~= old(buf)@.skip(1).push(b));
    }
    match decode(buf.as_slice()) {
        Ok(e) => {
            if !mirrored {
                Some(e)
            } else if e.col() <= max_col {
                Some(mirror_event(e, max_col))
            } else {
                None
            }
        },
        Err(_) => None,
    }
}

/// The frames that carry a batch of events, one per event, in order.
pub fn frames_for_events(events: &Vec<Event>) -> (frames: Vec<Vec<u8>>)
    ensures
        frames@.len() == events@.len(),
        forall|i: int| 0 <= i < events@.len() ==> (#[trigger] frames@[i])@ == spec_encode(
            events@[i],
        ),
{
    let mut frames: Vec<Vec<u8>> = Vec::new();
    let mut i: usize = 0;
    while i < events.len()
        invariant
            i <= events@.len(),
            frames@.len() == i,
            forall|j: int| 0 <= j < i ==> (#[trigger] frames@[j])@ == spec_encode(events@[j]),
        decreases events@.len() - i,
    {
        frames.push(encode(events[i]));
        i = i + 1;
    }
    frames
}

/// The engine after a batch of events, fed in order.
pub open spec fn feed_events_tr(m: EngineModel, evs: Seq<Event>) -> EngineModel
    decreases evs.len(),
{
    if evs.len() == 0 {
        m
    } else {
        feed_events_tr(event_tr(m, evs[0]).0, evs.skip(1))
    }
}

/// The custom-action signals a batch of events surfaces, in order.
pub open spec fn feed_signals(m: EngineModel, evs: Seq<Event>) -> Seq<CustomEvent>
    decreases evs.len(),
{
    if evs.len() == 0 {
        Seq::empty()
    } else {
        let cu = event_tr(m, evs[0]).1;
        let rest = feed_signals(event_tr(m, evs[0]).0, evs.skip(1));
        if cu == CustomEvent::NoEvent {
            rest
        } else {
            seq![cu] + rest
        }
    }
}

/// Feeding one more event feeds the batch, then the event.
proof fn lemma_feed_snoc(m: EngineModel, s: Seq<Event>, e: Event)
    ensures
        feed_events_tr(m, s.push(e)) == event_tr(feed_events_tr(m, s), e).0,
        feed_signals(m, s.push(e)) == feed_signals(m, s) + (if event_tr(
            feed_events_tr(m, s),
            e,
        ).1 == CustomEvent::NoEvent {
            Seq::<CustomEvent>::empty()
        } else {
            seq![event_tr(feed_events_tr(m, s), e).1]
        }),
    decreases s.len(),
{
    if s.len() == 0 {
        assert(s.push(e)[0] == e);
        assert(s.push(e).skip(1) =~= Seq::<Event>::empty());
        assert(feed_events_tr(event_tr(m, e).0, Seq::<Event>::empty()) == event_tr(m, e).0);
        assert(feed_events_tr(m, s.push(e)) == event_tr(m, e).0);
        assert(feed_signals(event_tr(m, e).0, Seq::<Event>::empty()) == Seq::<CustomEvent>::empty());
        assert(feed_signals(m, s.push(e)) =~= feed_signals(m, s) + (if event_tr(
            feed_events_tr(m, s),
            e,
        ).1 == CustomEvent::NoEvent {
            Seq::<CustomEvent>::empty()
        } else {
            seq![event_tr(feed_events_tr(m, s), e).1]
        }));
    } else {
        assert(s.push(e)[0] == s[0]);
        assert(s.push(e).skip(1) =~= s.skip(1).push(e));
        lemma_feed_snoc(event_tr(m, s[0]).0, s.skip(1), e);
        assert(feed_signals(m, s.push(e)) =~= feed_signals(m, s) + (if event_tr(
            feed_events_tr(m, s),
            e,
        ).1 == CustomEvent::NoEvent {
            Seq::<CustomEvent>::empty()
        } else {
            seq![event_tr(feed_events_tr(m, s), e).1]
        }));
    }
}

/// One primary-side tick: feeds the batch of debounced and link-received
/// events into the engine in order, advances time by one tick, and
/// snapshots the boot report; returns the report and the custom-action
/// signals the events surfaced, in order.
pub fn primary_tick(engine: &mut LayoutEngine, events: &Vec<Event>) -> (out: (
    HidReport,
    Vec<CustomEvent>,
))
    requires
        old(engine).model().wf(),
    ensures
        final(engine).model() == tick_tr(feed_events_tr(old(engine).model(), events@)),
        final(engine).model().wf(),
        out.1@ == feed_signals(old(engine).model(), events@),
        out.0.wf(),
        out.0.modifiers == active_mods(final(engine).model()) | spec_mods(
            active_keys(final(engine).model()),
        ),
        spec_nonmod(active_keys(final(engine).model())).len() <= 6 ==> out.0.keycodes@
            == spec_nonmod(active_keys(final(engine).model())) + Seq::new(
            (6 - spec_nonmod(active_keys(final(engine).model())).len()) as nat,
            |i: int| 0u8,
        ),
        spec_nonmod(active_keys(final(engine).model())).len() > 6 ==> out.0.keycodes@
            == spec_nonmod(active_keys(final(engine).model())).take(6),
{
    let ghost m0 = engine.model();
    let mut signals: Vec<CustomEvent> = Vec::new();
    let mut i: usize = 0;
    proof {
        assert(events@.take(0) =~= Seq::<Event>::empty());
    }
    while i < events.len()
        invariant
            i <= events@.len(),
            m0.wf(),
            engine.model() == feed_events_tr(m0, events@.take(i as int)),
            engine.model().wf(),
            signals@ == feed_signals(m0, events@.take(i as int)),
        decreases events@.len() - i,
    {
        let e = events[i];
        proof {
            assert(events@.take(i + 1) =~= events@.take(i as int).push(e));
            lemma_feed_snoc(m0, events@.take(i as int), e);
        }
        let cu = engine.event(e);
        match cu {
            CustomEvent::NoEvent => (),
            _ => {
                signals.push(cu);
            },
        }
        proof {
            assert(signals@ =~= feed_signals(m0, events@.take(i + 1)));
        }
        i = i + 1;
    }
    proof {
        assert(events@.take(events@.len() as int) =~= events@);
    }
    engine.tick();
    let report = engine.report();
    (report, signals)
}

} // verus!
