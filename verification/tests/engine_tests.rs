use split_kb_core::engine::{Action, BareAction, CustomEvent, LayoutEngine};
use split_kb_core::event::Event;

const ROWS: usize = 2;
const COLS: usize = 3;
const LAYERS: usize = 4;

fn slot(l: usize, r: usize, c: usize) -> usize {
    (l * ROWS + r) * COLS + c
}

/// Layer 0: a momentary-layer key, a plain key, a custom key,
///          a second momentary-layer key, a hold-tap, a toggle key.
/// Layer 1: overrides (0,1); transparent elsewhere.
/// Layer 2: overrides nothing visible; transparent everywhere.
/// Layer 3: the tri-state composition of layers 1 and 2; overrides (0,1).
fn test_engine() -> LayoutEngine {
    let mut actions = vec![Action::Transparent; LAYERS * ROWS * COLS];
    actions[slot(0, 0, 0)] = Action::MomentaryLayer(1);
    actions[slot(0, 0, 1)] = Action::Key(4);
    actions[slot(0, 0, 2)] = Action::Custom(7);
    actions[slot(0, 1, 0)] = Action::MomentaryLayer(2);
    actions[slot(0, 1, 1)] = Action::HoldTap(BareAction::Key(224), BareAction::Key(44), 3);
    actions[slot(0, 1, 2)] = Action::ToggleLayer(1);
    actions[slot(1, 0, 1)] = Action::Key(5);
    actions[slot(3, 0, 1)] = Action::Key(9);
    LayoutEngine::new(actions, LAYERS, ROWS, COLS, 0, true)
}

fn keys_of(e: &LayoutEngine) -> Vec<u8> {
    e.keycodes().1
}

#[test]
fn plain_key_press_and_release() {
    let mut e = test_engine();
    assert_eq!(e.event(Event::Press(0, 1)), CustomEvent::NoEvent);
    assert_eq!(keys_of(&e), vec![4]);
    assert_eq!(e.event(Event::Release(0, 1)), CustomEvent::NoEvent);
    assert_eq!(keys_of(&e), vec![]);
}

#[test]
fn momentary_layer_resolves_through_the_layer() {
    let mut e = test_engine();
    e.event(Event::Press(0, 0)); // hold the layer-1 key
    e.event(Event::Press(0, 1));
    assert_eq!(keys_of(&e), vec![5]); // layer 1 binding, not layer 0's
    e.event(Event::Release(0, 1));
    e.event(Event::Release(0, 0)); // drop the layer key
    e.event(Event::Press(0, 1));
    assert_eq!(keys_of(&e), vec![4]); // back to the base layer
}

#[test]
fn momentary_layer_released_before_second_key_reverts_to_base() {
    let mut e = test_engine();
    e.event(Event::Press(0, 0));
    e.event(Event::Release(0, 0));
    e.event(Event::Press(0, 1));
    assert_eq!(keys_of(&e), vec![4]);
}

#[test]
fn transparent_falls_through_to_base() {
    let mut e = test_engine();
    e.event(Event::Press(0, 0)); // layer 1 active; (0, 2) is transparent there
    assert_eq!(e.event(Event::Press(0, 2)), CustomEvent::CustomPress(7));
}

#[test]
fn toggle_layer_stays_until_toggled_again() {
    let mut e = test_engine();
    e.event(Event::Press(1, 2)); // toggle layer 1 on
    e.event(Event::Release(1, 2)); // release is ignored
    e.event(Event::Press(0, 1));
    assert_eq!(keys_of(&e), vec![5]);
    e.event(Event::Release(0, 1));
    e.event(Event::Press(1, 2)); // toggle layer 1 off
    e.event(Event::Release(1, 2));
    e.event(Event::Press(0, 1));
    assert_eq!(keys_of(&e), vec![4]);
}

#[test]
fn default_layer_replaces_the_base() {
    let mut actions = vec![Action::Transparent; 2 * 1 * 2];
    actions[0] = Action::DefaultLayer(1); // layer 0, (0, 0)
    actions[1] = Action::Key(4); // layer 0, (0, 1)
    actions[2] = Action::NoOp; // layer 1, (0, 0)
    actions[3] = Action::Key(30); // layer 1, (0, 1)
    let mut e = LayoutEngine::new(actions, 2, 1, 2, 0, true);
    e.event(Event::Press(0, 1));
    assert_eq!(keys_of(&e), vec![4]);
    e.event(Event::Release(0, 1));
    e.event(Event::Press(0, 0)); // switch the base layer permanently
    e.event(Event::Release(0, 0));
    e.event(Event::Press(0, 1));
    assert_eq!(keys_of(&e), vec![30]);
}

#[test]
fn holdtap_released_before_timeout_resolves_as_tap() {
    let mut e = test_engine();
    e.event(Event::Press(1, 1)); // timeout is 3 ticks
    assert_eq!(keys_of(&e), vec![]); // undecided: nothing asserted yet
    e.tick();
    e.tick(); // two ticks: still within timeout - 1
    e.event(Event::Release(1, 1));
    assert_eq!(keys_of(&e), vec![44]); // the tap keycode flashes
    e.tick();
    assert_eq!(keys_of(&e), vec![44]); // visible for the report being built
    e.tick();
    assert_eq!(keys_of(&e), vec![]); // and then clears
}

#[test]
fn holdtap_held_past_timeout_resolves_as_hold() {
    let mut e = test_engine();
    e.event(Event::Press(1, 1));
    e.tick();
    e.tick();
    assert_eq!(keys_of(&e), vec![]);
    e.tick(); // third tick reaches the timeout
    assert_eq!(keys_of(&e), vec![224]); // the hold keycode is asserted
    e.event(Event::Release(1, 1));
    assert_eq!(keys_of(&e), vec![]);
}

#[test]
fn holdtap_interrupted_by_another_press_resolves_as_hold() {
    let mut e = test_engine();
    e.event(Event::Press(1, 1));
    e.event(Event::Press(0, 1)); // interrupting press forces the hold
    let keys = keys_of(&e);
    assert_eq!(keys, vec![4, 224]); // cell order: (0,1) then the hold at (1,1)
}

#[test]
fn tri_state_layer_composes_and_decomposes() {
    let mut e = test_engine();
    e.add_tri_state_layer(1, 2, 3);
    e.event(Event::Press(0, 0)); // layer 1 held
    e.event(Event::Press(1, 0)); // layer 2 held: composed layer 3 activates
    e.event(Event::Press(0, 1));
    assert_eq!(keys_of(&e), vec![9]); // layer 3 binding wins
    e.event(Event::Release(0, 1));
    e.event(Event::Release(1, 0)); // composed layer drops instantly
    e.event(Event::Press(0, 1));
    assert_eq!(keys_of(&e), vec![5]); // layer 1 binding again
}

#[test]
fn custom_action_signals_press_and_release_once() {
    let mut e = test_engine();
    assert_eq!(e.event(Event::Press(0, 2)), CustomEvent::CustomPress(7));
    assert_eq!(keys_of(&e), vec![]); // no HID effect
    assert_eq!(e.event(Event::Release(0, 2)), CustomEvent::CustomRelease(7));
    assert_eq!(e.event(Event::Press(0, 1)), CustomEvent::NoEvent);
}

#[test]
fn out_of_range_and_stray_events_are_ignored() {
    let mut e = test_engine();
    assert_eq!(e.event(Event::Press(9, 9)), CustomEvent::NoEvent);
    assert_eq!(e.event(Event::Release(0, 1)), CustomEvent::NoEvent); // stray release
    e.event(Event::Press(0, 1));
    e.event(Event::Press(0, 1)); // stray second press
    assert_eq!(keys_of(&e), vec![4]);
    e.event(Event::Release(0, 1));
    assert_eq!(keys_of(&e), vec![]);
}
