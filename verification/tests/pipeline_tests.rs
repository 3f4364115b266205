use split_kb_core::debounce::Debouncer;
use split_kb_core::engine::{Action, CustomEvent, LayoutEngine};
use split_kb_core::event::Event;
use split_kb_core::grid::RawGrid;
use split_kb_core::link::{frames_for_events, primary_tick, rx_push};
use split_kb_core::report::build_report;

#[test]
fn report_folds_modifiers_and_fills_slots_in_order() {
    let keys = vec![4, 225, 5, 6];
    let r = build_report(0, &keys);
    assert_eq!(r.modifiers, 2); // left shift bit
    assert_eq!(r.keycodes, vec![4, 5, 6, 0, 0, 0]);
    assert_eq!(r.bytes(), vec![2, 0, 4, 5, 6, 0, 0, 0]);
}

#[test]
fn report_drops_keycodes_beyond_capacity_deterministically() {
    let keys = vec![4, 5, 6, 7, 8, 9, 10, 11];
    let r = build_report(0, &keys);
    assert_eq!(r.keycodes, vec![4, 5, 6, 7, 8, 9]); // exactly the first six
    let r2 = build_report(0, &keys);
    assert_eq!(r.keycodes, r2.keycodes);
}

#[test]
fn report_capacity_overflow_from_the_engine_keeps_cell_order() {
    // a 1x8 base layer of plain keys, seven of them pressed at once
    let actions: Vec<Action> = (0..8).map(|i| Action::Key(4 + i as u8)).collect();
    let mut e = LayoutEngine::new(actions, 1, 1, 8, 0, true);
    for c in 0..7u8 {
        e.event(Event::Press(0, c));
    }
    let r = e.report();
    assert_eq!(r.modifiers, 0);
    assert_eq!(r.keycodes, vec![4, 5, 6, 7, 8, 9]);
}

#[test]
fn modifier_range_keycodes_fold_into_the_bitmask() {
    let keys = vec![224, 231];
    let r = build_report(0, &keys);
    assert_eq!(r.modifiers, 1 | 128);
    assert_eq!(r.keycodes, vec![0, 0, 0, 0, 0, 0]);
}

#[test]
fn rx_buffer_resynchronizes_over_garbage() {
    let mut buf = vec![0u8; 4];
    // garbage first, then a clean frame byte-by-byte
    assert_eq!(rx_push(&mut buf, b'Z', false, 11), None);
    assert_eq!(rx_push(&mut buf, b'\n', false, 11), None); // malformed: dropped
    assert_eq!(rx_push(&mut buf, b'P', false, 11), None);
    assert_eq!(rx_push(&mut buf, 1, false, 11), None);
    assert_eq!(rx_push(&mut buf, 5, false, 11), None);
    assert_eq!(rx_push(&mut buf, b'\n', false, 11), Some(Event::Press(1, 5)));
}

#[test]
fn rx_mirrored_half_reflects_columns() {
    let mut buf = vec![0u8; 4];
    rx_push(&mut buf, b'R', true, 11);
    rx_push(&mut buf, 2, true, 11);
    rx_push(&mut buf, 3, true, 11);
    assert_eq!(rx_push(&mut buf, b'\n', true, 11), Some(Event::Release(2, 8)));
}

#[test]
fn rx_mirrored_half_drops_out_of_range_columns() {
    let mut buf = vec![0u8; 4];
    rx_push(&mut buf, b'P', true, 11);
    rx_push(&mut buf, 0, true, 11);
    rx_push(&mut buf, 200, true, 11);
    assert_eq!(rx_push(&mut buf, b'\n', true, 11), None);
}

#[test]
fn secondary_half_serializes_each_event() {
    let events = vec![Event::Press(0, 1), Event::Release(3, 5)];
    let frames = frames_for_events(&events);
    assert_eq!(frames.len(), 2);
    assert_eq!(frames[0], vec![b'P', 0, 1, b'\n']);
    assert_eq!(frames[1], vec![b'R', 3, 5, b'\n']);
}

#[test]
fn end_to_end_scan_to_report() {
    // raw grid [[0, 1], [0, 0]] held for the full debounce window at (0, 1);
    // layer 0 binds (0, 1) to keycode 4, so the next report carries exactly
    // that keycode and no modifiers.
    let n = 5u8;
    let mut deb = Debouncer::new(2, 2, n);
    let mut grid = RawGrid::new(2, 2);
    grid.set(0, 1, true);
    let actions = vec![Action::NoOp, Action::Key(4), Action::NoOp, Action::NoOp];
    let mut engine = LayoutEngine::new(actions, 1, 2, 2, 0, true);
    let mut last_report = None;
    for _ in 0..n {
        let events = deb.update(&grid);
        let (report, signals) = primary_tick(&mut engine, &events);
        assert_eq!(signals, vec![]);
        last_report = Some(report);
    }
    let report = last_report.unwrap();
    assert_eq!(report.modifiers, 0);
    assert_eq!(report.keycodes, vec![4, 0, 0, 0, 0, 0]);
}

#[test]
fn primary_tick_surfaces_custom_signals() {
    let actions = vec![Action::Custom(3)];
    let mut engine = LayoutEngine::new(actions, 1, 1, 1, 0, true);
    let (_, signals) = primary_tick(&mut engine, &vec![Event::Press(0, 0)]);
    assert_eq!(signals, vec![CustomEvent::CustomPress(3)]);
    let (_, signals) = primary_tick(&mut engine, &vec![Event::Release(0, 0)]);
    assert_eq!(signals, vec![CustomEvent::CustomRelease(3)]);
}
