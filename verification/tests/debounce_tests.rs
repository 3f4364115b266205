use split_kb_core::debounce::Debouncer;
use split_kb_core::event::Event;
use split_kb_core::grid::RawGrid;

fn grid_with(rows: usize, cols: usize, active: &[(usize, usize)]) -> RawGrid {
    let mut g = RawGrid::new(rows, cols);
    for &(r, c) in active {
        g.set(r, c, true);
    }
    g
}

#[test]
fn fewer_than_threshold_samples_emit_nothing() {
    let mut d = Debouncer::new(4, 6, 5);
    let pressed = grid_with(4, 6, &[(1, 2)]);
    for _ in 0..4 {
        assert_eq!(d.update(&pressed), vec![]);
    }
}

#[test]
fn exactly_threshold_samples_emit_one_press() {
    let mut d = Debouncer::new(4, 6, 5);
    let pressed = grid_with(4, 6, &[(1, 2)]);
    for _ in 0..4 {
        assert_eq!(d.update(&pressed), vec![]);
    }
    assert_eq!(d.update(&pressed), vec![Event::Press(1, 2)]);
    // the coordinate is committed: further agreeing samples emit nothing
    assert_eq!(d.update(&pressed), vec![]);
}

#[test]
fn bounce_shorter_than_window_is_rejected() {
    let mut d = Debouncer::new(4, 6, 5);
    let pressed = grid_with(4, 6, &[(0, 0)]);
    let idle = RawGrid::new(4, 6);
    // four active samples, then a drop-out, then four more: never five in a row
    for _ in 0..4 {
        assert_eq!(d.update(&pressed), vec![]);
    }
    assert_eq!(d.update(&idle), vec![]);
    for _ in 0..4 {
        assert_eq!(d.update(&pressed), vec![]);
    }
}

#[test]
fn release_needs_threshold_too() {
    let mut d = Debouncer::new(2, 2, 3);
    let pressed = grid_with(2, 2, &[(0, 1)]);
    let idle = RawGrid::new(2, 2);
    for _ in 0..2 {
        d.update(&pressed);
    }
    assert_eq!(d.update(&pressed), vec![Event::Press(0, 1)]);
    assert_eq!(d.update(&idle), vec![]);
    assert_eq!(d.update(&idle), vec![]);
    assert_eq!(d.update(&idle), vec![Event::Release(0, 1)]);
}

#[test]
fn simultaneous_events_come_in_ascending_coordinate_order() {
    let mut d = Debouncer::new(4, 6, 2);
    let g = grid_with(4, 6, &[(3, 0), (0, 5), (1, 2), (0, 1)]);
    assert_eq!(d.update(&g), vec![]);
    let events = d.update(&g);
    assert_eq!(
        events,
        vec![
            Event::Press(0, 1),
            Event::Press(0, 5),
            Event::Press(1, 2),
            Event::Press(3, 0),
        ]
    );
}

#[test]
fn threshold_one_commits_immediately() {
    let mut d = Debouncer::new(1, 1, 1);
    let pressed = grid_with(1, 1, &[(0, 0)]);
    assert_eq!(d.update(&pressed), vec![Event::Press(0, 0)]);
}
