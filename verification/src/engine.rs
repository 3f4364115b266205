//! Layout engine: a layered key-resolution state machine.
//!
//! The engine consumes coordinate-addressed press/release events plus a
//! periodic time tick, and maintains the active layer stack, at most one
//! in-flight hold-tap disambiguation, and the per-coordinate key states from
//! which the active keycodes are derived. Every transition is described by a
//! spec-level model function, and the executable methods are proved to
//! realize those functions exactly.

use vstd::prelude::*;
use crate::event::Event;
use crate::grid::lemma_row_major_index_bound;
use crate::report::HidReport;
use crate::report::build_report;
use crate::report::spec_mods;
use crate::report::spec_nonmod;

verus! {

/// An action a hold-tap slot can carry: deliberately flat, so hold-tap never
/// nests inside itself.
#[derive(Clone, Copy, Debug, PartialEq, Eq, Structural)]
pub enum BareAction {
    NoAction,
    Key(u8),
    ModKey(u8, u8),
    MomentaryLayer(usize),
}

/// A per-coordinate binding in the layout table.
#[derive(Clone, Copy, Debug, PartialEq, Eq, Structural)]
pub enum Action {
    /// Bound, but does nothing.
    NoOp,
    /// Defer to the next lower active layer.
    Transparent,
    /// A plain HID keycode, asserted while the key is down.
    Key(u8),
    /// A modifier bitmask and a keycode emitted together as one chord.
    ModKey(u8, u8),
    /// Activates a layer while the key is held.
    MomentaryLayer(usize),
    /// Flips a layer's membership on each press; release is ignored.
    ToggleLayer(usize),
    /// Replaces the permanent base layer on press.
    DefaultLayer(usize),
    /// Hold action, tap action, and the timeout in ticks that separates them.
    HoldTap(BareAction, BareAction, u16),
    /// Carries no keycode; surfaces as a signal to the orchestrator.
    Custom(u8),
}

/// What a pressed coordinate asserted, remembered so its release can undo
/// exactly that.
#[derive(Clone, Copy, Debug, PartialEq, Eq, Structural)]
pub enum Held {
    HeldKey(u8),
    HeldModKey(u8, u8),
    HeldLayer(usize),
    HeldCustom(u8),
    HeldNothing,
}

/// The state of one coordinate: idle, or down with what the press asserted.
#[derive(Clone, Copy, Debug, PartialEq, Eq, Structural)]
pub enum KeyState {
    Idle,
    Down(Held),
}

/// The one-shot signal a custom action surfaces to the orchestrator.
#[derive(Clone, Copy, Debug, PartialEq, Eq, Structural)]
pub enum CustomEvent {
    NoEvent,
    CustomPress(u8),
    CustomRelease(u8),
}

/// A layer that is active exactly while two other layers are both active.
#[derive(Clone, Copy, Debug, PartialEq, Eq, Structural)]
pub struct TriLayer {
    pub lower: usize,
    pub upper: usize,
    pub composed: usize,
}

/// The single in-flight hold-tap disambiguation.
#[derive(Clone, Copy, Debug, PartialEq, Eq, Structural)]
pub struct PendingHoldTap {
    pub row: u8,
    pub col: u8,
    pub hold: BareAction,
    pub tap: BareAction,
    pub timeout: u16,
    pub elapsed: u16,
}

/// A tap that resolved on release: its action stays visible for one more
/// report cycle, then clears.
#[derive(Clone, Copy, Debug, PartialEq, Eq, Structural)]
pub struct TapFlash {
    pub action: BareAction,
    pub fresh: bool,
}

/// The spec-level image of the engine, over mathematical sequences.
#[verifier::ext_equal]
pub struct EngineModel {
    pub n_layers: usize,
    pub rows: usize,
    pub cols: usize,
    pub actions: Seq<Action>,
    pub default_layer: usize,
    pub stack: Seq<usize>,
    pub tri: Option<TriLayer>,
    pub states: Seq<KeyState>,
    pub pending: Option<PendingHoldTap>,
    pub flash: Option<TapFlash>,
    pub hold_on_interrupt: bool,
}

/// A hold or tap slot only names layers the table has.
pub open spec fn bare_wf(b: BareAction, n_layers: int) -> bool {
    match b {
        BareAction::MomentaryLayer(l) => l < n_layers,
        _ => true,
    }
}

/// A binding only names layers the table has, and a hold-tap waits at least
/// one tick.
pub open spec fn action_wf(a: Action, n_layers: int) -> bool {
    match a {
        Action::MomentaryLayer(l) => l < n_layers,
        Action::ToggleLayer(l) => l < n_layers,
        Action::DefaultLayer(l) => l < n_layers,
        Action::HoldTap(h, t, to) => bare_wf(h, n_layers) && bare_wf(t, n_layers) && to >= 1,
        _ => true,
    }
}

impl EngineModel {
    /// The flat index of coordinate `(r, c)` in the state table.
    pub open spec fn cell(self, r: int, c: int) -> int {
        r * self.cols + c
    }

    /// The flat index of coordinate `(r, c)` on layer `l` in the action table.
    pub open spec fn layer_cell(self, l: int, r: int, c: int) -> int {
        (l * self.rows + r) * self.cols + c
    }

    /// The binding of `(r, c)` on layer `l`.
    pub open spec fn action_at(self, l: int, r: int, c: int) -> Action {
        self.actions[self.layer_cell(l, r, c)]
    }

    /// Internal invariant: byte-sized dimensions, tables covering the grid,
    /// every named layer inside the table, and a pending hold-tap standing on
    /// an idle, in-range coordinate with time still to run.
    pub open spec fn wf(self) -> bool {
        &&& 1 <= self.rows <= 255
        &&& 1 <= self.cols <= 255
        &&& 1 <= self.n_layers
        &&& self.actions.len() == self.n_layers * self.rows * self.cols
        &&& self.states.len() == self.rows * self.cols
        &&& self.default_layer < self.n_layers
        &&& forall|i: int| 0 <= i < self.stack.len() ==> self.stack[i] < self.n_layers
        &&& match self.tri {
            Some(t) => t.lower < self.n_layers && t.upper < self.n_layers && t.composed
                < self.n_layers,
            None => true,
        }
        &&& forall|j: int|
            0 <= j < self.actions.len() ==> action_wf(#[trigger] self.actions[j],
                self.n_layers as int)
        &&& match self.pending {
            Some(p) => {
                &&& p.row < self.rows
                &&& p.col < self.cols
                &&& p.elapsed < p.timeout
                &&& bare_wf(p.hold, self.n_layers as int)
                &&& bare_wf(p.tap, self.n_layers as int)
                &&& self.states[self.cell(p.row as int, p.col as int)] == KeyState::Idle
            },
            None => true,
        }
    }

    /// The tri-state layer is active exactly while both its source layers
    /// are active on the stack.
    pub open spec fn tri_active(self) -> bool {
        match self.tri {
            Some(t) => self.stack.contains(t.lower) && self.stack.contains(t.upper),
            None => false,
        }
    }

    /// The layers a lookup searches, highest priority first: the composed
    /// tri-state layer when active, then the stack from most recently
    /// activated to least, then the base layer.
    pub open spec fn search_layers(self) -> Seq<usize> {
        let base = self.stack.reverse() + seq![self.default_layer];
        match self.tri {
            Some(t) => if self.tri_active() {
                seq![t.composed] + base
            } else {
                base
            },
            None => base,
        }
    }

    /// The binding `(r, c)` resolves to: the first non-transparent action in
    /// search order, or no-op when every layer defers.
    pub open spec fn lookup(self, r: int, c: int) -> Action {
        first_opaque(self, self.search_layers(), r, c)
    }
}

/// The first non-transparent binding of `(r, c)` along `layers`.
pub open spec fn first_opaque(m: EngineModel, layers: Seq<usize>, r: int, c: int) -> Action
    decreases layers.len(),
{
    if layers.len() == 0 {
        Action::NoOp
    } else {
        let a = m.action_at(layers[0] as int, r, c);
        if a == Action::Transparent {
            first_opaque(m, layers.skip(1), r, c)
        } else {
            a
        }
    }
}

/// What a bare action leaves asserted at its coordinate.
pub open spec fn held_of(b: BareAction) -> Held {
    match b {
        BareAction::NoAction => Held::HeldNothing,
        BareAction::Key(k) => Held::HeldKey(k),
        BareAction::ModKey(m, k) => Held::HeldModKey(m, k),
        BareAction::MomentaryLayer(l) => Held::HeldLayer(l),
    }
}

/// `s` with its last occurrence of `x` removed, if any.
pub open spec fn remove_last_occurrence(s: Seq<usize>, x: usize) -> Seq<usize>
    decreases s.len(),
{
    if s.len() == 0 {
        s
    } else if s.last() == x {
        s.drop_last()
    } else {
        remove_last_occurrence(s.drop_last(), x).push(s.last())
    }
}

/// Pressing a bare action at flat cell `j`: the cell goes down holding it,
/// and a momentary layer joins the stack.
pub open spec fn apply_bare(m: EngineModel, j: int, b: BareAction) -> EngineModel {
    let m1 = EngineModel { states: m.states.update(j, KeyState::Down(held_of(b))), ..m };
    match b {
        BareAction::MomentaryLayer(l) => EngineModel { stack: m1.stack.push(l), ..m1 },
        _ => m1,
    }
}

/// Resolves the in-flight hold-tap, if any, to its hold action.
pub open spec fn settle_hold(m: EngineModel) -> EngineModel {
    match m.pending {
        Some(p) => EngineModel {
            pending: None,
            ..apply_bare(m, m.cell(p.row as int, p.col as int), p.hold)
        },
        None => m,
    }
}

/// Whether the in-flight hold-tap stands at `(r, c)`.
pub open spec fn pending_at(m: EngineModel, r: u8, c: u8) -> bool {
    match m.pending {
        Some(p) => p.row == r && p.col == c,
        None => false,
    }
}

/// The transition one press event drives, and the signal it surfaces.
pub open spec fn press_tr(m: EngineModel, r: u8, c: u8) -> (EngineModel, CustomEvent) {
    if !(r < m.rows && c < m.cols) {
        (m, CustomEvent::NoEvent)  // out-of-range coordinate: ignored
    } else if pending_at(m, r, c) {
        (m, CustomEvent::NoEvent)  // stray press of the already-pending key
    } else {
        let m0 = if m.pending is Some && m.hold_on_interrupt {
            settle_hold(m)  // an interrupting press forces the hold resolution
        } else {
            m
        };
        let j = m0.cell(r as int, c as int);
        if m0.states[j] != KeyState::Idle {
            (m0, CustomEvent::NoEvent)  // stray press of a key already down
        } else {
            match m0.lookup(r as int, c as int) {
                Action::NoOp => (apply_bare(m0, j, BareAction::NoAction), CustomEvent::NoEvent),
                Action::Transparent => (
                    apply_bare(m0, j, BareAction::NoAction),
                    CustomEvent::NoEvent,
                ),
                Action::Key(k) => (apply_bare(m0, j, BareAction::Key(k)), CustomEvent::NoEvent),
                Action::ModKey(mm, k) => (
                    apply_bare(m0, j, BareAction::ModKey(mm, k)),
                    CustomEvent::NoEvent,
                ),
                Action::MomentaryLayer(l) => (
                    apply_bare(m0, j, BareAction::MomentaryLayer(l)),
                    CustomEvent::NoEvent,
                ),
                Action::ToggleLayer(l) => (
                    EngineModel {
                        stack: if m0.stack.contains(l) {
                            remove_last_occurrence(m0.stack, l)
                        } else {
                            m0.stack.push(l)
                        },
                        states: m0.states.update(j, KeyState::Down(Held::HeldNothing)),
                        ..m0
                    },
                    CustomEvent::NoEvent,
                ),
                Action::DefaultLayer(l) => (
                    EngineModel {
                        default_layer: l,
                        states: m0.states.update(j, KeyState::Down(Held::HeldNothing)),
                        ..m0
                    },
                    CustomEvent::NoEvent,
                ),
                Action::HoldTap(h, t, to) => {
                    let m1 = settle_hold(m0);  // frees the slot if the policy left it busy
                    (
                        EngineModel {
                            pending: Some(
                                PendingHoldTap {
                                    row: r,
                                    col: c,
                                    hold: h,
                                    tap: t,
                                    timeout: to,
                                    elapsed: 0,
                                },
                            ),
                            ..m1
                        },
                        CustomEvent::NoEvent,
                    )
                },
                Action::Custom(p) => (
                    EngineModel { states: m0.states.update(j, KeyState::Down(Held::HeldCustom(p))), ..m0 },
                    CustomEvent::CustomPress(p),
                ),
            }
        }
    }
}

/// The transition one release event drives, and the signal it surfaces.
pub open spec fn release_tr(m: EngineModel, r: u8, c: u8) -> (EngineModel, CustomEvent) {
    if !(r < m.rows && c < m.cols) {
        (m, CustomEvent::NoEvent)  // out-of-range coordinate: ignored
    } else if pending_at(m, r, c) {
        // released before the timeout: the tap action flashes for one cycle
        match m.pending {
            Some(p) => (
                EngineModel {
                    pending: None,
                    flash: Some(TapFlash { action: p.tap, fresh: true }),
                    ..m
                },
                CustomEvent::NoEvent,
            ),
            None => (m, CustomEvent::NoEvent),
        }
    } else {
        let j = m.cell(r as int, c as int);
        match m.states[j] {
            KeyState::Idle => (m, CustomEvent::NoEvent),  // stray release: no-op
            KeyState::Down(h) => {
                let m1 = EngineModel { states: m.states.update(j, KeyState::Idle), ..m };
                match h {
                    Held::HeldLayer(l) => (
                        EngineModel { stack: remove_last_occurrence(m1.stack, l), ..m1 },
                        CustomEvent::NoEvent,
                    ),
                    Held::HeldCustom(p) => (m1, CustomEvent::CustomRelease(p)),
                    _ => (m1, CustomEvent::NoEvent),
                }
            },
        }
    }
}

/// The transition one event drives.
pub open spec fn event_tr(m: EngineModel, e: Event) -> (EngineModel, CustomEvent) {
    match e {
        Event::Press(r, c) => press_tr(m, r, c),
        Event::Release(r, c) => release_tr(m, r, c),
    }
}

/// One tick of the tap flash: a fresh flash stays for the report being
/// built, an already-seen one clears.
pub open spec fn tick_flash(m: EngineModel) -> EngineModel {
    match m.flash {
        Some(f) => if f.fresh {
            EngineModel { flash: Some(TapFlash { action: f.action, fresh: false }), ..m }
        } else {
            EngineModel { flash: None, ..m }
        },
        None => m,
    }
}

/// One tick of the in-flight hold-tap: time passes, and on reaching the
/// timeout it resolves to its hold action.
pub open spec fn tick_pending(m: EngineModel) -> EngineModel {
    match m.pending {
        Some(p) => if p.elapsed + 1 >= p.timeout {
            settle_hold(m)
        } else {
            EngineModel {
                pending: Some(PendingHoldTap { elapsed: (p.elapsed + 1) as u16, ..p }),
                ..m
            }
        },
        None => m,
    }
}

/// The transition one time tick drives.
pub open spec fn tick_tr(m: EngineModel) -> EngineModel {
    tick_pending(tick_flash(m))
}

/// The engine after `k` ticks with no intervening events.
pub open spec fn ticks(m: EngineModel, k: nat) -> EngineModel
    decreases k,
{
    if k == 0 {
        m
    } else {
        tick_tr(ticks(m, (k - 1) as nat))
    }
}

/// The keycode one coordinate state asserts, if any.
pub open spec fn state_keys(s: KeyState) -> Seq<u8> {
    match s {
        KeyState::Down(Held::HeldKey(k)) => seq![k],
        KeyState::Down(Held::HeldModKey(_, k)) => seq![k],
        _ => Seq::empty(),
    }
}

/// The modifier bitmask one coordinate state asserts.
pub open spec fn state_mods(s: KeyState) -> u8 {
    match s {
        KeyState::Down(Held::HeldModKey(mm, _)) => mm,
        _ => 0,
    }
}

/// The keycodes asserted by the coordinate states `[0, i)`, in cell order.
pub open spec fn held_keys_upto(m: EngineModel, i: int) -> Seq<u8>
    decreases i,
{
    if i <= 0 {
        Seq::empty()
    } else {
        held_keys_upto(m, i - 1) + state_keys(m.states[i - 1])
    }
}

/// The modifier bitmask asserted by the coordinate states `[0, i)`.
pub open spec fn held_mods_upto(m: EngineModel, i: int) -> u8
    decreases i,
{
    if i <= 0 {
        0
    } else {
        held_mods_upto(m, i - 1) | state_mods(m.states[i - 1])
    }
}

/// The keycode a tap flash asserts, if any.
pub open spec fn flash_keys(f: Option<TapFlash>) -> Seq<u8> {
    match f {
        Some(fl) => match fl.action {
            BareAction::Key(k) => seq![k],
            BareAction::ModKey(_, k) => seq![k],
            _ => Seq::empty(),
        },
        None => Seq::empty(),
    }
}

/// The modifier bitmask a tap flash asserts.
pub open spec fn flash_mods(f: Option<TapFlash>) -> u8 {
    match f {
        Some(fl) => match fl.action {
            BareAction::ModKey(mm, _) => mm,
            _ => 0,
        },
        None => 0,
    }
}

/// Every keycode the engine currently asserts, in cell order, the tap flash
/// last.
pub open spec fn active_keys(m: EngineModel) -> Seq<u8> {
    held_keys_upto(m, m.states.len() as int) + flash_keys(m.flash)
}

/// The modifier bitmask the engine currently asserts.
pub open spec fn active_mods(m: EngineModel) -> u8 {
    held_mods_upto(m, m.states.len() as int) | flash_mods(m.flash)
}


/// Distinct in-range coordinates have distinct flat cells.
pub proof fn lemma_cell_injective(m: EngineModel, r1: int, c1: int, r2: int, c2: int)
    requires
        0 <= r1 < m.rows,
        0 <= c1 < m.cols,
        0 <= r2 < m.rows,
        0 <= c2 < m.cols,
        !(r1 == r2 && c1 == c2),
    ensures
        m.cell(r1, c1) != m.cell(r2, c2),
{
    let cols = m.cols as int;
    assert(r1 * cols + c1 != r2 * cols + c2) by (nonlinear_arith)
        requires
            0 <= c1 < cols,
            0 <= c2 < cols,
            0 <= r1,
            0 <= r2,
            !(r1 == r2 && c1 == c2),
    ;
}

/// An in-range layer cell lies inside the action table.
pub proof fn lemma_layer_cell_bound(m: EngineModel, l: int, r: int, c: int)
    requires
        m.wf(),
        0 <= l < m.n_layers,
        0 <= r < m.rows,
        0 <= c < m.cols,
    ensures
        0 <= m.layer_cell(l, r, c) < m.actions.len(),
{
    lemma_row_major_index_bound(l, r, m.n_layers as int, m.rows as int);
    lemma_row_major_index_bound(l * m.rows + r, c, m.n_layers * m.rows, m.cols as int);
}

/// Every layer a lookup searches is one the table has.
pub proof fn lemma_search_layers_wf(m: EngineModel)
    requires
        m.wf(),
    ensures
        forall|i: int|
            0 <= i < m.search_layers().len() ==> (#[trigger] m.search_layers()[i])
                < m.n_layers,
{
    let ls = m.search_layers();
    assert forall|i: int| 0 <= i < ls.len() implies ls[i] < m.n_layers by {
        let base = m.stack.reverse() + seq![m.default_layer];
        let off: int = if m.tri_active() {
            1
        } else {
            0
        };
        if i >= off {
            let k = i - off;
            if k < m.stack.len() {
                assert(base[k] == m.stack.reverse()[k]);
                assert(m.stack.reverse()[k] == m.stack[m.stack.len() - 1 - k]);
            } else {
                assert(base[k] == m.default_layer);
            }
        }
    }
}

/// A lookup resolves to a well-formed binding.
pub proof fn lemma_first_opaque_wf(m: EngineModel, layers: Seq<usize>, r: int, c: int)
    requires
        m.wf(),
        0 <= r < m.rows,
        0 <= c < m.cols,
        forall|i: int| 0 <= i < layers.len() ==> (#[trigger] layers[i]) < m.n_layers,
    ensures
        action_wf(first_opaque(m, layers, r, c), m.n_layers as int),
    decreases layers.len(),
{
    if layers.len() == 0 {
    } else {
        lemma_layer_cell_bound(m, layers[0] as int, r, c);
        let a = m.action_at(layers[0] as int, r, c);
        if a == Action::Transparent {
            lemma_first_opaque_wf(m, layers.skip(1), r, c);
        }
    }
}

/// A lookup resolves to a well-formed binding.
pub proof fn lemma_lookup_wf(m: EngineModel, r: int, c: int)
    requires
        m.wf(),
        0 <= r < m.rows,
        0 <= c < m.cols,
    ensures
        action_wf(m.lookup(r, c), m.n_layers as int),
{
    lemma_search_layers_wf(m);
    lemma_first_opaque_wf(m, m.search_layers(), r, c);
}

/// Removing an occurrence keeps every remaining layer id in range.
pub proof fn lemma_remove_last_occurrence_wf(s: Seq<usize>, x: usize, n: usize)
    requires
        forall|i: int| 0 <= i < s.len() ==> s[i] < n,
    ensures
        forall|i: int|
            0 <= i < remove_last_occurrence(s, x).len() ==> (#[trigger] remove_last_occurrence(
                s,
                x,
            )[i]) < n,
        remove_last_occurrence(s, x).len() <= s.len(),
    decreases s.len(),
{
    if s.len() == 0 {
    } else if s.last() == x {
    } else {
        lemma_remove_last_occurrence_wf(s.drop_last(), x, n);
    }
}

/// Resolving the in-flight hold-tap keeps the engine well-formed.
pub proof fn lemma_settle_hold_wf(m: EngineModel)
    requires
        m.wf(),
    ensures
        settle_hold(m).wf(),
        settle_hold(m).pending is None,
        settle_hold(m).rows == m.rows,
        settle_hold(m).cols == m.cols,
        settle_hold(m).n_layers == m.n_layers,
        settle_hold(m).states.len() == m.states.len(),
{
    match m.pending {
        Some(p) => {
            lemma_row_major_index_bound(p.row as int, p.col as int, m.rows as int, m.cols as int);
        },
        None => {},
    }
}

/// One press keeps the engine well-formed.
pub proof fn lemma_press_wf(m: EngineModel, r: u8, c: u8)
    requires
        m.wf(),
    ensures
        press_tr(m, r, c).0.wf(),
{
    if !(r < m.rows && c < m.cols) {
    } else if pending_at(m, r, c) {
    } else {
        let m0 = if m.pending is Some && m.hold_on_interrupt {
            settle_hold(m)
        } else {
            m
        };
        lemma_settle_hold_wf(m);
        assert(m0.wf());
        let j = m0.cell(r as int, c as int);
        lemma_row_major_index_bound(r as int, c as int, m0.rows as int, m0.cols as int);
        if m0.states[j] != KeyState::Idle {
        } else {
            lemma_lookup_wf(m0, r as int, c as int);
            match m0.pending {
                Some(p) => {
                    lemma_cell_injective(m0, r as int, c as int, p.row as int, p.col as int);
                    lemma_row_major_index_bound(
                        p.row as int,
                        p.col as int,
                        m0.rows as int,
                        m0.cols as int,
                    );
                },
                None => {},
            }
            match m0.lookup(r as int, c as int) {
                Action::ToggleLayer(l) => {
                    lemma_remove_last_occurrence_wf(m0.stack, l, m0.n_layers);
                },
                Action::HoldTap(h, t, to) => {
                    lemma_settle_hold_wf(m0);
                    let m1 = settle_hold(m0);
                    match m0.pending {
                        Some(p) => {
                            lemma_cell_injective(
                                m0,
                                r as int,
                                c as int,
                                p.row as int,
                                p.col as int,
                            );
                            lemma_row_major_index_bound(
                                p.row as int,
                                p.col as int,
                                m0.rows as int,
                                m0.cols as int,
                            );
                        },
                        None => {},
                    }
                    assert(m1.states[m1.cell(r as int, c as int)] == KeyState::Idle);
                },
                _ => {},
            }
        }
    }
}

/// One release keeps the engine well-formed.
pub proof fn lemma_release_wf(m: EngineModel, r: u8, c: u8)
    requires
        m.wf(),
    ensures
        release_tr(m, r, c).0.wf(),
{
    if !(r < m.rows && c < m.cols) {
    } else if pending_at(m, r, c) {
    } else {
        let j = m.cell(r as int, c as int);
        lemma_row_major_index_bound(r as int, c as int, m.rows as int, m.cols as int);
        match m.states[j] {
            KeyState::Idle => {},
            KeyState::Down(h) => {
                match m.pending {
                    Some(p) => {
                        lemma_cell_injective(m, r as int, c as int, p.row as int, p.col as int);
                        lemma_row_major_index_bound(
                            p.row as int,
                            p.col as int,
                            m.rows as int,
                            m.cols as int,
                        );
                    },
                    None => {},
                }
                match h {
                    Held::HeldLayer(l) => {
                        lemma_remove_last_occurrence_wf(m.stack, l, m.n_layers);
                    },
                    _ => {},
                }
            },
        }
    }
}

/// One event keeps the engine well-formed.
pub proof fn lemma_event_wf(m: EngineModel, e: Event)
    requires
        m.wf(),
    ensures
        event_tr(m, e).0.wf(),
{
    match e {
        Event::Press(r, c) => lemma_press_wf(m, r, c),
        Event::Release(r, c) => lemma_release_wf(m, r, c),
    }
}

/// One tick keeps the engine well-formed.
pub proof fn lemma_tick_wf(m: EngineModel)
    requires
        m.wf(),
    ensures
        tick_tr(m).wf(),
{
    let mf = tick_flash(m);
    assert(mf.wf());
    lemma_settle_hold_wf(mf);
}


/// Removing the last occurrence at index `i` (no later occurrence exists).
proof fn lemma_rlo_found(s: Seq<usize>, x: usize, i: int)
    requires
        0 <= i < s.len(),
        s[i] == x,
        forall|j: int| i < j < s.len() ==> s[j] != x,
    ensures
        remove_last_occurrence(s, x) == s.remove(i),
    decreases s.len(),
{
    if i == s.len() - 1 {
        assert(s.remove(i) =~= s.drop_last());
    } else {
        assert(s.last() != x);
        lemma_rlo_found(s.drop_last(), x, i);
        assert(remove_last_occurrence(s.drop_last(), x).push(s.last()) =~= s.remove(i)) by {
            assert(s.drop_last().remove(i).push(s.last()) =~= s.remove(i));
        }
    }
}

/// Removing a value that never occurs changes nothing.
proof fn lemma_rlo_absent(s: Seq<usize>, x: usize)
    requires
        forall|j: int| 0 <= j < s.len() ==> s[j] != x,
    ensures
        remove_last_occurrence(s, x) == s,
    decreases s.len(),
{
    if s.len() == 0 {
    } else {
        lemma_rlo_absent(s.drop_last(), x);
        assert(remove_last_occurrence(s.drop_last(), x).push(s.last()) =~= s);
    }
}

/// Removes the most recent occurrence of a layer from the stack vector.
fn vec_remove_last(v: &mut Vec<usize>, l: usize)
    ensures
        final(v)@ == remove_last_occurrence(old(v)@, l),
{
    let mut i: usize = v.len();
    while i > 0
        invariant
            i <= v@.len(),
            v@ == old(v)@,
            forall|j: int| i <= j < v@.len() ==> v@[j] != l,
        decreases i,
    {
        i = i - 1;
        if v[i] == l {
            v.remove(i);
            proof {
                lemma_rlo_found(old(v)@, l, i as int);
            }
            return ;
        }
    }
    proof {
        lemma_rlo_absent(v@, l);
    }
}

/// The stateful resolver: layer stack, hold-tap slot, tap flash, and the
/// per-coordinate key states, over a flat layer-by-row-by-column action
/// table.
pub struct LayoutEngine {
    pub n_layers: usize,
    pub rows: usize,
    pub cols: usize,
    pub actions: Vec<Action>,
    pub default_layer: usize,
    pub stack: Vec<usize>,
    pub tri: Option<TriLayer>,
    pub states: Vec<KeyState>,
    pub pending: Option<PendingHoldTap>,
    pub flash: Option<TapFlash>,
    pub hold_on_interrupt: bool,
}

impl LayoutEngine {
    /// The spec-level image of this engine.
    pub open spec fn model(self) -> EngineModel {
        EngineModel {
            n_layers: self.n_layers,
            rows: self.rows,
            cols: self.cols,
            actions: self.actions@,
            default_layer: self.default_layer,
            stack: self.stack@,
            tri: self.tri,
            states: self.states@,
            pending: self.pending,
            flash: self.flash,
            hold_on_interrupt: self.hold_on_interrupt,
        }
    }

    /// Builds an engine over a flat action table (layer-major, then row,
    /// then column), with every coordinate idle and only the base layer
    /// active.
    pub fn new(
        actions: Vec<Action>,
        n_layers: usize,
        rows: usize,
        cols: usize,
        default_layer: usize,
        hold_on_interrupt: bool,
    ) -> (e: LayoutEngine)
        requires
            1 <= rows <= 255,
            1 <= cols <= 255,
            1 <= n_layers,
            actions@.len() == n_layers * rows * cols,
            default_layer < n_layers,
            forall|j: int|
                0 <= j < actions@.len() ==> action_wf(#[trigger] actions@[j], n_layers as int),
        ensures
            e.model().wf(),
            e.model() == (EngineModel {
                n_layers,
                rows,
                cols,
                actions: actions@,
                default_layer,
                stack: Seq::empty(),
                tri: None,
                states: Seq::new((rows * cols) as nat, |i: int| KeyState::Idle),
                pending: None,
                flash: None,
                hold_on_interrupt,
            }),
    {
        proof {
            crate::grid::lemma_grid_size_bound(rows as int, cols as int);
        }
        let n_cells = rows * cols;
        let mut states: Vec<KeyState> = Vec::new();
        let mut i: usize = 0;
        while i < n_cells
            invariant
                i <= n_cells,
                states@.len() == i,
                forall|j: int| 0 <= j < i ==> states@[j] == KeyState::Idle,
            decreases n_cells - i,
        {
            states.push(KeyState::Idle);
            i = i + 1;
        }
        let e = LayoutEngine {
            n_layers,
            rows,
            cols,
            actions,
            default_layer,
            stack: Vec::new(),
            tri: None,
            states,
            pending: None,
            flash: None,
            hold_on_interrupt,
        };
        proof {
            assert(e.model().states =~= Seq::new((rows * cols) as nat, |i: int| KeyState::Idle));
            assert(e.model().stack =~= Seq::<usize>::empty());
            assert(e.model() =~= (EngineModel {
                n_layers,
                rows,
                cols,
                actions: e.actions@,
                default_layer,
                stack: Seq::empty(),
                tri: None,
                states: Seq::new((rows * cols) as nat, |i: int| KeyState::Idle),
                pending: None,
                flash: None,
                hold_on_interrupt,
            }));
        }
        e
    }

    /// Declares the tri-state layer: `composed` is active exactly while
    /// `lower` and `upper` both are.
    pub fn add_tri_state_layer(&mut self, lower: usize, upper: usize, composed: usize)
        requires
            old(self).model().wf(),
            lower < old(self).n_layers,
            upper < old(self).n_layers,
            composed < old(self).n_layers,
        ensures
            final(self).model() == (EngineModel {
                tri: Some(TriLayer { lower, upper, composed }),
                ..old(self).model()
            }),
            final(self).model().wf(),
    {
        self.tri = Some(TriLayer { lower, upper, composed });
        proof {
            assert(self.model() =~= (EngineModel {
                tri: Some(TriLayer { lower, upper, composed }),
                ..old(self).model()
            }));
        }
    }

    /// The flat index of `(r, c)` in the state table.
    fn cell_index(&self, r: usize, c: usize) -> (j: usize)
        requires
            self.model().wf(),
            r < self.rows,
            c < self.cols,
        ensures
            j == self.model().cell(r as int, c as int),
            j < self.states@.len(),
    {
        proof {
            crate::grid::lemma_grid_size_bound(self.rows as int, self.cols as int);
            lemma_row_major_index_bound(r as int, c as int, self.rows as int, self.cols as int);
        }
        r * self.cols + c
    }

    /// The flat index of `(r, c)` on layer `l` in the action table.
    fn layer_cell_index(&self, l: usize, r: usize, c: usize) -> (j: usize)
        requires
            self.model().wf(),
            l < self.n_layers,
            r < self.rows,
            c < self.cols,
        ensures
            j == self.model().layer_cell(l as int, r as int, c as int),
            j < self.actions@.len(),
    {
        let total = self.actions.len();
        proof {
            lemma_layer_cell_bound(self.model(), l as int, r as int, c as int);
            lemma_row_major_index_bound(l as int, r as int, self.n_layers as int, self.rows as int);
            assert(self.n_layers * self.rows <= self.n_layers * self.rows * self.cols)
                by (nonlinear_arith)
                requires
                    1 <= self.cols,
                    0 <= self.n_layers * self.rows,
            ;
            assert(total == self.actions@.len());
        }
        (l * self.rows + r) * self.cols + c
    }

    /// Whether a layer is on the stack.
    fn stack_has(&self, l: usize) -> (b: bool)
        ensures
            b == self.stack@.contains(l),
    {
        let mut i: usize = 0;
        while i < self.stack.len()
            invariant
                i <= self.stack@.len(),
                forall|j: int| 0 <= j < i ==> self.stack@[j] != l,
            decreases self.stack@.len() - i,
        {
            if self.stack[i] == l {
                return true;
            }
            i = i + 1;
        }
        proof {
            if self.stack@.contains(l) {
                let w = choose|w: int| 0 <= w < self.stack@.len() && self.stack@[w] == l;
            }
        }
        false
    }

    /// Whether the tri-state layer is currently active.
    fn tri_is_active(&self) -> (b: bool)
        ensures
            b == self.model().tri_active(),
    {
        match self.tri {
            Some(t) => {
                let lo = self.stack_has(t.lower);
                let up = self.stack_has(t.upper);
                lo && up
            },
            None => false,
        }
    }

    /// The layers a lookup searches, highest priority first.
    fn search_order(&self) -> (v: Vec<usize>)
        requires
            self.model().wf(),
        ensures
            v@ == self.model().search_layers(),
    {
        let ghost m = self.model();
        let mut v: Vec<usize> = Vec::new();
        let tri_on = self.tri_is_active();
        if tri_on {
            match self.tri {
                Some(t) => v.push(t.composed),
                None => (),
            }
        }
        let mut k: usize = self.stack.len();
        while k > 0
            invariant
                k <= self.stack@.len(),
                m == self.model(),
                v@.len() == (if m.tri_active() {
                    1int
                } else {
                    0int
                }) + (m.stack.len() - k),
                m.tri_active() ==> v@[0] == m.tri.unwrap().composed,
                forall|j: int|
                    0 <= j < m.stack.len() - k ==> v@[j + (if m.tri_active() {
                        1int
                    } else {
                        0int
                    })] == m.stack.reverse()[j],
            decreases k,
        {
            k = k - 1;
            v.push(self.stack[k]);
            assert(m.stack.reverse()[m.stack.len() - 1 - k as int] == m.stack[k as int]);
        }
        v.push(self.default_layer);
        proof {
            assert(v@ =~= m.search_layers());
        }
        v
    }

    /// Resolves the binding of `(r, c)` through the active layers.
    fn resolve_action(&self, r: usize, c: usize) -> (a: Action)
        requires
            self.model().wf(),
            r < self.rows,
            c < self.cols,
        ensures
            a == self.model().lookup(r as int, c as int),
    {
        let ghost m = self.model();
        let order = self.search_order();
        proof {
            lemma_search_layers_wf(m);
        }
        let mut i: usize = 0;
        proof {
            assert(order@.skip(0) =~= order@);
        }
        while i < order.len()
            invariant
                i <= order@.len(),
                m == self.model(),
                m.wf(),
                r < m.rows,
                c < m.cols,
                order@ == m.search_layers(),
                first_opaque(m, order@, r as int, c as int) == first_opaque(
                    m,
                    order@.skip(i as int),
                    r as int,
                    c as int,
                ),
                forall|j: int| 0 <= j < order@.len() ==> (#[trigger] order@[j]) < m.n_layers,
            decreases order@.len() - i,
        {
            let l = order[i];
            let j = self.layer_cell_index(l, r, c);
            let a = self.actions[j];
            proof {
                assert(order@.skip(i as int)[0] == order@[i as int]);
                assert(order@.skip(i as int).skip(1) =~= order@.skip(i + 1));
            }
            match a {
                Action::Transparent => (),
                _ => {
                    return a;
                },
            }
            i = i + 1;
        }
        proof {
            assert(order@.skip(order@.len() as int).len() == 0);
        }
        Action::NoOp
    }

    /// Presses a bare action at flat cell `j`.
    fn apply_bare_exec(&mut self, j: usize, b: BareAction)
        requires
            j < old(self).states@.len(),
        ensures
            final(self).model() == apply_bare(old(self).model(), j as int, b),
    {
        let held = match b {
            BareAction::NoAction => Held::HeldNothing,
            BareAction::Key(k) => Held::HeldKey(k),
            BareAction::ModKey(mm, k) => Held::HeldModKey(mm, k),
            BareAction::MomentaryLayer(l) => Held::HeldLayer(l),
        };
        self.states.set(j, KeyState::Down(held));
        match b {
            BareAction::MomentaryLayer(l) => self.stack.push(l),
            _ => (),
        }
        proof {
            assert(self.model() =~= apply_bare(old(self).model(), j as int, b));
        }
    }

    /// Resolves the in-flight hold-tap, if any, to its hold action.
    fn settle_hold_exec(&mut self)
        requires
            old(self).model().wf(),
        ensures
            final(self).model() == settle_hold(old(self).model()),
    {
        match self.pending {
            Some(p) => {
                let j = self.cell_index(p.row as usize, p.col as usize);
                self.pending = None;
                self.apply_bare_exec(j, p.hold);
                proof {
                    assert(self.model() =~= settle_hold(old(self).model()));
                }
            },
            None => (),
        }
    }

    /// Feeds one debounced or link-received event into the state machine and
    /// returns the custom-action signal it surfaced, if any. An event whose
    /// coordinate lies outside the grid, or that does not match the
    /// coordinate's state, is ignored.
    pub fn event(&mut self, e: Event) -> (cu: CustomEvent)
        requires
            old(self).model().wf(),
        ensures
            final(self).model() == event_tr(old(self).model(), e).0,
            cu == event_tr(old(self).model(), e).1,
            final(self).model().wf(),
    {
        proof {
            lemma_event_wf(old(self).model(), e);
        }
        match e {
            Event::Press(r, c) => self.press(r, c),
            Event::Release(r, c) => self.release(r, c),
        }
    }

    /// Handles one press event.
    fn press(&mut self, r8: u8, c8: u8) -> (cu: CustomEvent)
        requires
            old(self).model().wf(),
        ensures
            final(self).model() == press_tr(old(self).model(), r8, c8).0,
            cu == press_tr(old(self).model(), r8, c8).1,
    {
        let ghost m = old(self).model();
        let r = r8 as usize;
        let c = c8 as usize;
        if !(r < self.rows && c < self.cols) {
            return CustomEvent::NoEvent;
        }
        let pending_here = match self.pending {
            Some(p) => p.row == r8 && p.col == c8,
            None => false,
        };
        if pending_here {
            return CustomEvent::NoEvent;
        }
        let settle_first = match self.pending {
            Some(_) => self.hold_on_interrupt,
            None => false,
        };
        if settle_first {
            self.settle_hold_exec();
            proof {
                lemma_settle_hold_wf(m);
            }
        }
        let ghost m0 = self.model();
        proof {
            assert(m0 == if m.pending is Some && m.hold_on_interrupt {
                settle_hold(m)
            } else {
                m
            });
            assert(m0.wf());
        }
        let j = self.cell_index(r, c);
        let idle = match self.states[j] {
            KeyState::Idle => true,
            KeyState::Down(_) => false,
        };
        if !idle {
            return CustomEvent::NoEvent;
        }
        let a = self.resolve_action(r, c);
        match a {
            Action::NoOp => {
                self.apply_bare_exec(j, BareAction::NoAction);
                CustomEvent::NoEvent
            },
            Action::Transparent => {
                self.apply_bare_exec(j, BareAction::NoAction);
                CustomEvent::NoEvent
            },
            Action::Key(k) => {
                self.apply_bare_exec(j, BareAction::Key(k));
                CustomEvent::NoEvent
            },
            Action::ModKey(mm, k) => {
                self.apply_bare_exec(j, BareAction::ModKey(mm, k));
                CustomEvent::NoEvent
            },
            Action::MomentaryLayer(l) => {
                self.apply_bare_exec(j, BareAction::MomentaryLayer(l));
                CustomEvent::NoEvent
            },
            Action::ToggleLayer(l) => {
                let has = self.stack_has(l);
                if has {
                    vec_remove_last(&mut self.stack, l);
                } else {
                    self.stack.push(l);
                }
                self.states.set(j, KeyState::Down(Held::HeldNothing));
                proof {
                    assert(self.model() =~= press_tr(m, r8, c8).0);
                }
                CustomEvent::NoEvent
            },
            Action::DefaultLayer(l) => {
                self.default_layer = l;
                self.states.set(j, KeyState::Down(Held::HeldNothing));
                proof {
                    assert(self.model() =~= press_tr(m, r8, c8).0);
                }
                CustomEvent::NoEvent
            },
            Action::HoldTap(h, t, to) => {
                self.settle_hold_exec();
                self.pending = Some(
                    PendingHoldTap { row: r8, col: c8, hold: h, tap: t, timeout: to, elapsed: 0 },
                );
                proof {
                    assert(self.model() =~= press_tr(m, r8, c8).0);
                }
                CustomEvent::NoEvent
            },
            Action::Custom(p) => {
                self.states.set(j, KeyState::Down(Held::HeldCustom(p)));
                proof {
                    assert(self.model() =~= press_tr(m, r8, c8).0);
                }
                CustomEvent::CustomPress(p)
            },
        }
    }

    /// Handles one release event.
    fn release(&mut self, r8: u8, c8: u8) -> (cu: CustomEvent)
        requires
            old(self).model().wf(),
        ensures
            final(self).model() == release_tr(old(self).model(), r8, c8).0,
            cu == release_tr(old(self).model(), r8, c8).1,
    {
        let ghost m = old(self).model();
        let r = r8 as usize;
        let c = c8 as usize;
        if !(r < self.rows && c < self.cols) {
            return CustomEvent::NoEvent;
        }
        match self.pending {
            Some(p) => {
                if p.row == r8 && p.col == c8 {
                    self.pending = None;
                    self.flash = Some(TapFlash { action: p.tap, fresh: true });
                    proof {
                        assert(self.model() =~= release_tr(m, r8, c8).0);
                    }
                    return CustomEvent::NoEvent;
                }
            },
            None => (),
        }
        let j = self.cell_index(r, c);
        match self.states[j] {
            KeyState::Idle => CustomEvent::NoEvent,
            KeyState::Down(h) => {
                self.states.set(j, KeyState::Idle);
                match h {
                    Held::HeldLayer(l) => {
                        vec_remove_last(&mut self.stack, l);
                        proof {
                            assert(self.model() =~= release_tr(m, r8, c8).0);
                        }
                        CustomEvent::NoEvent
                    },
                    Held::HeldCustom(p) => {
                        proof {
                            assert(self.model() =~= release_tr(m, r8, c8).0);
                        }
                        CustomEvent::CustomRelease(p)
                    },
                    _ => {
                        proof {
                            assert(self.model() =~= release_tr(m, r8, c8).0);
                        }
                        CustomEvent::NoEvent
                    },
                }
            },
        }
    }

    /// Advances time by one tick: ages the tap flash, and drives the
    /// in-flight hold-tap toward its timeout, resolving it to its hold
    /// action when the timeout is reached.
    pub fn tick(&mut self)
        requires
            old(self).model().wf(),
        ensures
            final(self).model() == tick_tr(old(self).model()),
            final(self).model().wf(),
    {
        proof {
            lemma_tick_wf(old(self).model());
        }
        let ghost m = old(self).model();
        match self.flash {
            Some(f) => {
                if f.fresh {
                    self.flash = Some(TapFlash { action: f.action, fresh: false });
                } else {
                    self.flash = None;
                }
            },
            None => (),
        }
        let ghost mf = self.model();
        proof {
            assert(mf =~= tick_flash(m));
            assert(mf.wf());
        }
        match self.pending {
            Some(p) => {
                if p.elapsed + 1 >= p.timeout {
                    self.settle_hold_exec();
                } else {
                    self.pending = Some(PendingHoldTap { elapsed: p.elapsed + 1, ..p });
                }
            },
            None => (),
        }
        proof {
            assert(self.model() =~= tick_tr(m));
        }
    }

    /// The modifier bitmask and the keycodes the engine currently asserts,
    /// in cell order with the tap flash last.
    pub fn keycodes(&self) -> (out: (u8, Vec<u8>))
        requires
            self.model().wf(),
        ensures
            out.0 == active_mods(self.model()),
            out.1@ == active_keys(self.model()),
    {
        let ghost m = self.model();
        let mut mods: u8 = 0;
        let mut keys: Vec<u8> = Vec::new();
        let mut i: usize = 0;
        while i < self.states.len()
            invariant
                i <= self.states@.len(),
                m == self.model(),
                keys@ == held_keys_upto(m, i as int),
                mods == held_mods_upto(m, i as int),
            decreases self.states@.len() - i,
        {
            let ghost mods_pre = mods;
            match self.states[i] {
                KeyState::Down(h) => {
                    match h {
                        Held::HeldKey(k) => {
                            keys.push(k);
                        },
                        Held::HeldModKey(mm, k) => {
                            mods = mods | mm;
                            keys.push(k);
                        },
                        _ => (),
                    }
                },
                KeyState::Idle => (),
            }
            i = i + 1;
            proof {
                assert(mods_pre | 0u8 == mods_pre) by (bit_vector);
                assert(keys@ =~= held_keys_upto(m, i as int));
            }
        }
        let ghost mods_held = mods;
        match self.flash {
            Some(f) => {
                match f.action {
                    BareAction::Key(k) => {
                        keys.push(k);
                    },
                    BareAction::ModKey(mm, k) => {
                        mods = mods | mm;
                        keys.push(k);
                    },
                    _ => (),
                }
            },
            None => (),
        }
        proof {
            assert(mods_held | 0u8 == mods_held) by (bit_vector);
            assert(keys@ =~= active_keys(m));
        }
        (mods, keys)
    }

    /// Snapshots the active keycodes into a boot-keyboard report.
    pub fn report(&self) -> (r: HidReport)
        requires
            self.model().wf(),
        ensures
            r.wf(),
            r.modifiers == active_mods(self.model()) | spec_mods(active_keys(self.model())),
            spec_nonmod(active_keys(self.model())).len() <= 6 ==> r.keycodes@ == spec_nonmod(
                active_keys(self.model()),
            ) + Seq::new((6 - spec_nonmod(active_keys(self.model())).len()) as nat, |i: int| 0u8),
            spec_nonmod(active_keys(self.model())).len() > 6 ==> r.keycodes@ == spec_nonmod(
                active_keys(self.model()),
            ).take(6),
    {
        let (mods, keys) = self.keycodes();
        build_report(mods, &keys)
    }
}

} // verus!
