//! Laws of the layout engine: layer resolution, hold-tap disambiguation,
//! and tri-state layer composition, proved over the engine's spec-level
//! transitions.

use vstd::prelude::*;
use crate::engine::Action;
use crate::engine::BareAction;
use crate::engine::EngineModel;
use crate::engine::Held;
use crate::engine::KeyState;
use crate::engine::PendingHoldTap;
use crate::engine::TapFlash;
use crate::engine::TriLayer;
use crate::engine::active_keys;
use crate::engine::first_opaque;
use crate::engine::flash_keys;
use crate::engine::held_keys_upto;
use crate::engine::held_of;
use crate::engine::lemma_cell_injective;
use crate::grid::lemma_row_major_index_bound;
use crate::engine::press_tr;
use crate::engine::release_tr;
use crate::engine::remove_last_occurrence;
use crate::engine::settle_hold;
use crate::engine::state_keys;
use crate::engine::tick_flash;
use crate::engine::tick_tr;
use crate::engine::ticks;

verus! {

/// Reversing after a push puts the new element first.
proof fn lemma_reverse_push(s: Seq<usize>, x: usize)
    ensures
        s.push(x).reverse() == seq![x] + s.reverse(),
{
    assert(s.push(x).reverse() =~= seq![x] + s.reverse());
}

/// A pushed stack contains exactly the old elements and the new one.
proof fn lemma_push_contains(s: Seq<usize>, x: usize, y: usize)
    ensures
        s.push(x).contains(y) == (s.contains(y) || x == y),
{
    if s.push(x).contains(y) {
        let w = choose|w: int| 0 <= w < s.push(x).len() && s.push(x)[w] == y;
        if w < s.len() {
            assert(s[w] == y);
        }
    }
    if s.contains(y) {
        let w = choose|w: int| 0 <= w < s.len() && s[w] == y;
        assert(s.push(x)[w] == y);
    }
    if x == y {
        assert(s.push(x)[s.len() as int] == y);
    }
}

/// Lookups agree between two models with the same bindings and dimensions.
proof fn lemma_first_opaque_same(m1: EngineModel, m2: EngineModel, ls: Seq<usize>, r: int, c: int)
    requires
        m1.actions == m2.actions,
        m1.rows == m2.rows,
        m1.cols == m2.cols,
    ensures
        first_opaque(m1, ls, r, c) == first_opaque(m2, ls, r, c),
    decreases ls.len(),
{
    if ls.len() == 0 {
    } else {
        lemma_first_opaque_same(m1, m2, ls.skip(1), r, c);
    }
}

/// Law: pressing a key bound to a momentary layer makes that layer resolve
/// lookups; releasing it restores the stack, and with it the resolution that
/// held before. Stated for a layout without a tri-state overlay, whose
/// composition is its own law below.
pub proof fn lemma_momentary_layer_resolution(
    m: EngineModel,
    r1: u8,
    c1: u8,
    id: usize,
    r2: u8,
    c2: u8,
)
    requires
        m.wf(),
        r1 < m.rows,
        c1 < m.cols,
        r2 < m.rows,
        c2 < m.cols,
        m.tri is None,
        m.pending is None,
        m.states[m.cell(r1 as int, c1 as int)] == KeyState::Idle,
        m.lookup(r1 as int, c1 as int) == Action::MomentaryLayer(id),
        m.action_at(id as int, r2 as int, c2 as int) != Action::Transparent,
    ensures
        press_tr(m, r1, c1).0.lookup(r2 as int, c2 as int) == m.action_at(
            id as int,
            r2 as int,
            c2 as int,
        ),
        release_tr(press_tr(m, r1, c1).0, r1, c1).0.stack == m.stack,
        release_tr(press_tr(m, r1, c1).0, r1, c1).0.lookup(r2 as int, c2 as int) == m.lookup(
            r2 as int,
            c2 as int,
        ),
{
    let m1 = press_tr(m, r1, c1).0;
    lemma_row_major_index_bound(r1 as int, c1 as int, m.rows as int, m.cols as int);
    assert(m1.stack == m.stack.push(id));
    lemma_reverse_push(m.stack, id);
    assert(m1.search_layers() == seq![id] + (m.stack.reverse() + seq![m.default_layer]));
    assert(m1.search_layers()[0] == id);
    assert(m1.lookup(r2 as int, c2 as int) == m.action_at(id as int, r2 as int, c2 as int)) by {
        assert(m1.action_at(id as int, r2 as int, c2 as int) == m.action_at(
            id as int,
            r2 as int,
            c2 as int,
        ));
    }
    let m2 = release_tr(m1, r1, c1).0;
    assert(m1.states[m1.cell(r1 as int, c1 as int)] == KeyState::Down(Held::HeldLayer(id)));
    assert(m2.stack == remove_last_occurrence(m.stack.push(id), id));
    assert(m.stack.push(id).drop_last() =~= m.stack);
    assert(m2.stack == m.stack);
    assert(m2.search_layers() == m.search_layers());
    lemma_first_opaque_same(m2, m, m.search_layers(), r2 as int, c2 as int);
}

/// After `k` quiet ticks a pending hold-tap has merely aged by `k`.
proof fn lemma_ticks_pending(m: EngineModel, p: PendingHoldTap, k: nat)
    requires
        m.pending == Some(p),
        m.flash is None,
        p.elapsed + k < p.timeout,
    ensures
        ticks(m, k) == (EngineModel {
            pending: Some(PendingHoldTap { elapsed: (p.elapsed + k) as u16, ..p }),
            ..m
        }),
    decreases k,
{
    if k == 0 {
        assert(PendingHoldTap { elapsed: (p.elapsed + 0) as u16, ..p } == p);
        assert(ticks(m, 0) =~= (EngineModel {
            pending: Some(PendingHoldTap { elapsed: (p.elapsed + 0) as u16, ..p }),
            ..m
        }));
    } else {
        lemma_ticks_pending(m, p, (k - 1) as nat);
        let mk1 = ticks(m, (k - 1) as nat);
        assert(tick_flash(mk1) == mk1) by {
            assert(tick_flash(mk1) =~= mk1);
        }
        assert(ticks(m, k) =~= (EngineModel {
            pending: Some(PendingHoldTap { elapsed: (p.elapsed + k) as u16, ..p }),
            ..m
        }));
    }
}

/// A keycode asserted by some coordinate state stands among the keycodes of
/// every prefix that covers it.
proof fn lemma_held_keys_at(m: EngineModel, j: int, k: u8, i: int)
    requires
        0 <= j < i <= m.states.len(),
        state_keys(m.states[j]).contains(k),
    ensures
        held_keys_upto(m, i).contains(k),
    decreases i,
{
    if i == j + 1 {
        let w = choose|w: int|
            0 <= w < state_keys(m.states[j]).len() && state_keys(m.states[j])[w] == k;
        assert(held_keys_upto(m, i)[held_keys_upto(m, j).len() + w] == k);
    } else {
        lemma_held_keys_at(m, j, k, i - 1);
        let w = choose|w: int|
            0 <= w < held_keys_upto(m, i - 1).len() && #[trigger] held_keys_upto(m, i - 1)[w]
                == k;
        assert(held_keys_upto(m, i)[w] == k);
    }
}

/// A keycode asserted by some coordinate state is among the active keycodes.
proof fn lemma_active_keys_at(m: EngineModel, j: int, k: u8)
    requires
        0 <= j < m.states.len(),
        state_keys(m.states[j]).contains(k),
    ensures
        active_keys(m).contains(k),
{
    lemma_held_keys_at(m, j, k, m.states.len() as int);
    let w = choose|w: int|
        0 <= w < held_keys_upto(m, m.states.len() as int).len() && #[trigger] held_keys_upto(
            m,
            m.states.len() as int,
        )[w] == k;
    assert(active_keys(m)[w] == k);
}

/// Law: a hold-tap released within `timeout - 1` ticks of its press, with no
/// interrupting press, resolves as its tap action, which flashes into the
/// next report.
pub proof fn lemma_holdtap_resolves_tap(m: EngineModel, p: PendingHoldTap, k: nat)
    requires
        m.wf(),
        m.pending == Some(p),
        m.flash is None,
        p.elapsed == 0,
        k < p.timeout,
    ensures
        ticks(m, k).pending == Some(PendingHoldTap { elapsed: k as u16, ..p }),
        release_tr(ticks(m, k), p.row, p.col).0.pending is None,
        release_tr(ticks(m, k), p.row, p.col).0.flash == Some(
            TapFlash { action: p.tap, fresh: true },
        ),
        forall|kc: u8|
            p.tap == BareAction::Key(kc) ==> active_keys(
                release_tr(ticks(m, k), p.row, p.col).0,
            ).contains(kc),
{
    lemma_ticks_pending(m, p, k);
    let mk = ticks(m, k);
    let mr = release_tr(mk, p.row, p.col).0;
    assert(mr.pending is None);
    assert(mr.flash == Some(TapFlash { action: p.tap, fresh: true }));
    assert forall|kc: u8| p.tap == BareAction::Key(kc) implies active_keys(mr).contains(
        kc,
    ) by {
        assert(flash_keys(mr.flash) == seq![kc]);
        assert(active_keys(mr)[held_keys_upto(mr, mr.states.len() as int).len() as int] == kc);
    }
}

/// Law: a hold-tap held for `timeout` ticks with no interrupting press
/// resolves as its hold action: the key goes down holding it, and a hold
/// keycode joins the active set.
pub proof fn lemma_holdtap_resolves_hold(m: EngineModel, p: PendingHoldTap)
    requires
        m.wf(),
        m.pending == Some(p),
        m.flash is None,
        p.elapsed == 0,
    ensures
        ticks(m, p.timeout as nat).pending is None,
        ticks(m, p.timeout as nat).states[m.cell(p.row as int, p.col as int)] == KeyState::Down(
            held_of(p.hold),
        ),
        forall|kc: u8|
            p.hold == BareAction::Key(kc) ==> active_keys(ticks(m, p.timeout as nat)).contains(
                kc,
            ),
{
    let to = p.timeout as nat;
    lemma_ticks_pending(m, p, (to - 1) as nat);
    let mk = ticks(m, (to - 1) as nat);
    let pk = PendingHoldTap { elapsed: (to - 1) as u16, ..p };
    assert(mk.pending == Some(pk));
    assert(ticks(m, to) == tick_tr(mk));
    assert(tick_flash(mk) == mk) by {
        assert(tick_flash(mk) =~= mk);
    }
    let j = m.cell(p.row as int, p.col as int);
    lemma_row_major_index_bound(p.row as int, p.col as int, m.rows as int, m.cols as int);
    let mt = tick_tr(mk);
    assert(mt == settle_hold(mk));
    assert(mt.states[j] == KeyState::Down(held_of(p.hold)));
    assert forall|kc: u8| p.hold == BareAction::Key(kc) implies active_keys(mt).contains(kc) by {
        assert(state_keys(mt.states[j]) == seq![kc]);
        assert(state_keys(mt.states[j]).contains(kc)) by {
            assert(state_keys(mt.states[j])[0] == kc);
        }
        lemma_active_keys_at(mt, j, kc);
    }
}

/// Law: the composed tri-state layer activates exactly when its two source
/// layers are both held, and deactivates the instant either is released.
pub proof fn lemma_tri_state_composition(
    m: EngineModel,
    t: TriLayer,
    ra: u8,
    ca: u8,
    rb: u8,
    cb: u8,
)
    requires
        m.wf(),
        ra < m.rows,
        ca < m.cols,
        rb < m.rows,
        cb < m.cols,
        !(ra == rb && ca == cb),
        m.tri == Some(t),
        t.lower != t.upper,
        m.pending is None,
        m.states[m.cell(ra as int, ca as int)] == KeyState::Idle,
        m.states[m.cell(rb as int, cb as int)] == KeyState::Idle,
        !m.stack.contains(t.lower),
        !m.stack.contains(t.upper),
        m.lookup(ra as int, ca as int) == Action::MomentaryLayer(t.lower),
        press_tr(m, ra, ca).0.lookup(rb as int, cb as int) == Action::MomentaryLayer(t.upper),
    ensures
        !m.tri_active(),
        !press_tr(m, ra, ca).0.tri_active(),
        press_tr(press_tr(m, ra, ca).0, rb, cb).0.tri_active(),
        !release_tr(press_tr(press_tr(m, ra, ca).0, rb, cb).0, ra, ca).0.tri_active(),
        !release_tr(press_tr(press_tr(m, ra, ca).0, rb, cb).0, rb, cb).0.tri_active(),
{
    let ja = m.cell(ra as int, ca as int);
    let jb = m.cell(rb as int, cb as int);
    lemma_row_major_index_bound(ra as int, ca as int, m.rows as int, m.cols as int);
    lemma_row_major_index_bound(rb as int, cb as int, m.rows as int, m.cols as int);
    lemma_cell_injective(m, ra as int, ca as int, rb as int, cb as int);
    let m1 = press_tr(m, ra, ca).0;
    assert(m1.stack == m.stack.push(t.lower));
    lemma_push_contains(m.stack, t.lower, t.upper);
    assert(!m1.tri_active());
    assert(m1.states[jb] == KeyState::Idle);
    let m2 = press_tr(m1, rb, cb).0;
    assert(m2.stack == m.stack.push(t.lower).push(t.upper));
    lemma_push_contains(m.stack, t.lower, t.lower);
    lemma_push_contains(m.stack.push(t.lower), t.upper, t.lower);
    lemma_push_contains(m.stack.push(t.lower), t.upper, t.upper);
    assert(m2.tri_active());
    // releasing the first source layer
    assert(m2.states[ja] == KeyState::Down(Held::HeldLayer(t.lower)));
    let mra = release_tr(m2, ra, ca).0;
    assert(mra.stack == remove_last_occurrence(m2.stack, t.lower));
    assert(remove_last_occurrence(m2.stack, t.lower) == m.stack.push(t.upper)) by {
        assert(m2.stack.last() == t.upper);
        assert(m2.stack.drop_last() =~= m.stack.push(t.lower));
        assert(m.stack.push(t.lower).last() == t.lower);
        assert(m.stack.push(t.lower).drop_last() =~= m.stack);
        assert(remove_last_occurrence(m.stack.push(t.lower), t.lower) == m.stack);
    }
    lemma_push_contains(m.stack, t.upper, t.lower);
    assert(!mra.stack.contains(t.lower));
    assert(!mra.tri_active());
    // releasing the second source layer
    assert(m2.states[jb] == KeyState::Down(Held::HeldLayer(t.upper)));
    let mrb = release_tr(m2, rb, cb).0;
    assert(mrb.stack == remove_last_occurrence(m2.stack, t.upper));
    assert(remove_last_occurrence(m2.stack, t.upper) == m.stack.push(t.lower)) by {
        assert(m2.stack.last() == t.upper);
        assert(m2.stack.drop_last() =~= m.stack.push(t.lower));
    }
    lemma_push_contains(m.stack, t.lower, t.upper);
    assert(!mrb.stack.contains(t.upper));
    assert(!mrb.tri_active());
}

} // verus!
