//! Debouncer: turns successive raw grids into stable press/release events.
//!
//! Per coordinate it keeps the committed (debounced) state and a counter of
//! consecutive samples that disagree with it. The counter resets whenever a
//! sample agrees with the committed state; once `threshold` consecutive
//! disagreeing samples arrive, the coordinate flips and one event is emitted.

use vstd::prelude::*;
use crate::event::Event;
use crate::grid::RawGrid;
use vstd::arithmetic::div_mod::lemma_fundamental_div_mod;
use vstd::arithmetic::div_mod::lemma_fundamental_div_mod_converse;
use vstd::arithmetic::div_mod::lemma_mod_division_less_than_divisor;
use vstd::arithmetic::mul::lemma_mul_inequality;

verus! {

/// The counter after one sample: reset on agreement with the committed state
/// or on commit, otherwise one more disagreeing sample banked.
pub open spec fn step_count(com: bool, cnt: u8, s: bool, n: u8) -> u8 {
    if s == com {
        0
    } else if cnt + 1 >= n {
        0
    } else {
        (cnt + 1) as u8
    }
}

/// The committed state after one sample: flips only when the disagreeing
/// streak reaches the threshold.
pub open spec fn step_committed(com: bool, cnt: u8, s: bool, n: u8) -> bool {
    if s != com && cnt + 1 >= n {
        s
    } else {
        com
    }
}

/// Whether one sample completes a streak and so emits an event.
pub open spec fn step_emits(com: bool, cnt: u8, s: bool, n: u8) -> bool {
    s != com && cnt + 1 >= n
}

/// The event emitted when flat cell `j` commits sample `pressed`.
pub open spec fn spec_event_at(j: int, cols: int, pressed: bool) -> Event {
    if pressed {
        Event::Press((j / cols) as u8, (j % cols) as u8)
    } else {
        Event::Release((j / cols) as u8, (j % cols) as u8)
    }
}

/// The events one update emits for the flat cells `[0, i)`, in cell order.
pub open spec fn spec_events_upto(
    com: Seq<bool>,
    cnt: Seq<u8>,
    samples: Seq<bool>,
    n: u8,
    cols: int,
    i: int,
) -> Seq<Event>
    decreases i,
{
    if i <= 0 {
        Seq::empty()
    } else {
        let prev = spec_events_upto(com, cnt, samples, n, cols, i - 1);
        if step_emits(com[i - 1], cnt[i - 1], samples[i - 1], n) {
            prev.push(spec_event_at(i - 1, cols, samples[i - 1]))
        } else {
            prev
        }
    }
}

/// Strict ascending (row, col) order between two events' coordinates.
pub open spec fn coord_lt(a: Event, b: Event) -> bool {
    a.spec_row() < b.spec_row() || (a.spec_row() == b.spec_row() && a.spec_col() < b.spec_col())
}

/// Every pair of events stands in ascending (row, col) order.
pub open spec fn events_ascending(evs: Seq<Event>) -> bool {
    forall|x: int, y: int| 0 <= x < y < evs.len() ==> coord_lt(evs[x], evs[y])
}

/// The per-coordinate debounce state of the local half's grid.
pub struct Debouncer {
    pub rows: usize,
    pub cols: usize,
    pub threshold: u8,
    pub committed: Vec<bool>,
    pub counts: Vec<u8>,
}

impl Debouncer {
    /// Dimensions are byte-sized, the state vectors cover the grid, and no
    /// counter has reached the threshold.
    pub open spec fn wf(self) -> bool {
        &&& 1 <= self.rows <= 255
        &&& 1 <= self.cols <= 255
        &&& self.threshold >= 1
        &&& self.committed@.len() == self.rows * self.cols
        &&& self.counts@.len() == self.rows * self.cols
        &&& forall|j: int| 0 <= j < self.counts@.len() ==> self.counts@[j] < self.threshold
    }

    /// A debouncer whose every coordinate is released and quiescent.
    pub fn new(rows: usize, cols: usize, threshold: u8) -> (d: Debouncer)
        requires
            1 <= rows <= 255,
            1 <= cols <= 255,
            threshold >= 1,
        ensures
            d.wf(),
            d.rows == rows,
            d.cols == cols,
            d.threshold == threshold,
            forall|j: int| 0 <= j < d.committed@.len() ==> d.committed@[j] == false,
            forall|j: int| 0 <= j < d.counts@.len() ==> d.counts@[j] == 0,
    {
        proof {
            crate::grid::lemma_grid_size_bound(rows as int, cols as int);
        }
        let n = rows * cols;
        let mut committed: Vec<bool> = Vec::new();
        let mut counts: Vec<u8> = Vec::new();
        let mut i: usize = 0;
        while i < n
            invariant
                i <= n,
                committed@.len() == i,
                counts@.len() == i,
                forall|j: int| 0 <= j < i ==> committed@[j] == false,
                forall|j: int| 0 <= j < i ==> counts@[j] == 0,
            decreases n - i,
        {
            committed.push(false);
            counts.push(0);
            i = i + 1;
        }
        Debouncer { rows, cols, threshold, committed, counts }
    }

    /// Consumes one raw grid sample and returns the debounced events it
    /// completes, in ascending (row, col) order.
    pub fn update(&mut self, grid: &RawGrid) -> (events: Vec<Event>)
        requires
            old(self).wf(),
            grid.wf(),
            grid.rows == old(self).rows,
            grid.cols == old(self).cols,
        ensures
            final(self).wf(),
            final(self).rows == old(self).rows,
            final(self).cols == old(self).cols,
            final(self).threshold == old(self).threshold,
            forall|j: int|
                0 <= j < final(self).committed@.len() ==> final(self).committed@[j]
                    == step_committed(
                    old(self).committed@[j],
                    old(self).counts@[j],
                    grid.cells@[j],
                    old(self).threshold,
                ),
            forall|j: int|
                0 <= j < final(self).counts@.len() ==> final(self).counts@[j] == step_count(
                    old(self).committed@[j],
                    old(self).counts@[j],
                    grid.cells@[j],
                    old(self).threshold,
                ),
            events@ == spec_events_upto(
                old(self).committed@,
                old(self).counts@,
                grid.cells@,
                old(self).threshold,
                old(self).cols as int,
                old(self).committed@.len() as int,
            ),
            events_ascending(events@),
    {
        let ghost old_com = self.committed@;
        let ghost old_cnt = self.counts@;
        let n_cells = self.committed.len();
        let n = self.threshold;
        let cols = self.cols;
        let mut events: Vec<Event> = Vec::new();
        let mut i: usize = 0;
        let mut r: usize = 0;
        let mut c: usize = 0;
        while i < n_cells
            invariant
                old(self).wf(),
                grid.wf(),
                grid.rows == old(self).rows,
                grid.cols == old(self).cols,
                self.rows == old(self).rows,
                self.cols == old(self).cols,
                self.threshold == old(self).threshold,
                cols == self.cols,
                n == self.threshold,
                n_cells == old(self).committed@.len(),
                old_com == old(self).committed@,
                old_cnt == old(self).counts@,
                self.committed@.len() == n_cells,
                self.counts@.len() == n_cells,
                grid.cells@.len() == n_cells,
                i <= n_cells,
                i == r * cols + c,
                i < n_cells ==> r < self.rows && c < cols,
                forall|j: int|
                    0 <= j < i ==> self.committed@[j] == step_committed(
                        old_com[j],
                        old_cnt[j],
                        grid.cells@[j],
                        n,
                    ),
                forall|j: int|
                    0 <= j < i ==> self.counts@[j] == step_count(
                        old_com[j],
                        old_cnt[j],
                        grid.cells@[j],
                        n,
                    ),
                forall|j: int| i <= j < n_cells ==> self.committed@[j] == old_com[j],
                forall|j: int| i <= j < n_cells ==> self.counts@[j] == old_cnt[j],
                events@ == spec_events_upto(old_com, old_cnt, grid.cells@, n, cols as int, i as int),
            decreases n_cells - i,
        {
            let com = self.committed[i];
            let cnt = self.counts[i];
            let s = grid.cells[i];
            if s == com {
                self.counts.set(i, 0);
            } else {
                if cnt >= n - 1 {
                    self.committed.set(i, s);
                    self.counts.set(i, 0);
                    proof {
                        lemma_fundamental_div_mod_converse(i as int, cols as int, r as int, c as int);
                    }
                    if s {
                        events.push(Event::Press(r as u8, c as u8));
                    } else {
                        events.push(Event::Release(r as u8, c as u8));
                    }
                } else {
                    self.counts.set(i, cnt + 1);
                }
            }
            i = i + 1;
            if c + 1 < cols {
                c = c + 1;
            } else {
                c = 0;
                r = r + 1;
                assert(i == r * cols) by (nonlinear_arith)
                    requires
                        i == (r - 1) * cols + cols,
                        r >= 1,
                ;
                assert(i < n_cells ==> r < self.rows) by (nonlinear_arith)
                    requires
                        i == r * cols,
                        n_cells == self.rows * cols,
                        cols >= 1,
                        r >= 0,
                ;
            }
        }
        proof {
            lemma_events_upto_ascending(
                old_com,
                old_cnt,
                grid.cells@,
                n,
                self.cols as int,
                self.rows as int,
                n_cells as int,
            );
        }
        events
    }
}

/// Events for a prefix of the cells are in ascending coordinate order, and
/// each one's flat cell index lies below the prefix bound.
pub proof fn lemma_events_upto_ascending(
    com: Seq<bool>,
    cnt: Seq<u8>,
    samples: Seq<bool>,
    n: u8,
    cols: int,
    rows: int,
    i: int,
)
    requires
        1 <= cols <= 255,
        1 <= rows <= 255,
        i <= rows * cols,
    ensures
        events_ascending(spec_events_upto(com, cnt, samples, n, cols, i)),
        forall|k: int|
            #![trigger spec_events_upto(com, cnt, samples, n, cols, i)[k]]
            0 <= k < spec_events_upto(com, cnt, samples, n, cols, i).len() ==> {
                let e = spec_events_upto(com, cnt, samples, n, cols, i)[k];
                e.spec_col() < cols && e.spec_row() * cols + e.spec_col() < i
            },
    decreases i,
{
    if i <= 0 {
    } else {
        lemma_events_upto_ascending(com, cnt, samples, n, cols, rows, i - 1);
        let prev = spec_events_upto(com, cnt, samples, n, cols, i - 1);
        let evs = spec_events_upto(com, cnt, samples, n, cols, i);
        if step_emits(com[i - 1], cnt[i - 1], samples[i - 1], n) {
            let j = i - 1;
            let e = spec_event_at(j, cols, samples[j]);
            lemma_fundamental_div_mod(j, cols);
            lemma_mod_division_less_than_divisor(j, cols);
            assert(j / cols < rows) by {
                if j / cols >= rows {
                    lemma_mul_inequality(rows, j / cols, cols);
                    assert(rows * cols <= (j / cols) * cols);
                }
            }
            assert(e.spec_row() == j / cols && e.spec_col() == j % cols);
            assert(e.spec_row() * cols + e.spec_col() == j);
            assert(evs == prev.push(e));
            assert forall|x: int, y: int| 0 <= x < y < evs.len() implies coord_lt(
                evs[x],
                evs[y],
            ) by {
                if y < prev.len() {
                } else {
                    assert(evs[y] == e);
                    lemma_flat_lt_coord_lt(evs[x], e, cols);
                }
            }
        }
    }
}

/// The committed state of one coordinate after a run of samples, starting
/// from committed state `com` with `cnt` disagreeing samples banked.
pub open spec fn run_committed(com: bool, cnt: u8, samples: Seq<bool>, n: u8) -> bool
    decreases samples.len(),
{
    if samples.len() == 0 {
        com
    } else {
        run_committed(
            step_committed(com, cnt, samples[0], n),
            step_count(com, cnt, samples[0], n),
            samples.skip(1),
            n,
        )
    }
}

/// The committed states one coordinate emits over a run of samples, in
/// order: `true` stands for a press, `false` for a release.
pub open spec fn run_events(com: bool, cnt: u8, samples: Seq<bool>, n: u8) -> Seq<bool>
    decreases samples.len(),
{
    if samples.len() == 0 {
        Seq::empty()
    } else {
        let rest = run_events(
            step_committed(com, cnt, samples[0], n),
            step_count(com, cnt, samples[0], n),
            samples.skip(1),
            n,
        );
        if step_emits(com, cnt, samples[0], n) {
            seq![samples[0]] + rest
        } else {
            rest
        }
    }
}

/// All of `samples[i .. i + k]` disagree with `com`.
pub open spec fn all_differ(samples: Seq<bool>, com: bool, i: int, k: int) -> bool {
    forall|j: int| i <= j < i + k ==> samples[j] != com
}

/// Somewhere in `samples` stand `n` consecutive samples disagreeing with
/// `com`.
pub open spec fn has_n_run(samples: Seq<bool>, com: bool, n: int) -> bool {
    exists|i: int| 0 <= i && i + n <= samples.len() && all_differ(samples, com, i, n)
}

/// A quiescent coordinate whose remaining headroom is never filled by a
/// consecutive disagreeing streak emits nothing and keeps its state.
proof fn lemma_run_quiet(com: bool, cnt: u8, samples: Seq<bool>, n: u8)
    requires
        cnt < n,
        !has_n_run(samples, com, n as int),
        !(samples.len() >= n - cnt && all_differ(samples, com, 0, n - cnt)),
    ensures
        run_events(com, cnt, samples, n) == Seq::<bool>::empty(),
        run_committed(com, cnt, samples, n) == com,
    decreases samples.len(),
{
    if samples.len() == 0 {
    } else {
        let s = samples[0];
        let rest = samples.skip(1);
        assert(forall|j: int| 0 <= j < rest.len() ==> rest[j] == samples[j + 1]);
        if s == com {
            assert(!step_emits(com, cnt, s, n));
            assert(!has_n_run(rest, com, n as int)) by {
                if has_n_run(rest, com, n as int) {
                    let i = choose|i: int|
                        0 <= i && i + n <= rest.len() && all_differ(rest, com, i, n as int);
                    assert forall|j: int| i + 1 <= j < i + 1 + n implies samples[j] != com by {
                        assert(rest[j - 1] != com);
                    }
                    assert(all_differ(samples, com, i + 1, n as int));
                    assert(has_n_run(samples, com, n as int));
                }
            }
            assert(!(rest.len() >= n && all_differ(rest, com, 0, n as int))) by {
                if rest.len() >= n && all_differ(rest, com, 0, n as int) {
                    assert forall|j: int| 1 <= j < 1 + n implies samples[j] != com by {
                        assert(rest[j - 1] != com);
                    }
                    assert(all_differ(samples, com, 1, n as int));
                    assert(has_n_run(samples, com, n as int));
                }
            }
            lemma_run_quiet(com, 0, rest, n);
        } else {
            assert(!(cnt + 1 >= n)) by {
                if cnt + 1 >= n {
                    assert(all_differ(samples, com, 0, (n - cnt) as int));
                    assert(samples.len() >= n - cnt);
                }
            }
            assert(!step_emits(com, cnt, s, n));
            let cnt1 = (cnt + 1) as u8;
            assert(!has_n_run(rest, com, n as int)) by {
                if has_n_run(rest, com, n as int) {
                    let i = choose|i: int|
                        0 <= i && i + n <= rest.len() && all_differ(rest, com, i, n as int);
                    assert forall|j: int| i + 1 <= j < i + 1 + n implies samples[j] != com by {
                        assert(rest[j - 1] != com);
                    }
                    assert(all_differ(samples, com, i + 1, n as int));
                    assert(has_n_run(samples, com, n as int));
                }
            }
            assert(!(rest.len() >= n - cnt1 && all_differ(rest, com, 0, n - cnt1))) by {
                if rest.len() >= n - cnt1 && all_differ(rest, com, 0, (n - cnt1) as int) {
                    assert forall|j: int| 0 <= j < n - cnt implies samples[j] != com by {
                        if j >= 1 {
                            assert(rest[j - 1] != com);
                        }
                    }
                    assert(all_differ(samples, com, 0, (n - cnt) as int));
                    assert(samples.len() >= n - cnt);
                }
            }
            lemma_run_quiet(com, cnt1, rest, n);
        }
    }
}

/// Law: fewer than `threshold` consecutive disagreeing samples emit no
/// event, and the committed state stands.
pub proof fn lemma_debounce_rejects_short_runs(com: bool, samples: Seq<bool>, n: u8)
    requires
        n >= 1,
        !has_n_run(samples, com, n as int),
    ensures
        run_events(com, 0, samples, n) == Seq::<bool>::empty(),
        run_committed(com, 0, samples, n) == com,
{
    assert(!(samples.len() >= n && all_differ(samples, com, 0, n as int))) by {
        if samples.len() >= n && all_differ(samples, com, 0, n as int) {
            assert(has_n_run(samples, com, n as int));
        }
    }
    lemma_run_quiet(com, 0, samples, n);
}

/// Filling the remaining headroom with the disagreeing sample emits exactly
/// one event, of that sample's kind, and commits it.
proof fn lemma_run_exact(com: bool, cnt: u8, s: bool, n: u8)
    requires
        s != com,
        cnt < n,
    ensures
        run_events(com, cnt, Seq::new((n - cnt) as nat, |i: int| s), n) == seq![s],
        run_committed(com, cnt, Seq::new((n - cnt) as nat, |i: int| s), n) == s,
    decreases n - cnt,
{
    let k = (n - cnt) as nat;
    let samples = Seq::new(k, |i: int| s);
    let rest = samples.skip(1);
    if cnt + 1 >= n {
        assert(step_emits(com, cnt, s, n));
        assert(rest.len() == 0);
        let com1 = step_committed(com, cnt, samples[0], n);
        let cnt1 = step_count(com, cnt, samples[0], n);
        assert(run_events(com1, cnt1, rest, n) == Seq::<bool>::empty());
        assert(run_committed(com1, cnt1, rest, n) == com1);
        assert(com1 == s);
        assert(run_events(com, cnt, samples, n) =~= seq![s]);
    } else {
        assert(!step_emits(com, cnt, s, n));
        let cnt1 = (cnt + 1) as u8;
        assert(rest =~= Seq::new((n - cnt1) as nat, |i: int| s));
        lemma_run_exact(com, cnt1, s, n);
    }
}

/// Law: exactly `threshold` consecutive samples disagreeing with the
/// committed state emit exactly one event of the correct kind (a press for
/// an active sample, a release for an inactive one) and flip the state.
pub proof fn lemma_debounce_exact_threshold(com: bool, s: bool, n: u8)
    requires
        n >= 1,
        s != com,
    ensures
        run_events(com, 0, Seq::new(n as nat, |i: int| s), n) == seq![s],
        run_committed(com, 0, Seq::new(n as nat, |i: int| s), n) == s,
{
    lemma_run_exact(com, 0, s, n);
}

/// A smaller flat (row-major) index means a lexicographically smaller
/// coordinate, when both columns lie inside the grid.
proof fn lemma_flat_lt_coord_lt(a: Event, b: Event, cols: int)
    requires
        cols >= 1,
        a.spec_col() < cols,
        b.spec_col() < cols,
        a.spec_row() * cols + a.spec_col() < b.spec_row() * cols + b.spec_col(),
    ensures
        coord_lt(a, b),
{
    let (ar, ac) = (a.spec_row() as int, a.spec_col() as int);
    let (br, bc) = (b.spec_row() as int, b.spec_col() as int);
    assert(ar < br || (ar == br && ac < bc)) by (nonlinear_arith)
        requires
            cols >= 1,
            0 <= ac < cols,
            0 <= bc < cols,
            ar >= 0,
            br >= 0,
            ar * cols + ac < br * cols + bc,
    ;
}

} // verus!
