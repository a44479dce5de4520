//! Escape-time counting, driven one magnitude test at a time.
//!
//! The caller owns the orbit arithmetic. At every step it reports whether the
//! current orbit point is still within radius 2; the counters here decide
//! whether to go on and what count the point gets.
use vstd::prelude::*;

verus! {

/// Number of lanes advanced together by the grouped counter.
pub const LANES: usize = 4;

/// Whether the magnitude test of step `i` passed. A step not reported fails.
pub open spec fn passes(checks: Seq<bool>, i: nat) -> bool {
    i < checks.len() && checks[i as int]
}

/// The count that the single-point loop reaches when started at step `i`:
/// it advances while the test passes and the budget `max` is not spent.
pub open spec fn scalar_end(checks: Seq<bool>, max: nat, i: nat) -> nat
    decreases max - i,
{
    if i < max && passes(checks, i) {
        scalar_end(checks, max, i + 1)
    } else {
        i
    }
}

/// The escape count of an orbit whose magnitude tests are `checks`.
pub open spec fn escape_count(checks: Seq<bool>, max: nat) -> nat {
    scalar_end(checks, max, 0)
}

/// Skipping over a run of passed tests does not change the final count.
pub proof fn lemma_scalar_skip(checks: Seq<bool>, max: nat, i: nat, k: nat)
    requires
        i <= k <= max,
        forall|j: nat| i <= j < k ==> #[trigger] passes(checks, j),
    ensures
        scalar_end(checks, max, i) == scalar_end(checks, max, k),
    decreases k - i,
{
    if i < k {
        assert(passes(checks, i));
        lemma_scalar_skip(checks, max, i + 1, k);
    }
}

proof fn lemma_scalar_end(checks: Seq<bool>, max: nat, i: nat)
    requires
        i <= max,
    ensures
        i <= scalar_end(checks, max, i) <= max,
        forall|j: nat| i <= j < scalar_end(checks, max, i) ==> #[trigger] passes(checks, j),
        scalar_end(checks, max, i) < max ==> !passes(checks, scalar_end(checks, max, i)),
    decreases max - i,
{
    if i < max && passes(checks, i) {
        lemma_scalar_end(checks, max, i + 1);
    }
}

/// The escape count depends on the tests up to the first failed one alone:
/// two orbits whose tests agree that far get the same count, whatever their
/// tests say afterwards.
pub proof fn lemma_count_ignores_later_tests(a: Seq<bool>, b: Seq<bool>, max: nat)
    requires
        forall|j: nat| j <= escape_count(a, max) && j < max ==> #[trigger] passes(a, j) == passes(b, j),
    ensures
        escape_count(b, max) == escape_count(a, max),
{
    let k = escape_count(a, max);
    lemma_scalar_end(a, max, 0);
    assert forall|j: nat| 0 <= j < k implies #[trigger] passes(b, j) by {
        assert(passes(a, j));
    }
    lemma_scalar_skip(b, max, 0, k);
}

/// The magnitude tests of lane `l`, read out of per-step rows.
pub open spec fn lane_column(rows: Seq<Seq<bool>>, l: int) -> Seq<bool> {
    Seq::new(rows.len(), |s: int| l < rows[s].len() && rows[s][l])
}

/// Masks and counts of the grouped loop.
pub struct LaneModel {
    pub active: Seq<bool>,
    pub counts: Seq<nat>,
}

/// The mask after the tests of step `s` are folded into `active`.
pub open spec fn masked(rows: Seq<Seq<bool>>, s: nat, active: Seq<bool>) -> Seq<bool> {
    Seq::new(LANES as nat, |l: int| active[l] && passes(lane_column(rows, l), s))
}

pub open spec fn none_active(active: Seq<bool>) -> bool {
    forall|l: int| 0 <= l < LANES ==> !#[trigger] active[l]
}

/// Masks and counts of the grouped loop after `k` steps that did not stop it:
/// every step folds its tests into the mask, then adds one to each lane
/// still active.
pub open spec fn lane_state(rows: Seq<Seq<bool>>, k: nat) -> LaneModel
    decreases k,
{
    if k == 0 {
        LaneModel { active: Seq::new(LANES as nat, |l: int| true), counts: Seq::new(LANES as nat, |l: int| 0nat) }
    } else {
        let prev = lane_state(rows, (k - 1) as nat);
        let a = masked(rows, (k - 1) as nat, prev.active);
        LaneModel {
            active: a,
            counts: Seq::new(LANES as nat, |l: int| if a[l] { (prev.counts[l] + 1) as nat } else { prev.counts[l] }),
        }
    }
}

/// Whether the grouped loop stops at step `s`: no lane is left active.
pub open spec fn lane_stops(rows: Seq<Seq<bool>>, s: nat) -> bool {
    none_active(masked(rows, s, lane_state(rows, s).active))
}

/// The step at which the grouped loop, at step `s`, ends.
pub open spec fn lane_end(rows: Seq<Seq<bool>>, max: nat, s: nat) -> nat
    decreases max - s,
{
    if s < max && !lane_stops(rows, s) {
        lane_end(rows, max, s + 1)
    } else {
        s
    }
}

/// The counts that the grouped loop returns.
pub open spec fn lane_counts(rows: Seq<Seq<bool>>, max: nat) -> Seq<nat> {
    lane_state(rows, lane_end(rows, max, 0)).counts
}

proof fn lemma_lane_end(rows: Seq<Seq<bool>>, max: nat, s: nat)
    requires
        s <= max,
    ensures
        s <= lane_end(rows, max, s) <= max,
        forall|k: nat| s <= k < lane_end(rows, max, s) ==> !#[trigger] lane_stops(rows, k),
        lane_end(rows, max, s) < max ==> lane_stops(rows, lane_end(rows, max, s)),
    decreases max - s,
{
    if s < max && !lane_stops(rows, s) {
        lemma_lane_end(rows, max, s + 1);
    }
}

/// Where the loop ends is fixed by the first step that stops it.
proof fn lemma_lane_end_at(rows: Seq<Seq<bool>>, max: nat, s: nat, k: nat)
    requires
        s <= k <= max,
        forall|j: nat| s <= j < k ==> !#[trigger] lane_stops(rows, j),
        k == max || lane_stops(rows, k),
    ensures
        lane_end(rows, max, s) == k,
    decreases k - s,
{
    if s < k {
        assert(!lane_stops(rows, s));
        lemma_lane_end_at(rows, max, s + 1, k);
    }
}

/// Closed form of the grouped state while the loop runs: a lane is active
/// exactly when all its tests so far passed, and then counts every step;
/// otherwise its count is already the single-point escape count.
proof fn lemma_lane_state(rows: Seq<Seq<bool>>, max: nat, k: nat)
    requires
        k <= max,
        forall|j: nat| j < k ==> !#[trigger] lane_stops(rows, j),
    ensures
        lane_state(rows, k).active.len() == LANES,
        lane_state(rows, k).counts.len() == LANES,
        forall|l: int| 0 <= l < LANES ==> (#[trigger] lane_state(rows, k).active[l] <==> forall|j: nat|
            j < k ==> #[trigger] passes(lane_column(rows, l), j)),
        forall|l: int|
            0 <= l < LANES && #[trigger] lane_state(rows, k).active[l] ==> lane_state(rows, k).counts[l] == k,
        forall|l: int|
            0 <= l < LANES && !#[trigger] lane_state(rows, k).active[l] ==> lane_state(rows, k).counts[l]
                == escape_count(lane_column(rows, l), max),
    decreases k,
{
    if k > 0 {
        let k1 = (k - 1) as nat;
        lemma_lane_state(rows, max, k1);
        let prev = lane_state(rows, k1);
        let st = lane_state(rows, k);
        assert forall|l: int| 0 <= l < LANES implies (st.active[l] <==> forall|j: nat|
            j < k ==> #[trigger] passes(lane_column(rows, l), j)) && (st.active[l] ==> st.counts[l] == k) && (
        !st.active[l] ==> st.counts[l] == escape_count(lane_column(rows, l), max)) by {
            let col = lane_column(rows, l);
            if prev.active[l] && !passes(col, k1) {
                lemma_scalar_skip(col, max, 0, k1);
            }
            if !prev.active[l] {
                assert(!forall|j: nat| j < k1 ==> #[trigger] passes(col, j));
                let j0 = choose|j: nat| j < k1 && !#[trigger] passes(col, j);
                assert(j0 < k && !passes(col, j0));
            }
        }
    }
}

/// The grouped loop returns, in every lane, the count that the single-point
/// loop returns for that lane's tests.
pub proof fn lemma_lanes_agree_with_scalar(rows: Seq<Seq<bool>>, max: nat, l: int)
    requires
        0 <= l < LANES,
    ensures
        lane_counts(rows, max)[l] == escape_count(lane_column(rows, l), max),
{
    let n = lane_end(rows, max, 0);
    lemma_lane_end(rows, max, 0);
    lemma_lane_state(rows, max, n);
    let col = lane_column(rows, l);
    if lane_state(rows, n).active[l] {
        lemma_scalar_skip(col, max, 0, n);
        if n < max {
            assert(!masked(rows, n, lane_state(rows, n).active)[l]);
        }
    }
}

/// Reporting the tests of one more step changes nothing about earlier steps.
proof fn lemma_lane_frame(rows: Seq<Seq<bool>>, row: Seq<bool>, k: nat)
    requires
        k <= rows.len(),
    ensures
        lane_state(rows.push(row), k) == lane_state(rows, k),
        k < rows.len() ==> lane_stops(rows.push(row), k) == lane_stops(rows, k),
    decreases k,
{
    let ext = rows.push(row);
    assert forall|l: int, j: nat| j < rows.len() implies passes(lane_column(ext, l), j) == passes(
        lane_column(rows, l),
        j,
    ) by {
        assert(ext[j as int] == rows[j as int]);
    }
    if k > 0 {
        lemma_lane_frame(rows, row, (k - 1) as nat);
        let k1 = (k - 1) as nat;
        assert(masked(ext, k1, lane_state(ext, k1).active) =~= masked(rows, k1, lane_state(rows, k1).active));
        assert(lane_state(ext, k).active =~= lane_state(rows, k).active);
        assert(lane_state(ext, k).counts =~= lane_state(rows, k).counts);
    }
    if k < rows.len() {
        assert(masked(ext, k, lane_state(ext, k).active) =~= masked(rows, k, lane_state(rows, k).active));
    }
}

/// Escape counter for one point, fed one magnitude test per step.
pub struct ScalarEscape {
    pub max_iterations: u32,
    pub count: u32,
    pub finished: bool,
    /// The tests reported so far.
    pub seen: Ghost<Seq<bool>>,
}

impl ScalarEscape {
    pub open spec fn wf(&self) -> bool {
        &&& self.count <= self.max_iterations
        &&& !self.finished ==> {
            &&& self.count < self.max_iterations
            &&& self.seen@.len() == self.count
            &&& forall|j: nat| j < self.count ==> #[trigger] passes(self.seen@, j)
        }
        &&& self.finished ==> self.count == escape_count(self.seen@, self.max_iterations as nat)
        &&& self.finished ==> (self.count == self.max_iterations || (self.count < self.seen@.len()
            && !self.seen@[self.count as int]))
    }

    /// A counter at step 0; with a budget of 0 it is finished at once.
    pub fn new(max_iterations: u32) -> (r: Self)
        ensures
            r.wf(),
            r.max_iterations == max_iterations,
            r.count == 0,
            r.seen@ == Seq::<bool>::empty(),
            r.finished == (max_iterations == 0),
    {
        ScalarEscape { max_iterations, count: 0, finished: max_iterations == 0, seen: Ghost(Seq::empty()) }
    }

    /// Takes the test of the current orbit point (`true`: still within
    /// radius 2). Returns whether the orbit must advance and be tested again.
    pub fn observe(&mut self, within: bool) -> (go_on: bool)
        requires
            old(self).wf(),
            !old(self).finished,
        ensures
            final(self).wf(),
            final(self).max_iterations == old(self).max_iterations,
            final(self).seen@ == old(self).seen@.push(within),
            go_on == !final(self).finished,
            within ==> final(self).count == old(self).count + 1,
            !within ==> final(self).count == old(self).count && final(self).finished,
    {
        let ghost prev = self.seen@;
        self.seen = Ghost(prev.push(within));
        proof {
            assert forall|j: nat| j < self.count implies #[trigger] passes(self.seen@, j) by {
                assert(passes(prev, j));
            }
        }
        if within {
            self.count = self.count + 1;
            if self.count == self.max_iterations {
                self.finished = true;
                proof {
                    lemma_scalar_skip(self.seen@, self.max_iterations as nat, 0, self.count as nat);
                }
            }
        } else {
            self.finished = true;
            proof {
                lemma_scalar_skip(self.seen@, self.max_iterations as nat, 0, self.count as nat);
            }
        }
        !self.finished
    }
}

/// Escape counter for four points advanced in lockstep: one mask bit per
/// lane, cleared for good at the lane's first failed test; a step adds one to
/// the lanes still set, and the counter stops once no lane is set.
pub struct LaneEscape {
    pub max_iterations: u32,
    pub steps: u32,
    pub active: [bool; 4],
    pub counts: [u32; 4],
    pub finished: bool,
    /// The reported tests, one row of four per step.
    pub seen: Ghost<Seq<Seq<bool>>>,
}

impl LaneEscape {
    pub open spec fn wf(&self) -> bool {
        &&& self.steps <= self.max_iterations
        &&& forall|l: int| 0 <= l < LANES ==> self.counts@[l] <= self.steps
        &&& !self.finished ==> {
            &&& self.steps < self.max_iterations
            &&& self.seen@.len() == self.steps
            &&& forall|k: nat| k < self.steps ==> !#[trigger] lane_stops(self.seen@, k)
            &&& self.active@ == lane_state(self.seen@, self.steps as nat).active
            &&& forall|l: int|
                0 <= l < LANES ==> self.counts@[l] == #[trigger] lane_state(self.seen@, self.steps as nat).counts[l]
        }
        &&& self.finished ==> forall|l: int|
            0 <= l < LANES ==> self.counts@[l] == #[trigger] lane_counts(self.seen@, self.max_iterations as nat)[l]
    }

    /// A counter at step 0 with every lane active; with a budget of 0 it is
    /// finished at once.
    pub fn new(max_iterations: u32) -> (r: Self)
        ensures
            r.wf(),
            r.max_iterations == max_iterations,
            r.counts@ == seq![0u32, 0u32, 0u32, 0u32],
            r.seen@ == Seq::<Seq<bool>>::empty(),
            r.finished == (max_iterations == 0),
    {
        let r = LaneEscape {
            max_iterations,
            steps: 0,
            active: [true, true, true, true],
            counts: [0, 0, 0, 0],
            finished: max_iterations == 0,
            seen: Ghost(Seq::empty()),
        };
        proof {
            assert(r.active@ =~= lane_state(r.seen@, 0).active);
            if max_iterations == 0 {
                lemma_lane_end_at(r.seen@, 0, 0, 0);
            }
        }
        r
    }

    /// Takes the tests of the four current orbit points (`true`: still within
    /// radius 2). Returns whether the orbits must advance and be tested again.
    pub fn observe(&mut self, within: [bool; 4]) -> (go_on: bool)
        requires
            old(self).wf(),
            !old(self).finished,
        ensures
            final(self).wf(),
            final(self).max_iterations == old(self).max_iterations,
            final(self).seen@ == old(self).seen@.push(within@),
            go_on == !final(self).finished,
    {
        let ghost prev = self.seen@;
        let ghost st = lane_state(prev, self.steps as nat);
        let ghost rows = prev.push(within@);
        let a0 = self.active[0] && within[0];
        let a1 = self.active[1] && within[1];
        let a2 = self.active[2] && within[2];
        let a3 = self.active[3] && within[3];
        self.seen = Ghost(rows);
        proof {
            lemma_lane_frame(prev, within@, self.steps as nat);
            let m = masked(rows, self.steps as nat, st.active);
            assert forall|l: int| 0 <= l < LANES implies passes(lane_column(rows, l), self.steps as nat)
                == within@[l] by {
                assert(rows[self.steps as int] == within@);
            }
            assert(m =~= seq![a0, a1, a2, a3]);
            assert forall|k: nat| k < self.steps implies !#[trigger] lane_stops(rows, k) by {
                lemma_lane_frame(prev, within@, k);
            }
        }
        if !a0 && !a1 && !a2 && !a3 {
            self.finished = true;
            proof {
                lemma_lane_end_at(rows, self.max_iterations as nat, 0, self.steps as nat);
            }
            return false;
        }
        self.active = [a0, a1, a2, a3];
        self.counts = [
            if a0 { self.counts[0] + 1 } else { self.counts[0] },
            if a1 { self.counts[1] + 1 } else { self.counts[1] },
            if a2 { self.counts[2] + 1 } else { self.counts[2] },
            if a3 { self.counts[3] + 1 } else { self.counts[3] },
        ];
        self.steps = self.steps + 1;
        proof {
            let ns = lane_state(rows, self.steps as nat);
            assert(self.active@ =~= ns.active);
            assert forall|k: nat| k < self.steps implies !#[trigger] lane_stops(rows, k) by {
                if k < self.steps - 1 {
                    lemma_lane_frame(prev, within@, k);
                }
            }
        }
        if self.steps == self.max_iterations {
            self.finished = true;
            proof {
                lemma_lane_end_at(rows, self.max_iterations as nat, 0, self.steps as nat);
            }
        }
        !self.finished
    }
}

} // verus!
