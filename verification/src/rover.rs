//! The rover state machine and the round loop.
//!
//! Every round, each live rover peeks the command at its cursor, the engine
//! computes all candidate positions, rejects every candidate that leaves the
//! level, lacks battery, contends for a cell or takes part in a direct swap
//! (rejection is iterated to a fixed point so the outcome is independent of
//! rover order), commits the survivors, lets every rover's sub-state machine
//! retire, and then hands the settled state to the evaluator.

use crate::actions::{Action, ActionType};
use crate::level::{lemma_grid_index, lemma_grid_index_injective, Pos, GRADVM, TEGVLA};
use crate::puzzle_evaluation::PuzzleResponseEvent;
use vstd::prelude::*;

verus! {

/// The facing of a rover; purely presentational, but a heading change must
/// complete (the `Turning` sub-state) before a translation begins.
#[derive(Clone, Copy, Debug, PartialEq, Eq, Structural)]
pub enum Heading {
    Up,
    Down,
    Left,
    Right,
}

/// The per-round sub-state machine of one rover. `Waiting` carries the
/// number of logical ticks left before the rover settles.
#[derive(Clone, Copy, Debug, PartialEq, Eq, Structural)]
pub enum SubState {
    Idle,
    Turning,
    Moving,
    Waiting(u8),
    Done,
}

/// Logical duration of a `Wait` command, in ticks.
pub const WAIT_ACTION_TICKS: u8 = 2;

/// Logical pause after an invalidated command, in ticks.
pub const COLLISION_PAUSE_TICKS: u8 = 2;

/// One rover: the authoritative per-agent state owned by the engine.
#[derive(Clone, Copy, Debug, PartialEq, Eq, Structural)]
pub struct RoverEntity {
    pub identifier: u8,
    pub logical_position: Pos,
    pub heading: Heading,
    /// Battery charge; always in `0 ..= 3`.
    pub battery_level: u8,
    /// Sticky: set when a command of this rover is invalidated.
    pub collided: bool,
    /// Sticky: set when this rover's program is exhausted.
    pub is_done: bool,
}

/// The program cursor and sub-state of one rover.
#[derive(Clone, Copy, Debug, PartialEq, Eq, Structural)]
pub struct RoverActionState {
    /// Index of the next command; never decreases, never exceeds the
    /// program's length.
    pub active_action_idx: usize,
    pub sub_state: SubState,
}

/// The per-attempt execution state shared by all rovers.
pub struct ActionExecution {
    pub is_built: bool,
    pub is_evaluating: bool,
    pub action_states: Vec<RoverActionState>,
}

/// The round loop: the level, the rovers, their immutable programs, the
/// execution state, the set of claimed collectibles and the last outcome.
pub struct RoundLoop {
    pub level: GRADVM,
    pub rovers: Vec<RoverEntity>,
    /// One immutable command list per rover.
    pub programs: Vec<Vec<Action>>,
    pub execution: ActionExecution,
    /// Row-major per-cell flag: the collectible of this finish tile has been
    /// claimed.
    pub claimed: Vec<bool>,
    pub outcome: PuzzleResponseEvent,
}

/// Where a command of type `a` sends a rover standing at `p`.
pub open spec fn spec_destination(a: ActionType, p: Pos) -> Pos {
    match a {
        ActionType::MoveUp => Pos { x: p.x, y: (p.y + 1) as i8 },
        ActionType::MoveDown => Pos { x: p.x, y: (p.y - 1) as i8 },
        ActionType::MoveLeft => Pos { x: (p.x - 1) as i8, y: p.y },
        ActionType::MoveRight => Pos { x: (p.x + 1) as i8, y: p.y },
        ActionType::Wait => p,
    }
}

/// The heading a command of type `a` turns a rover with heading `h` to.
pub open spec fn spec_heading_of(a: ActionType, h: Heading) -> Heading {
    match a {
        ActionType::MoveUp => Heading::Up,
        ActionType::MoveDown => Heading::Down,
        ActionType::MoveLeft => Heading::Left,
        ActionType::MoveRight => Heading::Right,
        ActionType::Wait => h,
    }
}

/// Number of `true` entries of a boolean sequence.
pub open spec fn count_true(s: Seq<bool>) -> int
    decreases s.len(),
{
    if s.len() == 0 {
        0
    } else {
        count_true(s.drop_last()) + if s.last() {
            1int
        } else {
            0int
        }
    }
}

impl RoundLoop {
    /// Number of rovers.
    pub open spec fn n(&self) -> int {
        self.rovers@.len() as int
    }

    /// The program of rover `i`.
    pub open spec fn program(&self, i: int) -> Seq<Action> {
        self.programs@[i]@
    }

    /// The program cursor of rover `i`.
    pub open spec fn cursor(&self, i: int) -> int {
        self.execution.action_states@[i].active_action_idx as int
    }

    /// Does rover `i` issue a command this round? Done and collided rovers
    /// issue nothing, and neither does a rover whose program is exhausted.
    pub open spec fn issuing(&self, i: int) -> bool {
        &&& !self.rovers@[i].is_done
        &&& !self.rovers@[i].collided
        &&& self.cursor(i) < self.program(i).len()
    }

    /// Is rover `i` found exhausted at round start (and so marked done)?
    pub open spec fn newly_done(&self, i: int) -> bool {
        &&& !self.rovers@[i].is_done
        &&& !self.rovers@[i].collided
        &&& self.cursor(i) == self.program(i).len()
    }

    /// The command rover `i` issues this round.
    pub open spec fn round_action(&self, i: int) -> ActionType {
        self.program(i)[self.cursor(i)].moves.0
    }

    /// The candidate position of rover `i`: where its command sends it, or
    /// its current cell if it issues no command.
    pub open spec fn cand_pos(&self, i: int) -> Pos {
        if self.issuing(i) {
            spec_destination(self.round_action(i), self.rovers@[i].logical_position)
        } else {
            self.rovers@[i].logical_position
        }
    }

    /// The candidate heading of rover `i`.
    pub open spec fn cand_heading(&self, i: int) -> Heading {
        if self.issuing(i) {
            spec_heading_of(self.round_action(i), self.rovers@[i].heading)
        } else {
            self.rovers@[i].heading
        }
    }

    /// Is rover `i`'s candidate individually acceptable: it issues a command,
    /// the candidate cell carries a tile, and a translation has battery?
    pub open spec fn indiv_ok(&self, i: int) -> bool {
        &&& self.issuing(i)
        &&& self.level.spec_tile(self.cand_pos(i).x as int, self.cand_pos(i).y as int) is Some
        &&& (self.round_action(i) is Wait || self.rovers@[i].battery_level > 0)
    }

    /// Initial validity: individually acceptable candidates.
    pub open spec fn init_valid(&self) -> Seq<bool> {
        Seq::new(self.rovers@.len(), |i: int| self.indiv_ok(i))
    }

    /// The cell rover `j` ends the round on under validity flags `valid`.
    pub open spec fn target_pos(&self, valid: Seq<bool>, j: int) -> Pos {
        if valid[j] {
            self.cand_pos(j)
        } else {
            self.rovers@[j].logical_position
        }
    }

    /// Does rover `j` give rover `i` a reason to be rejected, under validity
    /// flags `valid`: `j` ends on `i`'s candidate cell, or the two perform a
    /// direct swap?
    pub open spec fn conflict_with(&self, valid: Seq<bool>, i: int, j: int) -> bool {
        &&& 0 <= j < self.n()
        &&& j != i
        &&& {
            ||| self.target_pos(valid, j) == self.cand_pos(i)
            ||| (valid[j] && self.cand_pos(j) == self.rovers@[i].logical_position
                && self.cand_pos(i) == self.rovers@[j].logical_position)
        }
    }

    /// Does any rover give rover `i` a reason to be rejected?
    pub open spec fn has_conflict(&self, valid: Seq<bool>, i: int) -> bool {
        exists|j: int| self.conflict_with(valid, i, j)
    }

    /// One rejection pass: clear every flag whose rover has a conflict.
    pub open spec fn reject_pass(&self, valid: Seq<bool>) -> Seq<bool> {
        Seq::new(self.rovers@.len(), |i: int| valid[i] && !self.has_conflict(valid, i))
    }

    /// Iterate rejection passes to a fixed point, with enough fuel.
    pub open spec fn fix_valid(&self, valid: Seq<bool>, fuel: nat) -> Seq<bool>
        decreases fuel,
    {
        if fuel == 0 {
            valid
        } else {
            let next = self.reject_pass(valid);
            if next == valid {
                valid
            } else {
                self.fix_valid(next, (fuel - 1) as nat)
            }
        }
    }

    /// The round's final validity flags: which issued commands commit.
    pub open spec fn round_valid(&self) -> Seq<bool> {
        self.fix_valid(self.init_valid(), self.rovers@.len())
    }

    /// Per-rover well-formedness.
    pub open spec fn rover_ok(&self, i: int) -> bool {
        let r = self.rovers@[i];
        &&& r.identifier as int == i
        &&& r.battery_level <= 3
        &&& self.level.spec_tile(r.logical_position.x as int, r.logical_position.y as int)
            is Some
        &&& self.cursor(i) <= self.program(i).len()
        &&& (r.is_done ==> self.cursor(i) == self.program(i).len())
    }

    /// No two rovers share a cell.
    pub open spec fn positions_distinct(&self) -> bool {
        forall|i: int, j: int|
            0 <= i < self.n() && 0 <= j < self.n() && i != j ==> (
            #[trigger] self.rovers@[i]).logical_position != (
            #[trigger] self.rovers@[j]).logical_position
    }

    /// Well-formedness of the whole round loop.
    pub open spec fn wf(&self) -> bool {
        &&& self.level.wf()
        &&& self.execution.action_states@.len() == self.rovers@.len()
        &&& self.programs@.len() == self.rovers@.len()
        &&& self.claimed@.len() == self.level.TEGLVAE@.len()
        &&& self.rovers@.len() <= 256
        &&& forall|i: int| 0 <= i < self.n() ==> #[trigger] self.rover_ok(i)
        &&& self.positions_distinct()
    }
}

/// `count_true` is bounded by the sequence length.
pub proof fn lemma_count_true_le(s: Seq<bool>)
    ensures
        0 <= count_true(s) <= s.len(),
    decreases s.len(),
{
    if s.len() > 0 {
        lemma_count_true_le(s.drop_last());
    }
}

/// A pointwise-smaller flag sequence has no larger count.
pub proof fn lemma_count_true_pointwise(a: Seq<bool>, b: Seq<bool>)
    requires
        a.len() == b.len(),
        forall|i: int| 0 <= i < a.len() && #[trigger] b[i] ==> a[i],
    ensures
        count_true(b) <= count_true(a),
    decreases a.len(),
{
    if a.len() > 0 {
        lemma_count_true_pointwise(a.drop_last(), b.drop_last());
    }
}

/// A pointwise-smaller flag sequence with one witness flag cleared has a
/// strictly smaller count.
pub proof fn lemma_count_true_strict(a: Seq<bool>, b: Seq<bool>, w: int)
    requires
        a.len() == b.len(),
        forall|i: int| 0 <= i < a.len() && #[trigger] b[i] ==> a[i],
        0 <= w < a.len(),
        a[w],
        !b[w],
    ensures
        count_true(b) < count_true(a),
    decreases a.len(),
{
    if w == a.len() - 1 {
        lemma_count_true_pointwise(a.drop_last(), b.drop_last());
    } else {
        lemma_count_true_strict(a.drop_last(), b.drop_last(), w);
    }
}

/// A flag sequence with no positive count has no set flag.
pub proof fn lemma_count_zero_all_false(s: Seq<bool>)
    requires
        count_true(s) <= 0,
    ensures
        forall|i: int| 0 <= i < s.len() ==> !s[i],
    decreases s.len(),
{
    if s.len() > 0 {
        lemma_count_true_le(s.drop_last());
        lemma_count_zero_all_false(s.drop_last());
        assert forall|i: int| 0 <= i < s.len() implies !s[i] by {
            if i < s.len() - 1 {
                assert(s.drop_last()[i] == s[i]);
            }
        }
    }
}

impl RoundLoop {
    /// Rejection passes only clear flags.
    pub proof fn lemma_fix_implies(&self, valid: Seq<bool>, fuel: nat)
        requires
            valid.len() == self.n(),
        ensures
            self.fix_valid(valid, fuel).len() == valid.len(),
            forall|i: int|
                0 <= i < valid.len() && #[trigger] self.fix_valid(valid, fuel)[i] ==> valid[i],
        decreases fuel,
    {
        if fuel > 0 {
            let next = self.reject_pass(valid);
            if next != valid {
                self.lemma_fix_implies(next, (fuel - 1) as nat);
            }
        }
    }

    /// With fuel at least the number of set flags, the iteration reaches a
    /// fixed point of the rejection pass.
    pub proof fn lemma_fix_fixpoint(&self, valid: Seq<bool>, fuel: nat)
        requires
            valid.len() == self.n(),
            count_true(valid) <= fuel,
        ensures
            self.fix_valid(valid, fuel).len() == self.n(),
            self.reject_pass(self.fix_valid(valid, fuel)) == self.fix_valid(valid, fuel),
        decreases fuel,
    {
        let next = self.reject_pass(valid);
        if fuel == 0 {
            lemma_count_zero_all_false(valid);
            assert(next =~= valid);
        } else {
            if next == valid {
            } else {
                assert(forall|i: int| 0 <= i < valid.len() && #[trigger] next[i] ==> valid[i]);
                let w = choose|w: int| 0 <= w < valid.len() && next[w] != valid[w];
                assert(exists|w: int| 0 <= w < valid.len() && next[w] != valid[w]) by {
                    if forall|i: int| 0 <= i < valid.len() ==> #[trigger] next[i] == valid[i] {
                        assert(next =~= valid);
                    }
                }
                assert(valid[w] && !next[w]);
                lemma_count_true_strict(valid, next, w);
                self.lemma_fix_fixpoint(next, (fuel - 1) as nat);
            }
        }
    }

    /// The round's validity flags are sound: a surviving flag marks an
    /// individually acceptable candidate with no remaining conflict.
    pub proof fn lemma_round_valid_props(&self)
        requires
            self.wf(),
        ensures
            self.round_valid().len() == self.n(),
            forall|i: int|
                0 <= i < self.n() && #[trigger] self.round_valid()[i] ==> self.indiv_ok(i),
            forall|i: int|
                0 <= i < self.n() && #[trigger] self.round_valid()[i] ==> !self.has_conflict(
                    self.round_valid(),
                    i,
                ),
    {
        let init = self.init_valid();
        let rv = self.round_valid();
        lemma_count_true_le(init);
        self.lemma_fix_implies(init, self.rovers@.len());
        self.lemma_fix_fixpoint(init, self.rovers@.len());
        assert forall|i: int| 0 <= i < self.n() && #[trigger] rv[i] implies !self.has_conflict(
            rv,
            i,
        ) by {
            assert(self.reject_pass(rv)[i] == (rv[i] && !self.has_conflict(rv, i)));
        }
    }
}

impl RoundLoop {
    /// The candidate position of rover `i`.
    fn candidate_of(&self, i: usize) -> (p: Pos)
        requires
            self.wf(),
            i < self.rovers@.len(),
        ensures
            p == self.cand_pos(i as int),
    {
        let r = self.rovers[i];
        let s = self.execution.action_states[i];
        if !r.is_done && !r.collided && s.active_action_idx < self.programs[i].len() {
            let a = self.programs[i][s.active_action_idx].moves.0;
            let p = r.logical_position;
            proof {
                assert(self.rover_ok(i as int));
            }
            match a {
                ActionType::MoveUp => Pos { x: p.x, y: p.y + 1 },
                ActionType::MoveDown => Pos { x: p.x, y: p.y - 1 },
                ActionType::MoveLeft => Pos { x: p.x - 1, y: p.y },
                ActionType::MoveRight => Pos { x: p.x + 1, y: p.y },
                ActionType::Wait => p,
            }
        } else {
            r.logical_position
        }
    }

    /// Does any rover give rover `i` a reason to be rejected, under the
    /// given candidate cells and validity flags?
    fn conflict_exec(&self, i: usize, cand: &Vec<Pos>, valid: &Vec<bool>) -> (r: bool)
        requires
            self.wf(),
            i < self.rovers@.len(),
            cand@.len() == self.rovers@.len(),
            valid@.len() == self.rovers@.len(),
            forall|k: int| 0 <= k < cand@.len() ==> #[trigger] cand@[k] == self.cand_pos(k),
        ensures
            r == self.has_conflict(valid@, i as int),
    {
        let n = self.rovers.len();
        let mut j: usize = 0;
        while j < n
            invariant
                self.wf(),
                i < n,
                n == self.rovers@.len(),
                cand@.len() == n,
                valid@.len() == n,
                forall|k: int| 0 <= k < n ==> #[trigger] cand@[k] == self.cand_pos(k),
                j <= n,
                forall|k: int| 0 <= k < j ==> !self.conflict_with(valid@, i as int, k),
            decreases n - j,
        {
            if j != i {
                let tj = if valid[j] {
                    cand[j]
                } else {
                    self.rovers[j].logical_position
                };
                if tj == cand[i] {
                    assert(self.conflict_with(valid@, i as int, j as int));
                    return true;
                }
                if valid[j] && cand[j] == self.rovers[i].logical_position && cand[i]
                    == self.rovers[j].logical_position {
                    assert(self.conflict_with(valid@, i as int, j as int));
                    return true;
                }
            }
            assert(!self.conflict_with(valid@, i as int, j as int));
            j = j + 1;
        }
        proof {
            if self.has_conflict(valid@, i as int) {
                let w = choose|w: int| self.conflict_with(valid@, i as int, w);
                assert(!self.conflict_with(valid@, i as int, w));
            }
        }
        false
    }

    /// Compute which of this round's candidates commit: start from the
    /// individually acceptable ones and iterate rejection passes until no
    /// conflict remains.
    fn compute_valid(&self, cand: &Vec<Pos>) -> (valid: Vec<bool>)
        requires
            self.wf(),
            cand@.len() == self.rovers@.len(),
            forall|k: int| 0 <= k < cand@.len() ==> #[trigger] cand@[k] == self.cand_pos(k),
        ensures
            valid@ == self.round_valid(),
    {
        let n = self.rovers.len();
        let mut valid: Vec<bool> = Vec::new();
        let mut i: usize = 0;
        while i < n
            invariant
                self.wf(),
                n == self.rovers@.len(),
                cand@.len() == n,
                forall|k: int| 0 <= k < n ==> #[trigger] cand@[k] == self.cand_pos(k),
                i <= n,
                valid@.len() == i,
                forall|k: int| 0 <= k < i ==> #[trigger] valid@[k] == self.indiv_ok(k),
            decreases n - i,
        {
            let r = self.rovers[i];
            let s = self.execution.action_states[i];
            let issuing = !r.is_done && !r.collided && s.active_action_idx
                < self.programs[i].len();
            let ok = if issuing {
                let a = self.programs[i][s.active_action_idx].moves.0;
                let c = cand[i];
                let has_tile = self.level.tile_at(c.x, c.y).is_some();
                let powered = match a {
                    ActionType::Wait => true,
                    _ => r.battery_level > 0,
                };
                has_tile && powered
            } else {
                false
            };
            valid.push(ok);
            i = i + 1;
        }
        proof {
            assert(valid@ =~= self.init_valid());
            lemma_count_true_le(valid@);
        }
        let ghost mut fuel: int = n as int;
        let mut stable = false;
        while !stable
            invariant
                self.wf(),
                n == self.rovers@.len(),
                cand@.len() == n,
                forall|k: int| 0 <= k < n ==> #[trigger] cand@[k] == self.cand_pos(k),
                valid@.len() == n,
                0 <= fuel,
                count_true(valid@) <= fuel,
                self.round_valid() == self.fix_valid(valid@, fuel as nat),
                stable ==> valid@ == self.round_valid(),
            decreases (if stable { 0int } else { fuel + 1 }),
        {
            let mut next: Vec<bool> = Vec::new();
            let mut changed = false;
            let mut i: usize = 0;
            while i < n
                invariant
                    self.wf(),
                    n == self.rovers@.len(),
                    cand@.len() == n,
                    forall|k: int| 0 <= k < n ==> #[trigger] cand@[k] == self.cand_pos(k),
                    valid@.len() == n,
                    i <= n,
                    next@.len() == i,
                    forall|k: int|
                        0 <= k < i ==> #[trigger] next@[k] == (valid@[k] && !self.has_conflict(
                            valid@,
                            k,
                        )),
                    changed == exists|k: int| 0 <= k < i && #[trigger] valid@[k] != next@[k],
                decreases n - i,
            {
                let keep = if valid[i] {
                    !self.conflict_exec(i, cand, &valid)
                } else {
                    false
                };
                if valid[i] != keep {
                    changed = true;
                }
                next.push(keep);
                i = i + 1;
            }
            proof {
                assert(next@ =~= self.reject_pass(valid@));
            }
            if changed {
                proof {
                    let w = choose|k: int| 0 <= k < n && valid@[k] != next@[k];
                    assert(valid@[w] && !next@[w]);
                    assert(next@ != valid@) by {
                        assert(next@[w] != valid@[w]);
                    }
                    lemma_count_true_strict(valid@, next@, w);
                    if count_true(valid@) <= 0 {
                        lemma_count_zero_all_false(valid@);
                    }
                    assert(fuel >= 1);
                    assert(self.fix_valid(valid@, fuel as nat) == self.fix_valid(
                        next@,
                        (fuel - 1) as nat,
                    ));
                }
                valid = next;
                proof {
                    fuel = fuel - 1;
                }
            } else {
                proof {
                    assert(next@ =~= valid@);
                    assert(self.reject_pass(valid@) == valid@);
                    assert(self.fix_valid(valid@, fuel as nat) == valid@);
                }
                stable = true;
            }
        }
        valid
    }
}

impl RoundLoop {
    /// Rover `i` as the commit phase leaves it: a surviving candidate is
    /// committed, a rejected one is rolled back with its collision flag set
    /// (the candidate heading is applied either way), and a rover found
    /// exhausted is marked done.
    pub open spec fn committed_rover(&self, i: int) -> RoverEntity {
        let r = self.rovers@[i];
        if self.issuing(i) {
            let v = self.round_valid()[i];
            RoverEntity {
                logical_position: if v {
                    self.cand_pos(i)
                } else {
                    r.logical_position
                },
                heading: self.cand_heading(i),
                collided: r.collided || !v,
                ..r
            }
        } else if self.newly_done(i) {
            RoverEntity { is_done: true, ..r }
        } else {
            r
        }
    }

    /// The sub-state the commit phase leaves rover `i` in: a rejected rover
    /// pauses, a waiting rover waits, a turning mover turns before moving.
    pub open spec fn committed_sub_state(&self, i: int) -> SubState {
        if self.issuing(i) {
            if !self.round_valid()[i] {
                SubState::Waiting(COLLISION_PAUSE_TICKS)
            } else if self.round_action(i) is Wait {
                SubState::Waiting(WAIT_ACTION_TICKS)
            } else if self.cand_heading(i) != self.rovers@[i].heading {
                SubState::Turning
            } else {
                SubState::Moving
            }
        } else if self.rovers@[i].is_done || self.newly_done(i) {
            SubState::Done
        } else {
            SubState::Idle
        }
    }

    /// After the commit phase no two rovers share a cell: surviving
    /// candidates are pairwise distinct and avoid every rolled-back cell,
    /// and rolled-back cells were distinct before the round.
    pub proof fn lemma_committed_distinct(&self)
        requires
            self.wf(),
        ensures
            forall|i: int, j: int|
                0 <= i < self.n() && 0 <= j < self.n() && i != j ==> (
                #[trigger] self.committed_rover(i)).logical_position != (
                #[trigger] self.committed_rover(j)).logical_position,
    {
        self.lemma_round_valid_props();
        let rv = self.round_valid();
        assert forall|i: int, j: int|
            0 <= i < self.n() && 0 <= j < self.n() && i != j implies (
        #[trigger] self.committed_rover(i)).logical_position != (
        #[trigger] self.committed_rover(j)).logical_position by {
            let pi = self.committed_rover(i).logical_position;
            let pj = self.committed_rover(j).logical_position;
            if rv[i] {
                assert(self.issuing(i));
                assert(pi == self.cand_pos(i));
                if pi == pj {
                    assert(self.target_pos(rv, j) == self.cand_pos(i));
                    assert(self.conflict_with(rv, i, j));
                    assert(self.has_conflict(rv, i));
                }
            } else if rv[j] {
                assert(self.issuing(j));
                assert(pj == self.cand_pos(j));
                assert(pi == self.rovers@[i].logical_position);
                if pi == pj {
                    assert(self.target_pos(rv, i) == self.cand_pos(j));
                    assert(self.conflict_with(rv, j, i));
                    assert(self.has_conflict(rv, j));
                }
            } else {
                assert(pi == self.rovers@[i].logical_position);
                assert(pj == self.rovers@[j].logical_position);
            }
        }
    }

    /// The commit phase of one round: compute all candidates, reject to a
    /// fixed point, commit the survivors, roll back and flag the rest, and
    /// mark exhausted rovers done.
    pub fn start_round(&mut self)
        requires
            old(self).wf(),
        ensures
            final(self).wf(),
            final(self).level == old(self).level,
            final(self).programs == old(self).programs,
            final(self).claimed == old(self).claimed,
            final(self).outcome == old(self).outcome,
            final(self).execution.is_built == old(self).execution.is_built,
            final(self).execution.is_evaluating == old(self).execution.is_evaluating,
            final(self).rovers@.len() == old(self).rovers@.len(),
            final(self).execution.action_states@.len() == old(
                self,
            ).execution.action_states@.len(),
            forall|i: int|
                0 <= i < old(self).n() ==> #[trigger] final(self).rovers@[i] == old(
                    self,
                ).committed_rover(i),
            forall|i: int|
                0 <= i < old(self).n() ==> #[trigger] final(self).execution.action_states@[i]
                    == (RoverActionState {
                    active_action_idx: old(self).execution.action_states@[i].active_action_idx,
                    sub_state: old(self).committed_sub_state(i),
                }),
    {
        let ghost orig = *self;
        let n = self.rovers.len();
        let mut cand: Vec<Pos> = Vec::new();
        let mut i: usize = 0;
        while i < n
            invariant
                *self == orig,
                orig.wf(),
                n == orig.rovers@.len(),
                i <= n,
                cand@.len() == i,
                forall|k: int| 0 <= k < i ==> #[trigger] cand@[k] == orig.cand_pos(k),
            decreases n - i,
        {
            cand.push(self.candidate_of(i));
            i = i + 1;
        }
        let valid = self.compute_valid(&cand);
        proof {
            orig.lemma_round_valid_props();
        }
        let mut i: usize = 0;
        while i < n
            invariant
                orig.wf(),
                n == orig.rovers@.len(),
                i <= n,
                self.level == orig.level,
                self.programs == orig.programs,
                self.claimed == orig.claimed,
                self.outcome == orig.outcome,
                self.execution.is_built == orig.execution.is_built,
                self.execution.is_evaluating == orig.execution.is_evaluating,
                self.rovers@.len() == n,
                self.execution.action_states@.len() == n,
                cand@.len() == n,
                forall|k: int| 0 <= k < n ==> #[trigger] cand@[k] == orig.cand_pos(k),
                valid@ == orig.round_valid(),
                valid@.len() == n,
                forall|k: int|
                    i <= k < n ==> #[trigger] self.rovers@[k] == orig.rovers@[k],
                forall|k: int|
                    i <= k < n ==> #[trigger] self.execution.action_states@[k]
                        == orig.execution.action_states@[k],
                forall|k: int|
                    0 <= k < i ==> #[trigger] self.rovers@[k] == orig.committed_rover(k),
                forall|k: int|
                    0 <= k < i ==> #[trigger] self.execution.action_states@[k]
                        == (RoverActionState {
                        active_action_idx: orig.execution.action_states@[k].active_action_idx,
                        sub_state: orig.committed_sub_state(k),
                    }),
            decreases n - i,
        {
            let r = self.rovers[i];
            let s = self.execution.action_states[i];
            proof {
                assert(orig.rover_ok(i as int));
            }
            let issuing = !r.is_done && !r.collided && s.active_action_idx
                < self.programs[i].len();
            if issuing {
                let a = self.programs[i][s.active_action_idx].moves.0;
                let new_heading = match a {
                    ActionType::MoveUp => Heading::Up,
                    ActionType::MoveDown => Heading::Down,
                    ActionType::MoveLeft => Heading::Left,
                    ActionType::MoveRight => Heading::Right,
                    ActionType::Wait => r.heading,
                };
                if valid[i] {
                    let sub = match a {
                        ActionType::Wait => SubState::Waiting(WAIT_ACTION_TICKS),
                        _ => if new_heading != r.heading {
                            SubState::Turning
                        } else {
                            SubState::Moving
                        },
                    };
                    self.rovers.set(
                        i,
                        RoverEntity { logical_position: cand[i], heading: new_heading, ..r },
                    );
                    self.execution.action_states.set(
                        i,
                        RoverActionState {
                            active_action_idx: s.active_action_idx,
                            sub_state: sub,
                        },
                    );
                } else {
                    self.rovers.set(
                        i,
                        RoverEntity { heading: new_heading, collided: true, ..r },
                    );
                    self.execution.action_states.set(
                        i,
                        RoverActionState {
                            active_action_idx: s.active_action_idx,
                            sub_state: SubState::Waiting(COLLISION_PAUSE_TICKS),
                        },
                    );
                }
            } else if !r.is_done && !r.collided {
                self.rovers.set(i, RoverEntity { is_done: true, ..r });
                self.execution.action_states.set(
                    i,
                    RoverActionState {
                        active_action_idx: s.active_action_idx,
                        sub_state: SubState::Done,
                    },
                );
            } else if r.is_done {
                self.execution.action_states.set(
                    i,
                    RoverActionState {
                        active_action_idx: s.active_action_idx,
                        sub_state: SubState::Done,
                    },
                );
            } else {
                self.execution.action_states.set(
                    i,
                    RoverActionState {
                        active_action_idx: s.active_action_idx,
                        sub_state: SubState::Idle,
                    },
                );
            }
            i = i + 1;
        }
        proof {
            orig.lemma_committed_distinct();
            assert forall|k: int| 0 <= k < n implies #[trigger] self.rover_ok(k) by {
                assert(orig.rover_ok(k));
                assert(self.rovers@[k] == orig.committed_rover(k));
                if orig.issuing(k) && orig.round_valid()[k] {
                    assert(orig.indiv_ok(k));
                }
            }
            assert(self.wf());
        }
    }
}

/// One tick of a rover's sub-state machine: turning retires into moving,
/// moving and expired waits settle and advance the cursor by exactly one,
/// settled rovers stay put.
pub open spec fn spec_tick_state(s: RoverActionState, plen: int) -> RoverActionState {
    match s.sub_state {
        SubState::Turning => RoverActionState { sub_state: SubState::Moving, ..s },
        SubState::Moving => RoverActionState {
            active_action_idx: if (s.active_action_idx as int) < plen {
                (s.active_action_idx + 1) as usize
            } else {
                s.active_action_idx
            },
            sub_state: SubState::Idle,
        },
        SubState::Waiting(k) => if k <= 1 {
            RoverActionState {
                active_action_idx: if (s.active_action_idx as int) < plen {
                    (s.active_action_idx + 1) as usize
                } else {
                    s.active_action_idx
                },
                sub_state: SubState::Idle,
            }
        } else {
            RoverActionState { sub_state: SubState::Waiting((k - 1) as u8), ..s }
        },
        _ => s,
    }
}

/// Is this sub-state settled (the rover has retired for the round)?
pub open spec fn spec_settled_state(s: SubState) -> bool {
    s is Idle || s is Done
}

impl RoundLoop {
    /// Have all rovers settled, so that the round barrier is closed?
    pub open spec fn spec_settled(&self) -> bool {
        forall|i: int|
            0 <= i < self.n() ==> spec_settled_state(
                (#[trigger] self.execution.action_states@[i]).sub_state,
            )
    }

    /// The cursor of rover `i` once the round settles: one advance per
    /// issued command, whatever its fate.
    pub open spec fn settled_idx(&self, i: int) -> int {
        self.cursor(i) + if self.issuing(i) {
            1int
        } else {
            0int
        }
    }

    /// The sub-state of rover `i` once the round settles.
    pub open spec fn settled_sub(&self, i: int) -> SubState {
        if self.issuing(i) {
            SubState::Idle
        } else {
            self.committed_sub_state(i)
        }
    }

    /// All rovers as the commit phase leaves them.
    pub open spec fn committed_rovers(&self) -> Seq<RoverEntity> {
        Seq::new(self.rovers@.len(), |i: int| self.committed_rover(i))
    }

    /// All cursors as the settled round leaves them.
    pub open spec fn settled_idxs(&self) -> Seq<int> {
        Seq::new(self.rovers@.len(), |i: int| self.settled_idx(i))
    }

    /// All program lengths.
    pub open spec fn program_lens(&self) -> Seq<int> {
        Seq::new(self.rovers@.len(), |i: int| self.program(i).len() as int)
    }

    /// The cursors as they stand now.
    pub open spec fn cursors(&self) -> Seq<int> {
        Seq::new(self.rovers@.len(), |i: int| self.cursor(i))
    }

    /// Per rover: was the command retired last (at the current cursor) a
    /// translation, as opposed to a `Wait`?
    pub open spec fn moved_flags(&self) -> Seq<bool> {
        Seq::new(
            self.rovers@.len(),
            |i: int| self.cursor(i) > 0 && self.program(i)[self.cursor(i) - 1].moves.0.spec_is_move(),
        )
    }

    /// The `moved_flags` of the settled round, seen from before the round.
    pub open spec fn settled_moved(&self) -> Seq<bool> {
        Seq::new(
            self.rovers@.len(),
            |i: int| self.settled_idx(i) > 0 && self.program(i)[self.settled_idx(i)
                - 1].moves.0.spec_is_move(),
        )
    }

    /// Is the round barrier closed?
    pub fn round_settled(&self) -> (r: bool)
        requires
            self.wf(),
        ensures
            r == self.spec_settled(),
    {
        let n = self.execution.action_states.len();
        let mut i: usize = 0;
        while i < n
            invariant
                n == self.execution.action_states@.len(),
                n == self.rovers@.len(),
                i <= n,
                forall|k: int|
                    0 <= k < i ==> spec_settled_state(
                        (#[trigger] self.execution.action_states@[k]).sub_state,
                    ),
            decreases n - i,
        {
            match self.execution.action_states[i].sub_state {
                SubState::Idle => {},
                SubState::Done => {},
                _ => {
                    return false;
                },
            }
            i = i + 1;
        }
        true
    }

    /// Advance every unsettled rover's sub-state machine by one tick.
    pub fn tick(&mut self)
        requires
            old(self).wf(),
        ensures
            final(self).wf(),
            final(self).level == old(self).level,
            final(self).rovers == old(self).rovers,
            final(self).programs == old(self).programs,
            final(self).claimed == old(self).claimed,
            final(self).outcome == old(self).outcome,
            final(self).execution.is_built == old(self).execution.is_built,
            final(self).execution.is_evaluating == old(self).execution.is_evaluating,
            final(self).execution.action_states@.len() == old(
                self,
            ).execution.action_states@.len(),
            forall|i: int|
                0 <= i < old(self).n() ==> #[trigger] final(self).execution.action_states@[i]
                    == spec_tick_state(
                    old(self).execution.action_states@[i],
                    old(self).program(i).len() as int,
                ),
    {
        let ghost orig = *self;
        let n = self.rovers.len();
        let mut i: usize = 0;
        while i < n
            invariant
                orig.wf(),
                n == orig.rovers@.len(),
                i <= n,
                self.level == orig.level,
                self.rovers == orig.rovers,
                self.programs == orig.programs,
                self.claimed == orig.claimed,
                self.outcome == orig.outcome,
                self.execution.is_built == orig.execution.is_built,
                self.execution.is_evaluating == orig.execution.is_evaluating,
                self.execution.action_states@.len() == n,
                forall|k: int|
                    i <= k < n ==> #[trigger] self.execution.action_states@[k]
                        == orig.execution.action_states@[k],
                forall|k: int|
                    0 <= k < i ==> #[trigger] self.execution.action_states@[k]
                        == spec_tick_state(
                        orig.execution.action_states@[k],
                        orig.program(k).len() as int,
                    ),
            decreases n - i,
        {
            let s = self.execution.action_states[i];
            let plen = self.programs[i].len();
            proof {
                assert(orig.rover_ok(i as int));
            }
            let next = match s.sub_state {
                SubState::Turning => RoverActionState {
                    active_action_idx: s.active_action_idx,
                    sub_state: SubState::Moving,
                },
                SubState::Moving => RoverActionState {
                    active_action_idx: if s.active_action_idx < plen {
                        s.active_action_idx + 1
                    } else {
                        s.active_action_idx
                    },
                    sub_state: SubState::Idle,
                },
                SubState::Waiting(k) => if k <= 1 {
                    RoverActionState {
                        active_action_idx: if s.active_action_idx < plen {
                            s.active_action_idx + 1
                        } else {
                            s.active_action_idx
                        },
                        sub_state: SubState::Idle,
                    }
                } else {
                    RoverActionState {
                        active_action_idx: s.active_action_idx,
                        sub_state: SubState::Waiting(k - 1),
                    }
                },
                SubState::Idle => s,
                SubState::Done => s,
            };
            self.execution.action_states.set(i, next);
            i = i + 1;
        }
        proof {
            assert forall|k: int| 0 <= k < n implies #[trigger] self.rover_ok(k) by {
                assert(orig.rover_ok(k));
            }
        }
    }
}

impl RoundLoop {
    /// Drive one full round: commit every rover's command, tick the
    /// sub-state machines until the barrier closes, then evaluate. On a loop
    /// whose attempt is torn down or already decided, this is a no-op that
    /// returns the stored outcome.
    ///
    /// The contract pins the whole round down, and states the engine's
    /// standing guarantees besides: after every round no two rovers share a
    /// cell, every battery lies in `0 ..= 3`, and no cursor ever decreases
    /// or passes the end of its program.
    #[verifier::rlimit(50)]
    pub fn step(&mut self) -> (r: PuzzleResponseEvent)
        requires
            old(self).wf(),
        ensures
            final(self).wf(),
            r == final(self).outcome,
            final(self).level == old(self).level,
            final(self).programs == old(self).programs,
            final(self).rovers@.len() == old(self).rovers@.len(),
            final(self).execution.action_states@.len() == old(
                self,
            ).execution.action_states@.len(),
            // A decided or unbuilt loop is left untouched.
            (!(old(self).outcome is InProgress) || !old(self).execution.is_built)
                ==> (*final(self) == *old(self) && r == old(self).outcome),
            // A live round: committed rovers, evaluated batteries and flags.
            (old(self).outcome is InProgress && old(self).execution.is_built) ==> {
                &&& forall|i: int|
                    0 <= i < old(self).n() ==> #[trigger] final(self).rovers@[i]
                        == (RoverEntity {
                        battery_level: crate::puzzle_evaluation::spec_eval_battery(
                            old(self).level,
                            old(self).committed_rovers(),
                            old(self).settled_moved(),
                            i,
                        ),
                        is_done: old(self).committed_rovers()[i].is_done || old(
                            self,
                        ).settled_idx(i) == old(self).program(i).len(),
                        ..old(self).committed_rovers()[i]
                    })
                &&& forall|i: int|
                    0 <= i < old(self).n() ==> #[trigger] final(self).execution.action_states@[i]
                        == (RoverActionState {
                        active_action_idx: old(self).settled_idx(i) as usize,
                        sub_state: old(self).settled_sub(i),
                    })
                &&& forall|t: int|
                    0 <= t < old(self).claimed@.len() ==> #[trigger] final(self).claimed@[t]
                        == crate::puzzle_evaluation::spec_eval_claimed(
                        old(self).level,
                        old(self).committed_rovers(),
                        old(self).claimed@,
                        t,
                    )
                &&& r == crate::puzzle_evaluation::spec_eval_outcome(
                    old(self).level,
                    old(self).committed_rovers(),
                    old(self).settled_idxs(),
                    old(self).program_lens(),
                    old(self).claimed@,
                )
                &&& final(self).execution.is_built == (r is InProgress)
                &&& final(self).execution.is_evaluating == false
            },
            // The cursor never decreases and never exceeds the program.
            forall|i: int|
                0 <= i < old(self).n() ==> old(self).cursor(i) <= #[trigger] final(self).cursor(i)
                    <= final(self).program(i).len(),
            // No two rovers share a cell, and batteries stay in range.
            final(self).positions_distinct(),
            forall|i: int|
                0 <= i < old(self).n() ==> (#[trigger] final(self).rovers@[i]).battery_level
                    <= 3,
    {
        let still_running = matches!(self.outcome, PuzzleResponseEvent::InProgress);
        if !still_running || !self.execution.is_built {
            proof {
                assert forall|i: int| 0 <= i < self.n() implies (
                #[trigger] self.rovers@[i]).battery_level <= 3 by {
                    assert(self.rover_ok(i));
                }
                assert forall|i: int| 0 <= i < self.n() implies #[trigger] self.cursor(i)
                    <= self.program(i).len() by {
                    assert(self.rover_ok(i));
                }
            }
            return self.outcome;
        }
        let ghost orig = *self;
        self.start_round();
        self.tick();
        self.tick();
        proof {
            assert forall|i: int| 0 <= i < orig.n() implies #[trigger] self
                .execution
                .action_states@[i] == (RoverActionState {
                active_action_idx: orig.settled_idx(i) as usize,
                sub_state: orig.settled_sub(i),
            }) by {
                assert(orig.rover_ok(i));
            }
            assert(self.spec_settled());
        }
        let ghost st = *self;
        self.execution.is_evaluating = true;
        proof {
            assert forall|k: int| 0 <= k < self.n() implies #[trigger] self.rover_ok(k) by {
                assert(st.rover_ok(k));
            }
            assert forall|i: int, j: int|
                0 <= i < self.n() && 0 <= j < self.n() && i != j implies (
            #[trigger] self.rovers@[i]).logical_position != (
            #[trigger] self.rovers@[j]).logical_position by {
                assert(st.rovers@[i].logical_position != st.rovers@[j].logical_position);
            }
            assert(self.wf());
        }
        let ghost mid = *self;
        let outcome = self.evaluate();
        proof {
            assert(mid.rovers@ =~= orig.committed_rovers());
            assert forall|i: int| 0 <= i < orig.n() implies #[trigger] mid.cursors()[i]
                == orig.settled_idxs()[i] by {
                assert(orig.rover_ok(i));
                vstd::std_specs::vec::axiom_spec_len(&orig.programs@[i]);
            }
            assert(mid.cursors() =~= orig.settled_idxs());
            assert forall|i: int| 0 <= i < orig.n() implies #[trigger] mid.moved_flags()[i]
                == orig.settled_moved()[i] by {
                assert(orig.rover_ok(i));
                vstd::std_specs::vec::axiom_spec_len(&orig.programs@[i]);
                assert(mid.cursor(i) == orig.settled_idx(i));
            }
            assert(mid.moved_flags() =~= orig.settled_moved());
            assert(mid.program_lens() =~= orig.program_lens());
            assert forall|i: int| 0 <= i < orig.n() implies #[trigger] self.rovers@[i]
                == (RoverEntity {
                battery_level: crate::puzzle_evaluation::spec_eval_battery(
                    orig.level,
                    orig.committed_rovers(),
                    orig.settled_moved(),
                    i,
                ),
                is_done: orig.committed_rovers()[i].is_done || orig.settled_idx(i)
                    == orig.program(i).len(),
                ..orig.committed_rovers()[i]
            }) by {
                assert(crate::puzzle_evaluation::spec_eval_battery(
                    mid.level,
                    mid.rovers@,
                    mid.moved_flags(),
                    i,
                ) == crate::puzzle_evaluation::spec_eval_battery(
                    orig.level,
                    orig.committed_rovers(),
                    orig.settled_moved(),
                    i,
                ));
                assert(mid.cursor(i) == mid.cursors()[i]);
                assert(orig.settled_idxs()[i] == orig.settled_idx(i));
                assert(mid.program(i) == orig.program(i));
            }
            assert forall|t: int| 0 <= t < orig.claimed@.len() implies #[trigger] self.claimed@[t]
                == crate::puzzle_evaluation::spec_eval_claimed(
                orig.level,
                orig.committed_rovers(),
                orig.claimed@,
                t,
            ) by {
                assert(mid.claimed@ == orig.claimed@);
                assert(self.claimed@[t] == crate::puzzle_evaluation::spec_eval_claimed(
                    mid.level,
                    mid.rovers@,
                    mid.claimed@,
                    t,
                ));
            }
            assert(outcome == crate::puzzle_evaluation::spec_eval_outcome(
                orig.level,
                orig.committed_rovers(),
                orig.settled_idxs(),
                orig.program_lens(),
                orig.claimed@,
            ));
            assert forall|i: int| 0 <= i < orig.n() implies #[trigger] self
                .execution
                .action_states@[i] == (RoverActionState {
                active_action_idx: orig.settled_idx(i) as usize,
                sub_state: orig.settled_sub(i),
            }) by {
                assert(self.execution.action_states == mid.execution.action_states);
            }
            assert forall|i: int| 0 <= i < orig.n() implies old(self).cursor(i)
                <= #[trigger] self.cursor(i) <= self.program(i).len() by {
                assert(orig.rover_ok(i));
                assert(self.execution.action_states == mid.execution.action_states);
                assert(self.cursor(i) == mid.cursors()[i]);
                assert(mid.cursors()[i] == orig.settled_idxs()[i]);
            }
            assert forall|i: int| 0 <= i < orig.n() implies (
            #[trigger] self.rovers@[i]).battery_level <= 3 by {
                assert(self.rover_ok(i));
            }
        }
        outcome
    }

    /// Cancel a run mid-flight: the transient round state (the evaluating
    /// flag and every rover's sub-state machine) is dropped, no partial
    /// round survives, and the cursors are left untouched, so that stepping
    /// again resumes the attempt cleanly.
    pub fn abort(&mut self)
        requires
            old(self).wf(),
        ensures
            final(self).wf(),
            final(self).level == old(self).level,
            final(self).rovers == old(self).rovers,
            final(self).programs == old(self).programs,
            final(self).claimed == old(self).claimed,
            final(self).outcome == old(self).outcome,
            final(self).execution.is_built == old(self).execution.is_built,
            !final(self).execution.is_evaluating,
            final(self).execution.action_states@.len() == old(
                self,
            ).execution.action_states@.len(),
            forall|i: int|
                0 <= i < old(self).n() ==> #[trigger] final(self).execution.action_states@[i]
                    == (RoverActionState {
                    active_action_idx: old(self).execution.action_states@[i].active_action_idx,
                    sub_state: SubState::Idle,
                }),
    {
        let ghost orig = *self;
        self.execution.is_evaluating = false;
        let n = self.execution.action_states.len();
        let mut i: usize = 0;
        while i < n
            invariant
                orig.wf(),
                n == orig.execution.action_states@.len(),
                i <= n,
                self.level == orig.level,
                self.rovers == orig.rovers,
                self.programs == orig.programs,
                self.claimed == orig.claimed,
                self.outcome == orig.outcome,
                self.execution.is_built == orig.execution.is_built,
                !self.execution.is_evaluating,
                self.execution.action_states@.len() == n,
                forall|k: int|
                    i <= k < n ==> #[trigger] self.execution.action_states@[k]
                        == orig.execution.action_states@[k],
                forall|k: int|
                    0 <= k < i ==> #[trigger] self.execution.action_states@[k]
                        == (RoverActionState {
                        active_action_idx: orig.execution.action_states@[k].active_action_idx,
                        sub_state: SubState::Idle,
                    }),
            decreases n - i,
        {
            let s = self.execution.action_states[i];
            self.execution.action_states.set(
                i,
                RoverActionState {
                    active_action_idx: s.active_action_idx,
                    sub_state: SubState::Idle,
                },
            );
            i = i + 1;
        }
        proof {
            assert forall|k: int| 0 <= k < orig.n() implies #[trigger] self.rover_ok(k) by {
                assert(orig.rover_ok(k));
            }
        }
    }

    /// Arm a fresh attempt with a new set of programs. Re-entry while an
    /// attempt is already built is rejected and leaves the loop untouched;
    /// otherwise the programs are installed (a missing list is an empty
    /// program), every cursor returns to the start, the sticky collision and
    /// done flags are cleared, and the attempt is marked built and in
    /// progress.
    pub fn start_execution(&mut self, programs: Vec<Vec<Action>>) -> (accepted: bool)
        requires
            old(self).wf(),
        ensures
            final(self).wf(),
            accepted == !old(self).execution.is_built,
            !accepted ==> *final(self) == *old(self),
            accepted ==> {
                &&& final(self).level == old(self).level
                &&& final(self).claimed == old(self).claimed
                &&& final(self).outcome is InProgress
                &&& final(self).execution.is_built
                &&& !final(self).execution.is_evaluating
                &&& final(self).rovers@.len() == old(self).rovers@.len()
                &&& forall|i: int|
                    0 <= i < old(self).n() ==> #[trigger] final(self).rovers@[i]
                        == (RoverEntity {
                        collided: false,
                        is_done: false,
                        ..old(self).rovers@[i]
                    })
                &&& final(self).programs@.len() == old(self).rovers@.len()
                &&& forall|i: int|
                    0 <= i < old(self).n() ==> #[trigger] final(self).program(i) == (if i
                        < programs@.len() {
                        programs@[i]@
                    } else {
                        Seq::<Action>::empty()
                    })
                &&& forall|i: int|
                    0 <= i < old(self).n() ==> #[trigger] final(self).execution.action_states@[i]
                        == (RoverActionState { active_action_idx: 0, sub_state: SubState::Idle })
            },
    {
        if self.execution.is_built {
            return false;
        }
        let ghost orig = *self;
        let n = self.rovers.len();
        let mut new_programs: Vec<Vec<Action>> = Vec::new();
        let mut new_states: Vec<RoverActionState> = Vec::new();
        let mut i: usize = 0;
        while i < n
            invariant
                orig.wf(),
                n == orig.rovers@.len(),
                i <= n,
                *self == orig,
                new_programs@.len() == i,
                new_states@.len() == i,
                forall|k: int|
                    0 <= k < i ==> (#[trigger] new_programs@[k])@ == (if k < programs@.len() {
                        programs@[k]@
                    } else {
                        Seq::<Action>::empty()
                    }),
                forall|k: int|
                    0 <= k < i ==> #[trigger] new_states@[k] == (RoverActionState {
                        active_action_idx: 0,
                        sub_state: SubState::Idle,
                    }),
            decreases n - i,
        {
            let mut list: Vec<Action> = Vec::new();
            if i < programs.len() {
                let m = programs[i].len();
                let mut j: usize = 0;
                while j < m
                    invariant
                        i < programs@.len(),
                        m == programs@[i as int]@.len(),
                        j <= m,
                        list@.len() == j,
                        forall|u: int|
                            0 <= u < j ==> #[trigger] list@[u] == programs@[i as int]@[u],
                    decreases m - j,
                {
                    list.push(programs[i][j]);
                    j = j + 1;
                }
                proof {
                    assert(list@ =~= programs@[i as int]@);
                }
            }
            new_programs.push(list);
            new_states.push(RoverActionState { active_action_idx: 0, sub_state: SubState::Idle });
            i = i + 1;
        }
        self.programs = new_programs;
        self.execution.action_states = new_states;
        let mut i: usize = 0;
        while i < n
            invariant
                orig.wf(),
                n == orig.rovers@.len(),
                i <= n,
                self.level == orig.level,
                self.claimed == orig.claimed,
                self.outcome == orig.outcome,
                self.execution.is_built == orig.execution.is_built,
                self.execution.is_evaluating == orig.execution.is_evaluating,
                self.rovers@.len() == n,
                forall|k: int|
                    i <= k < n ==> #[trigger] self.rovers@[k] == orig.rovers@[k],
                forall|k: int|
                    0 <= k < i ==> #[trigger] self.rovers@[k] == (RoverEntity {
                        collided: false,
                        is_done: false,
                        ..orig.rovers@[k]
                    }),
                self.programs@.len() == n,
                forall|k: int|
                    0 <= k < n ==> (#[trigger] self.programs@[k])@ == (if k < programs@.len() {
                        programs@[k]@
                    } else {
                        Seq::<Action>::empty()
                    }),
                self.execution.action_states@.len() == n,
                forall|k: int|
                    0 <= k < n ==> #[trigger] self.execution.action_states@[k]
                        == (RoverActionState { active_action_idx: 0, sub_state: SubState::Idle }),
            decreases n - i,
        {
            let r = self.rovers[i];
            self.rovers.set(i, RoverEntity { collided: false, is_done: false, ..r });
            i = i + 1;
        }
        self.execution.is_built = true;
        self.execution.is_evaluating = false;
        self.outcome = PuzzleResponseEvent::InProgress;
        proof {
            assert forall|k: int| 0 <= k < orig.n() implies #[trigger] self.rover_ok(k) by {
                assert(orig.rover_ok(k));
            }
        }
        true
    }
}

/// Does this cell carry a start tile?
pub open spec fn spec_is_start(t: Option<TEGVLA>) -> bool {
    t matches Some(tg) && tg.TYPVS is INITIVM
}

/// Number of start tiles in a cell sequence.
pub open spec fn spec_count_start(s: Seq<Option<TEGVLA>>) -> int
    decreases s.len(),
{
    if s.len() == 0 {
        0
    } else {
        spec_count_start(s.drop_last()) + if spec_is_start(s.last()) {
            1int
        } else {
            0int
        }
    }
}

/// The start-tile count is bounded by the cell count.
pub proof fn lemma_count_start_bounds(s: Seq<Option<TEGVLA>>)
    ensures
        0 <= spec_count_start(s) <= s.len(),
    decreases s.len(),
{
    if s.len() > 0 {
        lemma_count_start_bounds(s.drop_last());
    }
}

/// Extending a prefix by one cell adds that cell's start flag to the count.
pub proof fn lemma_count_start_take_step(s: Seq<Option<TEGVLA>>, c: int)
    requires
        0 <= c < s.len(),
    ensures
        spec_count_start(s.take(c + 1)) == spec_count_start(s.take(c)) + if spec_is_start(
            s[c],
        ) {
            1int
        } else {
            0int
        },
{
    assert(s.take(c + 1).drop_last() =~= s.take(c));
    assert(s.take(c + 1).last() == s[c]);
}

/// A prefix never holds more start tiles than the whole sequence.
pub proof fn lemma_count_start_take_le(s: Seq<Option<TEGVLA>>, c: int)
    requires
        0 <= c <= s.len(),
    ensures
        spec_count_start(s.take(c)) <= spec_count_start(s),
    decreases s.len() - c,
{
    if c == s.len() {
        assert(s.take(c) =~= s);
    } else {
        lemma_count_start_take_step(s, c);
        lemma_count_start_take_le(s, c + 1);
    }
}

/// Spawn one rover per start tile, scanning the grid row-major: battery
/// full, facing up, identifiers in scan order.
#[verifier::rlimit(100)]
fn spawn_rovers(level: &GRADVM) -> (rovers: Vec<RoverEntity>)
    requires
        level.wf(),
        spec_count_start(level.TEGLVAE@) <= 256,
    ensures
        rovers@.len() == spec_count_start(level.TEGLVAE@),
        forall|k: int|
            0 <= k < rovers@.len() ==> {
                let r = #[trigger] rovers@[k];
                &&& r.identifier as int == k
                &&& r.battery_level == 3
                &&& r.heading is Up
                &&& !r.collided
                &&& !r.is_done
                &&& level.spec_in_bounds(
                    r.logical_position.x as int,
                    r.logical_position.y as int,
                )
                &&& spec_is_start(
                    level.spec_tile(r.logical_position.x as int, r.logical_position.y as int),
                )
            },
        forall|k1: int, k2: int|
            0 <= k1 < k2 < rovers@.len() ==> level.spec_index_of(
                (#[trigger] rovers@[k1]).logical_position.x as int,
                rovers@[k1].logical_position.y as int,
            ) < level.spec_index_of(
                (#[trigger] rovers@[k2]).logical_position.x as int,
                rovers@[k2].logical_position.y as int,
            ),
        forall|c: int|
            0 <= c < level.TEGLVAE@.len() && spec_is_start(#[trigger] level.TEGLVAE@[c])
                ==> exists|k: int|
                0 <= k < rovers@.len() && level.spec_index_of(
                    (#[trigger] rovers@[k]).logical_position.x as int,
                    rovers@[k].logical_position.y as int,
                ) == c,
{
        let w: usize = level.LATIVIDO as usize;
        let h: usize = level.ALTIVIDO as usize;
        let total: usize = level.TEGLVAE.len();
        let ghost cells = level.TEGLVAE@;
        let mut rovers: Vec<RoverEntity> = Vec::new();
        let mut cell: usize = 0;
        let mut x: usize = 0;
        let mut y: usize = 0;
        proof {
            if total > 0 {
                assert(w > 0) by (nonlinear_arith)
                    requires
                        total == w * h,
                        total > 0,
                        0 <= w,
                        0 <= h,
                ;
            }
        }
        while cell < total
            invariant
                level.wf(),
                spec_count_start(cells) <= 256,
                cells == level.TEGLVAE@,
                w == level.LATIVIDO as int,
                h == level.ALTIVIDO as int,
                total == cells.len(),
                total == w * h,
                cell <= total,
                cell == y * w + x,
                cell < total ==> x < w,
                rovers@.len() == spec_count_start(cells.take(cell as int)),
                forall|k: int|
                    0 <= k < rovers@.len() ==> {
                        let r = #[trigger] rovers@[k];
                        &&& r.identifier as int == k
                        &&& r.battery_level == 3
                        &&& r.heading is Up
                        &&& !r.collided
                        &&& !r.is_done
                        &&& level.spec_in_bounds(
                            r.logical_position.x as int,
                            r.logical_position.y as int,
                        )
                        &&& spec_is_start(
                            level.spec_tile(
                                r.logical_position.x as int,
                                r.logical_position.y as int,
                            ),
                        )
                        &&& level.spec_index_of(
                            r.logical_position.x as int,
                            r.logical_position.y as int,
                        ) < cell as int
                    },
                forall|k1: int, k2: int|
                    0 <= k1 < k2 < rovers@.len() ==> level.spec_index_of(
                        (#[trigger] rovers@[k1]).logical_position.x as int,
                        rovers@[k1].logical_position.y as int,
                    ) < level.spec_index_of(
                        (#[trigger] rovers@[k2]).logical_position.x as int,
                        rovers@[k2].logical_position.y as int,
                    ),
                forall|c: int|
                    0 <= c < cell && spec_is_start(#[trigger] cells[c]) ==> exists|k: int|
                        0 <= k < rovers@.len() && level.spec_index_of(
                            (#[trigger] rovers@[k]).logical_position.x as int,
                            rovers@[k].logical_position.y as int,
                        ) == c,
            decreases total - cell,
        {
            proof {
                assert(y < h) by (nonlinear_arith)
                    requires
                        cell == y * w + x,
                        cell < total,
                        total == w * h,
                        x < w,
                        0 <= y,
                ;
                lemma_count_start_take_step(cells, cell as int);
                lemma_count_start_take_le(cells, cell as int + 1);
                lemma_count_start_bounds(cells.take(cell as int));
            }
            let t = level.TEGLVAE[cell];
            let is_start = match t {
                Some(tile) => matches!(tile.TYPVS, crate::level::TEGVLA_TYPVS::INITIVM),
                None => false,
            };
            proof {
                assert(is_start == spec_is_start(cells[cell as int]));
            }
            if is_start {
                let id = rovers.len();
                let ghost prev = rovers@;
                rovers.push(
                    RoverEntity {
                        identifier: id as u8,
                        logical_position: Pos { x: x as i8, y: y as i8 },
                        heading: Heading::Up,
                        battery_level: 3,
                        collided: false,
                        is_done: false,
                    },
                );
                proof {
                    assert(level.spec_index_of(x as int, y as int) == cell as int);
                    assert(level.spec_tile(x as int, y as int) == cells[cell as int]);
                    assert(rovers@[id as int].logical_position == (Pos {
                        x: x as i8,
                        y: y as i8,
                    }));
                    assert(level.spec_index_of(
                        rovers@[id as int].logical_position.x as int,
                        rovers@[id as int].logical_position.y as int,
                    ) == cell as int);
                    assert forall|c: int|
                        0 <= c < cell as int + 1 && spec_is_start(#[trigger] cells[c]) implies
                        exists|k: int|
                        0 <= k < rovers@.len() && level.spec_index_of(
                            (#[trigger] rovers@[k]).logical_position.x as int,
                            rovers@[k].logical_position.y as int,
                        ) == c by {
                        if c < cell as int {
                            let k0 = choose|k: int|
                                0 <= k < prev.len() && level.spec_index_of(
                                    (#[trigger] prev[k]).logical_position.x as int,
                                    prev[k].logical_position.y as int,
                                ) == c;
                            assert(rovers@[k0] == prev[k0]);
                        } else {
                            assert(level.spec_index_of(
                                (rovers@[id as int]).logical_position.x as int,
                                rovers@[id as int].logical_position.y as int,
                            ) == c);
                        }
                    }
                }
            }
            cell = cell + 1;
            x = x + 1;
            if x == w {
                x = 0;
                y = y + 1;
                proof {
                    assert((y) * w == (y - 1) * w + w) by (nonlinear_arith)
                        requires
                            1 <= y,
                            0 <= w,
                    ;
                }
            }
        }
        proof {
            assert(cells.take(total as int) =~= cells);
        }
        rovers
}

/// Rovers whose cell indices are strictly increasing stand on pairwise
/// distinct cells.
pub proof fn lemma_ordered_distinct(level: GRADVM, rovers: Seq<RoverEntity>)
    requires
        forall|k1: int, k2: int|
            0 <= k1 < k2 < rovers.len() ==> level.spec_index_of(
                (#[trigger] rovers[k1]).logical_position.x as int,
                rovers[k1].logical_position.y as int,
            ) < level.spec_index_of(
                (#[trigger] rovers[k2]).logical_position.x as int,
                rovers[k2].logical_position.y as int,
            ),
    ensures
        forall|k1: int, k2: int|
            0 <= k1 < rovers.len() && 0 <= k2 < rovers.len() && k1 != k2 ==> (
            #[trigger] rovers[k1]).logical_position != (
            #[trigger] rovers[k2]).logical_position,
{
    assert forall|k1: int, k2: int|
        0 <= k1 < rovers.len() && 0 <= k2 < rovers.len() && k1 != k2 implies (
    #[trigger] rovers[k1]).logical_position != (#[trigger] rovers[k2]).logical_position by {
        if rovers[k1].logical_position == rovers[k2].logical_position {
            if k1 < k2 {
                assert(false);
            } else {
                assert(false);
            }
        }
    }
}

/// Cell-index coverage of the start tiles, turned into coordinate coverage.
pub proof fn lemma_coverage_to_positions(level: GRADVM, rovers: Seq<RoverEntity>)
    requires
        level.wf(),
        forall|k: int|
            0 <= k < rovers.len() ==> level.spec_in_bounds(
                (#[trigger] rovers[k]).logical_position.x as int,
                rovers[k].logical_position.y as int,
            ),
        forall|c: int|
            0 <= c < level.TEGLVAE@.len() && spec_is_start(#[trigger] level.TEGLVAE@[c])
                ==> exists|k: int|
                0 <= k < rovers.len() && level.spec_index_of(
                    (#[trigger] rovers[k]).logical_position.x as int,
                    rovers[k].logical_position.y as int,
                ) == c,
    ensures
        forall|x: int, y: int|
            level.spec_in_bounds(x, y) && spec_is_start(#[trigger] level.spec_tile(x, y))
                ==> exists|i: int|
                0 <= i < rovers.len() && (#[trigger] rovers[i]).logical_position == (Pos {
                    x: x as i8,
                    y: y as i8,
                }),
{
    assert forall|x: int, y: int|
        level.spec_in_bounds(x, y) && spec_is_start(#[trigger] level.spec_tile(x, y)) implies
        exists|i: int|
        0 <= i < rovers.len() && (#[trigger] rovers[i]).logical_position == (Pos {
            x: x as i8,
            y: y as i8,
        }) by {
        let c = level.spec_index_of(x, y);
        lemma_grid_index(level.LATIVIDO as int, level.ALTIVIDO as int, x, y);
        assert(spec_is_start(level.TEGLVAE@[c]));
        let k = choose|k: int|
            0 <= k < rovers.len() && level.spec_index_of(
                (#[trigger] rovers[k]).logical_position.x as int,
                rovers[k].logical_position.y as int,
            ) == c;
        let p = rovers[k].logical_position;
        lemma_grid_index_injective(level.LATIVIDO as int, p.x as int, p.y as int, x, y);
        assert(rovers[k].logical_position == (Pos { x: x as i8, y: y as i8 }));
    }
}

impl RoundLoop {
    /// Build a round loop for one attempt: spawn one rover per start tile
    /// (scanned row-major, battery full, facing up), leave every collectible
    /// unclaimed, and arm the attempt with the given programs (rover `i`
    /// runs `programs[i]`; a missing list is an empty program).
    #[verifier::rlimit(100)]
    pub fn initialize(level: GRADVM, programs: Vec<Vec<Action>>) -> (rl: RoundLoop)
        requires
            level.wf(),
            spec_count_start(level.TEGLVAE@) <= 256,
        ensures
            rl.wf(),
            rl.level == level,
            rl.outcome is InProgress,
            rl.execution.is_built,
            !rl.execution.is_evaluating,
            rl.rovers@.len() == spec_count_start(level.TEGLVAE@),
            forall|i: int|
                0 <= i < rl.n() ==> {
                    let r = #[trigger] rl.rovers@[i];
                    &&& r.identifier as int == i
                    &&& r.battery_level == 3
                    &&& r.heading is Up
                    &&& !r.collided
                    &&& !r.is_done
                    &&& spec_is_start(
                        level.spec_tile(
                            r.logical_position.x as int,
                            r.logical_position.y as int,
                        ),
                    )
                },
            // Rovers are ordered by their cell, so the spawn order is fixed.
            forall|i: int, j: int|
                0 <= i < j < rl.n() ==> level.spec_index_of(
                    (#[trigger] rl.rovers@[i]).logical_position.x as int,
                    rl.rovers@[i].logical_position.y as int,
                ) < level.spec_index_of(
                    (#[trigger] rl.rovers@[j]).logical_position.x as int,
                    rl.rovers@[j].logical_position.y as int,
                ),
            // Every start tile carries a rover.
            forall|x: int, y: int|
                level.spec_in_bounds(x, y) && spec_is_start(#[trigger] level.spec_tile(x, y))
                    ==> exists|i: int|
                    0 <= i < rl.n() && (#[trigger] rl.rovers@[i]).logical_position == (Pos {
                        x: x as i8,
                        y: y as i8,
                    }),
            forall|i: int|
                0 <= i < rl.n() ==> #[trigger] rl.program(i) == (if i < programs@.len() {
                    programs@[i]@
                } else {
                    Seq::<Action>::empty()
                }),
            forall|i: int|
                0 <= i < rl.n() ==> #[trigger] rl.execution.action_states@[i]
                    == (RoverActionState { active_action_idx: 0, sub_state: SubState::Idle }),
            rl.claimed@.len() == level.TEGLVAE@.len(),
            forall|t: int| 0 <= t < rl.claimed@.len() ==> !(#[trigger] rl.claimed@[t]),
    {
        let rovers = spawn_rovers(&level);
        let total: usize = level.TEGLVAE.len();
        let ghost cells = level.TEGLVAE@;
        let count = rovers.len();
        let mut claimed: Vec<bool> = Vec::new();
        let mut t: usize = 0;
        while t < total
            invariant
                t <= total,
                claimed@.len() == t,
                forall|u: int| 0 <= u < t ==> !(#[trigger] claimed@[u]),
            decreases total - t,
        {
            claimed.push(false);
            t = t + 1;
        }
        let mut empty_programs: Vec<Vec<Action>> = Vec::new();
        let mut states: Vec<RoverActionState> = Vec::new();
        let mut k: usize = 0;
        while k < count
            invariant
                k <= count,
                empty_programs@.len() == k,
                states@.len() == k,
                forall|u: int|
                    0 <= u < k ==> (#[trigger] empty_programs@[u])@ == Seq::<Action>::empty(),
                forall|u: int|
                    0 <= u < k ==> #[trigger] states@[u] == (RoverActionState {
                        active_action_idx: 0,
                        sub_state: SubState::Idle,
                    }),
            decreases count - k,
        {
            let e: Vec<Action> = Vec::new();
            proof {
                assert(e@ =~= Seq::<Action>::empty());
            }
            empty_programs.push(e);
            states.push(RoverActionState { active_action_idx: 0, sub_state: SubState::Idle });
            k = k + 1;
        }
        let mut rl = RoundLoop {
            level,
            rovers,
            programs: empty_programs,
            execution: ActionExecution {
                is_built: false,
                is_evaluating: false,
                action_states: states,
            },
            claimed,
            outcome: PuzzleResponseEvent::InProgress,
        };
        proof {
            lemma_count_start_bounds(cells);
            lemma_ordered_distinct(rl.level, rl.rovers@);
            assert(rl.wf());
        }
        let ghost pre = rl;
        let accepted = rl.start_execution(programs);
        proof {
            assert(accepted);
            assert forall|i: int| 0 <= i < pre.n() implies #[trigger] rl.rovers@[i]
                == pre.rovers@[i] by {}
            assert(rl.rovers@ =~= pre.rovers@);
            lemma_coverage_to_positions(rl.level, rl.rovers@);
        }
        rl
    }
}

} // verus!
