//! The round evaluator. It runs strictly after the round barrier closes:
//! first battery transfer across every wire link whose two endpoints are
//! occupied by live rovers, then ambient drain/charge for every live rover
//! whose last command was a translation, then collectible pickup, then the
//! win and loss checks, in that order.

use crate::level::{lemma_grid_index, Pos, GRADVM, TEGVLA, TEGVLA_TYPVS};
use crate::rover::{RoundLoop, RoverEntity};
use vstd::prelude::*;

verus! {

/// The outcome of one evaluated round.
#[derive(Clone, Copy, Debug, PartialEq, Eq, Structural)]
pub enum PuzzleResponseEvent {
    Solved,
    Failed,
    InProgress,
}

/// A rover is live while it is neither done nor collided.
pub open spec fn spec_live(rovers: Seq<RoverEntity>, i: int) -> bool {
    !rovers[i].is_done && !rovers[i].collided
}

/// The index of the live rover standing on cell `q`, if any. Distinct rover
/// positions make this rover unique.
pub open spec fn spec_rover_at(rovers: Seq<RoverEntity>, q: Pos) -> Option<int> {
    if exists|j: int|
        0 <= j < rovers.len() && spec_live(rovers, j) && (#[trigger] rovers[j]).logical_position
            == q {
        Some(
            choose|j: int|
                0 <= j < rovers.len() && spec_live(rovers, j) && (
                #[trigger] rovers[j]).logical_position == q,
        )
    } else {
        None
    }
}

/// Rover `i`'s battery after the wire-transfer pass. A link transfers one
/// unit per round: with exactly one shadowed endpoint, from the sunlit rover
/// (if charged) to the shadowed one (capped at 3); with both endpoints
/// shadowed, from the higher-battery rover to the lower one.
pub open spec fn spec_transfer_battery(level: GRADVM, rovers: Seq<RoverEntity>, i: int) -> u8 {
    let r = rovers[i];
    let p = r.logical_position;
    if !spec_live(rovers, i) {
        r.battery_level
    } else {
        match level.spec_partner(p.x as int, p.y as int) {
            None => r.battery_level,
            Some(q) => match spec_rover_at(rovers, q) {
                None => r.battery_level,
                Some(j) => {
                    let b_own = r.battery_level;
                    let b_other = rovers[j].battery_level;
                    let sh_own = level.spec_tile(p.x as int, p.y as int)->0.VMBRA;
                    let sh_other = level.spec_tile(q.x as int, q.y as int)->0.VMBRA;
                    if sh_own && sh_other {
                        if b_other > b_own && b_own < 3 {
                            (b_own + 1) as u8
                        } else if b_own > b_other {
                            (b_own - 1) as u8
                        } else {
                            b_own
                        }
                    } else if sh_own {
                        if b_other > 0 && b_own < 3 {
                            (b_own + 1) as u8
                        } else {
                            b_own
                        }
                    } else if sh_other {
                        if b_own > 0 {
                            (b_own - 1) as u8
                        } else {
                            b_own
                        }
                    } else {
                        b_own
                    }
                },
            },
        }
    }
}

/// Battery `b` after the ambient pass for rover `i`: a live rover whose last
/// command was a translation drains one unit in shadow (floor 0) and charges
/// one unit in the sun (cap 3).
pub open spec fn spec_ambient_battery(
    level: GRADVM,
    rovers: Seq<RoverEntity>,
    moved: Seq<bool>,
    i: int,
    b: u8,
) -> u8 {
    let p = rovers[i].logical_position;
    if !spec_live(rovers, i) || !moved[i] {
        b
    } else {
        let sh = level.spec_tile(p.x as int, p.y as int)->0.VMBRA;
        if sh {
            if b > 0 {
                (b - 1) as u8
            } else {
                0
            }
        } else {
            if b < 3 {
                (b + 1) as u8
            } else {
                b
            }
        }
    }
}

/// Rover `i`'s battery after the whole evaluation: transfer, then ambient.
pub open spec fn spec_eval_battery(
    level: GRADVM,
    rovers: Seq<RoverEntity>,
    moved: Seq<bool>,
    i: int,
) -> u8 {
    spec_ambient_battery(level, rovers, moved, i, spec_transfer_battery(level, rovers, i))
}

/// Does this cell carry a finish tile?
pub open spec fn spec_is_finis(t: Option<TEGVLA>) -> bool {
    t matches Some(tg) && tg.TYPVS is FINIS
}

/// Claim flag of cell `t` after the pickup pass: a finish tile's collectible
/// is claimed once some rover occupies the tile.
pub open spec fn spec_eval_claimed(
    level: GRADVM,
    rovers: Seq<RoverEntity>,
    claimed: Seq<bool>,
    t: int,
) -> bool {
    claimed[t] || (spec_is_finis(level.TEGLVAE@[t]) && exists|i: int|
        0 <= i < rovers.len() && level.spec_index_of(
            (#[trigger] rovers[i]).logical_position.x as int,
            rovers[i].logical_position.y as int,
        ) == t)
}

/// The puzzle is solved when every finish tile's collectible is claimed.
pub open spec fn spec_solved(level: GRADVM, rovers: Seq<RoverEntity>, claimed: Seq<bool>) -> bool {
    forall|t: int|
        0 <= t < level.TEGLVAE@.len() && spec_is_finis(#[trigger] level.TEGLVAE@[t])
            ==> spec_eval_claimed(level, rovers, claimed, t)
}

/// Did any rover collide?
pub open spec fn spec_any_collided(rovers: Seq<RoverEntity>) -> bool {
    exists|i: int| 0 <= i < rovers.len() && (#[trigger] rovers[i]).collided
}

/// Is rover `i` done after this evaluation: it was done, or its cursor has
/// reached the end of its program?
pub open spec fn spec_eval_done(
    rovers: Seq<RoverEntity>,
    idxs: Seq<int>,
    plens: Seq<int>,
    i: int,
) -> bool {
    rovers[i].is_done || idxs[i] == plens[i]
}

/// Are all rovers done after this evaluation?
pub open spec fn spec_all_done(rovers: Seq<RoverEntity>, idxs: Seq<int>, plens: Seq<int>) -> bool {
    forall|i: int| 0 <= i < rovers.len() ==> #[trigger] spec_eval_done(rovers, idxs, plens, i)
}

/// The round outcome: solved once every collectible is claimed; otherwise
/// failed if any rover collided, or if every rover is done; otherwise the
/// attempt goes on.
pub open spec fn spec_eval_outcome(
    level: GRADVM,
    rovers: Seq<RoverEntity>,
    idxs: Seq<int>,
    plens: Seq<int>,
    claimed: Seq<bool>,
) -> PuzzleResponseEvent {
    if spec_solved(level, rovers, claimed) {
        PuzzleResponseEvent::Solved
    } else if spec_any_collided(rovers) {
        PuzzleResponseEvent::Failed
    } else if spec_all_done(rovers, idxs, plens) {
        PuzzleResponseEvent::Failed
    } else {
        PuzzleResponseEvent::InProgress
    }
}

/// Find the live rover standing on cell `q`, if any.
fn find_live_at(rovers: &Vec<RoverEntity>, q: Pos) -> (r: Option<usize>)
    requires
        forall|i: int, j: int|
            0 <= i < rovers@.len() && 0 <= j < rovers@.len() && i != j ==> (
            #[trigger] rovers@[i]).logical_position != (#[trigger] rovers@[j]).logical_position,
    ensures
        match r {
            Some(j) => j < rovers@.len() && spec_rover_at(rovers@, q) == Some(j as int),
            None => spec_rover_at(rovers@, q) is None,
        },
{
    let n = rovers.len();
    let mut i: usize = 0;
    while i < n
        invariant
            n == rovers@.len(),
            i <= n,
            forall|i: int, j: int|
                0 <= i < rovers@.len() && 0 <= j < rovers@.len() && i != j ==> (
                #[trigger] rovers@[i]).logical_position != (
                #[trigger] rovers@[j]).logical_position,
            forall|k: int|
                0 <= k < i ==> !(spec_live(rovers@, k) && (#[trigger] rovers@[k]).logical_position
                    == q),
        decreases n - i,
    {
        let r = rovers[i];
        if !r.is_done && !r.collided && r.logical_position == q {
            proof {
                let w = choose|j: int|
                    0 <= j < rovers@.len() && spec_live(rovers@, j) && (
                    #[trigger] rovers@[j]).logical_position == q;
                assert(rovers@[w].logical_position == rovers@[i as int].logical_position);
                assert(w == i as int);
            }
            return Some(i);
        }
        i = i + 1;
    }
    proof {
        if spec_rover_at(rovers@, q) is Some {
            let w = choose|j: int|
                0 <= j < rovers@.len() && spec_live(rovers@, j) && (
                #[trigger] rovers@[j]).logical_position == q;
            assert(!(spec_live(rovers@, w) && rovers@[w].logical_position == q));
        }
    }
    None
}

impl RoundLoop {
    /// Evaluate a settled round: apply wire transfer and ambient
    /// drain/charge to every battery, update done flags, claim collectibles,
    /// and compute, store and return the round's outcome. A terminal outcome
    /// tears the attempt down (`is_built` drops).
    pub fn evaluate(&mut self) -> (r: PuzzleResponseEvent)
        requires
            old(self).wf(),
            old(self).spec_settled(),
        ensures
            final(self).wf(),
            final(self).level == old(self).level,
            final(self).programs == old(self).programs,
            final(self).execution.action_states == old(self).execution.action_states,
            final(self).rovers@.len() == old(self).rovers@.len(),
            forall|i: int|
                0 <= i < old(self).n() ==> #[trigger] final(self).rovers@[i] == (RoverEntity {
                    battery_level: spec_eval_battery(
                        old(self).level,
                        old(self).rovers@,
                        old(self).moved_flags(),
                        i,
                    ),
                    is_done: old(self).rovers@[i].is_done || old(self).cursor(i) == old(
                        self,
                    ).program(i).len(),
                    ..old(self).rovers@[i]
                }),
            final(self).claimed@.len() == old(self).claimed@.len(),
            forall|t: int|
                0 <= t < old(self).claimed@.len() ==> #[trigger] final(self).claimed@[t]
                    == spec_eval_claimed(
                    old(self).level,
                    old(self).rovers@,
                    old(self).claimed@,
                    t,
                ),
            r == spec_eval_outcome(
                old(self).level,
                old(self).rovers@,
                old(self).cursors(),
                old(self).program_lens(),
                old(self).claimed@,
            ),
            final(self).outcome == r,
            final(self).execution.is_built == (old(self).execution.is_built
                && r is InProgress),
            final(self).execution.is_evaluating == false,
    {
        let ghost orig = *self;
        let n = self.rovers.len();
        // Transfer and ambient passes, computed from the pre-state.
        let mut new_batteries: Vec<u8> = Vec::new();
        let mut i: usize = 0;
        while i < n
            invariant
                *self == orig,
                orig.wf(),
                n == orig.rovers@.len(),
                i <= n,
                new_batteries@.len() == i,
                forall|k: int|
                    0 <= k < i ==> #[trigger] new_batteries@[k] == spec_eval_battery(
                        orig.level,
                        orig.rovers@,
                        orig.moved_flags(),
                        k,
                    ),
        decreases n - i,
        {
            let r = self.rovers[i];
            proof {
                assert(orig.rover_ok(i as int));
            }
            let p = r.logical_position;
            let after_transfer: u8 = if !r.is_done && !r.collided {
                match self.level.wire_partner(p.x, p.y) {
                    None => r.battery_level,
                    Some(q) => {
                        match find_live_at(&self.rovers, q) {
                            None => r.battery_level,
                            Some(j) => {
                                proof {
                                    assert(orig.rover_ok(j as int));
                                }
                                let other = self.rovers[j];
                                let t_own = self.level.tile_at(p.x, p.y);
                                let t_other = self.level.tile_at(q.x, q.y);
                                let sh_own = match t_own {
                                    Some(t) => t.VMBRA,
                                    None => false,
                                };
                                let sh_other = match t_other {
                                    Some(t) => t.VMBRA,
                                    None => false,
                                };
                                if sh_own && sh_other {
                                    if other.battery_level > r.battery_level && r.battery_level
                                        < 3 {
                                        r.battery_level + 1
                                    } else if r.battery_level > other.battery_level {
                                        r.battery_level - 1
                                    } else {
                                        r.battery_level
                                    }
                                } else if sh_own {
                                    if other.battery_level > 0 && r.battery_level < 3 {
                                        r.battery_level + 1
                                    } else {
                                        r.battery_level
                                    }
                                } else if sh_other {
                                    if r.battery_level > 0 {
                                        r.battery_level - 1
                                    } else {
                                        r.battery_level
                                    }
                                } else {
                                    r.battery_level
                                }
                            },
                        }
                    },
                }
            } else {
                r.battery_level
            };
            let s = self.execution.action_states[i];
            let moved = s.active_action_idx > 0 && self.programs[i][s.active_action_idx
                - 1].moves.0.is_move();
            let b: u8 = if !r.is_done && !r.collided && moved {
                let t_own = self.level.tile_at(p.x, p.y);
                let sh = match t_own {
                    Some(t) => t.VMBRA,
                    None => false,
                };
                if sh {
                    if after_transfer > 0 {
                        after_transfer - 1
                    } else {
                        0
                    }
                } else {
                    if after_transfer < 3 {
                        after_transfer + 1
                    } else {
                        after_transfer
                    }
                }
            } else {
                after_transfer
            };
            new_batteries.push(b);
            i = i + 1;
        }
        // Write the battery and done flags back.
        let mut i: usize = 0;
        while i < n
            invariant
                orig.wf(),
                n == orig.rovers@.len(),
                i <= n,
                self.level == orig.level,
                self.programs == orig.programs,
                self.claimed == orig.claimed,
                self.outcome == orig.outcome,
                self.execution == orig.execution,
                self.rovers@.len() == n,
                new_batteries@.len() == n,
                forall|k: int|
                    0 <= k < n ==> #[trigger] new_batteries@[k] == spec_eval_battery(
                        orig.level,
                        orig.rovers@,
                        orig.moved_flags(),
                        k,
                    ),
                forall|k: int|
                    i <= k < n ==> #[trigger] self.rovers@[k] == orig.rovers@[k],
                forall|k: int|
                    0 <= k < i ==> #[trigger] self.rovers@[k] == (RoverEntity {
                        battery_level: spec_eval_battery(
                            orig.level,
                            orig.rovers@,
                            orig.moved_flags(),
                            k,
                        ),
                        is_done: orig.rovers@[k].is_done || orig.cursor(k) == orig.program(
                            k,
                        ).len(),
                        ..orig.rovers@[k]
                    }),
            decreases n - i,
        {
            let r = self.rovers[i];
            let s = self.execution.action_states[i];
            let done = r.is_done || s.active_action_idx == self.programs[i].len();
            self.rovers.set(
                i,
                RoverEntity { battery_level: new_batteries[i], is_done: done, ..r },
            );
            i = i + 1;
        }
        // Collectible pickup: a rover occupying a finish tile claims it.
        let mut i: usize = 0;
        while i < n
            invariant
                orig.wf(),
                n == orig.rovers@.len(),
                i <= n,
                self.level == orig.level,
                self.programs == orig.programs,
                self.outcome == orig.outcome,
                self.execution == orig.execution,
                self.rovers@.len() == n,
                forall|k: int|
                    0 <= k < n ==> #[trigger] self.rovers@[k] == (RoverEntity {
                        battery_level: spec_eval_battery(
                            orig.level,
                            orig.rovers@,
                            orig.moved_flags(),
                            k,
                        ),
                        is_done: orig.rovers@[k].is_done || orig.cursor(k) == orig.program(
                            k,
                        ).len(),
                        ..orig.rovers@[k]
                    }),
                self.claimed@.len() == orig.claimed@.len(),
                orig.claimed@.len() == orig.level.TEGLVAE@.len(),
                forall|t: int|
                    0 <= t < orig.claimed@.len() ==> #[trigger] self.claimed@[t] == (
                    orig.claimed@[t] || (spec_is_finis(orig.level.TEGLVAE@[t]) && exists|k: int|
                        0 <= k < i && orig.level.spec_index_of(
                            (#[trigger] orig.rovers@[k]).logical_position.x as int,
                            orig.rovers@[k].logical_position.y as int,
                        ) == t)),
            decreases n - i,
        {
            proof {
                assert(orig.rover_ok(i as int));
            }
            let p = self.rovers[i].logical_position;
            proof {
                lemma_grid_index(
                    orig.level.LATIVIDO as int,
                    orig.level.ALTIVIDO as int,
                    p.x as int,
                    p.y as int,
                );
            }
            let t: usize = (p.y as usize) * (self.level.LATIVIDO as usize) + (p.x as usize);
            let is_finish = match self.level.tile_at(p.x, p.y) {
                Some(tile) => matches!(tile.TYPVS, TEGVLA_TYPVS::FINIS),
                None => false,
            };
            if is_finish {
                self.claimed.set(t, true);
            }
            proof {
                assert forall|u: int| 0 <= u < orig.claimed@.len() implies #[trigger] self
                    .claimed@[u] == (orig.claimed@[u] || (spec_is_finis(orig.level.TEGLVAE@[u])
                    && exists|k: int|
                    0 <= k < i + 1 && orig.level.spec_index_of(
                        (#[trigger] orig.rovers@[k]).logical_position.x as int,
                        orig.rovers@[k].logical_position.y as int,
                    ) == u)) by {
                    if u == t as int && is_finish {
                        assert(orig.level.spec_index_of(
                            orig.rovers@[i as int].logical_position.x as int,
                            orig.rovers@[i as int].logical_position.y as int,
                        ) == u);
                    }
                }
            }
            i = i + 1;
        }
        proof {
            assert forall|t: int| 0 <= t < orig.claimed@.len() implies #[trigger] self.claimed@[t]
                == spec_eval_claimed(orig.level, orig.rovers@, orig.claimed@, t) by {
            }
        }
        // Win check, then loss checks.
        let solved = self.check_solved(Ghost(orig));
        let outcome = if solved {
            PuzzleResponseEvent::Solved
        } else {
            let mut any_collided = false;
            let mut all_done = true;
            let mut i: usize = 0;
            while i < n
                invariant
                    orig.wf(),
                    n == orig.rovers@.len(),
                    i <= n,
                    self.rovers@.len() == n,
                    self.programs == orig.programs,
                    self.execution == orig.execution,
                    forall|k: int|
                        0 <= k < n ==> #[trigger] self.rovers@[k] == (RoverEntity {
                            battery_level: spec_eval_battery(
                                orig.level,
                                orig.rovers@,
                                orig.moved_flags(),
                                k,
                            ),
                            is_done: orig.rovers@[k].is_done || orig.cursor(k) == orig.program(
                                k,
                            ).len(),
                            ..orig.rovers@[k]
                        }),
                    any_collided == exists|k: int|
                        0 <= k < i && (#[trigger] orig.rovers@[k]).collided,
                    all_done == forall|k: int|
                        0 <= k < i ==> #[trigger] spec_eval_done(
                            orig.rovers@,
                            orig.cursors(),
                            orig.program_lens(),
                            k,
                        ),
                decreases n - i,
            {
                let r = self.rovers[i];
                if r.collided {
                    any_collided = true;
                }
                if !r.is_done {
                    all_done = false;
                    proof {
                        assert(!spec_eval_done(
                            orig.rovers@,
                            orig.cursors(),
                            orig.program_lens(),
                            i as int,
                        ));
                    }
                }
                i = i + 1;
            }
            if any_collided {
                PuzzleResponseEvent::Failed
            } else if all_done {
                PuzzleResponseEvent::Failed
            } else {
                PuzzleResponseEvent::InProgress
            }
        };
        self.outcome = outcome;
        self.execution.is_evaluating = false;
        let keep = matches!(outcome, PuzzleResponseEvent::InProgress);
        self.execution.is_built = self.execution.is_built && keep;
        proof {
            assert forall|k: int| 0 <= k < n implies #[trigger] self.rover_ok(k) by {
                assert(orig.rover_ok(k));
            }
        }
        outcome
    }

    /// Is every finish tile's collectible claimed, on the already-updated
    /// claim flags?
    fn check_solved(&self, Ghost(orig): Ghost<RoundLoop>) -> (r: bool)
        requires
            orig.wf(),
            self.level == orig.level,
            self.claimed@.len() == orig.claimed@.len(),
            forall|t: int|
                0 <= t < orig.claimed@.len() ==> #[trigger] self.claimed@[t]
                    == spec_eval_claimed(orig.level, orig.rovers@, orig.claimed@, t),
        ensures
            r == spec_solved(orig.level, orig.rovers@, orig.claimed@),
    {
        let n = self.claimed.len();
        let mut t: usize = 0;
        while t < n
            invariant
                orig.wf(),
                self.level == orig.level,
                self.claimed@.len() == orig.claimed@.len(),
                n == orig.claimed@.len(),
                n == orig.level.TEGLVAE@.len(),
                t <= n,
                forall|u: int|
                    0 <= u < orig.claimed@.len() ==> #[trigger] self.claimed@[u]
                        == spec_eval_claimed(orig.level, orig.rovers@, orig.claimed@, u),
                forall|u: int|
                    0 <= u < t && spec_is_finis(#[trigger] orig.level.TEGLVAE@[u])
                        ==> spec_eval_claimed(orig.level, orig.rovers@, orig.claimed@, u),
            decreases n - t,
        {
            let is_finish = match &self.level.TEGLVAE[t] {
                Some(tile) => matches!(tile.TYPVS, TEGVLA_TYPVS::FINIS),
                None => false,
            };
            if is_finish && !self.claimed[t] {
                return false;
            }
            t = t + 1;
        }
        true
    }
}

} // verus!
