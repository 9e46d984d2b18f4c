use rover_puzzle::actions::{Action, ActionType};
use rover_puzzle::level::{Pos, GRADVM, GRADVM_ORENATOR_CONFIGVRATIONES};
use rover_puzzle::level_loader::LevelLoaderPlugin;
use rover_puzzle::puzzle_evaluation::PuzzleResponseEvent;
use rover_puzzle::rover::{Heading, RoundLoop, SubState};

fn act(a: ActionType) -> Action {
    Action { moves: (a, 0) }
}

fn load_with_mask(lines: &[&str], mask: &[&str]) -> GRADVM {
    let rows: Vec<Vec<u8>> = lines.iter().map(|l| l.bytes().collect()).collect();
    let shadow: Vec<Vec<bool>> = mask
        .iter()
        .map(|l| l.bytes().map(|b| b == b'#').collect())
        .collect();
    LevelLoaderPlugin::load(&rows, &shadow, &GRADVM_ORENATOR_CONFIGVRATIONES { INDEX: 0 })
        .unwrap()
}

fn load(lines: &[&str]) -> GRADVM {
    let mask: Vec<String> = lines.iter().map(|l| " ".repeat(l.len())).collect();
    let mask_refs: Vec<&str> = mask.iter().map(|s| s.as_str()).collect();
    load_with_mask(lines, &mask_refs)
}

/// Positions are pairwise distinct and batteries stay in `0..=3`.
fn assert_invariants(rl: &RoundLoop) {
    for i in 0..rl.rovers.len() {
        assert!(rl.rovers[i].battery_level <= 3);
        for j in 0..rl.rovers.len() {
            if i != j {
                assert_ne!(rl.rovers[i].logical_position, rl.rovers[j].logical_position);
            }
        }
    }
}

#[test]
fn scenario_move_to_finish_solves() {
    // A single rover below the only finish tile: one move up wins, with the
    // battery untouched on the sunlit tile.
    let level = load(&["E", "S"]);
    let mut rl = RoundLoop::initialize(level, vec![vec![act(ActionType::MoveUp)]]);
    assert_eq!(rl.rovers.len(), 1);
    assert_eq!(rl.rovers[0].logical_position, Pos { x: 0, y: 0 });
    assert_eq!(rl.rovers[0].battery_level, 3);
    let outcome = rl.step();
    assert_eq!(outcome, PuzzleResponseEvent::Solved);
    assert_eq!(rl.rovers[0].logical_position, Pos { x: 0, y: 1 });
    assert_eq!(rl.rovers[0].battery_level, 3);
    assert!(!rl.rovers[0].collided);
    assert_invariants(&rl);
}

#[test]
fn scenario_moving_off_the_grid_fails() {
    // A rover on the left edge ordered to move left: the candidate leaves
    // the level, the rover stays put and collides, the attempt fails.
    let level = load(&["SE"]);
    let mut rl = RoundLoop::initialize(level, vec![vec![act(ActionType::MoveLeft)]]);
    let outcome = rl.step();
    assert_eq!(outcome, PuzzleResponseEvent::Failed);
    assert_eq!(rl.rovers[0].logical_position, Pos { x: 0, y: 0 });
    assert!(rl.rovers[0].collided);
    assert_invariants(&rl);
}

#[test]
fn scenario_direct_swap_rejects_both() {
    // Two rovers ordered to swap cells in one round: both are rejected and
    // both collide.
    let level = load(&["SSE"]);
    let mut rl = RoundLoop::initialize(
        level,
        vec![vec![act(ActionType::MoveRight)], vec![act(ActionType::MoveLeft)]],
    );
    assert_eq!(rl.rovers.len(), 2);
    let outcome = rl.step();
    assert_eq!(outcome, PuzzleResponseEvent::Failed);
    assert!(rl.rovers[0].collided);
    assert!(rl.rovers[1].collided);
    assert_eq!(rl.rovers[0].logical_position, Pos { x: 0, y: 0 });
    assert_eq!(rl.rovers[1].logical_position, Pos { x: 1, y: 0 });
    assert_invariants(&rl);
}

#[test]
fn scenario_wire_transfer_charges_the_shadowed_rover() {
    // Two rovers step onto the two ends of a wire link; the lower-left end
    // lies in shadow. After the first round the shadowed rover has drained
    // to 2 and the sunlit one stays full; the second round's transfer moves
    // one unit from the sunlit rover to the shadowed one.
    let level = load_with_mask(&["S1E", "1S."], &["   ", "#  "]);
    let mut rl = RoundLoop::initialize(
        level,
        vec![
            vec![act(ActionType::MoveUp), act(ActionType::Wait), act(ActionType::Wait)],
            vec![act(ActionType::MoveDown), act(ActionType::Wait), act(ActionType::Wait)],
        ],
    );
    // Rovers spawn in scan order: rover 0 on the bottom row's start tile.
    assert_eq!(rl.rovers[0].logical_position, Pos { x: 1, y: 0 });
    assert_eq!(rl.rovers[1].logical_position, Pos { x: 0, y: 1 });
    let outcome = rl.step();
    assert_eq!(outcome, PuzzleResponseEvent::InProgress);
    // Rover 1 moved down onto the shadowed link end and drained; rover 0
    // moved up onto the sunlit end and stayed capped.
    assert_eq!(rl.rovers[1].logical_position, Pos { x: 0, y: 0 });
    assert_eq!(rl.rovers[0].logical_position, Pos { x: 1, y: 1 });
    assert_eq!(rl.rovers[1].battery_level, 2);
    assert_eq!(rl.rovers[0].battery_level, 3);
    assert_invariants(&rl);
    let outcome = rl.step();
    assert_eq!(outcome, PuzzleResponseEvent::InProgress);
    // Both waited: only the wire transfer applies, one unit from the
    // sunlit rover to the shadowed one.
    assert_eq!(rl.rovers[1].battery_level, 3);
    assert_eq!(rl.rovers[0].battery_level, 2);
    assert_invariants(&rl);
}

#[test]
fn scenario_empty_battery_invalidates_a_move() {
    // Three moves across shadowed path drain the battery to zero; the
    // fourth move is rejected for want of power even though its target
    // tile is valid.
    let level = load_with_mask(&["E", "P", "P", "P", "S"], &[" ", "#", "#", "#", " "]);
    let program = vec![vec![
        act(ActionType::MoveUp),
        act(ActionType::MoveUp),
        act(ActionType::MoveUp),
        act(ActionType::MoveUp),
    ]];
    let mut rl = RoundLoop::initialize(level, program);
    assert_eq!(rl.step(), PuzzleResponseEvent::InProgress);
    assert_eq!(rl.rovers[0].battery_level, 2);
    assert_eq!(rl.step(), PuzzleResponseEvent::InProgress);
    assert_eq!(rl.rovers[0].battery_level, 1);
    assert_eq!(rl.step(), PuzzleResponseEvent::InProgress);
    assert_eq!(rl.rovers[0].battery_level, 0);
    assert_eq!(rl.rovers[0].logical_position, Pos { x: 0, y: 3 });
    let outcome = rl.step();
    assert_eq!(outcome, PuzzleResponseEvent::Failed);
    assert!(rl.rovers[0].collided);
    assert_eq!(rl.rovers[0].logical_position, Pos { x: 0, y: 3 });
    assert_invariants(&rl);
}

#[test]
fn special_terrain_is_walkable() {
    // Power stations, craters and relays are ordinary cells to the round
    // logic: only holes and the rectangle bound a move.
    let level = load(&["E", "I", "C", "D", "S"]);
    let program = vec![vec![
        act(ActionType::MoveUp),
        act(ActionType::MoveUp),
        act(ActionType::MoveUp),
        act(ActionType::MoveUp),
    ]];
    let mut rl = RoundLoop::initialize(level, program);
    assert_eq!(rl.step(), PuzzleResponseEvent::InProgress);
    assert_eq!(rl.step(), PuzzleResponseEvent::InProgress);
    assert_eq!(rl.step(), PuzzleResponseEvent::InProgress);
    assert_eq!(rl.step(), PuzzleResponseEvent::Solved);
    assert!(!rl.rovers[0].collided);
}

#[test]
fn moving_onto_a_hole_collides() {
    // A hole inside the rectangle is out of the level just like its edge.
    let level = load(&["S.E"]);
    let mut rl = RoundLoop::initialize(level, vec![vec![act(ActionType::MoveRight)]]);
    assert_eq!(rl.step(), PuzzleResponseEvent::Failed);
    assert!(rl.rovers[0].collided);
    assert_eq!(rl.rovers[0].logical_position, Pos { x: 0, y: 0 });
}

#[test]
fn stepping_a_decided_loop_changes_nothing() {
    // Evaluating an already-failed attempt again is a no-op.
    let level = load(&["SE"]);
    let mut rl = RoundLoop::initialize(level, vec![vec![act(ActionType::MoveLeft)]]);
    assert_eq!(rl.step(), PuzzleResponseEvent::Failed);
    let pos = rl.rovers[0].logical_position;
    let battery = rl.rovers[0].battery_level;
    let cursor = rl.execution.action_states[0].active_action_idx;
    assert_eq!(rl.step(), PuzzleResponseEvent::Failed);
    assert_eq!(rl.step(), PuzzleResponseEvent::Failed);
    assert_eq!(rl.rovers[0].logical_position, pos);
    assert_eq!(rl.rovers[0].battery_level, battery);
    assert_eq!(rl.execution.action_states[0].active_action_idx, cursor);
}

#[test]
fn cursor_is_monotone_and_bounded() {
    let level = load(&["E", "P", "S"]);
    let program = vec![vec![act(ActionType::Wait), act(ActionType::MoveUp)]];
    let mut rl = RoundLoop::initialize(level, program);
    let mut last: usize = 0;
    for _ in 0..5 {
        rl.step();
        let cursor = rl.execution.action_states[0].active_action_idx;
        assert!(cursor >= last);
        assert!(cursor <= 2);
        last = cursor;
        assert_invariants(&rl);
    }
}

#[test]
fn contending_for_one_cell_rejects_both() {
    // Two rovers ordered into the same cell: the documented policy rejects
    // both, order-independently.
    let level = load(&["SPS", ".E."]);
    let mut rl = RoundLoop::initialize(
        level,
        vec![vec![act(ActionType::MoveRight)], vec![act(ActionType::MoveLeft)]],
    );
    let outcome = rl.step();
    assert_eq!(outcome, PuzzleResponseEvent::Failed);
    assert!(rl.rovers[0].collided);
    assert!(rl.rovers[1].collided);
    assert_eq!(rl.rovers[0].logical_position, Pos { x: 0, y: 1 });
    assert_eq!(rl.rovers[1].logical_position, Pos { x: 2, y: 1 });
    assert_invariants(&rl);
}

#[test]
fn moving_into_a_vacated_cell_is_allowed() {
    // A chain of moves in one round: the front rover moves away while the
    // back rover moves into its old cell.
    let level = load(&["E", "S", "S"]);
    let mut rl = RoundLoop::initialize(
        level,
        vec![vec![act(ActionType::MoveUp)], vec![act(ActionType::MoveUp)]],
    );
    let outcome = rl.step();
    assert_eq!(outcome, PuzzleResponseEvent::Solved);
    assert!(!rl.rovers[0].collided);
    assert!(!rl.rovers[1].collided);
    assert_eq!(rl.rovers[1].logical_position, Pos { x: 0, y: 2 });
    assert_eq!(rl.rovers[0].logical_position, Pos { x: 0, y: 1 });
    assert_invariants(&rl);
}

#[test]
fn empty_program_rover_is_done_immediately() {
    // A rover with no commands is immediately done; with the collectible
    // unclaimed the attempt fails once every rover is done.
    let level = load(&["SE"]);
    let mut rl = RoundLoop::initialize(level, vec![vec![]]);
    let outcome = rl.step();
    assert_eq!(outcome, PuzzleResponseEvent::Failed);
    assert!(rl.rovers[0].is_done);
    assert!(!rl.rovers[0].collided);
}

#[test]
fn missing_program_lists_are_empty_programs() {
    // Two rovers, one program list: the second rover runs an empty program.
    let level = load(&["SS", "E."]);
    let mut rl = RoundLoop::initialize(
        level,
        vec![vec![act(ActionType::Wait), act(ActionType::Wait)]],
    );
    assert_eq!(rl.rovers.len(), 2);
    rl.step();
    assert!(!rl.rovers[0].is_done);
    assert!(rl.rovers[1].is_done);
}

#[test]
fn wait_keeps_position_and_battery() {
    let level = load(&["SE"]);
    let mut rl = RoundLoop::initialize(
        level,
        vec![vec![act(ActionType::Wait), act(ActionType::Wait)]],
    );
    assert_eq!(rl.step(), PuzzleResponseEvent::InProgress);
    assert_eq!(rl.rovers[0].logical_position, Pos { x: 0, y: 0 });
    assert_eq!(rl.rovers[0].battery_level, 3);
    assert!(!rl.rovers[0].collided);
}

#[test]
fn abort_discards_round_state_and_resumes_cleanly() {
    let level = load(&["E", "P", "S"]);
    let program = vec![vec![act(ActionType::MoveUp), act(ActionType::MoveUp)]];
    let mut rl = RoundLoop::initialize(level, program);
    assert_eq!(rl.step(), PuzzleResponseEvent::InProgress);
    assert_eq!(rl.execution.action_states[0].active_action_idx, 1);
    rl.abort();
    assert!(rl.execution.is_built);
    assert!(!rl.execution.is_evaluating);
    assert!(matches!(rl.execution.action_states[0].sub_state, SubState::Idle));
    // The cursor is untouched, so stepping again resumes the attempt.
    assert_eq!(rl.execution.action_states[0].active_action_idx, 1);
    assert_eq!(rl.step(), PuzzleResponseEvent::Solved);
    assert_eq!(rl.rovers[0].logical_position, Pos { x: 0, y: 2 });
}

#[test]
fn start_execution_rejects_reentry_and_rearms_after_a_verdict() {
    let level = load(&["E", "P", "S"]);
    let program = vec![vec![act(ActionType::MoveDown)]];
    let mut rl = RoundLoop::initialize(level, program);
    // A built attempt rejects a new program.
    assert!(!rl.start_execution(vec![vec![act(ActionType::Wait)]]));
    assert_eq!(rl.step(), PuzzleResponseEvent::Failed);
    assert!(rl.rovers[0].collided);
    // A decided attempt tears down, so a fresh program is accepted: cursors
    // return to the start and the sticky flags are cleared.
    assert!(rl.start_execution(vec![vec![
        act(ActionType::MoveUp),
        act(ActionType::MoveUp),
    ]]));
    assert!(rl.execution.is_built);
    assert_eq!(rl.execution.action_states[0].active_action_idx, 0);
    assert!(!rl.rovers[0].collided);
    assert!(!rl.rovers[0].is_done);
    assert_eq!(rl.step(), PuzzleResponseEvent::InProgress);
    assert_eq!(rl.step(), PuzzleResponseEvent::Solved);
}

#[test]
fn heading_follows_the_last_command() {
    let level = load(&["E", "P", "S"]);
    let mut rl = RoundLoop::initialize(
        level,
        vec![vec![act(ActionType::MoveUp), act(ActionType::Wait)]],
    );
    assert!(matches!(rl.rovers[0].heading, Heading::Up));
    rl.step();
    assert!(matches!(rl.rovers[0].heading, Heading::Up));
    // A rejected move still turns the rover toward its target.
    let level2 = load(&["SE"]);
    let mut rl2 = RoundLoop::initialize(level2, vec![vec![act(ActionType::MoveLeft)]]);
    rl2.step();
    assert!(matches!(rl2.rovers[0].heading, Heading::Left));
}

#[test]
fn round_pieces_compose_like_step() {
    // Driving the commit, barrier and evaluation phases by hand matches
    // what one step does.
    let level = load(&["E", "S"]);
    let mut rl = RoundLoop::initialize(level, vec![vec![act(ActionType::MoveUp)]]);
    rl.start_round();
    assert_eq!(rl.rovers[0].logical_position, Pos { x: 0, y: 1 });
    while !rl.round_settled() {
        rl.tick();
    }
    assert_eq!(rl.execution.action_states[0].active_action_idx, 1);
    let outcome = rl.evaluate();
    assert_eq!(outcome, PuzzleResponseEvent::Solved);
    assert_eq!(rl.outcome, PuzzleResponseEvent::Solved);
}

#[test]
fn charge_in_sun_after_shadow_drain() {
    // A rover drained in shadow charges again when it moves in the sun.
    let level = load_with_mask(&["E", "P", "P", "S"], &[" ", " ", "#", " "]);
    let program = vec![vec![
        act(ActionType::MoveUp),
        act(ActionType::MoveUp),
        act(ActionType::MoveUp),
    ]];
    let mut rl = RoundLoop::initialize(level, program);
    assert_eq!(rl.step(), PuzzleResponseEvent::InProgress);
    assert_eq!(rl.rovers[0].battery_level, 2);
    assert_eq!(rl.step(), PuzzleResponseEvent::InProgress);
    assert_eq!(rl.rovers[0].battery_level, 3);
    assert_eq!(rl.step(), PuzzleResponseEvent::Solved);
    assert_eq!(rl.rovers[0].battery_level, 3);
}
