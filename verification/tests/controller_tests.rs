use tron::board::{Board, CellState};
use tron::game::{Controller, Game, GameState};
use tron::player::{Action, PlayerState};
use tron::player_controller::{
    calc_zone_relative, frontiers_empty, is_seen, relative_score, score, zone_scores,
    BFSController, ClockwiseController, PlayerController, ScoreCache,
};
use tron::position::Position;

#[test]
fn zone_scores_split_a_small_board_evenly() {
    // on the 2x2 start the two free cells are reached by both players in
    // the same round, so both are contested and credited to both sides
    let b = Board::new_default(2, 2).unwrap();
    let s = zone_scores(&b);
    assert_eq!(s, vec![2, 2]);
    assert_eq!(relative_score(&s, 0), 0);
    assert_eq!(relative_score(&s, 1), 0);
    assert_eq!(calc_zone_relative(&b, 0), 0);
}

#[test]
fn zone_scores_credit_the_nearer_player() {
    // a wall splits a 1x4 corridor unevenly: player 0 reaches (0,1), while
    // nothing is reachable for player 1 beyond its own cell
    let b = Board::new_default(1, 4).unwrap();
    let b = b.with_cell_state(Position::new(0, 2), CellState::Wall).unwrap();
    let s = zone_scores(&b);
    assert_eq!(s, vec![1, 0]);
    assert_eq!(relative_score(&s, 0), 1);
    assert_eq!(relative_score(&s, 1), -1);
}

#[test]
fn heuristic_is_zero_sum_for_two_living_players() {
    let b = Board::new_default(4, 4).unwrap();
    let b = b.with_cell_state(Position::new(1, 1), CellState::Wall).unwrap();
    assert_eq!(calc_zone_relative(&b, 0), -calc_zone_relative(&b, 1));
    let b = b.apply_action(0, Action::Right).unwrap();
    assert_eq!(calc_zone_relative(&b, 0), -calc_zone_relative(&b, 1));
}

#[test]
fn score_is_extreme_exactly_at_eliminations() {
    let mut cache = ScoreCache::new();
    let b = Board::new_default(2, 2).unwrap();
    let interior = score(&b, 0, &mut cache);
    assert!(i32::MIN < interior && interior < i32::MAX);
    // the same board again comes from the cache and matches
    assert_eq!(score(&b, 0, &mut cache), interior);
    // player 0 suicides into player 1
    let b = b.apply_action(0, Action::Down).unwrap();
    let b = b.apply_action(0, Action::Right).unwrap();
    assert_eq!(b.players()[0].get_state(), PlayerState::Dead);
    assert_eq!(score(&b, 0, &mut cache), i32::MIN);
    assert_eq!(score(&b, 1, &mut cache), i32::MAX);
}

#[test]
fn is_seen_reports_the_claiming_player_and_round() {
    let seen: Vec<Vec<(Position, usize)>> = vec![
        vec![(Position::new(0, 0), 0)],
        vec![(Position::new(1, 1), 0), (Position::new(1, 2), 1)],
    ];
    assert_eq!(is_seen(Position::new(1, 2), &seen), Some((1, 1)));
    assert_eq!(is_seen(Position::new(0, 0), &seen), Some((0, 0)));
    assert_eq!(is_seen(Position::new(2, 2), &seen), None);
}

#[test]
fn frontiers_empty_checks_every_frontier() {
    let empty: Vec<Vec<Position>> = vec![Vec::new(), Vec::new()];
    assert!(frontiers_empty(&empty));
    let one: Vec<Vec<Position>> = vec![Vec::new(), vec![Position::new(0, 0)]];
    assert!(!frontiers_empty(&one));
}

#[test]
fn clockwise_controller_takes_first_safe_action() {
    let b = Board::new_default(3, 3).unwrap();
    // from (0,0): Up leaves the grid, Right is free
    let mut c = ClockwiseController {};
    assert_eq!(c.get_action(&b, 0), Action::Right);
    // wall off Right: Down is next
    let b2 = b.with_cell_state(Position::new(0, 1), CellState::Wall).unwrap();
    assert_eq!(c.get_action(&b2, 0), Action::Down);
    // player 1 at (2,2): Up is safe already
    assert_eq!(c.get_action(&b, 1), Action::Up);
}

#[test]
fn clockwise_controller_falls_back_to_up() {
    // box player 0 in completely: every move is fatal
    let b = Board::new_default(3, 3).unwrap();
    let b = b.with_cell_state(Position::new(0, 1), CellState::Wall).unwrap();
    let b = b.with_cell_state(Position::new(1, 0), CellState::Wall).unwrap();
    let mut c = ClockwiseController {};
    assert_eq!(c.get_action(&b, 0), Action::Up);
}

fn forced_win_board() -> Board {
    // player 1 ends surrounded at the center of a 3x3 board: every reply it
    // has is fatal once player 0 steps away; player 0's only surviving
    // action is Down
    let b = Board::new_default(3, 3).unwrap();
    let b = b.apply_action(1, Action::Up).unwrap(); // p1 to (1,2)
    let b = b.apply_action(1, Action::Left).unwrap(); // p1 to (1,1)
    let b = b.apply_action(0, Action::Down).unwrap(); // p0 to (1,0)
    let b = b.with_cell_state(Position::new(0, 1), CellState::Wall).unwrap();
    let b = b.with_cell_state(Position::new(2, 1), CellState::Wall).unwrap();
    b
}

#[test]
fn search_finds_the_winning_action_and_stops_early() {
    let b = forced_win_board();
    // a generous budget: the search must still return at once, because the
    // winning branch ends it before the budget matters
    let mut c = BFSController::new(3_600_000);
    let start = std::time::Instant::now();
    assert_eq!(c.get_action(&b, 0), Action::Down);
    assert!(start.elapsed().as_millis() < 60_000);
}

#[test]
fn search_survives_when_nothing_wins() {
    let b = Board::new_default(4, 4).unwrap();
    let mut c = BFSController::new(50);
    let a = c.get_action(&b, 0);
    // whatever was picked must at least be a legal, survivable move here
    let nb = b.apply_action(0, a).unwrap();
    assert!(matches!(nb.players()[0].get_state(), PlayerState::Alive { .. }));
}

#[test]
fn game_runs_one_turn_per_player() {
    let mut game = Game::new_default(
        Controller::Clockwise(ClockwiseController {}),
        Controller::Search(BFSController::new(20)),
    );
    let (id0, actions0) = game.run_turn().unwrap();
    assert_eq!(id0, 0);
    assert_eq!(actions0.len(), 1);
    let (id1, actions1) = game.run_turn().unwrap();
    assert_eq!(id1, 1);
    assert_eq!(actions1.len(), 1);
    match game.state() {
        GameState::Active { turn, alive_ids } => {
            assert_eq!(*turn, 2);
            assert_eq!(alive_ids, &vec![0, 1]);
        },
        GameState::Over { .. } => panic!("the game cannot be over after two opening moves"),
    }
}

#[test]
fn game_reaches_a_winner() {
    let mut game = Game::new_default(
        Controller::Clockwise(ClockwiseController {}),
        Controller::Clockwise(ClockwiseController {}),
    );
    let mut rounds = 0;
    loop {
        match game.state() {
            GameState::Active { turn, .. } => {
                assert!(*turn < usize::MAX);
            },
            GameState::Over { winner_id } => {
                assert!(*winner_id < 2);
                break;
            },
        }
        if game.run_turn().is_err() {
            // a controller had no legal move left: the match cannot go on
            break;
        }
        rounds += 1;
        assert!(rounds < 1000, "a 10x10 match must end within 1000 turns");
    }
}

#[test]
fn game_rejects_wrong_controller_count() {
    let b = Board::new_default(4, 4).unwrap();
    let only_one = vec![Controller::Clockwise(ClockwiseController {})];
    assert!(Game::new(b, only_one).is_err());
}
