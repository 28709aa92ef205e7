use tron::board::{Board, CellState};
use tron::player::{Action, Player, PlayerState};
use tron::position::Position;
use tron::power_up::PowerUp;

fn state_at(b: &Board, row: usize, column: usize) -> CellState {
    b.get_cell(Position::new(row, column)).unwrap().get_state()
}

fn player_state(b: &Board, id: usize) -> PlayerState {
    b.players()[id].get_state()
}

#[test]
fn default_board_seeds_opposite_corners() {
    let b = Board::new_default(3, 4).unwrap();
    assert_eq!(b.height(), 3);
    assert_eq!(b.width(), 4);
    assert!(matches!(state_at(&b, 0, 0), CellState::Occupied { player_id: 0 }));
    assert!(matches!(state_at(&b, 2, 3), CellState::Occupied { player_id: 1 }));
    assert!(matches!(state_at(&b, 1, 2), CellState::Empty));
    assert_eq!(
        player_state(&b, 0),
        PlayerState::Alive { position: Position::new(0, 0), boost: 0, armor: 0 }
    );
    assert_eq!(
        player_state(&b, 1),
        PlayerState::Alive { position: Position::new(2, 3), boost: 0, armor: 0 }
    );
}

#[test]
fn zero_sized_boards_are_rejected() {
    assert!(Board::new_default(0, 5).is_err());
    assert!(Board::new_default(5, 0).is_err());
    assert!(Board::new_default(1, 1).is_err());
    assert!(Board::new_default(1, 2).is_ok());
}

#[test]
fn position_offset_rejects_negative_coordinates() {
    let p = Position::new(0, 3);
    assert!(p.offset(-1, 0).is_err());
    assert!(p.offset(0, -4).is_err());
    assert_eq!(p.offset(2, -3).unwrap(), Position::new(2, 0));
}

#[test]
fn move_right_on_two_by_two_leaves_trail() {
    // player 0 at (0,0) moves right: the origin becomes its trail and the
    // destination its new cell
    let b = Board::new_default(2, 2).unwrap();
    let nb = b.apply_action(0, Action::Right).unwrap();
    assert!(matches!(state_at(&nb, 0, 0), CellState::Owned { player_id: 0 }));
    assert!(matches!(state_at(&nb, 0, 1), CellState::Occupied { player_id: 0 }));
    assert_eq!(
        player_state(&nb, 0),
        PlayerState::Alive { position: Position::new(0, 1), boost: 0, armor: 0 }
    );
}

#[test]
fn boards_are_never_mutated_by_moves() {
    let b = Board::new_default(3, 3).unwrap();
    let before = b.encode();
    let nb = b.apply_action(0, Action::Down).unwrap();
    assert_eq!(b.encode(), before);
    assert!(matches!(state_at(&b, 0, 0), CellState::Occupied { player_id: 0 }));
    assert_ne!(nb.encode(), before);
    assert!(!nb.same_as(&b));
}

#[test]
fn dead_player_cannot_act() {
    // player 0 walks into player 1's cell and dies; afterwards every action
    // of player 0 is rejected
    let b = Board::new_default(2, 2).unwrap();
    let b = b.apply_action(0, Action::Down).unwrap();
    let b = b.apply_action(0, Action::Right).unwrap();
    assert_eq!(player_state(&b, 0), PlayerState::Dead);
    for action in [Action::Up, Action::Right, Action::Down, Action::Left] {
        assert!(b.apply_action(0, action).is_err());
    }
}

#[test]
fn collision_kills_regardless_of_armor() {
    // player 0 picks armor up, then walks into player 1 and dies anyway
    let b = Board::new_default(3, 3).unwrap();
    let b = b
        .with_cell_state(
            Position::new(0, 1),
            CellState::PowerUp { power_up: PowerUp::Armor },
        )
        .unwrap();
    let b = b.apply_action(1, Action::Up).unwrap(); // player 1 to (1,2)
    let b = b.apply_action(0, Action::Right).unwrap(); // armor 1 at (0,1)
    assert_eq!(
        player_state(&b, 0),
        PlayerState::Alive { position: Position::new(0, 1), boost: 0, armor: 1 }
    );
    let b = b.apply_action(0, Action::Right).unwrap(); // to (0,2)
    let b = b.apply_action(0, Action::Down).unwrap(); // onto player 1 at (1,2)
    assert_eq!(player_state(&b, 0), PlayerState::Dead);
    // the victim's cell is untouched, the victim alive
    assert!(matches!(state_at(&b, 1, 2), CellState::Occupied { player_id: 1 }));
    assert!(matches!(player_state(&b, 1), PlayerState::Alive { .. }));
}

#[test]
fn wall_with_no_armor_kills() {
    let b = Board::new_default(3, 3).unwrap();
    let b = b.with_cell_state(Position::new(0, 1), CellState::Wall).unwrap();
    let b = b.apply_action(0, Action::Right).unwrap();
    assert_eq!(player_state(&b, 0), PlayerState::Dead);
    // the dead mover never occupies the destination
    assert!(matches!(state_at(&b, 0, 1), CellState::Wall));
    assert!(matches!(state_at(&b, 0, 0), CellState::Owned { player_id: 0 }));
}

#[test]
fn armor_absorbs_one_wall_hit_then_next_hit_kills() {
    // armor 1: the first wall is survived with armor 0 and gets occupied;
    // the second hit, on a trail, kills
    let b = Board::new_default(3, 3).unwrap();
    let b = b
        .with_cell_state(
            Position::new(0, 1),
            CellState::PowerUp { power_up: PowerUp::Armor },
        )
        .unwrap();
    let b = b.with_cell_state(Position::new(0, 2), CellState::Wall).unwrap();
    let b = b.apply_action(0, Action::Right).unwrap(); // picks the armor up
    let b = b.apply_action(0, Action::Right).unwrap(); // survives the wall
    assert_eq!(
        player_state(&b, 0),
        PlayerState::Alive { position: Position::new(0, 2), boost: 0, armor: 0 }
    );
    assert!(matches!(state_at(&b, 0, 2), CellState::Occupied { player_id: 0 }));
    let b = b.with_cell_state(Position::new(1, 2), CellState::Wall).unwrap();
    let b = b.apply_action(0, Action::Down).unwrap(); // armor spent: dies
    assert_eq!(player_state(&b, 0), PlayerState::Dead);
}

#[test]
fn speed_power_up_raises_boost() {
    let b = Board::new_default(3, 3).unwrap();
    let b = b
        .with_cell_state(
            Position::new(0, 1),
            CellState::PowerUp { power_up: PowerUp::DoubleSpeed { duration: 7 } },
        )
        .unwrap();
    let b = b.apply_action(0, Action::Right).unwrap();
    assert_eq!(
        player_state(&b, 0),
        PlayerState::Alive { position: Position::new(0, 1), boost: 7, armor: 0 }
    );
}

#[test]
fn bomb_clears_neighbors_but_not_occupied_cells() {
    // a bomb at (0,1) of a 3x3 board: the mover's own fresh trail at (0,0),
    // the wall at (0,2) and the power-up at (1,1) are all cleared; empty
    // neighbors stay empty, and the mover occupies the bomb's cell unharmed
    let b = Board::new_default(3, 3).unwrap();
    let b = b
        .with_cell_state(Position::new(0, 1), CellState::PowerUp { power_up: PowerUp::Bomb })
        .unwrap();
    let b = b.with_cell_state(Position::new(0, 2), CellState::Wall).unwrap();
    let b = b
        .with_cell_state(
            Position::new(1, 1),
            CellState::PowerUp { power_up: PowerUp::DoubleSpeed { duration: 3 } },
        )
        .unwrap();
    let b = b.apply_action(0, Action::Right).unwrap();
    assert!(matches!(state_at(&b, 0, 0), CellState::Empty)); // trail blown away
    assert!(matches!(state_at(&b, 0, 2), CellState::Empty)); // wall cleared
    assert!(matches!(state_at(&b, 1, 1), CellState::Empty)); // power-up cleared
    assert!(matches!(state_at(&b, 1, 0), CellState::Empty));
    assert!(matches!(state_at(&b, 1, 2), CellState::Empty));
    assert!(matches!(state_at(&b, 0, 1), CellState::Occupied { player_id: 0 }));
    assert_eq!(
        player_state(&b, 0),
        PlayerState::Alive { position: Position::new(0, 1), boost: 0, armor: 0 }
    );
    // cells beyond the 8 neighbors are untouched
    assert!(matches!(state_at(&b, 2, 2), CellState::Occupied { player_id: 1 }));
}

#[test]
fn bomb_spares_an_occupied_neighbor() {
    let b = Board::new_default(2, 2).unwrap();
    let b = b
        .with_cell_state(Position::new(0, 1), CellState::PowerUp { power_up: PowerUp::Bomb })
        .unwrap();
    let b = b.apply_action(0, Action::Right).unwrap();
    assert!(matches!(state_at(&b, 1, 1), CellState::Occupied { player_id: 1 }));
    assert!(matches!(player_state(&b, 1), PlayerState::Alive { .. }));
}

#[test]
fn moving_off_grid_is_rejected() {
    let b = Board::new_default(2, 2).unwrap();
    assert!(b.apply_action(0, Action::Up).is_err()); // negative coordinate
    assert!(b.apply_action(0, Action::Left).is_err()); // negative coordinate
    assert!(b.apply_action(1, Action::Down).is_err()); // beyond the far edge
    assert!(b.apply_action(1, Action::Right).is_err()); // beyond the far edge
    assert!(b.move_player(0, Position::new(5, 0)).is_err());
}

#[test]
fn scene_builder_rejects_unsound_cells() {
    let b = Board::new_default(3, 3).unwrap();
    assert!(b.with_cell_state(Position::new(9, 0), CellState::Wall).is_err());
    assert!(b
        .with_cell_state(Position::new(1, 1), CellState::Occupied { player_id: 0 })
        .is_err());
    assert!(b.with_cell_state(Position::new(0, 0), CellState::Wall).is_err());
    assert!(b
        .with_cell_state(Position::new(1, 1), CellState::Owned { player_id: 5 })
        .is_err());
    assert!(b.with_cell_state(Position::new(1, 1), CellState::Wall).is_ok());
}

#[test]
fn encoding_is_one_character_per_cell() {
    let b = Board::new_default(2, 2).unwrap();
    assert_eq!(b.encode(), "0*\n*1\n");
    let b = b
        .with_cell_state(Position::new(1, 0), CellState::PowerUp { power_up: PowerUp::Bomb })
        .unwrap();
    let b = b.apply_action(0, Action::Right).unwrap();
    // the bomb was never stepped on, so it still shows; the move left a
    // trail behind
    assert_eq!(b.encode(), "#0\nB1\n");
}

#[test]
fn encoding_shows_walls_trails_and_power_ups() {
    let b = Board::new_default(2, 3).unwrap();
    let b = b.with_cell_state(Position::new(0, 1), CellState::Wall).unwrap();
    let b = b
        .with_cell_state(
            Position::new(1, 0),
            CellState::PowerUp { power_up: PowerUp::DoubleSpeed { duration: 2 } },
        )
        .unwrap();
    let b = b
        .with_cell_state(
            Position::new(0, 2),
            CellState::PowerUp { power_up: PowerUp::Armor },
        )
        .unwrap();
    let b = b.with_cell_state(Position::new(1, 1), CellState::Owned { player_id: 0 }).unwrap();
    assert_eq!(b.encode(), "0#A\nS#1\n");
}

#[test]
fn player_counter_operations() {
    let mut p = Player::new(3, Position::new(1, 1));
    assert_eq!(p.get_id(), 3);
    p.speed_boost(4).unwrap();
    p.armor_up().unwrap();
    p.armor_up().unwrap();
    assert_eq!(
        p.get_state(),
        PlayerState::Alive { position: Position::new(1, 1), boost: 4, armor: 2 }
    );
    p.take_damage().unwrap();
    assert_eq!(
        p.get_state(),
        PlayerState::Alive { position: Position::new(1, 1), boost: 4, armor: 1 }
    );
    p.take_damage().unwrap();
    p.take_damage().unwrap();
    assert_eq!(p.get_state(), PlayerState::Dead);
    assert!(p.take_damage().is_err());
    assert!(p.speed_boost(1).is_err());
    assert!(p.armor_up().is_err());
}
