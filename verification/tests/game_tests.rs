use rusty_sokoban::game::{step, Command, GameState};
use rusty_sokoban::level::{GridMap, Tile, World};

fn one_push_level() -> World {
    // Pushing the single box one cell to the right wins.
    let tiles = vec![
        Tile::Wall,
        Tile::Wall,
        Tile::Wall,
        Tile::Wall,
        Tile::Wall,
        Tile::Wall,
        Tile::Floor,
        Tile::Floor,
        Tile::Goal,
        Tile::Wall,
        Tile::Wall,
        Tile::Wall,
        Tile::Wall,
        Tile::Wall,
        Tile::Wall,
    ];
    let map = GridMap {
        tiles,
        width: 5,
        height: 3,
    };
    World::from_level(map, vec![(2, 1)], (1, 1)).expect("level should be accepted")
}

#[test]
fn quit_command_quits_from_any_state() {
    let mut w = one_push_level();
    assert_eq!(step(&mut w, GameState::Play, Command::Quit), GameState::Quit);
    assert_eq!(step(&mut w, GameState::Win, Command::Quit), GameState::Quit);
    assert_eq!(step(&mut w, GameState::Quit, Command::Quit), GameState::Quit);
    // Quitting never moves anything.
    assert_eq!(w.player_pos, (1, 1));
    assert!(w.has_box(2, 1));
}

#[test]
fn winning_move_switches_to_win() {
    let mut w = one_push_level();
    let state = step(&mut w, GameState::Play, Command::Right);
    assert_eq!(state, GameState::Win);
    assert_eq!(w.player_pos, (2, 1));
    assert!(w.has_box(3, 1));
}

#[test]
fn failed_or_ordinary_moves_stay_in_play() {
    let tiles = vec![
        Tile::Wall,
        Tile::Wall,
        Tile::Wall,
        Tile::Wall,
        Tile::Wall,
        Tile::Wall,
        Tile::Wall,
        Tile::Floor,
        Tile::Floor,
        Tile::Floor,
        Tile::Goal,
        Tile::Wall,
        Tile::Wall,
        Tile::Wall,
        Tile::Wall,
        Tile::Wall,
        Tile::Wall,
        Tile::Wall,
    ];
    let map = GridMap {
        tiles,
        width: 6,
        height: 3,
    };
    let mut w = World::from_level(map, vec![(3, 1)], (1, 1)).expect("level should be accepted");
    // Up is a wall: the move fails, the session stays in play.
    assert_eq!(step(&mut w, GameState::Play, Command::Up), GameState::Play);
    assert_eq!(w.player_pos, (1, 1));
    // Right is free and wins nothing.
    assert_eq!(step(&mut w, GameState::Play, Command::Right), GameState::Play);
    assert_eq!(w.player_pos, (2, 1));
    // The next push puts the box on the goal and wins.
    assert_eq!(step(&mut w, GameState::Play, Command::Right), GameState::Win);
    assert_eq!(w.player_pos, (3, 1));
    assert!(w.has_box(4, 1));
}

#[test]
fn win_state_ignores_directions() {
    let mut w = one_push_level();
    assert_eq!(step(&mut w, GameState::Win, Command::Left), GameState::Win);
    assert_eq!(step(&mut w, GameState::Win, Command::Down), GameState::Win);
    assert_eq!(w.player_pos, (1, 1));
    assert!(w.has_box(2, 1));
}

#[test]
fn quit_state_is_terminal() {
    let mut w = one_push_level();
    assert_eq!(step(&mut w, GameState::Quit, Command::Right), GameState::Quit);
    assert_eq!(w.player_pos, (1, 1));
}
