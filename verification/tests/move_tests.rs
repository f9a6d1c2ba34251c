use rusty_sokoban::level::{GridMap, Tile, World};

fn build(rows: &[&str], boxes: Vec<(usize, usize)>, player: (usize, usize)) -> World {
    let height = rows.len();
    let width = rows[0].len();
    let mut tiles = Vec::new();
    for row in rows {
        for ch in row.chars() {
            tiles.push(match ch {
                '#' => Tile::Wall,
                '.' => Tile::Goal,
                ' ' | '@' | '$' => Tile::Floor,
                '*' | '+' => Tile::Goal,
                _ => Tile::Empty,
            });
        }
    }
    let map = GridMap { tiles, width, height };
    World::from_level(map, boxes, player).expect("level should be accepted")
}

#[test]
fn wall_blocks_movement() {
    let mut w = build(&["#####", "# @ #", "#####"], vec![], (2, 1));
    let boxes_before = w.boxes.clone();
    // Up and down are both walls.
    assert!(!w.try_move_player(0, -1));
    assert_eq!(w.player_pos, (2, 1));
    assert_eq!(w.boxes, boxes_before);
    assert!(!w.try_move_player(0, 1));
    assert_eq!(w.player_pos, (2, 1));
    assert_eq!(w.boxes, boxes_before);
}

#[test]
fn free_move_takes_the_target_cell() {
    let mut w = build(&["#####", "#@  #", "#####"], vec![], (1, 1));
    assert!(w.try_move_player(1, 0));
    assert_eq!(w.player_pos, (2, 1));
    assert!(w.boxes.is_empty());
    assert!(w.try_move_player(1, 0));
    assert_eq!(w.player_pos, (3, 1));
    // A goal tile is as walkable as a floor tile.
    let mut w = build(&["###", "#@#", "#.#", "###"], vec![], (1, 1));
    assert!(w.try_move_player(0, 1));
    assert_eq!(w.player_pos, (1, 2));
}

#[test]
fn simple_push_relocates_one_box() {
    let mut w = build(&["######", "#@$  #", "######"], vec![(2, 1)], (1, 1));
    assert!(w.try_move_player(1, 0));
    assert_eq!(w.player_pos, (2, 1));
    assert_eq!(w.boxes.len(), 1);
    assert!(w.has_box(3, 1));
    assert!(!w.has_box(2, 1));
}

#[test]
fn push_onto_goal_is_allowed() {
    let mut w = build(&["#####", "#@$.#", "#####"], vec![(2, 1)], (1, 1));
    assert!(!w.is_won());
    assert!(w.try_move_player(1, 0));
    assert!(w.has_box(3, 1));
    assert!(w.is_won());
}

#[test]
fn push_blocked_by_wall_beyond() {
    let mut w = build(&["####", "#@$#", "####"], vec![(2, 1)], (1, 1));
    assert!(!w.try_move_player(1, 0));
    assert_eq!(w.player_pos, (1, 1));
    assert!(w.has_box(2, 1));
    assert_eq!(w.boxes.len(), 1);
}

#[test]
fn push_blocked_by_box_beyond() {
    let mut w = build(
        &["######", "#@$$ #", "######"],
        vec![(2, 1), (3, 1)],
        (1, 1),
    );
    // No chain push: both boxes and the player stay put.
    assert!(!w.try_move_player(1, 0));
    assert_eq!(w.player_pos, (1, 1));
    assert!(w.has_box(2, 1));
    assert!(w.has_box(3, 1));
    assert_eq!(w.boxes.len(), 2);
}

#[test]
fn empty_box_set_counts_as_won() {
    let w = build(&["#####", "#@ .#", "#####"], vec![], (1, 1));
    assert!(w.is_won());
}

#[test]
fn win_detection_on_the_classic_level() {
    let mut w = World::new();
    assert!(!w.is_won());
    // One solution of the built-in level, as (dx, dy) unit moves.
    let solution: [(isize, isize); 22] = [
        (0, 1),
        (0, 1),
        (1, 0),
        (0, 1),
        (1, 0),
        (1, 0),
        (0, -1),
        (0, -1),
        (-1, 0),
        (-1, 0),
        (1, 0),
        (0, 1),
        (1, 0),
        (0, 1),
        (-1, 0),
        (0, -1),
        (0, -1),
        (-1, 0),
        (0, 1),
        (-1, 0),
        (-1, 0),
        (0, -1),
    ];
    for (i, &(dx, dy)) in solution.iter().enumerate() {
        assert!(!w.is_won(), "won too early, before move {}", i);
        assert!(w.try_move_player(dx, dy), "move {} should succeed", i);
        assert_eq!(w.boxes.len(), 5);
    }
    assert!(w.is_won());
    // Every box rests on a goal cell.
    for &(x, y) in w.boxes.iter() {
        assert_eq!(w.get_tile(x, y), Tile::Goal);
    }
}

#[test]
fn failed_moves_change_nothing_on_the_classic_level() {
    let mut w = World::new();
    // Left pushes the box at (1, 2)? No: the player is at (2, 1); left is
    // the goal cell (1, 1), which is free, so the move succeeds.
    assert!(w.try_move_player(-1, 0));
    assert_eq!(w.player_pos, (1, 1));
    // Up is the border wall.
    assert!(!w.try_move_player(0, -1));
    assert_eq!(w.player_pos, (1, 1));
    // Down pushes the box at (1, 2), with the free cell (1, 3) beyond.
    assert!(w.try_move_player(0, 1));
    assert_eq!(w.player_pos, (1, 2));
    assert!(w.has_box(1, 3));
    assert!(!w.has_box(1, 2));
    assert_eq!(w.boxes.len(), 5);
}
