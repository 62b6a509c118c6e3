use snake_board::board::{AppleCount, Board, BoardSettings, BoardSize, CellError, PlayerCount};
use snake_board::cell::Cell;
use snake_board::commands::{AppleEv, WallEv};
use snake_board::geom::{Direction, Pos};

#[test]
fn direction_opposites() {
    assert_eq!(Direction::Up.opposite(), Direction::Down);
    assert_eq!(Direction::Down.opposite(), Direction::Up);
    assert_eq!(Direction::Left.opposite(), Direction::Right);
    assert_eq!(Direction::Right.opposite(), Direction::Left);
}

#[test]
fn direction_offsets() {
    assert_eq!(Direction::Up.as_vec2(), Pos { x: 0, y: 1 });
    assert_eq!(Direction::Down.as_vec2(), Pos { x: 0, y: -1 });
    assert_eq!(Direction::Left.as_vec2(), Pos { x: -1, y: 0 });
    assert_eq!(Direction::Right.as_vec2(), Pos { x: 1, y: 0 });
    assert_eq!(Direction::from_offset(Pos { x: 1, y: 0 }), Some(Direction::Right));
    assert_eq!(Direction::from_offset(Pos { x: 0, y: -1 }), Some(Direction::Down));
    assert_eq!(Direction::from_offset(Pos { x: 1, y: 1 }), None);
}

#[test]
fn empty_board_is_empty() {
    let b = Board::empty(10, 9);
    assert_eq!(b.width(), 10);
    assert_eq!(b.height(), 9);
    assert_eq!(b.count_snakes(), 0);
    for (_, c) in b.cells() {
        assert_eq!(c, Cell::Empty);
    }
}

#[test]
fn get_set_round_trip() {
    let mut b = Board::empty(5, 5);
    let p = Pos { x: 2, y: 3 };
    assert_eq!(b.get(p), Ok(Cell::Empty));
    assert_eq!(b.set(p, Cell::Wall), Ok(()));
    assert_eq!(b.get(p), Ok(Cell::Wall));
}

#[test]
fn out_of_bounds_is_recoverable() {
    let mut b = Board::empty(5, 5);
    assert_eq!(b.get(Pos { x: -1, y: 0 }), Err(CellError::OutOfBounds));
    assert_eq!(b.get(Pos { x: 5, y: 0 }), Err(CellError::OutOfBounds));
    assert_eq!(b.set(Pos { x: 0, y: 5 }, Cell::Wall), Err(CellError::OutOfBounds));
    assert!(!b.in_bounds(Pos { x: 0, y: -1 }));
    assert!(b.in_bounds(Pos { x: 4, y: 4 }));
}

#[test]
fn new_board_small_single_player_layout() {
    let b = Board::new(BoardSettings {
        board_size: BoardSize::Small,
        apples: AppleCount::One,
        players: PlayerCount::One,
    });
    assert_eq!(b.width(), 10);
    assert_eq!(b.height(), 9);
    assert_eq!(b.count_snakes(), 1);
    for (i, x) in (0..4).enumerate() {
        assert_eq!(
            b.get(Pos { x, y: 4 }),
            Ok(Cell::Snake { id: 0, part: i as u16 })
        );
    }
    assert_eq!(b.get(Pos { x: 7, y: 4 }), Ok(Cell::Apple { natural: true }));
}

#[test]
fn new_board_multiplayer_counts() {
    let b = Board::new(BoardSettings {
        board_size: BoardSize::Medium,
        apples: AppleCount::Three,
        players: PlayerCount::Four,
    });
    assert_eq!(b.count_snakes(), 4);
    let snakes = b.snakes().expect("fresh board is well formed");
    assert_eq!(snakes.len(), 4);
    for s in &snakes {
        assert_eq!(s.parts.len(), 4);
    }
}

#[test]
fn spawnable_is_idempotent() {
    let mut b = Board::empty(10, 9);
    b.set(Pos { x: 5, y: 5 }, Cell::Wall).unwrap();
    b.set(Pos { x: 2, y: 7 }, Cell::Apple { natural: true }).unwrap();
    let first = b.get_spawnable();
    let second = b.get_spawnable();
    assert_eq!(first, second);
    assert!(!first.is_empty());
}

#[test]
fn spawnable_excludes_corner_pockets_and_wall_neighbours() {
    let mut b = Board::empty(10, 9);
    b.set(Pos { x: 5, y: 5 }, Cell::Wall).unwrap();
    let sp = b.get_spawnable();
    // The eight edge cells two in from the corners are never eligible.
    for p in [
        Pos { x: 1, y: 0 },
        Pos { x: 0, y: 1 },
        Pos { x: 8, y: 0 },
        Pos { x: 0, y: 7 },
        Pos { x: 8, y: 8 },
        Pos { x: 9, y: 7 },
        Pos { x: 1, y: 8 },
        Pos { x: 9, y: 1 },
    ] {
        assert!(!sp.contains(&p));
    }
    // Nothing touching the wall is eligible.
    for dx in -1..=1 {
        for dy in -1..=1 {
            assert!(!sp.contains(&Pos { x: 5 + dx, y: 5 + dy }));
        }
    }
    // A far-away interior cell is.
    assert!(sp.contains(&Pos { x: 2, y: 3 }));
}

#[test]
fn spawn_wall_with_no_eligible_cell_is_a_no_op() {
    let mut b = Board::empty(4, 4);
    for y in 0..4 {
        for x in 0..4 {
            b.set(Pos { x, y }, Cell::Wall).unwrap();
        }
    }
    let before = b.cells();
    assert_eq!(b.spawn_wall(), Err(()));
    assert_eq!(b.cells(), before);
}

#[test]
fn spawn_apple_fills_the_last_empty_cell() {
    let mut b = Board::empty(3, 3);
    for y in 0..3 {
        for x in 0..3 {
            if !(x == 1 && y == 1) {
                b.set(Pos { x, y }, Cell::Wall).unwrap();
            }
        }
    }
    assert_eq!(b.spawn_apple(), Ok(()));
    assert_eq!(b.get(Pos { x: 1, y: 1 }), Ok(Cell::Apple { natural: true }));
    // Now the grid is packed: another spawn fails.
    assert_eq!(b.spawn_apple(), Err(()));
}

#[test]
fn apple_commands_update_the_grid() {
    let mut b = Board::empty(6, 6);
    let p = Pos { x: 2, y: 2 };
    assert_eq!(b.apply_apple_ev(AppleEv::SpawnPos(p)), Ok(()));
    assert_eq!(b.get(p), Ok(Cell::Apple { natural: true }));
    // Spawning on an occupied cell fails.
    assert_eq!(b.apply_apple_ev(AppleEv::SpawnPos(p)), Err(()));
    assert_eq!(b.apply_apple_ev(AppleEv::Despawn(p)), Ok(()));
    assert_eq!(b.get(p), Ok(Cell::Empty));
    // Despawning an empty cell fails.
    assert_eq!(b.apply_apple_ev(AppleEv::Despawn(p)), Err(()));
    assert_eq!(b.apply_apple_ev(AppleEv::SpawnRandom), Ok(()));
}

#[test]
fn wall_commands_update_the_grid() {
    let mut b = Board::empty(8, 8);
    let p = Pos { x: 3, y: 3 };
    b.set(p, Cell::Wall).unwrap();
    assert_eq!(b.apply_wall_ev(WallEv::Destroy(p)), Ok(()));
    assert_eq!(b.get(p), Ok(Cell::Empty));
    assert_eq!(b.apply_wall_ev(WallEv::Destroy(p)), Err(()));
    assert_eq!(b.apply_wall_ev(WallEv::Spawn), Ok(()));
    let walls = b
        .cells()
        .into_iter()
        .filter(|(_, c)| matches!(c, Cell::Wall))
        .count();
    assert_eq!(walls, 1);
}

#[test]
fn clone_board_copies_the_grid() {
    let mut b = Board::empty(5, 5);
    b.set(Pos { x: 1, y: 1 }, Cell::Wall).unwrap();
    b.set(Pos { x: 2, y: 2 }, Cell::Apple { natural: false }).unwrap();
    let c = b.clone_board();
    assert_eq!(b.cells(), c.cells());
    assert_eq!(b.width(), c.width());
    assert_eq!(b.height(), c.height());
}

#[test]
fn reseed_leaves_the_grid_alone() {
    let mut b = Board::empty(5, 5);
    b.set(Pos { x: 1, y: 1 }, Cell::Wall).unwrap();
    let before = b.cells();
    b.reseed(42);
    assert_eq!(b.cells(), before);
}

#[test]
fn wire_round_trip_preserves_cells_and_dimensions() {
    let mut b = Board::empty(7, 5);
    b.set(Pos { x: 0, y: 0 }, Cell::Wall).unwrap();
    b.set(Pos { x: 1, y: 0 }, Cell::Snake { id: 3, part: 0 }).unwrap();
    b.set(Pos { x: 2, y: 0 }, Cell::Snake { id: 3, part: 1 }).unwrap();
    b.set(Pos { x: 3, y: 3 }, Cell::Apple { natural: true }).unwrap();
    b.set(Pos { x: 4, y: 4 }, Cell::Apple { natural: false }).unwrap();
    let bytes = b.encode_board();
    let back = Board::decode_board(&bytes).expect("a valid image decodes");
    assert_eq!(back.width(), 7);
    assert_eq!(back.height(), 5);
    assert_eq!(back.cells(), b.cells());
}

#[test]
fn wire_decode_rejects_garbage() {
    assert!(Board::decode_board(&vec![]).is_none());
    assert!(Board::decode_board(&vec![1, 2, 3]).is_none());
    // A valid image, truncated, no longer decodes.
    let b = Board::empty(4, 4);
    let mut bytes = b.encode_board();
    bytes.pop();
    assert!(Board::decode_board(&bytes).is_none());
    // A corrupted cell tag no longer decodes.
    let mut bytes2 = b.encode_board();
    let last = bytes2.len() - 4;
    bytes2[last] = 200;
    assert!(Board::decode_board(&bytes2).is_none());
}

#[test]
fn multiplayer_wire_round_trip() {
    let b = Board::new(BoardSettings {
        board_size: BoardSize::Medium,
        apples: AppleCount::Five,
        players: PlayerCount::Three,
    });
    let back = Board::decode_board(&b.encode_board()).expect("a fresh board encodes cleanly");
    assert_eq!(back.cells(), b.cells());
    assert_eq!(back.count_snakes(), 3);
}
