use snake_board::board::{AppleCount, Board, BoardSettings, BoardSize, PlayerCount};
use snake_board::cell::Cell;
use snake_board::geom::{Direction, Pos};
use snake_board::snakes::BoardError;
use snake_board::tick::BoardEvent;

fn small_single() -> Board {
    Board::new(BoardSettings {
        board_size: BoardSize::Small,
        apples: AppleCount::One,
        players: PlayerCount::One,
    })
}

#[test]
fn resolve_direction_never_reverses() {
    // A requested reverse is replaced by the current facing.
    assert_eq!(
        Board::resolve_direction(Some(Direction::Left), Direction::Right),
        Direction::Right
    );
    assert_eq!(
        Board::resolve_direction(Some(Direction::Up), Direction::Down),
        Direction::Down
    );
    // Any other request is honoured.
    assert_eq!(
        Board::resolve_direction(Some(Direction::Up), Direction::Right),
        Direction::Up
    );
    // No request means straight ahead.
    assert_eq!(Board::resolve_direction(None, Direction::Left), Direction::Left);
}

#[test]
fn four_ticks_to_the_apple() {
    // 10 by 9 board, one snake of length four at (0,4)..(3,4) facing right,
    // apple at (7,4): after four ticks to the right the head reaches the
    // apple, the tick reports it eaten, and the snake grows to length five.
    let mut b = small_single();
    for tick in 0..4 {
        let events = b
            .tick_board(&[Some(Direction::Right)])
            .expect("the board is well formed and the input covers snake 0");
        if tick < 3 {
            assert!(events.is_empty());
        } else {
            assert!(events.contains(&BoardEvent::AppleEaten { snake: 0 }));
        }
    }
    let snakes = b.snakes().expect("still well formed");
    assert_eq!(snakes.len(), 1);
    assert_eq!(snakes[0].head, Pos { x: 7, y: 4 });
    assert_eq!(snakes[0].parts.len(), 5);
}

#[test]
fn tick_keeps_part_sequences_contiguous() {
    // Part values stay exactly {0, .., len-1} after any successful tick:
    // the snake view derivation checks just that and fails otherwise.
    let mut b = small_single();
    for _ in 0..3 {
        b.tick_board(&[None]).expect("tick succeeds");
        let snakes = b.snakes().expect("parts stay contiguous");
        // Not growing: the cell count is unchanged tick after tick.
        assert_eq!(snakes[0].parts.len(), 4);
        for (i, p) in snakes[0].parts.iter().enumerate() {
            assert_eq!(
                b.get(*p),
                Ok(Cell::Snake { id: 0, part: i as u16 })
            );
        }
    }
}

#[test]
fn head_swap_destroys_both_snakes() {
    // Two snakes whose heads move into each other's current head cell in
    // the same tick both take damage, and the round ends.
    let mut b = Board::empty(10, 9);
    b.set(Pos { x: 1, y: 1 }, Cell::Snake { id: 0, part: 0 }).unwrap();
    b.set(Pos { x: 2, y: 1 }, Cell::Snake { id: 0, part: 1 }).unwrap();
    b.set(Pos { x: 4, y: 1 }, Cell::Snake { id: 1, part: 0 }).unwrap();
    b.set(Pos { x: 3, y: 1 }, Cell::Snake { id: 1, part: 1 }).unwrap();
    let events = b.tick_board(&[None, None]).expect("both snakes have inputs");
    assert!(events.contains(&BoardEvent::SnakeDamaged { snake: 0 }));
    assert!(events.contains(&BoardEvent::SnakeDamaged { snake: 1 }));
    assert!(events.contains(&BoardEvent::GameOver));
    assert_eq!(b.count_snakes(), 0);
}

#[test]
fn same_target_cell_destroys_both_snakes() {
    // Two snakes that pick the same empty cell destroy each other: the
    // simultaneous-move tie-break is mutual destruction, not write order.
    let mut b = Board::empty(10, 9);
    b.set(Pos { x: 1, y: 1 }, Cell::Snake { id: 0, part: 0 }).unwrap();
    b.set(Pos { x: 2, y: 1 }, Cell::Snake { id: 0, part: 1 }).unwrap();
    b.set(Pos { x: 5, y: 1 }, Cell::Snake { id: 1, part: 0 }).unwrap();
    b.set(Pos { x: 4, y: 1 }, Cell::Snake { id: 1, part: 1 }).unwrap();
    // Both heads target (3,1).
    let events = b.tick_board(&[None, None]).expect("inputs cover both");
    assert!(events.contains(&BoardEvent::SnakeDamaged { snake: 0 }));
    assert!(events.contains(&BoardEvent::SnakeDamaged { snake: 1 }));
    assert!(events.contains(&BoardEvent::GameOver));
}

#[test]
fn dead_snake_becomes_plain_apples() {
    let mut b = Board::empty(10, 9);
    // A snake facing the left wall.
    b.set(Pos { x: 1, y: 5 }, Cell::Snake { id: 0, part: 0 }).unwrap();
    b.set(Pos { x: 0, y: 5 }, Cell::Snake { id: 0, part: 1 }).unwrap();
    let events = b.tick_board(&[None]).expect("input covers snake 0");
    assert!(events.contains(&BoardEvent::SnakeDamaged { snake: 0 }));
    assert_eq!(b.get(Pos { x: 1, y: 5 }), Ok(Cell::Apple { natural: false }));
    assert_eq!(b.get(Pos { x: 0, y: 5 }), Ok(Cell::Apple { natural: false }));
}

#[test]
fn stepping_onto_own_tail_is_allowed() {
    // A snake circling a 2 by 2 block may step onto its own
    // about-to-vacate tail cell.
    let mut b = Board::empty(10, 9);
    b.set(Pos { x: 2, y: 2 }, Cell::Snake { id: 0, part: 0 }).unwrap();
    b.set(Pos { x: 3, y: 2 }, Cell::Snake { id: 0, part: 1 }).unwrap();
    b.set(Pos { x: 3, y: 3 }, Cell::Snake { id: 0, part: 2 }).unwrap();
    b.set(Pos { x: 2, y: 3 }, Cell::Snake { id: 0, part: 3 }).unwrap();
    // Head at (2,3) facing left; down leads onto the tail at (2,2).
    let events = b.tick_board(&[Some(Direction::Down)]).expect("tick succeeds");
    assert!(events.is_empty());
    let snakes = b.snakes().expect("well formed");
    assert_eq!(snakes[0].parts.len(), 4);
    assert_eq!(snakes[0].head, Pos { x: 2, y: 2 });
}

#[test]
fn missing_inputs_are_an_error() {
    let mut b = small_single();
    assert_eq!(b.tick_board(&[]), Err(BoardError::NotEnoughInputs));
    // The board is untouched.
    let snakes = b.snakes().expect("well formed");
    assert_eq!(snakes[0].head, Pos { x: 3, y: 4 });
}

#[test]
fn short_snake_is_a_consistency_error() {
    let mut b = Board::empty(6, 6);
    b.set(Pos { x: 1, y: 1 }, Cell::Snake { id: 7, part: 0 }).unwrap();
    assert!(matches!(b.snakes(), Err(BoardError::SnakeTooShort { snake: 7 })));
    assert_eq!(
        b.tick_board(&[None; 8]),
        Err(BoardError::SnakeTooShort { snake: 7 })
    );
}

#[test]
fn malformed_part_sequence_is_a_consistency_error() {
    let mut b = Board::empty(6, 6);
    // Parts 0 and 2, with part 1 missing.
    b.set(Pos { x: 1, y: 1 }, Cell::Snake { id: 2, part: 0 }).unwrap();
    b.set(Pos { x: 2, y: 1 }, Cell::Snake { id: 2, part: 2 }).unwrap();
    assert!(matches!(b.snakes(), Err(BoardError::SnakeTooShort { snake: 2 })));
}

#[test]
fn detached_head_is_a_consistency_error() {
    let mut b = Board::empty(6, 6);
    b.set(Pos { x: 0, y: 0 }, Cell::Snake { id: 3, part: 0 }).unwrap();
    b.set(Pos { x: 5, y: 5 }, Cell::Snake { id: 3, part: 1 }).unwrap();
    assert!(matches!(
        b.snakes(),
        Err(BoardError::HeadNotAttachedToNeck { snake: 3 })
    ));
}

#[test]
fn hitting_a_wall_damages_the_snake() {
    let mut b = Board::empty(10, 9);
    b.set(Pos { x: 1, y: 5 }, Cell::Snake { id: 0, part: 0 }).unwrap();
    b.set(Pos { x: 2, y: 5 }, Cell::Snake { id: 0, part: 1 }).unwrap();
    b.set(Pos { x: 3, y: 5 }, Cell::Wall).unwrap();
    let events = b.tick_board(&[None]).expect("input covers snake 0");
    assert!(events.contains(&BoardEvent::SnakeDamaged { snake: 0 }));
    assert!(events.contains(&BoardEvent::GameOver));
}

#[test]
fn eating_spawns_a_replacement_apple() {
    // The eaten natural apple triggers one replacement somewhere on the
    // grid, so the number of natural apples is conserved.
    let mut b = small_single();
    for _ in 0..4 {
        b.tick_board(&[Some(Direction::Right)]).expect("tick succeeds");
    }
    let natural: usize = b
        .cells()
        .into_iter()
        .filter(|(_, c)| matches!(c, Cell::Apple { natural: true }))
        .count();
    assert_eq!(natural, 1);
}

#[test]
fn empty_board_tick_reports_game_over() {
    let mut b = Board::empty(10, 9);
    let events = b.tick_board(&[]).expect("no snake needs an input");
    assert_eq!(events, vec![BoardEvent::GameOver]);
}

#[test]
fn damage_updates_the_snake_count() {
    let mut b = Board::empty(10, 9);
    b.set(Pos { x: 1, y: 1 }, Cell::Snake { id: 0, part: 0 }).unwrap();
    b.set(Pos { x: 0, y: 1 }, Cell::Snake { id: 0, part: 1 }).unwrap();
    b.set(Pos { x: 5, y: 5 }, Cell::Snake { id: 1, part: 0 }).unwrap();
    b.set(Pos { x: 5, y: 6 }, Cell::Snake { id: 1, part: 1 }).unwrap();
    assert_eq!(b.count_snakes(), 2);
    // Snake 0 runs into the left edge; snake 1 keeps moving up.
    b.tick_board(&[None, None]).expect("inputs cover both");
    assert_eq!(b.count_snakes(), 1);
}

#[test]
fn medium_and_large_layouts_offset_the_snake() {
    let medium = Board::new(BoardSettings {
        board_size: BoardSize::Medium,
        apples: AppleCount::One,
        players: PlayerCount::One,
    });
    assert_eq!(medium.width(), 17);
    assert_eq!(medium.height(), 15);
    assert_eq!(
        medium.get(Pos { x: 1, y: 7 }),
        Ok(Cell::Snake { id: 0, part: 0 })
    );
    assert_eq!(medium.get(Pos { x: 12, y: 7 }), Ok(Cell::Apple { natural: true }));
    let large = Board::new(BoardSettings {
        board_size: BoardSize::Large,
        apples: AppleCount::One,
        players: PlayerCount::One,
    });
    assert_eq!(large.width(), 24);
    assert_eq!(large.height(), 21);
    assert_eq!(
        large.get(Pos { x: 3, y: 10 }),
        Ok(Cell::Snake { id: 0, part: 0 })
    );
    assert_eq!(large.get(Pos { x: 17, y: 10 }), Ok(Cell::Apple { natural: true }));
}

#[test]
fn three_apple_pattern_sits_around_the_centre() {
    let b = Board::new(BoardSettings {
        board_size: BoardSize::Small,
        apples: AppleCount::Three,
        players: PlayerCount::One,
    });
    for p in [Pos { x: 7, y: 4 }, Pos { x: 5, y: 6 }, Pos { x: 5, y: 2 }] {
        assert_eq!(b.get(p), Ok(Cell::Apple { natural: true }));
    }
}
