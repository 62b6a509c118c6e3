use snake_board::ai::{RandomWalk, SearchTrace, TreeSearch, BAD_SCORE, SCORE_SCALE};
use snake_board::board::{AppleCount, Board, BoardSettings, BoardSize, PlayerCount};
use snake_board::cell::Cell;
use snake_board::commands::WallEv;
use snake_board::game::{game_state_transition, setup, GameState};
use snake_board::geom::{Direction, Pos};
use snake_board::guns::{Bullet, BulletOutcome};

fn fresh() -> Board {
    setup(&BoardSettings {
        board_size: BoardSize::Small,
        apples: AppleCount::One,
        players: PlayerCount::One,
    })
}

#[test]
fn search_picks_a_legal_move() {
    let b = fresh();
    let ai = TreeSearch { max_depth: 10 };
    let mut trace = SearchTrace::new();
    let dir = ai.chose_move(&b, &mut trace).expect("snake 0 is on the board");
    // The snake faces right: the one illegal answer is its reverse.
    assert_ne!(dir, Direction::Left);
}

#[test]
fn search_fails_without_the_snake() {
    let b = Board::empty(10, 9);
    let ai = TreeSearch { max_depth: 10 };
    let mut trace = SearchTrace::new();
    assert!(ai.chose_move(&b, &mut trace).is_err());
}

#[test]
fn boxed_snake_still_gets_an_answer() {
    // The snake sits in a two-by-two corner pocket with no path to its
    // tail: the search returns the least-bad direction instead of failing.
    let mut b = Board::empty(10, 9);
    b.set(Pos { x: 0, y: 0 }, Cell::Snake { id: 0, part: 0 }).unwrap();
    b.set(Pos { x: 0, y: 1 }, Cell::Snake { id: 0, part: 1 }).unwrap();
    for p in [
        Pos { x: 0, y: 2 },
        Pos { x: 1, y: 2 },
        Pos { x: 2, y: 2 },
        Pos { x: 2, y: 1 },
        Pos { x: 2, y: 0 },
    ] {
        b.set(p, Cell::Wall).unwrap();
    }
    let ai = TreeSearch { max_depth: 20 };
    let mut trace = SearchTrace::new();
    let dir = ai.chose_move(&b, &mut trace).expect("a move is always chosen");
    // Facing up, so the reverse (down) is never the answer.
    assert_ne!(dir, Direction::Down);
}

#[test]
fn eval_scores_a_lost_board_badly() {
    let b = Board::empty(10, 9);
    let ai = TreeSearch { max_depth: 10 };
    assert_eq!(ai.eval_board(&b, 5), BAD_SCORE + 5);
}

#[test]
fn eval_scores_open_space_at_full_scale() {
    // A two-segment snake in the open: the fill reaches its cap of four
    // cells straight away and the tail is a neighbour of the head, so the
    // board scores the full scale plus the doubled apple reward.
    let mut b = Board::empty(10, 9);
    b.set(Pos { x: 4, y: 4 }, Cell::Snake { id: 0, part: 0 }).unwrap();
    b.set(Pos { x: 5, y: 4 }, Cell::Snake { id: 0, part: 1 }).unwrap();
    let ai = TreeSearch { max_depth: 10 };
    assert_eq!(ai.eval_board(&b, 7), SCORE_SCALE + 2 * 7);
}

#[test]
fn eval_scores_a_sealed_head_as_lost() {
    // The head is walled off from every free cell, so the bounded fill
    // never finds the tail and the board scores as a trap.
    let mut b = Board::empty(10, 9);
    b.set(Pos { x: 0, y: 0 }, Cell::Snake { id: 0, part: 0 }).unwrap();
    b.set(Pos { x: 1, y: 0 }, Cell::Snake { id: 0, part: 1 }).unwrap();
    b.set(Pos { x: 2, y: 0 }, Cell::Snake { id: 0, part: 2 }).unwrap();
    b.set(Pos { x: 3, y: 0 }, Cell::Snake { id: 0, part: 3 }).unwrap();
    b.set(Pos { x: 3, y: 1 }, Cell::Wall).unwrap();
    b.set(Pos { x: 4, y: 0 }, Cell::Wall).unwrap();
    let ai = TreeSearch { max_depth: 10 };
    assert_eq!(ai.eval_board(&b, 3), BAD_SCORE + 3);
}

#[test]
fn random_walk_fails_when_fully_boxed() {
    // Every neighbour of the head is off the board or occupied, so no
    // direction is free and the walk reports failure.
    let mut b = Board::empty(10, 9);
    b.set(Pos { x: 0, y: 0 }, Cell::Snake { id: 0, part: 0 }).unwrap();
    b.set(Pos { x: 0, y: 1 }, Cell::Snake { id: 0, part: 1 }).unwrap();
    b.set(Pos { x: 1, y: 1 }, Cell::Wall).unwrap();
    b.set(Pos { x: 0, y: 2 }, Cell::Wall).unwrap();
    let mut trace = SearchTrace::new();
    assert!(RandomWalk.chose_move(&b, &mut trace).is_err());
}

#[test]
fn random_walk_avoids_occupied_cells() {
    let mut b = Board::empty(10, 9);
    b.set(Pos { x: 1, y: 1 }, Cell::Snake { id: 0, part: 0 }).unwrap();
    b.set(Pos { x: 2, y: 1 }, Cell::Snake { id: 0, part: 1 }).unwrap();
    // Block two of the three free neighbours of the head.
    b.set(Pos { x: 3, y: 1 }, Cell::Wall).unwrap();
    b.set(Pos { x: 2, y: 0 }, Cell::Wall).unwrap();
    let mut trace = SearchTrace::new();
    let dir = RandomWalk.chose_move(&b, &mut trace).expect("one cell is free");
    assert_eq!(dir, Direction::Up);
}

#[test]
fn firing_costs_the_tail_segment() {
    let mut b = fresh();
    let ev = b.fire(0).expect("the snake has four segments");
    assert_eq!(ev.0.id, 0);
    assert_eq!(ev.0.speed, 2);
    assert_eq!(ev.0.pos, Pos { x: 3, y: 4 });
    assert_eq!(ev.0.dir, Direction::Right);
    let snakes = b.snakes().expect("still well formed");
    assert_eq!(snakes[0].parts.len(), 3);
    // The old tail cell is empty, the head has not moved.
    assert_eq!(b.get(Pos { x: 0, y: 4 }), Ok(Cell::Empty));
    assert_eq!(snakes[0].head, Pos { x: 3, y: 4 });
}

#[test]
fn firing_needs_three_segments() {
    let mut b = Board::empty(8, 8);
    b.set(Pos { x: 1, y: 1 }, Cell::Snake { id: 0, part: 0 }).unwrap();
    b.set(Pos { x: 2, y: 1 }, Cell::Snake { id: 0, part: 1 }).unwrap();
    assert_eq!(b.fire(0), Err(()));
    assert_eq!(b.fire(9), Err(()));
}

#[test]
fn bullet_destroys_the_first_wall_it_meets() {
    let mut b = Board::empty(10, 9);
    b.set(Pos { x: 6, y: 4 }, Cell::Wall).unwrap();
    let bullet = Bullet { id: 0, pos: Pos { x: 4, y: 4 }, dir: Direction::Right, speed: 3 };
    match bullet.step(&b) {
        BulletOutcome::Exploded(ev, dmg, wall) => {
            assert_eq!(ev.pos, Pos { x: 6, y: 4 });
            assert!(dmg.is_none());
            assert_eq!(wall, Some(WallEv::Destroy(Pos { x: 6, y: 4 })));
        },
        BulletOutcome::Flying(_) => panic!("the wall stops the bullet"),
    }
}

#[test]
fn bullet_damages_a_snake_at_the_hit_segment() {
    let mut b = Board::empty(10, 9);
    b.set(Pos { x: 5, y: 2 }, Cell::Snake { id: 1, part: 0 }).unwrap();
    b.set(Pos { x: 5, y: 3 }, Cell::Snake { id: 1, part: 1 }).unwrap();
    b.set(Pos { x: 5, y: 4 }, Cell::Snake { id: 1, part: 2 }).unwrap();
    let bullet = Bullet { id: 0, pos: Pos { x: 2, y: 3 }, dir: Direction::Right, speed: 4 };
    match bullet.step(&b) {
        BulletOutcome::Exploded(ev, dmg, wall) => {
            assert_eq!(ev.pos, Pos { x: 5, y: 3 });
            assert!(wall.is_none());
            let de = dmg.expect("a snake was hit");
            assert_eq!(de.snake_id, 1);
            // Part 1 of a three-segment snake is one step from the head.
            assert_eq!(de.snake_pos, 1);
        },
        BulletOutcome::Flying(_) => panic!("the snake stops the bullet"),
    }
}

#[test]
fn bullet_passes_through_own_head_and_neck() {
    let mut b = Board::empty(10, 9);
    b.set(Pos { x: 2, y: 3 }, Cell::Snake { id: 0, part: 0 }).unwrap();
    b.set(Pos { x: 3, y: 3 }, Cell::Snake { id: 0, part: 1 }).unwrap();
    b.set(Pos { x: 4, y: 3 }, Cell::Snake { id: 0, part: 2 }).unwrap();
    // A bullet fired from the head flies over the head and neck cells and
    // explodes only when it reaches the tail segment.
    let bullet = Bullet { id: 0, pos: Pos { x: 4, y: 3 }, dir: Direction::Left, speed: 2 };
    match bullet.step(&b) {
        BulletOutcome::Exploded(ev, dmg, _) => {
            assert_eq!(ev.pos, Pos { x: 2, y: 3 });
            let de = dmg.expect("the tail segment takes the hit");
            assert_eq!(de.snake_id, 0);
            assert_eq!(de.snake_pos, 2);
        },
        BulletOutcome::Flying(_) => panic!("the tail segment blocks it"),
    }
}

#[test]
fn bullet_explodes_at_the_board_edge() {
    let b = Board::empty(10, 9);
    let bullet = Bullet { id: 0, pos: Pos { x: 8, y: 4 }, dir: Direction::Right, speed: 3 };
    match bullet.step(&b) {
        BulletOutcome::Exploded(ev, dmg, wall) => {
            assert_eq!(ev.pos, Pos { x: 10, y: 4 });
            assert!(dmg.is_none() && wall.is_none());
        },
        BulletOutcome::Flying(_) => panic!("the edge stops the bullet"),
    }
}

#[test]
fn bullet_flies_over_open_ground() {
    let b = Board::empty(10, 9);
    let bullet = Bullet { id: 0, pos: Pos { x: 2, y: 4 }, dir: Direction::Right, speed: 3 };
    match bullet.step(&b) {
        BulletOutcome::Flying(nb) => {
            assert_eq!(nb.pos, Pos { x: 5, y: 4 });
            assert_eq!(nb.dir, Direction::Right);
        },
        BulletOutcome::Exploded(..) => panic!("nothing blocks the bullet"),
    }
}

#[test]
fn game_state_machine_transitions() {
    assert_eq!(game_state_transition(GameState::Setup, 0, 1, false), GameState::Start);
    assert_eq!(game_state_transition(GameState::Start, 0, 1, false), GameState::InGame);
    // Single player: the round runs while the snake lives.
    assert_eq!(game_state_transition(GameState::InGame, 1, 1, false), GameState::InGame);
    assert_eq!(game_state_transition(GameState::InGame, 0, 1, false), GameState::GameOver);
    // Multiplayer: the round ends when at most one snake is left.
    assert_eq!(game_state_transition(GameState::InGame, 2, 3, false), GameState::InGame);
    assert_eq!(game_state_transition(GameState::InGame, 1, 3, false), GameState::GameOver);
    assert_eq!(game_state_transition(GameState::GameOver, 0, 1, false), GameState::GameOver);
    assert_eq!(game_state_transition(GameState::GameOver, 0, 1, true), GameState::Start);
}

#[test]
fn setup_builds_a_round_for_the_settings() {
    let b = setup(&BoardSettings {
        board_size: BoardSize::Large,
        apples: AppleCount::Five,
        players: PlayerCount::Two,
    });
    assert_eq!(b.width(), 24);
    assert_eq!(b.height(), 21);
    assert_eq!(b.count_snakes(), 2);
    let apples = b
        .cells()
        .into_iter()
        .filter(|(_, c)| matches!(c, Cell::Apple { natural: true }))
        .count();
    assert_eq!(apples, 5);
}
