use std::collections::VecDeque;

use hadar::env::Direction::{Down, Left, Right, Up};
use hadar::env::{Direction, Vec2D};
use hadar::game::{Game, Outcome, Snake};
use hadar::grid::CellT;

#[test]
fn game_parse() {
    let game = Game::parse(
        r#"
        . . . . . . . . . . .
        . . . . . . . . o . .
        . . . . . . . . . . .
        . . . . . . . . . . .
        . . . . . 0 < < . . .
        . . . . . . . ^ . . .
        . . . . . > > ^ . . .
        . . . . . . . . . . .
        . . . . . . . . . . .
        v . . . . . . . . . .
        1 . . . . . . . . . ."#,
    )
    .unwrap();

    assert_eq!(game.grid.width, 11);
    assert_eq!(game.grid.height, 11);
    assert!(game.grid.get(Vec2D::new(5, 6)).t == CellT::Owned);
    assert!(game.grid.get(Vec2D::new(8, 9)).t == CellT::Food);
    assert_eq!(game.snakes.len(), 2);

    let snake = &game.snakes[0];
    assert_eq!(snake.head(), Vec2D::new(5, 6));
    assert_eq!(
        snake.body,
        VecDeque::from(vec![
            Vec2D::new(5, 4),
            Vec2D::new(6, 4),
            Vec2D::new(7, 4),
            Vec2D::new(7, 5),
            Vec2D::new(7, 6),
            Vec2D::new(6, 6),
            Vec2D::new(5, 6),
        ])
    );

    let snake = &game.snakes[1];
    assert_eq!(snake.head(), Vec2D::new(0, 0));
    assert_eq!(
        snake.body,
        VecDeque::from(vec![Vec2D::new(0, 1), Vec2D::new(0, 1), Vec2D::new(0, 0),])
    );
}

#[test]
fn game_step() {

    let mut game = Game::parse(
        r#"
        . . . . . . . . . . .
        . . . . . . . . . . .
        . . . . 0 . 1 . . . .
        . . . . ^ . ^ . . . .
        . . . . ^ . ^ . . . .
        . . . . . . . . . . .
        . . . . . . . . . . .
        . . . . . . . . . . .
        . . . . . . . . . . .
        . . . . . . . . . . .
        . . . . . . . . . . ."#,
    )
    .unwrap();

    {
        // Both right
        let mut game = game.clone();
        game.step(&[Right, Right]);
        assert!(game.snake_is_alive(0));
        assert!(game.snake_is_alive(1));
        assert!(game.grid.get(Vec2D::new(4, 6)).t != CellT::Owned);
        assert!(game.grid.get(Vec2D::new(5, 8)).t == CellT::Owned);
        assert!(game.grid.get(Vec2D::new(6, 6)).t != CellT::Owned);
        assert!(game.grid.get(Vec2D::new(7, 8)).t == CellT::Owned);

        // Snake 0 runs into 1
        game.step(&[Right, Right]);
        assert!(!game.snake_is_alive(0));
        assert!(game.grid.get(Vec2D::new(5, 8)).t != CellT::Owned);
        assert!(game.snake_is_alive(1));
        assert!(game.grid.get(Vec2D::new(8, 8)).t == CellT::Owned);
    }

    {
        // Head to head equal len
        game.step(&[Right, Left]);
        assert!(!game.snake_is_alive(0));
        assert!(!game.snake_is_alive(1));
    }
}

#[test]
fn test_valid_moves() {

    let game = Game::parse(
        r#"
        . . . . . . . . . . .
        . . . . . . . . . . .
        . . . . . . . . . . .
        . . . . . . . . . . .
        . . . . . . . . . . .
        . . . . . . . . . . .
        . . . . . . . . . . .
        . . . . . . . . . . .
        . . . . . . . . . . .
        . . . . v 1 < . . . .
        . . . . > 0 ^ . . . ."#,
    )
    .unwrap();

    assert_eq!(
        game.snakes[0].body,
        VecDeque::from(vec![Vec2D::new(4, 1), Vec2D::new(4, 0), Vec2D::new(5, 0)])
    );
    assert_eq!(
        game.snakes[1].body,
        VecDeque::from(vec![Vec2D::new(6, 0), Vec2D::new(6, 1), Vec2D::new(5, 1)])
    );

    assert_eq!(game.valid_moves(0).to_vec(), vec![Right]);
}

#[test]
fn parse_rejects_ragged_and_empty_boards() {
    assert!(Game::parse(". . .\n. .").is_none());
    assert!(Game::parse("   \n  ").is_none());
    assert!(Game::parse("").is_none());
}

#[test]
fn parse_single_row() {
    let game = Game::parse("0 < < o .").unwrap();
    assert_eq!(game.grid.width, 5);
    assert_eq!(game.grid.height, 1);
    assert_eq!(game.snakes.len(), 1);
    assert_eq!(game.snakes[0].health, 100);
    assert_eq!(
        game.snakes[0].body,
        VecDeque::from(vec![Vec2D::new(2, 0), Vec2D::new(1, 0), Vec2D::new(0, 0)])
    );
    assert!(game.grid.get(Vec2D::new(3, 0)).t == CellT::Food);
    assert!(game.grid.get(Vec2D::new(4, 0)).t == CellT::Free);
}

#[test]
fn head_on_equal_length_is_a_match() {
    let mut game = Game::parse(
        r#"
        . . . . .
        > 0 . 1 <
        . . . . ."#,
    )
    .unwrap();
    assert_eq!(game.outcome(), Outcome::Running);
    game.step(&[Right, Left]);
    assert_eq!(game.snakes[0].health, 0);
    assert_eq!(game.snakes[1].health, 0);
    assert!(game.snakes[0].body.is_empty());
    assert_eq!(game.outcome(), Outcome::Match);
    assert!(game.grid.get(Vec2D::new(2, 1)).t == CellT::Free);
    assert!(game.grid.get(Vec2D::new(0, 1)).t == CellT::Free);
}

#[test]
fn head_on_shorter_body_dies() {
    let mut game = Game::parse(
        r#"
        . . . . . .
        > > 0 . 1 <
        . . . . . ."#,
    )
    .unwrap();
    assert_eq!(game.snakes[0].body.len(), 3);
    // Lengthen body 0 by doubling its tail.
    game.snakes[0].body.push_front(Vec2D::new(0, 1));
    game.step(&[Right, Left]);
    assert!(game.snake_is_alive(0));
    assert!(!game.snake_is_alive(1));
    assert_eq!(game.outcome(), Outcome::Winner(0));
    assert!(game.grid.get(Vec2D::new(3, 1)).t == CellT::Owned);
}

#[test]
fn eating_grows_and_restores_health() {
    let mut game = Game::parse(". . . . .\n> > 0 o .\n. . . . .").unwrap();
    game.snakes[0].health = 40;
    let len = game.snakes[0].body.len();
    game.step(&[Right]);
    assert_eq!(game.snakes[0].body.len(), len + 1);
    assert_eq!(game.snakes[0].health, 100);
    assert_eq!(game.snakes[0].head(), Vec2D::new(3, 1));
    // The doubled tail stays for one step.
    game.step(&[Right]);
    assert_eq!(game.snakes[0].body.len(), len + 1);
    assert_eq!(game.snakes[0].health, 99);
    assert_eq!(game.turn, 2);
}

#[test]
fn hazard_costs_more_and_health_floors_at_zero() {
    let body = VecDeque::from(vec![Vec2D::new(0, 0), Vec2D::new(1, 0), Vec2D::new(2, 0)]);
    let snakes = vec![Snake::new(body, 50)];
    let mut game = Game::new(0, 5, 1, snakes, &[], &[Vec2D::new(3, 0)]);
    assert!(game.grid.get(Vec2D::new(3, 0)).hazard);
    game.step(&[Right]);
    assert_eq!(game.snakes[0].health, 35);
    game.snakes[0].health = 1;
    game.step(&[Right]);
    assert_eq!(game.snakes[0].health, 0);
    assert!(!game.snake_is_alive(0));
    assert_eq!(game.outcome(), Outcome::Match);
    for x in 0..5 {
        assert!(game.grid.get(Vec2D::new(x, 0)).t == CellT::Free);
    }
}

#[test]
fn leaving_the_board_kills() {
    let mut game = Game::parse("0 < <\n. . .").unwrap();
    game.step(&[Up]);
    assert!(!game.snake_is_alive(0));
    assert!(game.snakes[0].body.is_empty());
}

#[test]
fn tail_cell_is_legal_unless_doubled() {
    // A 2x2 loop: the head may follow its own tail.
    let mut game = Game::parse("v <\n> 0").unwrap();
    assert_eq!(
        game.snakes[0].body,
        VecDeque::from(vec![
            Vec2D::new(1, 1),
            Vec2D::new(0, 1),
            Vec2D::new(0, 0),
            Vec2D::new(1, 0),
        ])
    );
    assert!(game.move_is_valid(0, Up));
    assert_eq!(game.valid_moves(0).to_vec(), vec![Up]);
    // With the tail doubled it stays, so the move is no longer legal.
    game.snakes[0].body.push_front(Vec2D::new(1, 1));
    assert!(!game.move_is_valid(0, Up));
    assert_eq!(game.valid_moves(0).len(), 0);
}

#[test]
fn dead_body_has_no_moves() {
    let mut game = Game::parse("0 < < . .").unwrap();
    game.snakes[0].health = 0;
    assert_eq!(game.valid_moves(0).len(), 0);
    assert!(!game.move_is_valid(0, Direction::Right));
    assert_eq!(game.valid_moves(7).len(), 0);
    assert_eq!(game.outcome(), Outcome::Match);
}

#[test]
fn every_listed_move_is_legal() {
    let game = Game::parse(
        r#"
        . . . . .
        . v < 1 .
        . > 0 . .
        . . . . ."#,
    )
    .unwrap();
    for id in 0..2u8 {
        let head = game.snakes[id as usize].head();
        for d in game.valid_moves(id).to_vec() {
            let p = head.apply(d);
            assert!(game.grid.has(p));
            let cell = game.grid.get(p);
            assert!(cell.t != CellT::Owned || game.snakes.iter().any(|s| s.body[0] == p && s.body[1] != p));
        }
    }
}

#[test]
fn crash_into_rival_body_keeps_rival_cells_owned() {
    // Body 1 runs into the third segment of the four-long body 0.
    let long = VecDeque::from(vec![
        Vec2D::new(0, 2),
        Vec2D::new(1, 2),
        Vec2D::new(2, 2),
        Vec2D::new(3, 2),
    ]);
    let short = VecDeque::from(vec![Vec2D::new(2, 0), Vec2D::new(2, 0), Vec2D::new(2, 1)]);
    let mut game = Game::new(0, 6, 5, vec![Snake::new(long, 100), Snake::new(short, 100)], &[], &[]);
    game.step(&[Right, Up]);
    assert!(game.snake_is_alive(0));
    assert!(!game.snake_is_alive(1));
    for p in game.snakes[0].body.clone() {
        assert!(game.grid.get(p).t == CellT::Owned);
    }
    assert!(game.grid.get(Vec2D::new(2, 1)).t == CellT::Free);
    assert!(game.grid.get(Vec2D::new(2, 0)).t == CellT::Free);
    let owned = (0..6)
        .flat_map(|x| (0..5).map(move |y| Vec2D::new(x, y)))
        .filter(|&p| game.grid.get(p).t == CellT::Owned)
        .count();
    assert_eq!(owned, 4);
}

#[test]
fn parse_splits_on_unicode_whitespace() {
    // U+3000 separates tokens like a space does.
    let game = Game::parse(".\u{3000}.\n. .").unwrap();
    assert_eq!(game.grid.width, 2);
    assert_eq!(game.grid.height, 2);
    assert!(Game::parse(". .\u{3000}.\n. .").is_none());
    assert!(Game::parse("\u{a0}0 <\u{2003}").is_some());
}

#[test]
fn parse_rejects_rows_of_unequal_length() {
    // 2 + 1 + 3 tokens: divisible by the row count but not rectangular.
    assert!(Game::parse(". .\n.\n. . .").is_none());
}
