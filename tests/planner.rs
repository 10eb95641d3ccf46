use std::collections::VecDeque;

use rand::rngs::SmallRng;
use rand::SeedableRng;

use hadar::agents::{is_threatened, move_check, nearest_food, random, Agent, RandomAgent, StarAgent, MAX_BOARD_SIZE};
use hadar::env::{Direction, Vec2D};
use hadar::game::{Game, Snake};
use hadar::grid::CellT;
use hadar::request::{Battlesnake, Board, GameInfo, GameRequest};

const SCENARIO_A: &str = r#"
    . . . . . . . . . . .
    . . . . . . . . o . .
    . . . . . . . . . . .
    . . . . . . . . . . .
    . . . . . 0 < < . . .
    . . . . . . . ^ . . .
    . . . . . > > ^ . . .
    . . . . . . . . . . .
    . . . . . . . . . . .
    v . . . . . . . . . .
    1 . . . . . . . . . ."#;

fn open_board(w: usize, h: usize) -> Game {
    Game::new(0, w, h, Vec::new(), &[], &[])
}

#[test]
fn scenario_a_moves_towards_food() {
    let game = Game::parse(SCENARIO_A).unwrap();
    let target = Vec2D::new(8, 9);
    for seed in 0..8 {
        let mut rng = SmallRng::seed_from_u64(seed);
        let d = StarAgent { weights: [0, 0, 0] }.step(&game, &mut rng);
        let head = game.snakes[0].head();
        let next = head.apply(d);
        assert!(next.manhattan(target) < head.manhattan(target));
        assert!(game.grid.get(next).t != CellT::Owned);
        assert_eq!(d, Direction::Up);
    }
}

#[test]
fn scenario_c_no_legal_move_gives_up() {
    let game = Game::parse("> > 0").unwrap();
    assert_eq!(game.valid_moves(0).len(), 0);
    let mut rng = SmallRng::seed_from_u64(3);
    assert_eq!(StarAgent { weights: [0, 0, 0] }.step(&game, &mut rng), Direction::Up);
    let mut nots = Vec::new();
    assert_eq!(random(&game, &mut nots, &mut rng), Direction::Up);
    assert_eq!(RandomAgent.step(&game, &mut rng), Direction::Up);
}

#[test]
fn same_seed_same_decision() {
    let text = ". . . . .\n. . 0 . .\n. . ^ . .\n. . ^ . .\n. . . . .";
    let a = Game::parse(text).unwrap();
    let b = Game::parse(text).unwrap();
    for seed in 0..20 {
        let mut r1 = SmallRng::seed_from_u64(seed);
        let mut r2 = SmallRng::seed_from_u64(seed);
        let agent = Agent::default();
        assert_eq!(
            agent.step_internal(&a, MAX_BOARD_SIZE, &mut r1),
            agent.step_internal(&b, MAX_BOARD_SIZE, &mut r2)
        );
    }
}

#[test]
fn random_fallback_picks_a_legal_move() {
    let game = Game::parse(". . . . .\n. . 0 . .\n. . ^ . .\n. . ^ . .\n. . . . .").unwrap();
    let legal = game.valid_moves(0).to_vec();
    assert_eq!(legal, vec![Direction::Up, Direction::Right, Direction::Left]);
    let mut seen = Vec::new();
    for seed in 0..40 {
        let mut rng = SmallRng::seed_from_u64(seed);
        let d = RandomAgent.step(&game, &mut rng);
        assert!(legal.contains(&d));
        if !seen.contains(&d) {
            seen.push(d);
        }
        let mut nots = Vec::new();
        let d = random(&game, &mut nots, &mut rng);
        assert!(legal.contains(&d));
    }
    assert!(seen.len() >= 2);
}

#[test]
fn threatened_move_is_replaced() {
    // Rival 1 is as long as self and can reach (2, 3), the cell above self's head.
    let game = Game::parse(
        r#"
        . . . . .
        . . . 1 .
        . . 0 ^ .
        . . ^ ^ .
        . . ^ . ."#,
    )
    .unwrap();
    assert_eq!(game.snakes[0].body.len(), 3);
    assert_eq!(game.snakes[1].body.len(), 3);
    assert!(is_threatened(&game, Direction::Up));
    assert!(!is_threatened(&game, Direction::Left));
    for seed in 0..10 {
        let mut rng = SmallRng::seed_from_u64(seed);
        let mut nots = Vec::new();
        let d = move_check(&game, Direction::Up, &mut nots, &mut rng);
        assert_eq!(d, Direction::Left);
        assert_eq!(nots, vec![Direction::Up]);
        let mut nots = vec![Direction::Left];
        let d = random(&game, &mut nots, &mut rng);
        assert_eq!(d, Direction::Up);
        assert_eq!(nots, vec![Direction::Left, Direction::Up]);
        let mut nots = Vec::new();
        assert_eq!(move_check(&game, Direction::Left, &mut nots, &mut rng), Direction::Left);
        assert!(nots.is_empty());
    }
}

#[test]
fn nearest_food_prefers_first_in_row_order() {
    let game = Game::parse("o . . . o\n. . 0 < <\no . . . o").unwrap();
    let head = game.snakes[0].head();
    assert_eq!(head, Vec2D::new(2, 1));
    assert_eq!(nearest_food(&game, head), Some(Vec2D::new(0, 0)));
    let empty = Game::parse(". . 0 < <").unwrap();
    assert_eq!(nearest_food(&empty, Vec2D::new(2, 0)), None);
}

#[test]
fn open_grid_route_is_shortest() {
    let game = open_board(11, 11);
    let start = Vec2D::new(1, 1);
    for goal in [Vec2D::new(8, 5), Vec2D::new(1, 1), Vec2D::new(0, 10), Vec2D::new(10, 0)] {
        let path = game.a_star(start, goal, &[0, 0, 0]).unwrap();
        assert_eq!(path.len() as u32, start.manhattan(goal) + 1);
        assert_eq!(path[0], start);
        assert_eq!(*path.last().unwrap(), goal);
        for w in path.windows(2) {
            assert_eq!(w[0].manhattan(w[1]), 1);
            assert!(game.grid.get(w[1]).t != CellT::Owned);
        }
    }
}

#[test]
fn enclosed_goal_has_no_route() {
    // Self's body walls in the cell (1, 1).
    let body = VecDeque::from(vec![
        Vec2D::new(0, 0),
        Vec2D::new(1, 0),
        Vec2D::new(2, 0),
        Vec2D::new(2, 1),
        Vec2D::new(2, 2),
        Vec2D::new(1, 2),
        Vec2D::new(0, 2),
        Vec2D::new(0, 1),
    ]);
    let game = Game::new(0, 6, 6, vec![Snake::new(body.clone(), 100)], &[], &[]);
    assert!(game.a_star(Vec2D::new(5, 5), Vec2D::new(1, 1), &[0, 0, 0]).is_none());
    let mut doubled = body;
    doubled.push_front(Vec2D::new(0, 0));
    let game = Game::new(0, 6, 6, vec![Snake::new(doubled, 100)], &[], &[]);
    assert!(game.a_star(Vec2D::new(5, 5), Vec2D::new(1, 1), &[0, 0, 0]).is_none());
}

#[test]
fn weighted_route_still_reaches_goal() {
    let game = Game::new(0, 7, 7, Vec::new(), &[], &[Vec2D::new(3, 3)]);
    let path = game.a_star(Vec2D::new(0, 3), Vec2D::new(6, 3), &[50, 3, 2]).unwrap();
    assert_eq!(path[0], Vec2D::new(0, 3));
    assert_eq!(*path.last().unwrap(), Vec2D::new(6, 3));
    for w in path.windows(2) {
        assert_eq!(w[0].manhattan(w[1]), 1);
    }
}

#[test]
fn oversized_board_skips_search() {
    let mut text = String::new();
    for y in 0..21 {
        for x in 0..21 {
            text.push_str(if (x, y) == (10, 10) { "0 " } else if (x, y) == (9, 10) { "> " } else { ". " });
        }
        text.push('\n');
    }
    let game = Game::parse(&text).unwrap();
    assert_eq!(game.grid.width, 21);
    let legal = game.valid_moves(0).to_vec();
    for seed in 0..5 {
        let mut rng = SmallRng::seed_from_u64(seed);
        let d = Agent::default().step_internal(&game, MAX_BOARD_SIZE, &mut rng);
        assert!(legal.contains(&d));
    }
}

fn bs(id: &str, body: &[(i16, i16)]) -> Battlesnake {
    Battlesnake {
        id: id.to_string(),
        health: 90,
        body: body.iter().map(|&(x, y)| Vec2D::new(x, y)).collect(),
    }
}

fn request(you: Battlesnake, others: Vec<Battlesnake>) -> GameRequest {
    let mut snakes = vec![you.clone()];
    snakes.extend(others);
    GameRequest {
        game: GameInfo { timeout: 500 },
        turn: 7,
        board: Board {
            width: 11,
            height: 11,
            food: vec![Vec2D::new(5, 5)],
            hazards: vec![Vec2D::new(0, 10)],
            snakes,
        },
        you,
    }
}

#[test]
fn snapshot_with_few_bodies_keeps_all() {
    let you = bs("me", &[(1, 1), (1, 0), (0, 0)]);
    let req = request(you, vec![bs("a", &[(9, 9), (9, 8)])]);
    let game = Game::from_request(&req);
    assert_eq!(game.turn, 7);
    assert_eq!(game.snakes.len(), 2);
    assert_eq!(
        game.snakes[0].body,
        VecDeque::from(vec![Vec2D::new(0, 0), Vec2D::new(1, 0), Vec2D::new(1, 1)])
    );
    assert_eq!(
        game.snakes[1].body,
        VecDeque::from(vec![Vec2D::new(9, 8), Vec2D::new(9, 8), Vec2D::new(9, 9)])
    );
    assert_eq!(game.snakes[1].health, 90);
    assert!(game.grid.get(Vec2D::new(5, 5)).t == CellT::Food);
    assert!(game.grid.get(Vec2D::new(0, 10)).hazard);
    assert!(game.grid.get(Vec2D::new(9, 8)).t == CellT::Owned);
}

#[test]
fn crowded_snapshot_keeps_three_nearest() {
    let you = bs("me", &[(5, 5), (5, 4), (5, 3)]);
    let others = vec![
        bs("far", &[(10, 10), (10, 9), (10, 8)]),
        bs("near", &[(5, 7), (6, 7), (7, 7)]),
        bs("mid", &[(0, 5), (0, 6), (0, 7)]),
        bs("close", &[(7, 5), (8, 5), (9, 5)]),
        bs("farther", &[(0, 0), (1, 0), (2, 0)]),
    ];
    let req = request(you, others);
    let game = Game::from_request(&req);
    assert_eq!(game.snakes.len(), 4);
    let heads: Vec<Vec2D> = game.snakes[1..].iter().map(|s| s.head()).collect();
    assert_eq!(heads, vec![Vec2D::new(5, 7), Vec2D::new(7, 5), Vec2D::new(0, 5)]);
}

#[test]
fn snake_from_reverses_and_pads() {
    let s = Snake::from(&bs("x", &[(3, 3)]));
    assert_eq!(s.body, VecDeque::from(vec![Vec2D::new(3, 3); 3]));
    let s = Snake::from(&bs("x", &[(3, 3), (3, 2), (3, 1), (2, 1)]));
    assert_eq!(
        s.body,
        VecDeque::from(vec![Vec2D::new(2, 1), Vec2D::new(3, 1), Vec2D::new(3, 2), Vec2D::new(3, 3)])
    );
    assert_eq!(s.head(), Vec2D::new(3, 3));
    assert!(s.alive());
}
