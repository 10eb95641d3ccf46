use hadar::env::{Direction, Vec2D};
use hadar::game::Game;
use hadar::render::{Glyph, Tile};

#[test]
fn tiles_show_bodies_food_and_hazards() {
    let mut game = Game::parse(". . o\n0 < <").unwrap();
    game.grid.add_hazards(&[Vec2D::new(2, 1)]);
    let tiles = game.tiles();
    assert_eq!(tiles.len(), 6);
    // Bottom row first: the body runs from (2, 0) to the head at (0, 0).
    assert_eq!(tiles[0], Tile { glyph: Glyph::Head(0), hazard: false });
    assert_eq!(tiles[1], Tile { glyph: Glyph::Tail(Direction::Left, 0), hazard: false });
    assert_eq!(tiles[2], Tile { glyph: Glyph::Tail(Direction::Left, 0), hazard: false });
    assert_eq!(tiles[3], Tile { glyph: Glyph::Free, hazard: false });
    assert_eq!(tiles[5], Tile { glyph: Glyph::Food, hazard: true });
}

#[test]
fn dead_bodies_are_not_drawn() {
    let mut game = Game::parse(". . o\n0 < <").unwrap();
    game.snakes[0].health = 0;
    let tiles = game.tiles();
    assert_eq!(tiles[0].glyph, Glyph::Free);
    assert_eq!(tiles[5].glyph, Glyph::Food);
}

#[test]
fn later_body_is_drawn_over_earlier_one() {
    let mut game = Game::parse("0 < < . .").unwrap();
    game.snakes.push(hadar::game::Snake::new(
        std::collections::VecDeque::from(vec![Vec2D::new(3, 0), Vec2D::new(2, 0), Vec2D::new(1, 0)]),
        100,
    ));
    let tiles = game.tiles();
    assert_eq!(tiles[0].glyph, Glyph::Head(0));
    assert_eq!(tiles[1].glyph, Glyph::Head(1));
    assert_eq!(tiles[2].glyph, Glyph::Tail(Direction::Left, 1));
    assert_eq!(tiles[3].glyph, Glyph::Tail(Direction::Left, 1));
}
