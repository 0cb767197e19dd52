use life::game::{pacing_sleep, Game};
use life::generation::Generation;

type Grid = Vec<Vec<bool>>;

#[test]
fn test_game_next_generation() {
    // A vertical blinker becomes a horizontal one.
    let grid: Grid = vec![
        vec![false, true, false],
        vec![false, true, false],
        vec![false, true, false],
    ];
    let expected: Grid = vec![
        vec![false, false, false],
        vec![true, true, true],
        vec![false, false, false],
    ];
    let game = Game::new(Generation::new(grid), None);
    let gen = game.next_generation();
    assert_eq!(expected, gen.grid);

    // A 2x2 block is a still life.
    let grid: Grid = vec![
        vec![false, false, false, false],
        vec![false, true, true, false],
        vec![false, true, true, false],
        vec![false, false, false, false],
    ];
    let expected = grid.clone();
    let game = Game::new(Generation::new(grid), None);
    let gen = game.next_generation();
    assert_eq!(expected, gen.grid);
}

#[test]
fn test_blinker_oscillates_with_period_two() {
    let vertical: Grid = vec![
        vec![false, true, false],
        vec![false, true, false],
        vec![false, true, false],
    ];
    let horizontal: Grid = vec![
        vec![false, false, false],
        vec![true, true, true],
        vec![false, false, false],
    ];
    let mut game = Game::new(Generation::new(vertical.clone()), None);
    game.step();
    assert_eq!(horizontal, game.current_generation.grid);
    game.step();
    assert_eq!(vertical, game.current_generation.grid);
}

#[test]
fn test_still_life_block_in_larger_grid() {
    let grid: Grid = vec![
        vec![false, false, false, false, false],
        vec![false, true, true, false, false],
        vec![false, true, true, false, false],
        vec![false, false, false, false, false],
    ];
    let expected = grid.clone();
    let mut game = Game::new(Generation::new(grid), None);
    game.step();
    assert_eq!(expected, game.current_generation.grid);
}

#[test]
fn test_pacing_subtracts_elapsed_time() {
    assert_eq!(pacing_sleep(16, 5), 11);
    assert_eq!(pacing_sleep(16, 0), 16);
}

#[test]
fn test_pacing_floor_is_zero() {
    // A step that took longer than the delay gives no sleep at all, never
    // a negative one.
    assert_eq!(pacing_sleep(16, 16), 0);
    assert_eq!(pacing_sleep(16, 1000), 0);
    assert_eq!(pacing_sleep(0, 0), 0);
}

#[test]
fn test_game_uses_given_rule() {
    // Under the Seeds rule (birth on 2, nothing survives) two adjacent live
    // cells die and their shared vertical neighbours are born.
    let grid: Grid = vec![
        vec![false, false, false, false],
        vec![false, true, true, false],
        vec![false, false, false, false],
    ];
    let rule = life::rule::Rule::parse("seeds").unwrap();
    let game = Game::new(Generation::new(grid), Some(rule));
    let gen = game.next_generation();
    let expected: Grid = vec![
        vec![false, true, true, false],
        vec![false, false, false, false],
        vec![false, true, true, false],
    ];
    assert_eq!(expected, gen.grid);
}
