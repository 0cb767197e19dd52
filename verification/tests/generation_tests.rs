use life::generation::Generation;
use life::rule::neighbourhood::Pattern;

#[test]
fn test_neighbour_counts_single_center() {
    // A single live center cell in a 3x3 grid under Moore range 1 puts a
    // count of 1 in all 8 surrounding cells and 0 at the center; nothing
    // wraps around the edges.
    let gen = Generation::new(vec![
        vec![false, false, false],
        vec![false, true, false],
        vec![false, false, false],
    ]);
    let counts = gen.neigbour_counts(&Pattern::Moore.generate(1));
    assert_eq!(counts, vec![vec![1, 1, 1], vec![1, 0, 1], vec![1, 1, 1]]);
}

#[test]
fn test_neighbour_counts_corner_no_wraparound() {
    // A live corner cell only reaches its three on-grid neighbours.
    let gen = Generation::new(vec![
        vec![true, false, false],
        vec![false, false, false],
        vec![false, false, false],
    ]);
    let counts = gen.neigbour_counts(&Pattern::Moore.generate(1));
    assert_eq!(counts, vec![vec![0, 1, 0], vec![1, 1, 0], vec![0, 0, 0]]);
}

#[test]
fn test_neighbour_counts_von_neumann() {
    let gen = Generation::new(vec![
        vec![false, false, false],
        vec![false, true, false],
        vec![false, false, false],
    ]);
    let counts = gen.neigbour_counts(&Pattern::VonNeumann.generate(1));
    assert_eq!(counts, vec![vec![0, 1, 0], vec![1, 0, 1], vec![0, 1, 0]]);
}

#[test]
fn test_alive() {
    let gen = Generation::new(vec![vec![false, true], vec![true, false]]);
    assert_eq!(false, gen.alive(&0, &0));
    assert_eq!(true, gen.alive(&1, &0));
    assert_eq!(true, gen.alive(&0, &1));
    assert_eq!(false, gen.alive(&1, &1));
}

#[test]
fn test_generation_display() {
    let gen = Generation::new(vec![
        vec![false, true, false],
        vec![false, false, true],
        vec![true, true, true],
    ]);
    assert_eq!(" ▀▄\n▀▀▀", gen.render());

    let gen = Generation::new(vec![
        vec![false, false, true],
        vec![true, false, true],
        vec![false, true, true],
    ]);
    assert_eq!("▄ █\n ▀▀", gen.render());

    let gen = Generation::new(vec![
        vec![false, true, false],
        vec![false, true, false],
        vec![false, true, false],
    ]);
    assert_eq!(" █ \n ▀ ", gen.render());
}

fn count_live(gen: &Generation) -> usize {
    gen.grid.iter().map(|row| row.iter().filter(|c| **c).count()).sum()
}

#[test]
fn test_soup_density_bound() {
    // soup never produces more live cells than the amount requested;
    // duplicate random coordinates only reduce the count.
    let gen = Generation::soup(10, 8, 20);
    assert_eq!(gen.grid.len(), 8);
    for row in &gen.grid {
        assert_eq!(row.len(), 10);
    }
    assert!(count_live(&gen) <= 20);
}

#[test]
fn test_soup_zero_amount_is_all_dead() {
    let gen = Generation::soup(5, 4, 0);
    assert_eq!(count_live(&gen), 0);
}

#[test]
fn test_soup_positive_amount_leaves_a_live_cell() {
    // every random draw flips a cell alive and none is ever cleared
    let gen = Generation::soup(7, 5, 1);
    assert_eq!(count_live(&gen), 1);
    let gen = Generation::soup(4, 4, 6);
    assert!(count_live(&gen) >= 1);
}

#[test]
fn test_soup_full_amount_stays_bounded() {
    // Even asking for more flips than there are cells cannot exceed the
    // grid itself.
    let gen = Generation::soup(3, 3, 100);
    assert!(count_live(&gen) <= 9);
}
