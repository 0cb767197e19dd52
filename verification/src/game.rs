//! The game: repeated `Generation -> Rule -> next Generation` transitions,
//! and the pacing arithmetic of the animation loop.

use crate::generation::{neighbour_count, Generation};
use crate::rule::neighbourhood::{Neighbourhood, Pattern};
use crate::rule::{spec_default_rule, Rule};
use vstd::prelude::*;

verus! {

/// Whether the cell `(x, y)` is alive in the next generation: a live cell
/// stays alive when its neighbour count is in the survival set, a dead cell
/// comes alive when its neighbour count is in the birth set.
pub open spec fn next_cell(
    g: Seq<Seq<bool>>,
    nh: Seq<(i32, i32)>,
    rule: Rule,
    x: int,
    y: int,
) -> bool {
    let count = neighbour_count(g, nh, x, y) as int;
    (g[y][x] && rule.survives(count)) || (!g[y][x] && rule.births(count))
}

/// How long to sleep before the next frame so that frames fire roughly
/// `delay_ms` apart: the time the last step and render took is taken off
/// the nominal delay, down to a floor of zero.
pub fn pacing_sleep(delay_ms: u64, elapsed_ms: u64) -> (r: u64)
    ensures
        r as int == if elapsed_ms < delay_ms {
            delay_ms - elapsed_ms
        } else {
            0int
        },
        elapsed_ms >= delay_ms ==> r == 0,
        r <= delay_ms,
{
    if elapsed_ms < delay_ms {
        delay_ms - elapsed_ms
    } else {
        0
    }
}

/// The still-life law: on a grid whose only live cells are one two-by-two
/// block, wholly on the grid, the default rule over a Moore range-1
/// neighbourhood maps every cell to itself — the block neither grows nor
/// dies, wherever it sits and however large the grid is.
#[verifier::rlimit(60)]
pub proof fn lemma_block_still_life(g: Seq<Seq<bool>>, nh: Seq<(i32, i32)>, bx: int, by: int)
    requires
        crate::generation::grid_wf(g),
        0 <= bx,
        bx + 1 < g[0].len(),
        0 <= by,
        by + 1 < g.len(),
        forall|x: int, y: int|
            #![trigger g[y][x]]
            0 <= y < g.len() && 0 <= x < g[0].len() ==> (g[y][x] <==> (bx <= x <= bx + 1 && by <= y
                <= by + 1)),
        forall|j: int|
            0 <= j < nh.len() ==> crate::rule::neighbourhood::moore_offset(1, #[trigger] nh[j]),
        forall|o: (i32, i32)|
            #![trigger nh.contains(o)]
            crate::rule::neighbourhood::moore_offset(1, o) ==> nh.contains(o),
        forall|k1: int, k2: int| 0 <= k1 < k2 < nh.len() ==> nh[k1] != nh[k2],
    ensures
        forall|x: int, y: int|
            0 <= y < g.len() && 0 <= x < g[0].len() ==> next_cell(
                g,
                nh,
                spec_default_rule(),
                x,
                y,
            ) == g[y][x],
{
    assert(forall|n: u16| n < 16 ==> (((8u16 >> n) & 1u16 == 1u16) <==> n == 3)) by (bit_vector);
    assert(forall|n: u16|
        n < 16 ==> (((12u16 >> n) & 1u16 == 1u16) <==> (n == 2 || n == 3))) by (bit_vector);
    assert forall|x: int, y: int|
        0 <= y < g.len() && 0 <= x < g[0].len() implies next_cell(g, nh, spec_default_rule(), x, y)
        == g[y][x] by {
        crate::generation::lemma_moore1_neighbour_count(g, nh, x, y);
        let count = crate::generation::neighbour_count(g, nh, x, y) as int;
        assert(0 <= count <= 8);
    }
}

/// Orchestrates repeated generation steps: it owns the current generation,
/// the rule, and the neighbourhood the counts are taken over.
pub struct Game {
    /// The generation the next step starts from.
    pub current_generation: Generation,
    /// The birth/survival rule.
    pub rule: Rule,
    /// The offsets counted as adjacent; the classic full square around each
    /// cell.
    pub neighbourhood: Neighbourhood,
}

impl Game {
    /// A usable game: its generation is well-formed and its neighbourhood
    /// is small enough for the counts to fit their cells.
    pub open spec fn wf(self) -> bool {
        &&& self.current_generation.wf()
        &&& self.neighbourhood@.len() <= 127
    }

    /// Builds a game from a starting generation and an optional rule; with
    /// no rule the default rule plays. Neighbour counts are taken over the
    /// Moore neighbourhood of range 1, the classic eight cells around each
    /// cell.
    pub fn new(current_generation: Generation, rule: Option<Rule>) -> (result: Game)
        requires
            current_generation.wf(),
        ensures
            result.wf(),
            result.current_generation == current_generation,
            result.rule == match rule {
                Some(r) => r,
                None => spec_default_rule(),
            },
            forall|o: (i32, i32)|
                #![trigger result.neighbourhood@.contains(o)]
                crate::rule::neighbourhood::moore_offset(1, o) ==> result.neighbourhood@.contains(
                    o,
                ),
            forall|k: int|
                0 <= k < result.neighbourhood@.len()
                    ==> crate::rule::neighbourhood::moore_offset(
                    1,
                    #[trigger] result.neighbourhood@[k],
                ),
            forall|k1: int, k2: int|
                0 <= k1 < k2 < result.neighbourhood@.len() ==> result.neighbourhood@[k1]
                    != result.neighbourhood@[k2],
    {
        let rule = match rule {
            Some(r) => r,
            None => Rule::default(),
        };
        let neighbourhood = Pattern::Moore.generate(1);
        proof {
            assert((2 * 1int + 1) * (2 * 1int + 1) == 9) by (nonlinear_arith);
            assert(neighbourhood@.len() == 8);
        }
        Game { current_generation, rule, neighbourhood }
    }

    /// Builds the next generation: neighbour counts over the game's
    /// neighbourhood, then the rule applied to every cell. The new grid has
    /// the same dimensions as the old one.
    #[verifier::loop_isolation(false)]
    pub fn next_generation(&self) -> (result: Generation)
        requires
            self.wf(),
        ensures
            result.wf(),
            result@.len() == self.current_generation@.len(),
            forall|y: int|
                0 <= y < result@.len() ==> (#[trigger] result@[y]).len()
                    == self.current_generation@[0].len(),
            forall|x: int, y: int|
                #![trigger result@[y][x]]
                0 <= y < self.current_generation@.len() && 0 <= x
                    < self.current_generation@[0].len() ==> result@[y][x] == next_cell(
                    self.current_generation@,
                    self.neighbourhood@,
                    self.rule,
                    x,
                    y,
                ),
    {
        let neigbours = self.current_generation.neigbour_counts(&self.neighbourhood);
        let width = neigbours[0].len();
        let height = neigbours.len();
        let ghost g = self.current_generation@;
        let mut grid: Vec<Vec<bool>> = Vec::new();
        let mut y: usize = 0;
        while y < height
            invariant
                y == grid@.len(),
                y <= height,
                forall|y2: int| 0 <= y2 < y ==> (#[trigger] grid@[y2])@.len() == width,
                forall|x2: int, y2: int|
                    #![trigger grid@[y2]@[x2]]
                    0 <= y2 < y && 0 <= x2 < width ==> grid@[y2]@[x2] == next_cell(
                        g,
                        self.neighbourhood@,
                        self.rule,
                        x2,
                        y2,
                    ),
            decreases height - y,
        {
            let mut row: Vec<bool> = Vec::new();
            let mut x: usize = 0;
            while x < width
                invariant
                    x == row@.len(),
                    x <= width,
                    y < height,
                    forall|x2: int|
                        #![trigger row@[x2]]
                        0 <= x2 < x ==> row@[x2] == next_cell(
                            g,
                            self.neighbourhood@,
                            self.rule,
                            x2,
                            y as int,
                        ),
                decreases width - x,
            {
                let alive = self.current_generation.alive(&x, &y);
                let count = neigbours[y][x] as u32;
                row.push(self.rule.apply(&alive, &count));
                x += 1;
            }
            grid.push(row);
            y += 1;
        }
        Generation::new(grid)
    }

    /// Advances the game one step: the current generation is replaced
    /// wholesale with the next one; the rule and the neighbourhood stay.
    pub fn step(&mut self)
        requires
            old(self).wf(),
        ensures
            final(self).wf(),
            final(self).rule == old(self).rule,
            final(self).neighbourhood == old(self).neighbourhood,
            final(self).current_generation@.len() == old(self).current_generation@.len(),
            forall|y: int|
                0 <= y < final(self).current_generation@.len()
                    ==> (#[trigger] final(self).current_generation@[y]).len()
                    == old(self).current_generation@[0].len(),
            forall|x: int, y: int|
                #![trigger final(self).current_generation@[y][x]]
                0 <= y < old(self).current_generation@.len()
                    && 0 <= x < old(self).current_generation@[0].len()
                    ==> final(self).current_generation@[y][x] == next_cell(
                    old(self).current_generation@,
                    old(self).neighbourhood@,
                    old(self).rule,
                    x,
                    y,
                ),
    {
        self.current_generation = self.next_generation();
    }
}

} // verus!
