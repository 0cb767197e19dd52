//! A generation: one time-step's full grid of alive/dead cells, and the
//! neighbour-counting algorithm over a chosen neighbourhood.

use crate::rule::neighbourhood::Neighbourhood;
use vstd::prelude::*;
use vstd::string::StringExecFns;

verus! {

/// A rectangular grid of cells, row-major: `grid[y][x]` is the cell in
/// column `x` of row `y`.
pub type Grid = Vec<Vec<bool>>;

/// The mathematical value of a grid: a sequence of rows of booleans.
pub open spec fn grid_view(g: Grid) -> Seq<Seq<bool>> {
    g@.map_values(|row: Vec<bool>| row@)
}

/// A well-formed grid: at least one row, at least one column, and every row
/// of the same length.
pub open spec fn grid_wf(g: Seq<Seq<bool>>) -> bool {
    &&& g.len() > 0
    &&& g[0].len() > 0
    &&& forall|y: int| 0 <= y < g.len() ==> (#[trigger] g[y]).len() == g[0].len()
}

/// The cell of `g` that reaches `(cx, cy)` through the offset `o` is on the
/// grid and alive.
pub open spec fn offset_hit(g: Seq<Seq<bool>>, o: (i32, i32), cx: int, cy: int) -> bool {
    let sx = cx - o.0;
    let sy = cy - o.1;
    &&& 0 <= sy < g.len()
    &&& 0 <= sx < g[0].len()
    &&& g[sy][sx]
}

/// How many of the first `k` offsets of `nh` reach `(cx, cy)` from a live
/// cell of `g`.
pub open spec fn count_hits(g: Seq<Seq<bool>>, nh: Seq<(i32, i32)>, cx: int, cy: int, k: int) -> nat
    decreases k,
{
    if k <= 0 {
        0
    } else {
        count_hits(g, nh, cx, cy, k - 1) + (if offset_hit(g, nh[k - 1], cx, cy) {
            1nat
        } else {
            0nat
        })
    }
}

/// The neighbour count of the cell `(cx, cy)`: how many offsets of `nh`
/// reach it from a live cell of `g`. An offset that appears twice counts
/// twice.
pub open spec fn neighbour_count(g: Seq<Seq<bool>>, nh: Seq<(i32, i32)>, cx: int, cy: int) -> nat {
    count_hits(g, nh, cx, cy, nh.len() as int)
}

/// How many live cells the grid holds.
pub open spec fn live_cells(g: Seq<Seq<bool>>) -> nat
    decreases g.len(),
{
    if g.len() == 0 {
        0
    } else {
        live_cells(g.drop_last()) + live_in_row(g.last(), g.last().len() as int)
    }
}

/// How many of the first `k` cells of one row are alive.
pub open spec fn live_in_row(row: Seq<bool>, k: int) -> nat
    decreases k,
{
    if k <= 0 {
        0
    } else {
        live_in_row(row, k - 1) + (if row[k - 1] {
            1nat
        } else {
            0nat
        })
    }
}

/// How many of the first `k` offsets of `nh` equal `(di, dj)`.
spec fn offs_count(nh: Seq<(i32, i32)>, di: int, dj: int, k: int) -> nat
    decreases k,
{
    if k <= 0 {
        0
    } else {
        offs_count(nh, di, dj, k - 1) + (if nh[k - 1].0 == di && nh[k - 1].1 == dj {
            1nat
        } else {
            0nat
        })
    }
}

/// The contributions that the first `u` cells of row `sy` scatter onto
/// `(cx, cy)`: a live cell at `(sx, sy)` contributes once for every offset
/// of `nh` equal to `(cx - sx, cy - sy)`.
spec fn scatter_row(g: Seq<Seq<bool>>, nh: Seq<(i32, i32)>, cx: int, cy: int, sy: int, u: int) -> nat
    decreases u,
{
    if u <= 0 {
        0
    } else {
        scatter_row(g, nh, cx, cy, sy, u - 1) + (if g[sy][u - 1] {
            offs_count(nh, cx - (u - 1), cy - sy, nh.len() as int)
        } else {
            0nat
        })
    }
}

/// The contributions that the first `v` rows of `g` scatter onto `(cx, cy)`.
spec fn scatter_grid(g: Seq<Seq<bool>>, nh: Seq<(i32, i32)>, cx: int, cy: int, v: int) -> nat
    decreases v,
{
    if v <= 0 {
        0
    } else {
        scatter_grid(g, nh, cx, cy, v - 1) + scatter_row(g, nh, cx, cy, v - 1, g[0].len() as int)
    }
}

/// A cell receives at most one hit per offset.
proof fn lemma_count_hits_le(g: Seq<Seq<bool>>, nh: Seq<(i32, i32)>, cx: int, cy: int, k: int)
    requires
        k >= 0,
    ensures
        count_hits(g, nh, cx, cy, k) <= k,
    decreases k,
{
    if k > 0 {
        lemma_count_hits_le(g, nh, cx, cy, k - 1);
    }
}

proof fn lemma_offs_count_mono(nh: Seq<(i32, i32)>, di: int, dj: int, k1: int, k2: int)
    requires
        0 <= k1 <= k2,
    ensures
        offs_count(nh, di, dj, k1) <= offs_count(nh, di, dj, k2),
    decreases k2,
{
    if k1 < k2 {
        lemma_offs_count_mono(nh, di, dj, k1, k2 - 1);
    }
}

proof fn lemma_scatter_row_mono(
    g: Seq<Seq<bool>>,
    nh: Seq<(i32, i32)>,
    cx: int,
    cy: int,
    sy: int,
    u1: int,
    u2: int,
)
    requires
        0 <= u1 <= u2,
    ensures
        scatter_row(g, nh, cx, cy, sy, u1) <= scatter_row(g, nh, cx, cy, sy, u2),
    decreases u2,
{
    if u1 < u2 {
        lemma_scatter_row_mono(g, nh, cx, cy, sy, u1, u2 - 1);
    }
}

proof fn lemma_scatter_grid_mono(
    g: Seq<Seq<bool>>,
    nh: Seq<(i32, i32)>,
    cx: int,
    cy: int,
    v1: int,
    v2: int,
)
    requires
        0 <= v1 <= v2,
    ensures
        scatter_grid(g, nh, cx, cy, v1) <= scatter_grid(g, nh, cx, cy, v2),
    decreases v2,
{
    if v1 < v2 {
        lemma_scatter_grid_mono(g, nh, cx, cy, v1, v2 - 1);
    }
}

/// `offs_count` only looks at the first `k` offsets, so it agrees on a
/// sequence and any of its prefixes.
proof fn lemma_offs_count_take(
    nh: Seq<(i32, i32)>,
    nh2: Seq<(i32, i32)>,
    di: int,
    dj: int,
    k: int,
)
    requires
        nh2.len() <= nh.len(),
        nh2 == nh.take(nh2.len() as int),
        0 <= k <= nh2.len(),
    ensures
        offs_count(nh2, di, dj, k) == offs_count(nh, di, dj, k),
    decreases k,
{
    if k > 0 {
        assert(nh2[k - 1] == nh[k - 1]);
        lemma_offs_count_take(nh, nh2, di, dj, k - 1);
    }
}

/// `count_hits` only looks at the first `k` offsets, so it agrees on a
/// sequence and any of its prefixes.
proof fn lemma_count_hits_take(
    g: Seq<Seq<bool>>,
    nh: Seq<(i32, i32)>,
    nh2: Seq<(i32, i32)>,
    cx: int,
    cy: int,
    k: int,
)
    requires
        nh2.len() <= nh.len(),
        nh2 == nh.take(nh2.len() as int),
        0 <= k <= nh2.len(),
    ensures
        count_hits(g, nh2, cx, cy, k) == count_hits(g, nh, cx, cy, k),
    decreases k,
{
    if k > 0 {
        assert(nh2[k - 1] == nh[k - 1]);
        lemma_count_hits_take(g, nh, nh2, cx, cy, k - 1);
    }
}

/// Dropping the last offset takes away the contribution of the one cell of
/// row `sy` that reaches `(cx, cy)` through it, if that cell is live and
/// among the first `u`.
proof fn lemma_scatter_row_last(
    g: Seq<Seq<bool>>,
    nh: Seq<(i32, i32)>,
    nh2: Seq<(i32, i32)>,
    cx: int,
    cy: int,
    sy: int,
    u: int,
)
    requires
        nh.len() > 0,
        nh2 == nh.take(nh.len() - 1),
        0 <= u,
    ensures
        scatter_row(g, nh, cx, cy, sy, u) == scatter_row(g, nh2, cx, cy, sy, u) + (if cy
            - nh[nh.len() - 1].1 == sy && 0 <= cx - nh[nh.len() - 1].0 < u && g[sy][cx - nh[nh.len()
            - 1].0] {
            1nat
        } else {
            0nat
        }),
    decreases u,
{
    let o = nh[nh.len() - 1];
    if u > 0 {
        lemma_scatter_row_last(g, nh, nh2, cx, cy, sy, u - 1);
        if g[sy][u - 1] {
            lemma_offs_count_take(nh, nh2, cx - (u - 1), cy - sy, nh.len() - 1);
            assert(offs_count(nh, cx - (u - 1), cy - sy, nh.len() as int) == offs_count(
                nh,
                cx - (u - 1),
                cy - sy,
                nh.len() - 1,
            ) + (if o.0 == cx - (u - 1) && o.1 == cy - sy {
                1nat
            } else {
                0nat
            }));
        }
    }
}

/// Dropping the last offset takes away the contribution of the one cell of
/// the first `v` rows that reaches `(cx, cy)` through it, if that cell is
/// live.
proof fn lemma_scatter_grid_last(
    g: Seq<Seq<bool>>,
    nh: Seq<(i32, i32)>,
    nh2: Seq<(i32, i32)>,
    cx: int,
    cy: int,
    v: int,
)
    requires
        nh.len() > 0,
        nh2 == nh.take(nh.len() - 1),
        0 <= v,
    ensures
        scatter_grid(g, nh, cx, cy, v) == scatter_grid(g, nh2, cx, cy, v) + (if 0 <= cy - nh[nh.len()
            - 1].1 < v && 0 <= cx - nh[nh.len() - 1].0 < g[0].len() && g[cy - nh[nh.len() - 1].1][cx
            - nh[nh.len() - 1].0] {
            1nat
        } else {
            0nat
        }),
    decreases v,
{
    if v > 0 {
        lemma_scatter_grid_last(g, nh, nh2, cx, cy, v - 1);
        lemma_scatter_row_last(g, nh, nh2, cx, cy, v - 1, g[0].len() as int);
    }
}

proof fn lemma_scatter_row_empty(
    g: Seq<Seq<bool>>,
    nh: Seq<(i32, i32)>,
    cx: int,
    cy: int,
    sy: int,
    u: int,
)
    requires
        nh.len() == 0,
        0 <= u,
    ensures
        scatter_row(g, nh, cx, cy, sy, u) == 0,
    decreases u,
{
    if u > 0 {
        lemma_scatter_row_empty(g, nh, cx, cy, sy, u - 1);
    }
}

proof fn lemma_scatter_grid_empty(g: Seq<Seq<bool>>, nh: Seq<(i32, i32)>, cx: int, cy: int, v: int)
    requires
        nh.len() == 0,
        0 <= v,
    ensures
        scatter_grid(g, nh, cx, cy, v) == 0,
    decreases v,
{
    if v > 0 {
        lemma_scatter_grid_empty(g, nh, cx, cy, v - 1);
        lemma_scatter_row_empty(g, nh, cx, cy, v - 1, g[0].len() as int);
    }
}

/// Scattering every live cell through every offset and gathering the hits
/// of a single cell count the same thing.
proof fn lemma_scatter_counts(g: Seq<Seq<bool>>, nh: Seq<(i32, i32)>, cx: int, cy: int)
    requires
        grid_wf(g),
    ensures
        scatter_grid(g, nh, cx, cy, g.len() as int) == neighbour_count(g, nh, cx, cy),
    decreases nh.len(),
{
    if nh.len() == 0 {
        lemma_scatter_grid_empty(g, nh, cx, cy, g.len() as int);
    } else {
        let nh2 = nh.take(nh.len() - 1);
        lemma_scatter_counts(g, nh2, cx, cy);
        lemma_scatter_grid_last(g, nh, nh2, cx, cy, g.len() as int);
        lemma_count_hits_take(g, nh, nh2, cx, cy, nh.len() - 1);
    }
}

/// The classic neighbour count: how many of the eight cells around
/// `(cx, cy)` are on the grid and alive.
pub open spec fn moore1_count(g: Seq<Seq<bool>>, cx: int, cy: int) -> int {
    (if offset_hit(g, (-1i32, -1i32), cx, cy) { 1int } else { 0int })
    + (if offset_hit(g, (0i32, -1i32), cx, cy) { 1int } else { 0int })
    + (if offset_hit(g, (1i32, -1i32), cx, cy) { 1int } else { 0int })
    + (if offset_hit(g, (-1i32, 0i32), cx, cy) { 1int } else { 0int })
    + (if offset_hit(g, (1i32, 0i32), cx, cy) { 1int } else { 0int })
    + (if offset_hit(g, (-1i32, 1i32), cx, cy) { 1int } else { 0int })
    + (if offset_hit(g, (0i32, 1i32), cx, cy) { 1int } else { 0int })
    + (if offset_hit(g, (1i32, 1i32), cx, cy) { 1int } else { 0int })
}

/// One summand of `moore1_count`, restricted to the offsets seen so far.
spec fn seen_hit(g: Seq<Seq<bool>>, nh: Seq<(i32, i32)>, k: int, o: (i32, i32), cx: int, cy: int) -> int {
    if nh.take(k).contains(o) && offset_hit(g, o, cx, cy) {
        1int
    } else {
        0int
    }
}

/// The running count over the first `k` offsets of a duplicate-free Moore
/// range-1 neighbourhood splits into the eight possible offsets.
proof fn lemma_moore1_partial(g: Seq<Seq<bool>>, nh: Seq<(i32, i32)>, cx: int, cy: int, k: int)
    requires
        0 <= k <= nh.len(),
        forall|j: int|
            0 <= j < nh.len() ==> crate::rule::neighbourhood::moore_offset(
                1,
                #[trigger] nh[j],
            ),
        forall|k1: int, k2: int| 0 <= k1 < k2 < nh.len() ==> nh[k1] != nh[k2],
    ensures
        count_hits(g, nh, cx, cy, k) == seen_hit(g, nh, k, (-1i32, -1i32), cx, cy) + seen_hit(
            g, nh, k, (0i32, -1i32), cx, cy) + seen_hit(g, nh, k, (1i32, -1i32), cx, cy)
            + seen_hit(g, nh, k, (-1i32, 0i32), cx, cy) + seen_hit(g, nh, k, (1i32, 0i32), cx, cy)
            + seen_hit(g, nh, k, (-1i32, 1i32), cx, cy) + seen_hit(g, nh, k, (0i32, 1i32), cx, cy)
            + seen_hit(g, nh, k, (1i32, 1i32), cx, cy),
    decreases k,
{
    if k > 0 {
        lemma_moore1_partial(g, nh, cx, cy, k - 1);
        let o = nh[k - 1];
        assert(crate::rule::neighbourhood::moore_offset(1, o));
        assert(!nh.take(k - 1).contains(o)) by {
            if nh.take(k - 1).contains(o) {
                let j = choose|j: int| 0 <= j < k - 1 && #[trigger] nh.take(k - 1)[j] == o;
                assert(nh[j] == o);
            }
        }
        assert(nh.take(k).contains(o)) by {
            assert(nh.take(k)[k - 1] == o);
        }
        assert forall|p: (i32, i32)| p != o implies nh.take(k).contains(p) == nh.take(
            k - 1,
        ).contains(p) by {
            if nh.take(k - 1).contains(p) {
                let j = choose|j: int| 0 <= j < k - 1 && #[trigger] nh.take(k - 1)[j] == p;
                assert(nh.take(k)[j] == p);
            }
            if nh.take(k).contains(p) {
                let j = choose|j: int| 0 <= j < k && #[trigger] nh.take(k)[j] == p;
                assert(j < k - 1 ==> nh.take(k - 1)[j] == p);
            }
        }
        assert(o == (-1i32, -1i32) || o == (0i32, -1i32) || o == (1i32, -1i32) || o == (
        -1i32, 0i32) || o == (1i32, 0i32) || o == (-1i32, 1i32) || o == (0i32, 1i32) || o == (
        1i32, 1i32));
    } else {
        assert(nh.take(0).len() == 0);
    }
}

/// Over a neighbourhood that holds each of the eight Moore range-1 offsets
/// exactly once, in any order, the neighbour count is the classic count of
/// live cells among the eight surrounding cells.
pub proof fn lemma_moore1_neighbour_count(
    g: Seq<Seq<bool>>,
    nh: Seq<(i32, i32)>,
    cx: int,
    cy: int,
)
    requires
        forall|j: int|
            0 <= j < nh.len() ==> crate::rule::neighbourhood::moore_offset(
                1,
                #[trigger] nh[j],
            ),
        forall|o: (i32, i32)|
            #![trigger nh.contains(o)]
            crate::rule::neighbourhood::moore_offset(1, o) ==> nh.contains(o),
        forall|k1: int, k2: int| 0 <= k1 < k2 < nh.len() ==> nh[k1] != nh[k2],
    ensures
        neighbour_count(g, nh, cx, cy) == moore1_count(g, cx, cy),
{
    lemma_moore1_partial(g, nh, cx, cy, nh.len() as int);
    assert(nh.take(nh.len() as int) =~= nh);
    assert(nh.contains((-1i32, -1i32)));
    assert(nh.contains((0i32, -1i32)));
    assert(nh.contains((1i32, -1i32)));
    assert(nh.contains((-1i32, 0i32)));
    assert(nh.contains((1i32, 0i32)));
    assert(nh.contains((-1i32, 1i32)));
    assert(nh.contains((0i32, 1i32)));
    assert(nh.contains((1i32, 1i32)));
}

/// The block glyph for one cell of the upper row over one cell of the
/// lower row: a full block for two live cells, an upper or lower half
/// block for one, a space for none.
pub open spec fn glyph(upper: bool, lower: bool) -> Seq<char> {
    if upper && lower {
        "█"@
    } else if upper {
        "▀"@
    } else if lower {
        "▄"@
    } else {
        " "@
    }
}

/// The glyphs of the pair of rows starting at `ystart`, for the columns
/// below `x`; a missing lower row reads as dead.
pub open spec fn spec_render_cols(g: Seq<Seq<bool>>, ystart: int, x: int) -> Seq<char>
    decreases x,
{
    if x <= 0 {
        Seq::<char>::empty()
    } else {
        spec_render_cols(g, ystart, x - 1) + glyph(
            g[ystart][x - 1],
            if ystart + 1 < g.len() {
                g[ystart + 1][x - 1]
            } else {
                false
            },
        )
    }
}

/// The rendered text of the rows below `yrow`: the rows taken two at a
/// time, each pair one line of glyphs, the lines joined by line breaks.
pub open spec fn spec_render_rows(g: Seq<Seq<bool>>, yrow: int) -> Seq<char>
    decreases yrow,
{
    if yrow <= 0 {
        Seq::<char>::empty()
    } else {
        let prev = if yrow % 2 == 1 {
            yrow - 1
        } else {
            yrow - 2
        };
        spec_render_rows(g, prev) + (if prev > 0 {
            "\n"@
        } else {
            Seq::<char>::empty()
        }) + spec_render_cols(g, prev, g[0].len() as int)
    }
}

/// The terminal rendering of a whole grid: two grid rows per line of text,
/// no trailing line break.
pub open spec fn spec_rendered(g: Seq<Seq<bool>>) -> Seq<char> {
    spec_render_rows(g, g.len() as int)
}

/// One time-step's full grid of alive/dead cells. Stepping builds a new
/// `Generation` rather than mutating in place.
pub struct Generation {
    /// The cells of this generation.
    pub grid: Grid,
}

impl View for Generation {
    type V = Seq<Seq<bool>>;

    open spec fn view(&self) -> Seq<Seq<bool>> {
        grid_view(self.grid)
    }
}

impl Generation {
    /// A well-formed generation: its grid is rectangular and not degenerate.
    pub open spec fn wf(self) -> bool {
        grid_wf(self@)
    }

    /// The number of rows.
    pub open spec fn height(self) -> nat {
        self@.len()
    }

    /// The number of columns.
    pub open spec fn width(self) -> nat {
        if self@.len() > 0 {
            self@[0].len()
        } else {
            0
        }
    }

    /// Wraps a grid as a generation.
    pub fn new(grid: Grid) -> (result: Generation)
        ensures
            result@ == grid_view(grid),
    {
        Generation { grid }
    }

    /// A randomly seeded starting generation: an all-dead `height` by
    /// `width` grid with up to `amount` cells flipped alive at uniformly
    /// random coordinates. A coordinate drawn twice flips the same cell
    /// twice, so the grid ends up with at most `amount` live cells, and
    /// possibly fewer; every draw flips a cell alive and none is ever
    /// cleared, so asking for at least one cell always leaves at least one
    /// alive.
    #[verifier::loop_isolation(false)]
    pub fn soup(width: usize, height: usize, amount: usize) -> (result: Generation)
        requires
            width > 0,
            height > 0,
        ensures
            result.wf(),
            result.height() == height,
            result.width() == width,
            live_cells(result@) <= amount,
            amount > 0 ==> live_cells(result@) >= 1,
    {
        let mut grid = dead_grid(width, height);
        proof {
            lemma_live_cells_all_dead(grid_view(grid));
        }
        let mut n: usize = 0;
        while n < amount
            invariant
                n <= amount,
                grid@.len() == height,
                forall|y: int| 0 <= y < height ==> (#[trigger] grid@[y])@.len() == width,
                live_cells(grid_view(grid)) <= n,
                n > 0 ==> live_cells(grid_view(grid)) >= 1,
            decreases amount - n,
        {
            let x = random_below(width);
            let y = random_below(height);
            let ghost old_g = grid_view(grid);
            let row = &mut grid[y];
            row[x] = true;
            proof {
                assert(grid_view(grid) =~= old_g.update(
                    y as int,
                    old_g[y as int].update(x as int, true),
                ));
                lemma_live_cells_set(old_g, x as int, y as int);
                assert(grid_view(grid)[y as int][x as int]);
                lemma_live_cells_pos(grid_view(grid), x as int, y as int);
            }
            n += 1;
        }
        Generation::new(grid)
    }

    /// Renders the grid for a terminal: two grid rows packed into each
    /// line of text, every column of a pair as one block glyph, the lines
    /// joined by line breaks with no trailing one.
    #[verifier::loop_isolation(false)]
    pub fn render(&self) -> (r: String)
        requires
            self.wf(),
        ensures
            r@ == spec_rendered(self@),
    {
        let ghost g = self@;
        let width = self.grid[0].len();
        let height = self.grid.len();
        let mut out = String::new();
        let mut yrow: usize = 0;
        while yrow < height
            invariant
                yrow <= height,
                yrow % 2 == 0 || yrow == height,
                out@ == spec_render_rows(g, yrow as int),
            decreases height - yrow,
        {
            let ghost sep: Seq<char> = if yrow > 0 {
                "\n"@
            } else {
                Seq::<char>::empty()
            };
            if yrow > 0 {
                out.append("\n");
            } else {
                proof {
                    assert(out@ + sep =~= out@);
                }
            }
            let ghost line_start = spec_render_rows(g, yrow as int) + sep;
            proof {
                assert(out@ == line_start);
                assert(line_start + Seq::<char>::empty() =~= line_start);
                assert(g[yrow as int] == self.grid@[yrow as int]@);
                assert(g[yrow as int].len() == width);
                if yrow + 1 < height {
                    assert(g[yrow as int + 1] == self.grid@[yrow as int + 1]@);
                    assert(g[yrow as int + 1].len() == width);
                }
            }
            let mut x: usize = 0;
            while x < width
                invariant
                    x <= width,
                    yrow < height,
                    out@ == line_start + spec_render_cols(g, yrow as int, x as int),
                decreases width - x,
            {
                let upper = self.grid[yrow][x];
                let lower = if yrow + 1 < height {
                    self.grid[yrow + 1][x]
                } else {
                    false
                };
                let ghost before = out@;
                if upper && lower {
                    out.append("█");
                } else if upper {
                    out.append("▀");
                } else if lower {
                    out.append("▄");
                } else {
                    out.append(" ");
                }
                proof {
                    assert(out@ == before + glyph(upper, lower));
                    assert(before + glyph(upper, lower) =~= line_start + spec_render_cols(
                        g,
                        yrow as int,
                        x as int + 1,
                    ));
                }
                x += 1;
            }
            let ghost old_yrow = yrow as int;
            if height - yrow >= 2 {
                yrow += 2;
            } else {
                yrow = height;
            }
            proof {
                assert(spec_render_rows(g, yrow as int) == spec_render_rows(g, old_yrow) + (if old_yrow
                    > 0 {
                    "\n"@
                } else {
                    Seq::<char>::empty()
                }) + spec_render_cols(g, old_yrow, width as int));
            }
        }
        out
    }

    /// Whether the cell in column `x` of row `y` is alive. The caller must
    /// stay in bounds.
    pub fn alive(&self, x: &usize, y: &usize) -> (r: bool)
        requires
            (*y as int) < self@.len(),
            (*x as int) < self@[*y as int].len(),
        ensures
            r == self@[*y as int][*x as int],
    {
        self.grid[*y][*x]
    }

    /// Counts, for every cell, how many live cells reach it through an
    /// offset of the neighbourhood. Targets that fall off the grid are
    /// skipped: the grid has hard edges, there is no wraparound. The
    /// neighbourhood may hold at most 127 offsets, so that every count fits
    /// its cell.
    ///
    /// The scan only visits live cells, so its cost is proportional to the
    /// number of live cells times the neighbourhood size, besides the one
    /// pass over the grid.
    #[verifier::loop_isolation(false)]
    pub fn neigbour_counts(&self, neighbourhood: &Neighbourhood) -> (result: Vec<Vec<i8>>)
        requires
            self.wf(),
            neighbourhood@.len() <= 127,
        ensures
            result@.len() == self@.len(),
            forall|cy: int|
                0 <= cy < result@.len() ==> (#[trigger] result@[cy])@.len() == self@[0].len(),
            forall|cx: int, cy: int|
                #![trigger result@[cy]@[cx]]
                0 <= cy < self@.len() && 0 <= cx < self@[0].len() ==> result@[cy]@[cx] as int
                    == neighbour_count(self@, neighbourhood@, cx, cy),
    {
        let width = self.grid[0].len();
        let height = self.grid.len();
        let ghost g = self@;
        let ghost nh = neighbourhood@;
        let mut result = zero_counts(width, height);
        let mut y: usize = 0;
        while y < height
            invariant
                y <= height,
                result@.len() == height,
                forall|cy: int| 0 <= cy < height ==> (#[trigger] result@[cy])@.len() == width,
                forall|cx: int, cy: int|
                    #![trigger result@[cy]@[cx]]
                    0 <= cy < height && 0 <= cx < width ==> result@[cy]@[cx] as int == scatter_grid(
                        g,
                        nh,
                        cx,
                        cy,
                        y as int,
                    ),
            decreases height - y,
        {
            let mut x: usize = 0;
            while x < width
                invariant
                    x <= width,
                    result@.len() == height,
                    forall|cy: int| 0 <= cy < height ==> (#[trigger] result@[cy])@.len() == width,
                    forall|cx: int, cy: int|
                        #![trigger result@[cy]@[cx]]
                        0 <= cy < height && 0 <= cx < width ==> result@[cy]@[cx] as int
                            == scatter_grid(g, nh, cx, cy, y as int) + scatter_row(
                            g,
                            nh,
                            cx,
                            cy,
                            y as int,
                            x as int,
                        ),
                decreases width - x,
            {
                proof {
                    assert(g[y as int] == self.grid@[y as int]@);
                    assert(g[y as int].len() == g[0].len());
                }
                if self.grid[y][x] {
                    let mut k: usize = 0;
                    while k < neighbourhood.len()
                        invariant
                            k <= nh.len(),
                            g[y as int][x as int],
                            result@.len() == height,
                            forall|cy: int|
                                0 <= cy < height ==> (#[trigger] result@[cy])@.len() == width,
                            forall|cx: int, cy: int|
                                #![trigger result@[cy]@[cx]]
                                0 <= cy < height && 0 <= cx < width ==> result@[cy]@[cx] as int
                                    == scatter_grid(g, nh, cx, cy, y as int) + scatter_row(
                                    g,
                                    nh,
                                    cx,
                                    cy,
                                    y as int,
                                    x as int,
                                ) + offs_count(nh, cx - x as int, cy - y as int, k as int),
                        decreases nh.len() - k,
                    {
                        let o = neighbourhood[k];
                        let tx_opt = offset_coord(x, o.0, width);
                        let ty_opt = offset_coord(y, o.1, height);
                        match (tx_opt, ty_opt) {
                            (Some(tx), Some(ty)) => {
                                proof {
                                    let cxi = tx as int;
                                    let cyi = ty as int;
                                    lemma_offs_count_mono(
                                        nh,
                                        cxi - x as int,
                                        cyi - y as int,
                                        k as int + 1,
                                        nh.len() as int,
                                    );
                                    lemma_scatter_row_mono(
                                        g,
                                        nh,
                                        cxi,
                                        cyi,
                                        y as int,
                                        x as int + 1,
                                        width as int,
                                    );
                                    lemma_scatter_grid_mono(
                                        g,
                                        nh,
                                        cxi,
                                        cyi,
                                        y as int + 1,
                                        height as int,
                                    );
                                    lemma_scatter_counts(g, nh, cxi, cyi);
                                    lemma_count_hits_le(g, nh, cxi, cyi, nh.len() as int);
                                }
                                let cur = result[ty][tx];
                                result[ty][tx] = cur + 1;
                                proof {
                                    assert forall|cx: int, cy: int|
                                        0 <= cy < height && 0 <= cx < width implies #[trigger] (
                                    result@[cy]@[cx]) as int == scatter_grid(g, nh, cx, cy, y as int)
                                        + scatter_row(g, nh, cx, cy, y as int, x as int)
                                        + offs_count(
                                        nh,
                                        cx - x as int,
                                        cy - y as int,
                                        k as int + 1,
                                    ) by {
                                        if cx == tx as int && cy == ty as int {
                                            assert(nh[k as int].0 == cx - x as int && nh[k as int].1
                                                == cy - y as int);
                                        } else {
                                            assert(!(nh[k as int].0 == cx - x as int
                                                && nh[k as int].1 == cy - y as int));
                                        }
                                    }
                                }
                            },
                            _ => {
                                proof {
                                    assert forall|cx: int, cy: int|
                                        0 <= cy < height && 0 <= cx < width implies #[trigger] (
                                    result@[cy]@[cx]) as int == scatter_grid(g, nh, cx, cy, y as int)
                                        + scatter_row(g, nh, cx, cy, y as int, x as int)
                                        + offs_count(
                                        nh,
                                        cx - x as int,
                                        cy - y as int,
                                        k as int + 1,
                                    ) by {
                                        assert(!(nh[k as int].0 == cx - x as int && nh[k as int].1
                                            == cy - y as int));
                                    }
                                }
                            },
                        }
                        k += 1;
                    }
                }
                proof {
                    assert forall|cx: int, cy: int|
                        0 <= cy < height && 0 <= cx < width implies #[trigger] (result@[cy]@[cx]) as int
                        == scatter_grid(g, nh, cx, cy, y as int) + scatter_row(
                        g,
                        nh,
                        cx,
                        cy,
                        y as int,
                        x as int + 1,
                    ) by {
                        assert(scatter_row(g, nh, cx, cy, y as int, x as int + 1) == scatter_row(
                            g,
                            nh,
                            cx,
                            cy,
                            y as int,
                            x as int,
                        ) + (if g[y as int][x as int] {
                            offs_count(nh, cx - x as int, cy - y as int, nh.len() as int)
                        } else {
                            0nat
                        }));
                    }
                }
                x += 1;
            }
            y += 1;
        }
        proof {
            assert forall|cx: int, cy: int|
                0 <= cy < height && 0 <= cx < width implies #[trigger] (result@[cy]@[cx]) as int
                == neighbour_count(g, nh, cx, cy) by {
                lemma_scatter_counts(g, nh, cx, cy);
            }
        }
        result
    }
}

/// Moves `base` by `delta`, reporting the target only when it stays within
/// `[0, bound)`.
fn offset_coord(base: usize, delta: i32, bound: usize) -> (r: Option<usize>)
    requires
        base < bound,
    ensures
        match r {
            Some(t) => (t as int) == (base as int) + (delta as int) && t < bound,
            None => !(0 <= (base as int) + (delta as int) && (base as int) + (delta as int) < (
            bound as int)),
        },
{
    if delta >= 0 {
        let d = delta as usize;
        if d < bound - base {
            Some(base + d)
        } else {
            None
        }
    } else {
        let d = (-(delta as i64)) as usize;
        if d <= base {
            Some(base - d)
        } else {
            None
        }
    }
}

/// Relies on `fastrand::usize`: a value drawn from the half-open range up
/// to `bound`, which is not empty because `bound` is positive. Nothing is
/// assumed about which value comes back.
#[verifier::external_body]
fn random_below(bound: usize) -> (r: usize)
    requires
        bound > 0,
    ensures
        r < bound,
{
    fastrand::usize(..bound)
}

/// A row of dead cells.
fn dead_row(width: usize) -> (r: Vec<bool>)
    ensures
        r@.len() == width,
        forall|i: int| 0 <= i < width ==> !r@[i],
{
    let mut r: Vec<bool> = Vec::new();
    while r.len() < width
        invariant
            r@.len() <= width,
            forall|i: int| 0 <= i < r@.len() ==> !r@[i],
        decreases width - r@.len(),
    {
        r.push(false);
    }
    r
}

/// A `height` by `width` grid of dead cells.
pub(crate) fn dead_grid(width: usize, height: usize) -> (r: Grid)
    ensures
        r@.len() == height,
        forall|y: int| 0 <= y < height ==> (#[trigger] r@[y])@.len() == width,
        forall|y: int, x: int| 0 <= y < height && 0 <= x < width ==> !r@[y]@[x],
{
    let mut r: Grid = Vec::new();
    while r.len() < height
        invariant
            r@.len() <= height,
            forall|y: int| 0 <= y < r@.len() ==> (#[trigger] r@[y])@.len() == width,
            forall|y: int, x: int| 0 <= y < r@.len() && 0 <= x < width ==> !r@[y]@[x],
        decreases height - r@.len(),
    {
        r.push(dead_row(width));
    }
    r
}

proof fn lemma_live_in_row_all_dead(row: Seq<bool>, k: int)
    requires
        forall|i: int| 0 <= i < row.len() ==> !row[i],
        0 <= k <= row.len(),
    ensures
        live_in_row(row, k) == 0,
    decreases k,
{
    if k > 0 {
        lemma_live_in_row_all_dead(row, k - 1);
    }
}

proof fn lemma_live_cells_all_dead(g: Seq<Seq<bool>>)
    requires
        forall|y: int, x: int| 0 <= y < g.len() && 0 <= x < g[y].len() ==> !g[y][x],
    ensures
        live_cells(g) == 0,
    decreases g.len(),
{
    if g.len() > 0 {
        lemma_live_in_row_all_dead(g.last(), g.last().len() as int);
        lemma_live_cells_all_dead(g.drop_last());
    }
}

/// Bringing one cell of a row alive raises its live count by at most one.
proof fn lemma_live_in_row_update(row: Seq<bool>, x: int, k: int)
    requires
        0 <= x < row.len(),
        0 <= k <= row.len(),
    ensures
        live_in_row(row.update(x, true), k) <= live_in_row(row, k) + 1,
        live_in_row(row.update(x, true), k) <= live_in_row(row, k) + (if x < k {
            1int
        } else {
            0int
        }),
    decreases k,
{
    if k > 0 {
        lemma_live_in_row_update(row, x, k - 1);
    }
}

/// Bringing one cell of a grid alive raises its live count by at most one.
proof fn lemma_live_cells_set(g: Seq<Seq<bool>>, x: int, y: int)
    requires
        0 <= y < g.len(),
        0 <= x < g[y].len(),
    ensures
        live_cells(g.update(y, g[y].update(x, true))) <= live_cells(g) + 1,
    decreases g.len(),
{
    let g2 = g.update(y, g[y].update(x, true));
    if y == g.len() - 1 {
        assert(g2.drop_last() =~= g.drop_last());
        lemma_live_in_row_update(g.last(), x, g.last().len() as int);
    } else {
        assert(g2.drop_last() =~= g.drop_last().update(y, g.drop_last()[y].update(x, true)));
        lemma_live_cells_set(g.drop_last(), x, y);
        assert(g2.last() == g.last());
    }
}

/// A row with a live cell among its first `k` counts at least one.
proof fn lemma_live_in_row_pos(row: Seq<bool>, x: int, k: int)
    requires
        0 <= x < k <= row.len(),
        row[x],
    ensures
        live_in_row(row, k) >= 1,
    decreases k,
{
    if x < k - 1 {
        lemma_live_in_row_pos(row, x, k - 1);
    }
}

/// A grid with a live cell holds at least one live cell.
proof fn lemma_live_cells_pos(g: Seq<Seq<bool>>, x: int, y: int)
    requires
        0 <= y < g.len(),
        0 <= x < g[y].len(),
        g[y][x],
    ensures
        live_cells(g) >= 1,
    decreases g.len(),
{
    if y == g.len() - 1 {
        lemma_live_in_row_pos(g.last(), x, g.last().len() as int);
    } else {
        assert(g.drop_last()[y] == g[y]);
        lemma_live_cells_pos(g.drop_last(), x, y);
    }
}

/// A row of zero counts.
fn zero_row(width: usize) -> (r: Vec<i8>)
    ensures
        r@.len() == width,
        forall|i: int| 0 <= i < width ==> r@[i] == 0i8,
{
    let mut r: Vec<i8> = Vec::new();
    while r.len() < width
        invariant
            r@.len() <= width,
            forall|i: int| 0 <= i < r@.len() ==> r@[i] == 0i8,
        decreases width - r@.len(),
    {
        r.push(0i8);
    }
    r
}

/// A `height` by `width` grid of zero counts.
fn zero_counts(width: usize, height: usize) -> (r: Vec<Vec<i8>>)
    ensures
        r@.len() == height,
        forall|y: int| 0 <= y < height ==> (#[trigger] r@[y])@.len() == width,
        forall|y: int, x: int| 0 <= y < height && 0 <= x < width ==> r@[y]@[x] == 0i8,
    {
    let mut r: Vec<Vec<i8>> = Vec::new();
    while r.len() < height
        invariant
            r@.len() <= height,
            forall|y: int| 0 <= y < r@.len() ==> (#[trigger] r@[y])@.len() == width,
            forall|y: int, x: int| 0 <= y < r@.len() && 0 <= x < width ==> r@[y]@[x] == 0i8,
        decreases height - r@.len(),
    {
        r.push(zero_row(width));
    }
    r
}

} // verus!
