//! Neighbourhood patterns: the set of relative offsets that count as
//! "adjacent" to a cell, for a chosen topology and range.

use vstd::prelude::*;

verus! {

/// A neighbourhood is a list of `(dx, dy)` offsets, never containing `(0, 0)`.
pub type Neighbourhood = Vec<(i32, i32)>;

/// An offset belongs to the Moore neighbourhood of the given range:
/// both coordinates within `range` of zero, and not the origin.
pub open spec fn moore_offset(range: int, o: (i32, i32)) -> bool {
    -range <= o.0 <= range && -range <= o.1 <= range && !(o.0 == 0 && o.1 == 0)
}

/// An offset belongs to the Von Neumann neighbourhood of the given range:
/// Manhattan distance at most `range`, and not the origin.
pub open spec fn von_neumann_offset(range: int, o: (i32, i32)) -> bool {
    vstd::math::abs(o.0 as int) + vstd::math::abs(o.1 as int) <= range && !(o.0 == 0 && o.1
        == 0)
}

/// The offsets that a pattern generates for a given range.
pub open spec fn pattern_offset(pattern: Pattern, range: int, o: (i32, i32)) -> bool {
    match pattern {
        Pattern::Moore => moore_offset(range, o),
        Pattern::VonNeumann => von_neumann_offset(range, o),
    }
}

/// `a` comes before `b` in row-major order: a strictly earlier row, or the
/// same row and a strictly earlier column.
pub open spec fn row_major_before(a: (i32, i32), b: (i32, i32)) -> bool {
    a.1 < b.1 || (a.1 == b.1 && a.0 < b.0)
}

/// `o` was produced before reaching column `x` of row `y` in the row-major
/// generation order.
spec fn generated_before(o: (i32, i32), x: int, y: int) -> bool {
    o.1 < y || (o.1 == y && o.0 < x)
}

/// How many offsets the Von Neumann generation has produced before
/// reaching row `y`: full rows from `-range` up, the origin left out.
spec fn vn_count_rows(range: int, y: int) -> int
    decreases y + range,
{
    if y <= -range {
        0
    } else {
        vn_count_rows(range, y - 1) + 2 * (range - vstd::math::abs(y - 1)) + 1 - (if y - 1 == 0 {
            1int
        } else {
            0int
        })
    }
}

/// Below the origin row the Von Neumann rows sum to a square.
proof fn lemma_vn_count_neg(range: int, y: int)
    requires
        0 <= range,
        -range <= y <= 0,
    ensures
        vn_count_rows(range, y) == (y + range) * (y + range),
    decreases y + range,
{
    if y == -range {
        assert((y + range) * (y + range) == 0) by (nonlinear_arith)
            requires
                y + range == 0,
        ;
    } else {
        lemma_vn_count_neg(range, y - 1);
        assert(vstd::math::abs(y - 1) == 1 - y);
        assert((y - 1 + range) * (y - 1 + range) + 2 * (range + y - 1) + 1 == (y + range) * (y
            + range)) by (nonlinear_arith);
    }
}

/// From the origin row on, the sum of the Von Neumann rows in closed form.
proof fn lemma_vn_count_pos(range: int, y: int)
    requires
        0 <= range,
        1 <= y <= range + 1,
    ensures
        vn_count_rows(range, y) == (range + 1) * (range + 1) - 1 + (y - 1) * (2 * range + 1) - y * (
        y - 1),
    decreases y,
{
    if y == 1 {
        lemma_vn_count_neg(range, 0);
        assert(vstd::math::abs(0) == 0);
        assert(range * range + 2 * range + 1 - 1 == (range + 1) * (range + 1) - 1 + 0 * (2 * range
            + 1) - 1 * 0) by (nonlinear_arith);
    } else {
        lemma_vn_count_pos(range, y - 1);
        assert(vstd::math::abs(y - 1) == y - 1);
        assert((range + 1) * (range + 1) - 1 + (y - 2) * (2 * range + 1) - (y - 1) * (y - 2) + 2 * (
        range - (y - 1)) + 1 == (range + 1) * (range + 1) - 1 + (y - 1) * (2 * range + 1) - y * (y
            - 1)) by (nonlinear_arith);
    }
}

/// A named neighbourhood topology.
#[derive(Debug, PartialEq, Eq, Structural, Clone, Copy)]
pub enum Pattern {
    /// The full square neighbourhood, diagonals included.
    Moore,
    /// The diamond neighbourhood: Manhattan distance, diagonals excluded.
    VonNeumann,
}

/// Appends the offset `(x, y)` unless it is the origin.
fn safe_push(vector: &mut Neighbourhood, x: i32, y: i32)
    ensures
        final(vector)@ == if !(x == 0 && y == 0) {
            old(vector)@.push((x, y))
        } else {
            old(vector)@
        },
{
    if !(x == 0 && y == 0) {
        vector.push((x, y))
    }
}

impl Pattern {
    /// Generates the offsets of this pattern at the given range, in
    /// row-major order: exactly the offsets `pattern_offset` describes,
    /// each exactly once.
    #[verifier::loop_isolation(false)]
    pub fn generate(&self, range: i32) -> (result: Neighbourhood)
        requires
            0 <= range < i32::MAX,
        ensures
            forall|k: int|
                0 <= k < result@.len() ==> pattern_offset(*self, range as int, #[trigger] result@[k]),
            forall|o: (i32, i32)|
                pattern_offset(*self, range as int, o) ==> result@.contains(o),
            forall|k1: int, k2: int|
                0 <= k1 < k2 < result@.len() ==> result@[k1] != result@[k2],
            forall|k1: int, k2: int|
                0 <= k1 < k2 < result@.len() ==> row_major_before(result@[k1], result@[k2]),
            *self == Pattern::Moore ==> result@.len() == (2 * range as int + 1) * (2 * range as int
                + 1) - 1,
            *self == Pattern::VonNeumann ==> result@.len() == 2 * (range as int) * (range as int
                + 1),
            result@.len() <= (2 * range as int + 1) * (2 * range as int + 1),
    {
        let max = range + 1;
        let mut result: Neighbourhood = Vec::new();
        match self {
            Self::Moore => {
                let mut y = -range;
                proof {
                    assert((-range as int + range as int) * (2 * range as int + 1)
                        == 0) by (nonlinear_arith);
                }
                while y < max
                    invariant
                        -range <= y <= max,
                        forall|k: int|
                            0 <= k < result@.len() ==> moore_offset(range as int, #[trigger] result@[k]),
                        forall|k: int|
                            0 <= k < result@.len() ==> generated_before(
                                #[trigger] result@[k],
                                -range as int,
                                y as int,
                            ),
                        forall|o: (i32, i32)|
                            moore_offset(range as int, o) && o.1 < y ==> result@.contains(o),
                        forall|k1: int, k2: int|
                            0 <= k1 < k2 < result@.len() ==> result@[k1] != result@[k2],
                        forall|k1: int, k2: int|
                            0 <= k1 < k2 < result@.len() ==> row_major_before(
                                result@[k1],
                                result@[k2],
                            ),
                        result@.len() as int == (y + range) * (2 * range as int + 1) - (if y > 0 {
                            1int
                        } else {
                            0int
                        }),
                    decreases max - y,
                {
                    let mut x = -range;
                    while x < max
                        invariant
                            -range <= x <= max,
                            -range <= y < max,
                            forall|k: int|
                                0 <= k < result@.len() ==> moore_offset(
                                    range as int,
                                    #[trigger] result@[k],
                                ),
                            forall|k: int|
                                0 <= k < result@.len() ==> generated_before(
                                    #[trigger] result@[k],
                                    x as int,
                                    y as int,
                                ),
                            forall|o: (i32, i32)|
                                moore_offset(range as int, o) && generated_before(
                                    o,
                                    x as int,
                                    y as int,
                                ) ==> result@.contains(o),
                            forall|k1: int, k2: int|
                                0 <= k1 < k2 < result@.len() ==> result@[k1] != result@[k2],
                            forall|k1: int, k2: int|
                                0 <= k1 < k2 < result@.len() ==> row_major_before(
                                    result@[k1],
                                    result@[k2],
                                ),
                            result@.len() as int == (y + range) * (2 * range as int + 1) - (if y
                                > 0 {
                                1int
                            } else {
                                0int
                            }) + (x + range) - (if y == 0 && x > 0 {
                                1int
                            } else {
                                0int
                            }),
                        decreases max - x,
                    {
                        let ghost prev = result@;
                        safe_push(&mut result, x, y);
                        proof {
                            if !(x == 0 && y == 0) {
                                assert(result@ == prev.push((x, y)));
                                assert(forall|k: int|
                                    0 <= k < prev.len() ==> #[trigger] result@[k] == prev[k]);
                                assert(result@[prev.len() as int] == (x, y));
                            } else {
                                assert(result@ == prev);
                            }
                            assert forall|o: (i32, i32)|
                                moore_offset(range as int, o) && generated_before(
                                    o,
                                    x as int + 1,
                                    y as int,
                                ) implies result@.contains(o) by {
                                if o == (x, y) {
                                    assert(result@[result@.len() - 1] == o);
                                } else {
                                    assert(prev.contains(o));
                                    let k = choose|k: int| 0 <= k < prev.len() && prev[k] == o;
                                    assert(result@[k] == o);
                                }
                            }
                        }
                        x = x + 1;
                    }
                    proof {
                        assert forall|o: (i32, i32)|
                            moore_offset(range as int, o) && o.1 <= y implies result@.contains(
                            o,
                        ) by {
                            assert(generated_before(o, max as int, y as int));
                        }
                        assert((y + 1 + range) * (2 * range as int + 1) == (y + range) * (2
                            * range as int + 1) + (2 * range as int + 1)) by (nonlinear_arith);
                    }
                    y = y + 1;
                }
                proof {
                    assert((range + range) * (2 * range as int + 1) == (2 * range as int) * (2
                        * range as int + 1)) by (nonlinear_arith);
                    assert((2 * range as int + 1) * (2 * range as int + 1) == (2 * range as int) * (
                    2 * range as int + 1) + (2 * range as int + 1)) by (nonlinear_arith);
                }
            },
            Self::VonNeumann => {
                let mut y = -range;
                proof {
                    assert((-range as int + range as int) * (2 * range as int + 1)
                        == 0) by (nonlinear_arith);
                }
                while y < max
                    invariant
                        -range <= y <= max,
                        forall|k: int|
                            0 <= k < result@.len() ==> von_neumann_offset(
                                range as int,
                                #[trigger] result@[k],
                            ),
                        forall|k: int|
                            0 <= k < result@.len() ==> (#[trigger] result@[k]).1 < y,
                        forall|o: (i32, i32)|
                            von_neumann_offset(range as int, o) && o.1 < y ==> result@.contains(o),
                        forall|k1: int, k2: int|
                            0 <= k1 < k2 < result@.len() ==> result@[k1] != result@[k2],
                        forall|k1: int, k2: int|
                            0 <= k1 < k2 < result@.len() ==> row_major_before(
                                result@[k1],
                                result@[k2],
                            ),
                        result@.len() as int == vn_count_rows(range as int, y as int),
                    decreases max - y,
                {
                    let range_x = if y < 0 {
                        range + y
                    } else {
                        range - y
                    };
                    let mut x = -range_x;
                    while x < range_x + 1
                        invariant
                            range_x == range - vstd::math::abs(y as int),
                            0 <= range_x <= range,
                            -range_x <= x <= range_x + 1,
                            -range <= y < max,
                            forall|k: int|
                                0 <= k < result@.len() ==> von_neumann_offset(
                                    range as int,
                                    #[trigger] result@[k],
                                ),
                            forall|k: int|
                                0 <= k < result@.len() ==> generated_before(
                                    #[trigger] result@[k],
                                    x as int,
                                    y as int,
                                ),
                            forall|o: (i32, i32)|
                                von_neumann_offset(range as int, o) && generated_before(
                                    o,
                                    x as int,
                                    y as int,
                                ) ==> result@.contains(o),
                            forall|k1: int, k2: int|
                                0 <= k1 < k2 < result@.len() ==> result@[k1] != result@[k2],
                            forall|k1: int, k2: int|
                                0 <= k1 < k2 < result@.len() ==> row_major_before(
                                    result@[k1],
                                    result@[k2],
                                ),
                            result@.len() as int == vn_count_rows(range as int, y as int) + (x
                                + range_x) - (if y == 0 && x > 0 {
                                1int
                            } else {
                                0int
                            }),
                        decreases range_x + 1 - x,
                    {
                        let ghost prev = result@;
                        safe_push(&mut result, x, y);
                        proof {
                            if !(x == 0 && y == 0) {
                                assert(result@ == prev.push((x, y)));
                                assert(forall|k: int|
                                    0 <= k < prev.len() ==> #[trigger] result@[k] == prev[k]);
                                assert(result@[prev.len() as int] == (x, y));
                            } else {
                                assert(result@ == prev);
                            }
                            assert forall|o: (i32, i32)|
                                von_neumann_offset(range as int, o) && generated_before(
                                    o,
                                    x as int + 1,
                                    y as int,
                                ) implies result@.contains(o) by {
                                if o == (x, y) {
                                    assert(result@[result@.len() - 1] == o);
                                } else {
                                    assert(prev.contains(o));
                                    let k = choose|k: int| 0 <= k < prev.len() && prev[k] == o;
                                    assert(result@[k] == o);
                                }
                            }
                        }
                        x = x + 1;
                    }
                    proof {
                        assert forall|o: (i32, i32)|
                            von_neumann_offset(range as int, o) && o.1 <= y implies result@.contains(
                            o,
                        ) by {
                            assert(generated_before(o, range_x as int + 1, y as int));
                        }
                        assert(vn_count_rows(range as int, y as int + 1) == vn_count_rows(
                            range as int,
                            y as int,
                        ) + 2 * (range as int - vstd::math::abs(y as int)) + 1 - (if y == 0 {
                            1int
                        } else {
                            0int
                        }));
                    }
                    y = y + 1;
                }
                proof {
                    lemma_vn_count_pos(range as int, range as int + 1);
                    assert((range as int + 1) * (range as int + 1) - 1 + ((range as int + 1) - 1) * (
                    2 * range as int + 1) - (range as int + 1) * ((range as int + 1) - 1) == 2 * (
                    range as int) * (range as int + 1)) by (nonlinear_arith);
                    assert(2 * (range as int) * (range as int + 1) <= (2 * range as int + 1) * (2
                        * range as int + 1)) by (nonlinear_arith)
                        requires
                            0 <= range,
                    ;
                }
            },
        }
        result
    }
}

} // verus!

