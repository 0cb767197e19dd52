//! A two-dimensional cellular automaton engine: bounded grids of boolean
//! cells, configurable birth/survival rules, neighbour counting under Moore
//! or Von Neumann neighbourhoods, and generation stepping with frame pacing.

pub mod game;
pub mod generation;
pub mod rle;
pub mod rule;

use vstd::prelude::*;
use vstd::std_specs::iter::IteratorSpec;

verus! {

/// The characters of a string, one by one, as a vector.
pub(crate) fn to_chars(s: &str) -> (r: Vec<char>)
    ensures
        r@ == s@,
{
    let mut r: Vec<char> = Vec::new();
    let mut it = s.chars();
    let ghost mut idx: int = 0;
    proof {
        assert(s@.skip(0) =~= s@);
        assert(s@.take(0) =~= r@);
    }
    loop
        invariant
            0 <= idx <= s@.len(),
            it.remaining() == s@.skip(idx),
            r@ == s@.take(idx),
        decreases s@.len() - idx,
    {
        match it.next() {
            None => {
                proof {
                    assert(s@.take(idx) =~= s@);
                }
                return r;
            },
            Some(c) => {
                proof {
                    assert(s@.skip(idx)[0] == s@[idx]);
                }
                r.push(c);
                proof {
                    assert(s@.take(idx).push(s@[idx]) =~= s@.take(idx + 1));
                    assert(s@.skip(idx).drop_first() =~= s@.skip(idx + 1));
                    idx = idx + 1;
                }
            },
        }
    }
}

} // verus!
