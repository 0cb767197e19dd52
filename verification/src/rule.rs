//! Birth/survival rules: a rule maps the pair (alive now, neighbour count)
//! to whether the cell is alive in the next generation.
//!
//! A rule is written `B<digits>/S<digits>` (birth digits, survival digits),
//! in the legacy form `<survival-digits>/<birth-digits>` without letters, or
//! as one of a fixed table of well-known rule names.

pub mod neighbourhood;

use vstd::prelude::*;
use vstd::std_specs::iter::IteratorSpec;

verus! {

/// Whether `count` belongs to the set of digits encoded by `mask`
/// (bit `n` of `mask` stands for the digit `n`; only digits up to 9 occur).
pub open spec fn mask_has(mask: u16, count: int) -> bool {
    0 <= count < 10 && (mask >> (count as u16)) & 1u16 == 1u16
}

/// The outcome of reading a rule string character by character.
///
/// `B` and the legacy separator `/` direct later digits into the birth set,
/// `S` directs them into the survival set (the survival set is active at the
/// start, so the legacy form `23/3` reads survival first), each digit joins
/// the active set, and any other character fails the parse.
pub open spec fn spec_parse_rule(s: Seq<char>, birth: u16, survival: u16, on_birth: bool) -> Option<
    (u16, u16),
>
    decreases s.len(),
{
    if s.len() == 0 {
        Some((birth, survival))
    } else {
        let c = s[0];
        if c == 'B' || c == '/' {
            spec_parse_rule(s.skip(1), birth, survival, true)
        } else if c == 'S' {
            spec_parse_rule(s.skip(1), birth, survival, false)
        } else if 48 <= c as u32 <= 57 {
            let bit = 1u16 << (((c as u32) - 48) as u16);
            if on_birth {
                spec_parse_rule(s.skip(1), birth | bit, survival, on_birth)
            } else {
                spec_parse_rule(s.skip(1), birth, survival | bit, on_birth)
            }
        } else {
            None
        }
    }
}

/// The table of well-known rule names and their canonical rule strings.
pub open spec fn spec_named_rule(name: Seq<char>) -> Option<Seq<char>> {
    if name == "seeds"@ {
        Some("B2"@)
    } else if name == "live-free-or-die"@ {
        Some("B2/S0"@)
    } else if name == "life-without-death"@ {
        Some("B3/S012345678"@)
    } else if name == "flock"@ {
        Some("B3/S12"@)
    } else if name == "mazectric"@ {
        Some("B3/S1234"@)
    } else if name == "maze"@ {
        Some("B3/S12345"@)
    } else if name == "original"@ {
        Some("B3/S23"@)
    } else if name == "highlife"@ {
        Some("B36/S23"@)
    } else if name == "move"@ {
        Some("B368/S245"@)
    } else if name == "coagulation"@ {
        Some("B378/S235678"@)
    } else if name == "walled-cities"@ {
        Some("B45678/S2345"@)
    } else if name == "bacteria"@ {
        Some("B34/S456"@)
    } else if name == "longlife"@ {
        Some("B345/S5"@)
    } else if name == "amoeba"@ {
        Some("B357/S1358"@)
    } else {
        None
    }
}

/// The rule string a parse works on: the table's canonical string for a
/// known name, otherwise the input itself.
pub open spec fn spec_effective_rule_string(s: Seq<char>) -> Seq<char> {
    match spec_named_rule(s) {
        Some(t) => t,
        None => s,
    }
}

/// The rule the system falls back on: classic Life, `B3/S23`.
pub open spec fn spec_default_rule() -> Rule {
    Rule { birth: 8, survival: 12 }
}

/// A failure to parse a rule string.
#[derive(Debug, PartialEq, Eq, Structural, Clone, Copy)]
pub enum RuleParseError {
    /// A character that is neither `B`, `S`, `/` nor a digit.
    UnrecognisedRuleToken,
}

impl RuleParseError {
    /// A human-readable description of the failure.
    pub fn message(&self) -> (r: &'static str)
        ensures
            r@ == "Unrecognised content in rulestring"@,
    {
        "Unrecognised content in rulestring"
    }
}

/// A birth/survival rule: two sets of neighbour counts, each a set of
/// decimal digits encoded as a bitmask.
#[derive(Debug, PartialEq, Eq, Structural, Clone, Copy)]
pub struct Rule {
    /// Neighbour counts that bring a dead cell alive.
    pub birth: u16,
    /// Neighbour counts that keep a live cell alive.
    pub survival: u16,
}

/// Compares a range of a character vector with a string.
#[verifier::loop_isolation(false)]
pub(crate) fn chars_eq_str(cs: &Vec<char>, start: usize, end: usize, s: &str) -> (r: bool)
    requires
        start <= end <= cs@.len(),
    ensures
        r == (cs@.subrange(start as int, end as int) == s@),
{
    let ghost sub = cs@.subrange(start as int, end as int);
    let sub_len = end - start;
    let mut it = s.chars();
    let mut i: usize = 0;
    proof {
        assert(s@.skip(0) =~= s@);
    }
    loop
        invariant
            0 <= i <= sub_len,
            i <= s@.len(),
            it.remaining() == s@.skip(i as int),
            forall|j: int| 0 <= j < i ==> sub[j] == s@[j],
        decreases s@.len() - i,
    {
        let c = it.next();
        if i == sub_len {
            match c {
                None => {
                    proof {
                        assert(s@.len() == i);
                        assert(sub =~= s@);
                    }
                    return true;
                },
                Some(_) => {
                    proof {
                        assert(s@.len() > i == sub.len());
                    }
                    return false;
                },
            }
        } else {
            match c {
                None => {
                    proof {
                        assert(s@.len() == i < sub.len());
                    }
                    return false;
                },
                Some(ch) => {
                    proof {
                        assert(s@.skip(i as int)[0] == s@[i as int]);
                        assert(sub[i as int] == cs@[start + i]);
                    }
                    if cs[start + i] != ch {
                        proof {
                            assert(sub[i as int] != s@[i as int]);
                        }
                        return false;
                    }
                    proof {
                        assert(s@.skip(i as int).drop_first() =~= s@.skip(i as int + 1));
                    }
                    i += 1;
                },
            }
        }
    }
}

/// Looks a rule name up in the table of well-known rules.
fn named_rule_chars(cs: &Vec<char>, start: usize, end: usize) -> (r: Option<&'static str>)
    requires
        start <= end <= cs@.len(),
    ensures
        match r {
            Some(t) => spec_named_rule(cs@.subrange(start as int, end as int)) == Some(t@),
            None => spec_named_rule(cs@.subrange(start as int, end as int)) is None,
        },
{
    if chars_eq_str(cs, start, end, "seeds") {
        Some("B2")
    } else if chars_eq_str(cs, start, end, "live-free-or-die") {
        Some("B2/S0")
    } else if chars_eq_str(cs, start, end, "life-without-death") {
        Some("B3/S012345678")
    } else if chars_eq_str(cs, start, end, "flock") {
        Some("B3/S12")
    } else if chars_eq_str(cs, start, end, "mazectric") {
        Some("B3/S1234")
    } else if chars_eq_str(cs, start, end, "maze") {
        Some("B3/S12345")
    } else if chars_eq_str(cs, start, end, "original") {
        Some("B3/S23")
    } else if chars_eq_str(cs, start, end, "highlife") {
        Some("B36/S23")
    } else if chars_eq_str(cs, start, end, "move") {
        Some("B368/S245")
    } else if chars_eq_str(cs, start, end, "coagulation") {
        Some("B378/S235678")
    } else if chars_eq_str(cs, start, end, "walled-cities") {
        Some("B45678/S2345")
    } else if chars_eq_str(cs, start, end, "bacteria") {
        Some("B34/S456")
    } else if chars_eq_str(cs, start, end, "longlife") {
        Some("B345/S5")
    } else if chars_eq_str(cs, start, end, "amoeba") {
        Some("B357/S1358")
    } else {
        None
    }
}

/// Reads a rule string, with no name substitution, from a range of a
/// character vector.
#[verifier::loop_isolation(false)]
fn parse_rule_chars(cs: &Vec<char>, start: usize, end: usize) -> (r: Result<Rule, RuleParseError>)
    requires
        start <= end <= cs@.len(),
    ensures
        match spec_parse_rule(cs@.subrange(start as int, end as int), 0, 0, false) {
            Some(sets) => r == Ok::<Rule, RuleParseError>(
                (Rule { birth: sets.0, survival: sets.1 }),
            ),
            None => r == Err::<Rule, RuleParseError>(RuleParseError::UnrecognisedRuleToken),
        },
{
    let ghost sub = cs@.subrange(start as int, end as int);
    let mut birth: u16 = 0;
    let mut survival: u16 = 0;
    let mut on_birth = false;
    let mut i: usize = start;
    proof {
        assert(cs@.subrange(start as int, end as int) =~= sub);
    }
    while i < end
        invariant
            start <= i <= end,
            spec_parse_rule(sub, 0, 0, false) == spec_parse_rule(
                cs@.subrange(i as int, end as int),
                birth,
                survival,
                on_birth,
            ),
        decreases end - i,
    {
        let c = cs[i];
        proof {
            assert(cs@.subrange(i as int, end as int)[0] == c);
            assert(cs@.subrange(i as int, end as int).skip(1) =~= cs@.subrange(
                i as int + 1,
                end as int,
            ));
        }
        if c == 'B' || c == '/' {
            on_birth = true;
        } else if c == 'S' {
            on_birth = false;
        } else {
            let u = c as u32;
            if 48 <= u && u <= 57 {
                let bit = 1u16 << ((u - 48) as u16);
                if on_birth {
                    birth = birth | bit;
                } else {
                    survival = survival | bit;
                }
            } else {
                return Err(RuleParseError::UnrecognisedRuleToken);
            }
        }
        i += 1;
    }
    proof {
        assert(cs@.subrange(end as int, end as int).len() == 0);
    }
    Ok(Rule { birth, survival })
}

/// Whether `count` lies in the digit set `mask`.
fn mask_contains(mask: u16, count: u32) -> (r: bool)
    ensures
        r == mask_has(mask, count as int),
{
    if count < 10 {
        ((mask >> (count as u16)) & 1) == 1
    } else {
        false
    }
}

impl Rule {
    /// Whether a dead cell with this many live neighbours is born.
    pub open spec fn births(self, count: int) -> bool {
        mask_has(self.birth, count)
    }

    /// Whether a live cell with this many live neighbours survives.
    pub open spec fn survives(self, count: int) -> bool {
        mask_has(self.survival, count)
    }

    /// Parses a rule string or a well-known rule name.
    pub fn parse(s: &str) -> (r: Result<Rule, RuleParseError>)
        ensures
            match spec_parse_rule(spec_effective_rule_string(s@), 0, 0, false) {
                Some(sets) => r == Ok::<Rule, RuleParseError>(
                    (Rule { birth: sets.0, survival: sets.1 }),
                ),
                None => r == Err::<Rule, RuleParseError>(RuleParseError::UnrecognisedRuleToken),
            },
    {
        let cs = crate::to_chars(s);
        proof {
            assert(cs@.subrange(0, cs@.len() as int) =~= s@);
        }
        Rule::parse_in_chars(&cs, 0, cs.len())
    }

    /// Parses a rule string or a well-known rule name held in a range of a
    /// character vector.
    pub(crate) fn parse_in_chars(cs: &Vec<char>, start: usize, end: usize) -> (r: Result<
        Rule,
        RuleParseError,
    >)
        requires
            start <= end <= cs@.len(),
        ensures
            match spec_parse_rule(
                spec_effective_rule_string(cs@.subrange(start as int, end as int)),
                0,
                0,
                false,
            ) {
                Some(sets) => r == Ok::<Rule, RuleParseError>(
                    (Rule { birth: sets.0, survival: sets.1 }),
                ),
                None => r == Err::<Rule, RuleParseError>(RuleParseError::UnrecognisedRuleToken),
            },
    {
        match named_rule_chars(cs, start, end) {
            Some(t) => {
                let tc = crate::to_chars(t);
                proof {
                    assert(tc@.subrange(0, tc@.len() as int) =~= t@);
                }
                parse_rule_chars(&tc, 0, tc.len())
            },
            None => parse_rule_chars(cs, start, end),
        }
    }

    /// The default rule, classic Life: birth on 3 neighbours, survival on 2
    /// or 3, the same rule the name `original` stands for.
    pub fn default() -> (r: Rule)
        ensures
            r == spec_default_rule(),
            forall|n: int| r.births(n) <==> n == 3,
            forall|n: int| r.survives(n) <==> (n == 2 || n == 3),
            spec_parse_rule(spec_effective_rule_string("original"@), 0, 0, false) == Some(
                (r.birth, r.survival),
            ),
    {
        let r = Rule { birth: 8, survival: 12 };
        proof {
            assert(r == spec_default_rule());
        }
        proof {
            assert(forall|n: u16|
                n < 16 ==> (((8u16 >> n) & 1u16 == 1u16) <==> n == 3)) by (bit_vector);
            assert(forall|n: u16|
                n < 16 ==> (((12u16 >> n) & 1u16 == 1u16) <==> (n == 2 || n == 3))) by (bit_vector);
            lemma_original_rule_parses();
        }
        r
    }

    /// Applies the rule: a live cell stays alive when its neighbour count is
    /// in the survival set, a dead cell comes alive when its neighbour count
    /// is in the birth set.
    pub fn apply(&self, alive: &bool, neigbours: &u32) -> (r: bool)
        ensures
            r == ((*alive && self.survives(*neigbours as int)) || (!*alive && self.births(
                *neigbours as int,
            ))),
    {
        (*alive && mask_contains(self.survival, *neigbours)) || (!*alive && mask_contains(
            self.birth,
            *neigbours,
        ))
    }
}

/// The canonical string of the rule named `original` parses to exactly the
/// sets `{3}` for birth and `{2, 3}` for survival.
proof fn lemma_original_rule_parses()
    ensures
        spec_parse_rule(spec_effective_rule_string("original"@), 0, 0, false) == Some(
            (8u16, 12u16),
        ),
{
    reveal_strlit("seeds");
    reveal_strlit("live-free-or-die");
    reveal_strlit("life-without-death");
    reveal_strlit("flock");
    reveal_strlit("mazectric");
    reveal_strlit("maze");
    reveal_strlit("original");
    reveal_strlit("B3/S23");
    let s = "B3/S23"@;
    assert("original"@.len() == 8);
    assert("seeds"@.len() == 5);
    assert("live-free-or-die"@.len() == 16);
    assert("life-without-death"@.len() == 18);
    assert("flock"@.len() == 5);
    assert("mazectric"@.len() == 9);
    assert("maze"@.len() == 4);
    assert(spec_effective_rule_string("original"@) == s);
    assert(s.len() == 6);
    assert(1u16 << 3u16 == 8u16) by (bit_vector);
    assert(1u16 << 2u16 == 4u16) by (bit_vector);
    assert(0u16 | 8u16 == 8u16) by (bit_vector);
    assert(0u16 | 4u16 == 4u16) by (bit_vector);
    assert(4u16 | 8u16 == 12u16) by (bit_vector);
    assert(s.skip(1).skip(1) =~= s.skip(2));
    assert(s.skip(2).skip(1) =~= s.skip(3));
    assert(s.skip(3).skip(1) =~= s.skip(4));
    assert(s.skip(4).skip(1) =~= s.skip(5));
    assert(s.skip(5).skip(1) =~= s.skip(6));
    assert(s[0] == 'B' && s[1] == '3' && s[2] == '/' && s[3] == 'S' && s[4] == '2' && s[5] == '3');
    assert(spec_parse_rule(s, 0, 0, false) == spec_parse_rule(s.skip(1), 0, 0, true));
    assert(spec_parse_rule(s.skip(1), 0, 0, true) == spec_parse_rule(s.skip(2), 8, 0, true));
    assert(spec_parse_rule(s.skip(2), 8, 0, true) == spec_parse_rule(s.skip(3), 8, 0, true));
    assert(spec_parse_rule(s.skip(3), 8, 0, true) == spec_parse_rule(s.skip(4), 8, 0, false));
    assert(spec_parse_rule(s.skip(4), 8, 0, false) == spec_parse_rule(s.skip(5), 8, 4, false));
    assert(spec_parse_rule(s.skip(5), 8, 4, false) == spec_parse_rule(s.skip(6), 8, 12, false));
    assert(s.skip(6).len() == 0);
    assert(spec_parse_rule(s.skip(6), 8, 12, false) == Some((8u16, 12u16)));
}

} // verus!
