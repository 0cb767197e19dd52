//! The pattern-file reader: a header line of comma-separated `key = value`
//! pairs, then a run-length-encoded body. `o` is a run of live cells, `b` a
//! run of dead cells, a digit prefix gives the run length, `$` ends a row,
//! `!` ends the whole pattern (anything after it is ignored), and other
//! characters are skipped.

use crate::generation::{dead_grid, grid_view, Grid};
use crate::rule::{spec_effective_rule_string, spec_parse_rule, Rule};
use vstd::prelude::*;

verus! {

/// A failure to read a pattern file.
#[derive(Debug, PartialEq, Eq, Structural, Clone, Copy)]
pub enum PatternFileParseError {
    /// The file has no line break separating the header from the body.
    MissingHeader,
    /// A header entry carries no `=` sign.
    MalformedHeader,
    /// A header dimension or a run length is not a number that fits.
    BadNumber,
    /// A run of live cells falls outside the grid the header promised.
    OutOfBounds,
}

/// The parsed header: the grid dimensions and, when the header names one,
/// the rule to play.
#[derive(Debug, PartialEq, Eq, Clone, Copy)]
pub struct Header {
    /// The grid width, from the `x` entry; zero when the entry is absent.
    pub width: usize,
    /// The grid height, from the `y` entry; zero when the entry is absent.
    pub height: usize,
    /// The rule from the `rule` entry, when present and readable.
    pub rule: Option<Rule>,
}

/// An ASCII whitespace character.
pub open spec fn is_space(c: char) -> bool {
    c == ' ' || c == '\t' || c == '\r' || c == '\n'
}

/// A decimal digit.
pub open spec fn is_digit(c: char) -> bool {
    48 <= c as u32 <= 57
}

/// The value of a decimal digit.
pub open spec fn digit_val(c: char) -> int {
    c as u32 - 48
}

/// `s` with ASCII whitespace removed from both ends.
pub open spec fn spec_trim(s: Seq<char>) -> Seq<char>
    decreases s.len(),
{
    if s.len() > 0 && is_space(s[0]) {
        spec_trim(s.skip(1))
    } else if s.len() > 0 && is_space(s.last()) {
        spec_trim(s.drop_last())
    } else {
        s
    }
}

/// Every character is a decimal digit.
pub open spec fn all_digits(s: Seq<char>) -> bool {
    forall|i: int| 0 <= i < s.len() ==> is_digit(#[trigger] s[i])
}

/// The number the digit string stands for, most significant digit first.
pub open spec fn digits_value(s: Seq<char>) -> int
    decreases s.len(),
{
    if s.len() == 0 {
        0
    } else {
        digits_value(s.drop_last()) * 10 + digit_val(s.last())
    }
}

/// What `str::parse::<usize>` accepts: an optional leading `+`, then one or
/// more digits, standing for a value that fits the type.
pub open spec fn spec_parse_usize(s: Seq<char>) -> Option<usize> {
    let digits = if s.len() > 0 && s[0] == '+' {
        s.skip(1)
    } else {
        s
    };
    if digits.len() == 0 || !all_digits(digits) {
        None
    } else if digits_value(digits) > usize::MAX as int {
        None
    } else {
        Some(digits_value(digits) as usize)
    }
}

/// The index of the first occurrence of `c` in `s`, if any.
pub open spec fn find_index(s: Seq<char>, c: char) -> Option<int>
    decreases s.len(),
{
    if s.len() == 0 {
        None
    } else if s[0] == c {
        Some(0)
    } else {
        match find_index(s.skip(1), c) {
            Some(i) => Some(i + 1),
            None => None,
        }
    }
}

/// What a forward scan establishes about `find_index`: if nothing up to `i`
/// matched, the first match is at `i` or nowhere.
proof fn lemma_find_index_scan(s: Seq<char>, c: char, i: int)
    requires
        0 <= i <= s.len(),
        forall|j: int| 0 <= j < i ==> s[j] != c,
    ensures
        i == s.len() ==> find_index(s, c) is None,
        i < s.len() && s[i] == c ==> find_index(s, c) == Some(i),
    decreases i,
{
    if i == 0 {
    } else {
        assert(s[0] != c);
        assert forall|j: int| 0 <= j < i - 1 implies s.skip(1)[j] != c by {
            assert(s.skip(1)[j] == s[j + 1]);
        }
        lemma_find_index_scan(s.skip(1), c, i - 1);
        if i < s.len() && s[i] == c {
            assert(s.skip(1)[i - 1] == c);
        }
    }
}

/// The state of a header scan: what has been read of the current
/// `key = value` segment, and the header built from the finished segments.
pub ghost struct HeaderScan {
    /// The header as the finished segments left it.
    pub header: Header,
    /// The characters before the segment's first `=`.
    pub name: Seq<char>,
    /// The characters after the segment's first `=`.
    pub value: Seq<char>,
    /// Whether the segment's `=` has been passed.
    pub in_value: bool,
}

/// A finished header segment folded into the header. A segment with no `=`
/// is malformed; a recognised name must carry a readable value; a `rule`
/// entry that does not parse leaves no rule; an unrecognised name is
/// ignored.
pub open spec fn spec_apply_segment(h: Header, name: Seq<char>, value: Seq<char>, has_eq: bool) -> Result<
    Header,
    PatternFileParseError,
> {
    if !has_eq {
        Err(PatternFileParseError::MalformedHeader)
    } else {
        let n = spec_trim(name);
        let v = spec_trim(value);
        if n == "x"@ {
            match spec_parse_usize(v) {
                Some(w) => Ok(Header { width: w, height: h.height, rule: h.rule }),
                None => Err(PatternFileParseError::BadNumber),
            }
        } else if n == "y"@ {
            match spec_parse_usize(v) {
                Some(hh) => Ok(Header { width: h.width, height: hh, rule: h.rule }),
                None => Err(PatternFileParseError::BadNumber),
            }
        } else if n == "rule"@ {
            Ok(
                Header {
                    width: h.width,
                    height: h.height,
                    rule: match spec_parse_rule(spec_effective_rule_string(v), 0, 0, false) {
                        Some(sets) => Some(Rule { birth: sets.0, survival: sets.1 }),
                        None => None,
                    },
                },
            )
        } else {
            Ok(h)
        }
    }
}

/// One character of the header line: `,` finishes the segment, the first
/// `=` of a segment switches from name to value, anything else joins
/// whichever side is being read.
pub open spec fn spec_header_step(st: HeaderScan, c: char) -> Result<
    HeaderScan,
    PatternFileParseError,
> {
    if c == ',' {
        match spec_apply_segment(st.header, st.name, st.value, st.in_value) {
            Ok(h) => Ok(
                HeaderScan {
                    header: h,
                    name: Seq::<char>::empty(),
                    value: Seq::<char>::empty(),
                    in_value: false,
                },
            ),
            Err(e) => Err(e),
        }
    } else if c == '=' && !st.in_value {
        Ok(HeaderScan { header: st.header, name: st.name, value: st.value, in_value: true })
    } else if st.in_value {
        Ok(
            HeaderScan {
                header: st.header,
                name: st.name,
                value: st.value.push(c),
                in_value: st.in_value,
            },
        )
    } else {
        Ok(
            HeaderScan {
                header: st.header,
                name: st.name.push(c),
                value: st.value,
                in_value: st.in_value,
            },
        )
    }
}

/// The rest of the header line folded over the scan state; the last
/// segment is finished by the end of the line.
pub open spec fn spec_header_scan(s: Seq<char>, st: HeaderScan) -> Result<
    Header,
    PatternFileParseError,
>
    decreases s.len(),
{
    if s.len() == 0 {
        spec_apply_segment(st.header, st.name, st.value, st.in_value)
    } else {
        match spec_header_step(st, s[0]) {
            Ok(st2) => spec_header_scan(s.skip(1), st2),
            Err(e) => Err(e),
        }
    }
}

/// A header scan that has read nothing: both dimensions default to zero,
/// no rule, an empty first segment.
pub open spec fn initial_header_scan() -> HeaderScan {
    HeaderScan {
        header: Header { width: 0, height: 0, rule: None },
        name: Seq::<char>::empty(),
        value: Seq::<char>::empty(),
        in_value: false,
    }
}

/// What a header line means.
pub open spec fn spec_parse_header(s: Seq<char>) -> Result<Header, PatternFileParseError> {
    spec_header_scan(s, initial_header_scan())
}

/// The state of a body scan: the grid so far, the cursor, and the pending
/// run length, kept exact however large.
pub ghost struct GridScan {
    /// The grid as written so far.
    pub grid: Seq<Seq<bool>>,
    /// The column the next run starts at.
    pub x: int,
    /// The row being written.
    pub y: int,
    /// The digits read since the last run, as a number; `None` when no
    /// digit is pending.
    pub run: Option<int>,
}

/// The row with cells `x` up to `x + len` set alive.
pub open spec fn fill_row(row: Seq<bool>, x: int, len: int) -> Seq<bool> {
    Seq::new(row.len(), |i: int| if x <= i < x + len {
        true
    } else {
        row[i]
    })
}

/// One character of the body, `!` aside (the scan itself stops there). A
/// pending run length that does not fit the machine fails where it is
/// used, as `str::parse` would; a live run that leaves the grid fails; a
/// dead run just moves the cursor, which may pass the row's end; `$`
/// returns the cursor to the start of the next row and a pending run
/// length survives it; unrecognised characters are ignored.
pub open spec fn spec_grid_step(st: GridScan, c: char, width: int, height: int) -> Result<
    GridScan,
    PatternFileParseError,
> {
    if c == 'o' {
        let len = match st.run {
            Some(v) => v,
            None => 1,
        };
        if len > usize::MAX as int {
            Err(PatternFileParseError::BadNumber)
        } else if len > 0 && !(0 <= st.y < height && st.x + len <= width) {
            Err(PatternFileParseError::OutOfBounds)
        } else if len == 0 {
            Ok(GridScan { grid: st.grid, x: st.x, y: st.y, run: None })
        } else {
            Ok(
                GridScan {
                    grid: st.grid.update(st.y, fill_row(st.grid[st.y], st.x, len)),
                    x: st.x + len,
                    y: st.y,
                    run: None,
                },
            )
        }
    } else if c == 'b' {
        let len = match st.run {
            Some(v) => v,
            None => 1,
        };
        if len > usize::MAX as int {
            Err(PatternFileParseError::BadNumber)
        } else if st.x + len > usize::MAX as int {
            Err(PatternFileParseError::OutOfBounds)
        } else {
            Ok(GridScan { grid: st.grid, x: st.x + len, y: st.y, run: None })
        }
    } else if is_digit(c) {
        let sofar = match st.run {
            Some(v) => v,
            None => 0,
        };
        Ok(GridScan { grid: st.grid, x: st.x, y: st.y, run: Some(sofar * 10 + digit_val(c)) })
    } else if c == '$' {
        Ok(GridScan { grid: st.grid, x: 0, y: st.y + 1, run: st.run })
    } else {
        Ok(st)
    }
}

/// The rest of the body folded over the scan state. The first `!`
/// terminates the pattern: the grid built so far is the result, and
/// whatever follows cannot change it.
pub open spec fn spec_grid_scan(s: Seq<char>, st: GridScan, width: int, height: int) -> Result<
    Seq<Seq<bool>>,
    PatternFileParseError,
>
    decreases s.len(),
{
    if s.len() == 0 {
        Ok(st.grid)
    } else if s[0] == '!' {
        Ok(st.grid)
    } else {
        match spec_grid_step(st, s[0], width, height) {
            Ok(st2) => spec_grid_scan(s.skip(1), st2, width, height),
            Err(e) => Err(e),
        }
    }
}

/// The all-dead grid the body starts from.
pub open spec fn initial_grid(width: int, height: int) -> Seq<Seq<bool>> {
    Seq::new(height as nat, |y: int| Seq::new(width as nat, |x: int| false))
}

/// What a body means, against the dimensions the header promised.
pub open spec fn spec_parse_grid(s: Seq<char>, width: int, height: int) -> Result<
    Seq<Seq<bool>>,
    PatternFileParseError,
> {
    spec_grid_scan(s, GridScan { grid: initial_grid(width, height), x: 0, y: 0, run: None },
        width, height)
}

/// `digits_value` never goes negative.
proof fn lemma_digits_value_nonneg(s: Seq<char>)
    requires
        all_digits(s),
    ensures
        digits_value(s) >= 0,
    decreases s.len(),
{
    if s.len() > 0 {
        assert forall|i: int| 0 <= i < s.drop_last().len() implies is_digit(
            #[trigger] s.drop_last()[i],
        ) by {
            assert(s.drop_last()[i] == s[i]);
        }
        lemma_digits_value_nonneg(s.drop_last());
        assert(digits_value(s.drop_last()) * 10 >= 0) by (nonlinear_arith)
            requires
                digits_value(s.drop_last()) >= 0,
        ;
    }
}

/// An ASCII whitespace character.
fn is_space_exec(c: char) -> (r: bool)
    ensures
        r == is_space(c),
{
    c == ' ' || c == '\t' || c == '\r' || c == '\n'
}

/// The bounds of the range with ASCII whitespace removed from both ends.
#[verifier::loop_isolation(false)]
fn trim_range(cs: &Vec<char>, start: usize, end: usize) -> (r: (usize, usize))
    requires
        start <= end <= cs@.len(),
    ensures
        start <= r.0 <= r.1 <= end,
        cs@.subrange(r.0 as int, r.1 as int) == spec_trim(
            cs@.subrange(start as int, end as int),
        ),
{
    let ghost orig = cs@.subrange(start as int, end as int);
    let mut lo = start;
    let mut hi = end;
    while lo < hi && is_space_exec(cs[lo])
        invariant
            start <= lo <= hi == end,
            spec_trim(orig) == spec_trim(cs@.subrange(lo as int, hi as int)),
        decreases hi - lo,
    {
        proof {
            assert(cs@.subrange(lo as int, hi as int)[0] == cs@[lo as int]);
            assert(cs@.subrange(lo as int, hi as int).skip(1) =~= cs@.subrange(
                lo as int + 1,
                hi as int,
            ));
        }
        lo += 1;
    }
    while lo < hi && is_space_exec(cs[hi - 1])
        invariant
            start <= lo <= hi <= end,
            spec_trim(orig) == spec_trim(cs@.subrange(lo as int, hi as int)),
            lo < hi ==> !is_space(cs@[lo as int]),
        decreases hi - lo,
    {
        proof {
            assert(cs@.subrange(lo as int, hi as int)[0] == cs@[lo as int]);
            assert(cs@.subrange(lo as int, hi as int).last() == cs@[hi as int - 1]);
            assert(cs@.subrange(lo as int, hi as int).drop_last() =~= cs@.subrange(
                lo as int,
                hi as int - 1,
            ));
        }
        hi -= 1;
    }
    proof {
        let t = cs@.subrange(lo as int, hi as int);
        if lo < hi {
            assert(t[0] == cs@[lo as int]);
            assert(t.last() == cs@[hi as int - 1]);
            assert(spec_trim(t) == t);
        } else {
            assert(t.len() == 0);
            assert(spec_trim(t) == t);
        }
    }
    (lo, hi)
}

/// Reads a usize the way `str::parse` does: an optional leading `+`, then
/// digits; too large a value is rejected.
#[verifier::loop_isolation(false)]
fn parse_usize_chars(cs: &Vec<char>, start: usize, end: usize) -> (r: Option<usize>)
    requires
        start <= end <= cs@.len(),
    ensures
        r == spec_parse_usize(cs@.subrange(start as int, end as int)),
{
    let ghost sub = cs@.subrange(start as int, end as int);
    let mut i = start;
    if i < end && cs[i] == '+' {
        proof {
            assert(sub[0] == '+');
            assert(sub.skip(1) =~= cs@.subrange(start as int + 1, end as int));
        }
        i += 1;
    }
    let ghost digits = cs@.subrange(i as int, end as int);
    proof {
        if sub.len() > 0 && sub[0] == '+' {
            assert(digits == sub.skip(1));
        } else {
            assert(digits =~= sub);
        }
    }
    if i == end {
        proof {
            assert(digits.len() == 0);
        }
        return None;
    }
    let mut acc: usize = 0;
    let mut over = false;
    let mut j = i;
    while j < end
        invariant
            i <= j <= end,
            all_digits(cs@.subrange(i as int, j as int)),
            !over ==> acc as int == digits_value(cs@.subrange(i as int, j as int)),
            over ==> digits_value(cs@.subrange(i as int, j as int)) > usize::MAX as int,
        decreases end - j,
    {
        let c = cs[j];
        let u = c as u32;
        if !(48 <= u && u <= 57) {
            proof {
                assert(digits[j as int - i as int] == c);
                assert(!is_digit(c));
                assert(!all_digits(digits));
            }
            return None;
        }
        let d = (u - 48) as usize;
        let ghost prefix = cs@.subrange(i as int, j as int);
        let ghost prefix2 = cs@.subrange(i as int, j as int + 1);
        proof {
            assert(prefix2.drop_last() =~= prefix);
            assert(prefix2.last() == c);
            assert(digits_value(prefix2) == digits_value(prefix) * 10 + digit_val(c));
            assert forall|k: int| 0 <= k < prefix2.len() implies is_digit(#[trigger] prefix2[k]) by {
                if k < prefix.len() {
                    assert(prefix2[k] == prefix[k]);
                } else {
                    assert(prefix2[k] == c);
                }
            }
        }
        if over {
            proof {
                lemma_digits_value_nonneg(prefix);
                assert(digits_value(prefix) * 10 + digit_val(c) > usize::MAX as int)
                    by (nonlinear_arith)
                    requires
                        digits_value(prefix) > usize::MAX as int,
                        digit_val(c) >= 0,
                ;
            }
        } else {
            match acc.checked_mul(10) {
                Some(t) => match t.checked_add(d) {
                    Some(v) => {
                        acc = v;
                    },
                    None => {
                        over = true;
                    },
                },
                None => {
                    over = true;
                },
            }
        }
        j += 1;
    }
    proof {
        assert(cs@.subrange(i as int, end as int) =~= digits);
    }
    if over {
        None
    } else {
        Some(acc)
    }
}

/// Folds one finished header segment into the header.
fn apply_segment(
    width: usize,
    height: usize,
    rule: Option<Rule>,
    name: &Vec<char>,
    value: &Vec<char>,
    has_eq: bool,
) -> (r: Result<Header, PatternFileParseError>)
    ensures
        r == spec_apply_segment(Header { width, height, rule }, name@, value@, has_eq),
{
    if !has_eq {
        return Err(PatternFileParseError::MalformedHeader);
    }
    let (nlo, nhi) = trim_range(name, 0, name.len());
    let (vlo, vhi) = trim_range(value, 0, value.len());
    proof {
        assert(name@.subrange(0, name@.len() as int) =~= name@);
        assert(value@.subrange(0, value@.len() as int) =~= value@);
    }
    if crate::rule::chars_eq_str(name, nlo, nhi, "x") {
        match parse_usize_chars(value, vlo, vhi) {
            Some(w) => Ok(Header { width: w, height, rule }),
            None => Err(PatternFileParseError::BadNumber),
        }
    } else if crate::rule::chars_eq_str(name, nlo, nhi, "y") {
        match parse_usize_chars(value, vlo, vhi) {
            Some(h) => Ok(Header { width, height: h, rule }),
            None => Err(PatternFileParseError::BadNumber),
        }
    } else if crate::rule::chars_eq_str(name, nlo, nhi, "rule") {
        let parsed = Rule::parse_in_chars(value, vlo, vhi);
        Ok(
            Header {
                width,
                height,
                rule: match parsed {
                    Ok(ru) => Some(ru),
                    Err(_) => None,
                },
            },
        )
    } else {
        Ok(Header { width, height, rule })
    }
}

/// Reads a header held in a range of a character vector.
#[verifier::loop_isolation(false)]
fn parse_header_chars(cs: &Vec<char>, start: usize, end: usize) -> (r: Result<
    Header,
    PatternFileParseError,
>)
    requires
        start <= end <= cs@.len(),
    ensures
        r == spec_parse_header(cs@.subrange(start as int, end as int)),
{
    let ghost sub = cs@.subrange(start as int, end as int);
    let mut width: usize = 0;
    let mut height: usize = 0;
    let mut rule: Option<Rule> = None;
    let mut name: Vec<char> = Vec::new();
    let mut value: Vec<char> = Vec::new();
    let mut in_value = false;
    let mut i = start;
    proof {
        assert(cs@.subrange(start as int, end as int) =~= sub);
        assert(initial_header_scan() == (HeaderScan {
            header: Header { width: 0, height: 0, rule: None },
            name: Seq::<char>::empty(),
            value: Seq::<char>::empty(),
            in_value: false,
        }));
        assert(name@ =~= Seq::<char>::empty());
        assert(value@ =~= Seq::<char>::empty());
    }
    while i < end
        invariant
            start <= i <= end,
            spec_header_scan(sub, initial_header_scan()) == spec_header_scan(
                cs@.subrange(i as int, end as int),
                HeaderScan { header: Header { width, height, rule }, name: name@, value: value@, in_value },
            ),
        decreases end - i,
    {
        let c = cs[i];
        proof {
            assert(cs@.subrange(i as int, end as int)[0] == c);
            assert(cs@.subrange(i as int, end as int).skip(1) =~= cs@.subrange(
                i as int + 1,
                end as int,
            ));
        }
        if c == ',' {
            match apply_segment(width, height, rule, &name, &value, in_value) {
                Ok(h) => {
                    width = h.width;
                    height = h.height;
                    rule = h.rule;
                    name = Vec::new();
                    value = Vec::new();
                    in_value = false;
                    proof {
                        assert(name@ =~= Seq::<char>::empty());
                        assert(value@ =~= Seq::<char>::empty());
                    }
                },
                Err(e) => {
                    return Err(e);
                },
            }
        } else if c == '=' && !in_value {
            in_value = true;
        } else if in_value {
            value.push(c);
        } else {
            name.push(c);
        }
        i += 1;
    }
    proof {
        assert(cs@.subrange(end as int, end as int).len() == 0);
    }
    apply_segment(width, height, rule, &name, &value, in_value)
}

/// Reads the header line of a pattern file: comma-separated `key = value`
/// entries, of which `x` (width), `y` (height) and `rule` are understood
/// and the rest are ignored.
pub fn parse_header(header: &str) -> (r: Result<Header, PatternFileParseError>)
    ensures
        r == spec_parse_header(header@),
{
    let cs = crate::to_chars(header);
    proof {
        assert(cs@.subrange(0, cs@.len() as int) =~= header@);
    }
    parse_header_chars(&cs, 0, cs.len())
}

/// What a whole pattern file means: the first line is the header, the rest
/// is the body.
pub open spec fn spec_parse_file(s: Seq<char>) -> Result<
    (Seq<Seq<bool>>, Option<Rule>),
    PatternFileParseError,
> {
    match find_index(s, '\n') {
        None => Err(PatternFileParseError::MissingHeader),
        Some(i) => match spec_parse_header(s.subrange(0, i)) {
            Err(e) => Err(e),
            Ok(h) => match spec_parse_grid(
                s.subrange(i + 1, s.len() as int),
                h.width as int,
                h.height as int,
            ) {
                Err(e) => Err(e),
                Ok(g) => Ok((g, h.rule)),
            },
        },
    }
}

/// Reads a body held in a range of a character vector, against the given
/// dimensions.
#[verifier::loop_isolation(false)]
fn parse_grid_chars(cs: &Vec<char>, start: usize, end: usize, width: usize, height: usize) -> (r:
    Result<Grid, PatternFileParseError>)
    requires
        start <= end <= cs@.len(),
    ensures
        match r {
            Ok(g) => spec_parse_grid(cs@.subrange(start as int, end as int), width as int,
                height as int) == Ok::<Seq<Seq<bool>>, PatternFileParseError>(grid_view(g)),
            Err(e) => spec_parse_grid(cs@.subrange(start as int, end as int), width as int,
                height as int) == Err::<Seq<Seq<bool>>, PatternFileParseError>(e),
        },
        r matches Ok(g) ==> g@.len() == height && (forall|y: int|
            0 <= y < height ==> (#[trigger] g@[y])@.len() == width),
{
    let ghost sub = cs@.subrange(start as int, end as int);
    let mut grid = dead_grid(width, height);
    proof {
        assert forall|y: int| 0 <= y < height implies grid_view(grid)[y] == initial_grid(
            width as int,
            height as int,
        )[y] by {
            assert(grid_view(grid)[y] == grid@[y]@);
            assert(grid_view(grid)[y] =~= initial_grid(width as int, height as int)[y]);
        }
        assert(grid_view(grid) =~= initial_grid(width as int, height as int));
        assert(cs@.subrange(start as int, end as int) =~= sub);
    }
    let mut x: usize = 0;
    let mut y: usize = 0;
    let mut run: usize = 0;
    let mut has_run = false;
    let mut over = false;
    let ghost mut grun: Option<int> = None;
    let mut i = start;
    while i < end
        invariant
            start <= i <= end,
            y <= i - start,
            grid@.len() == height,
            forall|y2: int| 0 <= y2 < height ==> (#[trigger] grid@[y2])@.len() == width,
            match grun {
                None => !has_run,
                Some(v) => has_run && v >= 0 && (if v <= usize::MAX as int {
                    !over && run as int == v
                } else {
                    over
                }),
            },
            spec_grid_scan(sub, GridScan {
                grid: initial_grid(width as int, height as int),
                x: 0,
                y: 0,
                run: None,
            }, width as int, height as int) == spec_grid_scan(
                cs@.subrange(i as int, end as int),
                GridScan { grid: grid_view(grid), x: x as int, y: y as int, run: grun },
                width as int,
                height as int,
            ),
        decreases end - i,
    {
        let c = cs[i];
        let ghost st = GridScan { grid: grid_view(grid), x: x as int, y: y as int, run: grun };
        proof {
            assert(cs@.subrange(i as int, end as int)[0] == c);
            assert(cs@.subrange(i as int, end as int).skip(1) =~= cs@.subrange(
                i as int + 1,
                end as int,
            ));
        }
        if c == '!' {
            return Ok(grid);
        }
        if c == 'o' {
            if has_run && over {
                return Err(PatternFileParseError::BadNumber);
            }
            let len = if has_run {
                run
            } else {
                1
            };
            if len > 0 {
                if !(y < height) {
                    return Err(PatternFileParseError::OutOfBounds);
                }
                if x > width || len > width - x {
                    return Err(PatternFileParseError::OutOfBounds);
                }
                let ghost old_grid = grid_view(grid);
                let mut n: usize = 0;
                while n < len
                    invariant
                        n <= len,
                        x + len <= width,
                        y < height,
                        grid@.len() == height,
                        forall|y2: int| 0 <= y2 < height ==> (#[trigger] grid@[y2])@.len() == width,
                        forall|y2: int|
                            0 <= y2 < height && y2 != y ==> (#[trigger] grid_view(grid)[y2])
                                == old_grid[y2],
                        forall|j: int|
                            0 <= j < width ==> grid_view(grid)[y as int][j] == (if x <= j < x + n {
                                true
                            } else {
                                old_grid[y as int][j]
                            }),
                    decreases len - n,
                {
                    let ghost before = grid_view(grid);
                    let row = &mut grid[y];
                    row[x + n] = true;
                    proof {
                        assert(grid_view(grid) =~= before.update(
                            y as int,
                            before[y as int].update(x as int + n, true),
                        ));
                    }
                    n += 1;
                }
                proof {
                    assert forall|y2: int| 0 <= y2 < height implies grid_view(grid)[y2] == st
                        .grid.update(
                        y as int,
                        fill_row(st.grid[y as int], x as int, len as int),
                    )[y2] by {
                        if y2 == y as int {
                            assert(grid_view(grid)[y2] =~= fill_row(
                                st.grid[y as int],
                                x as int,
                                len as int,
                            ));
                        }
                    }
                    assert(grid_view(grid) =~= st.grid.update(
                        y as int,
                        fill_row(st.grid[y as int], x as int, len as int),
                    ));
                }
                x = x + len;
            }
            has_run = false;
            over = false;
            proof {
                grun = None;
            }
        } else if c == 'b' {
            if has_run && over {
                return Err(PatternFileParseError::BadNumber);
            }
            let len = if has_run {
                run
            } else {
                1
            };
            match x.checked_add(len) {
                Some(nx) => {
                    x = nx;
                },
                None => {
                    return Err(PatternFileParseError::OutOfBounds);
                },
            }
            has_run = false;
            over = false;
            proof {
                grun = None;
            }
        } else {
            let u = c as u32;
            if 48 <= u && u <= 57 {
                let d = (u - 48) as usize;
                let ghost sofar: int = match grun {
                    Some(v) => v,
                    None => 0,
                };
                if !has_run {
                    run = d;
                    has_run = true;
                    over = false;
                } else if over {
                    proof {
                        assert(sofar * 10 + digit_val(c) > usize::MAX as int) by (nonlinear_arith)
                            requires
                                sofar > usize::MAX as int,
                                digit_val(c) >= 0,
                        ;
                    }
                } else {
                    match run.checked_mul(10) {
                        Some(t) => match t.checked_add(d) {
                            Some(v) => {
                                run = v;
                            },
                            None => {
                                over = true;
                            },
                        },
                        None => {
                            over = true;
                        },
                    }
                }
                proof {
                    grun = Some(sofar * 10 + digit_val(c));
                }
            } else if c == '$' {
                x = 0;
                y += 1;
            }
        }
        i += 1;
    }
    proof {
        assert(cs@.subrange(end as int, end as int).len() == 0);
    }
    Ok(grid)
}

/// Reads the run-length-encoded body of a pattern file into a grid of the
/// dimensions the header promised.
pub fn parse_grid(header: &Header, contents: &str) -> (r: Result<Grid, PatternFileParseError>)
    ensures
        match r {
            Ok(g) => spec_parse_grid(contents@, header.width as int, header.height as int)
                == Ok::<Seq<Seq<bool>>, PatternFileParseError>(grid_view(g)),
            Err(e) => spec_parse_grid(contents@, header.width as int, header.height as int)
                == Err::<Seq<Seq<bool>>, PatternFileParseError>(e),
        },
        r matches Ok(g) ==> g@.len() == header.height && (forall|y: int|
            0 <= y < header.height ==> (#[trigger] g@[y])@.len() == header.width),
{
    let cs = crate::to_chars(contents);
    proof {
        assert(cs@.subrange(0, cs@.len() as int) =~= contents@);
    }
    parse_grid_chars(&cs, 0, cs.len(), header.width, header.height)
}

/// Reads a whole pattern file: the first line as the header, the rest as
/// the body, handing back the grid and the rule the header named, if any.
#[verifier::loop_isolation(false)]
pub fn parse_file(contents: &str) -> (r: Result<(Grid, Option<Rule>), PatternFileParseError>)
    ensures
        match r {
            Ok(p) => spec_parse_file(contents@) == Ok::<
                (Seq<Seq<bool>>, Option<Rule>),
                PatternFileParseError,
            >((grid_view(p.0), p.1)),
            Err(e) => spec_parse_file(contents@) == Err::<
                (Seq<Seq<bool>>, Option<Rule>),
                PatternFileParseError,
            >(e),
        },
{
    let cs = crate::to_chars(contents);
    let mut i: usize = 0;
    while i < cs.len() && cs[i] != '\n'
        invariant
            0 <= i <= cs@.len(),
            forall|j: int| 0 <= j < i ==> cs@[j] != '\n',
        decreases cs@.len() - i,
    {
        i += 1;
    }
    proof {
        lemma_find_index_scan(cs@, '\n', i as int);
    }
    if i == cs.len() {
        return Err(PatternFileParseError::MissingHeader);
    }
    proof {
        assert(find_index(contents@, '\n') == Some(i as int));
        assert(cs@.subrange(0, i as int) == contents@.subrange(0, i as int));
    }
    match parse_header_chars(&cs, 0, i) {
        Err(e) => Err(e),
        Ok(h) => {
            proof {
                assert(cs@.subrange(i as int + 1, cs@.len() as int) == contents@.subrange(
                    i as int + 1,
                    contents@.len() as int,
                ));
            }
            match parse_grid_chars(&cs, i + 1, cs.len(), h.width, h.height) {
                Err(e) => Err(e),
                Ok(g) => Ok((g, h.rule)),
            }
        },
    }
}

} // verus!
