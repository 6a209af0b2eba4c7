//! Edge-list parsing and the one-pass load protocol: one record per line,
//! two tab-separated decimal node identifiers; lines starting with `#` and
//! empty lines are skipped; any other malformed line is a fatal load error.

use crate::graph::spec_add_edge;
use crate::graph::Graph;
use vstd::prelude::*;

verus! {

/// Why a line of the edge list was rejected.
#[derive(Clone, Copy, PartialEq, Eq, Debug)]
pub enum ParseError {
    /// The line does not consist of exactly two tab-separated fields.
    WrongFieldCount,
    /// A field is not a plain decimal `u32`.
    BadInteger,
}

/// Decimal digit test.
pub open spec fn is_digit(c: char) -> bool {
    48 <= c as u32 <= 57
}

pub open spec fn digit_val(c: char) -> int {
    c as u32 - 48
}

pub open spec fn all_digits(s: Seq<char>) -> bool {
    forall|i: int| 0 <= i < s.len() ==> is_digit(#[trigger] s[i])
}

/// Value of a digit string read left to right.
pub open spec fn digits_val(s: Seq<char>) -> int
    decreases s.len(),
{
    if s.len() == 0 {
        0
    } else {
        digits_val(s.drop_last()) * 10 + digit_val(s.last())
    }
}

/// Plain decimal `u32` parse: nonempty, digits only, within range.
pub open spec fn spec_parse_u32(s: Seq<char>) -> Option<u32> {
    if s.len() > 0 && all_digits(s) && digits_val(s) <= u32::MAX {
        Some(digits_val(s) as u32)
    } else {
        None
    }
}

/// Index of the first tab at or after `i`, or the length when there is none.
pub open spec fn first_tab(s: Seq<char>, i: int) -> int
    decreases s.len() - i,
{
    if i < 0 || i >= s.len() {
        s.len() as int
    } else if s[i] == '\t' {
        i
    } else {
        first_tab(s, i + 1)
    }
}

/// One line of the edge list: `Ok(None)` for comments and empty lines,
/// `Ok(Some(pair))` for a well-formed record, an error otherwise.
pub open spec fn spec_parse_line(s: Seq<char>) -> Result<Option<(u32, u32)>, ParseError> {
    if s.len() == 0 {
        Ok(None)
    } else if s[0] == '#' {
        Ok(None)
    } else {
        let t = first_tab(s, 0);
        if t == s.len() {
            Err(ParseError::WrongFieldCount)
        } else if first_tab(s, t + 1) != s.len() {
            Err(ParseError::WrongFieldCount)
        } else {
            match (spec_parse_u32(s.subrange(0, t)), spec_parse_u32(
                s.subrange(t + 1, s.len() as int),
            )) {
                (Some(a), Some(b)) => Ok(Some((a, b))),
                _ => Err(ParseError::BadInteger),
            }
        }
    }
}

proof fn lemma_digits_val_nonneg(s: Seq<char>)
    requires
        all_digits(s),
    ensures
        digits_val(s) >= 0,
    decreases s.len(),
{
    if s.len() > 0 {
        assert(all_digits(s.drop_last()));
        lemma_digits_val_nonneg(s.drop_last());
        assert(is_digit(s.last()));
    }
}

/// With digits only, the value never shrinks as the string extends.
proof fn lemma_digits_val_prefix(s: Seq<char>, j: int)
    requires
        0 <= j <= s.len(),
        all_digits(s),
    ensures
        digits_val(s) >= digits_val(s.take(j)),
    decreases s.len() - j,
{
    if j < s.len() {
        assert(s.take(j + 1).drop_last() =~= s.take(j));
        assert(s.take(j + 1).last() == s[j]);
        assert(all_digits(s.take(j)));
        lemma_digits_val_nonneg(s.take(j));
        assert(is_digit(s[j]));
        assert(digits_val(s.take(j + 1)) == digits_val(s.take(j)) * 10 + digit_val(s[j]));
        assert(digits_val(s.take(j)) * 10 >= digits_val(s.take(j))) by (nonlinear_arith)
            requires
                digits_val(s.take(j)) >= 0,
        ;
        lemma_digits_val_prefix(s, j + 1);
    } else {
        assert(s.take(j) =~= s);
    }
}

/// `t` is the first tab position when nothing before it is a tab.
proof fn lemma_first_tab(s: Seq<char>, i0: int, t: int)
    requires
        0 <= i0 <= t <= s.len(),
        forall|j: int| i0 <= j < t ==> s[j] != '\t',
        t == s.len() || s[t] == '\t',
    ensures
        first_tab(s, i0) == t,
    decreases t - i0,
{
    if i0 < t {
        lemma_first_tab(s, i0 + 1, t);
    }
}

/// Parse the character range `[from, to)` of `line` as a decimal `u32`.
#[verifier::loop_isolation(false)]
fn parse_u32_field(line: &str, from: usize, to: usize) -> (r: Option<u32>)
    requires
        from <= to <= line@.len(),
    ensures
        r == spec_parse_u32(line@.subrange(from as int, to as int)),
{
    let ghost s = line@.subrange(from as int, to as int);
    if from == to {
        return None;
    }
    let mut acc: u64 = 0;
    let mut i: usize = from;
    while i < to
        invariant
            from <= i <= to,
            all_digits(s.take(i - from)),
            acc == digits_val(s.take(i - from)),
            acc <= u32::MAX,
        decreases to - i,
    {
        let c = line.get_char(i);
        proof {
            assert(s[i - from] == c);
        }
        let u = c as u32;
        if u < 48 || u > 57 {
            proof {
                assert(!is_digit(c));
                assert(!all_digits(s));
            }
            return None;
        }
        let d = u - 48;
        let acc2: u64 = acc * 10 + d as u64;
        proof {
            assert(s.take(i - from + 1).drop_last() =~= s.take(i - from));
            assert(s.take(i - from + 1).last() == s[i - from]);
            assert(digits_val(s.take(i - from + 1)) == acc2);
            assert(all_digits(s.take(i - from + 1)));
        }
        if acc2 > 0xFFFF_FFFF {
            proof {
                if all_digits(s) && digits_val(s) <= u32::MAX {
                    lemma_digits_val_prefix(s, i - from + 1);
                    assert(false);
                }
            }
            return None;
        }
        acc = acc2;
        i += 1;
    }
    proof {
        assert(s.take(to - from) =~= s);
        assert(all_digits(s) && digits_val(s) == acc);
    }
    Some(acc as u32)
}

/// Parse one line of the edge list, exactly as `spec_parse_line` says.
#[verifier::loop_isolation(false)]
pub fn parse_edge_line(line: &str) -> (r: Result<Option<(u32, u32)>, ParseError>)
    ensures
        r == spec_parse_line(line@),
{
    let n = line.unicode_len();
    if n == 0 {
        return Ok(None);
    }
    let c0 = line.get_char(0);
    if c0 == '#' {
        return Ok(None);
    }
    let mut t: usize = 0;
    while t < n && line.get_char(t) != '\t'
        invariant
            t <= n,
            forall|j: int| 0 <= j < t ==> line@[j] != '\t',
        decreases n - t,
    {
        t += 1;
    }
    proof {
        lemma_first_tab(line@, 0, t as int);
    }
    if t == n {
        return Err(ParseError::WrongFieldCount);
    }
    let mut t2: usize = t + 1;
    while t2 < n && line.get_char(t2) != '\t'
        invariant
            t + 1 <= t2 <= n,
            forall|j: int| t + 1 <= j < t2 ==> line@[j] != '\t',
        decreases n - t2,
    {
        t2 += 1;
    }
    proof {
        lemma_first_tab(line@, t as int + 1, t2 as int);
    }
    if t2 < n {
        return Err(ParseError::WrongFieldCount);
    }
    let a = parse_u32_field(line, 0, t);
    let b = parse_u32_field(line, t + 1, n);
    match (a, b) {
        (Some(x), Some(y)) => Ok(Some((x, y))),
        _ => Err(ParseError::BadInteger),
    }
}

/// The adjacency map left by folding the first `i` lines, or the first
/// parse error among them.
pub open spec fn spec_load(lines: Seq<Seq<char>>, i: int) -> Result<
    Map<u32, Set<u32>>,
    ParseError,
>
    decreases i,
{
    if i <= 0 {
        Ok(Map::empty())
    } else {
        match spec_load(lines, i - 1) {
            Err(e) => Err(e),
            Ok(m) => match spec_parse_line(lines[i - 1]) {
                Err(e) => Err(e),
                Ok(None) => Ok(m),
                Ok(Some(p)) => Ok(spec_add_edge(m, p.0, p.1)),
            },
        }
    }
}

/// A load error stays the first error, whatever lines follow.
proof fn lemma_load_err(lines: Seq<Seq<char>>, j: int, i: int)
    requires
        0 <= j <= i,
        spec_load(lines, j) is Err,
    ensures
        spec_load(lines, i) == spec_load(lines, j),
    decreases i - j,
{
    if j < i {
        lemma_load_err(lines, j, i - 1);
    }
}

/// Load a graph from the lines of an edge-list file in one streaming pass:
/// comments and empty lines are skipped, every record adds one undirected
/// edge, and the first malformed line aborts the load.
#[verifier::loop_isolation(false)]
pub fn load_graph(lines: &Vec<String>) -> (r: Result<Graph, ParseError>)
    ensures
        match r {
            Ok(g) => g.wf() && spec_load(
                lines@.map_values(|l: String| l@),
                lines@.len() as int,
            ) == Ok::<Map<u32, Set<u32>>, ParseError>(g@),
            Err(e) => spec_load(lines@.map_values(|l: String| l@), lines@.len() as int)
                == Err::<Map<u32, Set<u32>>, ParseError>(e),
        },
{
    let ghost ls = lines@.map_values(|l: String| l@);
    let mut g = Graph::new();
    let n = lines.len();
    let mut i: usize = 0;
    while i < n
        invariant
            n == lines@.len(),
            i <= n,
            g.wf(),
            spec_load(ls, i as int) == Ok::<Map<u32, Set<u32>>, ParseError>(g@),
        decreases n - i,
    {
        let line: &String = &lines[i];
        proof {
            assert(ls[i as int] == lines@[i as int]@);
        }
        let parsed = parse_edge_line(line.as_str());
        match parsed {
            Ok(Some(p)) => {
                g.add_edge(p.0, p.1);
            },
            Ok(None) => {},
            Err(e) => {
                proof {
                    assert(spec_load(ls, i as int + 1) == Err::<Map<u32, Set<u32>>, ParseError>(
                        e,
                    ));
                    lemma_load_err(ls, i as int + 1, n as int);
                }
                return Err(e);
            },
        }
        i += 1;
    }
    Ok(g)
}

} // verus!
