use vstd::prelude::*;
use crate::graph::Edge;

verus! {

/// ASCII whitespace other than the line feed.
pub open spec fn is_space(b: u8) -> bool {
    b == 32 || b == 9 || b == 13 || b == 11 || b == 12
}

pub open spec fn is_digit(b: u8) -> bool {
    48 <= b <= 57
}

/// The first position from `p` on, below `hi`, that holds no whitespace.
pub open spec fn skip_spaces(s: Seq<u8>, p: int, hi: int) -> int
    decreases hi - p,
{
    if p >= hi {
        p
    } else if is_space(s[p]) {
        skip_spaces(s, p + 1, hi)
    } else {
        p
    }
}

/// The first position from `p` on, below `hi`, that holds whitespace: the
/// end of a token that starts at `p`.
pub open spec fn token_end(s: Seq<u8>, p: int, hi: int) -> int
    decreases hi - p,
{
    if p >= hi {
        p
    } else if is_space(s[p]) {
        p
    } else {
        token_end(s, p + 1, hi)
    }
}

/// The value of the decimal digits `s[a..b]`.
pub open spec fn decimal(s: Seq<u8>, a: int, b: int) -> int
    decreases b - a,
{
    if b <= a {
        0
    } else {
        decimal(s, a, b - 1) * 10 + (s[b - 1] - 48)
    }
}

/// `s[a..b]` is a non-empty run of decimal digits whose value fits a `usize`.
pub open spec fn is_number(s: Seq<u8>, a: int, b: int) -> bool {
    &&& a < b
    &&& forall|p: int| a <= p < b ==> is_digit(#[trigger] s[p])
    &&& decimal(s, a, b) <= usize::MAX
}

/// The edge on the line `s[lo..hi]`: three numbers separated and
/// surrounded by whitespace, and nothing else.
pub open spec fn line_edge(s: Seq<u8>, lo: int, hi: int) -> Option<Edge> {
    let a0 = skip_spaces(s, lo, hi);
    let b0 = token_end(s, a0, hi);
    let a1 = skip_spaces(s, b0, hi);
    let b1 = token_end(s, a1, hi);
    let a2 = skip_spaces(s, b1, hi);
    let b2 = token_end(s, a2, hi);
    if is_number(s, a0, b0) && is_number(s, a1, b1) && is_number(s, a2, b2) && skip_spaces(s, b2, hi) == hi {
        Some(
            Edge {
                from: decimal(s, a0, b0) as usize,
                to: decimal(s, a1, b1) as usize,
                weight: decimal(s, a2, b2) as usize,
            },
        )
    } else {
        None
    }
}

/// The edges of the lines of `s` from position `lo` on, where `s[lo..p]`
/// holds no line feed. Lines end at a line feed or at the end of the text;
/// the text after the last line feed is a line only when it is not empty.
pub open spec fn parse_lines(s: Seq<u8>, lo: int, p: int) -> Option<Seq<Edge>>
    decreases s.len() - p,
{
    if p >= s.len() {
        if lo >= p {
            Some(Seq::empty())
        } else {
            match line_edge(s, lo, p) {
                Some(e) => Some(seq![e]),
                None => None,
            }
        }
    } else if s[p] == 10 {
        match (line_edge(s, lo, p), parse_lines(s, p + 1, p + 1)) {
            (Some(e), Some(rest)) => Some(seq![e] + rest),
            _ => None,
        }
    } else {
        parse_lines(s, lo, p + 1)
    }
}

/// The edges of the text `s`, one per line, or `None` when a line is malformed.
pub open spec fn parse_text(s: Seq<u8>) -> Option<Seq<Edge>> {
    parse_lines(s, 0, 0)
}

fn skip_spaces_exec(s: &[u8], p: usize, hi: usize) -> (r: usize)
    requires
        p <= hi <= s@.len(),
    ensures
        r == skip_spaces(s@, p as int, hi as int),
        p <= r <= hi,
{
    let mut q = p;
    while q < hi && (s[q] == 32 || s[q] == 9 || s[q] == 13 || s[q] == 11 || s[q] == 12)
        invariant
            p <= q <= hi <= s@.len(),
            skip_spaces(s@, p as int, hi as int) == skip_spaces(s@, q as int, hi as int),
        decreases hi - q,
    {
        q += 1;
    }
    q
}

fn token_end_exec(s: &[u8], p: usize, hi: usize) -> (r: usize)
    requires
        p <= hi <= s@.len(),
    ensures
        r == token_end(s@, p as int, hi as int),
        p <= r <= hi,
{
    let mut q = p;
    while q < hi && !(s[q] == 32 || s[q] == 9 || s[q] == 13 || s[q] == 11 || s[q] == 12)
        invariant
            p <= q <= hi <= s@.len(),
            token_end(s@, p as int, hi as int) == token_end(s@, q as int, hi as int),
        decreases hi - q,
    {
        q += 1;
    }
    q
}

proof fn lemma_decimal_grows(s: Seq<u8>, a: int, q: int, b: int)
    requires
        a <= q <= b,
        forall|p: int| a <= p < b ==> is_digit(#[trigger] s[p]),
    ensures
        decimal(s, a, q) <= decimal(s, a, b),
    decreases b - q,
{
    if q < b {
        lemma_decimal_grows(s, a, q, b - 1);
        lemma_decimal_nonneg(s, a, b - 1);
        let d = decimal(s, a, b - 1);
        let c = s[b - 1] - 48;
        assert(is_digit(s[b - 1]));
        assert(d <= d * 10 + c) by (nonlinear_arith)
            requires 0 <= c <= 9, d >= 0;
    }
}

proof fn lemma_decimal_nonneg(s: Seq<u8>, a: int, b: int)
    requires
        forall|p: int| a <= p < b ==> is_digit(#[trigger] s[p]),
    ensures
        decimal(s, a, b) >= 0,
    decreases b - a,
{
    if a < b {
        lemma_decimal_nonneg(s, a, b - 1);
    }
}

/// The value of the digits `s[a..b]`, when `is_number` holds of them.
fn parse_number(s: &[u8], a: usize, b: usize) -> (r: Option<usize>)
    requires
        a <= b <= s@.len(),
    ensures
        r == (if is_number(s@, a as int, b as int) { Some(decimal(s@, a as int, b as int) as usize) } else { None::<usize> }),
{
    if a == b {
        return None;
    }
    let mut v: usize = 0;
    let mut q = a;
    while q < b
        invariant
            a <= q <= b <= s@.len(),
            forall|p: int| a <= p < q ==> is_digit(#[trigger] s@[p]),
            v == decimal(s@, a as int, q as int),
        decreases b - q,
    {
        let c = s[q];
        if !(48 <= c && c <= 57) {
            return None;
        }
        let d = (c - 48) as usize;
        if v > (usize::MAX - d) / 10 {
            proof {
                assert(v * 10 + d > usize::MAX) by (nonlinear_arith)
                    requires v > (usize::MAX - d) / 10, d <= 9;
                if forall|p: int| a <= p < b ==> is_digit(#[trigger] s@[p]) {
                    lemma_decimal_grows(s@, a as int, q as int + 1, b as int);
                }
            }
            return None;
        }
        assert(v * 10 + d <= usize::MAX) by (nonlinear_arith)
            requires v <= (usize::MAX - d) / 10, d <= 9;
        v = v * 10 + d;
        q += 1;
    }
    Some(v)
}

/// The edge on the line `s[lo..hi]`, when the line is well formed.
fn parse_line(s: &[u8], lo: usize, hi: usize) -> (r: Option<Edge>)
    requires
        lo <= hi <= s@.len(),
    ensures
        r == line_edge(s@, lo as int, hi as int),
{
    let a0 = skip_spaces_exec(s, lo, hi);
    let b0 = token_end_exec(s, a0, hi);
    let a1 = skip_spaces_exec(s, b0, hi);
    let b1 = token_end_exec(s, a1, hi);
    let a2 = skip_spaces_exec(s, b1, hi);
    let b2 = token_end_exec(s, a2, hi);
    let from = parse_number(s, a0, b0);
    let to = parse_number(s, a1, b1);
    let weight = parse_number(s, a2, b2);
    let rest = skip_spaces_exec(s, b2, hi);
    match (from, to, weight) {
        (Some(from), Some(to), Some(weight)) => {
            if rest == hi {
                Some(Edge { from, to, weight })
            } else {
                None
            }
        },
        _ => None,
    }
}

/// The edges of the text `s`, one per line, or `None` when a line is not
/// three non-negative integers separated by whitespace.
pub fn parse_edges(s: &[u8]) -> (r: Option<Vec<Edge>>)
    ensures
        match parse_text(s@) {
            Some(es) => r matches Some(v) && v@ == es,
            None => r is None,
        },
{
    let mut edges: Vec<Edge> = Vec::new();
    let mut lo: usize = 0;
    let mut p: usize = 0;
    while p < s.len()
        invariant
            lo <= p <= s@.len(),
            parse_text(s@) == (match parse_lines(s@, lo as int, p as int) {
                Some(rest) => Some(edges@ + rest),
                None => None::<Seq<Edge>>,
            }),
        decreases s@.len() - p,
    {
        if s[p] == 10 {
            match parse_line(s, lo, p) {
                None => return None,
                Some(e) => {
                    proof {
                        if let Some(rest) = parse_lines(s@, p as int + 1, p as int + 1) {
                            assert(edges@ + (seq![e] + rest) =~= edges@.push(e) + rest);
                        }
                    }
                    edges.push(e);
                },
            }
            lo = p + 1;
        }
        p += 1;
    }
    if lo < p {
        match parse_line(s, lo, p) {
            None => return None,
            Some(e) => {
                assert(edges@ + seq![e] =~= edges@.push(e));
                edges.push(e);
            },
        }
    } else {
        assert(edges@ + Seq::<Edge>::empty() =~= edges@);
    }
    Some(edges)
}

} // verus!
