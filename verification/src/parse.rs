//! Character-level machinery for the line-oriented graph text format:
//! decimal integers, line splitting and whitespace tokenization.
//!
//! The format is specified over sequences of characters by the spec
//! functions here; the executable scanners are proved to follow them.

use vstd::prelude::*;
use vstd::string::StrSliceExecFns;

verus! {

/// Unicode code points with the White_Space property, the separator that
/// whitespace tokenization goes by.
pub open spec fn is_space_char(c: char) -> bool {
    ||| c == ' '
    ||| c == '\u{9}'
    ||| c == '\n'
    ||| c == '\u{b}'
    ||| c == '\u{c}'
    ||| c == '\r'
    ||| c == '\u{85}'
    ||| c == '\u{a0}'
    ||| c == '\u{1680}'
    ||| ('\u{2000}' <= c && c <= '\u{200a}')
    ||| c == '\u{2028}'
    ||| c == '\u{2029}'
    ||| c == '\u{202f}'
    ||| c == '\u{205f}'
    ||| c == '\u{3000}'
}

/// Executable check for `is_space_char`.
pub fn is_space(c: char) -> (r: bool)
    ensures
        r == is_space_char(c),
{
    c == ' ' || c == '\u{9}' || c == '\n' || c == '\u{b}' || c == '\u{c}' || c == '\r'
        || c == '\u{85}' || c == '\u{a0}' || c == '\u{1680}'
        || ('\u{2000}' <= c && c <= '\u{200a}') || c == '\u{2028}' || c == '\u{2029}'
        || c == '\u{202f}' || c == '\u{205f}' || c == '\u{3000}'
}

/// Index of the first occurrence of `c` in `s[from..to]`, or `to` if absent.
pub open spec fn scan_to_char(s: Seq<char>, from: int, to: int, c: char) -> int
    decreases to - from,
{
    if from >= to {
        to
    } else if s[from] == c {
        from
    } else {
        scan_to_char(s, from + 1, to, c)
    }
}

/// Index of the first whitespace character in `s[from..to]`, or `to`.
pub open spec fn scan_to_space(s: Seq<char>, from: int, to: int) -> int
    decreases to - from,
{
    if from >= to {
        to
    } else if is_space_char(s[from]) {
        from
    } else {
        scan_to_space(s, from + 1, to)
    }
}

pub proof fn lemma_scan_to_char(s: Seq<char>, from: int, to: int, c: char)
    requires
        from <= to,
    ensures
        from <= scan_to_char(s, from, to, c) <= to,
        scan_to_char(s, from, to, c) < to ==> s[scan_to_char(s, from, to, c)] == c,
        forall|k: int| from <= k < scan_to_char(s, from, to, c) ==> s[k] != c,
    decreases to - from,
{
    if from < to && s[from] != c {
        lemma_scan_to_char(s, from + 1, to, c);
    }
}

pub proof fn lemma_scan_to_space(s: Seq<char>, from: int, to: int)
    requires
        from <= to,
    ensures
        from <= scan_to_space(s, from, to) <= to,
        scan_to_space(s, from, to) < to ==> is_space_char(s[scan_to_space(s, from, to)]),
        forall|k: int| from <= k < scan_to_space(s, from, to) ==> !is_space_char(s[k]),
    decreases to - from,
{
    if from < to && !is_space_char(s[from]) {
        lemma_scan_to_space(s, from + 1, to);
    }
}

/// Is `c` an ASCII decimal digit?
pub open spec fn is_digit_char(c: char) -> bool {
    '0' <= c && c <= '9'
}

/// Are all the characters of `s[from..to]` ASCII decimal digits?
pub open spec fn all_digits(s: Seq<char>, from: int, to: int) -> bool {
    forall|k: int| from <= k < to ==> is_digit_char(#[trigger] s[k])
}

/// Value of the decimal digit string `s[from..to]`, most significant first.
pub open spec fn digits_val(s: Seq<char>, from: int, to: int) -> int
    decreases to - from,
{
    if from >= to {
        0
    } else {
        digits_val(s, from, to - 1) * 10 + (s[to - 1] as u32 - 48)
    }
}

pub proof fn lemma_digits_val_nonneg(s: Seq<char>, from: int, to: int)
    requires
        all_digits(s, from, to),
    ensures
        digits_val(s, from, to) >= 0,
    decreases to - from,
{
    if from < to {
        lemma_digits_val_nonneg(s, from, to - 1);
    }
}

/// Appending digits never shrinks the value.
pub proof fn lemma_digits_val_monotone(s: Seq<char>, from: int, mid: int, to: int)
    requires
        all_digits(s, from, to),
        from <= mid <= to,
    ensures
        digits_val(s, from, mid) <= digits_val(s, from, to),
    decreases to - mid,
{
    if mid < to {
        lemma_digits_val_monotone(s, from, mid, to - 1);
        lemma_digits_val_nonneg(s, from, to - 1);
    }
}

/// How Rust's `str::parse::<usize>` reads `s[from..to]`: an optional leading
/// `+`, then one or more ASCII digits whose value fits in `usize`.
pub open spec fn spec_parse_usize(s: Seq<char>, from: int, to: int) -> Option<usize> {
    let d_from = if from < to && s[from] == '+' {
        from + 1
    } else {
        from
    };
    if d_from < to && all_digits(s, d_from, to) && digits_val(s, d_from, to) <= usize::MAX {
        Some(digits_val(s, d_from, to) as usize)
    } else {
        None
    }
}

/// An edge token `<id>,<weight>`: both sides of the first comma must parse
/// as `usize`.
pub open spec fn spec_parse_token(s: Seq<char>, from: int, to: int) -> Option<(usize, usize)> {
    let comma = scan_to_char(s, from, to, ',');
    if comma >= to {
        None
    } else {
        match (spec_parse_usize(s, from, comma), spec_parse_usize(s, comma + 1, to)) {
            (Some(v), Some(w)) => Some((v, w)),
            _ => None,
        }
    }
}

/// The neighbor list written on `s[from..to]`: whitespace-separated edge
/// tokens, `None` as soon as one token is malformed.
pub open spec fn spec_parse_line(s: Seq<char>, from: int, to: int) -> Option<Seq<(usize, usize)>>
    decreases to - from,
    via spec_parse_line_decreases
{
    if from >= to {
        Some(Seq::empty())
    } else if is_space_char(s[from]) {
        spec_parse_line(s, from + 1, to)
    } else {
        let e = scan_to_space(s, from + 1, to);
        match spec_parse_token(s, from, e) {
            None => None,
            Some(p) => match spec_parse_line(s, e, to) {
                None => None,
                Some(r) => Some(seq![p] + r),
            },
        }
    }
}

#[via_fn]
proof fn spec_parse_line_decreases(s: Seq<char>, from: int, to: int) {
    if from < to && !is_space_char(s[from]) {
        lemma_scan_to_space(s, from + 1, to);
    }
}

/// Up to `remaining` lines read from position `from` on, each line ending at
/// the next newline (or the end of the text), a trailing carriage return
/// stripped, each parsed as a neighbor list. Reading stops at the end of the
/// text; a final newline yields no further line.
pub open spec fn spec_parse_lines(s: Seq<char>, from: int, remaining: int) -> Option<
    Seq<Seq<(usize, usize)>>,
>
    decreases s.len() - from + 1,
    when from >= 0
    via spec_parse_lines_decreases
{
    if remaining <= 0 || from >= s.len() {
        Some(Seq::empty())
    } else {
        let e = scan_to_char(s, from, s.len() as int, '\n');
        let stripped = if e > from && s[e - 1] == '\r' {
            e - 1
        } else {
            e
        };
        match spec_parse_line(s, from, stripped) {
            None => None,
            Some(neigh) => match spec_parse_lines(s, e + 1, remaining - 1) {
                None => None,
                Some(rest) => Some(seq![neigh] + rest),
            },
        }
    }
}

#[via_fn]
proof fn spec_parse_lines_decreases(s: Seq<char>, from: int, remaining: int) {
    if !(remaining <= 0 || from >= s.len()) {
        lemma_scan_to_char(s, from, s.len() as int, '\n');
    }
}

/// Parsed lines never outnumber the requested count.
pub proof fn lemma_parse_lines_len(s: Seq<char>, from: int, remaining: int)
    requires
        from >= 0,
        spec_parse_lines(s, from, remaining) is Some,
    ensures
        spec_parse_lines(s, from, remaining)->Some_0.len() <= if remaining >= 0 {
            remaining
        } else {
            0
        },
    decreases s.len() - from + 1,
{
    if !(remaining <= 0 || from >= s.len()) {
        let e = scan_to_char(s, from, s.len() as int, '\n');
        lemma_scan_to_char(s, from, s.len() as int, '\n');
        let stripped = if e > from && s[e - 1] == '\r' {
            e - 1
        } else {
            e
        };
        if spec_parse_line(s, from, stripped) is Some {
            lemma_parse_lines_len(s, e + 1, remaining - 1);
        }
    }
}

/// Missing trailing lines stand for vertices with no outgoing edges.
pub open spec fn pad_lines(ls: Seq<Seq<(usize, usize)>>, n: int) -> Seq<Seq<(usize, usize)>> {
    ls + Seq::new((n - ls.len()) as nat, |i: int| Seq::<(usize, usize)>::empty())
}

/// The whole graph text: a first line holding the vertex count `n`, then up
/// to `n` neighbor-list lines, the remainder padded with empty lists. `None`
/// when there is no newline at all, the count does not parse, or a line is
/// malformed.
pub open spec fn spec_parse_graph(s: Seq<char>) -> Option<Seq<Seq<(usize, usize)>>> {
    let e = scan_to_char(s, 0, s.len() as int, '\n');
    if e >= s.len() {
        None
    } else {
        match spec_parse_usize(s, 0, e) {
            None => None,
            Some(n) => match spec_parse_lines(s, e + 1, n as int) {
                None => None,
                Some(ls) => Some(pad_lines(ls, n as int)),
            },
        }
    }
}

/// A whole-run input: a first line holding the source vertex id, the rest a
/// graph text.
pub open spec fn spec_parse_input(s: Seq<char>) -> Option<(usize, Seq<Seq<(usize, usize)>>)> {
    let e = scan_to_char(s, 0, s.len() as int, '\n');
    if e >= s.len() {
        None
    } else {
        match spec_parse_usize(s, 0, e) {
            None => None,
            Some(sv) => match spec_parse_graph(s.subrange(e + 1, s.len() as int)) {
                None => None,
                Some(g) => Some((sv, g)),
            },
        }
    }
}

/// Find the first occurrence of `c` in `s[from..to]`, or `to` if absent.
#[verifier::loop_isolation(false)]
pub fn find_char(s: &str, from: usize, to: usize, c: char) -> (r: usize)
    requires
        from <= to <= s@.len(),
    ensures
        r == scan_to_char(s@, from as int, to as int, c),
        from <= r <= to,
        r < to ==> s@[r as int] == c,
        forall|k: int| from <= k < r ==> s@[k] != c,
{
    proof {
        lemma_scan_to_char(s@, from as int, to as int, c);
    }
    let mut i = from;
    while i < to
        invariant
            from <= i <= to,
            scan_to_char(s@, from as int, to as int, c) == scan_to_char(s@, i as int, to as int, c),
            forall|k: int| from <= k < i ==> s@[k] != c,
        decreases to - i,
    {
        if s.get_char(i) == c {
            return i;
        }
        i += 1;
    }
    to
}

/// Find the first whitespace character in `s[from..to]`, or `to` if absent.
#[verifier::loop_isolation(false)]
pub fn find_space(s: &str, from: usize, to: usize) -> (r: usize)
    requires
        from <= to <= s@.len(),
    ensures
        r == scan_to_space(s@, from as int, to as int),
{
    let mut i = from;
    while i < to
        invariant
            from <= i <= to,
            scan_to_space(s@, from as int, to as int) == scan_to_space(s@, i as int, to as int),
        decreases to - i,
    {
        if is_space(s.get_char(i)) {
            return i;
        }
        i += 1;
    }
    to
}

/// Parse `s[from..to]` the way `str::parse::<usize>` would.
#[verifier::loop_isolation(false)]
pub fn parse_usize_in(s: &str, from: usize, to: usize) -> (r: Option<usize>)
    requires
        from <= to <= s@.len(),
    ensures
        r == spec_parse_usize(s@, from as int, to as int),
{
    let mut i = from;
    if i < to && s.get_char(i) == '+' {
        i += 1;
    }
    let ghost d_from = i as int;
    if i >= to {
        return None;
    }
    let mut val: usize = 0;
    while i < to
        invariant
            d_from <= i <= to,
            all_digits(s@, d_from, i as int),
            val == digits_val(s@, d_from, i as int),
        decreases to - i,
    {
        let c = s.get_char(i);
        if !('0' <= c && c <= '9') {
            proof {
                assert(!is_digit_char(s@[i as int]));
                assert(!all_digits(s@, d_from, to as int));
            }
            return None;
        }
        let d = (c as u32 - 48) as usize;
        proof {
            assert(d <= 9);
        }
        if val > (usize::MAX - d) / 10 {
            proof {
                if all_digits(s@, d_from, to as int) {
                    lemma_digits_val_monotone(s@, d_from, i as int + 1, to as int);
                    assert(digits_val(s@, d_from, i as int + 1) == digits_val(
                        s@,
                        d_from,
                        i as int,
                    ) * 10 + d);
                    let q = (usize::MAX - d) / 10;
                    let rm = (usize::MAX - d) % 10;
                    assert(10 * q + rm == usize::MAX - d);
                    assert(val * 10 >= (q + 1) * 10) by (nonlinear_arith)
                        requires
                            val >= q + 1,
                    ;
                    assert(val * 10 + d > usize::MAX);
                    assert(digits_val(s@, d_from, to as int) > usize::MAX);
                }
            }
            return None;
        }
        proof {
            let q = (usize::MAX - d) / 10;
            let rm = (usize::MAX - d) % 10;
            assert(10 * q + rm == usize::MAX - d);
            assert(val * 10 <= q * 10) by (nonlinear_arith)
                requires
                    val <= q,
            ;
            assert(val * 10 + d <= usize::MAX);
        }
        val = val * 10 + d;
        i += 1;
    }
    Some(val)
}

/// Which stage of reading an edge token failed.
#[derive(Debug, Clone, Copy, PartialEq, Eq)]
pub enum TokenFault {
    /// The token has no comma between neighbor id and weight.
    MissingComma,
    /// The neighbor id is not a `usize`.
    Vertex,
    /// The weight is not a `usize`.
    Weight,
}

/// Parse the edge token on `s[from..to]`.
#[verifier::loop_isolation(false)]
pub fn parse_token_in(s: &str, from: usize, to: usize) -> (r: Result<(usize, usize), TokenFault>)
    requires
        from <= to <= s@.len(),
    ensures
        (match r {
            Ok(p) => spec_parse_token(s@, from as int, to as int) == Some(p),
            Err(f) => spec_parse_token(s@, from as int, to as int) is None,
        }),
{
    let comma = find_char(s, from, to, ',');
    if comma >= to {
        return Err(TokenFault::MissingComma);
    }
    let v = match parse_usize_in(s, from, comma) {
        Some(v) => v,
        None => {
            return Err(TokenFault::Vertex);
        }
    };
    let w = match parse_usize_in(s, comma + 1, to) {
        Some(w) => w,
        None => {
            return Err(TokenFault::Weight);
        }
    };
    Ok((v, w))
}

/// Parse the neighbor list on `s[from..to]`.
#[verifier::loop_isolation(false)]
pub fn parse_line_in(s: &str, from: usize, to: usize) -> (r: Result<Vec<(usize, usize)>, TokenFault>)
    requires
        from <= to <= s@.len(),
    ensures
        (match r {
            Ok(v) => spec_parse_line(s@, from as int, to as int) == Some(v@),
            Err(f) => spec_parse_line(s@, from as int, to as int) is None,
        }),
{
    let mut out: Vec<(usize, usize)> = Vec::new();
    let mut pos = from;
    while pos < to
        invariant
            from <= pos <= to,
            (match spec_parse_line(s@, pos as int, to as int) {
                Some(rest) => spec_parse_line(s@, from as int, to as int) == Some(out@ + rest),
                None => spec_parse_line(s@, from as int, to as int) is None,
            }),
        decreases to - pos,
    {
        let c = s.get_char(pos);
        if is_space(c) {
            pos += 1;
        } else {
            let e = find_space(s, pos + 1, to);
            proof {
                lemma_scan_to_space(s@, pos as int + 1, to as int);
            }
            match parse_token_in(s, pos, e) {
                Err(f) => {
                    return Err(f);
                }
                Ok(p) => {
                    out.push(p);
                    proof {
                        let ghost rest0 = spec_parse_line(s@, pos as int, to as int);
                        match spec_parse_line(s@, e as int, to as int) {
                            Some(rest) => {
                                assert(out@.drop_last() + (seq![p] + rest) =~= out@ + rest);
                            }
                            None => {}
                        }
                    }
                    pos = e;
                }
            }
        }
    }
    proof {
        assert(spec_parse_line(s@, to as int, to as int) == Some(Seq::<(usize, usize)>::empty()));
        assert(out@ + Seq::<(usize, usize)>::empty() =~= out@);
    }
    Ok(out)
}

} // verus!
