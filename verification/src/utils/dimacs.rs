//! Reading graphs in the DIMACS `.col` format: comment lines start with `c`, the problem line
//! `p edge n m` gives the number of vertices as its third field, and each edge line `e u v`
//! names an edge between the vertices `u` and `v`, counted from 1.

use vstd::prelude::*;
use crate::graph::adjlist;
use crate::graph::model::edges_graph;

verus! {

/// Why a DIMACS text could not be read.
#[derive(Debug, Clone, Copy, PartialEq, Eq, Structural)]
pub enum DimacsError {
    /// Only comment lines, if any, are there.
    NoProblemLine,
    /// An edge line comes before the problem line.
    EdgeBeforeProblem,
    /// A line that is neither a comment nor the problem line comes before the problem line.
    MissingProblem,
    /// The problem line gives no number of vertices in its third field.
    BadProblemLine,
    /// The number of vertices squared does not fit in a `usize`.
    TooManyVertices,
    /// An edge line does not name two vertices of the graph in its second and third fields.
    BadEdgeLine,
    /// An edge line names a loop, which a simple graph cannot hold.
    LoopEdge,
    /// A line after the problem line is neither a comment nor an edge line.
    InvalidLine,
}

/// The index of the first line feed in `t`, or its length when there is none.
pub open spec fn line_end(t: Seq<u8>) -> nat
    decreases t.len(),
{
    if t.len() == 0 || t[0] == 10 {
        0
    } else {
        1 + line_end(t.drop_first())
    }
}

/// The lines of `t`: the pieces between line feeds, a piece that ends in a line feed losing a
/// carriage return before it; nothing follows a final line feed.
pub open spec fn text_lines(t: Seq<u8>) -> Seq<Seq<u8>>
    decreases t.len(),
{
    if t.len() == 0 {
        Seq::empty()
    } else {
        let k = line_end(t) as int;
        if k >= t.len() {
            seq![t]
        } else {
            let piece = t.take(k);
            let line = if piece.len() > 0 && piece.last() == 13 {
                piece.drop_last()
            } else {
                piece
            };
            seq![line] + text_lines(t.skip(k + 1))
        }
    }
}

/// Whether a byte separates fields: a space or one of the control characters from tab to
/// carriage return.
pub open spec fn is_space(b: u8) -> bool {
    b == 32 || 9 <= b <= 13
}

/// `t` without its leading separators.
pub open spec fn skip_spaces(t: Seq<u8>) -> Seq<u8>
    decreases t.len(),
{
    if t.len() > 0 && is_space(t[0]) {
        skip_spaces(t.drop_first())
    } else {
        t
    }
}

/// The length of the run of non-separators that `t` starts with.
pub open spec fn word_len(t: Seq<u8>) -> nat
    decreases t.len(),
{
    if t.len() == 0 || is_space(t[0]) {
        0
    } else {
        1 + word_len(t.drop_first())
    }
}

/// The fields of a line: its maximal runs of non-separators.
pub open spec fn fields(t: Seq<u8>) -> Seq<Seq<u8>>
    decreases t.len(),
{
    let s = skip_spaces(t);
    if s.len() == 0 {
        Seq::empty()
    } else {
        let w = word_len(s) as int;
        if 0 < w <= s.len() && s.len() <= t.len() {
            seq![s.take(w)] + fields(s.skip(w))
        } else {
            Seq::empty()
        }
    }
}

/// The value of a string of decimal digits.
pub open spec fn digits_value(d: Seq<u8>) -> nat
    decreases d.len(),
{
    if d.len() == 0 {
        0
    } else {
        digits_value(d.drop_last()) * 10 + (d.last() - 48) as nat
    }
}

/// Whether every byte of `d` is a decimal digit.
pub open spec fn all_digits(d: Seq<u8>) -> bool {
    forall|i: int| 0 <= i < d.len() ==> 48 <= #[trigger] d[i] <= 57
}

/// The number a field writes in decimal, with an optional leading `+`, when it fits in a
/// `usize`.
pub open spec fn field_number(f: Seq<u8>) -> Option<nat> {
    let d = if f.len() > 0 && f[0] == 43 {
        f.drop_first()
    } else {
        f
    };
    if d.len() > 0 && all_digits(d) && digits_value(d) <= usize::MAX {
        Some(digits_value(d))
    } else {
        None
    }
}

/// The number in the `k`-th field of a line, if there is one.
pub open spec fn field_number_at(line: Seq<u8>, k: int) -> Option<nat> {
    if 0 <= k < fields(line).len() {
        field_number(fields(line)[k])
    } else {
        None
    }
}

/// Whether a line starts with the byte `b`.
pub open spec fn starts_with(line: Seq<u8>, b: u8) -> bool {
    line.len() > 0 && line[0] == b
}

/// The first line at or after `i` that is not a comment, or the number of lines.
pub open spec fn after_comments(ls: Seq<Seq<u8>>, i: int) -> int
    decreases ls.len() - i,
{
    if i < ls.len() && starts_with(ls[i], 99) {
        after_comments(ls, i + 1)
    } else {
        i
    }
}

/// Whether an edge line names, in its second and third fields, two vertices among `n`
/// counted from 1.
pub open spec fn edge_fields_ok(line: Seq<u8>, n: nat) -> bool {
    &&& field_number_at(line, 1) matches Some(u) && 1 <= u <= n
    &&& field_number_at(line, 2) matches Some(v) && 1 <= v <= n
}

/// Whether an edge line names an edge between two different vertices among `n`.
pub open spec fn edge_line_ok(line: Seq<u8>, n: nat) -> bool {
    edge_fields_ok(line, n) && field_number_at(line, 1) != field_number_at(line, 2)
}

/// The first line at or after `i` that is not a comment and not a well-formed edge line for
/// `n` vertices, or the number of lines.
pub open spec fn body_end(ls: Seq<Seq<u8>>, i: int, n: nat) -> int
    decreases ls.len() - i,
{
    if i < ls.len() && (starts_with(ls[i], 99) || (starts_with(ls[i], 101) && edge_line_ok(ls[i], n))) {
        body_end(ls, i + 1, n)
    } else {
        i
    }
}

/// The edge an edge line names, with the smaller vertex first and vertices counted from 0.
pub open spec fn line_edge(line: Seq<u8>) -> (usize, usize) {
    let u = (field_number_at(line, 1)->0 - 1) as usize;
    let v = (field_number_at(line, 2)->0 - 1) as usize;
    if u < v {
        (u, v)
    } else {
        (v, u)
    }
}

/// The edges named by the edge lines among the lines from `i` to `j`.
pub open spec fn edges_between(ls: Seq<Seq<u8>>, i: int, j: int) -> Seq<(usize, usize)>
    decreases j - i,
{
    if j <= i {
        Seq::empty()
    } else if starts_with(ls[j - 1], 101) {
        edges_between(ls, i, j - 1).push(line_edge(ls[j - 1]))
    } else {
        edges_between(ls, i, j - 1)
    }
}

/// What reading the lines after the problem line gives, from line `i` on, for `n` vertices.
pub open spec fn read_body(ls: Seq<Seq<u8>>, i: int, n: nat) -> Result<(nat, Seq<(usize, usize)>), DimacsError> {
    let e = body_end(ls, i, n);
    if e >= ls.len() {
        Ok((n, edges_between(ls, i, ls.len() as int)))
    } else if !starts_with(ls[e], 101) {
        Err(DimacsError::InvalidLine)
    } else if !edge_fields_ok(ls[e], n) {
        Err(DimacsError::BadEdgeLine)
    } else {
        Err(DimacsError::LoopEdge)
    }
}

/// The number of vertices and the edges a DIMACS text describes, or why it cannot be read.
pub open spec fn read_dimacs(t: Seq<u8>) -> Result<(nat, Seq<(usize, usize)>), DimacsError> {
    let ls = text_lines(t);
    let h = after_comments(ls, 0);
    if h >= ls.len() {
        Err(DimacsError::NoProblemLine)
    } else if starts_with(ls[h], 112) {
        match field_number_at(ls[h], 2) {
            None => Err(DimacsError::BadProblemLine),
            Some(n) => if n * n > usize::MAX {
                Err(DimacsError::TooManyVertices)
            } else {
                read_body(ls, h + 1, n)
            },
        }
    } else if starts_with(ls[h], 101) {
        Err(DimacsError::EdgeBeforeProblem)
    } else {
        Err(DimacsError::MissingProblem)
    }
}

/// `line_end` is the position of the first line feed, or the length.
proof fn lemma_line_end(t: Seq<u8>, m: int)
    requires
        0 <= m <= t.len(),
        forall|j: int| 0 <= j < m ==> t[j] != 10,
        m == t.len() || t[m] == 10,
    ensures
        line_end(t) == m,
    decreases m,
{
    if m > 0 {
        lemma_line_end(t.drop_first(), m - 1);
    }
}

/// `word_len` is the position of the first separator, or the length.
proof fn lemma_word_len(t: Seq<u8>, m: int)
    requires
        0 <= m <= t.len(),
        forall|j: int| 0 <= j < m ==> !is_space(t[j]),
        m == t.len() || is_space(t[m]),
    ensures
        word_len(t) == m,
    decreases m,
{
    if m > 0 {
        lemma_word_len(t.drop_first(), m - 1);
    }
}

/// Dropping separators never lengthens a line.
proof fn lemma_skip_spaces_len(t: Seq<u8>)
    ensures
        skip_spaces(t).len() <= t.len(),
    decreases t.len(),
{
    if t.len() > 0 && is_space(t[0]) {
        lemma_skip_spaces_len(t.drop_first());
    }
}

/// A leading separator does not change the fields.
proof fn lemma_fields_space(t: Seq<u8>)
    requires
        t.len() > 0,
        is_space(t[0]),
    ensures
        fields(t) == fields(t.drop_first()),
{
    lemma_skip_spaces_len(t.drop_first());
    lemma_skip_spaces_len(t);
}

/// A line that starts with a run of `m` non-separators has that run as its first field.
proof fn lemma_fields_word(t: Seq<u8>, m: int)
    requires
        0 < m <= t.len(),
        forall|j: int| 0 <= j < m ==> !is_space(t[j]),
        m == t.len() || is_space(t[m]),
    ensures
        fields(t) == seq![t.take(m)] + fields(t.skip(m)),
{
    lemma_word_len(t, m);
}

/// The bounds of the `k`-th field of `text[start..end]`, if it has one.
#[verifier::spinoff_prover]
fn field_at(text: &[u8], start: usize, end: usize, k: usize) -> (r: Option<(usize, usize)>)
    requires
        start <= end <= text@.len(),
    ensures
        match r {
            Some((a, b)) => start <= a < b <= end && k < fields(text@.subrange(start as int, end as int)).len()
                && fields(text@.subrange(start as int, end as int))[k as int] == text@.subrange(a as int, b as int),
            None => k >= fields(text@.subrange(start as int, end as int)).len(),
        },
{
    let ghost line = text@.subrange(start as int, end as int);
    let mut pos = start;
    let mut c: usize = 0;
    while pos < end
        invariant
            start <= pos <= end <= text@.len(),
            line == text@.subrange(start as int, end as int),
            c <= k,
            c <= fields(line).len(),
            fields(text@.subrange(pos as int, end as int)) == fields(line).skip(c as int),
        decreases end - pos,
    {
        if text[pos] == 32 || (9 <= text[pos] && text[pos] <= 13) {
            proof {
                let t = text@.subrange(pos as int, end as int);
                lemma_fields_space(t);
                assert(t.drop_first() =~= text@.subrange(pos + 1, end as int));
            }
            pos = pos + 1;
        } else {
            let mut q = pos;
            while q < end && !(text[q] == 32 || (9 <= text[q] && text[q] <= 13))
                invariant
                    pos <= q <= end <= text@.len(),
                    forall|j: int| pos <= j < q ==> !is_space(text@[j]),
                decreases end - q,
            {
                q = q + 1;
            }
            proof {
                let t = text@.subrange(pos as int, end as int);
                lemma_fields_word(t, q - pos);
                assert(t.take(q - pos) =~= text@.subrange(pos as int, q as int));
                assert(t.skip(q - pos) =~= text@.subrange(q as int, end as int));
                assert(fields(line).skip(c as int)[0] == text@.subrange(pos as int, q as int));
                assert(fields(line).skip(c + 1) =~= fields(line).skip(c as int).drop_first());
            }
            if c == k {
                return Some((pos, q));
            }
            c = c + 1;
            pos = q;
        }
    }
    proof {
        assert(text@.subrange(pos as int, end as int) =~= Seq::<u8>::empty());
        assert(fields(Seq::<u8>::empty()) =~= Seq::<Seq<u8>>::empty());
    }
    None
}

/// A longer string of digits has at least the value of its prefix.
proof fn lemma_digits_grow(d: Seq<u8>, i: int)
    requires
        0 <= i <= d.len(),
    ensures
        digits_value(d.take(i)) <= digits_value(d),
    decreases d.len() - i,
{
    if i < d.len() {
        lemma_digits_grow(d, i + 1);
        assert(d.take(i + 1).drop_last() =~= d.take(i));
    } else {
        assert(d.take(i) =~= d);
    }
}

/// The number that `text[a..b]` writes, as `field_number` reads it.
#[verifier::spinoff_prover]
fn field_value(text: &[u8], a: usize, b: usize) -> (r: Option<usize>)
    requires
        a <= b <= text@.len(),
    ensures
        match field_number(text@.subrange(a as int, b as int)) {
            Some(v) => r == Some(v as usize),
            None => r is None,
        },
{
    let ghost f = text@.subrange(a as int, b as int);
    let mut i = a;
    if i < b && text[i] == 43 {
        i = i + 1;
    }
    let ghost d = text@.subrange(i as int, b as int);
    proof {
        if f.len() > 0 && f[0] == 43 {
            assert(f.drop_first() =~= d);
        } else {
            assert(f =~= d);
        }
    }
    if i == b {
        return None;
    }
    let start = i;
    let mut value: usize = 0;
    while i < b
        invariant
            a <= start <= i <= b <= text@.len(),
            d == text@.subrange(start as int, b as int),
            d.len() > 0,
            f == text@.subrange(a as int, b as int),
            (if f.len() > 0 && f[0] == 43 {
                f.drop_first()
            } else {
                f
            }) == d,
            forall|j: int| start <= j < i ==> 48 <= #[trigger] text@[j] <= 57,
            value == digits_value(d.take(i - start)),
        decreases b - i,
    {
        let byte = text[i];
        if byte < 48 || byte > 57 {
            proof {
                assert(d[i - start] == byte);
            }
            return None;
        }
        proof {
            assert(d.take(i - start + 1).drop_last() =~= d.take(i - start));
            assert(d.take(i - start + 1).last() == byte);
        }
        if value > (usize::MAX - (byte - 48) as usize) / 10 {
            proof {
                assert(digits_value(d.take(i - start + 1)) > usize::MAX) by (nonlinear_arith)
                    requires
                        value > (usize::MAX - (byte - 48) as usize) / 10,
                        digits_value(d.take(i - start + 1)) == value * 10 + (byte - 48) as nat,
                        48 <= byte <= 57,
                ;
                lemma_digits_grow(d, i - start + 1);
            }
            return None;
        }
        value = value * 10 + (byte - 48) as usize;
        i = i + 1;
    }
    proof {
        assert(d.take(i - start) =~= d);
        assert(all_digits(d)) by {
            assert forall|j: int| 0 <= j < d.len() implies 48 <= #[trigger] d[j] <= 57 by {
                assert(d[j] == text@[start + j]);
            }
        }
    }
    Some(value)
}

/// The bounds of the lines of `text`.
#[verifier::spinoff_prover]
fn split_lines(text: &[u8]) -> (r: Vec<(usize, usize)>)
    ensures
        r@.len() == text_lines(text@).len(),
        forall|i: int|
            0 <= i < r@.len() ==> (#[trigger] r@[i]).0 <= r@[i].1 <= text@.len() && text@.subrange(
                r@[i].0 as int,
                r@[i].1 as int,
            ) == text_lines(text@)[i],
{
    let ghost all = text_lines(text@);
    let mut ranges: Vec<(usize, usize)> = Vec::new();
    let mut start: usize = 0;
    let mut i: usize = 0;
    proof {
        assert(text@.skip(0) =~= text@);
    }
    while i < text.len()
        invariant
            start <= i <= text@.len(),
            all == text_lines(text@),
            forall|j: int| start <= j < i ==> text@[j] != 10,
            ranges@.len() <= all.len(),
            all.skip(ranges@.len() as int) == text_lines(text@.skip(start as int)),
            forall|j: int|
                0 <= j < ranges@.len() ==> (#[trigger] ranges@[j]).0 <= ranges@[j].1 <= text@.len()
                    && text@.subrange(ranges@[j].0 as int, ranges@[j].1 as int) == all[j],
        decreases text@.len() - i,
    {
        if text[i] == 10 {
            let ghost t = text@.skip(start as int);
            proof {
                lemma_line_end(t, i - start);
                assert(t.skip(i - start + 1) =~= text@.skip(i + 1));
                assert(t.take(i - start) =~= text@.subrange(start as int, i as int));
            }
            let e = if i > start && text[i - 1] == 13 {
                i - 1
            } else {
                i
            };
            proof {
                assert(text@.subrange(start as int, e as int) == text_lines(t)[0]) by {
                    if i > start && text@[i - 1] == 13 {
                        assert(text@.subrange(start as int, i as int).drop_last() =~= text@.subrange(
                            start as int,
                            e as int,
                        ));
                    }
                }
                assert(all.skip(ranges@.len() as int + 1) =~= all.skip(ranges@.len() as int).drop_first());
            }
            ranges.push((start, e));
            start = i + 1;
        }
        i = i + 1;
    }
    if start < text.len() {
        let ghost t = text@.skip(start as int);
        proof {
            lemma_line_end(t, text@.len() - start);
            assert(t =~= text@.subrange(start as int, text@.len() as int));
            assert(all.skip(ranges@.len() as int)[0] == all[ranges@.len() as int]);
            assert(all.skip(ranges@.len() as int).len() == 1);
        }
        ranges.push((start, text.len()));
    } else {
        proof {
            assert(text@.skip(start as int) =~= Seq::<u8>::empty());
            assert(all.skip(ranges@.len() as int).len() == 0);
        }
    }
    ranges
}

/// The scan for the end of the body does not move backwards.


/// Whether the line `text[a..b]` starts with the byte `c`.
fn line_starts_with(text: &[u8], a: usize, b: usize, c: u8) -> (r: bool)
    requires
        a <= b <= text@.len(),
    ensures
        r == starts_with(text@.subrange(a as int, b as int), c),
{
    a < b && text[a] == c
}

/// The number in the `k`-th field of the line `text[a..b]`, if there is one.
fn number_at(text: &[u8], a: usize, b: usize, k: usize) -> (r: Option<usize>)
    requires
        a <= b <= text@.len(),
    ensures
        match field_number_at(text@.subrange(a as int, b as int), k as int) {
            Some(v) => r == Some(v as usize),
            None => r is None,
        },
{
    match field_at(text, a, b, k) {
        Some((fa, fb)) => field_value(text, fa, fb),
        None => None,
    }
}

/// Reads a graph in the DIMACS `.col` format. Comment lines before the problem line are
/// skipped; an edge line or another kind of line there is an error, and so is a text with no
/// line but comments. After the problem line, comment lines are skipped, each edge line adds
/// its edge, and any other line, or an edge line that does not name two different vertices of
/// the graph, is an error.
#[verifier::spinoff_prover]
pub fn graph_from_dimacs(text: &[u8]) -> (r: Result<adjlist::Graph, DimacsError>)
    ensures
        match read_dimacs(text@) {
            Err(e) => r == Err::<adjlist::Graph, DimacsError>(e),
            Ok((n, es)) => r matches Ok(g) && g.wf() && g@ == edges_graph(n as int, es),
        },
{
    let ghost ls = text_lines(text@);
    let lines = split_lines(text);
    let mut h: usize = 0;
    while h < lines.len() && line_starts_with(text, lines[h].0, lines[h].1, 99)
        invariant
            ls == text_lines(text@),
            lines@.len() == ls.len(),
            forall|i: int|
                0 <= i < lines@.len() ==> (#[trigger] lines@[i]).0 <= lines@[i].1 <= text@.len()
                    && text@.subrange(lines@[i].0 as int, lines@[i].1 as int) == ls[i],
            h <= ls.len(),
            after_comments(ls, 0) == after_comments(ls, h as int),
        decreases ls.len() - h,
    {
        h = h + 1;
    }
    if h == lines.len() {
        return Err(DimacsError::NoProblemLine);
    }
    proof {
        assert(after_comments(ls, h as int) == h);
    }
    let (a, b) = lines[h];
    if !line_starts_with(text, a, b, 112) {
        if line_starts_with(text, a, b, 101) {
            return Err(DimacsError::EdgeBeforeProblem);
        }
        return Err(DimacsError::MissingProblem);
    }
    let n = match number_at(text, a, b, 2) {
        Some(n) => n,
        None => {
            return Err(DimacsError::BadProblemLine);
        },
    };
    if n > 0 && n > usize::MAX / n {
        proof {
            assert(n * n > usize::MAX) by (nonlinear_arith)
                requires
                    n > 0,
                    n > usize::MAX / n,
            ;
        }
        return Err(DimacsError::TooManyVertices);
    }
    proof {
        assert(n * n <= usize::MAX) by (nonlinear_arith)
            requires
                n == 0 || n <= usize::MAX / n,
        ;
    }
    let ghost nn = field_number_at(ls[h as int], 2)->0;
    let mut edges: Vec<(usize, usize)> = Vec::new();
    let mut j = h + 1;
    while j < lines.len()
        invariant
            ls == text_lines(text@),
            after_comments(ls, 0) == h,
            h < j <= ls.len(),
            starts_with(ls[h as int], 112),
            field_number_at(ls[h as int], 2) == Some(nn),
            n == nn,
            n * n <= usize::MAX,
            lines@.len() == ls.len(),
            forall|i: int|
                0 <= i < lines@.len() ==> (#[trigger] lines@[i]).0 <= lines@[i].1 <= text@.len()
                    && text@.subrange(lines@[i].0 as int, lines@[i].1 as int) == ls[i],
            body_end(ls, h + 1, nn) == body_end(ls, j as int, nn),
            edges@ == edges_between(ls, h + 1, j as int),
            forall|k: int| 0 <= k < edges@.len() ==> #[trigger] edges@[k].0 < edges@[k].1 < n,
        decreases ls.len() - j,
    {
        let (a, b) = lines[j];
        if line_starts_with(text, a, b, 99) {
            j = j + 1;
        } else if line_starts_with(text, a, b, 101) {
            let u = number_at(text, a, b, 1);
            let v = number_at(text, a, b, 2);
            let (u, v) = match (u, v) {
                (Some(u), Some(v)) => {
                    if u < 1 || u > n || v < 1 || v > n {
                        proof {
                            assert(body_end(ls, j as int, nn) == j);
                        }
                        return Err(DimacsError::BadEdgeLine);
                    }
                    (u, v)
                },
                _ => {
                    proof {
                        assert(body_end(ls, j as int, nn) == j);
                    }
                    return Err(DimacsError::BadEdgeLine);
                },
            };
            if u == v {
                proof {
                    assert(body_end(ls, j as int, nn) == j);
                }
                return Err(DimacsError::LoopEdge);
            }
            proof {
                assert(edge_line_ok(ls[j as int], nn));
                assert(body_end(ls, j as int, nn) == body_end(ls, j + 1, nn));
            }
            let edge = if u < v {
                (u - 1, v - 1)
            } else {
                (v - 1, u - 1)
            };
            assert(edge == line_edge(ls[j as int]));
            assert(edge.0 < edge.1 < n);
            let ghost before = edges@;
            edges.push(edge);
            proof {
                assert forall|k: int| 0 <= k < edges@.len() implies #[trigger] edges@[k].0 < edges@[k].1 < n by {
                    if k < before.len() {
                        assert(edges@[k] == before[k]);
                    }
                }
            }
            j = j + 1;
        } else {
            proof {
                assert(body_end(ls, j as int, nn) == j);
            }
            return Err(DimacsError::InvalidLine);
        }
    }
    proof {
        assert(body_end(ls, j as int, nn) == j);
    }
    assert(forall|k: int| 0 <= k < edges@.len() ==> #[trigger] edges@[k].0 < edges@[k].1 < n);
    Ok(adjlist::Graph::from_edges(n, &edges))
}

} // verus!
