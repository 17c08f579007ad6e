//! Reading a graph from text: one edge per line, in the form `A -> B`.

use crate::graph::{well_formed, with_edge, Adjacency, Graph, Node};
use vstd::prelude::*;

verus! {

/// The side of an edge that a line fails to name.
#[derive(Debug, Clone, Copy, PartialEq, Eq, Structural)]
pub enum Endpoint {
    /// The node that the edge leaves.
    Tail,
    /// The node that the edge points to.
    Head,
}

/// The error of a line that does not describe an edge.
#[derive(Debug, Clone, Copy, PartialEq, Eq, Structural)]
pub struct ParseError {
    /// The number of the line, counted from one.
    pub line: usize,
    /// The side of the edge that the line does not name.
    pub missing: Endpoint,
}

/// The characters that count as blank: those with the Unicode property
/// White_Space.
pub open spec fn is_space(c: char) -> bool {
    let n = c as u32;
    ||| 0x09 <= n <= 0x0D
    ||| n == 0x20
    ||| n == 0x85
    ||| n == 0xA0
    ||| n == 0x1680
    ||| 0x2000 <= n <= 0x200A
    ||| n == 0x2028
    ||| n == 0x2029
    ||| n == 0x202F
    ||| n == 0x205F
    ||| n == 0x3000
}

/// `s` without the blanks at its start.
pub open spec fn trim_start(s: Seq<char>) -> Seq<char>
    decreases s.len(),
{
    if s.len() > 0 && is_space(s.first()) {
        trim_start(s.drop_first())
    } else {
        s
    }
}

/// `s` without the blanks at its end.
pub open spec fn trim_end(s: Seq<char>) -> Seq<char>
    decreases s.len(),
{
    if s.len() > 0 && is_space(s.last()) {
        trim_end(s.drop_last())
    } else {
        s
    }
}

/// `s` without the blanks at its start and at its end.
pub open spec fn trim(s: Seq<char>) -> Seq<char> {
    trim_end(trim_start(s))
}

/// Whether the separator ` -> ` stands in `s` at index `i`.
pub open spec fn arrow_at(s: Seq<char>, i: int) -> bool {
    &&& 0 <= i
    &&& i + 4 <= s.len()
    &&& s[i] == ' '
    &&& s[i + 1] == '-'
    &&& s[i + 2] == '>'
    &&& s[i + 3] == ' '
}

/// The index of the first separator in `s` at or after `from`, if there is
/// one.
pub open spec fn arrow_from(s: Seq<char>, from: int) -> Option<int>
    decreases s.len() - from,
{
    if from < 0 || from + 4 > s.len() {
        None
    } else if arrow_at(s, from) {
        Some(from)
    } else {
        arrow_from(s, from + 1)
    }
}

/// Whether `s` begins with the arrow `->`, so that nothing stands before it.
/// This is what is left of a separator at the start of a line once the blank
/// in front of it has been trimmed away.
pub open spec fn starts_with_arrow(s: Seq<char>) -> bool {
    s.len() >= 2 && s[0] == '-' && s[1] == '>'
}

/// The edge that a line describes. A line that is empty or begins with the
/// arrow names no tail. Any other line is cut at its separators; the tail is
/// the first character of the first piece and the head the first character
/// of the second. A piece that is empty or not there is missing, and a
/// missing tail is reported before a missing head.
pub open spec fn parse_edge_spec(line: Seq<char>) -> Result<(Node, Node), Endpoint> {
    if line.len() == 0 || starts_with_arrow(line) {
        Err(Endpoint::Tail)
    } else {
        match arrow_from(line, 0) {
            None => Err(Endpoint::Head),
            Some(at) => if at == 0 {
                Err(Endpoint::Tail)
            } else {
                let rest = line.skip(at + 4);
                if rest.len() == 0 || arrow_at(rest, 0) {
                    Err(Endpoint::Head)
                } else {
                    Ok((line[0], rest[0]))
                }
            },
        }
    }
}

/// The index of the last line feed in `s`, or -1 if it has none.
pub open spec fn last_newline(s: Seq<char>) -> int
    decreases s.len(),
{
    if s.len() == 0 {
        -1
    } else if s.last() == '\n' {
        s.len() - 1
    } else {
        last_newline(s.drop_last())
    }
}

/// The pieces into which the line feeds cut `s`. There is always at least
/// one, and the last is empty where `s` ends with a line feed.
pub open spec fn lines(s: Seq<char>) -> Seq<Seq<char>>
    decreases s.len(),
{
    let n = last_newline(s);
    if 0 <= n < s.len() {
        lines(s.take(n)).push(s.skip(n + 1))
    } else {
        seq![s]
    }
}

/// The graph described by `lines`, read in order. A line that holds only
/// blanks is passed over; the first other line that describes no edge is the
/// error, under its number.
pub open spec fn read_lines(lines: Seq<Seq<char>>) -> Result<Adjacency, ParseError>
    decreases lines.len(),
{
    if lines.len() == 0 {
        Ok(Map::empty())
    } else {
        match read_lines(lines.drop_last()) {
            Err(e) => Err(e),
            Ok(g) => {
                let line = trim(lines.last());
                if line.len() == 0 {
                    Ok(g)
                } else {
                    match parse_edge_spec(line) {
                        Ok((tail, head)) => Ok(with_edge(g, tail, head)),
                        Err(missing) => Err(ParseError { line: lines.len() as usize, missing }),
                    }
                }
            },
        }
    }
}

/// The graph that a text describes.
pub open spec fn read_graph_spec(text: Seq<char>) -> Result<Adjacency, ParseError> {
    read_lines(lines(text))
}

/// The lines of `text` that end before index `start`, where a line starts.
pub open spec fn lines_before(text: Seq<char>, start: int) -> Seq<Seq<char>> {
    if start <= 0 {
        Seq::empty()
    } else {
        lines(text.take(start - 1))
    }
}

proof fn lemma_last_newline_is(s: Seq<char>, n: int)
    requires
        -1 <= n < s.len(),
        n >= 0 ==> s[n] == '\n',
        forall|j: int| n < j < s.len() ==> s[j] != '\n',
    ensures
        last_newline(s) == n,
    decreases s.len(),
{
    if s.len() > 0 && s.last() != '\n' {
        lemma_last_newline_is(s.drop_last(), n);
    }
}

/// A line that runs from `start` to `end` is the next of the text's lines.
proof fn lemma_lines_step(text: Seq<char>, start: int, end: int)
    requires
        0 <= start <= end <= text.len(),
        start > 0 ==> text[start - 1] == '\n',
        forall|j: int| start <= j < end ==> text[j] != '\n',
    ensures
        lines(text.take(end)) == lines_before(text, start).push(text.subrange(start, end)),
{
    let s = text.take(end);
    lemma_last_newline_is(s, start - 1);
    if start > 0 {
        assert(s.take(start - 1) =~= text.take(start - 1));
        assert(s.skip(start) =~= text.subrange(start, end));
    } else {
        assert(s =~= text.subrange(start, end));
        assert(seq![s] =~= Seq::<Seq<char>>::empty().push(s));
    }
}

proof fn lemma_last_newline_bounds(s: Seq<char>)
    ensures
        -1 <= last_newline(s) < s.len(),
        last_newline(s) >= 0 ==> s[last_newline(s)] == '\n',
        forall|j: int| last_newline(s) < j < s.len() ==> s[j] != '\n',
    decreases s.len(),
{
    if s.len() > 0 && s.last() != '\n' {
        let head = s.drop_last();
        lemma_last_newline_bounds(head);
        assert forall|j: int| last_newline(s) < j < s.len() implies s[j] != '\n' by {
            if j < head.len() {
                assert(head[j] == s[j]);
            }
        }
    }
}

/// The lines of a text up to one of its line feeds are the first of its
/// lines.
proof fn lemma_lines_prefix(text: Seq<char>, at: int)
    requires
        0 <= at < text.len(),
        text[at] == '\n',
    ensures
        lines(text.take(at)).len() <= lines(text).len(),
        lines(text).take(lines(text.take(at)).len() as int) == lines(text.take(at)),
    decreases text.len(),
{
    lemma_last_newline_bounds(text);
    let n = last_newline(text);
    let head = lines(text.take(n));
    assert(lines(text) == head.push(text.skip(n + 1)));
    if n == at {
        assert(head.push(text.skip(n + 1)).take(head.len() as int) =~= head);
    } else {
        lemma_lines_prefix(text.take(n), at);
        assert(text.take(n).take(at) =~= text.take(at));
        let first = lines(text.take(at));
        assert(head.push(text.skip(n + 1)).take(first.len() as int) =~= head.take(
            first.len() as int,
        ));
    }
}

/// Once a line is in error, the lines after it change nothing.
proof fn lemma_error_stays(all: Seq<Seq<char>>, n: int)
    requires
        0 <= n <= all.len(),
        read_lines(all.take(n)) is Err,
    ensures
        read_lines(all) == read_lines(all.take(n)),
    decreases all.len(),
{
    if n == all.len() {
        assert(all.take(n) =~= all);
    } else {
        assert(all.drop_last().take(n) =~= all.take(n));
        lemma_error_stays(all.drop_last(), n);
    }
}

/// An error in the lines up to a line feed is the error of the whole text.
proof fn lemma_read_lines_error(text: Seq<char>, at: int)
    requires
        0 <= at < text.len(),
        text[at] == '\n',
        read_lines(lines(text.take(at))) is Err,
    ensures
        read_lines(lines(text)) == read_lines(lines(text.take(at))),
{
    lemma_lines_prefix(text, at);
    lemma_error_stays(lines(text), lines(text.take(at)).len() as int);
}

/// The characters of `s`, one by one.
fn chars_of(s: &str) -> (chars: Vec<char>)
    ensures
        chars@ == s@,
{
    let mut chars: Vec<char> = Vec::new();
    for c in it: s.chars()
        invariant
            it.seq() == s@,
            chars@ == it.seq().take(it.index()),
    {
        chars.push(c);
    }
    chars
}

/// Whether `c` is a blank.
pub fn is_blank(c: char) -> (b: bool)
    ensures
        b == is_space(c),
{
    let n: u32 = c as u32;
    (0x09 <= n && n <= 0x0D) || n == 0x20 || n == 0x85 || n == 0xA0 || n == 0x1680 || (0x2000 <= n
        && n <= 0x200A) || n == 0x2028 || n == 0x2029 || n == 0x202F || n == 0x205F || n == 0x3000
}

/// The part of `line` between the blanks at its two ends.
fn trimmed(line: &[char]) -> (inner: &[char])
    ensures
        inner@ == trim(line@),
{
    let mut from: usize = 0;
    assert(line@.skip(0) =~= line@);
    while from < line.len() && is_blank(line[from])
        invariant
            from <= line.len(),
            trim_start(line@) == trim_start(line@.skip(from as int)),
        decreases line.len() - from,
    {
        assert(line@.skip(from as int).drop_first() =~= line@.skip(from + 1));
        from += 1;
    }
    assert(line@.skip(from as int) =~= line@.subrange(from as int, line.len() as int));
    let mut to: usize = line.len();
    while to > from && is_blank(line[to - 1])
        invariant
            from <= to <= line.len(),
            trim(line@) == trim_end(line@.subrange(from as int, to as int)),
        decreases to,
    {
        assert(line@.subrange(from as int, to as int).drop_last() =~= line@.subrange(
            from as int,
            to - 1,
        ));
        to -= 1;
    }
    &line[from..to]
}

/// Whether the separator stands in `line` at index `i`.
fn is_arrow(line: &[char], i: usize) -> (b: bool)
    ensures
        b == arrow_at(line@, i as int),
{
    line.len() >= 4 && i <= line.len() - 4 && line[i] == ' ' && line[i + 1] == '-' && line[i + 2]
        == '>' && line[i + 3] == ' '
}

/// The index of the first separator in `line`.
fn find_arrow(line: &[char]) -> (found: Option<usize>)
    ensures
        match found {
            Some(at) => arrow_from(line@, 0) == Some(at as int) && arrow_at(line@, at as int),
            None => arrow_from(line@, 0) is None,
        },
{
    let mut i: usize = 0;
    while line.len() >= 4 && i <= line.len() - 4
        invariant
            arrow_from(line@, 0) == arrow_from(line@, i as int),
        decreases line.len() - i,
    {
        if is_arrow(line, i) {
            return Some(i);
        }
        i += 1;
    }
    None
}

/// Reads the edge that `line` describes: its tail and its head. A line with
/// nothing before its arrow fails for want of a tail.
pub fn parse_edge(line: &[char]) -> (r: Result<(Node, Node), Endpoint>)
    ensures
        r == parse_edge_spec(line@),
        line@.len() == 0 || starts_with_arrow(line@) || arrow_at(line@, 0) ==> r == Err::<
            (Node, Node),
            Endpoint,
        >(Endpoint::Tail),
{
    if line.len() == 0 || (line.len() >= 2 && line[0] == '-' && line[1] == '>') {
        return Err(Endpoint::Tail);
    }
    match find_arrow(line) {
        None => Err(Endpoint::Head),
        Some(at) => {
            if at == 0 {
                return Err(Endpoint::Tail);
            }
            let len = line.len();
            let rest = &line[at + 4..len];
            if rest.len() == 0 || is_arrow(rest, 0) {
                Err(Endpoint::Head)
            } else {
                Ok((line[0], rest[0]))
            }
        },
    }
}

/// The index of the first line feed in `text` at or after `start`, or the
/// length of `text` if there is none.
fn line_end(text: &[char], start: usize) -> (end: usize)
    requires
        start <= text.len(),
    ensures
        start <= end <= text.len(),
        forall|j: int| start <= j < end ==> text@[j] != '\n',
        end < text.len() ==> text@[end as int] == '\n',
{
    let mut end: usize = start;
    while end < text.len() && text[end] != '\n'
        invariant
            start <= end <= text.len(),
            forall|j: int| start <= j < end ==> text@[j] != '\n',
        decreases text.len() - end,
    {
        end += 1;
    }
    end
}

/// Reads a graph from `s`, which gives one edge per line, as `A -> B`.
/// Blanks around a line are ignored, and so are lines that hold nothing
/// else.
pub fn read_graph(s: &str) -> (r: Result<Graph, ParseError>)
    ensures
        match r {
            Ok(graph) => read_graph_spec(s@) == Ok::<Adjacency, ParseError>(graph@) && well_formed(
                graph@,
            ),
            Err(e) => read_graph_spec(s@) == Err::<Adjacency, ParseError>(e),
        },
{
    let chars = chars_of(s);
    let text = chars.as_slice();
    let mut graph = Graph::new();
    let mut start: usize = 0;
    let mut lines_read: usize = 0;
    loop
        invariant
            text@ == s@,
            start <= text.len(),
            start > 0 ==> text@[start - 1] == '\n',
            lines_read <= start,
            lines_before(text@, start as int).len() == lines_read,
            read_lines(lines_before(text@, start as int)) == Ok::<Adjacency, ParseError>(graph@),
            well_formed(graph@),
        decreases text.len() - start,
    {
        let end = line_end(text, start);
        let line = trimmed(&text[start..end]);
        let ghost before = lines_before(text@, start as int);
        let ghost upto = lines(text@.take(end as int));
        proof {
            lemma_lines_step(text@, start as int, end as int);
            assert(upto.drop_last() =~= before);
            assert(upto.last() == text@.subrange(start as int, end as int));
        }
        if line.len() > 0 {
            match parse_edge(line) {
                Ok((tail, head)) => {
                    graph.add_edge(tail, head);
                },
                Err(missing) => {
                    proof {
                        if end == text.len() {
                            assert(text@.take(end as int) =~= text@);
                        } else {
                            lemma_read_lines_error(text@, end as int);
                        }
                    }
                    return Err(ParseError { line: lines_read + 1, missing });
                },
            }
        }
        if end == text.len() {
            assert(text@.take(end as int) =~= text@);
            return Ok(graph);
        }
        start = end + 1;
        lines_read += 1;
    }
}

} // verus!
