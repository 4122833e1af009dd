//! The edge-list text: comma-separated specs, each a single vertex label
//! (an isolated vertex) or `X-Y` (an edge from `X` to `Y`).
use vstd::prelude::*;


verus! {

/// The characters with the Unicode `White_Space` property.
pub open spec fn white_space(c: char) -> bool {
    let n = c as int;
    ||| 0x9 <= n <= 0xD
    ||| n == 0x20
    ||| n == 0x85
    ||| n == 0xA0
    ||| n == 0x1680
    ||| 0x2000 <= n <= 0x200A
    ||| n == 0x2028
    ||| n == 0x2029
    ||| n == 0x202F
    ||| n == 0x205F
    ||| n == 0x3000
}

/// `s` without its leading white space.
pub open spec fn trim_start(s: Seq<char>) -> Seq<char>
    decreases s.len(),
{
    if s.len() > 0 && white_space(s[0]) {
        trim_start(s.drop_first())
    } else {
        s
    }
}

/// `s` without its trailing white space.
pub open spec fn trim_end(s: Seq<char>) -> Seq<char>
    decreases s.len(),
{
    if s.len() > 0 && white_space(s.last()) {
        trim_end(s.drop_last())
    } else {
        s
    }
}

/// `s` without its leading and trailing white space.
pub open spec fn trimmed(s: Seq<char>) -> Seq<char> {
    trim_end(trim_start(s))
}

/// Relies on str::trim: the slice without leading and trailing characters
/// of the Unicode `White_Space` property.
pub assume_specification<'a>[ str::trim ](s: &'a str) -> (r: &'a str)
    ensures
        r@ == trimmed(s@),
;

/// Relies on String::push: appends one character.
pub assume_specification[ String::push ](s: &mut String, ch: char)
    ensures
        final(s)@ == old(s)@.push(ch),
;

/// The pieces of `t` between commas; there is always at least one.
pub open spec fn split_commas(t: Seq<char>) -> Seq<Seq<char>>
    decreases t.len(),
{
    if t.len() == 0 {
        seq![Seq::empty()]
    } else {
        let r = split_commas(t.drop_last());
        if t.last() == ',' {
            r.push(Seq::empty())
        } else {
            r.update(r.len() - 1, r.last().push(t.last()))
        }
    }
}

/// A piece is one label, or two labels joined by `-`.
pub open spec fn piece_ok(p: Seq<char>) -> bool {
    ||| p.len() == 1 && p[0] != '-'
    ||| p.len() == 3 && p[1] == '-' && p[0] != '-' && p[2] != '-'
}

/// The graph `m` after reading one well-formed piece: a lone label becomes
/// (or is reset to) an isolated entry; an edge adds its target to the
/// source's successors.
pub open spec fn apply_piece(m: Map<char, Set<char>>, p: Seq<char>) -> Map<char, Set<char>> {
    if p.len() == 1 {
        m.insert(p[0], Set::empty())
    } else {
        m.insert(p[0], if m.dom().contains(p[0]) { m[p[0]].insert(p[2]) } else { set![p[2]] })
    }
}

/// The graph that a sequence of pieces builds, read from left to right.
pub open spec fn build(ps: Seq<Seq<char>>) -> Map<char, Set<char>>
    decreases ps.len(),
{
    if ps.len() == 0 {
        Map::empty()
    } else {
        apply_piece(build(ps.drop_last()), ps.last())
    }
}

/// What reading `s` gives: the graph, or `None` when some piece between
/// commas is not well formed (which includes text with no piece at all).
pub open spec fn parse_model(s: Seq<char>) -> Option<Map<char, Set<char>>> {
    let ps = split_commas(trimmed(s));
    if forall|i: int| 0 <= i < ps.len() ==> piece_ok(#[trigger] ps[i]) {
        Some(build(ps))
    } else {
        None
    }
}

/// The pieces that one row is written as.
pub open spec fn row_pieces(k: char, s: Seq<char>) -> Seq<Seq<char>> {
    if s.len() == 0 {
        seq![seq![k]]
    } else {
        edge_pieces(k, s)
    }
}

/// One `k-y` piece for each `y` of `s`.
pub open spec fn edge_pieces(k: char, s: Seq<char>) -> Seq<Seq<char>> {
    s.map_values(|y: char| seq![k, '-', y])
}

/// The pieces of all rows, in order.
pub open spec fn pieces_of(rows: Seq<(char, Seq<char>)>) -> Seq<Seq<char>>
    decreases rows.len(),
{
    if rows.len() == 0 {
        Seq::empty()
    } else {
        pieces_of(rows.drop_last()) + row_pieces(rows.last().0, rows.last().1)
    }
}

/// The pieces joined by commas.
pub open spec fn join(ps: Seq<Seq<char>>) -> Seq<char>
    decreases ps.len(),
{
    if ps.len() == 0 {
        Seq::empty()
    } else if ps.len() == 1 {
        ps[0]
    } else {
        join(ps.drop_last()) + seq![','] + ps.last()
    }
}

/// The text of a sequence of rows.
pub open spec fn text_of(rows: Seq<(char, Seq<char>)>) -> Seq<char> {
    join(pieces_of(rows))
}

/// Why a text is not a graph.
#[derive(Debug, Clone, Copy, PartialEq, Eq)]
pub struct ParsingError;

impl ParsingError {
    /// The error's name, as it is shown to a user.
    pub fn to_string(&self) -> (r: String)
        ensures
            r@ == "ParsingError"@,
    {
        String::from_str("ParsingError")
    }
}

} // verus!
