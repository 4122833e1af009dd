//! Laws that relate reading, writing and deleting.
use vstd::prelude::*;

use crate::charset::{elems, increasing};
use crate::graph::{lemma_insert_row, map_of, rows_ok, Graph};
use crate::model::{
    bypass, delete_explicit, delete_model, delete_sink, detach, explicit_ok, referenced,
};
use crate::text::{
    apply_piece, build, edge_pieces, join, parse_model, piece_ok, pieces_of, row_pieces,
    split_commas, text_of, trimmed, white_space,
};

verus! {

/// No label of `m`, explicit or as a successor, is a separator.
pub open spec fn plain_labels(m: Map<char, Set<char>>) -> bool {
    forall|u: char|
        #[trigger] m.dom().contains(u) ==> u != ',' && u != '-' && forall|w: char|
            #[trigger] m[u].contains(w) ==> w != ',' && w != '-'
}

/// `ps` applied, in order, to `m`.
spec fn build_on(m: Map<char, Set<char>>, ps: Seq<Seq<char>>) -> Map<char, Set<char>>
    decreases ps.len(),
{
    if ps.len() == 0 {
        m
    } else {
        apply_piece(build_on(m, ps.drop_last()), ps.last())
    }
}

proof fn lemma_build_concat(a: Seq<Seq<char>>, b: Seq<Seq<char>>)
    ensures
        build(a + b) == build_on(build(a), b),
    decreases b.len(),
{
    if b.len() == 0 {
        assert(a + b =~= a);
    } else {
        assert((a + b).drop_last() =~= a + b.drop_last());
        assert((a + b).last() == b.last());
        lemma_build_concat(a, b.drop_last());
    }
}

proof fn lemma_build_edges(m: Map<char, Set<char>>, k: char, s: Seq<char>, j: int)
    requires
        !m.dom().contains(k),
        1 <= j <= s.len(),
    ensures
        build_on(m, edge_pieces(k, s.take(j))) == m.insert(k, elems(s.take(j))),
    decreases j,
{
    let ps = edge_pieces(k, s.take(j));
    let p = seq![k, '-', s[j - 1]];
    assert(ps.last() == p);
    assert(p.len() == 3 && p[0] == k && p[2] == s[j - 1]);
    assert(build_on(m, ps) == apply_piece(build_on(m, ps.drop_last()), p));
    if j == 1 {
        assert(ps.drop_last() =~= Seq::<Seq<char>>::empty());
        assert(build_on(m, ps.drop_last()) == m);
        assert(elems(s.take(1)) =~= set![s[0]]) by {
            assert(s.take(1)[0] == s[0]);
        }
    } else {
        assert(ps.drop_last() =~= edge_pieces(k, s.take(j - 1)));
        lemma_build_edges(m, k, s, j - 1);
        crate::charset::lemma_elems_take(s, j - 1);
        assert(m.insert(k, elems(s.take(j - 1))).insert(k, elems(s.take(j - 1)).insert(s[j - 1]))
            =~= m.insert(k, elems(s.take(j))));
    }
}

/// Reading the pieces of all rows rebuilds their map.
proof fn lemma_build_rows(rows: Seq<(char, Seq<char>)>)
    requires
        rows_ok(rows),
    ensures
        build(pieces_of(rows)) == map_of(rows),
    decreases rows.len(),
{
    if rows.len() == 0 {
        assert(map_of(rows) =~= Map::<char, Set<char>>::empty());
    } else {
        let n = rows.len() - 1;
        let init = rows.drop_last();
        let (k, s) = rows.last();
        assert(rows_ok(init)) by {
            assert forall|j: int| 0 <= j < init.len() implies increasing(#[trigger] init[j].1) by {
                assert(init[j] == rows[j]);
            }
        }
        lemma_build_rows(init);
        lemma_build_concat(pieces_of(init), row_pieces(k, s));
        assert(!map_of(init).dom().contains(k)) by {
            if map_of(init).dom().contains(k) {
                let j = choose|j: int| 0 <= j < init.len() && #[trigger] init[j].0 == k;
                assert(rows[j].0 == k);
            }
        }
        assert(pieces_of(rows) == pieces_of(init) + row_pieces(k, s));
        if s.len() == 0 {
            let one = seq![seq![k]];
            assert(row_pieces(k, s) == one);
            assert(one.drop_last() =~= Seq::<Seq<char>>::empty());
            assert(build_on(map_of(init), one) == apply_piece(build_on(map_of(init), one.drop_last()), seq![k]));
            assert(elems(s) =~= Set::<char>::empty());
        } else {
            assert(s.take(s.len() as int) =~= s);
            lemma_build_edges(map_of(init), k, s, s.len() as int);
        }
        lemma_insert_row(init, n, k, s);
        assert(init.insert(n, (k, s)) =~= rows);
    }
}

proof fn lemma_split_nonempty(t: Seq<char>)
    ensures
        split_commas(t).len() >= 1,
    decreases t.len(),
{
    if t.len() > 0 {
        lemma_split_nonempty(t.drop_last());
    }
}

/// Text without a comma extends the last piece.
proof fn lemma_split_plain(y: Seq<char>, p: Seq<char>)
    requires
        !p.contains(','),
    ensures
        split_commas(y + p) == split_commas(y).update(
            split_commas(y).len() - 1,
            split_commas(y).last() + p,
        ),
    decreases p.len(),
{
    lemma_split_nonempty(y);
    let sy = split_commas(y);
    if p.len() == 0 {
        assert(y + p =~= y);
        assert(sy.update(sy.len() - 1, sy.last() + p) =~= sy);
    } else {
        let q = p.drop_last();
        assert(!q.contains(',')) by {
            if q.contains(',') {
                let i = choose|i: int| 0 <= i < q.len() && q[i] == ',';
                assert(p[i] == ',');
            }
        }
        assert(p[p.len() - 1] != ',');
        lemma_split_plain(y, q);
        assert((y + p).drop_last() =~= y + q);
        assert((y + p).last() == p.last());
        let r = split_commas(y + q);
        assert(r.len() == sy.len());
        assert(r.last() == sy.last() + q);
        assert((sy.last() + q).push(p.last()) =~= sy.last() + p);
        assert(split_commas(y + p) == r.update(r.len() - 1, r.last().push(p.last())));
        assert(split_commas(y + p) =~= sy.update(sy.len() - 1, sy.last() + p));
    }
}

/// Splitting comma-free pieces joined by commas gives the pieces back.
proof fn lemma_split_join(ps: Seq<Seq<char>>)
    requires
        ps.len() >= 1,
        forall|i: int| 0 <= i < ps.len() ==> !(#[trigger] ps[i]).contains(','),
    ensures
        split_commas(join(ps)) == ps,
    decreases ps.len(),
{
    let e = Seq::<char>::empty();
    if ps.len() == 1 {
        lemma_split_plain(e, ps[0]);
        assert(e + ps[0] =~= ps[0]);
        assert(split_commas(e) == seq![e]);
        assert(seq![e].update(0, e + ps[0]) =~= ps);
    } else {
        let init = ps.drop_last();
        let x = join(init);
        lemma_split_join(init);
        let xc = x + seq![','];
        assert(xc.drop_last() =~= x);
        assert(split_commas(xc) == init.push(e));
        lemma_split_plain(xc, ps.last());
        assert(join(ps) == xc + ps.last());
        assert(e + ps.last() =~= ps.last());
        assert(init.push(e).update(init.len() as int, ps.last()) =~= ps);
    }
}

/// No piece of a split holds a comma.
proof fn lemma_split_no_comma(t: Seq<char>)
    ensures
        forall|i: int|
            0 <= i < split_commas(t).len() ==> !(#[trigger] split_commas(t)[i]).contains(','),
    decreases t.len(),
{
    if t.len() > 0 {
        let r = split_commas(t.drop_last());
        lemma_split_no_comma(t.drop_last());
        lemma_split_nonempty(t.drop_last());
        if t.last() != ',' {
            let p = r.last().push(t.last());
            assert(!p.contains(',')) by {
                if p.contains(',') {
                    let i = choose|i: int| 0 <= i < p.len() && p[i] == ',';
                    assert(r[r.len() - 1][i] == ',');
                }
            }
            assert forall|i: int| 0 <= i < split_commas(t).len() implies !(#[trigger] split_commas(t)[i]).contains(',') by {
                if i < r.len() - 1 {
                    assert(split_commas(t)[i] == r[i]);
                }
            }
        } else {
            assert forall|i: int| 0 <= i < split_commas(t).len() implies !(#[trigger] split_commas(t)[i]).contains(',') by {
                if i < r.len() {
                    assert(split_commas(t)[i] == r[i]);
                } else {
                    assert(split_commas(t)[i] =~= Seq::<char>::empty());
                }
            }
        }
    }
}

/// Well-formed, comma-free pieces build a graph with plain labels, and at
/// least one entry when there is a piece.
proof fn lemma_build_plain(ps: Seq<Seq<char>>)
    requires
        forall|i: int| 0 <= i < ps.len() ==> piece_ok(#[trigger] ps[i]) && !ps[i].contains(','),
    ensures
        plain_labels(build(ps)),
        ps.len() > 0 ==> build(ps).dom().contains(ps.last()[0]),
    decreases ps.len(),
{
    if ps.len() > 0 {
        let init = ps.drop_last();
        let p = ps.last();
        assert(piece_ok(ps[ps.len() - 1]) && !ps[ps.len() - 1].contains(','));
        assert forall|i: int| 0 <= i < init.len() implies piece_ok(#[trigger] init[i]) && !init[i].contains(',') by {
            assert(init[i] == ps[i]);
        }
        lemma_build_plain(init);
        assert(p[0] != ',');
        if p.len() == 3 {
            assert(p[2] != ',');
        }
    }
}

/// Trimming leaves text alone whose ends are not white space.
proof fn lemma_trim_id(t: Seq<char>)
    requires
        t.len() > 0 ==> !white_space(t[0]) && !white_space(t.last()),
    ensures
        trimmed(t) == t,
{
}

/// The pieces of rows with plain labels are well formed and comma-free.
proof fn lemma_pieces_ok(rows: Seq<(char, Seq<char>)>)
    requires
        rows_ok(rows),
        plain_labels(map_of(rows)),
    ensures
        forall|i: int|
            0 <= i < pieces_of(rows).len() ==> piece_ok(#[trigger] pieces_of(rows)[i]) && !pieces_of(
                rows,
            )[i].contains(','),
        rows.len() > 0 ==> pieces_of(rows).len() > 0,
    decreases rows.len(),
{
    if rows.len() > 0 {
        let init = rows.drop_last();
        let (k, s) = rows.last();
        assert(rows_ok(init)) by {
            assert forall|j: int| 0 <= j < init.len() implies increasing(#[trigger] init[j].1) by {
                assert(init[j] == rows[j]);
            }
        }
        assert(plain_labels(map_of(init))) by {
            assert forall|u: char| #[trigger] map_of(init).dom().contains(u) implies u != ',' && u != '-' && forall|w: char|
                #[trigger] map_of(init)[u].contains(w) ==> w != ',' && w != '-' by {
                let j = choose|j: int| 0 <= j < init.len() && #[trigger] init[j].0 == u;
                assert(rows[j] == init[j]);
                crate::graph::lemma_row(rows, j);
                crate::graph::lemma_row(init, j);
            }
        }
        lemma_pieces_ok(init);
        crate::graph::lemma_row(rows, rows.len() - 1);
        let rp = row_pieces(k, s);
        assert forall|i: int| 0 <= i < rp.len() implies piece_ok(#[trigger] rp[i]) && !rp[i].contains(',') by {
            if s.len() == 0 {
                assert(rp[i] == seq![k]);
            } else {
                assert(rp[i] == seq![k, '-', s[i]]);
                assert(elems(s).contains(s[i]));
            }
        }
        let ps = pieces_of(rows);
        assert(ps == pieces_of(init) + rp);
        assert forall|i: int| 0 <= i < ps.len() implies piece_ok(#[trigger] ps[i]) && !ps[i].contains(',') by {
            if i < pieces_of(init).len() {
                assert(ps[i] == pieces_of(init)[i]);
            } else {
                assert(ps[i] == rp[i - pieces_of(init).len()]);
            }
        }
    }
}

/// Writing a graph that was read from text, and reading the result back,
/// gives the same graph, unless its text begins or ends with white space
/// (a white-space label first or last), which reading trims away.
pub proof fn lemma_round_trip_exact(s: Seq<char>, g: Graph)
    requires
        g.wf(),
        parse_model(s) == Some(g@),
        !white_space(text_of(g.rows()).first()),
        !white_space(text_of(g.rows()).last()),
    ensures
        parse_model(text_of(g.rows())) == Some(g@),
{
    let rows = g.rows();
    let ps0 = split_commas(trimmed(s));
    lemma_split_no_comma(trimmed(s));
    lemma_split_nonempty(trimmed(s));
    lemma_build_plain(ps0);
    assert(rows.len() > 0) by {
        if rows.len() == 0 {
            assert(!map_of(rows).dom().contains(ps0.last()[0]));
        }
    }
    lemma_pieces_ok(rows);
    let ps = pieces_of(rows);
    lemma_split_join(ps);
    let t = text_of(rows);
    lemma_trim_id(t);
    lemma_build_rows(rows);
}

/// `v` carries nothing but a loop onto itself, and some other vertex that
/// something points at has `v` as its only successor. Deleting `v` then
/// leaves that vertex without successors while still pointed at.
pub open spec fn lone_loop_trap(m: Map<char, Set<char>>, v: char) -> bool {
    &&& m.dom().contains(v)
    &&& m[v] == set![v]
    &&& exists|u: char| u != v && #[trigger] m.dom().contains(u) && m[u] == set![v] && referenced(m, u)
}

/// Deletion keeps the explicitness invariant, save for the one case above.
pub proof fn lemma_delete_keeps_explicit(m: Map<char, Set<char>>, v: char)
    requires
        explicit_ok(m),
        !lone_loop_trap(m, v),
    ensures
        explicit_ok(delete_model(m, v).0),
{
    let m1 = detach(m, v);
    if m.dom().contains(v) {
        let r = delete_explicit(m, v);
        let b = bypass(m, v);
        let succ = m1[v];
        assert forall|x: char| #[trigger] r.dom().contains(x) && r[x] == Set::<char>::empty() implies !referenced(r, x) by {
            if referenced(r, x) {
                let y = choose|y: char| #[trigger] r.dom().contains(y) && r[y].contains(x);
                assert(b.dom().contains(y));
                assert(b[y].contains(x));
                assert(referenced(b, x));
                if b.dom().contains(x) {
                    assert(b[x] == Set::<char>::empty());
                    if m[x].contains(v) {
                        assert(m1[x].union(succ) == Set::<char>::empty());
                        assert(m[x] =~= set![v]) by {
                            assert forall|z: char| m[x].contains(z) implies z == v by {
                                if z != v {
                                    assert(m1[x].contains(z));
                                    assert(m1[x].union(succ).contains(z));
                                }
                            }
                        }
                        assert(m[v] =~= set![v]) by {
                            assert forall|z: char| m[v].contains(z) implies z == v by {
                                if z != v {
                                    assert(succ.contains(z));
                                    assert(m1[x].union(succ).contains(z));
                                }
                            }
                            if !m[v].contains(v) {
                                assert(m[v] =~= Set::<char>::empty());
                                assert(referenced(m, v));
                            }
                        }
                        assert(!succ.contains(x));
                        assert(m[y].contains(x)) by {
                            assert(m1[y].contains(x));
                        }
                        assert(referenced(m, x));
                        assert(lone_loop_trap(m, v));
                    } else {
                        assert(m[x] =~= Set::<char>::empty()) by {
                            assert forall|z: char| !m[x].contains(z) by {
                                if m[x].contains(z) {
                                    assert(m1[x].contains(z));
                                }
                            }
                        }
                        if m[y].contains(x) {
                            assert(referenced(m, x));
                        } else {
                            assert(succ.contains(x));
                            assert(m[v].contains(x));
                            assert(referenced(m, x));
                        }
                    }
                }
            }
        }
    } else if referenced(m, v) {
        let r = delete_sink(m, v);
        assert forall|x: char| #[trigger] r.dom().contains(x) && r[x] == Set::<char>::empty() implies !referenced(r, x) by {
            if referenced(r, x) {
                let y = choose|y: char| #[trigger] r.dom().contains(y) && r[y].contains(x);
                assert(m1.dom().contains(y) && m1[y].contains(x));
                assert(referenced(m1, x));
                if !m[x].contains(v) {
                    assert(m[x] =~= Set::<char>::empty()) by {
                        assert forall|z: char| !m[x].contains(z) by {
                            if m[x].contains(z) {
                                assert(m1[x].contains(z));
                            }
                        }
                    }
                    assert(m[y].contains(x));
                    assert(referenced(m, x));
                }
            }
        }
    }
}

/// Some lone piece `x` comes after every edge piece from `x`.
pub open spec fn ends_isolated(ps: Seq<Seq<char>>, x: char) -> bool {
    exists|i: int|
        0 <= i < ps.len() && #[trigger] ps[i] == seq![x] && forall|k: int|
            i < k < ps.len() ==> !(ps[k].len() == 3 && #[trigger] ps[k][0] == x)
}

/// Some edge piece into `x` is not followed by a lone piece naming its
/// source.
pub open spec fn ends_targeted(ps: Seq<Seq<char>>, x: char) -> bool {
    exists|j: int|
        0 <= j < ps.len() && (#[trigger] ps[j]).len() == 3 && ps[j][2] == x && forall|k: int|
            j < k < ps.len() ==> #[trigger] ps[k] != seq![ps[j][0]]
}

proof fn lemma_build_empty_entry(ps: Seq<Seq<char>>, x: char)
    requires
        forall|i: int| 0 <= i < ps.len() ==> piece_ok(#[trigger] ps[i]),
        build(ps).dom().contains(x),
        build(ps)[x] == Set::<char>::empty(),
    ensures
        ends_isolated(ps, x),
    decreases ps.len(),
{
    let init = ps.drop_last();
    let p = ps.last();
    let n = ps.len() - 1;
    assert(piece_ok(ps[n]));
    assert forall|i: int| 0 <= i < init.len() implies piece_ok(#[trigger] init[i]) by {
        assert(init[i] == ps[i]);
    }
    if p.len() == 1 {
        if p[0] == x {
            assert(ps[n] =~= seq![x]);
        } else {
            lemma_build_empty_entry(init, x);
            let i = choose|i: int|
                0 <= i < init.len() && #[trigger] init[i] == seq![x] && forall|k: int|
                    i < k < init.len() ==> !(init[k].len() == 3 && #[trigger] init[k][0] == x);
            assert(ps[i] == seq![x]);
            assert forall|k: int| i < k < ps.len() implies !(ps[k].len() == 3 && #[trigger] ps[k][0] == x) by {
                if k < n {
                    assert(ps[k] == init[k]);
                }
            }
        }
    } else {
        if p[0] == x {
            assert(build(ps)[x].contains(p[2]));
        } else {
            lemma_build_empty_entry(init, x);
            let i = choose|i: int|
                0 <= i < init.len() && #[trigger] init[i] == seq![x] && forall|k: int|
                    i < k < init.len() ==> !(init[k].len() == 3 && #[trigger] init[k][0] == x);
            assert(ps[i] == seq![x]);
            assert forall|k: int| i < k < ps.len() implies !(ps[k].len() == 3 && #[trigger] ps[k][0] == x) by {
                if k < n {
                    assert(ps[k] == init[k]);
                }
            }
        }
    }
}

proof fn lemma_build_edge(ps: Seq<Seq<char>>, z: char, x: char)
    requires
        forall|i: int| 0 <= i < ps.len() ==> piece_ok(#[trigger] ps[i]),
        build(ps).dom().contains(z),
        build(ps)[z].contains(x),
    ensures
        exists|j: int|
            0 <= j < ps.len() && (#[trigger] ps[j]).len() == 3 && ps[j][0] == z && ps[j][2] == x
                && forall|k: int| j < k < ps.len() ==> #[trigger] ps[k] != seq![z],
    decreases ps.len(),
{
    let init = ps.drop_last();
    let p = ps.last();
    let n = ps.len() - 1;
    assert(piece_ok(ps[n]));
    assert forall|i: int| 0 <= i < init.len() implies piece_ok(#[trigger] init[i]) by {
        assert(init[i] == ps[i]);
    }
    if p.len() == 3 && p[0] == z && p[2] == x {
        assert(ps[n].len() == 3);
    } else {
        if p.len() == 1 {
            assert(p[0] != z);
        }
        assert(build(init).dom().contains(z) && build(init)[z].contains(x));
        lemma_build_edge(init, z, x);
        let j = choose|j: int|
            0 <= j < init.len() && (#[trigger] init[j]).len() == 3 && init[j][0] == z && init[j][2] == x
                && forall|k: int| j < k < init.len() ==> #[trigger] init[k] != seq![z];
        assert(ps[j] == init[j]);
        assert forall|k: int| j < k < ps.len() implies #[trigger] ps[k] != seq![z] by {
            if k < n {
                assert(ps[k] == init[k]);
            } else {
                if p.len() == 1 {
                    assert(p[0] != z);
                    assert(p != seq![z]);
                } else {
                    assert(p.len() != seq![z].len());
                }
            }
        }
    }
}

/// Reading text gives a graph with the explicitness invariant, unless some
/// vertex both ends as a lone label (no edge from it after its last lone
/// piece) and is the target of an edge whose source is not reset by a later
/// lone piece: such a vertex keeps an empty entry while being pointed at.
pub proof fn lemma_parse_explicit(s: Seq<char>)
    requires
        parse_model(s) is Some,
        !exists|x: char|
            ends_isolated(split_commas(trimmed(s)), x) && #[trigger] ends_targeted(
                split_commas(trimmed(s)),
                x,
            ),
    ensures
        explicit_ok(parse_model(s)->Some_0),
{
    let ps = split_commas(trimmed(s));
    let m = build(ps);
    assert forall|x: char| #[trigger] m.dom().contains(x) && m[x] == Set::<char>::empty() implies !referenced(m, x) by {
        lemma_build_empty_entry(ps, x);
        if referenced(m, x) {
            let z = choose|z: char| #[trigger] m.dom().contains(z) && m[z].contains(x);
            lemma_build_edge(ps, z, x);
            let j = choose|j: int|
                0 <= j < ps.len() && (#[trigger] ps[j]).len() == 3 && ps[j][0] == z && ps[j][2] == x
                    && forall|k: int| j < k < ps.len() ==> #[trigger] ps[k] != seq![z];
            assert(ends_targeted(ps, x));
        }
    }
}

/// No label of `m`, explicit or as a successor, is white space.
pub open spec fn no_white_labels(m: Map<char, Set<char>>) -> bool {
    forall|u: char|
        #[trigger] m.dom().contains(u) ==> !white_space(u) && forall|w: char|
            #[trigger] m[u].contains(w) ==> !white_space(w)
}

/// `p` is one of the pieces that `row` is written as.
spec fn piece_of_row(p: Seq<char>, row: (char, Seq<char>)) -> bool {
    ||| p == seq![row.0]
    ||| exists|j: int| 0 <= j < row.1.len() && p == seq![row.0, '-', #[trigger] row.1[j]]
}

/// `p` is one of the pieces of some row of `rows`.
spec fn has_row_of(p: Seq<char>, rows: Seq<(char, Seq<char>)>) -> bool {
    exists|r: int| 0 <= r < rows.len() && #[trigger] piece_of_row(p, rows[r])
}

proof fn lemma_pieces_from_rows(rows: Seq<(char, Seq<char>)>)
    ensures
        forall|i: int|
            0 <= i < pieces_of(rows).len() ==> #[trigger] has_row_of(pieces_of(rows)[i], rows),
    decreases rows.len(),
{
    if rows.len() > 0 {
        let init = rows.drop_last();
        let n = rows.len() - 1;
        let (k, s) = rows.last();
        lemma_pieces_from_rows(init);
        let rp = row_pieces(k, s);
        let ps = pieces_of(rows);
        assert(ps == pieces_of(init) + rp);
        assert forall|i: int| 0 <= i < ps.len() implies #[trigger] has_row_of(ps[i], rows) by {
            if i < pieces_of(init).len() {
                assert(ps[i] == pieces_of(init)[i]);
                assert(has_row_of(pieces_of(init)[i], init));
                let r = choose|r: int| 0 <= r < init.len() && #[trigger] piece_of_row(pieces_of(init)[i], init[r]);
                assert(rows[r] == init[r]);
                assert(piece_of_row(ps[i], rows[r]));
            } else {
                let q = i - pieces_of(init).len();
                assert(ps[i] == rp[q]);
                if s.len() == 0 {
                    assert(piece_of_row(ps[i], rows[n]));
                } else {
                    assert(rp[q] == seq![k, '-', s[q]]);
                    assert(piece_of_row(ps[i], rows[n]));
                }
            }
        }
    }
}

proof fn lemma_join_ends(ps: Seq<Seq<char>>)
    requires
        ps.len() >= 1,
        forall|i: int| 0 <= i < ps.len() ==> (#[trigger] ps[i]).len() >= 1,
    ensures
        join(ps).len() >= 1,
        join(ps)[0] == ps[0][0],
        join(ps).last() == ps.last().last(),
    decreases ps.len(),
{
    if ps.len() > 1 {
        let init = ps.drop_last();
        assert forall|i: int| 0 <= i < init.len() implies (#[trigger] init[i]).len() >= 1 by {
            assert(init[i] == ps[i]);
        }
        lemma_join_ends(init);
        assert(init[0] == ps[0]);
        assert(ps[ps.len() - 1].len() >= 1);
    } else {
        assert(ps[0].len() >= 1);
    }
}

/// Writing a graph that was read from text, and reading the result back,
/// gives the same graph, when no label of the graph is white space.
pub proof fn lemma_round_trip(s: Seq<char>, g: Graph)
    requires
        g.wf(),
        parse_model(s) == Some(g@),
        no_white_labels(g@),
    ensures
        parse_model(text_of(g.rows())) == Some(g@),
{
    let rows = g.rows();
    let ps0 = split_commas(trimmed(s));
    lemma_split_no_comma(trimmed(s));
    lemma_split_nonempty(trimmed(s));
    lemma_build_plain(ps0);
    assert(rows.len() > 0) by {
        if rows.len() == 0 {
            assert(!map_of(rows).dom().contains(ps0.last()[0]));
        }
    }
    lemma_pieces_ok(rows);
    lemma_pieces_from_rows(rows);
    let ps = pieces_of(rows);
    assert forall|i: int| 0 <= i < ps.len() implies (#[trigger] ps[i]).len() >= 1 by {
        assert(piece_ok(ps[i]));
    }
    lemma_join_ends(ps);
    let first = ps[0];
    assert(has_row_of(ps[0], rows));
    assert(has_row_of(ps[ps.len() - 1], rows));
    let r0 = choose|r: int| 0 <= r < rows.len() && #[trigger] piece_of_row(ps[0], rows[r]);
    crate::graph::lemma_row(rows, r0);
    assert(first[0] == rows[r0].0);
    let last = ps[ps.len() - 1];
    let r1 = choose|r: int| 0 <= r < rows.len() && #[trigger] piece_of_row(ps[ps.len() - 1], rows[r]);
    crate::graph::lemma_row(rows, r1);
    if last == seq![rows[r1].0] {
        assert(last.last() == rows[r1].0);
    } else {
        let j = choose|j: int| 0 <= j < rows[r1].1.len() && last == seq![rows[r1].0, '-', #[trigger] rows[r1].1[j]];
        assert(last.last() == rows[r1].1[j]);
        assert(elems(rows[r1].1).contains(rows[r1].1[j]));
    }
    lemma_round_trip_exact(s, g);
}

} // verus!
