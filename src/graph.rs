//! The graph store: explicit entries kept in increasing order of label.
use vstd::prelude::*;

use crate::charset::{elems, increasing, lemma_elems_take, set_contains, set_insert, set_remove};
use crate::text::{
    apply_piece, build, edge_pieces, join, parse_model, piece_ok, pieces_of, row_pieces, split_commas,
    text_of, ParsingError,
};
use crate::model::{bypass, delete_explicit, delete_model, delete_sink, detach, referenced};

verus! {

/// A directed graph over single-character labels.
///
/// Each row is an explicit entry: a vertex and its successors. A vertex
/// that only receives edges has no row of its own.
#[derive(Debug, PartialEq, Eq)]
pub struct Graph {
    rows: Vec<(char, Vec<char>)>,
}

/// The map that a sequence of rows stands for.
pub open spec fn map_of(rows: Seq<(char, Seq<char>)>) -> Map<char, Set<char>> {
    Map::new(
        |k: char| exists|i: int| 0 <= i < rows.len() && #[trigger] rows[i].0 == k,
        |k: char|
            Set::new(
                |y: char| exists|i: int| 0 <= i < rows.len() && #[trigger] rows[i].0 == k && rows[i].1.contains(y),
            ),
    )
}

/// Labels strictly increase from row to row, and each successor list is
/// strictly increasing.
pub open spec fn rows_ok(rows: Seq<(char, Seq<char>)>) -> bool {
    &&& forall|i: int, j: int| 0 <= i < j < rows.len() ==> (rows[i].0 as int) < (rows[j].0 as int)
    &&& forall|i: int| 0 <= i < rows.len() ==> increasing(#[trigger] rows[i].1)
}

impl View for Graph {
    type V = Map<char, Set<char>>;

    open spec fn view(&self) -> Map<char, Set<char>> {
        map_of(self.rows())
    }
}

impl Graph {
    /// The explicit entries in stored order, each with its successor list
    /// as a sequence.
    pub closed spec fn rows(&self) -> Seq<(char, Seq<char>)> {
        self.rows@.map_values(|r: (char, Vec<char>)| (r.0, r.1@))
    }

    /// The stored rows are in canonical order (see `rows_ok`).
    pub open spec fn wf(&self) -> bool {
        rows_ok(self.rows())
    }

    /// An empty graph.
    pub fn new() -> (g: Graph)
        ensures
            g.wf(),
            g@ == Map::<char, Set<char>>::empty(),
    {
        let g = Graph { rows: Vec::new() };
        assert(g.rows() =~= Seq::empty());
        assert(g@ =~= Map::<char, Set<char>>::empty());
        g
    }

    /// The row of `k`, or the place where a row for `k` would go.
    fn find(&self, k: char) -> (r: Result<usize, usize>)
        requires
            self.wf(),
        ensures
            match r {
                Ok(i) => i < self.rows().len() && self.rows()[i as int].0 == k,
                Err(p) => {
                    &&& p <= self.rows().len()
                    &&& forall|j: int| 0 <= j < p ==> (self.rows()[j].0 as int) < (k as int)
                    &&& forall|j: int|
                        p <= j < self.rows().len() ==> (k as int) < (self.rows()[j].0 as int)
                },
            },
            r is Err <==> !self@.dom().contains(k),
    {
        let mut p: usize = 0;
        while p < self.rows.len() && self.rows[p].0 < k
            invariant
                self.wf(),
                p <= self.rows().len(),
                self.rows().len() == self.rows@.len(),
                forall|j: int| 0 <= j < p ==> (self.rows()[j].0 as int) < (k as int),
            decreases self.rows@.len() - p,
        {
            p = p + 1;
        }
        if p < self.rows.len() && self.rows[p].0 == k {
            proof {
                lemma_row(self.rows(), p as int);
            }
            Ok(p)
        } else {
            assert forall|j: int| p <= j < self.rows().len() implies (k as int) < (
            self.rows()[j].0 as int) by {
                if j > p {
                    assert((self.rows()[p as int].0 as int) < (self.rows()[j].0 as int));
                }
            }
            Err(p)
        }
    }

    /// Takes `v` out of every successor list, and returns the labels whose
    /// lists held it, in increasing order.
    fn detach_all(&mut self, v: char) -> (preds: Vec<char>)
        requires
            old(self).wf(),
        ensures
            final(self).wf(),
            final(self)@ == detach(old(self)@, v),
            increasing(preds@),
            forall|u: char|
                #[trigger] preds@.contains(u) <==> (old(self)@.dom().contains(u) && old(
                    self,
                )@[u].contains(v)),
    {
        let ghost start = self.rows();
        let mut preds: Vec<char> = Vec::new();
        let mut i: usize = 0;
        while i < self.rows.len()
            invariant
                rows_ok(start),
                rows_ok(self.rows()),
                i <= self.rows().len(),
                self.rows().len() == self.rows@.len(),
                self.rows().len() == start.len(),
                forall|j: int| 0 <= j < start.len() ==> (#[trigger] self.rows()[j]).0 == start[j].0,
                forall|j: int|
                    0 <= j < i ==> elems((#[trigger] self.rows()[j]).1) == elems(start[j].1).remove(v),
                forall|j: int| i <= j < start.len() ==> (#[trigger] self.rows()[j]).1 == start[j].1,
                increasing(preds@),
                forall|j: int| 0 <= j < i && start[j].1.contains(v) ==> preds@.contains(#[trigger] start[j].0),
                forall|u: char| #[trigger] preds@.contains(u) ==> exists|j: int| 0 <= j < i && start[j].0 == u && start[j].1.contains(v),
            decreases start.len() - i,
        {
            let ghost before = self.rows();
            let key = self.rows[i].0;
            assert(self.rows()[i as int].1 == self.rows@[i as int].1@);
            let removed = set_remove(&mut self.rows[i].1, v);
            proof {
                assert(self.rows() =~= before.update(i as int, (key, self.rows()[i as int].1)));
                lemma_update_row(before, i as int, self.rows()[i as int].1);
            }
            if removed {
                let ghost pp = preds@;
                preds.push(key);
                proof {
                    assert forall|a: int, b: int| 0 <= a < b < preds@.len() implies (preds@[a] as int) < (preds@[b] as int) by {
                        if b == preds@.len() - 1 {
                            assert(preds@[a] == pp[a]);
                            assert(pp.contains(pp[a]));
                            let ja = choose|j: int| 0 <= j < i && start[j].0 == pp[a] && start[j].1.contains(v);
                            assert(start[ja].0 == pp[a]);
                        }
                    }
                    assert forall|u: char| #[trigger] preds@.contains(u) implies exists|j: int| 0 <= j < i + 1 && start[j].0 == u && start[j].1.contains(v) by {
                        if u == key {
                            assert(start[i as int].0 == u);
                        } else {
                            let idx = choose|idx: int| 0 <= idx < preds@.len() && preds@[idx] == u;
                            assert(pp[idx] == u);
                            assert(pp.contains(u));
                        }
                    }
                    assert forall|j: int| 0 <= j < i + 1 && start[j].1.contains(v) implies preds@.contains(#[trigger] start[j].0) by {
                        if j < i {
                            assert(pp.contains(start[j].0));
                            let idx = choose|idx: int| 0 <= idx < pp.len() && pp[idx] == start[j].0;
                            assert(preds@[idx] == start[j].0);
                        } else {
                            assert(preds@[preds@.len() - 1] == key);
                        }
                    }
                }
            }
            i = i + 1;
        }
        proof {
            let a = detach(map_of(start), v);
            let b = self@;
            assert forall|x: char| #[trigger] b.dom().contains(x) <==> a.dom().contains(x) by {
                if b.dom().contains(x) {
                    let j = choose|j: int| 0 <= j < self.rows().len() && #[trigger] self.rows()[j].0 == x;
                    assert(start[j].0 == x);
                }
                if a.dom().contains(x) {
                    let j = choose|j: int| 0 <= j < start.len() && #[trigger] start[j].0 == x;
                    assert(self.rows()[j].0 == x);
                }
            }
            assert forall|x: char| #[trigger] b.dom().contains(x) implies b[x] == a[x] by {
                let j = choose|j: int| 0 <= j < self.rows().len() && #[trigger] self.rows()[j].0 == x;
                lemma_row(self.rows(), j);
                lemma_row(start, j);
            }
            assert(b =~= a);
            assert forall|u: char| #[trigger] preds@.contains(u) <==> (map_of(start).dom().contains(u) && map_of(start)[u].contains(v)) by {
                if preds@.contains(u) {
                    let j = choose|j: int| 0 <= j < i && start[j].0 == u && start[j].1.contains(v);
                    lemma_row(start, j);
                }
                if map_of(start).dom().contains(u) && map_of(start)[u].contains(v) {
                    let j = choose|j: int| 0 <= j < start.len() && #[trigger] start[j].0 == u;
                    lemma_row(start, j);
                    assert(start[j].1.contains(v));
                }
            }
        }
        preds
    }

    /// Removes the explicit entry of `k`, handing back its successors.
    fn take_entry(&mut self, k: char) -> (r: Option<Vec<char>>)
        requires
            old(self).wf(),
        ensures
            final(self).wf(),
            final(self)@ == old(self)@.remove(k),
            r is Some <==> old(self)@.dom().contains(k),
            r matches Some(s) ==> increasing(s@) && elems(s@) == old(self)@[k],
    {
        match self.find(k) {
            Ok(i) => {
                let ghost before = self.rows();
                proof {
                    lemma_row(before, i as int);
                    lemma_remove_row(before, i as int);
                }
                let row = self.rows.remove(i);
                assert(self.rows() =~= before.remove(i as int));
                Some(row.1)
            },
            Err(_) => {
                assert(self@ =~= self@.remove(k));
                None
            },
        }
    }

    /// Makes `k` an explicit entry without successors.
    fn set_isolated(&mut self, k: char)
        requires
            old(self).wf(),
        ensures
            final(self).wf(),
            final(self)@ == old(self)@.insert(k, Set::empty()),
    {
        let ghost before = self.rows();
        let empty: Vec<char> = Vec::new();
        assert(elems(empty@) =~= Set::empty());
        match self.find(k) {
            Ok(i) => {
                proof {
                    lemma_update_row(before, i as int, empty@);
                }
                self.rows.set(i, (k, empty));
                assert(self.rows() =~= before.update(i as int, (before[i as int].0, Seq::empty())));
            },
            Err(p) => {
                proof {
                    lemma_insert_row(before, p as int, k, empty@);
                }
                self.rows.insert(p, (k, empty));
                assert(self.rows() =~= before.insert(p as int, (k, Seq::empty())));
            },
        }
    }

    /// Adds the edge from `x` to `y`, making `x` explicit if it was not.
    fn add_edge(&mut self, x: char, y: char)
        requires
            old(self).wf(),
        ensures
            final(self).wf(),
            final(self)@ == old(self)@.insert(
                x,
                if old(self)@.dom().contains(x) {
                    old(self)@[x].insert(y)
                } else {
                    set![y]
                },
            ),
    {
        let ghost before = self.rows();
        match self.find(x) {
            Ok(i) => {
                proof {
                    lemma_row(before, i as int);
                }
                assert(self.rows()[i as int].1 == self.rows@[i as int].1@);
                set_insert(&mut self.rows[i].1, y);
                proof {
                    lemma_update_row(before, i as int, self.rows()[i as int].1);
                }
                assert(self.rows() =~= before.update(i as int, (x, self.rows()[i as int].1)));
            },
            Err(p) => {
                let mut one: Vec<char> = Vec::new();
                one.push(y);
                assert(elems(one@) =~= set![y]) by {
                    assert(one@[0] == y);
                }
                proof {
                    lemma_insert_row(before, p as int, x, one@);
                }
                self.rows.insert(p, (x, one));
                assert(self.rows() =~= before.insert(p as int, (x, seq![y])));
            },
        }
    }

    /// Adds every element of `s` to the successors of the explicit entry `u`.
    fn add_successors(&mut self, u: char, s: &Vec<char>)
        requires
            old(self).wf(),
            old(self)@.dom().contains(u),
        ensures
            final(self).wf(),
            final(self)@ == old(self)@.insert(u, old(self)@[u].union(elems(s@))),
    {
        let ghost before = self.rows();
        let i = match self.find(u) {
            Ok(i) => i,
            Err(_) => {
                return ;
            },
        };
        proof {
            lemma_row(before, i as int);
        }
        let mut j: usize = 0;
        while j < s.len()
            invariant
                rows_ok(before),
                0 <= i < before.len(),
                before[i as int].0 == u,
                self.rows@.len() == before.len(),
                self.rows() == before.update(i as int, (u, self.rows()[i as int].1)),
                increasing(self.rows()[i as int].1),
                elems(self.rows()[i as int].1) == elems(before[i as int].1).union(elems(s@.take(j as int))),
                j <= s@.len(),
            decreases s@.len() - j,
        {
            let ghost cur = self.rows();
            assert(self.rows()[i as int].1 == self.rows@[i as int].1@);
            set_insert(&mut self.rows[i].1, s[j]);
            assert(self.rows() =~= before.update(i as int, (u, self.rows()[i as int].1))) by {
                assert forall|k: int| 0 <= k < before.len() && k != i implies self.rows()[k] == before[k] by {
                    assert(cur[k] == before[k]);
                }
            }
            proof {
                lemma_elems_take(s@, j as int);
            }
            assert(elems(self.rows()[i as int].1) =~= elems(before[i as int].1).union(elems(s@.take(j + 1))));
            j = j + 1;
        }
        proof {
            assert(s@.take(j as int) =~= s@);
            lemma_update_row(before, i as int, self.rows()[i as int].1);
        }
    }

    /// Whether the explicit entry `u` has no successors.
    fn has_no_successors(&self, u: char) -> (r: bool)
        requires
            self.wf(),
            self@.dom().contains(u),
        ensures
            r == (self@[u] == Set::<char>::empty()),
    {
        match self.find(u) {
            Ok(i) => {
                proof {
                    lemma_row(self.rows(), i as int);
                }
                assert(self.rows()[i as int].1 == self.rows@[i as int].1@);
                let r = self.rows[i].1.len() == 0;
                if r {
                    assert(elems(self.rows()[i as int].1) =~= Set::empty());
                } else {
                    assert(elems(self.rows()[i as int].1).contains(self.rows()[i as int].1[0]));
                }
                r
            },
            Err(_) => false,
        }
    }

    /// Deletes `node`, joining each of its predecessors to each of its
    /// successors, and repairs the entries that the deletion leaves without
    /// edges: a vertex that nothing points at any more becomes an explicit
    /// isolated entry, and a predecessor left without successors while
    /// still pointed at becomes implicit. A loop from `node` to itself goes
    /// with it.
    ///
    /// Returns `false`, changing nothing, when `node` occurs nowhere in the
    /// graph.
    pub fn delete_node(&mut self, node: char) -> (r: bool)
        requires
            old(self).wf(),
        ensures
            final(self).wf(),
            (final(self)@, r) == delete_model(old(self)@, node),
            !r ==> *final(self) == *old(self),
    {
        let ghost m = self@;
        if !self.has_entry(node) && !self.is_referenced(node) {
            return false;
        }
        let preds = self.detach_all(node);
        let ghost m1 = self@;
        match self.take_entry(node) {
            Some(succ) => {
                let ghost m2 = self@;
                let ghost s = m1[node];
                let ghost bypassed = bypass(m, node);
                let mut k: usize = 0;
                while k < preds.len()
                    invariant
                        self.wf(),
                        elems(succ@) == s,
                        increasing(preds@),
                        forall|u: char|
                            #[trigger] preds@.contains(u) <==> (m.dom().contains(u) && m[u].contains(node)),
                        m1 == detach(m, node),
                        m2 == m1.remove(node),
                        k <= preds@.len(),
                        forall|x: char| #[trigger] self@.dom().contains(x) <==> m2.dom().contains(x),
                        forall|x: char|
                            #[trigger] self@.dom().contains(x) ==> self@[x] == if elems(preds@.take(k as int)).contains(x) {
                                m1[x].union(s)
                            } else {
                                m1[x]
                            },
                    decreases preds@.len() - k,
                {
                    let u = preds[k];
                    let ghost before = self@;
                    proof {
                        lemma_elems_take(preds@, k as int);
                    }
                    proof {
                        assert(preds@.contains(u));
                        assert(!elems(preds@.take(k as int)).contains(u)) by {
                            if preds@.take(k as int).contains(u) {
                                let j = choose|j: int| 0 <= j < k && #[trigger] preds@.take(k as int)[j] == u;
                                assert(preds@[j] == u);
                            }
                        }
                    }
                    if u != node {
                        self.add_successors(u, &succ);
                    } else {
                        assert(!self@.dom().contains(u));
                    }
                    assert forall|x: char| #[trigger] self@.dom().contains(x) implies self@[x] == if elems(preds@.take(k + 1)).contains(x) {
                        m1[x].union(s)
                    } else {
                        m1[x]
                    } by {
                        assert(before.dom().contains(x));
                        if x == u {
                            assert(self@[x] == before[x].union(s));
                        } else {
                            assert(self@[x] == before[x]);
                        }
                    }
                    k = k + 1;
                }
                assert(preds@.take(k as int) =~= preds@);
                assert forall|x: char| #[trigger] self@.dom().contains(x) implies self@[x] == bypassed[x] by {
                    assert(elems(preds@).contains(x) == preds@.contains(x));
                }
                assert(self@ =~= bypassed);
                let ghost m3 = self@;
                let mut k: usize = 0;
                while k < succ.len()
                    invariant
                        self.wf(),
                        m3 == bypassed,
                        elems(succ@) == s,
                        k <= succ@.len(),
                        forall|x: char| #[trigger] referenced(self@, x) == referenced(m3, x),
                        forall|x: char|
                            #[trigger] self@.dom().contains(x) <==> (m3.dom().contains(x) || (elems(succ@.take(k as int)).contains(x) && !referenced(m3, x))),
                        forall|x: char|
                            #[trigger] self@.dom().contains(x) ==> self@[x] == if m3.dom().contains(x) { m3[x] } else { Set::<char>::empty() },
                    decreases succ@.len() - k,
                {
                    let w = succ[k];
                    proof {
                        lemma_elems_take(succ@, k as int);
                    }
                    if !self.is_referenced(w) && !self.has_entry(w) {
                        let ghost before = self@;
                        self.set_isolated(w);
                        proof {
                            lemma_referenced_insert_empty(before, w);
                        }
                    }
                    k = k + 1;
                }
                assert(succ@.take(k as int) =~= succ@);
                assert(self@ =~= delete_explicit(m, node));
                true
            },
            None => {
                assert(self@ =~= m1);
                let mut k: usize = 0;
                while k < preds.len()
                    invariant
                        self.wf(),
                        !m.dom().contains(node),
                        increasing(preds@),
                        forall|u: char|
                            #[trigger] preds@.contains(u) <==> (m.dom().contains(u) && m[u].contains(node)),
                        m1 == detach(m, node),
                        k <= preds@.len(),
                        forall|x: char| #[trigger] referenced(self@, x) == referenced(m1, x),
                        forall|x: char|
                            #[trigger] self@.dom().contains(x) <==> (m1.dom().contains(x) && !(elems(preds@.take(k as int)).contains(x)
                                && m1[x] == Set::<char>::empty() && referenced(m1, x))),
                        forall|x: char| #[trigger] self@.dom().contains(x) ==> self@[x] == m1[x],
                    decreases preds@.len() - k,
                {
                    let u = preds[k];
                    proof {
                        lemma_elems_take(preds@, k as int);
                        assert(preds@.contains(u));
                        assert(forall|j: int| 0 <= j < k ==> (preds@[j] as int) < (u as int));
                        assert(!elems(preds@.take(k as int)).contains(u)) by {
                            if preds@.take(k as int).contains(u) {
                                let j = choose|j: int| 0 <= j < k && #[trigger] preds@.take(k as int)[j] == u;
                                assert(preds@[j] == u);
                            }
                        }
                    }
                    if self.has_no_successors(u) && self.is_referenced(u) {
                        let ghost before = self@;
                        self.take_entry(u);
                        proof {
                            lemma_referenced_remove_empty(before, u);
                        }
                    }
                    k = k + 1;
                }
                assert(preds@.take(k as int) =~= preds@);
                assert(self@ =~= delete_sink(m, node));
                true
            },
        }
    }

    /// Reads one piece of text into the graph, if it is well formed.
    fn read_piece(&mut self, p: &Vec<char>) -> (r: bool)
        requires
            old(self).wf(),
        ensures
            final(self).wf(),
            r == piece_ok(p@),
            r ==> final(self)@ == apply_piece(old(self)@, p@),
    {
        if p.len() == 1 && p[0] != '-' {
            self.set_isolated(p[0]);
            true
        } else if p.len() == 3 && p[1] == '-' && p[0] != '-' && p[2] != '-' {
            self.add_edge(p[0], p[2]);
            true
        } else {
            false
        }
    }

    /// Reads a graph from its text: after trimming white space at both
    /// ends, comma-separated pieces, each a lone label or `X-Y`. Pieces are
    /// applied in order; a lone label resets its entry to no successors.
    /// Fails when any piece is malformed, and so on empty text.
    pub fn parse(s: &str) -> (r: Result<Graph, ParsingError>)
        ensures
            match r {
                Ok(g) => g.wf() && parse_model(s@) == Some(g@),
                Err(_) => parse_model(s@) is None,
            },
    {
        let t = s.trim();
        let n = t.unicode_len();
        let mut g = Graph::new();
        let mut cur: Vec<char> = Vec::new();
        let mut ok = true;
        let ghost mut done: Seq<Seq<char>> = Seq::empty();
        let mut i: usize = 0;
        assert(t@.take(0) =~= Seq::<char>::empty());
        assert(cur@ =~= Seq::<char>::empty());
        assert(done.push(cur@) =~= seq![Seq::<char>::empty()]);
        while i < n
            invariant
                n == t@.len(),
                i <= n,
                g.wf(),
                split_commas(t@.take(i as int)) == done.push(cur@),
                ok == forall|j: int| 0 <= j < done.len() ==> piece_ok(#[trigger] done[j]),
                ok ==> g@ == build(done),
            decreases n - i,
        {
            let c = t.get_char(i);
            assert(t@.take(i + 1).drop_last() =~= t@.take(i as int));
            assert(t@.take(i + 1).last() == c);
            if c == ',' {
                let ghost g0 = g@;
                if ok {
                    ok = g.read_piece(&cur);
                }
                proof {
                    assert(done.push(cur@).drop_last() =~= done);
                    assert(build(done.push(cur@)) == apply_piece(build(done), cur@));
                    assert forall|j: int| 0 <= j < done.len() + 1 implies #[trigger] done.push(cur@)[j] == if j < done.len() { done[j] } else { cur@ } by {}
                    done = done.push(cur@);
                }
                cur = Vec::new();
                assert(split_commas(t@.take(i + 1)) =~= done.push(cur@));
            } else {
                cur.push(c);
                assert(split_commas(t@.take(i + 1)) =~= done.push(cur@));
            }
            i = i + 1;
        }
        if ok {
            ok = g.read_piece(&cur);
        }
        proof {
            assert(t@.take(n as int) =~= t@);
            assert(done.push(cur@).drop_last() =~= done);
            let ps = done.push(cur@);
            assert(ok == forall|j: int| 0 <= j < ps.len() ==> piece_ok(#[trigger] ps[j])) by {
                if ok {
                    assert forall|j: int| 0 <= j < ps.len() implies piece_ok(#[trigger] ps[j]) by {
                        if j < done.len() {
                            assert(ps[j] == done[j]);
                        }
                    }
                } else {
                    if forall|j: int| 0 <= j < done.len() ==> piece_ok(#[trigger] done[j]) {
                        assert(!piece_ok(ps[done.len() as int]));
                    } else {
                        let j = choose|j: int| 0 <= j < done.len() && !piece_ok(#[trigger] done[j]);
                        assert(ps[j] == done[j]);
                    }
                }
            }
        }
        if ok {
            Ok(g)
        } else {
            Err(ParsingError)
        }
    }

    /// Writes the graph as text: the entries in increasing order of label;
    /// an entry without successors as its label, otherwise one `X-Y` piece
    /// per successor, in increasing order; all pieces joined by commas. An
    /// empty graph gives empty text, which `parse` refuses. By
    /// `lemma_view_fixes_rows`, the text depends on the view alone.
    pub fn to_string(&self) -> (r: String)
        requires
            self.wf(),
        ensures
            r@ == text_of(self.rows()),
    {
        let mut out = String::new();
        let mut first = true;
        let ghost mut ps: Seq<Seq<char>> = Seq::empty();
        let mut i: usize = 0;
        assert(self.rows().take(0) =~= Seq::<(char, Seq<char>)>::empty());
        while i < self.rows.len()
            invariant
                self.wf(),
                i <= self.rows().len(),
                self.rows().len() == self.rows@.len(),
                ps == pieces_of(self.rows().take(i as int)),
                out@ == join(ps),
                first == (ps.len() == 0),
            decreases self.rows@.len() - i,
        {
            let k = self.rows[i].0;
            let succ = &self.rows[i].1;
            assert(self.rows()[i as int] == (k, succ@));
            assert(self.rows().take(i + 1).drop_last() =~= self.rows().take(i as int));
            assert(self.rows().take(i + 1).last() == (k, succ@));
            let ghost base = ps;
            if succ.len() == 0 {
                if !first {
                    out.push(',');
                }
                out.push(k);
                proof {
                    assert(ps.push(seq![k]).drop_last() =~= ps);
                    if ps.len() > 0 {
                        assert(out@ =~= join(ps) + seq![','] + seq![k]);
                    } else {
                        assert(out@ =~= seq![k]);
                    }
                    ps = ps.push(seq![k]);
                    assert(ps =~= base + row_pieces(k, succ@));
                }
                first = false;
            } else {
                let mut j: usize = 0;
                assert(edge_pieces(k, succ@.take(0)) =~= Seq::<Seq<char>>::empty());
                assert(ps =~= base + edge_pieces(k, succ@.take(0)));
                while j < succ.len()
                    invariant
                        j <= succ@.len(),
                        ps == base + edge_pieces(k, succ@.take(j as int)),
                        out@ == join(ps),
                        first == (ps.len() == 0),
                    decreases succ@.len() - j,
                {
                    let y = succ[j];
                    if !first {
                        out.push(',');
                    }
                    out.push(k);
                    out.push('-');
                    out.push(y);
                    proof {
                        let p = seq![k, '-', y];
                        assert(ps.push(p).drop_last() =~= ps);
                        if ps.len() > 0 {
                            assert(out@ =~= join(ps) + seq![','] + p);
                        } else {
                            assert(out@ =~= p);
                        }
                        assert(edge_pieces(k, succ@.take(j + 1)) =~= edge_pieces(k, succ@.take(j as int)).push(p));
                        ps = ps.push(p);
                        assert(ps =~= base + edge_pieces(k, succ@.take(j + 1)));
                    }
                    first = false;
                    j = j + 1;
                }
                assert(succ@.take(j as int) =~= succ@);
            }
            i = i + 1;
        }
        assert(self.rows().take(i as int) =~= self.rows());
        out
    }

    /// Whether `v` has an explicit entry.
    pub fn has_entry(&self, v: char) -> (r: bool)
        requires
            self.wf(),
        ensures
            r == self@.dom().contains(v),
    {
        self.find(v).is_ok()
    }

    /// Whether some explicit entry lists `w` among its successors.
    fn is_referenced(&self, w: char) -> (r: bool)
        requires
            self.wf(),
        ensures
            r == referenced(self@, w),
    {
        let mut i: usize = 0;
        while i < self.rows.len()
            invariant
                self.wf(),
                i <= self.rows().len(),
                self.rows().len() == self.rows@.len(),
                forall|j: int| 0 <= j < i ==> !(#[trigger] self.rows()[j]).1.contains(w),
            decreases self.rows@.len() - i,
        {
            assert(self.rows()[i as int].1 == self.rows@[i as int].1@);
            if set_contains(&self.rows[i].1, w) {
                proof {
                    lemma_row(self.rows(), i as int);
                    assert(elems(self.rows()[i as int].1).contains(w));
                }
                return true;
            }
            i = i + 1;
        }
        assert forall|u: char| #[trigger] self@.dom().contains(u) implies !self@[u].contains(w) by {
            let j = choose|j: int| 0 <= j < self.rows().len() && #[trigger] self.rows()[j].0 == u;
            lemma_row(self.rows(), j);
        }
        false
    }
}

impl std::str::FromStr for Graph {
    type Err = ParsingError;

    fn from_str(s: &str) -> (r: Result<Graph, ParsingError>)
        ensures
            match r {
                Ok(g) => g.wf() && parse_model(s@) == Some(g@),
                Err(_) => parse_model(s@) is None,
            },
    {
        Graph::parse(s)
    }
}

/// Adding an entry without successors for a new vertex changes no edge.
pub proof fn lemma_referenced_insert_empty(m: Map<char, Set<char>>, w: char)
    requires
        !m.dom().contains(w),
    ensures
        forall|x: char| #[trigger] referenced(m.insert(w, Set::empty()), x) == referenced(m, x),
{
    assert forall|x: char| #[trigger] referenced(m.insert(w, Set::empty()), x) == referenced(m, x) by {
        if referenced(m.insert(w, Set::empty()), x) {
            let u = choose|u: char| #[trigger] m.insert(w, Set::empty()).dom().contains(u) && m.insert(w, Set::empty())[u].contains(x);
            assert(m.dom().contains(u));
        }
        if referenced(m, x) {
            let u = choose|u: char| #[trigger] m.dom().contains(u) && m[u].contains(x);
            assert(m.insert(w, Set::empty()).dom().contains(u));
        }
    }
}

/// Removing an entry without successors changes no edge.
pub proof fn lemma_referenced_remove_empty(m: Map<char, Set<char>>, w: char)
    requires
        m.dom().contains(w) ==> m[w] == Set::<char>::empty(),
    ensures
        forall|x: char| #[trigger] referenced(m.remove(w), x) == referenced(m, x),
{
    assert forall|x: char| #[trigger] referenced(m.remove(w), x) == referenced(m, x) by {
        if referenced(m.remove(w), x) {
            let u = choose|u: char| #[trigger] m.remove(w).dom().contains(u) && m.remove(w)[u].contains(x);
            assert(m.dom().contains(u));
        }
        if referenced(m, x) {
            let u = choose|u: char| #[trigger] m.dom().contains(u) && m[u].contains(x);
            assert(m.remove(w).dom().contains(u));
        }
    }
}

/// In well-formed rows, the row of a label gives its successor set.
pub proof fn lemma_row(rows: Seq<(char, Seq<char>)>, i: int)
    requires
        rows_ok(rows),
        0 <= i < rows.len(),
    ensures
        map_of(rows).dom().contains(rows[i].0),
        map_of(rows)[rows[i].0] == elems(rows[i].1),
{
    let k = rows[i].0;
    assert(map_of(rows).dom().contains(k));
    assert forall|y: char| map_of(rows)[k].contains(y) <==> #[trigger] elems(rows[i].1).contains(y) by {
        if map_of(rows)[k].contains(y) {
            let j = choose|j: int| 0 <= j < rows.len() && #[trigger] rows[j].0 == k && rows[j].1.contains(y);
            if j != i {
                assert(rows[j].0 as int != rows[i].0 as int);
            }
        }
    }
    assert(map_of(rows)[k] =~= elems(rows[i].1));
}

/// Replacing the successors of one row replaces that entry of the map.
pub proof fn lemma_update_row(rows: Seq<(char, Seq<char>)>, i: int, t: Seq<char>)
    requires
        rows_ok(rows),
        0 <= i < rows.len(),
        increasing(t),
    ensures
        rows_ok(rows.update(i, (rows[i].0, t))),
        map_of(rows.update(i, (rows[i].0, t))) == map_of(rows).insert(rows[i].0, elems(t)),
{
    let r2 = rows.update(i, (rows[i].0, t));
    let a = map_of(rows);
    let b = map_of(r2);
    assert(rows_ok(r2)) by {
        assert forall|j: int| 0 <= j < r2.len() implies increasing(#[trigger] r2[j].1) by {
            if j != i {
                assert(r2[j] == rows[j]);
            }
        }
    }
    assert forall|k: char| #[trigger] b.dom().contains(k) <==> a.insert(rows[i].0, elems(t)).dom().contains(k) by {
        if b.dom().contains(k) {
            let j = choose|j: int| 0 <= j < r2.len() && #[trigger] r2[j].0 == k;
            assert(rows[j].0 == k);
        }
        if a.dom().contains(k) {
            let j = choose|j: int| 0 <= j < rows.len() && #[trigger] rows[j].0 == k;
            assert(r2[j].0 == k);
        }
        assert(r2[i].0 == rows[i].0);
    }
    assert forall|k: char| #[trigger] b.dom().contains(k) implies b[k] == a.insert(rows[i].0, elems(t))[k] by {
        let j = choose|j: int| 0 <= j < r2.len() && #[trigger] r2[j].0 == k;
        lemma_row(r2, j);
        lemma_row(rows, j);
    }
    assert(b =~= a.insert(rows[i].0, elems(t)));
}

/// Inserting a row at its place adds that entry to the map.
pub proof fn lemma_insert_row(rows: Seq<(char, Seq<char>)>, p: int, k: char, t: Seq<char>)
    requires
        rows_ok(rows),
        0 <= p <= rows.len(),
        forall|j: int| 0 <= j < p ==> (rows[j].0 as int) < (k as int),
        forall|j: int| p <= j < rows.len() ==> (k as int) < (rows[j].0 as int),
        increasing(t),
    ensures
        rows_ok(rows.insert(p, (k, t))),
        map_of(rows.insert(p, (k, t))) == map_of(rows).insert(k, elems(t)),
{
    let r2 = rows.insert(p, (k, t));
    let a = map_of(rows);
    let b = map_of(r2);
    assert forall|i: int, j: int| 0 <= i < j < r2.len() implies (r2[i].0 as int) < (r2[j].0 as int) by {
        if i < p {
            assert(r2[i] == rows[i]);
        }
        if j > p {
            assert(r2[j] == rows[j - 1]);
        }
        if i > p {
            assert(r2[i] == rows[i - 1]);
        }
    }
    assert forall|j: int| 0 <= j < r2.len() implies increasing(#[trigger] r2[j].1) by {
        if j < p {
            assert(r2[j] == rows[j]);
        } else if j > p {
            assert(r2[j] == rows[j - 1]);
        }
    }
    assert forall|x: char| #[trigger] b.dom().contains(x) <==> a.insert(k, elems(t)).dom().contains(x) by {
        if b.dom().contains(x) {
            let j = choose|j: int| 0 <= j < r2.len() && #[trigger] r2[j].0 == x;
            if j < p {
                assert(rows[j].0 == x);
            } else if j > p {
                assert(rows[j - 1].0 == x);
            }
        }
        if a.dom().contains(x) {
            let j = choose|j: int| 0 <= j < rows.len() && #[trigger] rows[j].0 == x;
            if j < p {
                assert(r2[j].0 == x);
            } else {
                assert(r2[j + 1].0 == x);
            }
        }
        assert(r2[p].0 == k);
    }
    assert forall|x: char| #[trigger] b.dom().contains(x) implies b[x] == a.insert(k, elems(t))[x] by {
        let j = choose|j: int| 0 <= j < r2.len() && #[trigger] r2[j].0 == x;
        lemma_row(r2, j);
        if j < p {
            assert(r2[j] == rows[j]);
            lemma_row(rows, j);
        } else if j > p {
            assert(r2[j] == rows[j - 1]);
            lemma_row(rows, j - 1);
        }
    }
    assert(b =~= a.insert(k, elems(t)));
}

/// Removing a row removes that entry from the map.
pub proof fn lemma_remove_row(rows: Seq<(char, Seq<char>)>, i: int)
    requires
        rows_ok(rows),
        0 <= i < rows.len(),
    ensures
        rows_ok(rows.remove(i)),
        map_of(rows.remove(i)) == map_of(rows).remove(rows[i].0),
{
    let r2 = rows.remove(i);
    let a = map_of(rows);
    let b = map_of(r2);
    let k = rows[i].0;
    assert forall|x: int, y: int| 0 <= x < y < r2.len() implies (r2[x].0 as int) < (r2[y].0 as int) by {
        if x < i {
            assert(r2[x] == rows[x]);
        } else {
            assert(r2[x] == rows[x + 1]);
        }
        if y < i {
            assert(r2[y] == rows[y]);
        } else {
            assert(r2[y] == rows[y + 1]);
        }
    }
    assert forall|j: int| 0 <= j < r2.len() implies increasing(#[trigger] r2[j].1) by {
        if j < i {
            assert(r2[j] == rows[j]);
        } else {
            assert(r2[j] == rows[j + 1]);
        }
    }
    assert forall|x: char| #[trigger] b.dom().contains(x) <==> a.remove(k).dom().contains(x) by {
        if b.dom().contains(x) {
            let j = choose|j: int| 0 <= j < r2.len() && #[trigger] r2[j].0 == x;
            if j < i {
                assert(rows[j].0 == x);
                assert((rows[j].0 as int) < (rows[i].0 as int));
            } else {
                assert(rows[j + 1].0 == x);
                assert((rows[i].0 as int) < (rows[j + 1].0 as int));
            }
        }
        if a.remove(k).dom().contains(x) {
            let j = choose|j: int| 0 <= j < rows.len() && #[trigger] rows[j].0 == x;
            if j < i {
                assert(r2[j].0 == x);
            } else {
                assert(j != i);
                assert(r2[j - 1].0 == x);
            }
        }
    }
    assert forall|x: char| #[trigger] b.dom().contains(x) implies b[x] == a.remove(k)[x] by {
        let j = choose|j: int| 0 <= j < r2.len() && #[trigger] r2[j].0 == x;
        lemma_row(r2, j);
        if j < i {
            assert(r2[j] == rows[j]);
            lemma_row(rows, j);
        } else {
            assert(r2[j] == rows[j + 1]);
            lemma_row(rows, j + 1);
        }
    }
    assert(b =~= a.remove(k));
}

/// Two strictly increasing sequences with the same elements are equal.
pub proof fn lemma_increasing_unique(a: Seq<char>, b: Seq<char>)
    requires
        increasing(a),
        increasing(b),
        elems(a) == elems(b),
    ensures
        a == b,
    decreases a.len(),
{
    if a.len() == 0 {
        if b.len() > 0 {
            assert(elems(b).contains(b[0]));
        }
        assert(a =~= b);
    } else {
        assert(elems(a).contains(a[0]));
        assert(b.len() > 0);
        assert(elems(b).contains(b[0]));
        let i = choose|i: int| 0 <= i < a.len() && a[i] == b[0];
        let j = choose|j: int| 0 <= j < b.len() && b[j] == a[0];
        if i > 0 {
            assert((a[0] as int) < (a[i] as int));
        }
        if j > 0 {
            assert((b[0] as int) < (b[j] as int));
        }
        assert(a[0] == b[0]);
        let a1 = a.drop_first();
        let b1 = b.drop_first();
        assert forall|c: char| #[trigger] elems(a1).contains(c) <==> elems(b1).contains(c) by {
            if a1.contains(c) {
                let k = choose|k: int| 0 <= k < a1.len() && a1[k] == c;
                assert(a[k + 1] == c);
                assert(elems(b).contains(c));
                let l = choose|l: int| 0 <= l < b.len() && b[l] == c;
                assert((a[0] as int) < (a[k + 1] as int));
                assert(l != 0);
                assert(b1[l - 1] == c);
            }
            if b1.contains(c) {
                let k = choose|k: int| 0 <= k < b1.len() && b1[k] == c;
                assert(b[k + 1] == c);
                assert(elems(a).contains(c));
                let l = choose|l: int| 0 <= l < a.len() && a[l] == c;
                assert((b[0] as int) < (b[k + 1] as int));
                assert(l != 0);
                assert(a1[l - 1] == c);
            }
        }
        assert(elems(a1) =~= elems(b1));
        lemma_increasing_unique(a1, b1);
        assert(a =~= b1.insert(0, b[0]));
        assert(b =~= b1.insert(0, b[0]));
    }
}

/// Well-formed rows are fixed by the map they stand for: the rows, and so
/// the text `to_string` writes, depend on the view alone.
pub proof fn lemma_rows_unique(r1: Seq<(char, Seq<char>)>, r2: Seq<(char, Seq<char>)>)
    requires
        rows_ok(r1),
        rows_ok(r2),
        map_of(r1) == map_of(r2),
    ensures
        r1 == r2,
{
    let k1 = r1.map_values(|r: (char, Seq<char>)| r.0);
    let k2 = r2.map_values(|r: (char, Seq<char>)| r.0);
    assert(increasing(k1));
    assert(increasing(k2));
    assert forall|c: char| #[trigger] elems(k1).contains(c) <==> elems(k2).contains(c) by {
        if k1.contains(c) {
            let i = choose|i: int| 0 <= i < k1.len() && k1[i] == c;
            assert(r1[i].0 == c);
            assert(map_of(r2).dom().contains(c));
            let j = choose|j: int| 0 <= j < r2.len() && #[trigger] r2[j].0 == c;
            assert(k2[j] == c);
        }
        if k2.contains(c) {
            let i = choose|i: int| 0 <= i < k2.len() && k2[i] == c;
            assert(r2[i].0 == c);
            assert(map_of(r1).dom().contains(c));
            let j = choose|j: int| 0 <= j < r1.len() && #[trigger] r1[j].0 == c;
            assert(k1[j] == c);
        }
    }
    assert(elems(k1) =~= elems(k2));
    lemma_increasing_unique(k1, k2);
    assert(r1.len() == k1.len() && r2.len() == k2.len());
    assert forall|i: int| 0 <= i < r1.len() implies r1[i] == r2[i] by {
        assert(k1[i] == k2[i]);
        lemma_row(r1, i);
        lemma_row(r2, i);
        lemma_increasing_unique(r1[i].1, r2[i].1);
    }
    assert(r1 =~= r2);
}

/// Two well-formed graphs with the same view store the same rows.
pub proof fn lemma_view_fixes_rows(g1: &Graph, g2: &Graph)
    requires
        g1.wf(),
        g2.wf(),
        g1@ == g2@,
    ensures
        g1.rows() == g2.rows(),
{
    lemma_rows_unique(g1.rows(), g2.rows());
}

} // verus!
