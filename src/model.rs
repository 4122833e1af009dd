//! The mathematical model of a graph: a map from each explicit vertex to
//! the set of its direct successors.
use vstd::prelude::*;

verus! {

/// Some explicit entry of `m` lists `w` among its successors.
pub open spec fn referenced(m: Map<char, Set<char>>, w: char) -> bool {
    exists|u: char| #[trigger] m.dom().contains(u) && m[u].contains(w)
}

/// `w` occurs in `m`, as an explicit entry or as the target of an edge.
pub open spec fn occurs(m: Map<char, Set<char>>, w: char) -> bool {
    m.dom().contains(w) || referenced(m, w)
}

/// The explicitness invariant: an explicit entry without successors stands
/// for an isolated vertex, so nothing may point at it. (A vertex with
/// successors is explicit by construction; a pure sink is then implicit.)
pub open spec fn explicit_ok(m: Map<char, Set<char>>) -> bool {
    forall|u: char|
        #[trigger] m.dom().contains(u) && m[u] == Set::<char>::empty() ==> !referenced(m, u)
}

/// `m` with `v` taken out of every successor set.
pub open spec fn detach(m: Map<char, Set<char>>, v: char) -> Map<char, Set<char>> {
    Map::new(|u: char| m.dom().contains(u), |u: char| m[u].remove(v))
}

/// `m` without the entry of `v`, each predecessor of `v` pointing at the
/// successors of `v` instead.
pub open spec fn bypass(m: Map<char, Set<char>>, v: char) -> Map<char, Set<char>> {
    let m1 = detach(m, v);
    Map::new(
        |u: char| m.dom().contains(u) && u != v,
        |u: char| if m[u].contains(v) { m1[u].union(m1[v]) } else { m1[u] },
    )
}

/// Deletion of `v` when it has an explicit entry: every predecessor gains
/// the successors of `v`, and a successor that nothing points at any more
/// becomes an explicit isolated vertex.
pub open spec fn delete_explicit(m: Map<char, Set<char>>, v: char) -> Map<char, Set<char>> {
    let succ = detach(m, v)[v];
    let bypassed = bypass(m, v);
    Map::new(
        |u: char| bypassed.dom().contains(u) || (succ.contains(u) && !referenced(bypassed, u)),
        |u: char| if bypassed.dom().contains(u) { bypassed[u] } else { Set::empty() },
    )
}

/// Deletion of `v` when it is a pure sink: a predecessor left without
/// successors stays as an isolated vertex if nothing points at it, and
/// otherwise becomes implicit.
pub open spec fn delete_sink(m: Map<char, Set<char>>, v: char) -> Map<char, Set<char>> {
    let m1 = detach(m, v);
    Map::new(
        |u: char|
            m.dom().contains(u) && !(m[u].contains(v) && m1[u] == Set::<char>::empty()
                && referenced(m1, u)),
        |u: char| m1[u],
    )
}

/// The graph after deleting `v`, and whether `v` occurred at all.
pub open spec fn delete_model(m: Map<char, Set<char>>, v: char) -> (Map<char, Set<char>>, bool) {
    if !occurs(m, v) {
        (m, false)
    } else if m.dom().contains(v) {
        (delete_explicit(m, v), true)
    } else {
        (delete_sink(m, v), true)
    }
}

} // verus!
