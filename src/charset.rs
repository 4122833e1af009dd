//! Finite sets of characters, kept as strictly increasing vectors.
use vstd::prelude::*;

verus! {

/// `s` is strictly increasing, which also makes its elements distinct.
pub open spec fn increasing(s: Seq<char>) -> bool {
    forall|i: int, j: int| 0 <= i < j < s.len() ==> (s[i] as int) < (s[j] as int)
}

/// The set of elements of `s`.
pub open spec fn elems(s: Seq<char>) -> Set<char> {
    Set::new(|c: char| s.contains(c))
}

/// The elements of a prefix grow by one element at a time.
pub proof fn lemma_elems_take(s: Seq<char>, j: int)
    requires
        0 <= j < s.len(),
    ensures
        elems(s.take(j + 1)) == elems(s.take(j)).insert(s[j]),
{
    assert forall|c: char| #[trigger] s.take(j + 1).contains(c) <==> (s.take(j).contains(c) || c == s[j]) by {
        if s.take(j + 1).contains(c) {
            let k = choose|k: int| 0 <= k < j + 1 && #[trigger] s.take(j + 1)[k] == c;
            if k < j {
                assert(s.take(j)[k] == c);
            }
        }
        if s.take(j).contains(c) {
            let k = choose|k: int| 0 <= k < j && #[trigger] s.take(j)[k] == c;
            assert(s.take(j + 1)[k] == c);
        }
        if c == s[j] {
            assert(s.take(j + 1)[j] == c);
        }
    }
    assert(elems(s.take(j + 1)) =~= elems(s.take(j)).insert(s[j]));
}

/// The first index at which `c` belongs in the increasing vector `s`.
fn position(s: &Vec<char>, c: char) -> (p: usize)
    requires
        increasing(s@),
    ensures
        p <= s@.len(),
        forall|j: int| 0 <= j < p ==> (s@[j] as int) < (c as int),
        forall|j: int| p <= j < s@.len() ==> (c as int) <= (s@[j] as int),
{
    let mut p: usize = 0;
    while p < s.len() && s[p] < c
        invariant
            p <= s@.len(),
            increasing(s@),
            forall|j: int| 0 <= j < p ==> (s@[j] as int) < (c as int),
        decreases s@.len() - p,
    {
        p = p + 1;
    }
    p
}

/// Whether `c` is an element of `s`.
pub fn set_contains(s: &Vec<char>, c: char) -> (r: bool)
    requires
        increasing(s@),
    ensures
        r == s@.contains(c),
{
    let p = position(s, c);
    if p < s.len() && s[p] == c {
        true
    } else {
        proof {
            if s@.contains(c) {
                let j = choose|j: int| 0 <= j < s@.len() && s@[j] == c;
                assert(j >= p);
                assert(s@[p as int] as int <= c as int);
            }
        }
        false
    }
}

/// Adds `c` to `s`.
pub fn set_insert(s: &mut Vec<char>, c: char)
    requires
        increasing(old(s)@),
    ensures
        increasing(final(s)@),
        elems(final(s)@) == elems(old(s)@).insert(c),
{
    let p = position(s, c);
    if p < s.len() && s[p] == c {
        assert(elems(s@) =~= elems(s@).insert(c));
    } else {
        let ghost before = s@;
        s.insert(p, c);
        assert forall|i: int, j: int| 0 <= i < j < s@.len() implies (s@[i] as int) < (
        s@[j] as int) by {
            if j < p {
                assert(s@[i] == before[i]);
                assert(s@[j] == before[j]);
            } else if j == p {
                assert(s@[i] == before[i]);
            } else if i < p {
                assert(s@[i] == before[i]);
                assert(s@[j] == before[j - 1]);
            } else if i == p {
                assert(s@[j] == before[j - 1]);
                assert((c as int) <= (before[p as int] as int));
                assert(before[p as int] != c);
                if j - 1 > p {
                    assert((before[p as int] as int) < (before[j - 1] as int));
                }
            } else {
                assert(s@[j] == before[j - 1]);
                assert(s@[i] == before[i - 1]);
            }
        }
        assert forall|x: char| #[trigger] elems(s@).contains(x) <==> elems(before).insert(
            c,
        ).contains(x) by {
            if s@.contains(x) {
                let j = choose|j: int| 0 <= j < s@.len() && s@[j] == x;
                if j < p {
                    assert(before[j] == x);
                } else if j > p {
                    assert(before[j - 1] == x);
                }
            }
            if before.contains(x) {
                let j = choose|j: int| 0 <= j < before.len() && before[j] == x;
                if j < p {
                    assert(s@[j] == x);
                } else {
                    assert(s@[j + 1] == x);
                }
            }
            if x == c {
                assert(s@[p as int] == c);
            }
        }
        assert(elems(s@) =~= elems(before).insert(c));
    }
}

/// Removes `c` from `s`, and tells whether it was there.
pub fn set_remove(s: &mut Vec<char>, c: char) -> (r: bool)
    requires
        increasing(old(s)@),
    ensures
        increasing(final(s)@),
        elems(final(s)@) == elems(old(s)@).remove(c),
        r == old(s)@.contains(c),
        !r ==> final(s)@ == old(s)@,
{
    let p = position(s, c);
    if p < s.len() && s[p] == c {
        let ghost before = s@;
        s.remove(p);
        assert forall|i: int, j: int| 0 <= i < j < s@.len() implies (s@[i] as int) < (
        s@[j] as int) by {
            if i < p && j >= p {
                assert(s@[j] == before[j + 1]);
            } else if i >= p {
                assert(s@[j] == before[j + 1]);
                assert(s@[i] == before[i + 1]);
            }
        }
        assert forall|x: char| #[trigger] elems(s@).contains(x) <==> elems(before).remove(
            c,
        ).contains(x) by {
            if s@.contains(x) {
                let j = choose|j: int| 0 <= j < s@.len() && s@[j] == x;
                if j < p {
                    assert(before[j] == x);
                } else {
                    assert(before[j + 1] == x);
                    assert((before[p as int] as int) < (before[j + 1] as int));
                }
            }
            if before.contains(x) && x != c {
                let j = choose|j: int| 0 <= j < before.len() && before[j] == x;
                if j < p {
                    assert(s@[j] == x);
                } else {
                    assert(j != p);
                    assert(s@[j - 1] == x);
                }
            }
        }
        assert(elems(s@) =~= elems(before).remove(c));
        true
    } else {
        proof {
            if s@.contains(c) {
                let j = choose|j: int| 0 <= j < s@.len() && s@[j] == c;
                assert(j >= p);
                assert(s@[p as int] as int <= c as int);
            }
        }
        assert(elems(s@) =~= elems(s@).remove(c));
        false
    }
}

} // verus!
