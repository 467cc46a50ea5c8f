//! Sequences used as sets: without duplicates, with elements removed.
use vstd::prelude::*;

verus! {

/// No element occurs twice.
pub open spec fn unique<A>(s: Seq<A>) -> bool {
    forall|i: int, j: int| 0 <= i < s.len() && 0 <= j < s.len() && i != j ==> s[i] != s[j]
}

/// `s` without the element `x`.
pub open spec fn without<A>(s: Seq<A>, x: A) -> Seq<A>
    decreases s.len(),
{
    if s.len() == 0 {
        s
    } else if s.last() == x {
        without(s.drop_last(), x)
    } else {
        without(s.drop_last(), x).push(s.last())
    }
}

/// Removing an element that does not occur changes nothing.
pub proof fn lemma_without_absent<A>(s: Seq<A>, x: A)
    requires
        !s.contains(x),
    ensures
        without(s, x) == s,
    decreases s.len(),
{
    if s.len() > 0 {
        let t = s.drop_last();
        assert(!t.contains(x)) by {
            if t.contains(x) {
                let k = choose|k: int| 0 <= k < t.len() && t[k] == x;
                assert(s[k] == x);
            }
        }
        lemma_without_absent(t, x);
        assert(s.last() != x) by {
            assert(s[s.len() - 1] == s.last());
        }
        assert(t.push(s.last()) =~= s);
    }
}

/// In a sequence without duplicates, removing an element is removing its
/// only position.
pub proof fn lemma_without_unique<A>(s: Seq<A>, i: int)
    requires
        unique(s),
        0 <= i < s.len(),
    ensures
        without(s, s[i]) == s.remove(i),
    decreases s.len(),
{
    let x = s[i];
    let t = s.drop_last();
    if i == s.len() - 1 {
        assert(!t.contains(x)) by {
            if t.contains(x) {
                let k = choose|k: int| 0 <= k < t.len() && t[k] == x;
                assert(s[k] == x);
            }
        }
        lemma_without_absent(t, x);
        assert(s.remove(i) =~= t);
    } else {
        assert(s.last() != x) by {
            assert(s[s.len() - 1] == s.last());
        }
        assert(t[i] == x);
        assert(unique(t)) by {
            assert forall|a: int, b: int| 0 <= a < t.len() && 0 <= b < t.len() && a != b implies t[a] != t[b] by {
                assert(t[a] == s[a]);
                assert(t[b] == s[b]);
            }
        }
        lemma_without_unique(t, i);
        assert(t.remove(i).push(s.last()) =~= s.remove(i));
    }
}

/// Removing an element keeps a sequence free of duplicates.
pub proof fn lemma_remove_unique<A>(s: Seq<A>, i: int)
    requires
        unique(s),
        0 <= i < s.len(),
    ensures
        unique(s.remove(i)),
{
    let r = s.remove(i);
    assert forall|a: int, b: int| 0 <= a < r.len() && 0 <= b < r.len() && a != b implies r[a] != r[b] by {
        let oa = if a < i { a } else { a + 1 };
        let ob = if b < i { b } else { b + 1 };
        assert(r[a] == s[oa]);
        assert(r[b] == s[ob]);
    }
}

/// Adding an element that does not occur keeps a sequence free of duplicates.
pub proof fn lemma_push_unique<A>(s: Seq<A>, x: A)
    requires
        unique(s),
        !s.contains(x),
    ensures
        unique(s.push(x)),
{
    let r = s.push(x);
    assert forall|a: int, b: int| 0 <= a < r.len() && 0 <= b < r.len() && a != b implies r[a] != r[b] by {
        if a < s.len() && b < s.len() {
            assert(r[a] == s[a]);
            assert(r[b] == s[b]);
        } else if a < s.len() {
            assert(r[a] == s[a]);
        } else {
            assert(r[b] == s[b]);
        }
    }
}

/// An element other than the one removed is kept.
pub proof fn lemma_without_keeps<A>(s: Seq<A>, x: A, y: A)
    requires
        y != x,
    ensures
        without(s, x).contains(y) == s.contains(y),
    decreases s.len(),
{
    if s.len() > 0 {
        let t = s.drop_last();
        lemma_without_keeps(t, x, y);
        let r = without(t, x);
        if s.contains(y) {
            let k = choose|k: int| 0 <= k < s.len() && s[k] == y;
            if k < s.len() - 1 {
                assert(t[k] == y);
                if s.last() != x {
                    let j = choose|j: int| 0 <= j < r.len() && r[j] == y;
                    assert(r.push(s.last())[j] == y);
                }
            } else {
                assert(s.last() == y);
                assert(r.push(s.last())[r.len() as int] == y);
            }
        }
        if without(s, x).contains(y) {
            if s.last() != x {
                let j = choose|j: int| 0 <= j < r.len() + 1 && r.push(s.last())[j] == y;
                if j < r.len() {
                    assert(r[j] == y);
                    let k = choose|k: int| 0 <= k < t.len() && t[k] == y;
                    assert(s[k] == y);
                } else {
                    assert(s[s.len() - 1] == y);
                }
            } else {
                let k = choose|k: int| 0 <= k < t.len() && t[k] == y;
                assert(s[k] == y);
            }
        }
    }
}

} // verus!
