//! What lists that are put together hold.

use vstd::prelude::*;

verus! {

/// What the first of two lists holds, they hold together.
pub proof fn lemma_front<T>(a: Seq<T>, b: Seq<T>, m: T)
    requires
        a.contains(m),
    ensures
        (a + b).contains(m),
{
    let i = choose|i: int| 0 <= i < a.len() && a[i] == m;
    assert((a + b)[i] == m);
}

/// What the second of two lists holds, they hold together.
pub proof fn lemma_behind<T>(a: Seq<T>, b: Seq<T>, m: T)
    requires
        b.contains(m),
    ensures
        (a + b).contains(m),
{
    let i = choose|i: int| 0 <= i < b.len() && b[i] == m;
    assert((a + b)[a.len() + i] == m);
}

/// What two lists hold together, one of them holds.
pub proof fn lemma_either<T>(a: Seq<T>, b: Seq<T>, m: T)
    requires
        (a + b).contains(m),
    ensures
        a.contains(m) || b.contains(m),
{
    let i = choose|i: int| 0 <= i < (a + b).len() && (a + b)[i] == m;
    if i < a.len() {
        assert(a[i] == m);
    } else {
        assert(b[i - a.len()] == m);
    }
}

} // verus!
