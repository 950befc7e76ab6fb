//! Lexicographic order of texts, and stable sorting by a total preorder.

use vstd::prelude::*;

use crate::text::{chars_of, same, texts};

verus! {

/// Lexicographic order by scalar value, from position `i` on.
pub open spec fn text_le_from(a: Seq<char>, b: Seq<char>, i: int) -> bool
    decreases a.len() - i,
{
    if i < 0 || i >= a.len() {
        true
    } else if i >= b.len() {
        false
    } else if a[i] != b[i] {
        a[i] < b[i]
    } else {
        text_le_from(a, b, i + 1)
    }
}

/// `a` is `b` or comes before it. For valid UTF-8 this is also the order of
/// the bytes.
pub open spec fn text_le(a: Seq<char>, b: Seq<char>) -> bool {
    text_le_from(a, b, 0)
}

/// Decides [`text_le`].
pub fn le_text(a: &str, b: &str) -> (r: bool)
    ensures
        r == text_le(a@, b@),
{
    let x = chars_of(a);
    let y = chars_of(b);
    let mut i: usize = 0;
    while i < x.len()
        invariant
            i <= x.len(),
            x@ == a@,
            y@ == b@,
            text_le(a@, b@) == text_le_from(a@, b@, i as int),
        decreases x.len() - i,
    {
        if i >= y.len() {
            return false;
        }
        if x[i] != y[i] {
            return x[i] < y[i];
        }
        i += 1;
    }
    true
}

proof fn lemma_text_le_total_from(a: Seq<char>, b: Seq<char>, i: int)
    requires
        0 <= i,
    ensures
        text_le_from(a, b, i) || text_le_from(b, a, i),
    decreases a.len() - i,
{
    if i < a.len() && i < b.len() && a[i] == b[i] {
        lemma_text_le_total_from(a, b, i + 1);
    }
}

proof fn lemma_text_le_trans_from(a: Seq<char>, b: Seq<char>, c: Seq<char>, i: int)
    requires
        0 <= i,
        text_le_from(a, b, i),
        text_le_from(b, c, i),
    ensures
        text_le_from(a, c, i),
    decreases a.len() - i,
{
    if i < a.len() && i < b.len() && i < c.len() && a[i] == b[i] && b[i] == c[i] {
        lemma_text_le_trans_from(a, b, c, i + 1);
    }
}

/// Of two texts one comes first.
pub proof fn lemma_text_le_total(a: Seq<char>, b: Seq<char>)
    ensures
        text_le(a, b) || text_le(b, a),
{
    lemma_text_le_total_from(a, b, 0);
}

proof fn lemma_text_le_antisym_from(a: Seq<char>, b: Seq<char>, i: int)
    requires
        0 <= i <= a.len(),
        i <= b.len(),
        forall|k: int| 0 <= k < i ==> a[k] == b[k],
        text_le_from(a, b, i),
        text_le_from(b, a, i),
    ensures
        a == b,
    decreases a.len() - i,
{
    if i < a.len() && i < b.len() {
        lemma_text_le_antisym_from(a, b, i + 1);
    } else {
        assert(a =~= b);
    }
}

/// Texts that are below each other are equal.
pub proof fn lemma_text_le_antisym(a: Seq<char>, b: Seq<char>)
    requires
        text_le(a, b),
        text_le(b, a),
    ensures
        a == b,
{
    lemma_text_le_antisym_from(a, b, 0);
}

/// The order of texts is transitive.
pub proof fn lemma_text_le_trans(a: Seq<char>, b: Seq<char>, c: Seq<char>)
    requires
        text_le(a, b),
        text_le(b, c),
    ensures
        text_le(a, c),
{
    lemma_text_le_trans_from(a, b, c, 0);
}

/// Lexicographic order of lists of texts, from position `i` on.
pub open spec fn list_le_from(a: Seq<Seq<char>>, b: Seq<Seq<char>>, i: int) -> bool
    decreases a.len() - i,
{
    if i < 0 || i >= a.len() {
        true
    } else if i >= b.len() {
        false
    } else if a[i] != b[i] {
        text_le(a[i], b[i])
    } else {
        list_le_from(a, b, i + 1)
    }
}

/// Lexicographic order of lists of texts.
pub open spec fn list_le(a: Seq<Seq<char>>, b: Seq<Seq<char>>) -> bool {
    list_le_from(a, b, 0)
}

/// Decides [`list_le`].
pub fn le_list(a: &Vec<String>, b: &Vec<String>) -> (r: bool)
    ensures
        r == list_le(texts(a@), texts(b@)),
{
    let mut i: usize = 0;
    while i < a.len()
        invariant
            i <= a.len(),
            list_le(texts(a@), texts(b@)) == list_le_from(texts(a@), texts(b@), i as int),
        decreases a.len() - i,
    {
        if i >= b.len() {
            return false;
        }
        if !same(a[i].as_str(), b[i].as_str()) {
            return le_text(a[i].as_str(), b[i].as_str());
        }
        i += 1;
    }
    true
}

/// Values with a preorder to sort by, stated on their views.
pub trait Ranked: View {
    /// `a` may stand before `b`.
    spec fn at_most(a: Self::V, b: Self::V) -> bool;

    /// Decides [`Ranked::at_most`].
    fn is_at_most(&self, other: &Self) -> (r: bool)
        ensures
            r == Self::at_most(self@, other@),
    ;
}

impl Ranked for String {
    open spec fn at_most(a: Seq<char>, b: Seq<char>) -> bool {
        text_le(a, b)
    }

    fn is_at_most(&self, other: &Self) -> (r: bool) {
        le_text(self.as_str(), other.as_str())
    }
}

/// The views of a list.
pub open spec fn views<T: View>(list: Seq<T>) -> Seq<T::V> {
    list.map_values(|x: T| x@)
}

/// `x` placed before the trailing elements that it is strictly below.
pub open spec fn inserted<T: Ranked>(s: Seq<T::V>, x: T::V) -> Seq<T::V>
    decreases s.len(),
{
    if s.len() > 0 && !T::at_most(s.last(), x) {
        inserted::<T>(s.drop_last(), x).push(s.last())
    } else {
        s.push(x)
    }
}

/// Stable sort: elements are placed one after another.
pub open spec fn sorted<T: Ranked>(s: Seq<T::V>) -> Seq<T::V>
    decreases s.len(),
{
    if s.len() == 0 {
        s
    } else {
        inserted::<T>(sorted::<T>(s.drop_last()), s.last())
    }
}

proof fn lemma_inserted_split<T: Ranked>(s: Seq<T::V>, x: T::V, at: int)
    requires
        0 <= at <= s.len(),
        forall|k: int| at <= k < s.len() ==> !T::at_most(#[trigger] s[k], x),
        at > 0 ==> T::at_most(s[at - 1], x),
    ensures
        inserted::<T>(s, x) == s.take(at).push(x) + s.skip(at),
    decreases s.len(),
{
    if at < s.len() {
        assert forall|k: int| at <= k < s.drop_last().len() implies !T::at_most(
            #[trigger] s.drop_last()[k],
            x,
        ) by {
            assert(s[k] == s.drop_last()[k]);
        }
        lemma_inserted_split::<T>(s.drop_last(), x, at);
        assert(s.drop_last().take(at) =~= s.take(at));
        assert(inserted::<T>(s, x) =~= s.take(at).push(x) + s.skip(at)) by {
            assert(s.skip(at) =~= s.drop_last().skip(at).push(s.last()));
        }
    } else {
        assert(s.take(at) =~= s);
        assert(s.skip(at) =~= Seq::empty());
        assert(s.take(at).push(x) + s.skip(at) =~= s.push(x));
    }
}

/// Sorts a list, keeping the order of equally ranked elements.
pub fn sort<T: Ranked>(list: Vec<T>) -> (r: Vec<T>)
    ensures
        views(r@) == sorted::<T>(views(list@)),
{
    let ghost whole = views(list@);
    let mut rest = list;
    let mut queue: Vec<T> = Vec::new();
    // Reverse the input so that it can be consumed from its start.
    while rest.len() > 0
        invariant
            views(rest@) + views(queue@).reverse() == whole,
        decreases rest.len(),
    {
        let ghost r0 = rest@;
        let ghost q0 = queue@;
        match rest.pop() {
            Some(x) => {
                queue.push(x);
                proof {
                    assert(views(r0) =~= views(rest@).push(x@));
                    assert(views(queue@).reverse() =~= seq![x@] + views(q0).reverse());
                    assert(views(rest@) + views(queue@).reverse() =~= views(r0)
                        + views(q0).reverse());
                }
            },
            None => {},
        }
    }
    assert(views(queue@).reverse() =~= whole);
    let mut out: Vec<T> = Vec::new();
    let ghost mut done: int = 0;
    while queue.len() > 0
        invariant
            0 <= done <= whole.len(),
            queue@.len() == whole.len() - done,
            views(queue@).reverse() == whole.skip(done),
            views(out@) == sorted::<T>(whole.take(done)),
        decreases queue.len(),
    {
        let ghost q0 = queue@;
        match queue.pop() {
            Some(x) => {
                proof {
                    assert(views(q0).reverse()[0] == x@);
                    assert(whole[done] == whole.skip(done)[0]);
                    assert(views(queue@) =~= views(q0).drop_last());
                    assert(views(queue@).reverse() =~= views(q0).reverse().skip(1));
                    assert(whole.skip(done + 1) =~= whole.skip(done).skip(1));
                    assert(whole.take(done + 1).drop_last() =~= whole.take(done));
                }
                insert_sorted(&mut out, x);
                proof {
                    done = done + 1;
                }
            },
            None => {},
        }
    }
    assert(whole.take(done) =~= whole);
    out
}

fn insert_sorted<T: Ranked>(out: &mut Vec<T>, x: T)
    ensures
        views(final(out)@) == inserted::<T>(views(old(out)@), x@),
{
    let ghost s = views(out@);
    let mut at: usize = out.len();
    while at > 0 && !out[at - 1].is_at_most(&x)
        invariant
            at <= out.len(),
            s == views(out@),
            forall|k: int| at <= k < s.len() ==> !T::at_most(#[trigger] s[k], x@),
        decreases at,
    {
        at -= 1;
    }
    let ghost value = x@;
    proof {
        lemma_inserted_split::<T>(s, value, at as int);
    }
    out.insert(at, x);
    assert(views(out@) =~= s.take(at as int).push(value) + s.skip(at as int));
}

/// `s` with equal neighbours merged.
pub open spec fn deduped(s: Seq<Seq<char>>) -> Seq<Seq<char>>
    decreases s.len(),
{
    if s.len() == 0 {
        s
    } else {
        let rest = deduped(s.drop_last());
        if rest.len() > 0 && rest.last() == s.last() {
            rest
        } else {
            rest.push(s.last())
        }
    }
}

/// Merges equal neighbours.
pub fn dedup_neighbours(list: Vec<String>) -> (r: Vec<String>)
    ensures
        texts(r@) == deduped(texts(list@)),
{
    let mut out: Vec<String> = Vec::new();
    let mut i: usize = 0;
    while i < list.len()
        invariant
            i <= list.len(),
            texts(out@) == deduped(texts(list@).take(i as int)),
        decreases list.len() - i,
    {
        let ghost before = texts(out@);
        assert(texts(list@).take(i + 1).drop_last() =~= texts(list@).take(i as int));
        if out.len() > 0 && same(out[out.len() - 1].as_str(), list[i].as_str()) {
            assert(texts(out@).last() == list@[i as int]@);
        } else {
            assert(out@.len() > 0 ==> texts(out@).last() != list@[i as int]@);
            out.push(list[i].clone());
            assert(texts(out@) =~= before.push(list@[i as int]@));
        }
        i += 1;
    }
    assert(texts(list@).take(i as int) =~= texts(list@));
    out
}

/// Each element stands before the ones after it.
pub open spec fn in_order<T: Ranked>(s: Seq<T::V>) -> bool {
    forall|i: int, j: int| 0 <= i < j < s.len() ==> T::at_most(#[trigger] s[i], #[trigger] s[j])
}

proof fn lemma_inserted_in_order<T: Ranked>(s: Seq<T::V>, x: T::V)
    requires
        in_order::<T>(s),
        forall|a: T::V, b: T::V| #[trigger] T::at_most(a, b) || T::at_most(b, a),
        forall|a: T::V, b: T::V, c: T::V|
            #[trigger] T::at_most(a, b) && #[trigger] T::at_most(b, c) ==> T::at_most(a, c),
    ensures
        in_order::<T>(inserted::<T>(s, x)),
        inserted::<T>(s, x).to_multiset() == s.to_multiset().insert(x),
        inserted::<T>(s, x).len() == s.len() + 1,
        forall|k: int|
            0 <= k < inserted::<T>(s, x).len() ==> (#[trigger] inserted::<T>(s, x)[k] == x
                || s.contains(inserted::<T>(s, x)[k])),
    decreases s.len(),
{
    broadcast use vstd::seq_lib::group_to_multiset_ensures;

    if s.len() > 0 && !T::at_most(s.last(), x) {
        let front = s.drop_last();
        assert forall|i: int, j: int| 0 <= i < j < front.len() implies T::at_most(
            #[trigger] front[i],
            #[trigger] front[j],
        ) by {
            assert(T::at_most(s[i], s[j]));
        }
        lemma_inserted_in_order::<T>(front, x);
        let low = inserted::<T>(front, x);
        let all = low.push(s.last());
        assert(front.push(s.last()) =~= s);
        assert(all.to_multiset() =~= s.to_multiset().insert(x));
        assert(T::at_most(x, s.last()));
        assert forall|k: int| 0 <= k < all.len() implies (#[trigger] all[k] == x || s.contains(
            all[k],
        )) by {
            if k < low.len() {
                assert(low[k] == x || front.contains(low[k]));
                if low[k] != x {
                    let m = choose|m: int| 0 <= m < front.len() && front[m] == low[k];
                    assert(s[m] == low[k]);
                }
            } else {
                assert(s[s.len() - 1] == all[k]);
            }
        }
        assert forall|i: int, j: int| 0 <= i < j < all.len() implies T::at_most(
            #[trigger] all[i],
            #[trigger] all[j],
        ) by {
            if j == low.len() {
                assert(low[i] == x || front.contains(low[i]));
                if low[i] != x {
                    let m = choose|m: int| 0 <= m < front.len() && front[m] == low[i];
                    assert(T::at_most(s[m], s[s.len() - 1]));
                }
            } else {
                assert(T::at_most(low[i], low[j]));
            }
        }
    } else {
        let all = s.push(x);
        assert forall|i: int, j: int| 0 <= i < j < all.len() implies T::at_most(
            #[trigger] all[i],
            #[trigger] all[j],
        ) by {
            if j == s.len() {
                if i < s.len() - 1 {
                    assert(T::at_most(s[i], s[s.len() - 1]));
                }
            } else {
                assert(T::at_most(s[i], s[j]));
            }
        }
        assert forall|k: int| 0 <= k < all.len() implies (#[trigger] all[k] == x || s.contains(
            all[k],
        )) by {
            if k < s.len() {
                assert(s[k] == all[k]);
            }
        }
    }
}

/// Sorting by a total, transitive rank gives an ordered permutation.
pub proof fn law_sorted<T: Ranked>(s: Seq<T::V>)
    requires
        forall|a: T::V, b: T::V| #[trigger] T::at_most(a, b) || T::at_most(b, a),
        forall|a: T::V, b: T::V, c: T::V|
            #[trigger] T::at_most(a, b) && #[trigger] T::at_most(b, c) ==> T::at_most(a, c),
    ensures
        in_order::<T>(sorted::<T>(s)),
        sorted::<T>(s).to_multiset() == s.to_multiset(),
    decreases s.len(),
{
    broadcast use vstd::seq_lib::group_to_multiset_ensures;

    if s.len() > 0 {
        law_sorted::<T>(s.drop_last());
        lemma_inserted_in_order::<T>(sorted::<T>(s.drop_last()), s.last());
        assert(s.drop_last().push(s.last()) =~= s);
    }
}

} // verus!
