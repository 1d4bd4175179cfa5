//! Spec functions on sequences that several modules state their results with, and the lemmas
//! that carry them through a loop.

use vstd::prelude::*;

verus! {

/// What `f` gives for the elements of `s`, in order, without those for which it gives nothing.
pub open spec fn selected<A, B>(s: Seq<A>, f: spec_fn(A) -> Option<B>) -> Seq<B>
    decreases s.len(),
{
    if s.len() == 0 {
        Seq::empty()
    } else {
        match f(s.last()) {
            Some(b) => selected(s.drop_last(), f).push(b),
            None => selected(s.drop_last(), f),
        }
    }
}

/// The lists that `f` gives for the elements of `s`, one after the other.
pub open spec fn gathered<A, B>(s: Seq<A>, f: spec_fn(A) -> Seq<B>) -> Seq<B>
    decreases s.len(),
{
    if s.len() == 0 {
        Seq::empty()
    } else {
        gathered(s.drop_last(), f) + f(s.last())
    }
}

/// The last element of `s` that satisfies `p`.
pub open spec fn last_such<A>(s: Seq<A>, p: spec_fn(A) -> bool) -> Option<A>
    decreases s.len(),
{
    if s.len() == 0 {
        None
    } else if p(s.last()) {
        Some(s.last())
    } else {
        last_such(s.drop_last(), p)
    }
}

/// The first element of `s` that satisfies `p`.
pub open spec fn first_such<A>(s: Seq<A>, p: spec_fn(A) -> bool) -> Option<A>
    decreases s.len(),
{
    if s.len() == 0 {
        None
    } else if p(s[0]) {
        Some(s[0])
    } else {
        first_such(s.skip(1), p)
    }
}

/// Some element of `s` satisfies `p`.
pub open spec fn any_such<A>(s: Seq<A>, p: spec_fn(A) -> bool) -> bool {
    exists|i: int| 0 <= i < s.len() && p(#[trigger] s[i])
}

/// One more element for [`selected`].
pub proof fn lemma_selected_step<A, B>(s: Seq<A>, f: spec_fn(A) -> Option<B>, i: int)
    requires
        0 <= i < s.len(),
    ensures
        selected(s.take(i + 1), f) == (match f(s[i]) {
            Some(b) => selected(s.take(i), f).push(b),
            None => selected(s.take(i), f),
        }),
{
    assert(s.take(i + 1).drop_last() =~= s.take(i));
}

/// One more element for [`gathered`].
pub proof fn lemma_gathered_step<A, B>(s: Seq<A>, f: spec_fn(A) -> Seq<B>, i: int)
    requires
        0 <= i < s.len(),
    ensures
        gathered(s.take(i + 1), f) == gathered(s.take(i), f) + f(s[i]),
{
    assert(s.take(i + 1).drop_last() =~= s.take(i));
}

/// What is selected from two lists, one after the other, is selected from each.
pub proof fn lemma_selected_concat<A, B>(s: Seq<A>, t: Seq<A>, f: spec_fn(A) -> Option<B>)
    ensures
        selected(s + t, f) == selected(s, f) + selected(t, f),
    decreases t.len(),
{
    if t.len() == 0 {
        assert(s + t =~= s);
        assert(selected(s, f) + selected(t, f) =~= selected(s, f));
    } else {
        lemma_selected_concat(s, t.drop_last(), f);
        assert((s + t).drop_last() =~= s + t.drop_last());
        match f(t.last()) {
            Some(b) => {
                let front = selected(s, f);
                let back = selected(t.drop_last(), f);
                assert((front + back).push(b) =~= front + back.push(b));
            },
            None => {},
        }
    }
}

/// What is selected does not change where each element is replaced by one that `f` takes alike.
pub proof fn lemma_selected_mapped<A, B>(
    s: Seq<A>,
    f: spec_fn(A) -> Option<B>,
    g: spec_fn(A) -> A,
)
    requires
        forall|a: A| #[trigger] f(g(a)) == f(a),
    ensures
        selected(s.map_values(g), f) == selected(s, f),
    decreases s.len(),
{
    if s.len() > 0 {
        lemma_selected_mapped(s.drop_last(), f, g);
        assert(s.map_values(g).drop_last() =~= s.drop_last().map_values(g));
        assert(s.map_values(g).last() == g(s.last()));
        assert(f(g(s.last())) == f(s.last()));
    }
}

/// The first such element of a list that has one is the first of any longer list.
pub proof fn lemma_first_such_longer<A>(s: Seq<A>, t: Seq<A>, p: spec_fn(A) -> bool)
    requires
        first_such(s, p) is Some,
    ensures
        first_such(s + t, p) == first_such(s, p),
    decreases s.len(),
{
    assert(s.len() > 0);
    if !p(s[0]) {
        lemma_first_such_longer(s.skip(1), t, p);
        assert((s + t).skip(1) =~= s.skip(1) + t);
    }
}

/// No more is selected than there is.
pub proof fn lemma_selected_len<A, B>(s: Seq<A>, f: spec_fn(A) -> Option<B>)
    ensures
        selected(s, f).len() <= s.len(),
    decreases s.len(),
{
    if s.len() > 0 {
        lemma_selected_len(s.drop_last(), f);
    }
}

/// An element that is selected comes from one that was there, and in the same order.
pub proof fn lemma_selected_from<A, B>(s: Seq<A>, f: spec_fn(A) -> Option<B>)
    ensures
        selected(s, f).len() <= s.len(),
        forall|j: int|
            0 <= j < selected(s, f).len() ==> exists|i: int|
                0 <= i < s.len() && f(#[trigger] s[i]) == Some(#[trigger] selected(s, f)[j]),
    decreases s.len(),
{
    if s.len() > 0 {
        let rest = s.drop_last();
        lemma_selected_from(rest, f);
        assert forall|j: int| 0 <= j < selected(s, f).len() implies exists|i: int|
            0 <= i < s.len() && f(#[trigger] s[i]) == Some(#[trigger] selected(s, f)[j]) by {
            if j < selected(rest, f).len() {
                assert(selected(s, f)[j] == selected(rest, f)[j]);
                let i = choose|i: int|
                    0 <= i < rest.len() && f(#[trigger] rest[i]) == Some(selected(rest, f)[j]);
                assert(s[i] == rest[i]);
            } else {
                assert(f(s[s.len() - 1]) == Some(selected(s, f)[j]));
            }
        }
    }
}

/// Every element that `f` keeps is selected.
pub proof fn lemma_selected_keeps<A, B>(s: Seq<A>, f: spec_fn(A) -> Option<B>, i: int)
    requires
        0 <= i < s.len(),
        f(s[i]) is Some,
    ensures
        selected(s, f).contains(f(s[i])->0),
    decreases s.len(),
{
    let rest = s.drop_last();
    if i == s.len() - 1 {
        assert(selected(s, f).last() == f(s[i])->0);
    } else {
        lemma_selected_keeps(rest, f, i);
        assert(rest[i] == s[i]);
        let j = choose|j: int|
            0 <= j < selected(rest, f).len() && selected(rest, f)[j] == f(s[i])->0;
        assert(selected(s, f)[j] == f(s[i])->0);
    }
}

/// What is selected as it is, by a test, is what was there and passes it.
pub proof fn lemma_selected_such<A>(s: Seq<A>, f: spec_fn(A) -> Option<A>, p: spec_fn(A) -> bool)
    requires
        forall|a: A| #[trigger] f(a) == (if p(a) {
            Some(a)
        } else {
            None
        }),
    ensures
        forall|a: A| #[trigger] selected(s, f).contains(a) <==> s.contains(a) && p(a),
{
    lemma_selected_from(s, f);
    let r = selected(s, f);
    assert forall|a: A| #[trigger] r.contains(a) <==> s.contains(a) && p(a) by {
        if r.contains(a) {
            let j = choose|j: int| 0 <= j < r.len() && r[j] == a;
            let i = choose|i: int| 0 <= i < s.len() && f(#[trigger] s[i]) == Some(r[j]);
            assert(s[i] == a);
        }
        if s.contains(a) && p(a) {
            let i = choose|i: int| 0 <= i < s.len() && s[i] == a;
            assert(f(s[i]) == Some(a));
            lemma_selected_keeps(s, f, i);
        }
    }
}

/// What the last element that satisfies `p` is known by.
pub proof fn lemma_last_such<A>(s: Seq<A>, p: spec_fn(A) -> bool)
    ensures
        match last_such(s, p) {
            Some(a) => exists|i: int|
                0 <= i < s.len() && #[trigger] s[i] == a && p(a) && (forall|j: int|
                    i < j < s.len() ==> !p(#[trigger] s[j])),
            None => forall|j: int| 0 <= j < s.len() ==> !p(#[trigger] s[j]),
        },
    decreases s.len(),
{
    if s.len() > 0 {
        if p(s.last()) {
            assert(s[s.len() - 1] == s.last());
        } else {
            let rest = s.drop_last();
            lemma_last_such(rest, p);
            match last_such(rest, p) {
                Some(a) => {
                    let i = choose|i: int|
                        0 <= i < rest.len() && #[trigger] rest[i] == a && p(a) && (forall|j: int|
                            i < j < rest.len() ==> !p(#[trigger] rest[j]));
                    assert(s[i] == a);
                    assert forall|j: int| i < j < s.len() implies !p(#[trigger] s[j]) by {
                        if j < rest.len() {
                            assert(rest[j] == s[j]);
                        }
                    }
                },
                None => {
                    assert forall|j: int| 0 <= j < s.len() implies !p(#[trigger] s[j]) by {
                        if j < rest.len() {
                            assert(rest[j] == s[j]);
                        }
                    }
                },
            }
        }
    }
}

/// Elements that `p` does not accept can be left out before looking for the last one it does.
pub proof fn lemma_last_such_kept<A>(s: Seq<A>, keep: spec_fn(A) -> bool, p: spec_fn(A) -> bool)
    requires
        forall|a: A| #[trigger] p(a) ==> keep(a),
    ensures
        last_such(kept(s, keep), p) == last_such(s, p),
    decreases s.len(),
{
    if s.len() > 0 {
        lemma_last_such_kept(s.drop_last(), keep, p);
        if keep(s.last()) {
            assert(kept(s, keep).drop_last() =~= kept(s.drop_last(), keep));
        }
    }
}

/// The elements that satisfy `keep`, in order.
pub open spec fn kept<A>(s: Seq<A>, keep: spec_fn(A) -> bool) -> Seq<A>
    decreases s.len(),
{
    if s.len() == 0 {
        Seq::empty()
    } else if keep(s.last()) {
        kept(s.drop_last(), keep).push(s.last())
    } else {
        kept(s.drop_last(), keep)
    }
}

/// Elements from which nothing is selected can be left out before selecting.
pub proof fn lemma_selected_kept<A, B>(
    s: Seq<A>,
    keep: spec_fn(A) -> bool,
    f: spec_fn(A) -> Option<B>,
)
    requires
        forall|a: A| (#[trigger] f(a)) is Some ==> keep(a),
    ensures
        selected(kept(s, keep), f) == selected(s, f),
    decreases s.len(),
{
    if s.len() > 0 {
        lemma_selected_kept(s.drop_last(), keep, f);
        if keep(s.last()) {
            assert(kept(s, keep).drop_last() =~= kept(s.drop_last(), keep));
        }
    }
}

/// What is selected as it is, by a test, is what is kept by that test.
pub proof fn lemma_selected_is_kept<A>(s: Seq<A>, f: spec_fn(A) -> Option<A>, p: spec_fn(A) -> bool)
    requires
        forall|a: A| #[trigger] f(a) == (if p(a) {
            Some(a)
        } else {
            None
        }),
    ensures
        selected(s, f) == kept(s, p),
    decreases s.len(),
{
    if s.len() > 0 {
        lemma_selected_is_kept(s.drop_last(), f, p);
        assert(f(s.last()) == (if p(s.last()) {
            Some(s.last())
        } else {
            None
        }));
    }
}

/// What is kept was there and satisfies `keep`, and nothing else is left out.
pub proof fn lemma_kept<A>(s: Seq<A>, keep: spec_fn(A) -> bool)
    ensures
        forall|x: A| #[trigger] kept(s, keep).contains(x) <==> s.contains(x) && keep(x),
    decreases s.len(),
{
    if s.len() > 0 {
        let front = s.drop_last();
        lemma_kept(front, keep);
        let r = kept(s, keep);
        assert forall|x: A| #[trigger] r.contains(x) <==> s.contains(x) && keep(x) by {
            if r.contains(x) {
                let k = choose|k: int| 0 <= k < r.len() && r[k] == x;
                if keep(s.last()) && k == r.len() - 1 {
                    assert(s[s.len() - 1] == x);
                } else {
                    assert(kept(front, keep)[k] == x);
                    assert(kept(front, keep).contains(x));
                    let m = choose|m: int| 0 <= m < front.len() && front[m] == x;
                    assert(s[m] == x);
                }
            }
            if s.contains(x) && keep(x) {
                if x == s.last() {
                    assert(r[r.len() - 1] == x);
                } else {
                    let m = choose|m: int| 0 <= m < s.len() && s[m] == x;
                    assert(front[m] == x);
                    assert(kept(front, keep).contains(x));
                    let k = choose|k: int|
                        0 <= k < kept(front, keep).len() && kept(front, keep)[k] == x;
                    assert(r[k] == x);
                }
            }
        }
    }
}

/// Elements that `p` does not accept can be left out before asking for one that it does.
pub proof fn lemma_any_such_kept<A>(s: Seq<A>, keep: spec_fn(A) -> bool, p: spec_fn(A) -> bool)
    requires
        forall|a: A| #[trigger] p(a) ==> keep(a),
    ensures
        any_such(kept(s, keep), p) == any_such(s, p),
{
    lemma_kept(s, keep);
    let r = kept(s, keep);
    if any_such(s, p) {
        let i = choose|i: int| 0 <= i < s.len() && p(#[trigger] s[i]);
        assert(s.contains(s[i]));
        assert(r.contains(s[i]));
        let k = choose|k: int| 0 <= k < r.len() && r[k] == s[i];
        assert(p(r[k]));
    }
    if any_such(r, p) {
        let k = choose|k: int| 0 <= k < r.len() && p(#[trigger] r[k]);
        assert(r.contains(r[k]));
        let i = choose|i: int| 0 <= i < s.len() && s[i] == r[k];
        assert(p(s[i]));
    }
}

/// Something is selected exactly where `f` gives something for an element.
pub proof fn lemma_selected_empty<A, B>(s: Seq<A>, f: spec_fn(A) -> Option<B>)
    ensures
        selected(s, f).len() == 0 <==> forall|i: int| 0 <= i < s.len() ==> f(#[trigger] s[i]) is None,
    decreases s.len(),
{
    if s.len() > 0 {
        let front = s.drop_last();
        lemma_selected_empty(front, f);
        if selected(s, f).len() == 0 {
            assert forall|i: int| 0 <= i < s.len() implies f(#[trigger] s[i]) is None by {
                if i < front.len() {
                    assert(front[i] == s[i]);
                }
            }
        } else if f(s.last()) is Some {
            assert(f(s[s.len() - 1]) is Some);
        } else {
            let i = choose|i: int| 0 <= i < front.len() && !(f(#[trigger] front[i]) is None);
            assert(s[i] == front[i]);
        }
    }
}

/// Whatever is gathered comes from the list of some element.
pub proof fn lemma_gathered_from<A, B>(s: Seq<A>, f: spec_fn(A) -> Seq<B>)
    ensures
        forall|j: int|
            0 <= j < gathered(s, f).len() ==> exists|i: int|
                0 <= i < s.len() && f(#[trigger] s[i]).contains(#[trigger] gathered(s, f)[j]),
    decreases s.len(),
{
    if s.len() > 0 {
        let front = s.drop_last();
        lemma_gathered_from(front, f);
        let r = gathered(s, f);
        assert forall|j: int| 0 <= j < r.len() implies exists|i: int|
            0 <= i < s.len() && f(#[trigger] s[i]).contains(#[trigger] r[j]) by {
            let n = gathered(front, f).len();
            if j < n {
                assert(r[j] == gathered(front, f)[j]);
                let i = choose|i: int|
                    0 <= i < front.len() && f(#[trigger] front[i]).contains(gathered(front, f)[j]);
                assert(s[i] == front[i]);
            } else {
                assert(r[j] == f(s.last())[j - n]);
                assert(f(s[s.len() - 1]).contains(r[j]));
            }
        }
    }
}

/// Whatever an element's list holds is gathered.
pub proof fn lemma_gathered_keeps<A, B>(s: Seq<A>, f: spec_fn(A) -> Seq<B>, i: int, b: B)
    requires
        0 <= i < s.len(),
        f(s[i]).contains(b),
    ensures
        gathered(s, f).contains(b),
    decreases s.len(),
{
    let front = s.drop_last();
    let r = gathered(s, f);
    let n = gathered(front, f).len() as int;
    if i == s.len() - 1 {
        let own = f(s[i]);
        let k = choose|k: int| 0 <= k < own.len() && own[k] == b;
        assert(r[n + k] == b);
    } else {
        assert(front[i] == s[i]);
        lemma_gathered_keeps(front, f, i, b);
        let k = choose|k: int| 0 <= k < gathered(front, f).len() && gathered(front, f)[k] == b;
        assert(r[k] == b);
    }
}

/// What the first element that satisfies `p` is known by.
pub proof fn lemma_first_such<A>(s: Seq<A>, p: spec_fn(A) -> bool)
    ensures
        match first_such(s, p) {
            Some(a) => exists|i: int|
                0 <= i < s.len() && #[trigger] s[i] == a && p(a) && (forall|j: int|
                    0 <= j < i ==> !p(#[trigger] s[j])),
            None => forall|j: int| 0 <= j < s.len() ==> !p(#[trigger] s[j]),
        },
    decreases s.len(),
{
    if s.len() > 0 {
        if p(s[0]) {
            assert(s[0] == first_such(s, p)->0);
        } else {
            let rest = s.skip(1);
            lemma_first_such(rest, p);
            match first_such(rest, p) {
                Some(a) => {
                    let i = choose|i: int|
                        0 <= i < rest.len() && #[trigger] rest[i] == a && p(a) && (forall|j: int|
                            0 <= j < i ==> !p(#[trigger] rest[j]));
                    assert(s[i + 1] == a);
                    assert forall|j: int| 0 <= j < i + 1 implies !p(#[trigger] s[j]) by {
                        if j > 0 {
                            assert(rest[j - 1] == s[j]);
                        }
                    }
                },
                None => {
                    assert forall|j: int| 0 <= j < s.len() implies !p(#[trigger] s[j]) by {
                        if j > 0 {
                            assert(rest[j - 1] == s[j]);
                        }
                    }
                },
            }
        }
    }
}

// ---------------------------------------------------------------- sorting

/// The list with `c` put behind the last element that it does not go ahead of.
pub open spec fn placed<A>(s: Seq<A>, c: A, ahead: spec_fn(A, A) -> bool) -> Seq<A>
    decreases s.len(),
{
    if s.len() == 0 || !ahead(c, s.last()) {
        s.push(c)
    } else {
        placed(s.drop_last(), c, ahead).push(s.last())
    }
}

/// The list sorted; elements of which neither goes ahead of the other keep their order.
pub open spec fn in_order<A>(s: Seq<A>, ahead: spec_fn(A, A) -> bool) -> Seq<A>
    decreases s.len(),
{
    if s.len() == 0 {
        Seq::empty()
    } else {
        placed(in_order(s.drop_last(), ahead), s.last(), ahead)
    }
}

/// `ahead` compares by some key: whatever goes ahead of an element also goes ahead of those that
/// do not go ahead of it.
pub open spec fn orders<A>(ahead: spec_fn(A, A) -> bool) -> bool {
    &&& forall|a: A, b: A| #[trigger] ahead(a, b) ==> !ahead(b, a)
    &&& forall|a: A, b: A, c: A|
        #[trigger] ahead(a, b) && !(#[trigger] ahead(c, b)) ==> ahead(a, c)
}

/// No element goes ahead of one before it.
pub open spec fn is_sorted<A>(s: Seq<A>, ahead: spec_fn(A, A) -> bool) -> bool {
    forall|i: int, j: int| 0 <= i < j < s.len() ==> !ahead(#[trigger] s[j], #[trigger] s[i])
}

/// Where `c` is put: it goes ahead of everything from `at` on, and not of what is before that.
pub proof fn lemma_placed<A>(s: Seq<A>, c: A, ahead: spec_fn(A, A) -> bool, at: int)
    requires
        0 <= at <= s.len(),
        forall|k: int| at <= k < s.len() ==> ahead(c, #[trigger] s[k]),
        at > 0 ==> !ahead(c, s[at - 1]),
    ensures
        placed(s, c, ahead) == s.insert(at, c),
    decreases s.len(),
{
    if at < s.len() {
        lemma_placed(s.drop_last(), c, ahead, at);
        assert(placed(s, c, ahead) =~= s.insert(at, c));
    } else {
        assert(s.push(c) =~= s.insert(at, c));
    }
}

proof fn lemma_placed_sorted<A>(s: Seq<A>, c: A, ahead: spec_fn(A, A) -> bool)
    requires
        orders(ahead),
        is_sorted(s, ahead),
    ensures
        is_sorted(placed(s, c, ahead), ahead),
        placed(s, c, ahead).to_multiset() == s.to_multiset().insert(c),
        forall|k: int|
            0 <= k < placed(s, c, ahead).len() ==> #[trigger] placed(s, c, ahead)[k] == c
                || s.contains(placed(s, c, ahead)[k]),
    decreases s.len(),
{
    broadcast use vstd::seq_lib::group_to_multiset_ensures;

    let r = placed(s, c, ahead);
    if s.len() == 0 || !ahead(c, s.last()) {
        assert forall|i: int, j: int| 0 <= i < j < r.len() implies !ahead(
            #[trigger] r[j],
            #[trigger] r[i],
        ) by {
            if j == s.len() && ahead(c, s[i]) {
                if i < s.len() - 1 {
                    assert(!ahead(s[s.len() - 1], s[i]));
                    assert(ahead(c, s.last()));
                }
            }
        }
        assert forall|k: int| 0 <= k < r.len() implies #[trigger] r[k] == c || s.contains(r[k]) by {
            if k < s.len() {
                assert(s[k] == r[k]);
            }
        }
    } else {
        let front = s.drop_last();
        let inner = placed(front, c, ahead);
        lemma_placed_sorted(front, c, ahead);
        assert forall|i: int, j: int| 0 <= i < j < r.len() implies !ahead(
            #[trigger] r[j],
            #[trigger] r[i],
        ) by {
            if j == inner.len() {
                assert(r[i] == inner[i]);
                if inner[i] != c {
                    let k = choose|k: int| 0 <= k < front.len() && front[k] == inner[i];
                    assert(!ahead(s[s.len() - 1], s[k]));
                }
            } else {
                assert(!ahead(inner[j], inner[i]));
            }
        }
        assert forall|k: int| 0 <= k < r.len() implies #[trigger] r[k] == c || s.contains(r[k]) by {
            if k < inner.len() {
                assert(r[k] == inner[k]);
                if inner[k] != c {
                    let m = choose|m: int| 0 <= m < front.len() && front[m] == inner[k];
                    assert(s[m] == r[k]);
                }
            } else {
                assert(s[s.len() - 1] == r[k]);
            }
        }
        assert(s =~= front.push(s.last()));
        assert(r.to_multiset() =~= s.to_multiset().insert(c));
    }
}

/// Sorting gives the same elements, none of which goes ahead of one before it.
pub proof fn lemma_in_order<A>(s: Seq<A>, ahead: spec_fn(A, A) -> bool)
    requires
        orders(ahead),
    ensures
        is_sorted(in_order(s, ahead), ahead),
        in_order(s, ahead).to_multiset() == s.to_multiset(),
    decreases s.len(),
{
    broadcast use vstd::seq_lib::group_to_multiset_ensures;

    if s.len() > 0 {
        lemma_in_order(s.drop_last(), ahead);
        lemma_placed_sorted(in_order(s.drop_last(), ahead), s.last(), ahead);
        assert(s =~= s.drop_last().push(s.last()));
    } else {
        assert(s =~= Seq::empty());
    }
}

/// Sorting neither loses nor makes up an element.
pub proof fn lemma_in_order_contains<A>(s: Seq<A>, ahead: spec_fn(A, A) -> bool)
    requires
        orders(ahead),
    ensures
        forall|x: A| #[trigger] in_order(s, ahead).contains(x) <==> s.contains(x),
{
    broadcast use vstd::seq_lib::group_to_multiset_ensures;

    lemma_in_order(s, ahead);
    assert forall|x: A| #[trigger] in_order(s, ahead).contains(x) <==> s.contains(x) by {
        assert(in_order(s, ahead).to_multiset().count(x) == s.to_multiset().count(x));
    }
}

} // verus!
