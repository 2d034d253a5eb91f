//! Taking some of the items of a list, in their order.

use vstd::prelude::*;

verus! {

/// Whether `places` are the places below `n` for which `f` gives something, from the first on, and `res`
/// holds what it gives there.
pub open spec fn selects<B>(
    n: int,
    f: spec_fn(int) -> Option<B>,
    res: Seq<B>,
    places: Seq<int>,
) -> bool {
    &&& places.len() == res.len()
    &&& forall|k: int|
        0 <= k < places.len() ==> 0 <= #[trigger] places[k] < n && f(places[k]) == Some(res[k])
    &&& forall|j: int, k: int|
        0 <= j < k < places.len() ==> #[trigger] places[j] < #[trigger] places[k]
    &&& forall|i: int| 0 <= i < n && (#[trigger] f(i)) is Some ==> places.contains(i)
}

/// Whether `res` holds, in their order, all that `f` gives for the places below `n`, and nothing else.
pub open spec fn selected<B>(n: int, f: spec_fn(int) -> Option<B>, res: Seq<B>) -> bool {
    exists|places: Seq<int>| #[trigger] selects(n, f, res, places)
}

/// Nothing is selected of no places.
pub proof fn lemma_selected_none<B>(f: spec_fn(int) -> Option<B>)
    ensures
        selected(0, f, Seq::<B>::empty()),
{
    assert(selects(0, f, Seq::<B>::empty(), Seq::<int>::empty()));
}

/// What is selected of one place more.
pub proof fn lemma_selected_next<B>(n: int, f: spec_fn(int) -> Option<B>, res: Seq<B>)
    requires
        n >= 0,
        selected(n, f, res),
    ensures
        f(n) matches Some(b) ==> selected(n + 1, f, res.push(b)),
        f(n) is None ==> selected(n + 1, f, res),
{
    let places = choose|places: Seq<int>| #[trigger] selects(n, f, res, places);
    match f(n) {
        Some(b) => {
            let more = places.push(n);
            assert forall|i: int| 0 <= i < n + 1 && (#[trigger] f(i)) is Some implies more.contains(
                i,
            ) by {
                if i < n {
                    assert(places.contains(i));
                    let k = choose|k: int| 0 <= k < places.len() && places[k] == i;
                    assert(more[k] == i);
                } else {
                    assert(more[places.len() as int] == n);
                }
            }
            assert(selects(n + 1, f, res.push(b), more));
        },
        None => {
            assert(selects(n + 1, f, res, places));
        },
    }
}

/// What is selected is determined: two lists that hold all that `f` gives are the same.
pub proof fn law_selection_is_unique<B>(
    n: int,
    f: spec_fn(int) -> Option<B>,
    a: Seq<B>,
    b: Seq<B>,
)
    requires
        n >= 0,
        selected(n, f, a),
        selected(n, f, b),
    ensures
        a == b,
    decreases n,
{
    let p = choose|p: Seq<int>| #[trigger] selects(n, f, a, p);
    let q = choose|q: Seq<int>| #[trigger] selects(n, f, b, q);
    if n == 0 {
        if p.len() > 0 {
            assert(0 <= p[0] < n);
        }
        if q.len() > 0 {
            assert(0 <= q[0] < n);
        }
        assert(a =~= b);
    } else {
        lemma_selected_shorter(n, f, a, p);
        lemma_selected_shorter(n, f, b, q);
        if f(n - 1) is Some {
            law_selection_is_unique(n - 1, f, a.drop_last(), b.drop_last());
            assert(a =~= a.drop_last().push(a.last()));
            assert(b =~= b.drop_last().push(b.last()));
        } else {
            law_selection_is_unique(n - 1, f, a, b);
        }
    }
}

proof fn lemma_selected_shorter<B>(
    n: int,
    f: spec_fn(int) -> Option<B>,
    res: Seq<B>,
    places: Seq<int>,
)
    requires
        n >= 1,
        selects(n, f, res, places),
    ensures
        f(n - 1) matches Some(b) ==> res.len() > 0 && res.last() == b && selected(
            n - 1,
            f,
            res.drop_last(),
        ),
        f(n - 1) is None ==> selected(n - 1, f, res),
{
    match f(n - 1) {
        Some(b) => {
            assert(places.contains(n - 1));
            let k = choose|k: int| 0 <= k < places.len() && places[k] == n - 1;
            let last = places.len() - 1;
            if k < last {
                assert(places[k] < places[last]);
                assert(places[last] < n);
            }
            let less = places.drop_last();
            assert forall|i: int| 0 <= i < n - 1 && (#[trigger] f(i)) is Some implies less.contains(
                i,
            ) by {
                assert(places.contains(i));
                let j = choose|j: int| 0 <= j < places.len() && places[j] == i;
                assert(less[j] == i);
            }
            assert forall|j: int| 0 <= j < less.len() implies 0 <= #[trigger] less[j] < n - 1 && f(
                less[j],
            ) == Some(res.drop_last()[j]) by {
                assert(places[j] < places[last]);
            }
            assert(selects(n - 1, f, res.drop_last(), less));
        },
        None => {
            assert forall|j: int| 0 <= j < places.len() implies 0 <= #[trigger] places[j] < n - 1
                && f(places[j]) == Some(res[j]) by {}
            assert(selects(n - 1, f, res, places));
        },
    }
}

} // verus!
