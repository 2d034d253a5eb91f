//! Putting items in order, those that rank alike in the order in which they came.

use crate::number::Real;
use vstd::prelude::*;

verus! {

/// Items that can stand one before the other.
pub trait Ranked: Sized {
    /// Whether this item has to stand before the other.
    spec fn before(self, other: Self) -> bool;

    /// Whether this item has to stand before the other.
    fn stands_before(&self, other: &Self) -> (res: bool)
        ensures
            res == self.before(*other),
    ;
}

/// Where in `done` an item goes: before the first one that it has to stand before.
pub open spec fn place<T: Ranked>(done: Seq<T>, item: T) -> int
    decreases done.len(),
{
    if done.len() == 0 || item.before(done[0]) {
        0
    } else {
        1 + place(done.skip(1), item)
    }
}

/// The items in order: each in turn goes before the first of those before it that it has to stand
/// before.
pub open spec fn arranged<T: Ranked>(items: Seq<T>) -> Seq<T>
    decreases items.len(),
{
    if items.len() == 0 {
        Seq::empty()
    } else {
        let done = arranged(items.drop_last());
        done.insert(place(done, items.last()), items.last())
    }
}

proof fn lemma_place<T: Ranked>(done: Seq<T>, item: T)
    ensures
        0 <= place(done, item) <= done.len(),
        forall|i: int| 0 <= i < place(done, item) ==> !item.before(#[trigger] done[i]),
        place(done, item) < done.len() ==> item.before(done[place(done, item)]),
    decreases done.len(),
{
    if done.len() > 0 && !item.before(done[0]) {
        let rest = done.skip(1);
        lemma_place(rest, item);
        assert forall|i: int| 0 <= i < place(done, item) implies !item.before(
            #[trigger] done[i],
        ) by {
            if i > 0 {
                assert(done[i] == rest[i - 1]);
            }
        }
        if place(done, item) < done.len() {
            assert(done[place(done, item)] == rest[place(rest, item)]);
        }
    }
}

/// Puts the items in order, those that rank alike in the order in which they came.
pub fn arrange<T: Ranked>(items: Vec<T>) -> (res: Vec<T>)
    ensures
        res@ == arranged(items@),
{
    let mut rest = items;
    let ghost all = rest@;
    let total = rest.len();
    let mut done: Vec<T> = Vec::new();
    let mut n: usize = 0;
    while rest.len() > 0
        invariant
            n <= all.len(),
            rest@ == all.skip(n as int),
            done@ == arranged(all.take(n as int)),
            done@.len() == n,
            all.len() == total,
        decreases rest.len(),
    {
        let x = rest.remove(0);
        assert(x == all[n as int]);
        assert(all.take(n + 1).drop_last() == all.take(n as int));
        let mut i: usize = 0;
        assert(done@.skip(0) == done@);
        while i < done.len() && !x.stands_before(&done[i])
            invariant
                i <= done@.len(),
                place(done@, x) == i + place(done@.skip(i as int), x),
            decreases done@.len() - i,
        {
            assert(done@.skip(i as int).skip(1) == done@.skip(i + 1));
            i += 1;
        }
        done.insert(i, x);
        n += 1;
    }
    assert(all.take(n as int) == all);
    done
}

/// Whether no item has to stand before an earlier one.
pub open spec fn in_order<T: Ranked>(items: Seq<T>) -> bool {
    forall|i: int, j: int|
        0 <= i < j < items.len() ==> !(#[trigger] items[j]).before(#[trigger] items[i])
}

/// Whether `before` ranks the items: of two at most one has to stand before the other, and what does
/// not have to stand before a second, which does not have to stand before a third, does not have to
/// stand before the third either.
pub open spec fn ranks<T: Ranked>(items: Seq<T>) -> bool {
    &&& forall|a: T, b: T|
        items.contains(a) && items.contains(b) && #[trigger] a.before(b) ==> !b.before(a)
    &&& forall|a: T, b: T, c: T|
        items.contains(a) && items.contains(b) && items.contains(c) && !(#[trigger] a.before(b))
            && !(#[trigger] b.before(c)) ==> !a.before(c)
}

/// What is put in order is the same items.
pub proof fn law_arranged_is_permutation<T: Ranked>(items: Seq<T>)
    ensures
        arranged(items).to_multiset() == items.to_multiset(),
        arranged(items).len() == items.len(),
    decreases items.len(),
{
    if items.len() > 0 {
        let front = items.drop_last();
        let done = arranged(front);
        law_arranged_is_permutation(front);
        lemma_place(done, items.last());
        vstd::seq_lib::to_multiset_insert(done, place(done, items.last()), items.last());
        assert(front.push(items.last()) == items);
        vstd::seq_lib::to_multiset_build(front, items.last());
    } else {
        assert(arranged(items) == items);
    }
}

proof fn lemma_arranged_holds<T: Ranked>(items: Seq<T>, x: T)
    requires
        arranged(items).contains(x),
    ensures
        items.contains(x),
{
    law_arranged_is_permutation(items);
    vstd::seq_lib::to_multiset_contains(items, x);
    vstd::seq_lib::to_multiset_contains(arranged(items), x);
}

proof fn lemma_ranks_front<T: Ranked>(items: Seq<T>)
    requires
        items.len() > 0,
        ranks(items),
    ensures
        ranks(items.drop_last()),
{
    let front = items.drop_last();
    assert forall|x: T| front.contains(x) implies #[trigger] items.contains(x) by {
        let i = front.index_of(x);
        assert(items[i] == x);
    }
    assert forall|a: T, b: T|
        front.contains(a) && front.contains(b) && #[trigger] a.before(b) implies !b.before(a) by {
        assert(items.contains(a) && items.contains(b));
    }
    assert forall|a: T, b: T, c: T|
        front.contains(a) && front.contains(b) && front.contains(c) && !(#[trigger] a.before(b))
            && !(#[trigger] b.before(c)) implies !a.before(c) by {
        assert(items.contains(a) && items.contains(b) && items.contains(c));
    }
}

/// What is put in order is in order.
pub proof fn law_arranged_is_in_order<T: Ranked>(items: Seq<T>)
    requires
        ranks(items),
    ensures
        in_order(arranged(items)),
    decreases items.len(),
{
    if items.len() > 0 {
        let front = items.drop_last();
        let done = arranged(front);
        let x = items.last();
        lemma_ranks_front(items);
        law_arranged_is_in_order(front);
        let p = place(done, x);
        lemma_place(done, x);
        let res = done.insert(p, x);
        assert(items[items.len() - 1] == x);
        assert forall|i: int| 0 <= i < done.len() implies items.contains(#[trigger] done[i]) by {
            lemma_arranged_holds(front, done[i]);
            let k = front.index_of(done[i]);
            assert(items[k] == done[i]);
        }
        assert forall|i: int, j: int| 0 <= i < j < res.len() implies !(#[trigger] res[j]).before(
            #[trigger] res[i],
        ) by {
            if j == p {
                assert(res[i] == done[i]);
            } else if i == p {
                assert(res[j] == done[j - 1]);
                assert(x.before(done[p]));
                assert(!done[p].before(x));
                if j - 1 > p {
                    assert(!done[j - 1].before(done[p]));
                }
            } else {
                let i0 = if i < p { i } else { i - 1 };
                let j0 = if j < p { j } else { j - 1 };
                assert(res[i] == done[i0] && res[j] == done[j0]);
            }
        }
    }
}

/// Whether two items rank alike.
pub open spec fn alike<T: Ranked>(a: T, b: T) -> bool {
    !a.before(b) && !b.before(a)
}

/// Items that rank alike keep the order in which they came.
pub proof fn law_arranged_is_stable<T: Ranked>(items: Seq<T>, x: T)
    requires
        ranks(items),
        items.contains(x),
    ensures
        arranged(items).filter(|y: T| alike(x, y)) == items.filter(|y: T| alike(x, y)),
{
    lemma_arranged_is_stable(items, items, x);
}

proof fn lemma_arranged_is_stable<T: Ranked>(items: Seq<T>, all: Seq<T>, x: T)
    requires
        ranks(all),
        all.contains(x),
        ranks(items),
        forall|y: T| items.contains(y) ==> #[trigger] all.contains(y),
    ensures
        arranged(items).filter(|y: T| alike(x, y)) == items.filter(|y: T| alike(x, y)),
    decreases items.len(),
{
    let f = |y: T| alike(x, y);
    if items.len() > 0 {
        let front = items.drop_last();
        let done = arranged(front);
        let new = items.last();
        lemma_ranks_front(items);
        assert forall|y: T| front.contains(y) implies #[trigger] all.contains(y) by {
            let k = front.index_of(y);
            assert(items[k] == y);
            assert(items.contains(y));
        }
        lemma_arranged_is_stable(front, all, x);
        law_arranged_is_in_order(front);
        let p = place(done, new);
        lemma_place(done, new);
        let head = done.take(p);
        let tail = done.skip(p);
        assert(done == head + tail);
        assert(done.insert(p, new) == head.push(new) + tail);
        Seq::filter_distributes_over_add(head, tail, f);
        Seq::filter_distributes_over_add(head.push(new), tail, f);
        Seq::filter_distributes_over_add(head, seq![new], f);
        assert(head.push(new) == head + seq![new]);
        assert(items[items.len() - 1] == new);
        assert(items.contains(new));
        assert(items == front + seq![new]);
        Seq::filter_distributes_over_add(front, seq![new], f);
        if alike(x, new) {
            assert forall|j: int| 0 <= j < tail.len() implies !f(#[trigger] tail[j]) by {
                let y = done[p + j];
                assert(done.contains(y) && done.contains(done[p]));
                lemma_arranged_holds(front, y);
                lemma_arranged_holds(front, done[p]);
                assert(all.contains(y) && all.contains(done[p]) && all.contains(new));
                assert(new.before(done[p]));
                if j > 0 {
                    assert(!y.before(done[p]));
                }
                if !x.before(y) {
                    assert(!new.before(x));
                    assert(!new.before(y));
                    assert(!y.before(done[p]) || j == 0);
                    assert(!new.before(done[p]) || j == 0);
                }
            }
            lemma_filter_none(tail, f);
            assert(seq![new].filter(f) =~= seq![new]) by {
                reveal(Seq::filter);
                assert(seq![new].drop_last() =~= Seq::<T>::empty());
            }
        } else {
            assert(seq![new].filter(f) =~= Seq::<T>::empty()) by {
                reveal(Seq::filter);
                assert(seq![new].drop_last() =~= Seq::<T>::empty());
            }
        }
    } else {
        assert(arranged(items) == items);
    }
}

proof fn lemma_filter_none<T>(s: Seq<T>, f: spec_fn(T) -> bool)
    requires
        forall|i: int| 0 <= i < s.len() ==> !f(#[trigger] s[i]),
    ensures
        s.filter(f) == Seq::<T>::empty(),
    decreases s.len(),
{
    reveal(Seq::filter);
    if s.len() > 0 {
        let front = s.drop_last();
        assert forall|i: int| 0 <= i < front.len() implies !f(#[trigger] front[i]) by {
            assert(front[i] == s[i]);
        }
        lemma_filter_none(front, f);
        assert(!f(s[s.len() - 1]));
    }
}

/// A number by which items stand in order, the lesser before the greater.
#[derive(Clone, Copy, Debug)]
pub struct Ascending {
    pub key: Real,
    pub item: usize,
}

impl Ranked for Ascending {
    open spec fn before(self, other: Self) -> bool {
        self.key.less(other.key)
    }

    fn stands_before(&self, other: &Self) -> (res: bool) {
        self.key.lt(other.key)
    }
}

/// Two numbers by which items stand in order, the greater before the lesser; the second counts where
/// the first does not tell.
#[derive(Clone, Copy, Debug)]
pub struct Descending {
    pub key: Real,
    pub second: Real,
    pub item: usize,
}

impl Ranked for Descending {
    open spec fn before(self, other: Self) -> bool {
        other.key.less(self.key) || (!self.key.less(other.key) && other.second.less(self.second))
    }

    fn stands_before(&self, other: &Self) -> (res: bool) {
        other.key.lt(self.key) || (!self.key.lt(other.key) && other.second.lt(self.second))
    }
}

/// A count by which items stand in order, the greater before the lesser.
#[derive(Clone, Copy, Debug)]
pub struct Counted {
    pub count: usize,
    pub item: i64,
}

impl Ranked for Counted {
    open spec fn before(self, other: Self) -> bool {
        self.count > other.count
    }

    fn stands_before(&self, other: &Self) -> (res: bool) {
        self.count > other.count
    }
}

/// Numbers by which items stand in order rank them, unless one is no number.
pub proof fn law_numbers_rank(up: Seq<Ascending>, down: Seq<Descending>, counts: Seq<Counted>)
    requires
        forall|i: int| 0 <= i < up.len() ==> !(#[trigger] up[i]).key.nan(),
        forall|i: int|
            0 <= i < down.len() ==> !(#[trigger] down[i]).key.nan() && !down[i].second.nan(),
    ensures
        ranks(up),
        ranks(down),
        ranks(counts),
{
}

/// Each number with its place in the list.
pub open spec fn keyed(keys: Seq<Real>) -> Seq<Ascending> {
    Seq::new(keys.len(), |i: int| Ascending { key: keys[i], item: i as usize })
}

/// The places of the numbers in a list, those of the lesser ones first.
pub open spec fn ranking(keys: Seq<Real>) -> Seq<usize> {
    arranged(keyed(keys)).map_values(|a: Ascending| a.item)
}

/// Each pair of numbers with its place in the list.
pub open spec fn keyed_pairs(keys: Seq<(Real, Real)>) -> Seq<Descending> {
    Seq::new(
        keys.len(),
        |i: int| Descending { key: keys[i].0, second: keys[i].1, item: i as usize },
    )
}

/// The places of the pairs of numbers in a list, those of the greater ones first.
pub open spec fn ranking_down(keys: Seq<(Real, Real)>) -> Seq<usize> {
    arranged(keyed_pairs(keys)).map_values(|a: Descending| a.item)
}

/// The places of the numbers in a list, those of the lesser ones first.
pub fn rank(keys: &Vec<Real>) -> (res: Vec<usize>)
    ensures
        res@ == ranking(keys@),
        res@.len() == keys@.len(),
        forall|i: int| 0 <= i < res@.len() ==> (#[trigger] res@[i]) < keys@.len(),
{
    let mut list: Vec<Ascending> = Vec::new();
    let mut i: usize = 0;
    while i < keys.len()
        invariant
            i <= keys@.len(),
            list@.len() == i,
            forall|j: int|
                0 <= j < i ==> #[trigger] list@[j] == (Ascending { key: keys@[j], item: j as usize }),
        decreases keys@.len() - i,
    {
        list.push(Ascending { key: keys[i], item: i });
        i += 1;
    }
    assert(list@ =~= keyed(keys@));
    let done = arrange(list);
    let mut out: Vec<usize> = Vec::new();
    let mut k: usize = 0;
    proof {
        law_ranking_is_permutation(keys@);
    }
    while k < done.len()
        invariant
            k <= done@.len(),
            out@.len() == k,
            forall|j: int| 0 <= j < k ==> #[trigger] out@[j] == done@[j].item,
        decreases done@.len() - k,
    {
        out.push(done[k].item);
        k += 1;
    }
    assert(out@ =~= ranking(keys@));
    out
}

/// The places of the pairs of numbers in a list, those of the greater ones first.
pub fn rank_down(keys: &Vec<(Real, Real)>) -> (res: Vec<usize>)
    ensures
        res@ == ranking_down(keys@),
        res@.len() == keys@.len(),
        forall|i: int| 0 <= i < res@.len() ==> (#[trigger] res@[i]) < keys@.len(),
{
    let mut list: Vec<Descending> = Vec::new();
    let mut i: usize = 0;
    while i < keys.len()
        invariant
            i <= keys@.len(),
            list@.len() == i,
            forall|j: int|
                0 <= j < i ==> #[trigger] list@[j] == (Descending {
                    key: keys@[j].0,
                    second: keys@[j].1,
                    item: j as usize,
                }),
        decreases keys@.len() - i,
    {
        list.push(Descending { key: keys[i].0, second: keys[i].1, item: i });
        i += 1;
    }
    assert(list@ =~= keyed_pairs(keys@));
    let done = arrange(list);
    let mut out: Vec<usize> = Vec::new();
    let mut k: usize = 0;
    proof {
        law_ranking_down_is_permutation(keys@);
    }
    while k < done.len()
        invariant
            k <= done@.len(),
            out@.len() == k,
            forall|j: int| 0 <= j < k ==> #[trigger] out@[j] == done@[j].item,
        decreases done@.len() - k,
    {
        out.push(done[k].item);
        k += 1;
    }
    assert(out@ =~= ranking_down(keys@));
    out
}

/// Each place in the list occurs once.
pub proof fn law_ranking_is_permutation(keys: Seq<Real>)
    requires
        keys.len() <= usize::MAX,
    ensures
        ranking(keys).len() == keys.len(),
        ranking(keys).no_duplicates(),
        forall|i: int| 0 <= i < keys.len() ==> (#[trigger] ranking(keys)[i]) < keys.len(),
{
    let source = keyed(keys);
    let done = arranged(source);
    law_arranged_is_permutation(source);
    assert forall|i: int| 0 <= i < keys.len() implies (#[trigger] ranking(keys)[i]) < keys.len() by {
        assert(done.contains(done[i]));
        lemma_arranged_holds(source, done[i]);
        let k = choose|k: int| 0 <= k < source.len() && source[k] == done[i];
        assert(source[k].item == k);
    }
    lemma_arranged_distinct(source, done);
    assert forall|i: int, j: int| 0 <= i < keys.len() && 0 <= j < keys.len() && i != j implies
        ranking(keys)[i] != ranking(keys)[j] by {
        assert(done.contains(done[i]) && done.contains(done[j]));
        lemma_arranged_holds(source, done[i]);
        lemma_arranged_holds(source, done[j]);
        let k = choose|k: int| 0 <= k < source.len() && source[k] == done[i];
        let m = choose|m: int| 0 <= m < source.len() && source[m] == done[j];
        assert(source[k].item == k && source[m].item == m);
        assert(done[i] != done[j]);
    }
}

/// Each place in the list occurs once.
pub proof fn law_ranking_down_is_permutation(keys: Seq<(Real, Real)>)
    requires
        keys.len() <= usize::MAX,
    ensures
        ranking_down(keys).len() == keys.len(),
        ranking_down(keys).no_duplicates(),
        forall|i: int| 0 <= i < keys.len() ==> (#[trigger] ranking_down(keys)[i]) < keys.len(),
{
    let source = keyed_pairs(keys);
    let done = arranged(source);
    law_arranged_is_permutation(source);
    assert forall|i: int| 0 <= i < keys.len() implies (#[trigger] ranking_down(keys)[i])
        < keys.len() by {
        assert(done.contains(done[i]));
        lemma_arranged_holds(source, done[i]);
        let k = choose|k: int| 0 <= k < source.len() && source[k] == done[i];
        assert(source[k].item == k);
    }
    lemma_arranged_distinct(source, done);
    assert forall|i: int, j: int| 0 <= i < keys.len() && 0 <= j < keys.len() && i != j implies
        ranking_down(keys)[i] != ranking_down(keys)[j] by {
        assert(done.contains(done[i]) && done.contains(done[j]));
        lemma_arranged_holds(source, done[i]);
        lemma_arranged_holds(source, done[j]);
        let k = choose|k: int| 0 <= k < source.len() && source[k] == done[i];
        let m = choose|m: int| 0 <= m < source.len() && source[m] == done[j];
        assert(source[k].item == k && source[m].item == m);
        assert(done[i] != done[j]);
    }
}

proof fn lemma_arranged_distinct<T: Ranked>(source: Seq<T>, done: Seq<T>)
    requires
        done == arranged(source),
        forall|i: int, j: int|
            0 <= i < source.len() && 0 <= j < source.len() && i != j ==> source[i] != source[j],
    ensures
        done.no_duplicates(),
{
    law_arranged_is_permutation(source);
    source.lemma_multiset_has_no_duplicates();
    done.lemma_multiset_has_no_duplicates_conv();
}

/// Of two numbers that rank one after the other, the first is not the greater, unless one of the
/// numbers in the list is none.
pub proof fn law_ranking_is_in_order(keys: Seq<Real>)
    requires
        keys.len() <= usize::MAX,
        forall|i: int| 0 <= i < keys.len() ==> !(#[trigger] keys[i]).nan(),
    ensures
        forall|i: int, j: int|
            0 <= i < j < keys.len() ==> keys[(#[trigger] ranking(keys)[i]) as int].at_most(
                keys[(#[trigger] ranking(keys)[j]) as int],
            ),
{
    let source = keyed(keys);
    let done = arranged(source);
    law_numbers_rank(source, Seq::empty(), Seq::empty());
    law_arranged_is_in_order(source);
    law_arranged_is_permutation(source);
    assert forall|i: int, j: int| 0 <= i < j < keys.len() implies keys[(
    #[trigger] ranking(keys)[i]) as int].at_most(keys[(#[trigger] ranking(keys)[j]) as int]) by {
        assert(done.contains(done[i]) && done.contains(done[j]));
        lemma_arranged_holds(source, done[i]);
        lemma_arranged_holds(source, done[j]);
        let k = choose|k: int| 0 <= k < source.len() && source[k] == done[i];
        let m = choose|m: int| 0 <= m < source.len() && source[m] == done[j];
        assert(source[k].item == k && source[m].item == m);
        assert(!done[j].before(done[i]));
    }
}

/// Whether a pair of numbers has to stand before another: its first number is the greater one, or does
/// not tell and its second one is.
pub open spec fn outranks(a: (Real, Real), b: (Real, Real)) -> bool {
    b.0.less(a.0) || (!a.0.less(b.0) && b.1.less(a.1))
}

/// Of two pairs of numbers that rank one after the other, the latter does not have to stand before the
/// former, and its first number is not the greater, unless one of the numbers in the list is none.
pub proof fn law_ranking_down_is_in_order(keys: Seq<(Real, Real)>)
    requires
        keys.len() <= usize::MAX,
        forall|i: int|
            0 <= i < keys.len() ==> !(#[trigger] keys[i]).0.nan() && !keys[i].1.nan(),
    ensures
        forall|i: int, j: int|
            0 <= i < j < keys.len() ==> keys[(#[trigger] ranking_down(keys)[j]) as int].0.at_most(
                keys[(#[trigger] ranking_down(keys)[i]) as int].0,
            ) && !outranks(keys[ranking_down(keys)[j] as int], keys[ranking_down(keys)[i] as int]),
{
    let source = keyed_pairs(keys);
    let done = arranged(source);
    law_numbers_rank(Seq::empty(), source, Seq::empty());
    law_arranged_is_in_order(source);
    law_arranged_is_permutation(source);
    assert forall|i: int, j: int| 0 <= i < j < keys.len() implies keys[(
    #[trigger] ranking_down(keys)[j]) as int].0.at_most(
        keys[(#[trigger] ranking_down(keys)[i]) as int].0,
    ) && !outranks(keys[ranking_down(keys)[j] as int], keys[ranking_down(keys)[i] as int]) by {
        assert(done.contains(done[i]) && done.contains(done[j]));
        lemma_arranged_holds(source, done[i]);
        lemma_arranged_holds(source, done[j]);
        let k = choose|k: int| 0 <= k < source.len() && source[k] == done[i];
        let m = choose|m: int| 0 <= m < source.len() && source[m] == done[j];
        assert(source[k].item == k && source[m].item == m);
        assert(!done[j].before(done[i]));
    }
}

/// There are no more different places than the list has.
pub proof fn law_places_are_few(places: Seq<int>, n: nat)
    requires
        places.no_duplicates(),
        forall|i: int| 0 <= i < places.len() ==> 0 <= #[trigger] places[i] < n,
    ensures
        places.len() <= n,
{
    places.unique_seq_to_set();
    vstd::set_lib::lemma_int_range(0, n as int);
    let all = vstd::set_lib::set_int_range(0, n as int);
    assert forall|x: int| places.to_set().contains(x) implies #[trigger] all.contains(x) by {
        let k = choose|k: int| 0 <= k < places.len() && places[k] == x;
        assert(0 <= places[k] < n);
    }
    vstd::set_lib::lemma_len_subset(places.to_set(), all);
}

/// Among the first so many pairs that rank, none ranks below one that was left out.
pub proof fn law_first_ranked_down_are_best(keys: Seq<(Real, Real)>, n: int, m: int)
    requires
        keys.len() <= usize::MAX,
        forall|i: int|
            0 <= i < keys.len() ==> !(#[trigger] keys[i]).0.nan() && !keys[i].1.nan(),
        0 <= n <= keys.len(),
        0 <= m < keys.len(),
    ensures
        ranking_down(keys).contains(m as usize),
        !ranking_down(keys).take(n).contains(m as usize) ==> forall|i: int|
            0 <= i < n ==> !outranks(keys[m], keys[(#[trigger] ranking_down(keys)[i]) as int]),
{
    law_ranking_down_is_permutation(keys);
    law_ranking_down_is_in_order(keys);
    let order = ranking_down(keys);
    let w = Seq::new(keys.len(), |i: int| order[i] as int);
    assert forall|i: int| 0 <= i < w.len() implies 0 <= #[trigger] w[i] < w.len() by {
        assert(order[i] < keys.len());
    }
    assert forall|i: int, j: int| 0 <= i < w.len() && 0 <= j < w.len() && i != j implies w[i]
        != w[j] by {
        assert(order[i] != order[j]);
    }
    lemma_covers(w, m);
    let k = choose|k: int| 0 <= k < w.len() && w[k] == m;
    assert(order[k] == m as usize);
    if !order.take(n).contains(m as usize) {
        if k < n {
            assert(order.take(n)[k] == m as usize);
        }
        assert forall|i: int| 0 <= i < n implies !outranks(
            keys[m],
            keys[(#[trigger] order[i]) as int],
        ) by {
            assert(!outranks(keys[order[k] as int], keys[order[i] as int]));
        }
    }
}

/// Among the first so many numbers that rank, none is greater than one that was left out.
pub proof fn law_first_ranked_are_best(keys: Seq<Real>, n: int, m: int)
    requires
        keys.len() <= usize::MAX,
        forall|i: int| 0 <= i < keys.len() ==> !(#[trigger] keys[i]).nan(),
        0 <= n <= keys.len(),
        0 <= m < keys.len(),
    ensures
        ranking(keys).contains(m as usize),
        !ranking(keys).take(n).contains(m as usize) ==> forall|i: int|
            0 <= i < n ==> keys[(#[trigger] ranking(keys)[i]) as int].at_most(keys[m]),
{
    law_ranking_is_permutation(keys);
    law_ranking_is_in_order(keys);
    let order = ranking(keys);
    let w = Seq::new(keys.len(), |i: int| order[i] as int);
    assert forall|i: int| 0 <= i < w.len() implies 0 <= #[trigger] w[i] < w.len() by {
        assert(order[i] < keys.len());
    }
    assert forall|i: int, j: int| 0 <= i < w.len() && 0 <= j < w.len() && i != j implies w[i]
        != w[j] by {
        assert(order[i] != order[j]);
    }
    lemma_covers(w, m);
    let k = choose|k: int| 0 <= k < w.len() && w[k] == m;
    assert(order[k] == m as usize);
    if !order.take(n).contains(m as usize) {
        if k < n {
            assert(order.take(n)[k] == m as usize);
        }
        assert forall|i: int| 0 <= i < n implies keys[(#[trigger] order[i]) as int].at_most(
            keys[m],
        ) by {
            assert(keys[order[i] as int].at_most(keys[order[k] as int]));
        }
    }
}

/// Where there are as many different places as the list has, every place is among them.
pub proof fn law_every_place_occurs(places: Seq<int>, n: nat, m: int)
    requires
        rearranges(places, n),
        0 <= m < n,
    ensures
        places.contains(m),
{
    lemma_covers(places, m);
}

proof fn lemma_covers(s: Seq<int>, m: int)
    requires
        s.no_duplicates(),
        forall|i: int| 0 <= i < s.len() ==> 0 <= #[trigger] s[i] < s.len(),
        0 <= m < s.len(),
    ensures
        s.contains(m),
{
    let n = s.len() as int;
    s.unique_seq_to_set();
    vstd::seq_lib::seq_to_set_is_finite(s);
    vstd::set_lib::lemma_int_range(0, n);
    assert forall|x: int| s.to_set().contains(x) implies #[trigger] vstd::set_lib::set_int_range(
        0,
        n,
    ).contains(x) by {
        let k = choose|k: int| 0 <= k < s.len() && s[k] == x;
        assert(0 <= s[k] < s.len());
    }
    vstd::set_lib::lemma_subset_equality(s.to_set(), vstd::set_lib::set_int_range(0, n));
    assert(s.to_set().contains(m));
}

proof fn lemma_falling_is_unique(a: Seq<int>, b: Seq<int>)
    requires
        a.len() == b.len(),
        forall|i: int, j: int| 0 <= i < j < a.len() ==> #[trigger] a[j] < #[trigger] a[i],
        forall|i: int, j: int| 0 <= i < j < b.len() ==> #[trigger] b[j] < #[trigger] b[i],
        forall|i: int| 0 <= i < a.len() ==> b.contains(#[trigger] a[i]),
        forall|i: int| 0 <= i < b.len() ==> a.contains(#[trigger] b[i]),
    ensures
        a == b,
    decreases a.len(),
{
    if a.len() > 0 {
        assert(b.contains(a[0]) && a.contains(b[0]));
        let p = choose|p: int| 0 <= p < b.len() && b[p] == a[0];
        let q = choose|q: int| 0 <= q < a.len() && a[q] == b[0];
        assert(a[0] == b[0]);
        let x = a.skip(1);
        let y = b.skip(1);
        assert forall|i: int| 0 <= i < x.len() implies y.contains(#[trigger] x[i]) by {
            assert(x[i] == a[i + 1]);
            let k = choose|k: int| 0 <= k < b.len() && b[k] == a[i + 1];
            assert(k > 0);
            assert(y[k - 1] == x[i]);
        }
        assert forall|i: int| 0 <= i < y.len() implies x.contains(#[trigger] y[i]) by {
            assert(y[i] == b[i + 1]);
            let k = choose|k: int| 0 <= k < a.len() && a[k] == b[i + 1];
            assert(k > 0);
            assert(x[k - 1] == y[i]);
        }
        lemma_falling_is_unique(x, y);
        assert(a =~= seq![a[0]] + x);
        assert(b =~= seq![b[0]] + y);
    } else {
        assert(a =~= b);
    }
}

/// Whether `places` holds each place of a list of so many items once.
pub open spec fn rearranges(places: Seq<int>, n: nat) -> bool {
    &&& places.len() == n
    &&& places.no_duplicates()
    &&& forall|i: int| 0 <= i < places.len() ==> 0 <= #[trigger] places[i] < n
}

/// Pairs whose first numbers all differ rank in the same order wherever they stand in the list.
pub proof fn law_ranking_down_ignores_arrival(
    keys: Seq<(Real, Real)>,
    again: Seq<(Real, Real)>,
    places: Seq<int>,
)
    requires
        keys.len() <= usize::MAX,
        rearranges(places, keys.len()),
        again.len() == keys.len(),
        forall|i: int| 0 <= i < keys.len() ==> #[trigger] again[i] == keys[places[i]],
        forall|i: int|
            0 <= i < keys.len() ==> !(#[trigger] keys[i]).0.nan() && !keys[i].1.nan(),
        forall|i: int, j: int|
            0 <= i < j < keys.len() ==> (#[trigger] keys[i]).0.rank() != (
            #[trigger] keys[j]).0.rank(),
    ensures
        forall|i: int|
            0 <= i < keys.len() ==> places[(#[trigger] ranking_down(again)[i]) as int]
                == ranking_down(keys)[i],
{
    let n = keys.len() as int;
    let first = ranking_down(keys);
    let second = ranking_down(again);
    assert forall|i: int| 0 <= i < n implies !(#[trigger] again[i]).0.nan() && !again[i].1.nan() by {
        assert(0 <= places[i] < n);
        assert(!keys[places[i]].0.nan());
    }
    law_ranking_down_is_permutation(keys);
    law_ranking_down_is_permutation(again);
    law_ranking_down_is_in_order(keys);
    law_ranking_down_is_in_order(again);
    let u = Seq::new(n as nat, |i: int| first[i] as int);
    let w = Seq::new(n as nat, |i: int| second[i] as int);
    let v = Seq::new(n as nat, |i: int| places[second[i] as int]);
    let a = Seq::new(n as nat, |i: int| keys[u[i]].0.rank());
    let b = Seq::new(n as nat, |i: int| keys[v[i]].0.rank());
    assert forall|i: int| 0 <= i < n implies 0 <= #[trigger] u[i] < n by {
        assert(first[i] < n);
    }
    assert forall|i: int| 0 <= i < n implies 0 <= #[trigger] w[i] < n by {
        assert(second[i] < n);
    }
    assert forall|i: int| 0 <= i < n implies 0 <= #[trigger] v[i] < n by {
        assert(0 <= w[i] < n);
        assert(0 <= places[w[i]] < n);
    }
    assert forall|i: int, j: int| 0 <= i < n && 0 <= j < n && i != j implies u[i] != u[j] by {
        assert(first[i] != first[j]);
    }
    assert forall|i: int, j: int| 0 <= i < n && 0 <= j < n && i != j implies w[i] != w[j] by {
        assert(second[i] != second[j]);
    }
    assert(u.no_duplicates());
    assert(w.no_duplicates());
    assert forall|i: int, j: int| 0 <= i < j < n implies #[trigger] a[j] < #[trigger] a[i] by {
        assert(keys[first[j] as int].0.at_most(keys[first[i] as int].0));
        assert(u[i] != u[j]);
        assert(keys[u[i]].0.rank() != keys[u[j]].0.rank());
    }
    assert forall|i: int, j: int| 0 <= i < j < n implies #[trigger] b[j] < #[trigger] b[i] by {
        assert(again[second[j] as int].0.at_most(again[second[i] as int].0));
        assert(again[w[i]] == keys[v[i]] && again[w[j]] == keys[v[j]]);
        assert(w[i] != w[j]);
        assert(places[w[i]] != places[w[j]]);
        assert(keys[v[i]].0.rank() != keys[v[j]].0.rank());
    }
    assert forall|i: int| 0 <= i < n implies b.contains(#[trigger] a[i]) by {
        lemma_covers(places, u[i]);
        let t = choose|t: int| 0 <= t < n && places[t] == u[i];
        lemma_covers(w, t);
        let k = choose|k: int| 0 <= k < n && w[k] == t;
        assert(b[k] == a[i]);
    }
    assert forall|i: int| 0 <= i < n implies a.contains(#[trigger] b[i]) by {
        lemma_covers(u, v[i]);
        let k = choose|k: int| 0 <= k < n && u[k] == v[i];
        assert(a[k] == b[i]);
    }
    lemma_falling_is_unique(a, b);
    assert forall|i: int| 0 <= i < n implies places[(#[trigger] second[i]) as int] == first[i] by {
        assert(a[i] == b[i]);
        assert(v[i] == places[second[i] as int]);
        if u[i] != v[i] {
            assert(keys[u[i]].0.rank() != keys[v[i]].0.rank());
        }
    }
}

} // verus!
