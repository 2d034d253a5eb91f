//! What the bot remembers of events: which of them come to mind, grow stronger, or are forgotten.

use crate::config::Config;
use crate::memory::MemorySystem;
use crate::number::Real;
use crate::order::{
    law_every_place_occurs, law_first_ranked_are_best, law_places_are_few, law_ranking_is_in_order,
    law_ranking_is_permutation, rank, ranking,
};
use crate::text::{int_text, own, same, unsigned_text, views};
use crate::util::{f32_to_le_bytes, vector_bytes};
use crate::select::{lemma_selected_next, lemma_selected_none, selected};
use vstd::prelude::*;
use vstd::string::*;

verus! {

/// An event in the store.
pub struct EventRowView {
    pub id: Seq<char>,
    pub text: Seq<char>,
    pub mem_type: Seq<char>,
    pub weight: i64,
    pub created_at: Real,
}

/// An event in the store.
#[derive(Debug)]
pub struct EventRow {
    pub id: String,
    pub text: String,
    pub mem_type: String,
    pub weight: i64,
    pub created_at: Real,
}

impl View for EventRow {
    type V = EventRowView;

    open spec fn view(&self) -> EventRowView {
        EventRowView {
            id: self.id@,
            text: self.text@,
            mem_type: self.mem_type@,
            weight: self.weight,
            created_at: self.created_at,
        }
    }
}

/// The views of a list of events.
pub open spec fn row_views(rows: Seq<EventRow>) -> Seq<EventRowView> {
    rows.map_values(|r: EventRow| r@)
}

/// How far an event is from what is asked for: by its vector alone, with the penalty for its age,
/// and that penalty.
#[derive(Clone, Copy, Debug)]
pub struct Score {
    pub distance: Real,
    pub adjusted: Real,
    pub penalty: Real,
}

/// An event that comes to mind.
pub struct EventMemoryView {
    pub id: Seq<char>,
    pub text: Seq<char>,
    pub mem_type: Seq<char>,
    pub weight: i64,
    pub created_at: Real,
    pub distance: Real,
    pub adjusted_distance: Real,
    pub time_penalty: Real,
}

/// An event that comes to mind.
#[derive(Debug)]
pub struct EventMemory {
    pub id: String,
    pub text: String,
    pub mem_type: String,
    pub weight: i64,
    pub created_at: Real,
    pub distance: Real,
    pub adjusted_distance: Real,
    pub time_penalty: Real,
}

impl View for EventMemory {
    type V = EventMemoryView;

    open spec fn view(&self) -> EventMemoryView {
        EventMemoryView {
            id: self.id@,
            text: self.text@,
            mem_type: self.mem_type@,
            weight: self.weight,
            created_at: self.created_at,
            distance: self.distance,
            adjusted_distance: self.adjusted_distance,
            time_penalty: self.time_penalty,
        }
    }
}

/// The views of a list of events that come to mind.
pub open spec fn memory_views(items: Seq<EventMemory>) -> Seq<EventMemoryView> {
    items.map_values(|m: EventMemory| m@)
}

/// The first event with this id; the number of events where there is none.
pub open spec fn row_with(rows: Seq<EventRowView>, id: Seq<char>) -> int
    decreases rows.len(),
{
    if rows.len() == 0 || rows[0].id == id {
        0
    } else {
        1 + row_with(rows.skip(1), id)
    }
}

/// The place of the first event in mind with this id; their number where there is none.
pub open spec fn memory_with(items: Seq<EventMemoryView>, id: Seq<char>) -> int
    decreases items.len(),
{
    if items.len() == 0 || items[0].id == id {
        0
    } else {
        1 + memory_with(items.skip(1), id)
    }
}

/// An event with its score.
pub open spec fn recollection(row: EventRowView, score: Score) -> EventMemoryView {
    EventMemoryView {
        id: row.id,
        text: row.text,
        mem_type: row.mem_type,
        weight: row.weight,
        created_at: row.created_at,
        distance: score.distance,
        adjusted_distance: score.adjusted,
        time_penalty: score.penalty,
    }
}

/// The events in mind after one more: an event that is among them already keeps the lesser of its
/// distances, another one comes behind the last.
pub open spec fn recalled(
    items: Seq<EventMemoryView>,
    rows: Seq<EventRowView>,
    id: Seq<char>,
    score: Score,
) -> Seq<EventMemoryView> {
    let k = memory_with(items, id);
    if k < items.len() {
        if score.adjusted.less(items[k].adjusted_distance) {
            items.update(
                k,
                EventMemoryView {
                    distance: score.distance,
                    adjusted_distance: score.adjusted,
                    time_penalty: score.penalty,
                    ..items[k]
                },
            )
        } else {
            items
        }
    } else {
        items.push(recollection(rows[row_with(rows, id)], score))
    }
}

/// The adjusted distances.
pub open spec fn adjusted(scores: Seq<Score>) -> Seq<Real> {
    scores.map_values(|s: Score| s.adjusted)
}

/// The first `n` items, or all where there are fewer.
pub open spec fn first_of<T>(s: Seq<T>, n: int) -> Seq<T> {
    if s.len() > n {
        s.take(n)
    } else {
        s
    }
}

/// The events in mind after those at the given places.
pub open spec fn recalled_all(
    items: Seq<EventMemoryView>,
    rows: Seq<EventRowView>,
    scores: Seq<Score>,
    places: Seq<usize>,
) -> Seq<EventMemoryView>
    decreases places.len(),
{
    if places.len() == 0 {
        items
    } else {
        let at = places.last() as int;
        recalled(
            recalled_all(items, rows, scores, places.drop_last()),
            rows,
            rows[at].id,
            scores[at],
        )
    }
}

/// The events that come to mind for several questions: for each of them the nearest ones, twice as
/// many as are asked for.
pub open spec fn gathered(
    rows: Seq<EventRowView>,
    questions: Seq<Seq<Score>>,
    n: int,
) -> Seq<EventMemoryView>
    decreases questions.len(),
{
    if questions.len() == 0 {
        Seq::empty()
    } else {
        recalled_all(
            gathered(rows, questions.drop_last(), n),
            rows,
            questions.last(),
            first_of(ranking(adjusted(questions.last())), 2 * n),
        )
    }
}

/// The adjusted distances of the events in mind.
pub open spec fn memory_keys(items: Seq<EventMemoryView>) -> Seq<Real> {
    items.map_values(|m: EventMemoryView| m.adjusted_distance)
}

/// The nearest of the events that come to mind, the nearest first.
pub open spec fn nearest(
    rows: Seq<EventRowView>,
    questions: Seq<Seq<Score>>,
    n: int,
) -> Seq<EventMemoryView> {
    let items = gathered(rows, questions, n);
    first_of(ranking(memory_keys(items)), n).map_values(|i: usize| items[i as int])
}

proof fn lemma_row_with(rows: Seq<EventRowView>, id: Seq<char>)
    ensures
        0 <= row_with(rows, id) <= rows.len(),
        row_with(rows, id) < rows.len() ==> rows[row_with(rows, id)].id == id,
        forall|i: int| 0 <= i < row_with(rows, id) ==> (#[trigger] rows[i]).id != id,
    decreases rows.len(),
{
    if rows.len() > 0 && rows[0].id != id {
        let rest = rows.skip(1);
        lemma_row_with(rest, id);
        assert forall|i: int| 0 <= i < row_with(rows, id) implies (#[trigger] rows[i]).id != id by {
            if i > 0 {
                assert(rows[i] == rest[i - 1]);
            }
        }
    }
}

proof fn lemma_memory_with(items: Seq<EventMemoryView>, id: Seq<char>)
    ensures
        0 <= memory_with(items, id) <= items.len(),
        memory_with(items, id) < items.len() ==> items[memory_with(items, id)].id == id,
        forall|i: int| 0 <= i < memory_with(items, id) ==> (#[trigger] items[i]).id != id,
    decreases items.len(),
{
    if items.len() > 0 && items[0].id != id {
        let rest = items.skip(1);
        lemma_memory_with(rest, id);
        assert forall|i: int| 0 <= i < memory_with(items, id) implies (#[trigger] items[i]).id
            != id by {
            if i > 0 {
                assert(items[i] == rest[i - 1]);
            }
        }
    }
}

fn find_row(rows: &Vec<EventRow>, id: &str) -> (res: usize)
    ensures
        res == row_with(row_views(rows@), id@),
{
    let ghost all = row_views(rows@);
    let mut i: usize = 0;
    assert(all.skip(0) == all);
    while i < rows.len() && !same(rows[i].id.as_str(), id)
        invariant
            all == row_views(rows@),
            i <= rows@.len(),
            row_with(all, id@) == i + row_with(all.skip(i as int), id@),
        decreases rows@.len() - i,
    {
        assert(all.skip(i as int).skip(1) == all.skip(i + 1));
        i += 1;
    }
    i
}

fn find_memory(items: &Vec<EventMemory>, id: &str) -> (res: usize)
    ensures
        res == memory_with(memory_views(items@), id@),
{
    let ghost all = memory_views(items@);
    let mut i: usize = 0;
    assert(all.skip(0) == all);
    while i < items.len() && !same(items[i].id.as_str(), id)
        invariant
            all == memory_views(items@),
            i <= items@.len(),
            memory_with(all, id@) == i + memory_with(all.skip(i as int), id@),
        decreases items@.len() - i,
    {
        assert(all.skip(i as int).skip(1) == all.skip(i + 1));
        i += 1;
    }
    i
}

fn copy_memory(m: &EventMemory) -> (res: EventMemory)
    ensures
        res@ == m@,
{
    EventMemory {
        id: own(m.id.as_str()),
        text: own(m.text.as_str()),
        mem_type: own(m.mem_type.as_str()),
        weight: m.weight,
        created_at: m.created_at,
        distance: m.distance,
        adjusted_distance: m.adjusted_distance,
        time_penalty: m.time_penalty,
    }
}

fn recall(items: &mut Vec<EventMemory>, rows: &Vec<EventRow>, at: usize, score: Score)
    requires
        at < rows@.len(),
    ensures
        memory_views(final(items)@) == recalled(
            memory_views(old(items)@),
            row_views(rows@),
            rows@[at as int].id@,
            score,
        ),
{
    let ghost before = memory_views(items@);
    let ghost all = row_views(rows@);
    let k = find_memory(items, rows[at].id.as_str());
    if k < items.len() {
        if score.adjusted.lt(items[k].adjusted_distance) {
            let old_item = copy_memory(&items[k]);
            let item = EventMemory {
                distance: score.distance,
                adjusted_distance: score.adjusted,
                time_penalty: score.penalty,
                ..old_item
            };
            let ghost new = item@;
            items.set(k, item);
            assert(memory_views(items@) =~= before.update(k as int, new));
        }
    } else {
        let j = find_row(rows, rows[at].id.as_str());
        proof {
            lemma_memory_with(before, rows@[at as int].id@);
            lemma_row_with(all, rows@[at as int].id@);
            assert(all[at as int].id == rows@[at as int].id@);
        }
        let row = &rows[j];
        let item = EventMemory {
            id: own(row.id.as_str()),
            text: own(row.text.as_str()),
            mem_type: own(row.mem_type.as_str()),
            weight: row.weight,
            created_at: row.created_at,
            distance: score.distance,
            adjusted_distance: score.adjusted,
            time_penalty: score.penalty,
        };
        let ghost new = item@;
        assert(new == recollection(all[j as int], score));
        items.push(item);
        assert(memory_views(items@) =~= before.push(new));
    }
}

/// The scores of the questions.
pub open spec fn question_scores(questions: Seq<Vec<Score>>) -> Seq<Seq<Score>> {
    questions.map_values(|q: Vec<Score>| q@)
}

fn gather(rows: &Vec<EventRow>, questions: &Vec<Vec<Score>>, n: usize) -> (res: Vec<EventMemory>)
    requires
        forall|q: int|
            0 <= q < questions@.len() ==> (#[trigger] questions@[q])@.len() == rows@.len(),
    ensures
        memory_views(res@) == gathered(row_views(rows@), question_scores(questions@), n as int),
{
    let ghost all_rows = row_views(rows@);
    let ghost all = question_scores(questions@);
    let mut items: Vec<EventMemory> = Vec::new();
    let mut q: usize = 0;
    assert(memory_views(items@) =~= Seq::empty());
    while q < questions.len()
        invariant
            all_rows == row_views(rows@),
            all == question_scores(questions@),
            forall|q: int|
                0 <= q < questions@.len() ==> (#[trigger] questions@[q])@.len() == rows@.len(),
            q <= questions@.len(),
            memory_views(items@) == gathered(all_rows, all.take(q as int), n as int),
        decreases questions@.len() - q,
    {
        assert(all.take(q + 1).drop_last() == all.take(q as int));
        let scores = &questions[q];
        let ghost start = memory_views(items@);
        let mut keys: Vec<Real> = Vec::new();
        let mut i: usize = 0;
        while i < scores.len()
            invariant
                i <= scores@.len(),
                keys@.len() == i,
                forall|j: int| 0 <= j < i ==> #[trigger] keys@[j] == scores@[j].adjusted,
            decreases scores@.len() - i,
        {
            keys.push(scores[i].adjusted);
            i += 1;
        }
        assert(keys@ =~= adjusted(scores@));
        let places = rank(&keys);
        let limit: usize = if n < places.len() && n < places.len() - n {
            n + n
        } else {
            places.len()
        };
        let ghost chosen = first_of(ranking(adjusted(scores@)), 2 * n);
        assert(chosen =~= places@.take(limit as int));
        let mut k: usize = 0;
        while k < limit
            invariant
                all_rows == row_views(rows@),
                scores@.len() == rows@.len(),
                places@.len() == scores@.len(),
                forall|i: int| 0 <= i < places@.len() ==> (#[trigger] places@[i]) < rows@.len(),
                k <= limit <= places@.len(),
                chosen == places@.take(limit as int),
                memory_views(items@) == recalled_all(
                    start,
                    all_rows,
                    scores@,
                    chosen.take(k as int),
                ),
            decreases limit - k,
        {
            assert(chosen.take(k + 1).drop_last() == chosen.take(k as int));
            let at = places[k];
            assert(all_rows[at as int].id == rows@[at as int].id@);
            recall(&mut items, rows, at, scores[at]);
            k += 1;
        }
        assert(chosen.take(k as int) == chosen);
        q += 1;
    }
    assert(all.take(q as int) == all);
    items
}

impl MemorySystem {
    /// The nearest of the events that come to mind, the nearest first. `questions` holds for each
    /// question the scores of all events.
    pub fn em_query(rows: &Vec<EventRow>, questions: &Vec<Vec<Score>>, n_results: usize) -> (res: Vec<
        EventMemory,
    >)
        requires
            forall|q: int|
                0 <= q < questions@.len() ==> (#[trigger] questions@[q])@.len() == rows@.len(),
        ensures
            memory_views(res@) == nearest(
                row_views(rows@),
                question_scores(questions@),
                n_results as int,
            ),
    {
        let items = gather(rows, questions, n_results);
        let ghost all = memory_views(items@);
        let mut keys: Vec<Real> = Vec::new();
        let mut i: usize = 0;
        while i < items.len()
            invariant
                i <= items@.len(),
                keys@.len() == i,
                forall|j: int| 0 <= j < i ==> #[trigger] keys@[j] == items@[j].adjusted_distance,
            decreases items@.len() - i,
        {
            keys.push(items[i].adjusted_distance);
            i += 1;
        }
        assert(keys@ =~= memory_keys(all));
        let places = rank(&keys);
        let limit: usize = if n_results < places.len() {
            n_results
        } else {
            places.len()
        };
        let ghost chosen = first_of(ranking(memory_keys(all)), n_results as int);
        assert(chosen =~= places@.take(limit as int));
        let mut out: Vec<EventMemory> = Vec::new();
        let mut k: usize = 0;
        while k < limit
            invariant
                all == memory_views(items@),
                places@.len() == items@.len(),
                forall|i: int| 0 <= i < places@.len() ==> (#[trigger] places@[i]) < items@.len(),
                k <= limit <= places@.len(),
                out@.len() == k,
                forall|j: int| 0 <= j < k ==> (#[trigger] out@[j])@ == all[places@[j] as int],
            decreases limit - k,
        {
            out.push(copy_memory(&items[places[k]]));
            k += 1;
        }
        assert(memory_views(out@) =~= chosen.map_values(|i: usize| all[i as int]));
        out
    }
}

/// Whether no two of the events have the same id.
pub open spec fn apart(items: Seq<EventMemoryView>) -> bool {
    forall|i: int, j: int|
        0 <= i < j < items.len() ==> (#[trigger] items[i]).id != (#[trigger] items[j]).id
}

proof fn lemma_recalled_apart(
    items: Seq<EventMemoryView>,
    rows: Seq<EventRowView>,
    id: Seq<char>,
    score: Score,
)
    requires
        apart(items),
        row_with(rows, id) < rows.len(),
    ensures
        apart(recalled(items, rows, id, score)),
{
    lemma_memory_with(items, id);
    lemma_row_with(rows, id);
    let res = recalled(items, rows, id, score);
    assert forall|i: int, j: int| 0 <= i < j < res.len() implies (#[trigger] res[i]).id != (
    #[trigger] res[j]).id by {
        assert(res[i].id == items[i].id);
        if j < items.len() {
            assert(res[j].id == items[j].id);
        }
    }
}

proof fn lemma_recalled_all_apart(
    items: Seq<EventMemoryView>,
    rows: Seq<EventRowView>,
    scores: Seq<Score>,
    places: Seq<usize>,
)
    requires
        apart(items),
        forall|i: int| 0 <= i < places.len() ==> (#[trigger] places[i]) < rows.len(),
    ensures
        apart(recalled_all(items, rows, scores, places)),
    decreases places.len(),
{
    if places.len() > 0 {
        lemma_recalled_all_apart(items, rows, scores, places.drop_last());
        let at = places.last() as int;
        assert(places[places.len() - 1] < rows.len());
        lemma_row_with(rows, rows[at].id);
        lemma_recalled_apart(
            recalled_all(items, rows, scores, places.drop_last()),
            rows,
            rows[at].id,
            scores[at],
        );
    }
}

proof fn lemma_gathered_apart(rows: Seq<EventRowView>, questions: Seq<Seq<Score>>, n: int)
    requires
        n >= 0,
        rows.len() <= usize::MAX,
        forall|q: int| 0 <= q < questions.len() ==> (#[trigger] questions[q]).len() == rows.len(),
    ensures
        apart(gathered(rows, questions, n)),
    decreases questions.len(),
{
    if questions.len() > 0 {
        lemma_gathered_apart(rows, questions.drop_last(), n);
        let scores = questions.last();
        assert(questions[questions.len() - 1].len() == rows.len());
        law_ranking_is_permutation(adjusted(scores));
        let places = first_of(ranking(adjusted(scores)), 2 * n);
        assert forall|i: int| 0 <= i < places.len() implies (#[trigger] places[i]) < rows.len() by {
            assert(places[i] == ranking(adjusted(scores))[i]);
        }
        lemma_recalled_all_apart(gathered(rows, questions.drop_last(), n), rows, scores, places);
    }
}

/// No more events come to mind than are asked for, no two of them the same, and each before those
/// that are farther, unless a distance is no number.
pub proof fn law_nearest_come_first(rows: Seq<EventRowView>, questions: Seq<Seq<Score>>, n: int)
    requires
        n >= 0,
        rows.len() <= usize::MAX,
        gathered(rows, questions, n).len() <= usize::MAX,
        forall|q: int| 0 <= q < questions.len() ==> (#[trigger] questions[q]).len() == rows.len(),
    ensures
        nearest(rows, questions, n).len() <= n,
        apart(nearest(rows, questions, n)),
        (forall|i: int|
            0 <= i < gathered(rows, questions, n).len() ==> !(#[trigger] gathered(
                rows,
                questions,
                n,
            )[i]).adjusted_distance.nan()) ==> forall|i: int, j: int|
            0 <= i < j < nearest(rows, questions, n).len() ==> (#[trigger] nearest(
                rows,
                questions,
                n,
            )[i]).adjusted_distance.at_most(
                (#[trigger] nearest(rows, questions, n)[j]).adjusted_distance,
            ),
{
    let items = gathered(rows, questions, n);
    let keys = memory_keys(items);
    let res = nearest(rows, questions, n);
    lemma_gathered_apart(rows, questions, n);
    law_ranking_is_permutation(keys);
    let places = ranking(keys);
    assert forall|i: int| 0 <= i < res.len() implies #[trigger] res[i] == items[places[i] as int]
        && places[i] < items.len() by {}
    assert forall|i: int, j: int| 0 <= i < j < res.len() implies (#[trigger] res[i]).id != (
    #[trigger] res[j]).id by {
        assert(places[i] != places[j]);
        let a = places[i] as int;
        let b = places[j] as int;
        assert(res[i] == items[a] && res[j] == items[b]);
        if a < b {
            assert(items[a].id != items[b].id);
        } else {
            assert(items[b].id != items[a].id);
        }
    }
    if forall|i: int| 0 <= i < items.len() ==> !(#[trigger] items[i]).adjusted_distance.nan() {
        assert forall|i: int| 0 <= i < keys.len() implies !(#[trigger] keys[i]).nan() by {
            assert(!items[i].adjusted_distance.nan());
        }
        law_ranking_is_in_order(keys);
        assert forall|i: int, j: int| 0 <= i < j < res.len() implies (
        #[trigger] res[i]).adjusted_distance.at_most((#[trigger] res[j]).adjusted_distance) by {
            assert(res[i] == items[places[i] as int] && res[j] == items[places[j] as int]);
        }
    }
}

/// Whether each of the events in mind is an event with the score that one of the questions gives it.
pub open spec fn grounded(
    items: Seq<EventMemoryView>,
    rows: Seq<EventRowView>,
    questions: Seq<Seq<Score>>,
) -> bool {
    forall|i: int|
        0 <= i < items.len() ==> stands_for(#[trigger] items[i], rows, questions)
}

/// Whether an event in mind is an event with the score that one of the questions gives it.
pub open spec fn stands_for(
    item: EventMemoryView,
    rows: Seq<EventRowView>,
    questions: Seq<Seq<Score>>,
) -> bool {
    exists|r: int, q: int|
        0 <= r < rows.len() && 0 <= q < questions.len() && item == recollection(
            #[trigger] rows[r],
            (#[trigger] questions[q])[r],
        )
}

/// Whether an event is in mind at no more than a distance.
pub open spec fn in_mind(items: Seq<EventMemoryView>, id: Seq<char>, x: Real) -> bool {
    exists|i: int|
        0 <= i < items.len() && (#[trigger] items[i]).id == id
            && items[i].adjusted_distance.at_most(x)
}

/// Whether no two events have the same id.
pub open spec fn distinct_rows(rows: Seq<EventRowView>) -> bool {
    forall|i: int, j: int|
        0 <= i < j < rows.len() ==> (#[trigger] rows[i]).id != (#[trigger] rows[j]).id
}

/// Whether each question gives each event a distance that is a number.
pub open spec fn measured(rows: Seq<EventRowView>, questions: Seq<Seq<Score>>) -> bool {
    &&& forall|q: int| 0 <= q < questions.len() ==> (#[trigger] questions[q]).len() == rows.len()
    &&& forall|q: int, r: int|
        0 <= q < questions.len() && 0 <= r < rows.len() ==> !(
        #[trigger] questions[q][r]).adjusted.nan()
}

proof fn lemma_recalled_keeps(
    items: Seq<EventMemoryView>,
    rows: Seq<EventRowView>,
    at: int,
    score: Score,
    id: Seq<char>,
    x: Real,
)
    requires
        0 <= at < rows.len(),
        distinct_rows(rows),
        !score.adjusted.nan(),
        forall|i: int| 0 <= i < items.len() ==> !(#[trigger] items[i]).adjusted_distance.nan(),
    ensures
        in_mind(items, id, x) ==> in_mind(recalled(items, rows, rows[at].id, score), id, x),
        in_mind(recalled(items, rows, rows[at].id, score), rows[at].id, score.adjusted),
        row_with(rows, rows[at].id) == at,
{
    let res = recalled(items, rows, rows[at].id, score);
    lemma_memory_with(items, rows[at].id);
    lemma_row_with(rows, rows[at].id);
    let p = row_with(rows, rows[at].id);
    if p > at {
        assert(rows[at].id != rows[at].id);
    }
    if p < at {
        assert(rows[p].id != rows[at].id);
    }
    let k = memory_with(items, rows[at].id);
    if in_mind(items, id, x) {
        let i = choose|i: int|
            0 <= i < items.len() && (#[trigger] items[i]).id == id
                && items[i].adjusted_distance.at_most(x);
        assert(res[i].id == id && res[i].adjusted_distance.at_most(x));
    }
    if k < items.len() {
        assert(!items[k].adjusted_distance.nan());
        assert(res[k].id == rows[at].id && res[k].adjusted_distance.at_most(score.adjusted));
    } else {
        assert(res[items.len() as int] == recollection(rows[at], score));
    }
}

proof fn lemma_recalled_grounded(
    items: Seq<EventMemoryView>,
    rows: Seq<EventRowView>,
    questions: Seq<Seq<Score>>,
    q: int,
    at: int,
)
    requires
        0 <= at < rows.len(),
        0 <= q < questions.len(),
        distinct_rows(rows),
        measured(rows, questions),
        grounded(items, rows, questions),
    ensures
        grounded(recalled(items, rows, rows[at].id, questions[q][at]), rows, questions),
{
    let score = questions[q][at];
    let res = recalled(items, rows, rows[at].id, score);
    let new = recollection(rows[at], score);
    lemma_grounded_is_measured(items, rows, questions);
    lemma_recalled_keeps(items, rows, at, score, Seq::empty(), score.adjusted);
    lemma_memory_with(items, rows[at].id);
    let k = memory_with(items, rows[at].id);
    assert(stands_for(new, rows, questions)) by {
        assert(new == recollection(rows[at], questions[q][at]));
    }
    assert forall|i: int| 0 <= i < res.len() implies stands_for(
        #[trigger] res[i],
        rows,
        questions,
    ) by {
        if i < items.len() && res[i] == items[i] {
            assert(stands_for(items[i], rows, questions));
        } else if i < items.len() {
            assert(i == k);
            assert(stands_for(items[k], rows, questions));
            let (r, p) = choose|r: int, p: int|
                0 <= r < rows.len() && 0 <= p < questions.len() && items[k] == recollection(
                    #[trigger] rows[r],
                    (#[trigger] questions[p])[r],
                );
            assert(rows[r].id == rows[at].id);
            if r < at {
                assert(rows[r].id != rows[at].id);
            }
            if at < r {
                assert(rows[at].id != rows[r].id);
            }
            assert(res[i] == new);
        } else {
            assert(res[i] == new);
        }
    }
}

proof fn lemma_grounded_is_measured(
    items: Seq<EventMemoryView>,
    rows: Seq<EventRowView>,
    questions: Seq<Seq<Score>>,
)
    requires
        measured(rows, questions),
        grounded(items, rows, questions),
    ensures
        forall|i: int| 0 <= i < items.len() ==> !(#[trigger] items[i]).adjusted_distance.nan(),
{
    assert forall|i: int| 0 <= i < items.len() implies !(
    #[trigger] items[i]).adjusted_distance.nan() by {
        assert(stands_for(items[i], rows, questions));
        let (r, q) = choose|r: int, q: int|
            0 <= r < rows.len() && 0 <= q < questions.len() && items[i] == recollection(
                #[trigger] rows[r],
                (#[trigger] questions[q])[r],
            );
        assert(!questions[q][r].adjusted.nan());
    }
}

proof fn lemma_recalled_all_grounded(
    items: Seq<EventMemoryView>,
    rows: Seq<EventRowView>,
    questions: Seq<Seq<Score>>,
    q: int,
    places: Seq<usize>,
    id: Seq<char>,
    x: Real,
)
    requires
        0 <= q < questions.len(),
        distinct_rows(rows),
        measured(rows, questions),
        grounded(items, rows, questions),
        forall|i: int| 0 <= i < places.len() ==> (#[trigger] places[i]) < rows.len(),
    ensures
        grounded(recalled_all(items, rows, questions[q], places), rows, questions),
        in_mind(items, id, x) ==> in_mind(recalled_all(items, rows, questions[q], places), id, x),
        forall|i: int|
            0 <= i < places.len() ==> in_mind(
                recalled_all(items, rows, questions[q], places),
                rows[(#[trigger] places[i]) as int].id,
                questions[q][places[i] as int].adjusted,
            ),
    decreases places.len(),
{
    if places.len() > 0 {
        let less = places.drop_last();
        let before = recalled_all(items, rows, questions[q], less);
        let n = places.len() - 1;
        let at = places[n] as int;
        assert forall|i: int| 0 <= i < less.len() implies (#[trigger] less[i]) < rows.len() by {
            assert(less[i] == places[i]);
        }
        lemma_recalled_all_grounded(items, rows, questions, q, less, id, x);
        lemma_recalled_grounded(before, rows, questions, q, at);
        lemma_grounded_is_measured(before, rows, questions);
        assert(!questions[q][at].adjusted.nan());
        lemma_recalled_keeps(before, rows, at, questions[q][at], id, x);
        let res = recalled_all(items, rows, questions[q], places);
        assert forall|i: int| 0 <= i < places.len() implies in_mind(
            res,
            rows[(#[trigger] places[i]) as int].id,
            questions[q][places[i] as int].adjusted,
        ) by {
            if i < n {
                assert(less[i] == places[i]);
                lemma_recalled_keeps(
                    before,
                    rows,
                    at,
                    questions[q][at],
                    rows[places[i] as int].id,
                    questions[q][places[i] as int].adjusted,
                );
            }
        }
    }
}

/// The places of the events that a question brings to mind.
pub open spec fn brought(scores: Seq<Score>, n: int) -> Seq<usize> {
    first_of(ranking(adjusted(scores)), 2 * n)
}

proof fn lemma_brought(rows: Seq<EventRowView>, questions: Seq<Seq<Score>>, q: int, n: int)
    requires
        n >= 0,
        rows.len() <= usize::MAX,
        measured(rows, questions),
        0 <= q < questions.len(),
    ensures
        ({
            let places = brought(questions[q], n);
            &&& places.len() == vstd::math::min(rows.len() as int, 2 * n)
            &&& places.no_duplicates()
            &&& forall|i: int| 0 <= i < places.len() ==> (#[trigger] places[i]) < rows.len()
            &&& forall|r: int, i: int|
                0 <= r < rows.len() && !#[trigger] places.contains(r as usize) && 0 <= i
                    < places.len() ==> questions[q][(
                #[trigger] places[i]) as int].adjusted.at_most(questions[q][r].adjusted)
        }),
{
    let keys = adjusted(questions[q]);
    assert(questions[q].len() == rows.len());
    assert forall|i: int| 0 <= i < keys.len() implies !(#[trigger] keys[i]).nan() by {
        assert(!questions[q][i].adjusted.nan());
    }
    law_ranking_is_permutation(keys);
    let order = ranking(keys);
    let places = brought(questions[q], n);
    assert forall|i: int| 0 <= i < places.len() implies #[trigger] places[i] == order[i] by {}
    let m = places.len() as int;
    assert(places =~= order.take(m));
    assert forall|r: int, i: int|
        0 <= r < rows.len() && !#[trigger] places.contains(r as usize) && 0 <= i
            < places.len() implies questions[q][(#[trigger] places[i]) as int].adjusted.at_most(
        questions[q][r].adjusted,
    ) by {
        law_first_ranked_are_best(keys, m, r);
        assert(keys[order[i] as int].at_most(keys[r]));
    }
}

proof fn lemma_gathered_grounded(
    rows: Seq<EventRowView>,
    all: Seq<Seq<Score>>,
    questions: Seq<Seq<Score>>,
    n: int,
)
    requires
        n >= 0,
        rows.len() <= usize::MAX,
        distinct_rows(rows),
        measured(rows, all),
        questions.len() <= all.len(),
        questions == all.take(questions.len() as int),
    ensures
        grounded(gathered(rows, questions, n), rows, all),
        forall|q: int, i: int|
            0 <= q < questions.len() && 0 <= i < brought(all[q], n).len() ==> in_mind(
                gathered(rows, questions, n),
                rows[(#[trigger] brought(all[q], n)[i]) as int].id,
                all[q][brought(all[q], n)[i] as int].adjusted,
            ),
    decreases questions.len(),
{
    if questions.len() > 0 {
        let less = questions.drop_last();
        let last = questions.len() - 1;
        assert(less =~= all.take(less.len() as int));
        lemma_gathered_grounded(rows, all, less, n);
        let before = gathered(rows, less, n);
        assert(questions.last() == all[last]);
        lemma_brought(rows, all, last, n);
        let places = brought(all[last], n);
        lemma_recalled_all_grounded(
            before,
            rows,
            all,
            last,
            places,
            Seq::empty(),
            Real { bits: 0 },
        );
        let res = gathered(rows, questions, n);
        assert(res == recalled_all(before, rows, all[last], places));
        assert forall|q: int, i: int|
            0 <= q < questions.len() && 0 <= i < brought(all[q], n).len() implies in_mind(
            res,
            rows[(#[trigger] brought(all[q], n)[i]) as int].id,
            all[q][brought(all[q], n)[i] as int].adjusted,
        ) by {
            if q < last {
                let p = brought(all[q], n)[i] as int;
                lemma_recalled_all_grounded(
                    before,
                    rows,
                    all,
                    last,
                    places,
                    rows[p].id,
                    all[q][p].adjusted,
                );
            }
        }
    } else {
        assert(gathered(rows, questions, n) =~= Seq::empty());
    }
}

/// The row that an event in mind stands for.
spec fn home(item: EventMemoryView, rows: Seq<EventRowView>) -> int {
    choose|r: int| 0 <= r < rows.len() && (#[trigger] rows[r]).id == item.id
}

proof fn lemma_gathered_size(rows: Seq<EventRowView>, questions: Seq<Seq<Score>>, n: int)
    requires
        n >= 1,
        questions.len() >= 1,
        rows.len() <= usize::MAX,
        distinct_rows(rows),
        measured(rows, questions),
    ensures
        vstd::math::min(rows.len() as int, 2 * n) <= gathered(rows, questions, n).len()
            <= rows.len(),
{
    let items = gathered(rows, questions, n);
    assert(questions =~= questions.take(questions.len() as int));
    lemma_gathered_grounded(rows, questions, questions, n);
    lemma_gathered_apart(rows, questions, n);
    let homes = Seq::new(items.len(), |i: int| home(items[i], rows));
    assert forall|i: int| 0 <= i < homes.len() implies 0 <= #[trigger] homes[i] < rows.len()
        && rows[homes[i]].id == items[i].id by {
        assert(stands_for(items[i], rows, questions));
    }
    assert forall|i: int, j: int| 0 <= i < homes.len() && 0 <= j < homes.len() && i != j implies homes[i]
        != homes[j] by {
        assert(rows[homes[i]].id == items[i].id && rows[homes[j]].id == items[j].id);
        if i < j {
            assert(items[i].id != items[j].id);
        } else {
            assert(items[j].id != items[i].id);
        }
    }
    law_places_are_few(homes, rows.len());
    lemma_brought(rows, questions, 0, n);
    let places = brought(questions[0], n);
    let found = Seq::new(
        places.len(),
        |i: int| memory_with(items, rows[places[i] as int].id),
    );
    assert forall|i: int| 0 <= i < found.len() implies 0 <= #[trigger] found[i] < items.len()
        && items[found[i]].id == rows[places[i] as int].id by {
        let id = rows[places[i] as int].id;
        assert(in_mind(items, id, questions[0][places[i] as int].adjusted));
        lemma_memory_with(items, id);
        let k = choose|k: int| 0 <= k < items.len() && (#[trigger] items[k]).id == id;
        assert(memory_with(items, id) <= k);
    }
    assert forall|i: int, j: int| 0 <= i < found.len() && 0 <= j < found.len() && i != j implies found[i]
        != found[j] by {
        let a = places[i] as int;
        let b = places[j] as int;
        assert(places[i] != places[j]);
        assert(places[i] < rows.len() && places[j] < rows.len());
        assert(items[found[i]].id == rows[a].id && items[found[j]].id == rows[b].id);
        if a < b {
            assert(rows[a].id != rows[b].id);
        } else {
            assert(rows[b].id != rows[a].id);
        }
    }
    law_places_are_few(found, items.len());
}

proof fn lemma_near_or_kept(
    rows: Seq<EventRowView>,
    questions: Seq<Seq<Score>>,
    n: int,
    id: Seq<char>,
    x: Real,
)
    requires
        n >= 1,
        questions.len() >= 1,
        rows.len() <= usize::MAX,
        distinct_rows(rows),
        measured(rows, questions),
        in_mind(gathered(rows, questions, n), id, x),
    ensures
        in_mind(nearest(rows, questions, n), id, x) || (nearest(rows, questions, n).len() == n
            && nearest(rows, questions, n)[n - 1].adjusted_distance.at_most(x)),
{
    let items = gathered(rows, questions, n);
    let keys = memory_keys(items);
    let res = nearest(rows, questions, n);
    assert(questions =~= questions.take(questions.len() as int));
    lemma_gathered_grounded(rows, questions, questions, n);
    lemma_grounded_is_measured(items, rows, questions);
    lemma_gathered_size(rows, questions, n);
    assert forall|i: int| 0 <= i < keys.len() implies !(#[trigger] keys[i]).nan() by {
        assert(!items[i].adjusted_distance.nan());
    }
    law_ranking_is_permutation(keys);
    let order = ranking(keys);
    let m = res.len() as int;
    assert forall|i: int| 0 <= i < m implies #[trigger] res[i] == items[order[i] as int] by {}
    let k = choose|k: int|
        0 <= k < items.len() && (#[trigger] items[k]).id == id
            && items[k].adjusted_distance.at_most(x);
    law_first_ranked_are_best(keys, m, k);
    if order.take(m).contains(k as usize) {
        let j = choose|j: int| 0 <= j < m && order.take(m)[j] == k as usize;
        assert(order[j] == k as usize);
        assert(res[j] == items[k]);
    } else {
        if m < n {
            assert(m == items.len());
            assert(order.take(m) =~= order);
        }
        assert(m == n);
        assert(keys[order[n - 1] as int].at_most(keys[k]));
        assert(res[n - 1] == items[order[n - 1] as int]);
    }
}

proof fn lemma_every_row(
    rows: Seq<EventRowView>,
    questions: Seq<Seq<Score>>,
    n: int,
    q: int,
    r: int,
)
    requires
        n >= 1,
        rows.len() <= usize::MAX,
        distinct_rows(rows),
        measured(rows, questions),
        0 <= q < questions.len(),
        0 <= r < rows.len(),
    ensures
        in_mind(nearest(rows, questions, n), rows[r].id, questions[q][r].adjusted) || (nearest(
            rows,
            questions,
            n,
        ).len() == n && nearest(rows, questions, n)[n - 1].adjusted_distance.at_most(
            questions[q][r].adjusted,
        )),
{
    let items = gathered(rows, questions, n);
    let res = nearest(rows, questions, n);
    let x = questions[q][r].adjusted;
    assert(questions =~= questions.take(questions.len() as int));
    lemma_gathered_grounded(rows, questions, questions, n);
    lemma_brought(rows, questions, q, n);
    let places = brought(questions[q], n);
    if places.contains(r as usize) {
        let i = choose|i: int| 0 <= i < places.len() && places[i] == r as usize;
        assert(in_mind(items, rows[places[i] as int].id, questions[q][places[i] as int].adjusted));
        lemma_near_or_kept(rows, questions, n, rows[r].id, x);
    } else {
        assert forall|i: int| 0 <= i < places.len() implies in_mind(
            items,
            rows[(#[trigger] places[i]) as int].id,
            x,
        ) by {
            let t = places[i] as int;
            assert(in_mind(items, rows[t].id, questions[q][t].adjusted));
            assert(questions[q][t].adjusted.at_most(x));
            let k = choose|k: int|
                0 <= k < items.len() && (#[trigger] items[k]).id == rows[t].id
                    && items[k].adjusted_distance.at_most(questions[q][t].adjusted);
            assert(items[k].adjusted_distance.at_most(x));
        }
        if !(res.len() == n && res[n - 1].adjusted_distance.at_most(x)) {
            let found = Seq::new(
                places.len(),
                |i: int| memory_with(res, rows[places[i] as int].id),
            );
            assert forall|i: int| 0 <= i < found.len() implies 0 <= #[trigger] found[i] < res.len()
                && res[found[i]].id == rows[places[i] as int].id by {
                let id = rows[places[i] as int].id;
                assert(in_mind(items, id, x));
                lemma_near_or_kept(rows, questions, n, id, x);
                lemma_memory_with(res, id);
                let k = choose|k: int| 0 <= k < res.len() && (#[trigger] res[k]).id == id;
                assert(memory_with(res, id) <= k);
            }
            assert forall|i: int, j: int|
                0 <= i < found.len() && 0 <= j < found.len() && i != j implies found[i]
                != found[j] by {
                let a = places[i] as int;
                let b = places[j] as int;
                assert(places[i] != places[j]);
                assert(places[i] < rows.len() && places[j] < rows.len());
                assert(res[found[i]].id == rows[a].id && res[found[j]].id == rows[b].id);
                if a < b {
                    assert(rows[a].id != rows[b].id);
                } else {
                    assert(rows[b].id != rows[a].id);
                }
            }
            law_places_are_few(found, res.len());
            if places.len() == rows.len() {
                let w = Seq::new(places.len(), |i: int| places[i] as int);
                assert forall|i: int| 0 <= i < w.len() implies 0 <= #[trigger] w[i] < rows.len() by {
                    assert(places[i] < rows.len());
                }
                assert forall|i: int, j: int|
                    0 <= i < w.len() && 0 <= j < w.len() && i != j implies w[i] != w[j] by {
                    assert(places[i] != places[j]);
                }
                law_every_place_occurs(w, rows.len(), r);
                let i = choose|i: int| 0 <= i < w.len() && w[i] == r;
                assert(places[i] == r as usize);
            }
            assert(res.len() <= n);
            assert(false);
        }
    }
}

/// As many events come to mind as are asked for, or all where there are fewer. Each of them has the
/// least of the distances that the questions give it, and none that was left out is nearer to any of
/// the questions than the last of them. No two events have one id, and no distance is no number.
pub proof fn law_nearest_leave_out_none_nearer(
    rows: Seq<EventRowView>,
    questions: Seq<Seq<Score>>,
    n: int,
)
    requires
        n >= 1,
        questions.len() >= 1,
        rows.len() <= usize::MAX,
        distinct_rows(rows),
        measured(rows, questions),
    ensures
        ({
            let res = nearest(rows, questions, n);
            &&& res.len() == vstd::math::min(n, rows.len() as int)
            &&& grounded(res, rows, questions)
            &&& forall|i: int, r: int, q: int|
                0 <= i < res.len() && 0 <= r < rows.len() && 0 <= q < questions.len() && (
                #[trigger] res[i]).id == rows[r].id ==> res[i].adjusted_distance.at_most(
                    (#[trigger] questions[q][r]).adjusted,
                )
            &&& forall|r: int, q: int|
                0 <= r < rows.len() && 0 <= q < questions.len() && (forall|i: int|
                    0 <= i < res.len() ==> (#[trigger] res[i]).id != rows[r].id)
                    ==> res.last().adjusted_distance.at_most((#[trigger] questions[q][r]).adjusted)
        }),
{
    let res = nearest(rows, questions, n);
    let items = gathered(rows, questions, n);
    assert(questions =~= questions.take(questions.len() as int));
    lemma_gathered_grounded(rows, questions, questions, n);
    lemma_grounded_is_measured(items, rows, questions);
    lemma_gathered_size(rows, questions, n);
    law_nearest_come_first(rows, questions, n);
    let order = ranking(memory_keys(items));
    law_ranking_is_permutation(memory_keys(items));
    assert forall|i: int| 0 <= i < res.len() implies stands_for(
        #[trigger] res[i],
        rows,
        questions,
    ) by {
        assert(order[i] < memory_keys(items).len());
        assert(res[i] == items[order[i] as int]);
        assert(stands_for(items[order[i] as int], rows, questions));
    }
    assert forall|i: int, r: int, q: int|
        0 <= i < res.len() && 0 <= r < rows.len() && 0 <= q < questions.len() && (
        #[trigger] res[i]).id == rows[r].id implies res[i].adjusted_distance.at_most(
        (#[trigger] questions[q][r]).adjusted,
    ) by {
        let x = questions[q][r].adjusted;
        lemma_every_row(rows, questions, n, q, r);
        if in_mind(res, rows[r].id, x) {
            let j = choose|j: int|
                0 <= j < res.len() && (#[trigger] res[j]).id == rows[r].id
                    && res[j].adjusted_distance.at_most(x);
            if i < j {
                assert(res[i].id != res[j].id);
            } else if j < i {
                assert(res[j].id != res[i].id);
            }
        } else if i < n - 1 {
            assert(res[i].adjusted_distance.at_most(res[n - 1].adjusted_distance));
        }
    }
    assert forall|r: int, q: int|
        0 <= r < rows.len() && 0 <= q < questions.len() && (forall|i: int|
            0 <= i < res.len() ==> (#[trigger] res[i]).id
                != rows[r].id) implies res.last().adjusted_distance.at_most(
        (#[trigger] questions[q][r]).adjusted,
    ) by {
        lemma_every_row(rows, questions, n, q, r);
    }
}

/// Whether there is anything to look for: something is asked for, and there is a question.
pub open spec fn worthwhile(lens: Seq<usize>, n_results: int) -> bool {
    n_results > 0 && lens.len() > 0
}

impl MemorySystem {
    /// Before a search: whether there is anything to look for, or the complaint that a vector has the
    /// wrong length.
    pub fn em_query_check(lens: &Vec<usize>, n_results: usize, dim: usize) -> (res: Result<
        bool,
        String,
    >)
        ensures
            match res {
                Ok(b) => b == worthwhile(lens@, n_results as int) && (b ==> forall|i: int|
                    0 <= i < lens@.len() ==> #[trigger] lens@[i] == dim),
                Err(e) => worthwhile(lens@, n_results as int) && e@ == "Embedding维度错误"@ && exists|i: int|
                    0 <= i < lens@.len() && #[trigger] lens@[i] != dim,
            },
    {
        if n_results == 0 || lens.len() == 0 {
            return Ok(false);
        }
        let mut i: usize = 0;
        while i < lens.len()
            invariant
                worthwhile(lens@, n_results as int),
                i <= lens@.len(),
                forall|j: int| 0 <= j < i ==> #[trigger] lens@[j] == dim,
            decreases lens@.len() - i,
        {
            if lens[i] != dim {
                return Err(own("Embedding维度错误"));
            }
            i += 1;
        }
        Ok(true)
    }
}

/// Whether events of one kind alone are asked for.
pub open spec fn one_kind(memory_type: Seq<char>) -> bool {
    memory_type == "short_term"@ || memory_type == "long_term"@
}

impl MemorySystem {
    /// The query for the events, and whether it has a parameter for their kind.
    pub fn em_query_sql(memory_type: &str) -> (res: (String, bool))
        ensures
            res.1 == one_kind(memory_type@),
            res.0@ == "SELECT id, text, type, weight, created_at, embedding FROM event_memroy"@ + if one_kind(
                memory_type@,
            ) {
                " WHERE type = ?1"@
            } else {
                Seq::empty()
            },
    {
        let mut sql = own("SELECT id, text, type, weight, created_at, embedding FROM event_memroy");
        if same(memory_type, "short_term") || same(memory_type, "long_term") {
            sql.append(" WHERE type = ?1");
            (sql, true)
        } else {
            assert(sql@ + Seq::<char>::empty() =~= sql@);
            (sql, false)
        }
    }
}

/// Whether an event is farther for its age.
pub fn is_short_term(mem_type: &str) -> (res: bool)
    ensures
        res == (mem_type@ == "short_term"@),
{
    same(mem_type, "short_term")
}

/// An event to put into the store: what it says, and the bytes of its vector.
pub struct NewEventView {
    pub row: EventRowView,
    pub embedding: Seq<u8>,
}

/// An event to put into the store: what it says, and the bytes of its vector.
#[derive(Debug)]
pub struct NewEvent {
    pub row: EventRow,
    pub embedding: Vec<u8>,
}

impl View for NewEvent {
    type V = NewEventView;

    open spec fn view(&self) -> NewEventView {
        NewEventView { row: self.row@, embedding: self.embedding@ }
    }
}

impl MemorySystem {
    /// How long the vectors of texts are.
    pub fn text_emb_dim(cfg: &Config) -> (res: usize)
        ensures
            res == (if cfg.int_at("text_embed_dim"@, 4096) < 0 {
                0
            } else {
                cfg.int_at("text_embed_dim"@, 4096) as usize
            }),
    {
        cfg.usize_or("text_embed_dim", 4096)
    }

    /// The event to put into the store, a short-term one; or the complaint that its vector has the
    /// wrong length. The vector is given by the bits of its single-precision numbers.
    pub fn em_add(
        memory_id: &str,
        text: &str,
        embedding: &Vec<u32>,
        initial_weight: i64,
        created_at: Real,
        dim: usize,
    ) -> (res: Result<NewEvent, String>)
        ensures
            match res {
                Ok(e) => embedding@.len() == dim && e@ == (NewEventView {
                    row: EventRowView {
                        id: memory_id@,
                        text: text@,
                        mem_type: "short_term"@,
                        weight: initial_weight,
                        created_at,
                    },
                    embedding: vector_bytes(embedding@),
                }),
                Err(e) => embedding@.len() != dim && e@ == "Embedding维度应为 "@ + int_text(
                    dim as int,
                ) + "，但收到 "@ + int_text(embedding@.len() as int),
            },
    {
        if embedding.len() == dim {
            let row = EventRow {
                id: own(memory_id),
                text: own(text),
                mem_type: own("short_term"),
                weight: initial_weight,
                created_at,
            };
            Ok(NewEvent { row, embedding: f32_to_le_bytes(embedding) })
        } else {
            let mut e = own("Embedding维度应为 ");
            let d = unsigned_text(dim as u64);
            e.append(d.as_str());
            e.append("，但收到 ");
            let l = unsigned_text(embedding.len() as u64);
            e.append(l.as_str());
            Err(e)
        }
    }
}

/// The kind of an event that has got this weight: a short-term one becomes a long-term one at the
/// threshold.
pub open spec fn promoted(mem_type: Seq<char>, weight: int, threshold: int) -> Seq<char> {
    if weight >= threshold && mem_type == "short_term"@ {
        "long_term"@
    } else {
        mem_type
    }
}

impl MemorySystem {
    /// The new weight and kind of an event that came to mind, or the complaint that there is none with
    /// this id. `found` is its weight and kind.
    pub fn em_increase_weight(
        memory_id: &str,
        found: Option<(i64, String)>,
        weight_increase: i64,
        threshold: i64,
    ) -> (res: Result<(i64, String), String>)
        requires
            found matches Some(row) ==> i64::MIN <= row.0 + weight_increase <= i64::MAX,
        ensures
            match found {
                Some(row) => res matches Ok(r) && r.0 == row.0 + weight_increase && r.1@ == promoted(
                    row.1@,
                    row.0 + weight_increase,
                    threshold as int,
                ),
                None => res matches Err(e) && e@ == "未找到ID为 "@ + memory_id@ + " 的事件记忆"@,
            },
    {
        match found {
            Some(row) => {
                let weight = row.0 + weight_increase;
                if weight >= threshold && same(row.1.as_str(), "short_term") {
                    Ok((weight, own("long_term")))
                } else {
                    Ok((weight, row.1))
                }
            },
            None => {
                let mut e = own("未找到ID为 ");
                e.append(memory_id);
                e.append(" 的事件记忆");
                Err(e)
            },
        }
    }
}

/// A long-term event stays one, whatever its weight.
pub proof fn law_long_term_stays(weight: int, threshold: int)
    ensures
        promoted("long_term"@, weight, threshold) == "long_term"@,
{
}

/// The events that are forgotten: those whose lot is below the probability.
pub open spec fn forgotten(
    ids: Seq<Seq<char>>,
    lots: Seq<Real>,
    prob: Real,
) -> Seq<Seq<char>>
    decreases ids.len(),
{
    if ids.len() == 0 {
        Seq::empty()
    } else {
        let front = forgotten(ids.drop_last(), lots, prob);
        if lots[ids.len() - 1].less(prob) {
            front.push(ids.last())
        } else {
            front
        }
    }
}

impl MemorySystem {
    /// The events that are forgotten, with one lot drawn for each.
    pub fn em_forget(ids: &Vec<String>, lots: &Vec<Real>, forget_prob: Real) -> (res: Vec<String>)
        requires
            lots@.len() == ids@.len(),
        ensures
            views(res@) == forgotten(views(ids@), lots@, forget_prob),
    {
        let ghost all = views(ids@);
        let mut out: Vec<String> = Vec::new();
        let mut i: usize = 0;
        assert(views(out@) =~= Seq::empty());
        while i < ids.len()
            invariant
                all == views(ids@),
                lots@.len() == ids@.len(),
                i <= ids@.len(),
                views(out@) == forgotten(all.take(i as int), lots@, forget_prob),
            decreases ids@.len() - i,
        {
            assert(all.take(i + 1).drop_last() == all.take(i as int));
            if lots[i].lt(forget_prob) {
                let ghost before = out@;
                let id = own(ids[i].as_str());
                out.push(id);
                assert(views(out@) =~= views(before).push(id@));
            }
            i += 1;
        }
        assert(all.take(i as int) == all);
        out
    }
}

/// Those are forgotten whose lot is less than the chance, in their order, and no others.
pub proof fn law_forgotten_are_those_drawn(ids: Seq<Seq<char>>, lots: Seq<Real>, prob: Real)
    ensures
        selected(
            ids.len() as int,
            |i: int|
                if lots[i].less(prob) {
                    Some(ids[i])
                } else {
                    None
                },
            forgotten(ids, lots, prob),
        ),
{
    let f = |i: int|
        if lots[i].less(prob) {
            Some(ids[i])
        } else {
            None
        };
    lemma_forgotten_are_those_drawn(ids, lots, prob, f, ids.len() as int);
    assert(ids.take(ids.len() as int) =~= ids);
}

proof fn lemma_forgotten_are_those_drawn(
    ids: Seq<Seq<char>>,
    lots: Seq<Real>,
    prob: Real,
    f: spec_fn(int) -> Option<Seq<char>>,
    n: int,
)
    requires
        0 <= n <= ids.len(),
        forall|i: int|
            0 <= i < ids.len() ==> (#[trigger] f(i)) == (
                if lots[i].less(prob) {
                    Some(ids[i])
                } else {
                    None
                }
            ),
    ensures
        selected(n, f, forgotten(ids.take(n), lots, prob)),
    decreases n,
{
    if n == 0 {
        lemma_selected_none(f);
    } else {
        lemma_forgotten_are_those_drawn(ids, lots, prob, f, n - 1);
        assert(ids.take(n).drop_last() =~= ids.take(n - 1));
        lemma_selected_next(n - 1, f, forgotten(ids.take(n - 1), lots, prob));
    }
}

/// An event lasts where its weight reaches the threshold; no other event changes its kind.
pub proof fn law_heavy_events_last(mem_type: Seq<char>, weight: int, threshold: int)
    ensures
        weight >= threshold ==> promoted("short_term"@, weight, threshold) == "long_term"@,
        weight < threshold ==> promoted(mem_type, weight, threshold) == mem_type,
        mem_type != "short_term"@ ==> promoted(mem_type, weight, threshold) == mem_type,
{
}

/// What is recalled of an event is what was kept of it, with the distances of the question; an event that
/// is in mind already keeps its place, and takes the distances of the question that is nearer to it.
pub proof fn law_recalled_event(
    items: Seq<EventMemoryView>,
    rows: Seq<EventRowView>,
    r: int,
    k: int,
    score: Score,
)
    requires
        0 <= r < rows.len(),
        distinct_rows(rows),
        apart(items),
    ensures
        ({
            let res = recalled(items, rows, rows[r].id, score);
            &&& (forall|i: int| 0 <= i < items.len() ==> (#[trigger] items[i]).id != rows[r].id)
                ==> {
                &&& res.len() == items.len() + 1
                &&& res.drop_last() == items
                &&& res.last().id == rows[r].id
                &&& res.last().text == rows[r].text
                &&& res.last().mem_type == rows[r].mem_type
                &&& res.last().weight == rows[r].weight
                &&& res.last().created_at == rows[r].created_at
                &&& res.last().distance == score.distance
                &&& res.last().adjusted_distance == score.adjusted
                &&& res.last().time_penalty == score.penalty
            }
            &&& 0 <= k < items.len() && items[k].id == rows[r].id && !score.adjusted.less(
                items[k].adjusted_distance,
            ) ==> res == items
            &&& 0 <= k < items.len() && items[k].id == rows[r].id && score.adjusted.less(
                items[k].adjusted_distance,
            ) ==> {
                &&& res.len() == items.len()
                &&& forall|i: int| 0 <= i < items.len() && i != k ==> #[trigger] res[i] == items[i]
                &&& res[k].id == items[k].id
                &&& res[k].text == items[k].text
                &&& res[k].mem_type == items[k].mem_type
                &&& res[k].weight == items[k].weight
                &&& res[k].created_at == items[k].created_at
                &&& res[k].distance == score.distance
                &&& res[k].adjusted_distance == score.adjusted
                &&& res[k].time_penalty == score.penalty
            }
        }),
{
    lemma_row_with(rows, rows[r].id);
    lemma_memory_with(items, rows[r].id);
    let p = row_with(rows, rows[r].id);
    if p < rows.len() && p != r {
        if p < r {
            assert(rows[p].id != rows[r].id);
        } else {
            assert(rows[r].id != rows[p].id);
        }
    }
    let res = recalled(items, rows, rows[r].id, score);
    let m = memory_with(items, rows[r].id);
    if 0 <= k < items.len() && items[k].id == rows[r].id && m < items.len() && m != k {
        if m < k {
            assert(items[m].id != items[k].id);
        } else {
            assert(items[k].id != items[m].id);
        }
    }
    if forall|i: int| 0 <= i < items.len() ==> (#[trigger] items[i]).id != rows[r].id {
        assert(res.drop_last() =~= items);
    }
}

/// The first items of a list are its beginning, as many as are asked for or as there are.
pub proof fn law_first_items<T>(s: Seq<T>, n: int)
    requires
        n >= 0,
    ensures
        first_of(s, n).len() == vstd::math::min(n, s.len() as int),
        forall|i: int| 0 <= i < first_of(s, n).len() ==> #[trigger] first_of(s, n)[i] == s[i],
{
}

/// A search is worth while where anything is asked and anything is wanted.
pub proof fn law_search_worth_while(lens: Seq<usize>, n_results: int)
    ensures
        n_results <= 0 ==> !worthwhile(lens, n_results),
        lens.len() == 0 ==> !worthwhile(lens, n_results),
        n_results > 0 && lens.len() > 0 ==> worthwhile(lens, n_results),
        one_kind("short_term"@),
        one_kind("long_term"@),
{
}

/// For each question twice as many events are looked at as are wanted, as far as there are so many, so
/// that at least these are weighed against each other.
pub proof fn law_twice_as_many_are_looked_at(
    rows: Seq<EventRowView>,
    questions: Seq<Seq<Score>>,
    n: int,
)
    requires
        n >= 1,
        questions.len() >= 1,
        rows.len() <= usize::MAX,
        distinct_rows(rows),
        measured(rows, questions),
    ensures
        gathered(rows, questions, n).len() >= vstd::math::min(rows.len() as int, 2 * n),
        gathered(rows, questions, n).len() <= rows.len(),
{
    lemma_gathered_size(rows, questions, n);
}

} // verus!
