//! What the bot remembers of people, of itself, and of events.

use crate::filedb::{law_get_after_set, law_stored_rereads, stored, with_value, FileDb};
use crate::json::{
    entry_views, insert, json_views, law_reread_keeps_texts, law_reread_keeps_texts_and_integers,
    lemma_views, lookup, num_real, put, strings_of, text_values, Json, JsonView, NumView,
};
use crate::number::Real;
use crate::text::{
    contains, int_of_text, int_text, occurs, own, parse_int, same, signed_text, views,
};
use crate::util::{holds, keep_last, last_of};
use crate::select::{lemma_selected_next, lemma_selected_none, selected};
use vstd::prelude::*;
use vstd::string::*;

verus! {

/// What the bot knows of a person.
pub struct UserMemoryView {
    pub names: Seq<Seq<char>>,
    pub profile: Seq<char>,
    pub recent_events: Seq<(JsonView, Seq<char>)>,
}

/// What the bot knows of a person: names, a profile, and events with the time of each.
#[derive(Debug)]
pub struct UserMemory {
    pub names: Vec<String>,
    pub profile: String,
    pub recent_events: Vec<(Json, String)>,
}

/// The views of a list of events.
pub open spec fn event_views(events: Seq<(Json, String)>) -> Seq<(JsonView, Seq<char>)> {
    events.map_values(|e: (Json, String)| (e.0@, e.1@))
}

impl View for UserMemory {
    type V = UserMemoryView;

    open spec fn view(&self) -> UserMemoryView {
        UserMemoryView {
            names: views(self.names@),
            profile: self.profile@,
            recent_events: event_views(self.recent_events@),
        }
    }
}

/// Nothing known of a person.
pub open spec fn stranger() -> UserMemoryView {
    UserMemoryView { names: Seq::empty(), profile: Seq::empty(), recent_events: Seq::empty() }
}

/// The event that an array of a time and a text stands for.
pub open spec fn event_of(item: JsonView) -> Option<(JsonView, Seq<char>)> {
    match item {
        JsonView::Array(parts) => if parts.len() < 2 {
            None
        } else {
            match (parts[0], parts[1]) {
                (JsonView::Number(n), JsonView::Str(s)) => Some(
                    (JsonView::Number(NumView::Float(num_real(n).bits)), s),
                ),
                _ => None,
            }
        },
        _ => None,
    }
}

/// The events among the items.
pub open spec fn events_of(items: Seq<JsonView>) -> Seq<(JsonView, Seq<char>)>
    decreases items.len(),
{
    if items.len() == 0 {
        Seq::empty()
    } else {
        match event_of(items.last()) {
            Some(e) => events_of(items.drop_last()).push(e),
            None => events_of(items.drop_last()),
        }
    }
}

/// What a value in the store says of a person. One with a text and no profile has the text for its
/// profile and says nothing else.
pub open spec fn user_memory(v: JsonView) -> UserMemoryView {
    if v.get("text"@) is Some && v.get("profile"@) is None {
        UserMemoryView { profile: v.str_or_empty("text"@), ..stranger() }
    } else {
        UserMemoryView {
            names: v.strings("names"@),
            profile: v.str_or_empty("profile"@),
            recent_events: match v.get("recent_events"@) {
                Some(JsonView::Array(items)) => events_of(items),
                _ => Seq::empty(),
            },
        }
    }
}

fn parse_event(item: &Json) -> (res: Option<(Json, String)>)
    ensures
        match res {
            Some(e) => event_of(item@) == Some((e.0@, e.1@)),
            None => event_of(item@) is None,
        },
{
    match item.as_array() {
        Some(parts) => {
            if parts.len() < 2 {
                return None;
            }
            let ghost all = json_views(parts@);
            assert(all[0] == parts@[0]@ && all[1] == parts@[1]@);
            match (parts[0].as_float(), parts[1].as_str()) {
                (Some(t), Some(s)) => Some((t, own(s))),
                _ => None,
            }
        },
        None => None,
    }
}

fn parse_events(items: &Vec<Json>) -> (res: Vec<(Json, String)>)
    ensures
        event_views(res@) == events_of(json_views(items@)),
{
    let ghost all = json_views(items@);
    let mut out: Vec<(Json, String)> = Vec::new();
    let mut i: usize = 0;
    assert(event_views(out@) =~= Seq::empty());
    while i < items.len()
        invariant
            all == json_views(items@),
            i <= items@.len(),
            event_views(out@) == events_of(all.take(i as int)),
        decreases items@.len() - i,
    {
        assert(all.take(i + 1).drop_last() == all.take(i as int));
        match parse_event(&items[i]) {
            Some(e) => {
                let ghost before = out@;
                out.push(e);
                assert(event_views(out@) =~= event_views(before).push((e.0@, e.1@)));
            },
            None => {},
        }
        i += 1;
    }
    assert(all.take(i as int) == all);
    out
}

/// What a value in the store says of a person.
pub fn parse_user_memory(v: &Json) -> (res: UserMemory)
    ensures
        res@ == user_memory(v@),
{
    if v.get("text").is_some() && v.get("profile").is_none() {
        let names: Vec<String> = Vec::new();
        let recent_events: Vec<(Json, String)> = Vec::new();
        assert(views(names@) =~= Seq::empty());
        assert(event_views(recent_events@) =~= Seq::empty());
        return UserMemory { names, profile: v.str_or_empty("text"), recent_events };
    }
    let recent_events: Vec<(Json, String)> = match v.get("recent_events") {
        Some(w) => match w.as_array() {
            Some(items) => parse_events(items),
            None => Vec::new(),
        },
        None => Vec::new(),
    };
    let res = UserMemory {
        names: v.strings("names"),
        profile: v.str_or_empty("profile"),
        recent_events,
    };
    assert(res@.recent_events =~= user_memory(v@).recent_events);
    res
}

/// The values for a list of events.
pub open spec fn event_values(events: Seq<(JsonView, Seq<char>)>) -> Seq<JsonView> {
    events.map_values(
        |e: (JsonView, Seq<char>)| JsonView::Array(seq![e.0, JsonView::Str(e.1)]),
    )
}

/// The value by which the store keeps what is known of a person.
pub open spec fn user_value(um: UserMemoryView) -> JsonView {
    JsonView::Object(
        seq![
            ("names"@, JsonView::Array(text_values(um.names))),
            ("profile"@, JsonView::Str(um.profile)),
            ("recent_events"@, JsonView::Array(event_values(um.recent_events))),
        ],
    )
}

/// The value by which the store keeps what is known of a person.
pub fn user_memory_to_json(um: &UserMemory) -> (res: Json)
    ensures
        res@ == user_value(um@),
{
    let mut events: Vec<Json> = Vec::new();
    let mut i: usize = 0;
    while i < um.recent_events.len()
        invariant
            i <= um.recent_events@.len(),
            events@.len() == i,
            forall|j: int|
                0 <= j < i ==> (#[trigger] events@[j])@ == JsonView::Array(
                    seq![um.recent_events@[j].0@, JsonView::Str(um.recent_events@[j].1@)],
                ),
        decreases um.recent_events@.len() - i,
    {
        let mut parts: Vec<Json> = Vec::new();
        parts.push(um.recent_events[i].0.copy());
        parts.push(Json::str(um.recent_events[i].1.as_str()));
        assert(json_views(parts@) =~= seq![
            um.recent_events@[i as int].0@,
            JsonView::Str(um.recent_events@[i as int].1@),
        ]);
        events.push(Json::array(parts));
        i += 1;
    }
    assert(json_views(events@) =~= event_values(um@.recent_events));
    let mut entries: Vec<(String, Json)> = Vec::new();
    entries.push((own("names"), Json::texts(&um.names)));
    entries.push((own("profile"), Json::str(um.profile.as_str())));
    entries.push((own("recent_events"), Json::array(events)));
    assert(entry_views(entries@) =~= user_value(um@)->Object_0);
    Json::object(entries)
}

/// Whether each event's time is a double-precision number.
pub open spec fn timed(um: UserMemoryView) -> bool {
    forall|i: int|
        0 <= i < um.recent_events.len() ==> (#[trigger] um.recent_events[i]).0 matches JsonView::Number(
        NumView::Float(_))
}

/// What the store says of a person comes back as it was put in.
pub proof fn law_user_memory_reads_back(um: UserMemoryView)
    requires
        timed(um),
    ensures
        user_memory(user_value(um)) == um,
{
    let v = user_value(um);
    let entries = v->Object_0;
    reveal_strlit("text");
    reveal_strlit("names");
    reveal_strlit("profile");
    reveal_strlit("recent_events");
    assert("names"@.len() == 5 && "profile"@.len() == 7 && "recent_events"@.len() == 13
        && "text"@.len() == 4);
    reveal_with_fuel(lookup, 5);
    assert(v.get("text"@) is None);
    assert(v.get("names"@) == Some(entries[0].1));
    assert(entries.skip(1)[0] == entries[1]);
    assert(v.get("profile"@) == Some(entries[1].1));
    assert(entries.skip(1).skip(1)[0] == entries[2]);
    assert(v.get("recent_events"@) == Some(entries[2].1));
    lemma_strings_read_back(um.names);
    lemma_events_read_back(um.recent_events);
}

proof fn lemma_strings_read_back(names: Seq<Seq<char>>)
    ensures
        strings_of(text_values(names)) == names,
    decreases names.len(),
{
    let items = text_values(names);
    if names.len() > 0 {
        lemma_strings_read_back(names.drop_last());
        assert(items.drop_last() =~= text_values(names.drop_last()));
        assert(names.drop_last().push(names.last()) =~= names);
    } else {
        assert(strings_of(items) =~= names);
    }
}

proof fn lemma_events_read_back(events: Seq<(JsonView, Seq<char>)>)
    requires
        forall|i: int|
            0 <= i < events.len() ==> (#[trigger] events[i]).0 matches JsonView::Number(
            NumView::Float(_)),
    ensures
        events_of(event_values(events)) == events,
    decreases events.len(),
{
    let items = event_values(events);
    if events.len() > 0 {
        let front = events.drop_last();
        assert forall|i: int| 0 <= i < front.len() implies (
        #[trigger] front[i]).0 matches JsonView::Number(NumView::Float(_)) by {
            assert(front[i] == events[i]);
        }
        lemma_events_read_back(front);
        assert(items.drop_last() =~= event_values(front));
        assert(events[events.len() - 1].0 is Number);
        assert(event_of(items.last()) == Some(events.last()));
        assert(front.push(events.last()) =~= events);
    } else {
        assert(events_of(items) =~= events);
    }
}

/// What is parsed has the times of its events as double-precision numbers.
pub proof fn law_parsed_memory_is_timed(v: JsonView)
    ensures
        timed(user_memory(v)),
{
    match v.get("recent_events"@) {
        Some(JsonView::Array(items)) => {
            lemma_events_timed(items);
        },
        _ => {},
    }
}

proof fn lemma_events_timed(items: Seq<JsonView>)
    ensures
        forall|i: int|
            0 <= i < events_of(items).len() ==> (#[trigger] events_of(
                items,
            )[i]).0 matches JsonView::Number(NumView::Float(_)),
    decreases items.len(),
{
    if items.len() > 0 {
        lemma_events_timed(items.drop_last());
    }
}

/// The names without the first one that is like `name`.
pub open spec fn without_first(names: Seq<Seq<char>>, name: Seq<char>) -> Seq<Seq<char>>
    decreases names.len(),
{
    if names.len() == 0 {
        Seq::empty()
    } else if names[0] == name {
        names.skip(1)
    } else {
        seq![names[0]] + without_first(names.skip(1), name)
    }
}

/// The names without each of the wrong ones, and whether any was among them.
pub open spec fn corrected(names: Seq<Seq<char>>, wrong: Seq<Seq<char>>) -> (Seq<Seq<char>>, bool)
    decreases wrong.len(),
{
    if wrong.len() == 0 {
        (names, false)
    } else {
        let before = corrected(names, wrong.drop_last());
        (
            without_first(before.0, wrong.last()),
            before.1 || before.0.contains(wrong.last()),
        )
    }
}

/// The names with each of the new ones that is not among them behind the last, no more than `max`
/// of them, and whether there was any such.
pub open spec fn extended(
    names: Seq<Seq<char>>,
    new: Seq<Seq<char>>,
    max: int,
) -> (Seq<Seq<char>>, bool)
    decreases new.len(),
{
    if new.len() == 0 {
        (names, false)
    } else {
        let before = extended(names, new.drop_last(), max);
        if before.0.contains(new.last()) {
            before
        } else {
            (last_of(before.0.push(new.last()), max), true)
        }
    }
}

/// What is to be changed in what is known of a person.
pub struct UserUpdateView {
    pub new_names: Seq<Seq<char>>,
    pub wrong_names: Seq<Seq<char>>,
    pub profile: Option<Seq<char>>,
    pub event: Option<Seq<char>>,
}

/// What is to be changed in what is known of a person.
#[derive(Debug)]
pub struct UserUpdate {
    pub new_names: Vec<String>,
    pub wrong_names: Vec<String>,
    pub profile: Option<String>,
    pub event: Option<String>,
}

/// The view of a text that may be missing.
pub open spec fn text_view(s: Option<String>) -> Option<Seq<char>> {
    match s {
        Some(s) => Some(s@),
        None => None,
    }
}

impl View for UserUpdate {
    type V = UserUpdateView;

    open spec fn view(&self) -> UserUpdateView {
        UserUpdateView {
            new_names: views(self.new_names@),
            wrong_names: views(self.wrong_names@),
            profile: text_view(self.profile),
            event: text_view(self.event),
        }
    }
}

/// What is known of a person after an update, and whether that is news: wrong names go, new ones
/// come, a different profile replaces the old one, and an event comes behind the last, of which no
/// more than `max_events` stay.
pub open spec fn revised(
    um: UserMemoryView,
    update: UserUpdateView,
    now: JsonView,
    max_events: int,
    max_names: int,
) -> (UserMemoryView, bool) {
    let fewer = corrected(um.names, update.wrong_names);
    let names = extended(fewer.0, update.new_names, max_names);
    let profile = match update.profile {
        Some(p) => p,
        None => um.profile,
    };
    let events = match update.event {
        Some(text) => last_of(um.recent_events.push((now, text)), max_events),
        None => um.recent_events,
    };
    (
        UserMemoryView { names: names.0, profile, recent_events: events },
        fewer.1 || names.1 || profile != um.profile || update.event is Some,
    )
}

fn find_name(names: &Vec<String>, name: &str) -> (res: Option<usize>)
    ensures
        match res {
            Some(i) => i < names@.len() && views(names@).contains(name@) && without_first(
                views(names@),
                name@,
            ) == views(names@).remove(i as int),
            None => !views(names@).contains(name@) && without_first(views(names@), name@) == views(
                names@,
            ),
        },
{
    let ghost all = views(names@);
    let mut i: usize = 0;
    assert(all.skip(0) == all);
    assert(all.take(0) + without_first(all, name@) == without_first(all, name@));
    while i < names.len()
        invariant
            all == views(names@),
            i <= names@.len(),
            forall|j: int| 0 <= j < i ==> all[j] != name@,
            all.take(i as int) + without_first(all.skip(i as int), name@) == without_first(
                all,
                name@,
            ),
        decreases names@.len() - i,
    {
        let ghost rest = all.skip(i as int);
        assert(rest.skip(1) == all.skip(i + 1));
        assert(rest[0] == all[i as int]);
        if same(names[i].as_str(), name) {
            assert(all[i as int] == name@);
            assert(all.take(i as int) + rest.skip(1) == all.remove(i as int));
            return Some(i);
        }
        assert(all.take(i as int) + (seq![rest[0]] + without_first(rest.skip(1), name@))
            == all.take(i + 1) + without_first(all.skip(i + 1), name@));
        i += 1;
    }
    assert(all.take(i as int) + Seq::<Seq<char>>::empty() == all);
    None
}

fn correct_names(names: Vec<String>, wrong: &Vec<String>) -> (res: (Vec<String>, bool))
    ensures
        (views(res.0@), res.1) == corrected(views(names@), views(wrong@)),
{
    let ghost start = views(names@);
    let ghost all = views(wrong@);
    let mut names = names;
    let mut updated = false;
    let mut i: usize = 0;
    while i < wrong.len()
        invariant
            all == views(wrong@),
            i <= wrong@.len(),
            (views(names@), updated) == corrected(start, all.take(i as int)),
        decreases wrong@.len() - i,
    {
        assert(all.take(i + 1).drop_last() == all.take(i as int));
        let ghost before = names@;
        match find_name(&names, wrong[i].as_str()) {
            Some(k) => {
                names.remove(k);
                assert(views(names@) =~= views(before).remove(k as int));
                updated = true;
            },
            None => {},
        }
        i += 1;
    }
    assert(all.take(i as int) == all);
    (names, updated)
}

fn extend_names(names: Vec<String>, new: &Vec<String>, max: usize) -> (res: (Vec<String>, bool))
    ensures
        (views(res.0@), res.1) == extended(views(names@), views(new@), max as int),
{
    let ghost start = views(names@);
    let ghost all = views(new@);
    let mut names = names;
    let mut updated = false;
    let mut i: usize = 0;
    while i < new.len()
        invariant
            all == views(new@),
            i <= new@.len(),
            (views(names@), updated) == extended(start, all.take(i as int), max as int),
        decreases new@.len() - i,
    {
        assert(all.take(i + 1).drop_last() == all.take(i as int));
        if find_name(&names, new[i].as_str()).is_none() {
            let ghost before = names@;
            names.push(own(new[i].as_str()));
            let ghost longer = names@;
            assert(views(longer) =~= views(before).push(all[i as int]));
            names = keep_last(names, max);
            assert(views(names@) =~= last_of(views(longer), max as int));
            updated = true;
        }
        i += 1;
    }
    assert(all.take(i as int) == all);
    (names, updated)
}

/// What is known of a person after an update, and whether that is news.
pub fn revise(
    um: UserMemory,
    update: &UserUpdate,
    now: &Json,
    max_events: usize,
    max_names: usize,
) -> (res: (UserMemory, bool))
    ensures
        (res.0@, res.1) == revised(um@, update@, now@, max_events as int, max_names as int),
{
    let (fewer, fewer_news) = correct_names(um.names, &update.wrong_names);
    let (names, names_news) = extend_names(fewer, &update.new_names, max_names);
    let mut updated = fewer_news || names_news;
    let mut profile = um.profile;
    match &update.profile {
        Some(p) => {
            if !same(p.as_str(), profile.as_str()) {
                updated = true;
            }
            profile = own(p.as_str());
        },
        None => {},
    }
    let mut events = um.recent_events;
    match &update.event {
        Some(text) => {
            let ghost before = events@;
            events.push((now.copy(), own(text.as_str())));
            let ghost longer = events@;
            assert(event_views(longer) =~= event_views(before).push((now@, text@)));
            events = keep_last(events, max_events);
            assert(event_views(events@) =~= last_of(event_views(longer), max_events as int));
            updated = true;
        },
        None => {},
    }
    (UserMemory { names, profile, recent_events: events }, updated)
}

/// After an event came, no more than the allowed number of events is known, and it is the last.
pub proof fn law_events_are_bounded(
    um: UserMemoryView,
    update: UserUpdateView,
    now: JsonView,
    max_events: int,
    max_names: int,
)
    requires
        update.event is Some,
        max_events >= 0,
    ensures
        revised(um, update, now, max_events, max_names).0.recent_events.len() <= max_events,
        max_events > 0 ==> revised(um, update, now, max_events, max_names).0.recent_events.last()
            == (now, update.event->0),
{
}

/// No name is known twice after an update, where none was before.
pub proof fn law_names_stay_distinct(
    um: UserMemoryView,
    update: UserUpdateView,
    now: JsonView,
    max_events: int,
    max_names: int,
)
    requires
        um.names.no_duplicates(),
        max_names >= 0,
    ensures
        revised(um, update, now, max_events, max_names).0.names.no_duplicates(),
{
    lemma_corrected_distinct(um.names, update.wrong_names);
    lemma_extended_distinct(
        corrected(um.names, update.wrong_names).0,
        update.new_names,
        max_names,
    );
}

proof fn lemma_without_first(names: Seq<Seq<char>>, name: Seq<char>)
    requires
        names.no_duplicates(),
    ensures
        without_first(names, name).no_duplicates(),
        !without_first(names, name).contains(name),
        forall|x: Seq<char>| #[trigger] without_first(names, name).contains(x) ==> names.contains(x),
    decreases names.len(),
{
    let res = without_first(names, name);
    if names.len() > 0 {
        let rest = names.skip(1);
        assert forall|i: int, j: int| 0 <= i < rest.len() && 0 <= j < rest.len() && i != j implies
            rest[i] != rest[j] by {
            assert(rest[i] == names[i + 1] && rest[j] == names[j + 1]);
        }
        assert forall|x: Seq<char>| #[trigger] rest.contains(x) implies names.contains(x) && x
            != names[0] by {
            let i = choose|i: int| 0 <= i < rest.len() && rest[i] == x;
            assert(names[i + 1] == x);
        }
        if names[0] != name {
            lemma_without_first(rest, name);
            let tail = without_first(rest, name);
            assert(res == seq![names[0]] + tail);
            assert forall|i: int, j: int| 0 <= i < res.len() && 0 <= j < res.len() && i != j implies
                res[i] != res[j] by {
                if i > 0 {
                    assert(res[i] == tail[i - 1]);
                    assert(tail.contains(tail[i - 1]));
                }
                if j > 0 {
                    assert(res[j] == tail[j - 1]);
                    assert(tail.contains(tail[j - 1]));
                }
            }
            assert forall|x: Seq<char>| #[trigger] res.contains(x) implies names.contains(x) && x
                != name by {
                let i = choose|i: int| 0 <= i < res.len() && res[i] == x;
                if i > 0 {
                    assert(res[i] == tail[i - 1]);
                    assert(tail.contains(x));
                } else {
                    assert(names[0] == x);
                }
            }
        }
    }
}

proof fn lemma_corrected_distinct(names: Seq<Seq<char>>, wrong: Seq<Seq<char>>)
    requires
        names.no_duplicates(),
    ensures
        corrected(names, wrong).0.no_duplicates(),
    decreases wrong.len(),
{
    if wrong.len() > 0 {
        lemma_corrected_distinct(names, wrong.drop_last());
        lemma_without_first(corrected(names, wrong.drop_last()).0, wrong.last());
    }
}

proof fn lemma_extended_distinct(names: Seq<Seq<char>>, new: Seq<Seq<char>>, max: int)
    requires
        names.no_duplicates(),
        max >= 0,
    ensures
        extended(names, new, max).0.no_duplicates(),
    decreases new.len(),
{
    if new.len() > 0 {
        lemma_extended_distinct(names, new.drop_last(), max);
        let before = extended(names, new.drop_last(), max).0;
        if !before.contains(new.last()) {
            let longer = before.push(new.last());
            let res = last_of(longer, max);
            let cut = longer.len() - res.len();
            assert forall|i: int, j: int| 0 <= i < res.len() && 0 <= j < res.len() && i != j implies
                res[i] != res[j] by {
                assert(res[i] == longer[i + cut] && res[j] == longer[j + cut]);
                if i + cut < before.len() {
                    assert(before.contains(before[i + cut]));
                }
                if j + cut < before.len() {
                    assert(before.contains(before[j + cut]));
                }
            }
        }
    }
}

/// The entries of an object; none of what is no object.
pub open spec fn entries_of(v: JsonView) -> Seq<(Seq<char>, JsonView)> {
    match v {
        JsonView::Object(entries) => entries,
        _ => Seq::empty(),
    }
}

/// What the store says of a person.
pub open spec fn known_user(data: JsonView, user_id: i64) -> Option<UserMemoryView> {
    match stored(data, "ums"@).get(int_text(user_id as int)) {
        Some(v) => Some(user_memory(v)),
        None => None,
    }
}

/// The store after an update of what it says of a person; it stays as it is where that is no news.
pub open spec fn user_updated(
    data: JsonView,
    user_id: i64,
    update: UserUpdateView,
    now: JsonView,
    max_events: int,
    max_names: int,
) -> JsonView {
    let current = match known_user(data, user_id) {
        Some(um) => um,
        None => stranger(),
    };
    let next = revised(current, update, now, max_events, max_names);
    if next.1 {
        let people = put(
            entries_of(stored(data, "ums"@)),
            int_text(user_id as int),
            user_value(next.0),
        );
        with_value(data, "ums"@, JsonView::Object(people))
    } else {
        data
    }
}

/// The numbers of the people a name of whom occurs in the message, each once.
pub open spec fn mentioned(
    people: Seq<(Seq<char>, JsonView)>,
    message: Seq<char>,
) -> Seq<i64>
    decreases people.len(),
{
    if people.len() == 0 {
        Seq::empty()
    } else {
        let front = mentioned(people.drop_last(), message);
        match int_of_text(people.last().0) {
            Some(uid) => if named_in(user_memory(people.last().1).names, message)
                && !front.contains(uid) {
                front.push(uid)
            } else {
                front
            },
            None => front,
        }
    }
}

/// Whether a name that is not empty occurs in the message.
pub open spec fn named_in(names: Seq<Seq<char>>, message: Seq<char>) -> bool {
    exists|i: int|
        0 <= i < names.len() && (#[trigger] names[i]).len() > 0 && occurs(message, names[i])
}

fn is_named_in(names: &Vec<String>, message: &str) -> (res: bool)
    ensures
        res == named_in(views(names@), message@),
{
    let ghost all = views(names@);
    let mut i: usize = 0;
    while i < names.len()
        invariant
            all == views(names@),
            i <= names@.len(),
            forall|j: int|
                0 <= j < i ==> !((#[trigger] all[j]).len() > 0 && occurs(message@, all[j])),
        decreases names@.len() - i,
    {
        if !names[i].as_str().is_empty() && contains(message, names[i].as_str()) {
            assert(all[i as int].len() > 0 && occurs(message@, all[i as int]));
            return true;
        }
        i += 1;
    }
    false
}

/// What the bot said once.
pub struct SelfMemoryView {
    pub id: Seq<char>,
    pub time: Real,
    pub text: Seq<char>,
    pub sticker: Seq<char>,
}

/// What the bot said once: a text, or a sticker in words.
#[derive(Debug)]
pub struct SelfMemory {
    pub id: String,
    pub time: Real,
    pub text: String,
    pub sticker: String,
}

impl View for SelfMemory {
    type V = SelfMemoryView;

    open spec fn view(&self) -> SelfMemoryView {
        SelfMemoryView {
            id: self.id@,
            time: self.time,
            text: self.text@,
            sticker: self.sticker@,
        }
    }
}

/// The views of a list of things said.
pub open spec fn self_views(items: Seq<SelfMemory>) -> Seq<SelfMemoryView> {
    items.map_values(|m: SelfMemory| m@)
}

/// What a value in the store says of something that the bot said; one without an id says nothing.
pub open spec fn self_memory(v: JsonView) -> Option<SelfMemoryView> {
    match v.get_str("id"@) {
        Some(id) => Some(
            SelfMemoryView {
                id,
                time: match v.get("time"@) {
                    Some(JsonView::Number(n)) => num_real(n),
                    _ => (Real { bits: 0 }),
                },
                text: v.str_or_empty("text"@),
                sticker: v.str_or_empty("sticker"@),
            },
        ),
        None => None,
    }
}

/// What the items say of things that the bot said.
pub open spec fn self_memories(items: Seq<JsonView>) -> Seq<SelfMemoryView>
    decreases items.len(),
{
    if items.len() == 0 {
        Seq::empty()
    } else {
        match self_memory(items.last()) {
            Some(m) => self_memories(items.drop_last()).push(m),
            None => self_memories(items.drop_last()),
        }
    }
}

/// The items of an array; none of what is no array.
pub open spec fn items_of(v: JsonView) -> Seq<JsonView> {
    match v {
        JsonView::Array(items) => items,
        _ => Seq::empty(),
    }
}

/// The value by which the store keeps something that the bot said.
pub open spec fn self_value(
    msg_id: i64,
    text: Seq<char>,
    sticker: Seq<char>,
    now: JsonView,
) -> JsonView {
    let id = ("id"@, JsonView::Str(int_text(msg_id as int)));
    let time = ("time"@, now);
    if sticker.len() > 0 {
        JsonView::Object(seq![id, ("sticker"@, JsonView::Str(sticker)), time])
    } else {
        JsonView::Object(seq![id, ("text"@, JsonView::Str(text)), time])
    }
}

/// The store after the bot said something; it keeps no more than `keep_count` of them.
pub open spec fn self_added(
    data: JsonView,
    msg_id: i64,
    keep_count: int,
    text: Seq<char>,
    sticker: Seq<char>,
    now: JsonView,
) -> JsonView {
    let items = items_of(stored(data, "sms"@)).push(self_value(msg_id, text, sticker, now));
    with_value(data, "sms"@, JsonView::Array(last_of(items, keep_count)))
}

/// What a value in the store says of something that the bot said; one without an id says nothing.
pub fn parse_self_memory(v: &Json) -> (res: Option<SelfMemory>)
    ensures
        match res {
            Some(m) => self_memory(v@) == Some(m@),
            None => self_memory(v@) is None,
        },
{
    match v.get_str("id") {
        Some(id) => {
            let time = match v.get("time") {
                Some(t) => match t.as_real() {
                    Some(x) => x,
                    None => Real { bits: 0 },
                },
                None => Real { bits: 0 },
            };
            Some(
                SelfMemory {
                    id: own(id),
                    time,
                    text: v.str_or_empty("text"),
                    sticker: v.str_or_empty("sticker"),
                },
            )
        },
        None => None,
    }
}

/// What the bot remembers in one group: its store of people and of what it said.
#[derive(Debug)]
pub struct MemorySystem {
    pub file_db: FileDb,
}

impl MemorySystem {
    /// Updates what is known of a person; says whether that is news.
    pub fn um_update(
        &mut self,
        user_id: i64,
        update: &UserUpdate,
        now: &Json,
        max_events: usize,
        max_names: usize,
    ) -> (res: bool)
        ensures
            final(self).file_db.data@ == user_updated(
                old(self).file_db.data@,
                user_id,
                update@,
                now@,
                max_events as int,
                max_names as int,
            ),
            res == revised(
                match known_user(old(self).file_db.data@, user_id) {
                    Some(um) => um,
                    None => stranger(),
                },
                update@,
                now@,
                max_events as int,
                max_names as int,
            ).1,
    {
        let ums = self.file_db.get("ums");
        let uid = signed_text(user_id);
        let current = match ums.get(uid.as_str()) {
            Some(v) => parse_user_memory(v),
            None => {
                let names: Vec<String> = Vec::new();
                let recent_events: Vec<(Json, String)> = Vec::new();
                assert(views(names@) =~= Seq::empty());
                assert(event_views(recent_events@) =~= Seq::empty());
                UserMemory { names, profile: String::new(), recent_events }
            },
        };
        let (next, news) = revise(current, update, now, max_events, max_names);
        if news {
            proof {
                lemma_views(ums);
            }
            let ghost before = ums@;
            let entries: Vec<(String, Json)> = match ums {
                Json::Object(entries) => entries,
                _ => Vec::new(),
            };
            assert(entry_views(entries@) =~= entries_of(before));
            let entries = insert(entries, uid.as_str(), user_memory_to_json(&next));
            self.file_db.set("ums", Json::object(entries));
        }
        news
    }

    /// What is known of a person.
    pub fn um_get(&self, user_id: i64) -> (res: Option<UserMemory>)
        ensures
            match res {
                Some(um) => known_user(self.file_db.data@, user_id) == Some(um@),
                None => known_user(self.file_db.data@, user_id) is None,
            },
    {
        let ums = self.file_db.get("ums");
        let uid = signed_text(user_id);
        match ums.get(uid.as_str()) {
            Some(v) => Some(parse_user_memory(v)),
            None => None,
        }
    }

    /// The numbers of the people a name of whom occurs in the message, each once, in the order in
    /// which the store holds them.
    pub fn um_query_uid_by_name_in_message(&self, message: &str) -> (res: Vec<i64>)
        ensures
            res@ == mentioned(entries_of(stored(self.file_db.data@, "ums"@)), message@),
    {
        let ums = self.file_db.get("ums");
        let mut out: Vec<i64> = Vec::new();
        match ums.as_object() {
            Some(entries) => {
                let ghost all = entry_views(entries@);
                let mut i: usize = 0;
                while i < entries.len()
                    invariant
                        all == entry_views(entries@),
                        i <= entries@.len(),
                        out@ == mentioned(all.take(i as int), message@),
                    decreases entries@.len() - i,
                {
                    assert(all.take(i + 1).drop_last() == all.take(i as int));
                    assert(all[i as int] == (entries@[i as int].0@, entries@[i as int].1@));
                    let um = parse_user_memory(&entries[i].1);
                    if is_named_in(&um.names, message) {
                        match parse_int(entries[i].0.as_str()) {
                            Some(uid) => {
                                if !holds(&out, uid) {
                                    out.push(uid);
                                }
                            },
                            None => {},
                        }
                    }
                    i += 1;
                }
                assert(all.take(i as int) == all);
            },
            None => {},
        }
        out
    }

    /// Takes in something that the bot said, and keeps no more than `keep_count` of them.
    pub fn sm_add(&mut self, msg_id: i64, keep_count: usize, text: &str, sticker: &str, now: &Json)
        ensures
            final(self).file_db.data@ == self_added(
                old(self).file_db.data@,
                msg_id,
                keep_count as int,
                text@,
                sticker@,
                now@,
            ),
    {
        let sms = self.file_db.get("sms");
        proof {
            lemma_views(sms);
        }
        let ghost before = sms@;
        let mut items: Vec<Json> = match sms {
            Json::Array(items) => items,
            _ => Vec::new(),
        };
        let ghost start = items@;
        assert(json_views(start) =~= items_of(before));
        let id = signed_text(msg_id);
        let mut entries: Vec<(String, Json)> = Vec::new();
        entries.push((own("id"), Json::Str(id)));
        if !sticker.is_empty() {
            entries.push((own("sticker"), Json::str(sticker)));
        } else {
            entries.push((own("text"), Json::str(text)));
        }
        entries.push((own("time"), now.copy()));
        assert(entry_views(entries@) =~= self_value(msg_id, text@, sticker@, now@)->Object_0);
        let item = Json::object(entries);
        items.push(item);
        let ghost longer = items@;
        assert(json_views(longer) =~= json_views(start).push(item@));
        let items = keep_last(items, keep_count);
        assert(json_views(items@) =~= last_of(json_views(longer), keep_count as int));
        self.file_db.set("sms", Json::array(items));
    }

    /// What the bot said, as far as the store keeps it.
    pub fn sm_get(&self) -> (res: Vec<SelfMemory>)
        ensures
            self_views(res@) == self_memories(items_of(stored(self.file_db.data@, "sms"@))),
    {
        let sms = self.file_db.get("sms");
        let mut out: Vec<SelfMemory> = Vec::new();
        assert(self_views(out@) =~= Seq::empty());
        match sms.as_array() {
            Some(items) => {
                let ghost all = json_views(items@);
                let mut i: usize = 0;
                while i < items.len()
                    invariant
                        all == json_views(items@),
                        i <= items@.len(),
                        self_views(out@) == self_memories(all.take(i as int)),
                    decreases items@.len() - i,
                {
                    assert(all.take(i + 1).drop_last() == all.take(i as int));
                    match parse_self_memory(&items[i]) {
                        Some(m) => {
                            let ghost before = out@;
                            out.push(m);
                            assert(self_views(out@) =~= self_views(before).push(m@));
                        },
                        None => {},
                    }
                    i += 1;
                }
                assert(all.take(i as int) == all);
            },
            None => {},
        }
        out
    }
}

/// What an update makes of a person is what the store says of that person afterwards; of everybody
/// else it says what it said before.
pub proof fn law_user_is_known_after_update(
    data: JsonView,
    user_id: i64,
    update: UserUpdateView,
    now: JsonView,
    max_events: int,
    max_names: int,
    other: i64,
)
    requires
        now matches JsonView::Number(NumView::Float(_)),
        max_events >= 0,
    ensures
        ({
            let current = match known_user(data, user_id) {
                Some(um) => um,
                None => stranger(),
            };
            let next = revised(current, update, now, max_events, max_names);
            let after = user_updated(data, user_id, update, now, max_events, max_names);
            &&& next.1 ==> known_user(after, user_id) == Some(next.0)
            &&& !next.1 ==> after == data
            &&& other != user_id ==> known_user(after, other) == known_user(data, other)
        }),
{
    let current = match known_user(data, user_id) {
        Some(um) => um,
        None => stranger(),
    };
    let next = revised(current, update, now, max_events, max_names);
    let key = int_text(user_id as int);
    if next.1 {
        let people = entries_of(stored(data, "ums"@));
        let value = user_value(next.0);
        law_get_after_set(data, "ums"@, JsonView::Object(put(people, key, value)), "ums"@);
        crate::json::law_lookup_after_put(people, key, value, int_text(other as int));
        if key == int_text(other as int) {
            crate::text::law_decimal_is_injective(user_id, other);
        }
        match stored(data, "ums"@).get(key) {
            Some(v) => {
                law_parsed_memory_is_timed(v);
            },
            None => {},
        }
        assert(timed(next.0)) by {
            assert(timed(current));
            let events = next.0.recent_events;
            assert forall|i: int| 0 <= i < events.len() implies (
            #[trigger] events[i]).0 matches JsonView::Number(NumView::Float(_)) by {
                if update.event is Some {
                    let longer = current.recent_events.push((now, update.event->0));
                    let cut = longer.len() - events.len();
                    assert(events[i] == longer[i + cut]);
                    if i + cut < current.recent_events.len() {
                        assert(longer[i + cut] == current.recent_events[i + cut]);
                    }
                } else {
                    assert(events[i] == current.recent_events[i]);
                }
            }
        }
        law_user_memory_reads_back(next.0);
    }
}

/// An update leaves what the bot said, and what the bot says leaves what is known of people.
pub proof fn law_people_and_replies_are_apart(
    data: JsonView,
    user_id: i64,
    update: UserUpdateView,
    now: JsonView,
    max_events: int,
    max_names: int,
    msg_id: i64,
    keep_count: int,
    text: Seq<char>,
    sticker: Seq<char>,
)
    ensures
        stored(user_updated(data, user_id, update, now, max_events, max_names), "sms"@) == stored(
            data,
            "sms"@,
        ),
        known_user(self_added(data, msg_id, keep_count, text, sticker, now), user_id) == known_user(
            data,
            user_id,
        ),
{
    reveal_strlit("ums");
    reveal_strlit("sms");
    assert("ums"@[0] == 'u' && "sms"@[0] == 's');
    let current = match known_user(data, user_id) {
        Some(um) => um,
        None => stranger(),
    };
    let next = revised(current, update, now, max_events, max_names);
    let people = put(
        entries_of(stored(data, "ums"@)),
        int_text(user_id as int),
        user_value(next.0),
    );
    law_get_after_set(data, "ums"@, JsonView::Object(people), "sms"@);
    let items = items_of(stored(data, "sms"@)).push(self_value(msg_id, text, sticker, now));
    law_get_after_set(data, "sms"@, JsonView::Array(last_of(items, keep_count)), "ums"@);
}

/// What the bot said last is the last that it remembers, and it remembers no more than allowed.
pub proof fn law_last_reply_is_remembered(
    data: JsonView,
    msg_id: i64,
    keep_count: int,
    text: Seq<char>,
    sticker: Seq<char>,
    time: Real,
)
    requires
        keep_count > 0,
    ensures
        ({
            let now = JsonView::Number(NumView::Float(time.bits));
            let after = self_added(data, msg_id, keep_count, text, sticker, now);
            let said = self_memories(items_of(stored(after, "sms"@)));
            &&& said.len() <= keep_count
            &&& said.len() > 0
            &&& said.last() == (SelfMemoryView {
                id: int_text(msg_id as int),
                time,
                text: if sticker.len() > 0 {
                    Seq::empty()
                } else {
                    text
                },
                sticker,
            })
        }),
{
    let now = JsonView::Number(NumView::Float(time.bits));
    let item = self_value(msg_id, text, sticker, now);
    let items = items_of(stored(data, "sms"@)).push(item);
    let kept = last_of(items, keep_count);
    law_get_after_set(data, "sms"@, JsonView::Array(kept), "sms"@);
    let entries = item->Object_0;
    reveal_strlit("id");
    reveal_strlit("sticker");
    reveal_strlit("text");
    reveal_strlit("time");
    assert("id"@.len() == 2 && "sticker"@.len() == 7 && "text"@.len() == 4 && "time"@.len() == 4
        && "text"@[1] == 'e' && "time"@[1] == 'i');
    reveal_with_fuel(lookup, 5);
    assert(entries.skip(1)[0] == entries[1]);
    assert(entries.skip(1).skip(1)[0] == entries[2]);
    assert(item.get("id"@) == Some(entries[0].1));
    assert(item.get("time"@) == Some(now));
    if sticker.len() > 0 {
        assert(item.get("sticker"@) == Some(JsonView::Str(sticker)));
        assert(item.get("text"@) is None);
    } else {
        assert(item.get("text"@) == Some(JsonView::Str(text)));
        assert(item.get("sticker"@) is None);
        assert(sticker =~= Seq::empty());
    }
    assert(kept.last() == item);
    lemma_self_memories_len(kept);
}

proof fn lemma_self_memories_len(items: Seq<JsonView>)
    ensures
        self_memories(items).len() <= items.len(),
    decreases items.len(),
{
    if items.len() > 0 {
        lemma_self_memories_len(items.drop_last());
    }
}

/// Whether two lists of events say the same; their times may differ.
pub open spec fn same_events(a: Seq<(JsonView, Seq<char>)>, b: Seq<(JsonView, Seq<char>)>) -> bool {
    a.len() == b.len() && forall|i: int| 0 <= i < a.len() ==> (#[trigger] a[i]).1 == b[i].1
}

proof fn lemma_event_rereads(item: JsonView)
    ensures
        event_of(item.reread()) is Some == (event_of(item) is Some),
        event_of(item) matches Some(e) ==> (event_of(item.reread())->0).1 == e.1,
{
    law_reread_keeps_texts_and_integers(item, Seq::empty());
    if let JsonView::Array(parts) = item {
        if parts.len() >= 2 {
            let again = item.reread()->Array_0;
            assert(again[0] == parts[0].reread());
            assert(again[1] == parts[1].reread());
        }
    }
}

proof fn lemma_events_reread(items: Seq<JsonView>, again: Seq<JsonView>)
    requires
        items.len() == again.len(),
        forall|i: int| 0 <= i < items.len() ==> #[trigger] again[i] == items[i].reread(),
    ensures
        same_events(events_of(again), events_of(items)),
    decreases items.len(),
{
    if items.len() > 0 {
        assert(again.last() == items.last().reread());
        lemma_event_rereads(items.last());
        lemma_events_reread(items.drop_last(), again.drop_last());
    }
}

/// What the store says of a person comes back from its file: the same names, the same profile, and the
/// same events, whose times are as they are read from their texts.
pub proof fn law_people_survive_being_kept(data: JsonView, user_id: i64)
    ensures
        match known_user(data, user_id) {
            Some(um) => {
                &&& known_user(data.reread(), user_id) matches Some(again)
                &&& again.names == um.names
                &&& again.profile == um.profile
                &&& same_events(again.recent_events, um.recent_events)
            },
            None => known_user(data.reread(), user_id) is None,
        },
{
    let id = int_text(user_id as int);
    law_stored_rereads(data, "ums"@);
    let people = stored(data, "ums"@);
    law_reread_keeps_texts_and_integers(people, id);
    if let Some(v) = people.get(id) {
        law_reread_keeps_texts_and_integers(v, "text"@);
        law_reread_keeps_texts_and_integers(v, "profile"@);
        law_reread_keeps_texts_and_integers(v, "recent_events"@);
        law_reread_keeps_texts(v, "text"@);
        law_reread_keeps_texts(v, "profile"@);
        law_reread_keeps_texts(v, "names"@);
        if let Some(w) = v.get("recent_events"@) {
            law_reread_keeps_texts_and_integers(w, Seq::empty());
            if let JsonView::Array(items) = w {
                lemma_events_reread(items, w.reread()->Array_0);
            }
        }
    }
}

/// Whether two lists of what the bot said say the same; the times may differ.
pub open spec fn same_said(a: Seq<SelfMemoryView>, b: Seq<SelfMemoryView>) -> bool {
    a.len() == b.len() && forall|i: int|
        0 <= i < a.len() ==> (#[trigger] a[i]).id == b[i].id && a[i].text == b[i].text
            && a[i].sticker == b[i].sticker
}

proof fn lemma_said_rereads(items: Seq<JsonView>, again: Seq<JsonView>)
    requires
        items.len() == again.len(),
        forall|i: int| 0 <= i < items.len() ==> #[trigger] again[i] == items[i].reread(),
    ensures
        same_said(self_memories(again), self_memories(items)),
    decreases items.len(),
{
    if items.len() > 0 {
        let v = items.last();
        assert(again.last() == v.reread());
        law_reread_keeps_texts(v, "id"@);
        law_reread_keeps_texts(v, "text"@);
        law_reread_keeps_texts(v, "sticker"@);
        lemma_said_rereads(items.drop_last(), again.drop_last());
    }
}

/// What the bot said comes back from the store's file in the same order, with the same texts; the
/// times are as they are read from theirs.
pub proof fn law_said_survives_being_kept(data: JsonView)
    ensures
        same_said(
            self_memories(items_of(stored(data.reread(), "sms"@))),
            self_memories(items_of(stored(data, "sms"@))),
        ),
{
    law_stored_rereads(data, "sms"@);
    let sms = stored(data, "sms"@);
    law_reread_keeps_texts_and_integers(sms, Seq::empty());
    if let JsonView::Array(items) = sms {
        lemma_said_rereads(items, sms.reread()->Array_0);
    }
}

/// The events of a person are read, in their order, where each is a time and a text.
pub proof fn law_events_are_all_read(items: Seq<JsonView>)
    ensures
        selected(
            items.len() as int,
            |i: int|
                match items[i] {
                    JsonView::Array(parts) => if parts.len() >= 2 && parts[0] is Number && parts[1] is Str {
                        Some(
                            (JsonView::Number(NumView::Float(num_real(parts[0]->Number_0).bits)), parts[1]->Str_0),
                        )
                    } else {
                        None
                    },
                    _ => None,
                },
            events_of(items),
        ),
{
    let f = |i: int|
        match items[i] {
            JsonView::Array(parts) => if parts.len() >= 2 && parts[0] is Number && parts[1] is Str {
                Some(
                    (JsonView::Number(NumView::Float(num_real(parts[0]->Number_0).bits)), parts[1]->Str_0),
                )
            } else {
                None
            },
            _ => None,
        };
    lemma_events_are_all_read(items, f, items.len() as int);
    assert(items.take(items.len() as int) =~= items);
}

proof fn lemma_events_are_all_read(
    items: Seq<JsonView>,
    f: spec_fn(int) -> Option<(JsonView, Seq<char>)>,
    n: int,
)
    requires
        0 <= n <= items.len(),
        forall|i: int|
            0 <= i < items.len() ==> (#[trigger] f(i)) == (
                match items[i] {
                    JsonView::Array(parts) => if parts.len() >= 2 && parts[0] is Number && parts[1] is Str {
                        Some(
                            (JsonView::Number(NumView::Float(num_real(parts[0]->Number_0).bits)), parts[1]->Str_0),
                        )
                    } else {
                        None
                    },
                    _ => None,
                }
            ),
    ensures
        selected(n, f, events_of(items.take(n))),
    decreases n,
{
    if n == 0 {
        lemma_selected_none(f);
    } else {
        lemma_events_are_all_read(items, f, n - 1);
        assert(items.take(n).drop_last() =~= items.take(n - 1));
        lemma_selected_next(n - 1, f, events_of(items.take(n - 1)));
    }
}

/// What the bot said is read, in its order, where it has a number: with its time, its text and its
/// sticker.
pub proof fn law_replies_are_all_read(items: Seq<JsonView>)
    ensures
        selected(
            items.len() as int,
            |i: int|
                match items[i].get_str("id"@) {
                    Some(id) => Some(
                        SelfMemoryView {
                            id,
                            time: if items[i].get("time"@) is Some && items[i].get("time"@)->0 is Number {
                                num_real(items[i].get("time"@)->0->Number_0)
                            } else {
                                (Real { bits: 0 })
                            },
                            text: match items[i].get_str("text"@) {
                                Some(t) => t,
                                None => Seq::empty(),
                            },
                            sticker: match items[i].get_str("sticker"@) {
                                Some(t) => t,
                                None => Seq::empty(),
                            },
                        },
                    ),
                    None => None,
                },
            self_memories(items),
        ),
{
    let f = |i: int|
        match items[i].get_str("id"@) {
            Some(id) => Some(
                SelfMemoryView {
                    id,
                    time: if items[i].get("time"@) is Some && items[i].get("time"@)->0 is Number {
                        num_real(items[i].get("time"@)->0->Number_0)
                    } else {
                        (Real { bits: 0 })
                    },
                    text: match items[i].get_str("text"@) {
                        Some(t) => t,
                        None => Seq::empty(),
                    },
                    sticker: match items[i].get_str("sticker"@) {
                        Some(t) => t,
                        None => Seq::empty(),
                    },
                },
            ),
            None => None,
        };
    lemma_replies_are_all_read(items, f, items.len() as int);
    assert(items.take(items.len() as int) =~= items);
}

proof fn lemma_replies_are_all_read(
    items: Seq<JsonView>,
    f: spec_fn(int) -> Option<SelfMemoryView>,
    n: int,
)
    requires
        0 <= n <= items.len(),
        forall|i: int|
            0 <= i < items.len() ==> (#[trigger] f(i)) == (
                match items[i].get_str("id"@) {
                    Some(id) => Some(
                        SelfMemoryView {
                            id,
                            time: if items[i].get("time"@) is Some && items[i].get("time"@)->0 is Number {
                                num_real(items[i].get("time"@)->0->Number_0)
                            } else {
                                (Real { bits: 0 })
                            },
                            text: match items[i].get_str("text"@) {
                                Some(t) => t,
                                None => Seq::empty(),
                            },
                            sticker: match items[i].get_str("sticker"@) {
                                Some(t) => t,
                                None => Seq::empty(),
                            },
                        },
                    ),
                    None => None,
                }
            ),
    ensures
        selected(n, f, self_memories(items.take(n))),
    decreases n,
{
    if n == 0 {
        lemma_selected_none(f);
    } else {
        lemma_replies_are_all_read(items, f, n - 1);
        assert(items.take(n).drop_last() =~= items.take(n - 1));
        lemma_selected_next(n - 1, f, self_memories(items.take(n - 1)));
    }
}

/// What is kept of a person: the names, the profile and the events; of one kept in the old way, with a
/// text and no profile, the text is the profile.
pub proof fn law_person_is_read(v: JsonView)
    ensures
        v.get("text"@) is Some && v.get("profile"@) is None ==> {
            &&& user_memory(v).names.len() == 0
            &&& user_memory(v).recent_events.len() == 0
            &&& v.get_str("text"@) is Some ==> user_memory(v).profile == v.get_str("text"@)->0
        },
        v.get("text"@) is None || v.get("profile"@) is Some ==> {
            &&& user_memory(v).names == v.strings("names"@)
            &&& v.get_str("profile"@) is Some ==> user_memory(v).profile == v.get_str("profile"@)->0
            &&& v.get_str("profile"@) is None ==> user_memory(v).profile.len() == 0
            &&& v.get("recent_events"@) matches Some(JsonView::Array(items)) ==> user_memory(
                v,
            ).recent_events == events_of(items)
            &&& !(v.get("recent_events"@) matches Some(JsonView::Array(_))) ==> user_memory(
                v,
            ).recent_events.len() == 0
        },
        stranger().names.len() == 0,
        stranger().profile.len() == 0,
        stranger().recent_events.len() == 0,
{
}

/// A wrong name is taken out once, where it stands first; the others keep their order. Names that are not
/// known change nothing.
pub proof fn law_wrong_name_is_taken_out(
    before: Seq<Seq<char>>,
    name: Seq<char>,
    after: Seq<Seq<char>>,
    names: Seq<Seq<char>>,
    wrong: Seq<Seq<char>>,
)
    ensures
        !before.contains(name) ==> without_first(before + seq![name] + after, name) == before
            + after,
        !before.contains(name) ==> without_first(before, name) == before,
        corrected(names, Seq::empty()) == (names, false),
        corrected(names, wrong.push(name)) == (
            without_first(corrected(names, wrong).0, name),
            corrected(names, wrong).1 || corrected(names, wrong).0.contains(name),
        ),
    decreases before.len(),
{
    assert(wrong.push(name).drop_last() =~= wrong);
    let s = before + seq![name] + after;
    if before.len() == 0 {
        assert(s[0] == name);
        assert(s.skip(1) =~= before + after);
    } else {
        let rest = before.skip(1);
        law_wrong_name_is_taken_out(rest, name, after, names, wrong);
        assert(s[0] == before[0]);
        assert(s.skip(1) =~= rest + seq![name] + after);
        if !before.contains(name) {
            assert(before[0] != name);
            if rest.contains(name) {
                let k = choose|k: int| 0 <= k < rest.len() && rest[k] == name;
                assert(before[k + 1] == name);
            }
            assert(seq![before[0]] + (rest + after) =~= before + after);
            assert(seq![before[0]] + rest =~= before);
        }
    }
}

/// A name that is known already changes nothing; a new one comes last, and where there are too many then
/// the oldest go.
pub proof fn law_new_name_comes_last(
    names: Seq<Seq<char>>,
    new: Seq<Seq<char>>,
    name: Seq<char>,
    max: int,
)
    requires
        max >= 0,
    ensures
        extended(names, Seq::empty(), max) == (names, false),
        extended(names, new, max).0.contains(name) ==> extended(names, new.push(name), max)
            == extended(names, new, max),
        !extended(names, new, max).0.contains(name) ==> {
            let before = extended(names, new, max).0;
            let res = extended(names, new.push(name), max);
            &&& res.1
            &&& res.0.len() == vstd::math::min(max, before.len() + 1int)
            &&& max > 0 ==> res.0.last() == name
            &&& forall|i: int|
                0 <= i < res.0.len() - 1 ==> #[trigger] res.0[i] == before[before.len() + 1
                    - res.0.len() + i]
        },
{
    assert(new.push(name).drop_last() =~= new);
}

/// What an update changes: wrong names go before new ones come; a profile that is given replaces the old
/// one, which stays else; an event that is given comes last, with the time, and else the events stay. It
/// counts as a change where any of these did something, and an event always does.
pub proof fn law_update_changes_what_it_gives(
    um: UserMemoryView,
    update: UserUpdateView,
    now: JsonView,
    max_events: int,
    max_names: int,
)
    requires
        max_events > 0,
    ensures
        ({
            let res = revised(um, update, now, max_events, max_names);
            let fewer = corrected(um.names, update.wrong_names);
            let more = extended(fewer.0, update.new_names, max_names);
            &&& res.0.names == more.0
            &&& update.profile matches Some(p) ==> res.0.profile == p
            &&& update.profile is None ==> res.0.profile == um.profile
            &&& update.event is None ==> res.0.recent_events == um.recent_events
            &&& update.event matches Some(text) ==> {
                &&& res.0.recent_events.last() == (now, text)
                &&& res.0.recent_events.len() == vstd::math::min(
                    max_events,
                    um.recent_events.len() + 1int,
                )
                &&& forall|i: int|
                    0 <= i < res.0.recent_events.len() - 1 ==> #[trigger] res.0.recent_events[i]
                        == um.recent_events[um.recent_events.len() + 1 - res.0.recent_events.len()
                        + i]
            }
            &&& res.1 == (fewer.1 || more.1 || update.event is Some || (update.profile is Some
                && update.profile->0 != um.profile))
        }),
{
}

/// A message names somebody where it holds one of the names, unless that is empty.
pub proof fn law_message_names_somebody(names: Seq<Seq<char>>, message: Seq<char>, i: int)
    ensures
        0 <= i < names.len() && names[i].len() > 0 && occurs(message, names[i]) ==> named_in(
            names,
            message,
        ),
        (forall|k: int|
            0 <= k < names.len() ==> (#[trigger] names[k]).len() == 0 || !occurs(message, names[k]))
            ==> !named_in(names, message),
{
}

/// Everybody is found, once and in their order, who has a number and a name that the message holds.
pub proof fn law_everybody_named_is_found(people: Seq<(Seq<char>, JsonView)>, message: Seq<char>)
    ensures
        selected(
            people.len() as int,
            |i: int|
                if int_of_text(people[i].0) is Some && named_in(user_memory(people[i].1).names, message) && (forall|
                    j: int,
                |
                    0 <= j < i ==> !(int_of_text((#[trigger] people[j]).0) == int_of_text(people[i].0) && named_in(
                        user_memory(people[j].1).names,
                        message,
                    ))) {
                    Some(int_of_text(people[i].0)->0)
                } else {
                    None
                },
            mentioned(people, message),
        ),
{
    let f = |i: int|
        if int_of_text(people[i].0) is Some && named_in(user_memory(people[i].1).names, message) && (forall|
            j: int,
        |
            0 <= j < i ==> !(int_of_text((#[trigger] people[j]).0) == int_of_text(people[i].0) && named_in(
                user_memory(people[j].1).names,
                message,
            ))) {
            Some(int_of_text(people[i].0)->0)
        } else {
            None
        };
    lemma_everybody_named_is_found(people, message, f, people.len() as int);
    assert(people.take(people.len() as int) =~= people);
}

proof fn lemma_everybody_named_is_found(
    people: Seq<(Seq<char>, JsonView)>,
    message: Seq<char>,
    f: spec_fn(int) -> Option<i64>,
    n: int,
)
    requires
        0 <= n <= people.len(),
        forall|i: int|
            0 <= i < people.len() ==> (#[trigger] f(i)) == (
                if int_of_text(people[i].0) is Some && named_in(user_memory(people[i].1).names, message) && (forall|
                    j: int,
                |
                    0 <= j < i ==> !(int_of_text((#[trigger] people[j]).0) == int_of_text(people[i].0) && named_in(
                        user_memory(people[j].1).names,
                        message,
                    ))) {
                    Some(int_of_text(people[i].0)->0)
                } else {
                    None
                }
            ),
    ensures
        selected(n, f, mentioned(people.take(n), message)),
    decreases n,
{
    if n == 0 {
        lemma_selected_none(f);
    } else {
        lemma_everybody_named_is_found(people, message, f, n - 1);
        assert(people.take(n).drop_last() =~= people.take(n - 1));
        let front = people.take(n - 1);
        if int_of_text(people[n - 1].0) is Some {
            let uid = int_of_text(people[n - 1].0)->0;
            lemma_mentioned_holds(front, message, uid);
            if mentioned(front, message).contains(uid) {
                let j = choose|j: int|
                    0 <= j < front.len() && int_of_text((#[trigger] front[j]).0) == Some(uid) && named_in(
                        user_memory(front[j].1).names,
                        message,
                    );
                assert(people[j] == front[j]);
            } else {
                assert forall|j: int| 0 <= j < n - 1 implies !(int_of_text((#[trigger] people[j]).0)
                    == Some(uid) && named_in(user_memory(people[j].1).names, message)) by {
                    assert(front[j] == people[j]);
                }
            }
        }
        lemma_selected_next(n - 1, f, mentioned(people.take(n - 1), message));
    }
}

proof fn lemma_mentioned_holds(people: Seq<(Seq<char>, JsonView)>, message: Seq<char>, uid: i64)
    ensures
        mentioned(people, message).contains(uid) == (exists|j: int|
            0 <= j < people.len() && int_of_text((#[trigger] people[j]).0) == Some(uid) && named_in(
                user_memory(people[j].1).names,
                message,
            )),
    decreases people.len(),
{
    if people.len() > 0 {
        let front = people.drop_last();
        let last = people.len() - 1;
        lemma_mentioned_holds(front, message, uid);
        let ids = mentioned(front, message);
        let res = mentioned(people, message);
        if ids.contains(uid) {
            let j = choose|j: int|
                0 <= j < front.len() && int_of_text((#[trigger] front[j]).0) == Some(uid)
                    && named_in(user_memory(front[j].1).names, message);
            assert(people[j] == front[j]);
            let k = choose|k: int| 0 <= k < ids.len() && ids[k] == uid;
            assert(res[k] == uid);
        } else if int_of_text(people[last].0) == Some(uid) && named_in(
            user_memory(people[last].1).names,
            message,
        ) {
            assert(res[ids.len() as int] == uid);
        } else {
            assert forall|j: int| 0 <= j < people.len() implies !(int_of_text(
                (#[trigger] people[j]).0,
            ) == Some(uid) && named_in(user_memory(people[j].1).names, message)) by {
                if j < last {
                    assert(front[j] == people[j]);
                }
            }
        }
    }
}

/// What the bot says comes behind what it said before, of which the last stay.
pub proof fn law_replies_pile_up(
    data: JsonView,
    msg_id: i64,
    keep_count: int,
    text: Seq<char>,
    sticker: Seq<char>,
    now: JsonView,
    items: Seq<JsonView>,
)
    requires
        keep_count > 0,
        stored(data, "sms"@) == JsonView::Array(items),
    ensures
        ({
            let after = stored(
                self_added(data, msg_id, keep_count, text, sticker, now),
                "sms"@,
            );
            let res = after->Array_0;
            &&& after is Array
            &&& res.len() == vstd::math::min(keep_count, items.len() + 1int)
            &&& res.last().get_str("id"@) == Some(int_text(msg_id as int))
            &&& forall|i: int|
                0 <= i < res.len() - 1 ==> #[trigger] res[i] == items[items.len() + 1 - res.len()
                    + i]
        }),
{
    let value = self_value(msg_id, text, sticker, now);
    let kept = last_of(items.push(value), keep_count);
    law_get_after_set(data, "sms"@, JsonView::Array(kept), "sms"@);
    assert(kept.last() == value);
    assert(value.get_str("id"@) == Some(int_text(msg_id as int))) by {
        reveal_with_fuel(lookup, 2);
    }
}

} // verus!
