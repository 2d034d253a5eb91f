//! What the language model asks the bot to do.

use crate::json::{entry_views, json_views, lemma_views, Json, JsonView};
use crate::text::{
    all_digits, chars_of, int_of_text, int_text, nat_text, only_digits, parse_int, same,
    signed_text, trim, trimmed, unsigned_text,
};
use crate::util::holds;
use crate::select::{lemma_selected_next, lemma_selected_none, selected};
use vstd::prelude::*;

verus! {

/// How many actions one reply may hold.
pub const MAX_ACTIONS: usize = 5;

/// How many of them may be texts.
pub const MAX_TEXT_ACTIONS: usize = 3;

/// How many of them may be reactions.
pub const MAX_REACT_ACTIONS: usize = 3;

/// What an action holds.
pub enum ActionView {
    Text { text: Seq<char> },
    Poke { ids: Seq<i64> },
    Sticker { query: JsonView },
    React { msg_id: i64, emoji_id: Seq<char> },
}

/// Something to do: send a text, poke people, send a sticker, or react to a message.
#[derive(Debug)]
pub enum Action {
    Text { text: String },
    Poke { ids: Vec<i64> },
    Sticker { query: Json },
    React { msg_id: i64, emoji_id: String },
}

impl View for Action {
    type V = ActionView;

    open spec fn view(&self) -> ActionView {
        match self {
            Action::Text { text } => ActionView::Text { text: text@ },
            Action::Poke { ids } => ActionView::Poke { ids: ids@ },
            Action::Sticker { query } => ActionView::Sticker { query: query@ },
            Action::React { msg_id, emoji_id } => ActionView::React {
                msg_id: *msg_id,
                emoji_id: emoji_id@,
            },
        }
    }
}

/// The views of a list of actions.
pub open spec fn action_views(actions: Seq<Action>) -> Seq<ActionView> {
    actions.map_values(|a: Action| a@)
}

impl ActionView {
    /// The name of the action's kind.
    pub open spec fn kind(self) -> Seq<char> {
        match self {
            ActionView::Text { .. } => "text"@,
            ActionView::Poke { .. } => "poke"@,
            ActionView::Sticker { .. } => "sticker"@,
            ActionView::React { .. } => "react"@,
        }
    }
}

impl Action {
    /// The name of the action's kind.
    pub fn kind(&self) -> (res: &'static str)
        ensures
            res@ == self@.kind(),
    {
        match self {
            Action::Text { .. } => "text",
            Action::Poke { .. } => "poke",
            Action::Sticker { .. } => "sticker",
            Action::React { .. } => "react",
        }
    }
}

/// The integers above zero among the items, each once.
pub open spec fn positive_ids(items: Seq<JsonView>) -> Seq<i64>
    decreases items.len(),
{
    if items.len() == 0 {
        Seq::empty()
    } else {
        let front = positive_ids(items.drop_last());
        match items.last().to_int() {
            Some(uid) => if uid > 0 && !front.contains(uid) {
                front.push(uid)
            } else {
                front
            },
            None => front,
        }
    }
}

/// The people that a value names: an array of numbers or texts, or a single one.
pub open spec fn poke_ids(raw: JsonView) -> Seq<i64> {
    match raw {
        JsonView::Array(items) => positive_ids(items),
        JsonView::Number(_) => positive_ids(seq![raw]),
        JsonView::Str(_) => positive_ids(seq![raw]),
        _ => Seq::empty(),
    }
}

fn add_id(ids: &mut Vec<i64>, item: &Json)
    ensures
        final(ids)@ == (match item@.to_int() {
            Some(uid) => if uid > 0 && !old(ids)@.contains(uid) {
                old(ids)@.push(uid)
            } else {
                old(ids)@
            },
            None => old(ids)@,
        }),
{
    match item.to_int() {
        Some(uid) => {
            if uid > 0 && !holds(ids, uid) {
                ids.push(uid);
            }
        },
        None => {},
    }
}

/// The people that a value names: an array of numbers or texts, or a single one.
pub fn parse_poke_ids(raw: &Json) -> (res: Vec<i64>)
    ensures
        res@ == poke_ids(raw@),
{
    let mut ids: Vec<i64> = Vec::new();
    proof {
        lemma_views(*raw);
    }
    match raw {
        Json::Array(items) => {
            let ghost all = json_views(items@);
            let mut i: usize = 0;
            while i < items.len()
                invariant
                    all == json_views(items@),
                    i <= items@.len(),
                    ids@ == positive_ids(all.take(i as int)),
                decreases items@.len() - i,
            {
                assert(all.take(i + 1).drop_last() == all.take(i as int));
                add_id(&mut ids, &items[i]);
                i += 1;
            }
            assert(all.take(i as int) == all);
        },
        Json::Number(_) | Json::Str(_) => {
            assert(seq![raw@].drop_last() == Seq::<JsonView>::empty());
            assert(positive_ids(Seq::<JsonView>::empty()) == Seq::<i64>::empty());
            add_id(&mut ids, raw);
        },
        _ => {},
    }
    ids
}

/// The people to poke are numbers above zero, no two alike.
pub proof fn law_poke_ids_are_distinct(raw: JsonView)
    ensures
        poke_ids(raw).no_duplicates(),
        forall|i: int| 0 <= i < poke_ids(raw).len() ==> (#[trigger] poke_ids(raw)[i]) > 0,
{
    match raw {
        JsonView::Array(items) => lemma_positive_ids(items),
        JsonView::Number(_) => lemma_positive_ids(seq![raw]),
        JsonView::Str(_) => lemma_positive_ids(seq![raw]),
        _ => {},
    }
}

proof fn lemma_positive_ids(items: Seq<JsonView>)
    ensures
        positive_ids(items).no_duplicates(),
        forall|i: int| 0 <= i < positive_ids(items).len() ==> (#[trigger] positive_ids(items)[i]) > 0,
    decreases items.len(),
{
    if items.len() > 0 {
        lemma_positive_ids(items.drop_last());
        let front = positive_ids(items.drop_last());
        let res = positive_ids(items);
        if res != front {
            assert forall|i: int, j: int| 0 <= i < res.len() && 0 <= j < res.len() && i != j
                implies res[i] != res[j] by {
                if i == front.len() {
                    assert(front.contains(front[j]));
                } else if j == front.len() {
                    assert(front.contains(front[i]));
                }
            }
        }
    }
}

/// Whether a sticker is asked for by its emotion or its scene.
pub open spec fn names_sticker(query: JsonView) -> bool {
    query.str_or_empty("emotion"@).len() > 0 || query.str_or_empty("scene"@).len() > 0
}

/// Whether a sticker is asked for by its emotion or its scene.
pub fn sticker_query_ok(query: &Json) -> (res: bool)
    ensures
        res == names_sticker(query@),
{
    let e = query.str_or_empty("emotion");
    let s = query.str_or_empty("scene");
    !e.as_str().is_empty() || !s.as_str().is_empty()
}

/// The text of a value: a text itself, of any other value its JSON text; without the space around it.
pub open spec fn shown(v: JsonView) -> Seq<char> {
    match v {
        JsonView::Str(s) => trimmed(s),
        _ => trimmed(v.canonical().written()),
    }
}

fn show(v: &Json) -> (res: String)
    ensures
        res@ == shown(v@),
{
    match v {
        Json::Str(s) => trim(s.as_str()),
        _ => {
            let t = v.text();
            trim(t.as_str())
        },
    }
}

/// The number of an emoji that is given by its number.
pub open spec fn numbered_emoji(n: i64) -> Option<Seq<char>> {
    if n > 0 {
        Some(int_text(n as int))
    } else {
        None
    }
}

/// The number of an emoji that is given by a text: the number itself, or the code of its first
/// character where this is beyond ASCII.
pub open spec fn written_emoji(text: Seq<char>) -> Option<Seq<char>> {
    if text.len() == 0 {
        None
    } else if all_digits(text) {
        match int_of_text(text) {
            Some(n) => if n > 0 {
                Some(text)
            } else {
                None
            },
            None => None,
        }
    } else if (text[0] as u32) < 128 {
        None
    } else {
        Some(nat_text(text[0] as u32 as nat))
    }
}

/// The number of an emoji.
pub open spec fn emoji_id(raw: JsonView) -> Option<Seq<char>> {
    match raw {
        JsonView::Null => None,
        JsonView::Number(_) => match raw.to_int() {
            Some(n) => numbered_emoji(n),
            None => None,
        },
        _ => written_emoji(shown(raw)),
    }
}

/// The number of an emoji.
pub fn emoji_to_id(raw: &Json) -> (res: Option<String>)
    ensures
        match res {
            Some(s) => emoji_id(raw@) == Some(s@),
            None => emoji_id(raw@) is None,
        },
{
    match raw {
        Json::Null => None,
        Json::Number(_) => match raw.to_int() {
            Some(n) => if n > 0 {
                Some(signed_text(n))
            } else {
                None
            },
            None => None,
        },
        _ => {
            let text = show(raw);
            if text.as_str().is_empty() {
                return None;
            }
            if only_digits(text.as_str()) {
                return match parse_int(text.as_str()) {
                    Some(n) => if n > 0 {
                        Some(text)
                    } else {
                        None
                    },
                    None => None,
                };
            }
            let chars = chars_of(text.as_str());
            let code = chars[0] as u32;
            if code < 128 {
                None
            } else {
                Some(unsigned_text(code as u64))
            }
        },
    }
}

/// The message and the emoji of a reaction.
pub open spec fn reaction(raw: JsonView) -> Option<(i64, Seq<char>)> {
    match raw {
        JsonView::Array(items) => if items.len() < 2 {
            None
        } else {
            match (items[0].to_int(), emoji_id(items[1])) {
                (Some(msg_id), Some(emoji)) => Some((msg_id, emoji)),
                _ => None,
            }
        },
        _ => None,
    }
}

/// The message and the emoji of a reaction.
pub fn parse_react(raw: &Json) -> (res: Option<(i64, String)>)
    ensures
        match res {
            Some(r) => reaction(raw@) == Some((r.0, r.1@)),
            None => reaction(raw@) is None,
        },
{
    match raw.as_array() {
        Some(items) => {
            if items.len() < 2 {
                return None;
            }
            match (items[0].to_int(), emoji_to_id(&items[1])) {
                (Some(msg_id), Some(emoji)) => Some((msg_id, emoji)),
                _ => None,
            }
        },
        None => None,
    }
}

/// The action that a text asks for.
pub open spec fn text_action(text: Seq<char>) -> Seq<ActionView> {
    if text.len() == 0 {
        Seq::empty()
    } else {
        seq![ActionView::Text { text }]
    }
}

/// The action that one entry of an item asks for, where it asks for any.
pub open spec fn entry_actions(key: Seq<char>, val: JsonView) -> Seq<ActionView> {
    if key == "text"@ {
        if val is Null {
            Seq::empty()
        } else {
            text_action(shown(val))
        }
    } else if key == "poke"@ {
        if poke_ids(val).len() == 0 {
            Seq::empty()
        } else {
            seq![ActionView::Poke { ids: poke_ids(val) }]
        }
    } else if key == "sticker"@ && names_sticker(val) {
        seq![ActionView::Sticker { query: val }]
    } else if key == "react"@ {
        match reaction(val) {
            Some((msg_id, emoji_id)) => seq![ActionView::React { msg_id, emoji_id }],
            None => Seq::empty(),
        }
    } else {
        Seq::empty()
    }
}

/// The actions that the entries of an item ask for, in the order of the entries.
pub open spec fn entries_actions(entries: Seq<(Seq<char>, JsonView)>) -> Seq<ActionView>
    decreases entries.len(),
{
    if entries.len() == 0 {
        Seq::empty()
    } else {
        entries_actions(entries.drop_last()) + entry_actions(entries.last().0, entries.last().1)
    }
}

/// The actions that an item asks for: a text asks for itself, an object for what its entries name.
pub open spec fn item_actions(item: JsonView) -> Seq<ActionView> {
    match item {
        JsonView::Str(s) => text_action(trimmed(s)),
        JsonView::Object(entries) => entries_actions(entries),
        _ => Seq::empty(),
    }
}

fn expand_entry(key: &str, val: &Json) -> (res: Option<Action>)
    ensures
        match res {
            Some(a) => entry_actions(key@, val@) == seq![a@],
            None => entry_actions(key@, val@) == Seq::<ActionView>::empty(),
        },
{
    proof {
        reveal_strlit("text");
        reveal_strlit("poke");
        reveal_strlit("sticker");
        reveal_strlit("react");
    }
    if same(key, "text") {
        if val.is_null() {
            return None;
        }
        let text = show(val);
        if text.as_str().is_empty() {
            None
        } else {
            Some(Action::Text { text })
        }
    } else if same(key, "poke") {
        let ids = parse_poke_ids(val);
        if ids.len() == 0 {
            None
        } else {
            Some(Action::Poke { ids })
        }
    } else if same(key, "sticker") && sticker_query_ok(val) {
        Some(Action::Sticker { query: val.copy() })
    } else if same(key, "react") {
        match parse_react(val) {
            Some((msg_id, emoji_id)) => Some(Action::React { msg_id, emoji_id }),
            None => None,
        }
    } else {
        None
    }
}

/// The actions that an item asks for: a text asks for itself, an object for what its entries name.
pub fn expand_action_item(item: &Json) -> (res: Vec<Action>)
    ensures
        action_views(res@) == item_actions(item@),
{
    let mut actions: Vec<Action> = Vec::new();
    proof {
        lemma_views(*item);
        assert(action_views(actions@) =~= Seq::empty());
    }
    match item {
        Json::Str(s) => {
            let text = trim(s.as_str());
            if !text.as_str().is_empty() {
                let ghost t = text@;
                actions.push(Action::Text { text });
                assert(action_views(actions@) =~= seq![ActionView::Text { text: t }]);
            }
        },
        Json::Object(entries) => {
            let ghost all = entry_views(entries@);
            let mut i: usize = 0;
            while i < entries.len()
                invariant
                    all == entry_views(entries@),
                    i <= entries@.len(),
                    action_views(actions@) == entries_actions(all.take(i as int)),
                decreases entries@.len() - i,
            {
                assert(all.take(i + 1).drop_last() == all.take(i as int));
                let ghost before = actions@;
                match expand_entry(entries[i].0.as_str(), &entries[i].1) {
                    Some(a) => {
                        actions.push(a);
                        assert(action_views(actions@) =~= action_views(before) + seq![a@]);
                    },
                    None => {
                        assert(action_views(before) + Seq::<ActionView>::empty() =~= action_views(
                            before,
                        ));
                    },
                }
                i += 1;
            }
            assert(all.take(i as int) == all);
        },
        _ => {},
    }
    actions
}

/// The actions that all items of a list ask for.
pub open spec fn all_actions(items: Seq<JsonView>) -> Seq<ActionView>
    decreases items.len(),
{
    if items.len() == 0 {
        Seq::empty()
    } else {
        all_actions(items.drop_last()) + item_actions(items.last())
    }
}

/// The actions that are admitted where there is room for so many, among them so many texts and so
/// many reactions.
pub open spec fn admitted(
    actions: Seq<ActionView>,
    room: int,
    texts: int,
    reacts: int,
) -> Seq<ActionView>
    decreases actions.len(),
{
    if actions.len() == 0 || room <= 0 {
        Seq::empty()
    } else {
        let rest = actions.skip(1);
        match actions[0] {
            ActionView::Text { .. } => if texts <= 0 {
                admitted(rest, room, texts, reacts)
            } else {
                seq![actions[0]] + admitted(rest, room - 1, texts - 1, reacts)
            },
            ActionView::React { .. } => if reacts <= 0 {
                admitted(rest, room, texts, reacts)
            } else {
                seq![actions[0]] + admitted(rest, room - 1, texts, reacts - 1)
            },
            _ => seq![actions[0]] + admitted(rest, room - 1, texts, reacts),
        }
    }
}

/// The actions of a reply.
pub open spec fn reply_actions(llm_response: JsonView) -> Seq<ActionView> {
    match llm_response.get("actions"@) {
        Some(JsonView::Array(items)) => admitted(
            all_actions(items),
            MAX_ACTIONS as int,
            MAX_TEXT_ACTIONS as int,
            MAX_REACT_ACTIONS as int,
        ),
        _ => Seq::empty(),
    }
}

#[verifier::loop_isolation(false)]
fn admit_actions(actions: Vec<Action>) -> (res: Vec<Action>)
    ensures
        action_views(res@) == admitted(
            action_views(actions@),
            MAX_ACTIONS as int,
            MAX_TEXT_ACTIONS as int,
            MAX_REACT_ACTIONS as int,
        ),
{
    let ghost all = action_views(actions@);
    let ghost wanted = admitted(
        all,
        MAX_ACTIONS as int,
        MAX_TEXT_ACTIONS as int,
        MAX_REACT_ACTIONS as int,
    );
    let mut rest = actions;
    let mut out: Vec<Action> = Vec::new();
    let mut texts: usize = 0;
    let mut reacts: usize = 0;
    let ghost mut n: int = 0;
    assert(all.skip(0) == all);
    assert(action_views(out@) + wanted == wanted);
    while rest.len() > 0 && out.len() < MAX_ACTIONS
        invariant
            0 <= n <= all.len(),
            action_views(rest@) == all.skip(n),
            out@.len() <= MAX_ACTIONS,
            texts <= MAX_TEXT_ACTIONS,
            reacts <= MAX_REACT_ACTIONS,
            action_views(out@) + admitted(
                all.skip(n),
                MAX_ACTIONS - out@.len(),
                MAX_TEXT_ACTIONS - texts,
                MAX_REACT_ACTIONS - reacts,
            ) == wanted,
        decreases rest.len(),
    {
        let ghost before = out@;
        let ghost left = all.skip(n);
        let action = rest.remove(0);
        assert(action@ == left[0]);
        assert(left.skip(1) == all.skip(n + 1));
        assert(action_views(rest@) =~= all.skip(n + 1));
        let keep = match &action {
            Action::Text { .. } => {
                if texts < MAX_TEXT_ACTIONS {
                    texts += 1;
                    true
                } else {
                    false
                }
            },
            Action::React { .. } => {
                if reacts < MAX_REACT_ACTIONS {
                    reacts += 1;
                    true
                } else {
                    false
                }
            },
            _ => true,
        };
        let ghost tail = admitted(
            all.skip(n + 1),
            MAX_ACTIONS - before.len() - (if keep { 1int } else { 0 }),
            MAX_TEXT_ACTIONS - texts,
            MAX_REACT_ACTIONS - reacts,
        );
        if keep {
            out.push(action);
            assert(action_views(out@) == action_views(before).push(left[0]));
            assert(action_views(before) + (seq![left[0]] + tail) == action_views(out@) + tail);
        }
        proof {
            n = n + 1;
        }
    }
    assert(action_views(out@) + Seq::<ActionView>::empty() == action_views(out@));
    out
}

/// The actions of a reply.
pub fn parse_actions(llm_response: &Json) -> (res: Vec<Action>)
    ensures
        action_views(res@) == reply_actions(llm_response@),
{
    let mut actions: Vec<Action> = Vec::new();
    assert(action_views(actions@) =~= Seq::empty());
    match llm_response.get("actions") {
        Some(raw) => match raw.as_array() {
            Some(items) => {
                let ghost all = json_views(items@);
                let mut i: usize = 0;
                while i < items.len()
                    invariant
                        all == json_views(items@),
                        i <= items@.len(),
                        action_views(actions@) == all_actions(all.take(i as int)),
                    decreases items@.len() - i,
                {
                    assert(all.take(i + 1).drop_last() == all.take(i as int));
                    let ghost before = actions@;
                    let mut more = expand_action_item(&items[i]);
                    let ghost added = more@;
                    actions.append(&mut more);
                    assert(action_views(actions@) =~= action_views(before) + action_views(added));
                    i += 1;
                }
                assert(all.take(i as int) == all);
                admit_actions(actions)
            },
            None => actions,
        },
        None => actions,
    }
}

/// How many of the actions are texts.
pub open spec fn text_count(actions: Seq<ActionView>) -> nat {
    actions.filter(|a: ActionView| a is Text).len()
}

/// How many of the actions are reactions.
pub open spec fn react_count(actions: Seq<ActionView>) -> nat {
    actions.filter(|a: ActionView| a is React).len()
}

/// Whether `a` comes of `b` by leaving items out.
pub open spec fn part_of<T>(a: Seq<T>, b: Seq<T>) -> bool
    decreases b.len(),
{
    if a.len() == 0 {
        true
    } else if b.len() == 0 {
        false
    } else if a[0] == b[0] && part_of(a.skip(1), b.skip(1)) {
        true
    } else {
        part_of(a, b.skip(1))
    }
}

/// A reply holds at most so many actions, among them at most so many texts and reactions.
pub proof fn law_reply_is_bounded(llm_response: JsonView)
    ensures
        reply_actions(llm_response).len() <= MAX_ACTIONS,
        text_count(reply_actions(llm_response)) <= MAX_TEXT_ACTIONS,
        react_count(reply_actions(llm_response)) <= MAX_REACT_ACTIONS,
{
    reveal(Seq::filter);
    match llm_response.get("actions"@) {
        Some(JsonView::Array(items)) => {
            lemma_admitted(all_actions(items), 5, 3, 3);
        },
        _ => {},
    }
}

/// The actions of a reply are some of those that it asks for, in the same order.
pub proof fn law_reply_keeps_order(items: Seq<JsonView>, llm_response: JsonView)
    requires
        llm_response.get("actions"@) == Some(JsonView::Array(items)),
    ensures
        part_of(reply_actions(llm_response), all_actions(items)),
{
    lemma_admitted(all_actions(items), 5, 3, 3);
}

/// A reply that asks for few enough actions gets them all.
pub proof fn law_short_reply_is_kept(items: Seq<JsonView>, llm_response: JsonView)
    requires
        llm_response.get("actions"@) == Some(JsonView::Array(items)),
        all_actions(items).len() <= MAX_ACTIONS,
        text_count(all_actions(items)) <= MAX_TEXT_ACTIONS,
        react_count(all_actions(items)) <= MAX_REACT_ACTIONS,
    ensures
        reply_actions(llm_response) == all_actions(items),
{
    lemma_all_admitted(all_actions(items), 5, 3, 3);
}

proof fn lemma_count_first(actions: Seq<ActionView>, f: spec_fn(ActionView) -> bool)
    requires
        actions.len() > 0,
    ensures
        actions.filter(f).len() == actions.skip(1).filter(f).len() + (if f(actions[0]) {
            1nat
        } else {
            0
        }),
{
    let head = seq![actions[0]];
    assert(actions == head + actions.skip(1));
    Seq::filter_distributes_over_add(head, actions.skip(1), f);
    reveal(Seq::filter);
    assert(head.drop_last() =~= Seq::<ActionView>::empty());
    assert(Seq::<ActionView>::empty().filter(f) =~= Seq::<ActionView>::empty());
    assert(head.filter(f) =~= if f(actions[0]) {
        head
    } else {
        Seq::empty()
    });
}

proof fn lemma_admitted(actions: Seq<ActionView>, room: int, texts: int, reacts: int)
    requires
        room >= 0,
        texts >= 0,
        reacts >= 0,
    ensures
        admitted(actions, room, texts, reacts).len() <= room,
        text_count(admitted(actions, room, texts, reacts)) <= texts,
        react_count(admitted(actions, room, texts, reacts)) <= reacts,
        part_of(admitted(actions, room, texts, reacts), actions),
    decreases actions.len(),
{
    let res = admitted(actions, room, texts, reacts);
    if actions.len() == 0 || room <= 0 {
        reveal(Seq::filter);
    } else {
        let rest = actions.skip(1);
        let skipped = (actions[0] is Text && texts <= 0) || (actions[0] is React && reacts <= 0);
        if skipped {
            lemma_admitted(rest, room, texts, reacts);
        } else {
            let t = if actions[0] is Text {
                texts - 1
            } else {
                texts
            };
            let r = if actions[0] is React {
                reacts - 1
            } else {
                reacts
            };
            lemma_admitted(rest, room - 1, t, r);
            let tail = admitted(rest, room - 1, t, r);
            assert(res == seq![actions[0]] + tail);
            assert(res.skip(1) == tail);
            lemma_count_first(res, |a: ActionView| a is Text);
            lemma_count_first(res, |a: ActionView| a is React);
        }
    }
}

proof fn lemma_all_admitted(actions: Seq<ActionView>, room: int, texts: int, reacts: int)
    requires
        actions.len() <= room,
        text_count(actions) <= texts,
        react_count(actions) <= reacts,
    ensures
        admitted(actions, room, texts, reacts) == actions,
    decreases actions.len(),
{
    if actions.len() > 0 {
        let rest = actions.skip(1);
        lemma_count_first(actions, |a: ActionView| a is Text);
        lemma_count_first(actions, |a: ActionView| a is React);
        let t = if actions[0] is Text {
            texts - 1
        } else {
            texts
        };
        let r = if actions[0] is React {
            reacts - 1
        } else {
            reacts
        };
        lemma_all_admitted(rest, room - 1, t, r);
        assert(seq![actions[0]] + rest == actions);
    } else {
        assert(admitted(actions, room, texts, reacts) =~= actions);
    }
}

/// An object with the single entry "text" that holds a string says just what the string itself as an item
/// says: its trimmed text, unless that is empty.
pub proof fn law_texts_are_said_as_written(s: Seq<char>)
    ensures
        item_actions(JsonView::Object(seq![("text"@, JsonView::Str(s))])) == item_actions(
            JsonView::Str(s),
        ),
        trimmed(s).len() > 0 ==> item_actions(JsonView::Str(s)) == seq![
            ActionView::Text { text: trimmed(s) },
        ],
        trimmed(s).len() == 0 ==> item_actions(JsonView::Str(s)).len() == 0,
{
    law_actions_of_single_entries("text"@, JsonView::Str(s));
}

/// The actions of an object with one entry are those of the entry.
pub proof fn law_actions_of_single_entries(key: Seq<char>, val: JsonView)
    ensures
        item_actions(JsonView::Object(seq![(key, val)])) == entry_actions(key, val),
{
    reveal_with_fuel(entries_actions, 2);
    let entries = seq![(key, val)];
    assert(entries.drop_last() =~= Seq::<(Seq<char>, JsonView)>::empty());
    assert(Seq::<ActionView>::empty() + entry_actions(key, val) =~= entry_actions(key, val));
}

/// The actions of a list of entries are those of the first ones and then those of the others, and so are
/// those of a list of items.
pub proof fn law_actions_come_in_order(
    a: Seq<(Seq<char>, JsonView)>,
    b: Seq<(Seq<char>, JsonView)>,
    c: Seq<JsonView>,
    d: Seq<JsonView>,
)
    ensures
        item_actions(JsonView::Object(a + b)) == item_actions(JsonView::Object(a)) + item_actions(
            JsonView::Object(b),
        ),
        all_actions(c + d) == all_actions(c) + all_actions(d),
        c.len() == 1 ==> all_actions(c) == item_actions(c[0]),
{
    lemma_entries_in_two(a, b);
    lemma_items_in_two(c, d);
    if c.len() == 1 {
        reveal_with_fuel(all_actions, 2);
        assert(c.drop_last() =~= Seq::<JsonView>::empty());
        assert(all_actions(c) =~= item_actions(c[0]));
    }
}

proof fn lemma_entries_in_two(a: Seq<(Seq<char>, JsonView)>, b: Seq<(Seq<char>, JsonView)>)
    ensures
        entries_actions(a + b) == entries_actions(a) + entries_actions(b),
    decreases b.len(),
{
    if b.len() == 0 {
        assert(a + b =~= a);
        assert(entries_actions(a) + entries_actions(b) =~= entries_actions(a));
    } else {
        lemma_entries_in_two(a, b.drop_last());
        assert((a + b).drop_last() =~= a + b.drop_last());
        assert((a + b).last() == b.last());
        assert(entries_actions(a + b) =~= entries_actions(a) + entries_actions(b));
    }
}

proof fn lemma_items_in_two(c: Seq<JsonView>, d: Seq<JsonView>)
    ensures
        all_actions(c + d) == all_actions(c) + all_actions(d),
    decreases d.len(),
{
    if d.len() == 0 {
        assert(c + d =~= c);
        assert(all_actions(c) + all_actions(d) =~= all_actions(c));
    } else {
        lemma_items_in_two(c, d.drop_last());
        assert((c + d).drop_last() =~= c + d.drop_last());
        assert((c + d).last() == d.last());
        assert(all_actions(c + d) =~= all_actions(c) + all_actions(d));
    }
}

/// What is neither a string nor an object does nothing, and so does an entry under any other name than
/// the four.
pub proof fn law_other_items_do_nothing(item: JsonView, key: Seq<char>, val: JsonView)
    ensures
        !(item is Str) && !(item is Object) ==> item_actions(item).len() == 0,
        key != "text"@ && key != "poke"@ && key != "sticker"@ && key != "react"@ ==> entry_actions(
            key,
            val,
        ).len() == 0,
        entry_actions("text"@, JsonView::Null).len() == 0,
        entry_actions(key, val).len() <= 1,
{
}

/// An entry "sticker" asks for a sticker, with the query as it stands, just where the query names a
/// feeling or a scene.
pub proof fn law_sticker_is_asked_for(query: JsonView)
    ensures
        (query.get_str("emotion"@) is Some && query.get_str("emotion"@)->0.len() > 0)
            || (query.get_str("scene"@) is Some && query.get_str("scene"@)->0.len() > 0)
            ==> entry_actions("sticker"@, query) == seq![ActionView::Sticker { query }],
        (query.get_str("emotion"@) is None || query.get_str("emotion"@)->0.len() == 0) && (
        query.get_str("scene"@) is None || query.get_str("scene"@)->0.len() == 0) ==> entry_actions(
            "sticker"@,
            query,
        ).len() == 0,
{
    lemma_entry_names();
}

proof fn lemma_entry_names()
    ensures
        "text"@ != "poke"@,
        "sticker"@ != "text"@,
        "sticker"@ != "poke"@,
        "react"@ != "text"@,
        "react"@ != "poke"@,
        "react"@ != "sticker"@,
{
    reveal_strlit("text");
    reveal_strlit("poke");
    reveal_strlit("sticker");
    reveal_strlit("react");
    assert("text"@[0] != "poke"@[0]);
    assert("sticker"@.len() == 7);
    assert("react"@.len() == 5);
}

/// An entry "poke" pokes all the people that it names, in one action, and does nothing where it names
/// nobody.
pub proof fn law_poke_pokes_all_named(raw: JsonView)
    ensures
        poke_ids(raw).len() > 0 ==> entry_actions("poke"@, raw) == seq![
            ActionView::Poke { ids: poke_ids(raw) },
        ],
        poke_ids(raw).len() == 0 ==> entry_actions("poke"@, raw).len() == 0,
        raw is Number || raw is Str ==> poke_ids(raw) == (if raw.to_int() is Some && raw.to_int()->0
            > 0 {
            seq![raw.to_int()->0]
        } else {
            Seq::empty()
        }),
        raw is Null || raw is Bool || raw is Object ==> poke_ids(raw).len() == 0,
{
    lemma_entry_names();
    reveal_with_fuel(positive_ids, 2);
    let one = seq![raw];
    assert(one.drop_last() =~= Seq::<JsonView>::empty());
    assert(one.last() == raw);
    assert(positive_ids(one.drop_last()) =~= Seq::<i64>::empty());
    if raw.to_int() is Some {
        assert(Seq::<i64>::empty().push(raw.to_int()->0) =~= seq![raw.to_int()->0]);
    }
}

/// A list names its positive numbers, each where it stands first, in that order.
pub proof fn law_poked_are_those_named(items: Seq<JsonView>)
    ensures
        selected(
            items.len() as int,
            |i: int|
                if items[i].to_int() is Some && items[i].to_int()->0 > 0 && (forall|j: int|
                    0 <= j < i ==> (#[trigger] items[j]).to_int() != items[i].to_int()) {
                    Some(items[i].to_int()->0)
                } else {
                    None
                },
            poke_ids(JsonView::Array(items)),
        ),
{
    let f = |i: int|
        if items[i].to_int() is Some && items[i].to_int()->0 > 0 && (forall|j: int|
            0 <= j < i ==> (#[trigger] items[j]).to_int() != items[i].to_int()) {
            Some(items[i].to_int()->0)
        } else {
            None
        };
    lemma_poked_are_those_named(items, f, items.len() as int);
    assert(items.take(items.len() as int) =~= items);
}

proof fn lemma_poked_are_those_named(items: Seq<JsonView>, f: spec_fn(int) -> Option<i64>, n: int)
    requires
        0 <= n <= items.len(),
        forall|i: int|
            0 <= i < items.len() ==> (#[trigger] f(i)) == (
                if items[i].to_int() is Some && items[i].to_int()->0 > 0 && (forall|j: int|
                    0 <= j < i ==> (#[trigger] items[j]).to_int() != items[i].to_int()) {
                    Some(items[i].to_int()->0)
                } else {
                    None
                }
            ),
    ensures
        selected(n, f, poke_ids(JsonView::Array(items.take(n)))),
    decreases n,
{
    if n == 0 {
        lemma_selected_none(f);
    } else {
        lemma_poked_are_those_named(items, f, n - 1);
        assert(items.take(n).drop_last() =~= items.take(n - 1));
        assert forall|uid: i64| uid > 0 implies #[trigger] positive_ids(items.take(n - 1)).contains(
            uid,
        ) == (exists|j: int| 0 <= j < n - 1 && (#[trigger] items[j]).to_int() == Some(uid)) by {
            lemma_positive_ids_hold(items.take(n - 1), uid);
            if exists|j: int| 0 <= j < n - 1 && (#[trigger] items[j]).to_int() == Some(uid) {
                let j = choose|j: int| 0 <= j < n - 1 && (#[trigger] items[j]).to_int() == Some(uid);
                assert(items.take(n - 1)[j] == items[j]);
            }
            if exists|j: int|
                0 <= j < items.take(n - 1).len() && (#[trigger] items.take(n - 1)[j]).to_int() == Some(
                    uid,
                ) {
                let j = choose|j: int|
                    0 <= j < items.take(n - 1).len() && (#[trigger] items.take(n - 1)[j]).to_int() == Some(
                        uid,
                    );
                assert(items[j].to_int() == Some(uid));
            }
        }
        lemma_selected_next(n - 1, f, poke_ids(JsonView::Array(items.take(n - 1))));
    }
}

proof fn lemma_positive_ids_hold(items: Seq<JsonView>, uid: i64)
    requires
        uid > 0,
    ensures
        positive_ids(items).contains(uid) == (exists|j: int|
            0 <= j < items.len() && (#[trigger] items[j]).to_int() == Some(uid)),
    decreases items.len(),
{
    if items.len() > 0 {
        let front = items.drop_last();
        lemma_positive_ids_hold(front, uid);
        let ids = positive_ids(front);
        let k = items.len() - 1;
        if ids.contains(uid) {
            let j = choose|j: int| 0 <= j < front.len() && (#[trigger] front[j]).to_int() == Some(uid);
            assert(items[j].to_int() == Some(uid));
            let p = choose|p: int| 0 <= p < ids.len() && ids[p] == uid;
            if items.last().to_int() is Some {
                assert(ids.push(items.last().to_int()->0)[p] == uid);
            }
        } else if items[k].to_int() == Some(uid) {
            assert(ids.push(uid)[ids.len() as int] == uid);
        } else {
            assert forall|j: int| 0 <= j < items.len() implies (#[trigger] items[j]).to_int() != Some(
                uid,
            ) by {
                if j < k {
                    assert(front[j] == items[j]);
                }
            }
        }
    }
}

/// An entry "react" gives the message that its first item numbers the face that its second item tells,
/// and does nothing where it is no list of two, or one of them tells nothing.
pub proof fn law_reaction_is_read(items: Seq<JsonView>)
    ensures
        items.len() >= 2 && items[0].to_int() is Some && emoji_id(items[1]) is Some
            ==> entry_actions("react"@, JsonView::Array(items)) == seq![
            ActionView::React { msg_id: items[0].to_int()->0, emoji_id: emoji_id(items[1])->0 },
        ],
        items.len() < 2 || items[0].to_int() is None || emoji_id(items[1]) is None
            ==> entry_actions("react"@, JsonView::Array(items)).len() == 0,
        forall|raw: JsonView|
            !(raw is Array) ==> (#[trigger] entry_actions("react"@, raw)).len() == 0,
{
    lemma_entry_names();
}

/// A face is told by a positive number, or by a text that writes one, which it keeps; any other text tells
/// the code of its first character, unless that is one of ASCII.
pub proof fn law_face_is_told(raw: JsonView, s: Seq<char>)
    ensures
        raw is Null ==> emoji_id(raw) is None,
        raw is Number && raw.to_int() is Some && raw.to_int()->0 > 0 ==> emoji_id(raw) == Some(
            int_text(raw.to_int()->0 as int),
        ),
        raw is Number && (raw.to_int() is None || raw.to_int()->0 <= 0) ==> emoji_id(raw) is None,
        trimmed(s).len() == 0 ==> emoji_id(JsonView::Str(s)) is None,
        trimmed(s).len() > 0 && all_digits(trimmed(s)) ==> emoji_id(JsonView::Str(s)) == (
        if int_of_text(trimmed(s)) is Some && int_of_text(trimmed(s))->0 > 0 {
            Some(trimmed(s))
        } else {
            None
        }),
        trimmed(s).len() > 0 && !all_digits(trimmed(s)) && (trimmed(s)[0] as u32) < 0x80
            ==> emoji_id(JsonView::Str(s)) is None,
        trimmed(s).len() > 0 && !all_digits(trimmed(s)) && (trimmed(s)[0] as u32) >= 0x80
            ==> emoji_id(JsonView::Str(s)) == Some(nat_text(trimmed(s)[0] as u32 as nat)),
{
}

/// Of a reply each action is carried out that finds less than five before it, less than three texts where
/// it is a text, and less than three reactions where it is a reaction.
pub proof fn law_actions_are_admitted_one_by_one(
    items: Seq<JsonView>,
    item: JsonView,
    action: ActionView,
    less: JsonView,
    more: JsonView,
)
    requires
        less.get("actions"@) == Some(JsonView::Array(items)),
        more.get("actions"@) == Some(JsonView::Array(items.push(item))),
        item_actions(item) == seq![action],
    ensures
        reply_actions(more) == (if reply_actions(less).len() >= 5 || (action is Text && text_count(
            reply_actions(less),
        ) >= 3) || (action is React && react_count(reply_actions(less)) >= 3) {
            reply_actions(less)
        } else {
            reply_actions(less).push(action)
        }),
{
    assert(items.push(item).drop_last() =~= items);
    let all = all_actions(items);
    assert(all + seq![action] =~= all.push(action));
    lemma_admitted_more(all, action, 5, 3, 3);
}

proof fn lemma_count_none(actions: Seq<ActionView>, f: spec_fn(ActionView) -> bool)
    requires
        actions.len() == 0,
    ensures
        actions.filter(f).len() == 0,
{
    actions.lemma_filter_len(f);
}

proof fn lemma_admitted_more(
    actions: Seq<ActionView>,
    action: ActionView,
    room: int,
    texts: int,
    reacts: int,
)
    requires
        room >= 0,
        texts >= 0,
        reacts >= 0,
    ensures
        ({
            let before = admitted(actions, room, texts, reacts);
            admitted(actions.push(action), room, texts, reacts) == (if before.len() >= room || (
            action is Text && text_count(before) >= texts) || (action is React && react_count(before)
                >= reacts) {
                before
            } else {
                before.push(action)
            })
        }),
    decreases actions.len(),
{
    let more = actions.push(action);
    let before = admitted(actions, room, texts, reacts);
    if before.len() > 0 {
        lemma_count_first(before, |a: ActionView| a is Text);
        lemma_count_first(before, |a: ActionView| a is React);
    } else {
        lemma_count_none(before, |a: ActionView| a is Text);
        lemma_count_none(before, |a: ActionView| a is React);
    }
    if actions.len() == 0 {
        reveal_with_fuel(admitted, 2);
        assert(more.skip(1) =~= Seq::<ActionView>::empty());
        assert(more[0] == action);
        assert(seq![action] + Seq::<ActionView>::empty() =~= before.push(action));
    } else if room > 0 {
        let rest = actions.skip(1);
        assert(more.skip(1) =~= rest.push(action));
        assert(more[0] == actions[0]);
        let keeps = !(actions[0] is Text && texts <= 0) && !(actions[0] is React && reacts <= 0);
        let t = if keeps && actions[0] is Text {
            texts - 1
        } else {
            texts
        };
        let r = if keeps && actions[0] is React {
            reacts - 1
        } else {
            reacts
        };
        let m = if keeps {
            room - 1
        } else {
            room
        };
        lemma_admitted_more(rest, action, m, t, r);
        let tail = admitted(rest, m, t, r);
        if keeps {
            assert(before == seq![actions[0]] + tail);
            assert(before.skip(1) =~= tail);
            assert((seq![actions[0]] + tail).push(action) =~= seq![actions[0]] + tail.push(action));
        }
    }
}

/// Each kind of action has its name.
pub proof fn law_kinds_have_names(a: ActionView)
    ensures
        a is Text ==> a.kind() == "text"@,
        a is Poke ==> a.kind() == "poke"@,
        a is Sticker ==> a.kind() == "sticker"@,
        a is React ==> a.kind() == "react"@,
{
}

/// A text or a face that is given by another value than a text is that value as it is written.
pub proof fn law_other_values_are_written_out(v: JsonView)
    requires
        !(v is Str),
        !(v is Null),
    ensures
        entry_actions("text"@, v) == item_actions(JsonView::Str(v.canonical().written())),
        !(v is Number) ==> emoji_id(v) == emoji_id(JsonView::Str(v.canonical().written())),
{
}

} // verus!
