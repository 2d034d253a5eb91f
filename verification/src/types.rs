//! Chat messages, and the pokes that each group remembers.

use crate::json::{json_views, Json, JsonView};
use crate::number::{parse_real, real_of_text, Real};
use crate::text::{int_text, is_white, law_trimmed_is_the_middle, own, same, signed_text, trim, trimmed};
use crate::util::{keep_last, last_of};
use std::collections::HashMap;
use crate::select::{lemma_selected_next, lemma_selected_none, selected};
use vstd::prelude::*;
use vstd::string::*;

verus! {

/// What a message holds.
pub struct MessageView {
    pub msg_id: i64,
    pub time: Real,
    pub user_id: i64,
    pub group_id: i64,
    pub nickname: Seq<char>,
    pub msg: Seq<JsonView>,
}

/// A message of a chat group, as a list of segments.
#[derive(Debug)]
pub struct Message {
    pub msg_id: i64,
    pub time: Real,
    pub user_id: i64,
    pub group_id: i64,
    pub nickname: String,
    pub msg: Vec<Json>,
}

impl View for Message {
    type V = MessageView;

    open spec fn view(&self) -> MessageView {
        MessageView {
            msg_id: self.msg_id,
            time: self.time,
            user_id: self.user_id,
            group_id: self.group_id,
            nickname: self.nickname@,
            msg: json_views(self.msg@),
        }
    }
}

/// The views of a list of messages.
pub open spec fn message_views(msgs: Seq<Message>) -> Seq<MessageView> {
    msgs.map_values(|m: Message| m@)
}

/// The integer that a value stands for, or zero.
pub open spec fn int_or_zero(v: JsonView) -> i64 {
    match v.to_int() {
        Some(i) => i,
        None => 0,
    }
}

/// The double-precision number that a value stands for, or zero.
pub open spec fn real_or_zero(v: JsonView) -> Real {
    match v {
        JsonView::Str(s) => match real_of_text(s) {
            Some(x) => x,
            None => (Real { bits: 0 }),
        },
        _ => match v.as_real() {
            Some(x) => x,
            None => (Real { bits: 0 }),
        },
    }
}

/// The integer that an object has under `key`, or zero.
pub open spec fn member_int(v: JsonView, key: Seq<char>) -> i64 {
    match v.get(key) {
        Some(w) => int_or_zero(w),
        None => 0,
    }
}

fn json_i64(v: &Json) -> (res: i64)
    ensures
        res == int_or_zero(v@),
{
    match v.to_int() {
        Some(i) => i,
        None => 0,
    }
}

fn json_f64(v: &Json) -> (res: Real)
    ensures
        res == real_or_zero(v@),
{
    match v {
        Json::Str(s) => match parse_real(s.as_str()) {
            Some(x) => x,
            None => Real { bits: 0 },
        },
        _ => match v.as_real() {
            Some(x) => x,
            None => Real { bits: 0 },
        },
    }
}

fn get_int(v: &Json, key: &str) -> (res: i64)
    ensures
        res == member_int(v@, key@),
{
    match v.get(key) {
        Some(w) => json_i64(w),
        None => 0,
    }
}

/// Copies of the values.
pub fn copy_all(items: &Vec<Json>) -> (res: Vec<Json>)
    ensures
        json_views(res@) == json_views(items@),
{
    let mut out: Vec<Json> = Vec::new();
    let mut i: usize = 0;
    while i < items.len()
        invariant
            i <= items@.len(),
            out@.len() == i,
            forall|j: int| 0 <= j < i ==> (#[trigger] out@[j])@ == items@[j]@,
        decreases items@.len() - i,
    {
        out.push(items[i].copy());
        i += 1;
    }
    assert(json_views(out@) =~= json_views(items@));
    out
}

/// The name of a segment's kind.
pub open spec fn kind_of(seg: JsonView) -> Option<Seq<char>> {
    seg.get_str("type"@)
}

/// Whether a segment is of this kind.
pub open spec fn is_kind(seg: JsonView, kind: Seq<char>) -> bool {
    kind_of(seg) == Some(kind)
}

/// Whether a segment is of this kind.
pub fn has_kind(seg: &Json, kind: &str) -> (res: bool)
    ensures
        res == is_kind(seg@, kind@),
{
    match seg.get_str("type") {
        Some(t) => same(t, kind),
        None => false,
    }
}

/// The text of the segments of a message that hold any, one behind the other.
pub open spec fn text_segments(segs: Seq<JsonView>) -> Seq<char>
    decreases segs.len(),
{
    if segs.len() == 0 {
        Seq::empty()
    } else {
        let front = text_segments(segs.drop_last());
        if is_kind(segs.last(), "text"@) {
            match segs.last().get("data"@) {
                Some(data) => front + data.str_or_empty("text"@),
                None => front,
            }
        } else {
            front
        }
    }
}

/// The target of the first poke among the segments that says what it is about, or zero.
pub open spec fn poke_target(segs: Seq<JsonView>) -> i64
    decreases segs.len(),
{
    if segs.len() == 0 {
        0
    } else if is_kind(segs[0], "poke"@) && segs[0].get("data"@) is Some {
        member_int(segs[0].get("data"@)->0, "target_id"@)
    } else {
        poke_target(segs.skip(1))
    }
}

impl MessageView {
    /// What a JSON object says of a message; where it names no group, the fallback does.
    pub open spec fn of_json(v: JsonView, fallback_group: Option<i64>) -> Option<MessageView> {
        match v {
            JsonView::Object(_) => Some(
                MessageView {
                    msg_id: member_int(v, "msg_id"@),
                    time: match v.get("time"@) {
                        Some(t) => real_or_zero(t),
                        None => (Real { bits: 0 }),
                    },
                    user_id: member_int(v, "user_id"@),
                    group_id: match (v.get("group_id"@), fallback_group) {
                        (Some(g), _) => int_or_zero(g),
                        (None, Some(g)) => g,
                        (None, None) => 0,
                    },
                    nickname: v.str_or_empty("nickname"@),
                    msg: match v.get("msg"@) {
                        Some(JsonView::Array(items)) => items,
                        _ => Seq::empty(),
                    },
                },
            ),
            _ => None,
        }
    }

    /// Whether a segment is a poke.
    pub open spec fn is_poke(self) -> bool {
        exists|i: int| 0 <= i < self.msg.len() && is_kind(#[trigger] self.msg[i], "poke"@)
    }

    /// What tells a poke from others: when, from whom, and at whom.
    pub open spec fn poke_key(self) -> (i64, i64, i64) {
        (self.time.whole() as i64, self.user_id, poke_target(self.msg))
    }

    /// The text of the message, without the space around it.
    pub open spec fn plain_text(self) -> Seq<char> {
        trimmed(text_segments(self.msg))
    }
}

impl Message {
    /// What a JSON object says of a message; where it names no group, the fallback does.
    pub fn from_json(v: &Json, fallback_group: Option<i64>) -> (res: Option<Message>)
        ensures
            match res {
                Some(m) => MessageView::of_json(v@, fallback_group) == Some(m@),
                None => MessageView::of_json(v@, fallback_group) is None,
            },
    {
        match v {
            Json::Object(_) => {
                proof {
                    crate::json::lemma_views(*v);
                }
                let group_id = match v.get("group_id") {
                    Some(g) => json_i64(g),
                    None => match fallback_group {
                        Some(g) => g,
                        None => 0,
                    },
                };
                let time = match v.get("time") {
                    Some(t) => json_f64(t),
                    None => Real { bits: 0 },
                };
                let msg: Vec<Json> = match v.get("msg") {
                    Some(m) => match m.as_array() {
                        Some(items) => copy_all(items),
                        None => Vec::new(),
                    },
                    None => Vec::new(),
                };
                let res = Message {
                    msg_id: get_int(v, "msg_id"),
                    time,
                    user_id: get_int(v, "user_id"),
                    group_id,
                    nickname: v.str_or_empty("nickname"),
                    msg,
                };
                assert(res@.msg =~= MessageView::of_json(v@, fallback_group)->0.msg);
                Some(res)
            },
            _ => None,
        }
    }

    /// An equal message.
    pub fn copy(&self) -> (res: Message)
        ensures
            res@ == self@,
    {
        Message {
            msg_id: self.msg_id,
            time: self.time,
            user_id: self.user_id,
            group_id: self.group_id,
            nickname: own(self.nickname.as_str()),
            msg: copy_all(&self.msg),
        }
    }

    /// Whether a segment is a poke.
    pub fn is_poke(&self) -> (res: bool)
        ensures
            res == self@.is_poke(),
    {
        let ghost segs = self@.msg;
        let mut i: usize = 0;
        while i < self.msg.len()
            invariant
                segs == json_views(self.msg@),
                segs == self@.msg,
                i <= self.msg@.len(),
                forall|j: int| 0 <= j < i ==> !is_kind(#[trigger] segs[j], "poke"@),
            decreases self.msg@.len() - i,
        {
            if has_kind(&self.msg[i], "poke") {
                assert(is_kind(segs[i as int], "poke"@));
                return true;
            }
            i += 1;
        }
        false
    }

    /// The target of the first poke that says what it is about, or zero.
    pub fn poke_target_id(&self) -> (res: i64)
        ensures
            res == poke_target(self@.msg),
    {
        let ghost segs = self@.msg;
        let mut i: usize = 0;
        assert(segs.skip(0) == segs);
        while i < self.msg.len()
            invariant
                segs == json_views(self.msg@),
                segs == self@.msg,
                i <= self.msg@.len(),
                poke_target(segs) == poke_target(segs.skip(i as int)),
            decreases self.msg@.len() - i,
        {
            assert(segs.skip(i as int).skip(1) == segs.skip(i + 1));
            assert(segs.skip(i as int)[0] == self.msg@[i as int]@);
            if has_kind(&self.msg[i], "poke") {
                match self.msg[i].get("data") {
                    Some(data) => {
                        return get_int(data, "target_id");
                    },
                    None => {},
                }
            }
            i += 1;
        }
        0
    }

    /// What tells a poke from others: when, from whom, and at whom.
    pub fn poke_key(&self) -> (res: (i64, i64, i64))
        ensures
            res == self@.poke_key(),
    {
        (self.time.trunc(), self.user_id, self.poke_target_id())
    }

    /// The text of the message, without the space around it.
    pub fn plain_text(&self) -> (res: String)
        ensures
            res@ == self@.plain_text(),
    {
        let ghost segs = self@.msg;
        let mut out = String::new();
        let mut i: usize = 0;
        while i < self.msg.len()
            invariant
                segs == json_views(self.msg@),
                segs == self@.msg,
                i <= self.msg@.len(),
                out@ == text_segments(segs.take(i as int)),
            decreases self.msg@.len() - i,
        {
            assert(segs.take(i + 1).drop_last() == segs.take(i as int));
            if has_kind(&self.msg[i], "text") {
                match self.msg[i].get("data") {
                    Some(data) => {
                        let t = data.str_or_empty("text");
                        out.append(t.as_str());
                    },
                    None => {},
                }
            }
            i += 1;
        }
        assert(segs.take(i as int) == segs);
        trim(out.as_str())
    }
}

/// How many pokes a group remembers.
pub const POKE_KEEP: usize = 10;

/// The pokes that the groups remember, each the last ones in the order in which they came.
#[derive(Debug)]
pub struct PokeBoard {
    groups: HashMap<i64, Vec<Message>>,
}

/// Whether one of the pokes has this key.
pub open spec fn knows(pokes: Seq<MessageView>, key: (i64, i64, i64)) -> bool {
    exists|i: int| 0 <= i < pokes.len() && (#[trigger] pokes[i]).poke_key() == key
}

/// The pokes of a group after one more: one that it knows already changes nothing, and the oldest
/// goes where there are too many.
pub open spec fn remembered(pokes: Seq<MessageView>, msg: MessageView) -> Seq<MessageView> {
    if knows(pokes, msg.poke_key()) {
        pokes
    } else {
        last_of(pokes.push(msg), POKE_KEEP as int)
    }
}

/// The pokes from a moment on.
pub open spec fn pokes_since(pokes: Seq<MessageView>, since: Real) -> Seq<MessageView>
    decreases pokes.len(),
{
    if pokes.len() == 0 {
        Seq::empty()
    } else {
        let front = pokes_since(pokes.drop_last(), since);
        if since.at_most(pokes.last().time) {
            front.push(pokes.last())
        } else {
            front
        }
    }
}

/// Whether a list of pokes is one that a group can remember: not too long, and no two alike.
pub open spec fn proper(pokes: Seq<MessageView>) -> bool {
    &&& pokes.len() <= POKE_KEEP
    &&& forall|i: int, j: int|
        0 <= i < j < pokes.len() ==> (#[trigger] pokes[i]).poke_key() != (
        #[trigger] pokes[j]).poke_key()
}

fn is_known(pokes: &Vec<Message>, key: (i64, i64, i64)) -> (res: bool)
    ensures
        res == knows(message_views(pokes@), key),
{
    let ghost all = message_views(pokes@);
    let mut i: usize = 0;
    while i < pokes.len()
        invariant
            all == message_views(pokes@),
            i <= pokes@.len(),
            forall|j: int| 0 <= j < i ==> (#[trigger] all[j]).poke_key() != key,
        decreases pokes@.len() - i,
    {
        let k = pokes[i].poke_key();
        if k.0 == key.0 && k.1 == key.1 && k.2 == key.2 {
            assert(all[i as int].poke_key() == key);
            return true;
        }
        i += 1;
    }
    false
}

impl PokeBoard {
    /// The pokes that a group remembers.
    pub closed spec fn pokes_of(self, group_id: i64) -> Seq<MessageView> {
        if self.groups@.contains_key(group_id) {
            message_views(self.groups@[group_id]@)
        } else {
            Seq::empty()
        }
    }

    /// Whether each group's list is one that it can remember.
    pub open spec fn wf(self) -> bool {
        forall|g: i64| proper(#[trigger] self.pokes_of(g))
    }

    /// A board on which no group remembers anything.
    pub fn new() -> (res: PokeBoard)
        ensures
            res.wf(),
            forall|g: i64| (#[trigger] res.pokes_of(g)).len() == 0,
    {
        broadcast use vstd::std_specs::hash::group_hash_axioms;

        PokeBoard { groups: HashMap::new() }
    }

    /// Takes in a poke for its group.
    pub fn remember_poke(&mut self, msg: &Message)
        ensures
            old(self).wf() ==> final(self).wf(),
            final(self).pokes_of(msg.group_id) == remembered(
                old(self).pokes_of(msg.group_id),
                msg@,
            ),
            forall|g: i64|
                g != msg.group_id ==> #[trigger] final(self).pokes_of(g) == old(self).pokes_of(g),
    {
        broadcast use vstd::std_specs::hash::group_hash_axioms;

        let ghost before = *self;
        let ghost pokes = self.pokes_of(msg.group_id);
        let mut list: Vec<Message> = match self.groups.remove(&msg.group_id) {
            Some(list) => list,
            None => Vec::new(),
        };
        assert(message_views(list@) =~= pokes);
        if !is_known(&list, msg.poke_key()) {
            list.push(msg.copy());
            let ghost longer = list@;
            assert(message_views(longer) =~= pokes.push(msg@));
            list = keep_last(list, POKE_KEEP);
            assert(message_views(list@) =~= last_of(message_views(longer), POKE_KEEP as int));
        }
        self.groups.insert(msg.group_id, list);
        proof {
            assert(self.pokes_of(msg.group_id) == remembered(pokes, msg@));
            assert forall|g: i64| g != msg.group_id implies #[trigger] self.pokes_of(g)
                == before.pokes_of(g) by {
                assert(self.groups@.contains_key(g) == before.groups@.contains_key(g));
            }
            if before.wf() {
                assert(proper(before.pokes_of(msg.group_id)));
                law_remembered_is_proper(pokes, msg@);
                assert forall|g: i64| proper(#[trigger] self.pokes_of(g)) by {
                    if g != msg.group_id {
                        assert(proper(before.pokes_of(g)));
                    }
                }
            }
        }
    }

    /// The pokes of a group from a moment on.
    pub fn collect_recent_pokes(&self, group_id: i64, since: Real) -> (res: Vec<Message>)
        ensures
            message_views(res@) == pokes_since(self.pokes_of(group_id), since),
    {
        broadcast use vstd::std_specs::hash::group_hash_axioms;

        let mut out: Vec<Message> = Vec::new();
        match self.groups.get(&group_id) {
            Some(list) => {
                let ghost all = message_views(list@);
                let mut i: usize = 0;
                assert(message_views(out@) =~= Seq::empty());
                while i < list.len()
                    invariant
                        all == message_views(list@),
                        all == self.pokes_of(group_id),
                        i <= list@.len(),
                        message_views(out@) == pokes_since(all.take(i as int), since),
                    decreases list@.len() - i,
                {
                    assert(all.take(i + 1).drop_last() == all.take(i as int));
                    if since.le(list[i].time) {
                        let ghost before = out@;
                        let m = list[i].copy();
                        out.push(m);
                        assert(message_views(out@) =~= message_views(before).push(m@));
                    }
                    i += 1;
                }
                assert(all.take(i as int) == all);
            },
            None => {
                assert(message_views(out@) =~= Seq::empty());
            },
        }
        out
    }
}

/// A proper list stays one when a poke is taken in.
pub proof fn law_remembered_is_proper(pokes: Seq<MessageView>, msg: MessageView)
    requires
        proper(pokes),
    ensures
        proper(remembered(pokes, msg)),
{
    let res = remembered(pokes, msg);
    if !knows(pokes, msg.poke_key()) {
        let longer = pokes.push(msg);
        let cut = longer.len() - res.len();
        assert forall|i: int, j: int| 0 <= i < j < res.len() implies (
        #[trigger] res[i]).poke_key() != (#[trigger] res[j]).poke_key() by {
            assert(res[i] == longer[i + cut] && res[j] == longer[j + cut]);
            assert(longer[i + cut] == pokes[i + cut]);
            if j + cut < pokes.len() {
                assert(longer[j + cut] == pokes[j + cut]);
            }
        }
    }
}

/// A poke that was taken in is known, and to take it in again changes nothing.
pub proof fn law_poke_is_remembered_once(pokes: Seq<MessageView>, msg: MessageView)
    ensures
        knows(remembered(pokes, msg), msg.poke_key()),
        remembered(remembered(pokes, msg), msg) == remembered(pokes, msg),
{
    let res = remembered(pokes, msg);
    if !knows(pokes, msg.poke_key()) {
        assert(res[res.len() - 1] == msg);
    }
}

/// How a person is called: the bot itself, by number alone, or by name and number.
pub open spec fn person_label(uid: i64, name: Seq<char>, self_id: i64) -> Seq<char> {
    if uid == self_id {
        "你"@
    } else if name.len() == 0 {
        int_text(uid as int)
    } else {
        name + "("@ + int_text(uid as int) + ")"@
    }
}

/// How a person is called: the bot itself, by number alone, or by name and number.
pub fn poke_person_label(uid: i64, name: &str, self_id: i64) -> (res: String)
    ensures
        res@ == person_label(uid, name@, self_id),
{
    if uid == self_id {
        own("你")
    } else if name.is_empty() {
        signed_text(uid)
    } else {
        let mut out = own(name);
        out.append("(");
        let id = signed_text(uid);
        out.append(id.as_str());
        out.append(")");
        out
    }
}

/// What is read of a message: its fields by their names, each number also from a text, the group from
/// elsewhere where it is not given; what is no object is no message.
pub proof fn law_message_fields(v: JsonView, fallback_group: Option<i64>)
    ensures
        match v {
            JsonView::Object(_) => {
                &&& MessageView::of_json(v, fallback_group) matches Some(m)
                &&& m.msg_id == (if v.get("msg_id"@) matches Some(x) && x.to_int() is Some {
                    v.get("msg_id"@)->0.to_int()->0
                } else {
                    0
                })
                &&& m.user_id == (if v.get("user_id"@) matches Some(x) && x.to_int() is Some {
                    v.get("user_id"@)->0.to_int()->0
                } else {
                    0
                })
                &&& v.get("group_id"@) matches Some(g) ==> m.group_id == (if g.to_int() is Some {
                    g.to_int()->0
                } else {
                    0
                })
                &&& v.get("group_id"@) is None ==> m.group_id == (if fallback_group is Some {
                    fallback_group->0
                } else {
                    0
                })
                &&& v.get("nickname"@) matches Some(JsonView::Str(s)) ==> m.nickname == s
                &&& v.get_str("nickname"@) is None ==> m.nickname.len() == 0
                &&& v.get("msg"@) matches Some(JsonView::Array(items)) ==> m.msg == items
                &&& !(v.get("msg"@) matches Some(JsonView::Array(_))) ==> m.msg.len() == 0
                &&& v.get("time"@) matches Some(JsonView::Number(n)) ==> m.time
                    == crate::json::num_real(n)
                &&& v.get("time"@) matches Some(JsonView::Str(s)) ==> m.time == (if real_of_text(s)
                    is Some {
                    real_of_text(s)->0
                } else {
                    (Real { bits: 0 })
                })
                &&& v.get("time"@) is None ==> m.time == (Real { bits: 0 })
                &&& v.get("time"@) is Some && !(v.get("time"@)->0 is Number) && !(v.get("time"@)->0
                    is Str) ==> m.time == (Real { bits: 0 })
            },
            _ => MessageView::of_json(v, fallback_group) is None,
        },
{
}

/// The text of some segments is that of the first ones and then that of the others; a segment of text
/// adds its text, any other none.
pub proof fn law_segments_make_the_text(a: Seq<JsonView>, b: Seq<JsonView>, seg: JsonView)
    ensures
        text_segments(a + b) == text_segments(a) + text_segments(b),
        text_segments(seq![seg]) == (if seg.get_str("type"@) == Some("text"@) && seg.get("data"@)
            is Some && seg.get("data"@)->0.get_str("text"@) is Some {
            seg.get("data"@)->0.get_str("text"@)->0
        } else {
            Seq::empty()
        }),
{
    lemma_text_segments_add(a, b);
    reveal_with_fuel(text_segments, 2);
    assert(seq![seg].drop_last() =~= Seq::<JsonView>::empty());
    assert(text_segments(seq![seg]) =~= (if seg.get_str("type"@) == Some("text"@) && seg.get(
        "data"@,
    ) is Some && seg.get("data"@)->0.get_str("text"@) is Some {
        seg.get("data"@)->0.get_str("text"@)->0
    } else {
        Seq::empty()
    }));
}

proof fn lemma_text_segments_add(a: Seq<JsonView>, b: Seq<JsonView>)
    ensures
        text_segments(a + b) == text_segments(a) + text_segments(b),
    decreases b.len(),
{
    if b.len() == 0 {
        assert(a + b =~= a);
        assert(text_segments(a) + text_segments(b) =~= text_segments(a));
    } else {
        lemma_text_segments_add(a, b.drop_last());
        assert((a + b).drop_last() =~= a + b.drop_last());
        assert((a + b).last() == b.last());
        assert(text_segments(a + b) =~= text_segments(a) + text_segments(b));
    }
}

/// The plain text of a message is the text of its segments without the space around it.
pub proof fn law_plain_text_is_the_text(m: MessageView)
    ensures
        exists|from: int, to: int|
            0 <= from <= to <= text_segments(m.msg).len() && m.plain_text() == #[trigger]
            text_segments(m.msg).subrange(from, to) && (forall|i: int|
                0 <= i < text_segments(m.msg).len() && (i < from || to <= i) ==> is_white(
                    #[trigger] text_segments(m.msg)[i],
                )),
        m.plain_text().len() > 0 ==> !is_white(m.plain_text()[0]) && !is_white(
            m.plain_text().last(),
        ),
{
    law_trimmed_is_the_middle(text_segments(m.msg));
}

/// A message is a poke just where one of its segments is one, and it is aimed at whom the first of these
/// that has any data names.
pub proof fn law_pokes_have_a_target(m: MessageView, k: int)
    ensures
        m.is_poke() == (exists|i: int|
            0 <= i < m.msg.len() && (#[trigger] m.msg[i]).get_str("type"@) == Some("poke"@)),
        0 <= k < m.msg.len() && m.msg[k].get_str("type"@) == Some("poke"@) && m.msg[k].get("data"@)
            is Some && (forall|i: int|
            0 <= i < k ==> !((#[trigger] m.msg[i]).get_str("type"@) == Some("poke"@)
                && m.msg[i].get("data"@) is Some)) ==> poke_target(m.msg) == (if m.msg[k].get(
            "data"@,
        )->0.get("target_id"@) is Some && m.msg[k].get("data"@)->0.get("target_id"@)->0.to_int()
            is Some {
            m.msg[k].get("data"@)->0.get("target_id"@)->0.to_int()->0
        } else {
            0
        }),
        (forall|i: int|
            0 <= i < m.msg.len() ==> !((#[trigger] m.msg[i]).get_str("type"@) == Some("poke"@)
                && m.msg[i].get("data"@) is Some)) ==> poke_target(m.msg) == 0,
{
    if m.is_poke() {
        let i = choose|i: int| 0 <= i < m.msg.len() && is_kind(#[trigger] m.msg[i], "poke"@);
        assert(m.msg[i].get_str("type"@) == Some("poke"@));
    }
    if exists|i: int|
        0 <= i < m.msg.len() && (#[trigger] m.msg[i]).get_str("type"@) == Some("poke"@) {
        let i = choose|i: int|
            0 <= i < m.msg.len() && (#[trigger] m.msg[i]).get_str("type"@) == Some("poke"@);
        assert(is_kind(m.msg[i], "poke"@));
    }
    lemma_poke_target(m.msg, k);
}

proof fn lemma_poke_target(segs: Seq<JsonView>, k: int)
    ensures
        0 <= k < segs.len() && is_kind(segs[k], "poke"@) && segs[k].get("data"@) is Some && (forall|
            i: int,
        |
            0 <= i < k ==> !(is_kind(#[trigger] segs[i], "poke"@) && segs[i].get("data"@) is Some))
            ==> poke_target(segs) == member_int(segs[k].get("data"@)->0, "target_id"@),
        (forall|i: int|
            0 <= i < segs.len() ==> !(is_kind(#[trigger] segs[i], "poke"@) && segs[i].get("data"@)
                is Some)) ==> poke_target(segs) == 0,
    decreases segs.len(),
{
    if segs.len() > 0 && !(is_kind(segs[0], "poke"@) && segs[0].get("data"@) is Some) {
        let rest = segs.skip(1);
        lemma_poke_target(rest, k - 1);
        assert(forall|i: int| 0 <= i < rest.len() ==> #[trigger] rest[i] == segs[i + 1]);
        if 0 <= k < segs.len() && is_kind(segs[k], "poke"@) && segs[k].get("data"@) is Some
            && (forall|i: int|
            0 <= i < k ==> !(is_kind(#[trigger] segs[i], "poke"@) && segs[i].get("data"@)
                is Some)) {
            assert(k > 0);
            assert(rest[k - 1] == segs[k]);
            assert forall|i: int| 0 <= i < k - 1 implies !(is_kind(#[trigger] rest[i], "poke"@)
                && rest[i].get("data"@) is Some) by {
                assert(rest[i] == segs[i + 1]);
            }
        }
        if forall|i: int|
            0 <= i < segs.len() ==> !(is_kind(#[trigger] segs[i], "poke"@) && segs[i].get("data"@)
                is Some) {
            assert forall|i: int| 0 <= i < rest.len() implies !(is_kind(
                #[trigger] rest[i],
                "poke"@,
            ) && rest[i].get("data"@) is Some) by {
                assert(rest[i] == segs[i + 1]);
            }
        }
    }
}

/// Two pokes are told apart by the second they came in, who poked and who was poked; a new one comes
/// behind the last ten at most of the others, and one that is known already changes nothing.
pub proof fn law_new_poke_comes_last(pokes: Seq<MessageView>, msg: MessageView)
    ensures
        (forall|i: int|
            0 <= i < pokes.len() ==> !((#[trigger] pokes[i]).time.whole() as i64
                == msg.time.whole() as i64 && pokes[i].user_id == msg.user_id && poke_target(
                pokes[i].msg,
            ) == poke_target(msg.msg))) ==> {
            let res = remembered(pokes, msg);
            &&& res.len() == vstd::math::min(10, pokes.len() as int + 1)
            &&& res.last() == msg
            &&& forall|i: int|
                0 <= i < res.len() - 1 ==> #[trigger] res[i] == pokes[pokes.len() - (res.len() - 1)
                    + i]
        },
        (exists|i: int|
            0 <= i < pokes.len() && (#[trigger] pokes[i]).time.whole() as i64
                == msg.time.whole() as i64 && pokes[i].user_id == msg.user_id && poke_target(
                pokes[i].msg,
            ) == poke_target(msg.msg)) ==> remembered(pokes, msg) == pokes,
{
    if exists|i: int|
        0 <= i < pokes.len() && (#[trigger] pokes[i]).time.whole() as i64 == msg.time.whole() as i64
            && pokes[i].user_id == msg.user_id && poke_target(pokes[i].msg) == poke_target(
            msg.msg,
        ) {
        let i = choose|i: int|
            0 <= i < pokes.len() && (#[trigger] pokes[i]).time.whole() as i64
                == msg.time.whole() as i64 && pokes[i].user_id == msg.user_id && poke_target(
                pokes[i].msg,
            ) == poke_target(msg.msg);
        assert(pokes[i].poke_key() == msg.poke_key());
    } else {
        assert forall|i: int| 0 <= i < pokes.len() implies (#[trigger] pokes[i]).poke_key()
            != msg.poke_key() by {}
        assert(!knows(pokes, msg.poke_key()));
    }
}

/// The pokes since a moment are those whose time is not before it, in their order.
pub proof fn law_pokes_since_a_moment(pokes: Seq<MessageView>, since: Real)
    ensures
        selected(
            pokes.len() as int,
            |i: int|
                if since.at_most(pokes[i].time) {
                    Some(pokes[i])
                } else {
                    None
                },
            pokes_since(pokes, since),
        ),
{
    let f = |i: int|
        if since.at_most(pokes[i].time) {
            Some(pokes[i])
        } else {
            None
        };
    lemma_pokes_since(pokes, since, f, pokes.len() as int);
    assert(pokes.take(pokes.len() as int) =~= pokes);
}

proof fn lemma_pokes_since(
    pokes: Seq<MessageView>,
    since: Real,
    f: spec_fn(int) -> Option<MessageView>,
    n: int,
)
    requires
        0 <= n <= pokes.len(),
        forall|i: int|
            0 <= i < pokes.len() ==> (#[trigger] f(i)) == (if since.at_most(pokes[i].time) {
                Some(pokes[i])
            } else {
                None
            }),
    ensures
        selected(n, f, pokes_since(pokes.take(n), since)),
    decreases n,
{
    if n == 0 {
        lemma_selected_none(f);
    } else {
        lemma_pokes_since(pokes, since, f, n - 1);
        assert(pokes.take(n).drop_last() =~= pokes.take(n - 1));
        lemma_selected_next(n - 1, f, pokes_since(pokes.take(n - 1), since));
    }
}

/// The bot is called you, anybody else by the name, if any, and the number.
pub proof fn law_people_are_named(uid: i64, name: Seq<char>, self_id: i64)
    ensures
        uid == self_id ==> person_label(uid, name, self_id) == "你"@,
        uid != self_id && name.len() == 0 ==> person_label(uid, name, self_id) == int_text(
            uid as int,
        ),
        uid != self_id && name.len() > 0 ==> person_label(uid, name, self_id) == name + "("@
            + int_text(uid as int) + ")"@,
{
}

/// The number under a name is the one that stands there, and none where there is no number.
pub proof fn law_number_under_a_name(v: JsonView, key: Seq<char>)
    ensures
        v.get(key) is None ==> member_int(v, key) == 0,
        v.get(key) is Some && v.get(key)->0.to_int() is None ==> member_int(v, key) == 0,
        v.get(key) is Some && v.get(key)->0.to_int() is Some ==> member_int(v, key) == v.get(
            key,
        )->0.to_int()->0,
{
}

} // verus!
