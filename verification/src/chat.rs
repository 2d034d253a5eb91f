//! How a group stands, and when the bot answers.

use crate::config::{text_pair_views, Config};
use crate::filedb::{law_get_after_set, stored, with_value, FileDb};
use crate::json::{entry_views, json_views, Json, JsonView};
use crate::number::{Real, ONE_BITS};
use crate::rpc::int_value;
use crate::text::{
    chars_of, contains, int_text, law_decimal_is_injective, lowercase, occurs, own, same,
    signed_text, to_lower,
};
use crate::types::{has_kind, is_kind, member_int, poke_target, Message, MessageView};
use crate::util::{holds, keep_last, last_of};
use crate::yaml::{value_to_f64, Yaml, YamlView};
use crate::select::{lemma_selected_next, lemma_selected_none, selected};
use vstd::prelude::*;
use vstd::string::*;

verus! {

/// How a group stands: how willing the bot is to answer, its own last messages, and when it last
/// considered and gave an answer.
pub struct GroupStatusView {
    pub willingness: Real,
    pub self_msg_ids: Seq<i64>,
    pub last_check_willing_time: Option<Real>,
    pub last_reply_time: Option<Real>,
}

/// How a group stands: how willing the bot is to answer, its own last messages, and when it last
/// considered and gave an answer.
#[derive(Debug)]
pub struct GroupStatus {
    pub willingness: Real,
    pub self_msg_ids: Vec<i64>,
    pub last_check_willing_time: Option<Real>,
    pub last_reply_time: Option<Real>,
}

impl View for GroupStatus {
    type V = GroupStatusView;

    open spec fn view(&self) -> GroupStatusView {
        GroupStatusView {
            willingness: self.willingness,
            self_msg_ids: self.self_msg_ids@,
            last_check_willing_time: self.last_check_willing_time,
            last_reply_time: self.last_reply_time,
        }
    }
}

/// The integers among the items.
pub open spec fn ints_of(items: Seq<JsonView>) -> Seq<i64>
    decreases items.len(),
{
    if items.len() == 0 {
        Seq::empty()
    } else {
        match items.last().as_int() {
            Some(i) => ints_of(items.drop_last()).push(i),
            None => ints_of(items.drop_last()),
        }
    }
}

/// The number that a value is, where it is one.
pub open spec fn moment(v: Option<JsonView>) -> Option<Real> {
    match v {
        Some(w) => w.as_real(),
        None => None,
    }
}

/// How a group stands, as the store says.
pub open spec fn status_of(data: JsonView) -> GroupStatusView {
    GroupStatusView {
        willingness: match moment(data.get("willingness"@)) {
            Some(x) => x,
            None => (Real { bits: 0 }),
        },
        self_msg_ids: match data.get("self_msg_ids"@) {
            Some(JsonView::Array(items)) => ints_of(items),
            _ => Seq::empty(),
        },
        last_check_willing_time: moment(data.get("last_check_willing_time"@)),
        last_reply_time: moment(data.get("last_reply_time"@)),
    }
}

/// The name under which the store keeps how a group stands.
pub open spec fn status_key(group_id: i64) -> Seq<char> {
    "status_"@ + int_text(group_id as int)
}

/// The integers as values.
pub open spec fn int_values(ids: Seq<i64>) -> Seq<JsonView> {
    ids.map_values(|i: i64| int_value(i))
}

/// The value by which the store keeps how a group stands.
pub open spec fn status_value(
    willingness: JsonView,
    ids: Seq<i64>,
    last_check: JsonView,
    last_reply: JsonView,
) -> JsonView {
    JsonView::Object(
        seq![
            ("last_check_willing_time"@, last_check),
            ("last_reply_time"@, last_reply),
            ("self_msg_ids"@, JsonView::Array(int_values(ids))),
            ("willingness"@, willingness),
        ],
    )
}

fn read_moment(v: Option<&Json>) -> (res: Option<Real>)
    ensures
        res == moment(match v {
            Some(w) => Some(w@),
            None => None,
        }),
{
    match v {
        Some(w) => w.as_real(),
        None => None,
    }
}

fn make_status_key(group_id: i64) -> (res: String)
    ensures
        res@ == status_key(group_id),
{
    let mut key = own("status_");
    let id = signed_text(group_id);
    key.append(id.as_str());
    key
}

/// How many of its own messages the bot remembers in a group.
pub const SELF_MSG_KEEP: usize = 100;

impl GroupStatus {
    /// How a group stands.
    pub fn load(db: &FileDb, group_id: i64) -> (res: GroupStatus)
        ensures
            res@ == status_of(stored(db.data@, status_key(group_id))),
    {
        let key = make_status_key(group_id);
        let data = db.get(key.as_str());
        let mut ids: Vec<i64> = Vec::new();
        match data.get("self_msg_ids") {
            Some(v) => match v.as_array() {
                Some(items) => {
                    let ghost all = json_views(items@);
                    let mut i: usize = 0;
                    while i < items.len()
                        invariant
                            all == json_views(items@),
                            i <= items@.len(),
                            ids@ == ints_of(all.take(i as int)),
                        decreases items@.len() - i,
                    {
                        assert(all.take(i + 1).drop_last() == all.take(i as int));
                        match items[i].as_int() {
                            Some(id) => {
                                ids.push(id);
                            },
                            None => {},
                        }
                        i += 1;
                    }
                    assert(all.take(i as int) == all);
                },
                None => {},
            },
            None => {},
        }
        GroupStatus {
            willingness: match read_moment(data.get("willingness")) {
                Some(x) => x,
                None => Real { bits: 0 },
            },
            self_msg_ids: ids,
            last_check_willing_time: read_moment(data.get("last_check_willing_time")),
            last_reply_time: read_moment(data.get("last_reply_time")),
        }
    }

    /// Keeps how a group stands; the numbers are given as JSON values.
    pub fn save(
        db: &mut FileDb,
        group_id: i64,
        willingness: Json,
        self_msg_ids: &Vec<i64>,
        last_check: Json,
        last_reply: Json,
    )
        ensures
            final(db).data@ == with_value(
                old(db).data@,
                status_key(group_id),
                status_value(willingness@, self_msg_ids@, last_check@, last_reply@),
            ),
    {
        let mut ids: Vec<Json> = Vec::new();
        let mut i: usize = 0;
        while i < self_msg_ids.len()
            invariant
                i <= self_msg_ids@.len(),
                ids@.len() == i,
                forall|j: int| 0 <= j < i ==> (#[trigger] ids@[j])@ == int_value(self_msg_ids@[j]),
            decreases self_msg_ids@.len() - i,
        {
            ids.push(Json::integer(self_msg_ids[i]));
            i += 1;
        }
        assert(json_views(ids@) =~= int_values(self_msg_ids@));
        let ghost value = status_value(willingness@, self_msg_ids@, last_check@, last_reply@);
        let mut entries: Vec<(String, Json)> = Vec::new();
        entries.push((own("last_check_willing_time"), last_check));
        entries.push((own("last_reply_time"), last_reply));
        entries.push((own("self_msg_ids"), Json::array(ids)));
        entries.push((own("willingness"), willingness));
        assert(entry_views(entries@) =~= value->Object_0);
        let key = make_status_key(group_id);
        db.set(key.as_str(), Json::object(entries));
    }
}

/// The bot's own messages after one more; the oldest go where there are too many.
pub fn note_sent_msg(self_msg_ids: Vec<i64>, send_msg_id: i64) -> (res: Vec<i64>)
    ensures
        res@ == last_of(self_msg_ids@.push(send_msg_id), SELF_MSG_KEEP as int),
{
    let mut ids = self_msg_ids;
    ids.push(send_msg_id);
    keep_last(ids, SELF_MSG_KEEP)
}

impl GroupStatus {
    /// How a group stands after its willingness was considered at a moment.
    pub fn after_check(self, willingness: Real, now: Real) -> (res: GroupStatus)
        ensures
            res@ == (GroupStatusView {
                willingness,
                last_check_willing_time: Some(now),
                ..self@
            }),
    {
        GroupStatus {
            willingness,
            self_msg_ids: self.self_msg_ids,
            last_check_willing_time: Some(now),
            last_reply_time: self.last_reply_time,
        }
    }

    /// How a group stands after the bot sent a message there at a moment.
    pub fn after_sent(self, send_msg_id: i64, now: Real) -> (res: GroupStatus)
        ensures
            res@ == (GroupStatusView {
                self_msg_ids: noted(self@.self_msg_ids, seq![send_msg_id]),
                last_reply_time: Some(now),
                ..self@
            }),
    {
        proof {
            reveal_with_fuel(noted, 2);
            assert(seq![send_msg_id].drop_last() =~= Seq::<i64>::empty());
        }
        GroupStatus {
            willingness: self.willingness,
            self_msg_ids: note_sent_msg(self.self_msg_ids, send_msg_id),
            last_check_willing_time: self.last_check_willing_time,
            last_reply_time: Some(now),
        }
    }

    /// How a group stands after an answer, where this is what the willingness came down to; it does
    /// not fall below zero.
    pub fn after_reply(self, willingness: Real) -> (res: GroupStatus)
        ensures
            res@ == (GroupStatusView {
                willingness: willingness.greater(Real { bits: 0 }),
                ..self@
            }),
    {
        GroupStatus {
            willingness: settle_after_reply(willingness),
            self_msg_ids: self.self_msg_ids,
            last_check_willing_time: self.last_check_willing_time,
            last_reply_time: self.last_reply_time,
        }
    }
}

/// The bot's own messages after some more, one after the other.
pub open spec fn noted(ids: Seq<i64>, sent: Seq<i64>) -> Seq<i64>
    decreases sent.len(),
{
    if sent.len() == 0 {
        ids
    } else {
        last_of(noted(ids, sent.drop_last()).push(sent.last()), SELF_MSG_KEEP as int)
    }
}

/// Of all that the bot sent, one message after the other, it remembers the last ones, in their order.
pub proof fn law_last_sent_are_known(ids: Seq<i64>, sent: Seq<i64>)
    requires
        ids.len() <= SELF_MSG_KEEP,
    ensures
        noted(ids, sent) == last_of(ids + sent, SELF_MSG_KEEP as int),
    decreases sent.len(),
{
    if sent.len() == 0 {
        assert(ids + sent =~= ids);
    } else {
        law_last_sent_are_known(ids, sent.drop_last());
        assert(ids + sent =~= (ids + sent.drop_last()).push(sent.last()));
        assert(noted(ids, sent) =~= last_of(ids + sent, SELF_MSG_KEEP as int));
    }
}

/// A message that the bot sent is among those that it remembers, and it remembers no more than so many.
pub proof fn law_sent_message_is_known(ids: Seq<i64>, id: i64)
    ensures
        last_of(ids.push(id), SELF_MSG_KEEP as int).contains(id),
        last_of(ids.push(id), SELF_MSG_KEEP as int).len() <= SELF_MSG_KEEP,
{
    let res = last_of(ids.push(id), SELF_MSG_KEEP as int);
    assert(res[res.len() - 1] == id);
}

/// How a group stands is read as it was kept, and how another stands is left.
pub proof fn law_status_reads_back(
    data: JsonView,
    group_id: i64,
    willingness: JsonView,
    ids: Seq<i64>,
    last_check: JsonView,
    last_reply: JsonView,
    other: i64,
)
    ensures
        ({
            let after = with_value(
                data,
                status_key(group_id),
                status_value(willingness, ids, last_check, last_reply),
            );
            &&& status_of(stored(after, status_key(group_id))) == (GroupStatusView {
                willingness: match willingness.as_real() {
                    Some(x) => x,
                    None => (Real { bits: 0 }),
                },
                self_msg_ids: ids,
                last_check_willing_time: last_check.as_real(),
                last_reply_time: last_reply.as_real(),
            })
            &&& other != group_id ==> stored(after, status_key(other)) == stored(
                data,
                status_key(other),
            )
        }),
{
    let value = status_value(willingness, ids, last_check, last_reply);
    law_get_after_set(data, status_key(group_id), value, status_key(other));
    if status_key(other) == status_key(group_id) {
        let a = int_text(group_id as int);
        let b = int_text(other as int);
        let n = "status_"@.len() as int;
        assert(status_key(group_id).skip(n) =~= a);
        assert(status_key(other).skip(n) =~= b);
        law_decimal_is_injective(group_id, other);
    }
    let entries = value->Object_0;
    reveal_strlit("last_check_willing_time");
    reveal_strlit("last_reply_time");
    reveal_strlit("self_msg_ids");
    reveal_strlit("willingness");
    assert("last_check_willing_time"@.len() == 23 && "last_reply_time"@.len() == 15
        && "self_msg_ids"@.len() == 12 && "willingness"@.len() == 11);
    reveal_with_fuel(crate::json::lookup, 6);
    assert(entries.skip(1)[0] == entries[1]);
    assert(entries.skip(1).skip(1)[0] == entries[2]);
    assert(entries.skip(1).skip(1).skip(1)[0] == entries[3]);
    assert(value.get("last_check_willing_time"@) == Some(last_check));
    assert(value.get("last_reply_time"@) == Some(last_reply));
    assert(value.get("self_msg_ids"@) == Some(JsonView::Array(int_values(ids))));
    assert(value.get("willingness"@) == Some(willingness));
    lemma_ints_read_back(ids);
}

proof fn lemma_ints_read_back(ids: Seq<i64>)
    ensures
        ints_of(int_values(ids)) == ids,
    decreases ids.len(),
{
    let items = int_values(ids);
    if ids.len() > 0 {
        lemma_ints_read_back(ids.drop_last());
        assert(items.drop_last() =~= int_values(ids.drop_last()));
        assert(ids.drop_last().push(ids.last()) =~= ids);
    } else {
        assert(ints_of(items) =~= ids);
    }
}

proof fn lemma_ints_reread(items: Seq<JsonView>, again: Seq<JsonView>)
    requires
        items.len() == again.len(),
        forall|i: int|
            0 <= i < items.len() ==> (#[trigger] again[i]).as_int() == items[i].as_int(),
    ensures
        ints_of(again) == ints_of(items),
    decreases items.len(),
{
    if items.len() > 0 {
        assert(again[again.len() - 1].as_int() == items[items.len() - 1].as_int());
        lemma_ints_reread(items.drop_last(), again.drop_last());
    }
}

/// How a group stands, as it is after the store is kept in a file and read back: its own messages
/// are exactly those kept, and the rest is what is read back of the numbers.
pub proof fn law_status_survives_being_kept(
    data: JsonView,
    group_id: i64,
    willingness: JsonView,
    ids: Seq<i64>,
    last_check: JsonView,
    last_reply: JsonView,
)
    ensures
        ({
            let after = with_value(
                data,
                status_key(group_id),
                status_value(willingness, ids, last_check, last_reply),
            );
            let again = status_of(stored(after.reread(), status_key(group_id)));
            &&& again.self_msg_ids == ids
            &&& again.willingness == (match willingness.reread().as_real() {
                Some(x) => x,
                None => (Real { bits: 0 }),
            })
            &&& again.last_check_willing_time == last_check.reread().as_real()
            &&& again.last_reply_time == last_reply.reread().as_real()
        }),
{
    let value = status_value(willingness, ids, last_check, last_reply);
    law_get_after_set(data, status_key(group_id), value, status_key(group_id));
    crate::filedb::law_stored_rereads(
        with_value(data, status_key(group_id), value),
        status_key(group_id),
    );
    let entries = value->Object_0;
    reveal_strlit("last_check_willing_time");
    reveal_strlit("last_reply_time");
    reveal_strlit("self_msg_ids");
    reveal_strlit("willingness");
    assert("last_check_willing_time"@.len() == 23 && "last_reply_time"@.len() == 15
        && "self_msg_ids"@.len() == 12 && "willingness"@.len() == 11);
    reveal_with_fuel(crate::json::lookup, 6);
    assert(entries.skip(1)[0] == entries[1]);
    assert(entries.skip(1).skip(1)[0] == entries[2]);
    assert(entries.skip(1).skip(1).skip(1)[0] == entries[3]);
    assert(value.get("last_check_willing_time"@) == Some(last_check));
    assert(value.get("last_reply_time"@) == Some(last_reply));
    assert(value.get("self_msg_ids"@) == Some(JsonView::Array(int_values(ids))));
    assert(value.get("willingness"@) == Some(willingness));
    crate::json::law_reread_keeps_texts_and_integers(value, "last_check_willing_time"@);
    crate::json::law_reread_keeps_texts_and_integers(value, "last_reply_time"@);
    crate::json::law_reread_keeps_texts_and_integers(value, "self_msg_ids"@);
    crate::json::law_reread_keeps_texts_and_integers(value, "willingness"@);
    let arr = JsonView::Array(int_values(ids));
    crate::json::law_reread_keeps_texts_and_integers(arr, Seq::empty());
    let items = int_values(ids);
    assert forall|i: int| 0 <= i < items.len() implies (#[trigger] items[i].reread()).as_int()
        == items[i].as_int() by {
        assert(items[i] == int_value(ids[i]));
    }
    lemma_ints_reread(items, value.get("self_msg_ids"@)->Some_0.reread()->Array_0);
    lemma_ints_read_back(ids);
}

/// The number and the name that the bot has in a group.
pub fn parse_self_info(info: &Json) -> (res: (i64, String))
    ensures
        res.0 == member_int(info@, "self_id"@),
        res.1@ == info@.str_or_empty("nickname"@),
{
    let id = match info.get("self_id") {
        Some(v) => match v.to_int() {
            Some(i) => i,
            None => 0,
        },
        None => 0,
    };
    (id, info.str_or_empty("nickname"))
}

/// Whether a text begins with a slash.
pub open spec fn is_command(text: Seq<char>) -> bool {
    text.len() > 0 && text[0] == '/'
}

fn begins_with_slash(text: &str) -> (res: bool)
    ensures
        res == is_command(text@),
{
    let chars = chars_of(text);
    chars.len() > 0 && chars[0] == '/'
}

/// Whether the bot considers a message: it is somebody else's, it is no command, a poke is at the bot,
/// and it is later than the bot's last answer.
pub open spec fn considers(msg: MessageView, self_id: i64, last_reply: Option<Real>) -> bool {
    &&& msg.user_id != self_id
    &&& msg.is_poke() || !is_command(msg.plain_text())
    &&& msg.is_poke() ==> poke_target(msg.msg) == self_id
    &&& last_reply matches Some(last) ==> !msg.time.at_most(last)
}

/// Whether the bot considers a message.
pub fn should_consider(msg: &Message, self_id: i64, last_reply: Option<Real>) -> (res: bool)
    ensures
        res == considers(msg@, self_id, last_reply),
{
    if msg.user_id == self_id {
        return false;
    }
    if msg.is_poke() {
        if msg.poke_target_id() != self_id {
            return false;
        }
    } else {
        let text = msg.plain_text();
        if begins_with_slash(text.as_str()) {
            return false;
        }
    }
    match last_reply {
        Some(last) => !msg.time.le(last),
        None => true,
    }
}

/// 0.3 as a double-precision number.
pub const THREE_TENTHS_BITS: u64 = 0x3FD3_3333_3333_3333;

/// 0.005 as a double-precision number.
pub const FIVE_THOUSANDTHS_BITS: u64 = 0x3F74_7AE1_47AE_147B;

/// Whether a segment is at the bot.
pub open spec fn is_at(seg: JsonView, self_id: i64) -> bool {
    is_kind(seg, "at"@) && (seg.get("data"@) matches Some(data) && (data.get(
        "qq"@,
    ) matches Some(qq) && qq.to_int() == Some(self_id)))
}

/// Whether a segment answers one of the messages.
pub open spec fn is_reply(seg: JsonView, ids: Seq<i64>) -> bool {
    is_kind(seg, "reply"@) && (seg.get("data"@) matches Some(data) && (data.get(
        "id"@,
    ) matches Some(id) && (id.to_int() matches Some(i) && ids.contains(i))))
}

/// What the segments add to the willingness: the first one at the bot, and the first one that answers
/// it, in the order of the segments.
pub open spec fn mention_terms(
    segs: Seq<JsonView>,
    self_id: i64,
    ids: Seq<i64>,
    per_at: Real,
    per_reply: Real,
) -> Seq<Real>
    decreases segs.len(),
{
    if segs.len() == 0 {
        Seq::empty()
    } else {
        let front = segs.drop_last();
        let before = mention_terms(front, self_id, ids, per_at, per_reply);
        if is_at(segs.last(), self_id) && !(exists|i: int|
            0 <= i < front.len() && is_at(#[trigger] front[i], self_id)) {
            before.push(per_at)
        } else if is_reply(segs.last(), ids) && !(exists|i: int|
            0 <= i < front.len() && is_reply(#[trigger] front[i], ids)) {
            before.push(per_reply)
        } else {
            before
        }
    }
}

/// What the configured words add to the willingness, those that occur in the text whatever its
/// letters' case.
pub open spec fn keyword_terms(pairs: Seq<(Seq<char>, YamlView)>, text: Seq<char>) -> Seq<Real>
    decreases pairs.len(),
{
    if pairs.len() == 0 {
        Seq::empty()
    } else {
        let before = keyword_terms(pairs.drop_last(), text);
        match pairs.last().1.to_real() {
            Some(x) => if occurs(lowercase(text), lowercase(pairs.last().0)) {
                before.push(x)
            } else {
                before
            },
            None => before,
        }
    }
}

/// What a message adds to the willingness, one term after the other.
pub open spec fn willing_terms(
    cfg: Config,
    msg: MessageView,
    self_id: i64,
    ids: Seq<i64>,
) -> Seq<Real> {
    if msg.is_poke() {
        seq![cfg.real_at("chat.willing.increase_per_poke"@, Real { bits: THREE_TENTHS_BITS })]
    } else {
        seq![
            cfg.real_at("chat.willing.increase_per_msg"@, Real { bits: FIVE_THOUSANDTHS_BITS }),
        ] + mention_terms(
            msg.msg,
            self_id,
            ids,
            cfg.real_at("chat.willing.increase_per_at"@, Real { bits: ONE_BITS }),
            cfg.real_at("chat.willing.increase_per_reply"@, Real { bits: THREE_TENTHS_BITS }),
        ) + keyword_terms(
            cfg.pairs_at("chat.willing.increase_keywords"@),
            msg.plain_text(),
        )
    }
}

fn segment_is_at(seg: &Json, self_id: i64) -> (res: bool)
    ensures
        res == is_at(seg@, self_id),
{
    if !has_kind(seg, "at") {
        return false;
    }
    match seg.get("data") {
        Some(data) => match data.get("qq") {
            Some(qq) => match qq.to_int() {
                Some(i) => i == self_id,
                None => false,
            },
            None => false,
        },
        None => false,
    }
}

fn segment_is_reply(seg: &Json, ids: &Vec<i64>) -> (res: bool)
    ensures
        res == is_reply(seg@, ids@),
{
    if !has_kind(seg, "reply") {
        return false;
    }
    match seg.get("data") {
        Some(data) => match data.get("id") {
            Some(id) => match id.to_int() {
                Some(i) => holds(ids, i),
                None => false,
            },
            None => false,
        },
        None => false,
    }
}

fn collect_mentions(
    segs: &Vec<Json>,
    self_id: i64,
    ids: &Vec<i64>,
    per_at: Real,
    per_reply: Real,
) -> (res: Vec<Real>)
    ensures
        res@ == mention_terms(json_views(segs@), self_id, ids@, per_at, per_reply),
{
    let ghost all = json_views(segs@);
    let mut out: Vec<Real> = Vec::new();
    let mut got_at = false;
    let mut got_reply = false;
    let mut i: usize = 0;
    proof {
        reveal_strlit("at");
        reveal_strlit("reply");
        assert("at"@.len() == 2 && "reply"@.len() == 5);
    }
    while i < segs.len()
        invariant
            "at"@.len() == 2 && "reply"@.len() == 5,
            all == json_views(segs@),
            i <= segs@.len(),
            out@ == mention_terms(all.take(i as int), self_id, ids@, per_at, per_reply),
            got_at == (exists|j: int| 0 <= j < i && is_at(#[trigger] all[j], self_id)),
            got_reply == (exists|j: int| 0 <= j < i && is_reply(#[trigger] all[j], ids@)),
        decreases segs@.len() - i,
    {
        let ghost front = all.take(i as int);
        assert(all.take(i + 1).drop_last() == front);
        let ghost before_at = got_at;
        let ghost before_reply = got_reply;
        assert(before_at == (exists|j: int|
            0 <= j < front.len() && is_at(#[trigger] front[j], self_id))) by {
            if before_at {
                let j = choose|j: int| 0 <= j < i && is_at(#[trigger] all[j], self_id);
                assert(is_at(front[j], self_id));
            }
            if exists|j: int| 0 <= j < front.len() && is_at(#[trigger] front[j], self_id) {
                let j = choose|j: int| 0 <= j < front.len() && is_at(#[trigger] front[j], self_id);
                assert(is_at(all[j], self_id));
            }
        }
        assert(before_reply == (exists|j: int|
            0 <= j < front.len() && is_reply(#[trigger] front[j], ids@))) by {
            if before_reply {
                let j = choose|j: int| 0 <= j < i && is_reply(#[trigger] all[j], ids@);
                assert(is_reply(front[j], ids@));
            }
            if exists|j: int| 0 <= j < front.len() && is_reply(#[trigger] front[j], ids@) {
                let j = choose|j: int| 0 <= j < front.len() && is_reply(#[trigger] front[j], ids@);
                assert(is_reply(all[j], ids@));
            }
        }
        let at = segment_is_at(&segs[i], self_id);
        let reply = segment_is_reply(&segs[i], ids);
        assert(all[i as int] == segs@[i as int]@);
        if at && !got_at {
            out.push(per_at);
        } else if reply && !got_reply {
            out.push(per_reply);
        }
        got_at = got_at || at;
        got_reply = got_reply || reply;
        i += 1;
    }
    assert(all.take(i as int) == all);
    out
}

fn collect_keywords(pairs: &Vec<(String, &Yaml)>, text: &str) -> (res: Vec<Real>)
    ensures
        res@ == keyword_terms(text_pair_views(pairs@), text@),
{
    let ghost all = text_pair_views(pairs@);
    let low = to_lower(text);
    let mut out: Vec<Real> = Vec::new();
    let mut i: usize = 0;
    while i < pairs.len()
        invariant
            all == text_pair_views(pairs@),
            low@ == lowercase(text@),
            i <= pairs@.len(),
            out@ == keyword_terms(all.take(i as int), text@),
        decreases pairs@.len() - i,
    {
        assert(all.take(i + 1).drop_last() == all.take(i as int));
        assert(all[i as int] == (pairs@[i as int].0@, pairs@[i as int].1@));
        let kw = to_lower(pairs[i].0.as_str());
        if contains(low.as_str(), kw.as_str()) {
            match value_to_f64(pairs[i].1) {
                Some(x) => {
                    out.push(x);
                },
                None => {},
            }
        }
        i += 1;
    }
    assert(all.take(i as int) == all);
    out
}

/// What a message adds to the willingness, one term after the other.
pub fn willingness_terms(cfg: &Config, msg: &Message, self_id: i64, ids: &Vec<i64>) -> (res: Vec<Real>)
    ensures
        cfg.keys_readable("chat.willing.increase_keywords"@) ==> res@ == willing_terms(
            *cfg,
            msg@,
            self_id,
            ids@,
        ),
{
    let mut out: Vec<Real> = Vec::new();
    if msg.is_poke() {
        out.push(
            cfg.f64_or("chat.willing.increase_per_poke", Real { bits: THREE_TENTHS_BITS }),
        );
        assert(out@ =~= willing_terms(*cfg, msg@, self_id, ids@));
    } else {
        let first = cfg.f64_or(
            "chat.willing.increase_per_msg",
            Real { bits: FIVE_THOUSANDTHS_BITS },
        );
        out.push(first);
        let per_at = cfg.f64_or("chat.willing.increase_per_at", Real { bits: ONE_BITS });
        let per_reply = cfg.f64_or(
            "chat.willing.increase_per_reply",
            Real { bits: THREE_TENTHS_BITS },
        );
        let mut mentions = collect_mentions(&msg.msg, self_id, ids, per_at, per_reply);
        let ghost m = mentions@;
        let pairs = cfg.mapping("chat.willing.increase_keywords");
        let text = msg.plain_text();
        let mut words = collect_keywords(&pairs, text.as_str());
        let ghost w = words@;
        out.append(&mut mentions);
        out.append(&mut words);
        assert(out@ =~= seq![first] + m + w);
    }
    out
}

/// The value of the first pair with this key.
pub open spec fn pair_value(pairs: Seq<(Seq<char>, YamlView)>, key: Seq<char>) -> Option<YamlView>
    decreases pairs.len(),
{
    if pairs.len() == 0 {
        None
    } else if pairs[0].0 == key {
        Some(pairs[0].1)
    } else {
        pair_value(pairs.skip(1), key)
    }
}

/// By how much the willingness in a group changes faster or slower than elsewhere.
pub open spec fn scale_of(cfg: Config, group_id: i64) -> Real {
    match pair_value(cfg.pairs_at("chat.willing.group_scale"@), int_text(group_id as int)) {
        Some(v) => match v.to_real() {
            Some(x) => x,
            None => (Real { bits: ONE_BITS }),
        },
        None => (Real { bits: ONE_BITS }),
    }
}

/// By how much the willingness in a group changes faster or slower than elsewhere.
pub fn group_scale(cfg: &Config, group_id: i64) -> (res: Real)
    ensures
        cfg.keys_readable("chat.willing.group_scale"@) ==> res == scale_of(*cfg, group_id),
{
    let pairs = cfg.mapping("chat.willing.group_scale");
    let key = signed_text(group_id);
    let ghost all = text_pair_views(pairs@);
    let mut i: usize = 0;
    assert(all.skip(0) == all);
    while i < pairs.len()
        invariant
            all == text_pair_views(pairs@),
            key@ == int_text(group_id as int),
            cfg.keys_readable("chat.willing.group_scale"@) ==> all == cfg.pairs_at(
                "chat.willing.group_scale"@,
            ),
            i <= pairs@.len(),
            pair_value(all, key@) == pair_value(all.skip(i as int), key@),
        decreases pairs@.len() - i,
    {
        assert(all.skip(i as int).skip(1) == all.skip(i + 1));
        assert(all.skip(i as int)[0] == (pairs@[i as int].0@, pairs@[i as int].1@));
        if same(pairs[i].0.as_str(), key.as_str()) {
            return match value_to_f64(pairs[i].1) {
                Some(x) => x,
                None => Real { bits: ONE_BITS },
            };
        }
        i += 1;
    }
    Real { bits: ONE_BITS }
}

/// The willingness after a message, no more than the limit, and whether the bot answers: the lot is
/// not above it.
pub fn settle(willingness: Real, limit: Real, lot: Real) -> (res: (Real, bool))
    ensures
        res.0 == willingness.lesser(limit),
        res.1 == !res.0.within(Real { bits: 0 }, Real { bits: ONE_BITS }).less(lot),
{
    let w = willingness.min(limit);
    let rate = w.clamp(Real { bits: 0 }, Real { bits: ONE_BITS });
    (w, !rate.lt(lot))
}

/// The willingness after an answer, not below zero.
pub fn settle_after_reply(willingness: Real) -> (res: Real)
    ensures
        res == willingness.greater(Real { bits: 0 }),
{
    willingness.max(Real { bits: 0 })
}

/// The willingness stays at or below the limit after a message, and does not fall below zero after an
/// answer.
pub proof fn law_willingness_is_bounded(willingness: Real, limit: Real)
    requires
        !limit.nan(),
    ensures
        willingness.lesser(limit).at_most(limit),
        (Real { bits: 0 }).at_most(willingness.greater(Real { bits: 0 })),
{
}

/// A bot that is not willing at all answers only where the lot is zero or below, and one that is
/// willing through and through answers always, for a lot below one.
pub proof fn law_willingness_decides(willingness: Real, limit: Real, lot: Real)
    requires
        !willingness.nan(),
        !limit.nan(),
        !lot.nan(),
    ensures
        ({
            let w = willingness.lesser(limit);
            let rate = w.within(Real { bits: 0 }, Real { bits: ONE_BITS });
            &&& w.at_most(Real { bits: 0 }) && (Real { bits: 0 }).less(lot) ==> rate.less(lot)
            &&& (Real { bits: ONE_BITS }).at_most(w) && lot.less(Real { bits: ONE_BITS })
                ==> !rate.less(lot)
        }),
{
}

/// What calls the bot is a segment of the kind "at" whose data name its number, and what answers it a
/// segment of the kind "reply" whose data name one of the messages it sent.
pub proof fn law_segments_that_mention(seg: JsonView, data: JsonView, self_id: i64, ids: Seq<i64>)
    ensures
        seg.get_str("type"@) != Some("at"@) ==> !is_at(seg, self_id),
        seg.get_str("type"@) != Some("reply"@) ==> !is_reply(seg, ids),
        seg.get("data"@) is None ==> !is_at(seg, self_id) && !is_reply(seg, ids),
        seg.get_str("type"@) == Some("at"@) && seg.get("data"@) == Some(data) ==> is_at(
            seg,
            self_id,
        ) == (data.get("qq"@) is Some && data.get("qq"@)->0.to_int() == Some(self_id)),
        seg.get_str("type"@) == Some("reply"@) && seg.get("data"@) == Some(data) ==> is_reply(
            seg,
            ids,
        ) == (data.get("id"@) is Some && data.get("id"@)->0.to_int() is Some && exists|k: int|
            0 <= k < ids.len() && data.get("id"@)->0.to_int() == Some(#[trigger] ids[k])),
{
    if seg.get_str("type"@) == Some("reply"@) && seg.get("data"@) == Some(data) && data.get("id"@)
        is Some && data.get("id"@)->0.to_int() is Some {
        let i = data.get("id"@)->0.to_int()->0;
        if ids.contains(i) {
            let k = choose|k: int| 0 <= k < ids.len() && ids[k] == i;
            assert(data.get("id"@)->0.to_int() == Some(ids[k]));
        }
    }
}

/// A message in which a segment, at whatever place, calls the bot, counts for that once however many do,
/// and one in which none does does not; likewise for a segment that answers one of its messages. What
/// comes first in the message counts first.
pub proof fn law_mentions_count_once(
    segs: Seq<JsonView>,
    self_id: i64,
    ids: Seq<i64>,
    per_at: Real,
    per_reply: Real,
    a: int,
    r: int,
)
    requires
        0 <= a <= segs.len(),
        0 <= r <= segs.len(),
        a < segs.len() ==> is_at(segs[a], self_id),
        r < segs.len() ==> is_reply(segs[r], ids),
        forall|i: int| 0 <= i < a ==> !is_at(#[trigger] segs[i], self_id),
        forall|i: int| 0 <= i < r ==> !is_reply(#[trigger] segs[i], ids),
    ensures
        mention_terms(segs, self_id, ids, per_at, per_reply) == (if a == segs.len() && r
            == segs.len() {
            Seq::empty()
        } else if r == segs.len() {
            seq![per_at]
        } else if a == segs.len() {
            seq![per_reply]
        } else if a < r {
            seq![per_at, per_reply]
        } else {
            seq![per_reply, per_at]
        }),
    decreases segs.len(),
{
    reveal_strlit("at");
    reveal_strlit("reply");
    assert("at"@.len() != "reply"@.len());
    if segs.len() > 0 {
        let front = segs.drop_last();
        let k = segs.len() - 1;
        let x = if a < k {
            a
        } else {
            k
        };
        let y = if r < k {
            r
        } else {
            k
        };
        law_mentions_count_once(front, self_id, ids, per_at, per_reply, x, y);
        assert(x < k ==> is_at(front[x], self_id));
        assert(y < k ==> is_reply(front[y], ids));
        assert(!(is_at(segs[k], self_id) && is_reply(segs[k], ids)));
        let before = mention_terms(front, self_id, ids, per_at, per_reply);
        assert(before.push(per_at) =~= before + seq![per_at]);
        assert(mention_terms(segs, self_id, ids, per_at, per_reply) =~= (if a == segs.len() && r
            == segs.len() {
            Seq::empty()
        } else if r == segs.len() {
            seq![per_at]
        } else if a == segs.len() {
            seq![per_reply]
        } else if a < r {
            seq![per_at, per_reply]
        } else {
            seq![per_reply, per_at]
        }));
    }
}

/// The bot never considers what it wrote itself, what it has replied after, a command, or a poke aimed at
/// somebody else; it considers everything else.
pub proof fn law_what_is_considered(msg: MessageView, self_id: i64, last_reply: Option<Real>)
    ensures
        msg.user_id == self_id ==> !considers(msg, self_id, last_reply),
        last_reply is Some && msg.time.at_most(last_reply->0) ==> !considers(
            msg,
            self_id,
            last_reply,
        ),
        !msg.is_poke() && msg.plain_text().len() > 0 && msg.plain_text()[0] == '/' ==> !considers(
            msg,
            self_id,
            last_reply,
        ),
        msg.is_poke() && poke_target(msg.msg) != self_id ==> !considers(msg, self_id, last_reply),
        msg.user_id != self_id && (last_reply is None || !msg.time.at_most(last_reply->0)) && (
        msg.is_poke() && poke_target(msg.msg) == self_id || !msg.is_poke() && (
        msg.plain_text().len() == 0 || msg.plain_text()[0] != '/')) ==> considers(
            msg,
            self_id,
            last_reply,
        ),
{
}

/// Each keyword that the text holds, in capitals or not, adds its worth, in the order of the settings;
/// one whose worth is no number adds nothing.
pub proof fn law_keywords_add_their_worth(pairs: Seq<(Seq<char>, YamlView)>, text: Seq<char>)
    ensures
        selected(
            pairs.len() as int,
            |i: int|
                if pairs[i].1.to_real() is Some && occurs(lowercase(text), lowercase(pairs[i].0)) {
                    Some(pairs[i].1.to_real()->0)
                } else {
                    None
                },
            keyword_terms(pairs, text),
        ),
{
    let f = |i: int|
        if pairs[i].1.to_real() is Some && occurs(lowercase(text), lowercase(pairs[i].0)) {
            Some(pairs[i].1.to_real()->0)
        } else {
            None
        };
    lemma_keywords_add_their_worth(pairs, text, f, pairs.len() as int);
    assert(pairs.take(pairs.len() as int) =~= pairs);
}

proof fn lemma_keywords_add_their_worth(
    pairs: Seq<(Seq<char>, YamlView)>,
    text: Seq<char>,
    f: spec_fn(int) -> Option<Real>,
    n: int,
)
    requires
        0 <= n <= pairs.len(),
        forall|i: int|
            0 <= i < pairs.len() ==> (#[trigger] f(i)) == (
                if pairs[i].1.to_real() is Some && occurs(lowercase(text), lowercase(pairs[i].0)) {
                    Some(pairs[i].1.to_real()->0)
                } else {
                    None
                }
            ),
    ensures
        selected(n, f, keyword_terms(pairs.take(n), text)),
    decreases n,
{
    if n == 0 {
        lemma_selected_none(f);
    } else {
        lemma_keywords_add_their_worth(pairs, text, f, n - 1);
        assert(pairs.take(n).drop_last() =~= pairs.take(n - 1));
        lemma_selected_next(n - 1, f, keyword_terms(pairs.take(n - 1), text));
    }
}

/// Of a list the integers are read, in their order, and nothing else.
pub proof fn law_kept_numbers_are_read(items: Seq<JsonView>)
    ensures
        selected(
            items.len() as int,
            |i: int|
                items[i].as_int(),
            ints_of(items),
        ),
{
    let f = |i: int|
        items[i].as_int();
    lemma_kept_numbers_are_read(items, f, items.len() as int);
    assert(items.take(items.len() as int) =~= items);
}

proof fn lemma_kept_numbers_are_read(items: Seq<JsonView>, f: spec_fn(int) -> Option<i64>, n: int)
    requires
        0 <= n <= items.len(),
        forall|i: int|
            0 <= i < items.len() ==> (#[trigger] f(i)) == (
                items[i].as_int()
            ),
    ensures
        selected(n, f, ints_of(items.take(n))),
    decreases n,
{
    if n == 0 {
        lemma_selected_none(f);
    } else {
        lemma_kept_numbers_are_read(items, f, n - 1);
        assert(items.take(n).drop_last() =~= items.take(n - 1));
        lemma_selected_next(n - 1, f, ints_of(items.take(n - 1)));
    }
}

/// A poke adds what a poke is worth and nothing else. Any other message adds first what a message is
/// worth, then what its mentions are, and then what its keywords are, with the worths that the settings
/// give, or three tenths, five thousandths, one and three tenths.
pub proof fn law_worth_of_a_message(cfg: Config, msg: MessageView, self_id: i64, ids: Seq<i64>)
    ensures
        msg.is_poke() ==> willing_terms(cfg, msg, self_id, ids) == seq![
            cfg.real_at("chat.willing.increase_per_poke"@, (Real { bits: 0x3fd3_3333_3333_3333 })),
        ],
        !msg.is_poke() ==> {
            let res = willing_terms(cfg, msg, self_id, ids);
            let mentions = mention_terms(
                msg.msg,
                self_id,
                ids,
                cfg.real_at("chat.willing.increase_per_at"@, (Real { bits: 0x3ff0_0000_0000_0000 })),
                cfg.real_at(
                    "chat.willing.increase_per_reply"@,
                    (Real { bits: 0x3fd3_3333_3333_3333 }),
                ),
            );
            let words = keyword_terms(
                cfg.pairs_at("chat.willing.increase_keywords"@),
                msg.plain_text(),
            );
            &&& res.len() == 1 + mentions.len() + words.len()
            &&& res[0] == cfg.real_at(
                "chat.willing.increase_per_msg"@,
                (Real { bits: 0x3f74_7ae1_47ae_147b }),
            )
            &&& res.subrange(1, 1 + mentions.len() as int) == mentions
            &&& res.skip(1 + mentions.len() as int) == words
        },
{
    if !msg.is_poke() {
        let mentions = mention_terms(
            msg.msg,
            self_id,
            ids,
            cfg.real_at("chat.willing.increase_per_at"@, (Real { bits: 0x3ff0_0000_0000_0000 })),
            cfg.real_at("chat.willing.increase_per_reply"@, (Real { bits: 0x3fd3_3333_3333_3333 })),
        );
        let words = keyword_terms(
            cfg.pairs_at("chat.willing.increase_keywords"@),
            msg.plain_text(),
        );
        let res = willing_terms(cfg, msg, self_id, ids);
        assert(res.subrange(1, 1 + mentions.len() as int) =~= mentions);
        assert(res.skip(1 + mentions.len() as int) =~= words);
    }
}

/// A group's scale is the number that the settings give for the group, by the first entry that does, and
/// one where there is none or it is no number.
pub proof fn law_scale_is_the_groups_own(cfg: Config, group_id: i64, k: int)
    ensures
        ({
            let pairs = cfg.pairs_at("chat.willing.group_scale"@);
            let key = int_text(group_id as int);
            &&& 0 <= k < pairs.len() && pairs[k].0 == key && (forall|i: int|
                0 <= i < k ==> (#[trigger] pairs[i]).0 != key) ==> scale_of(cfg, group_id) == (
            match pairs[k].1.to_real() {
                Some(x) => x,
                None => (Real { bits: 0x3ff0_0000_0000_0000 }),
            })
            &&& (forall|i: int| 0 <= i < pairs.len() ==> (#[trigger] pairs[i]).0 != key)
                ==> scale_of(cfg, group_id) == (Real { bits: 0x3ff0_0000_0000_0000 })
        }),
{
    lemma_pair_value(
        cfg.pairs_at("chat.willing.group_scale"@),
        int_text(group_id as int),
        k,
    );
}

proof fn lemma_pair_value(pairs: Seq<(Seq<char>, YamlView)>, key: Seq<char>, k: int)
    ensures
        0 <= k < pairs.len() && pairs[k].0 == key && (forall|i: int|
            0 <= i < k ==> (#[trigger] pairs[i]).0 != key) ==> pair_value(pairs, key) == Some(
            pairs[k].1,
        ),
        (forall|i: int| 0 <= i < pairs.len() ==> (#[trigger] pairs[i]).0 != key) ==> pair_value(
            pairs,
            key,
        ) is None,
    decreases pairs.len(),
{
    if pairs.len() > 0 && pairs[0].0 != key {
        let rest = pairs.skip(1);
        lemma_pair_value(rest, key, k - 1);
        assert(forall|i: int| 0 <= i < rest.len() ==> #[trigger] rest[i] == pairs[i + 1]);
        if 0 <= k < pairs.len() && pairs[k].0 == key && (forall|i: int|
            0 <= i < k ==> (#[trigger] pairs[i]).0 != key) {
            assert(rest[k - 1] == pairs[k]);
            assert forall|i: int| 0 <= i < k - 1 implies (#[trigger] rest[i]).0 != key by {
                assert(pairs[i + 1].0 != key);
            }
        }
        if forall|i: int| 0 <= i < pairs.len() ==> (#[trigger] pairs[i]).0 != key {
            assert forall|i: int| 0 <= i < rest.len() implies (#[trigger] rest[i]).0 != key by {
                assert(pairs[i + 1].0 != key);
            }
        }
    }
}

/// Of the messages that the bot sent the last hundred are known, in their order.
pub proof fn law_last_hundred_are_known(ids: Seq<i64>, sent: Seq<i64>)
    requires
        ids.len() <= 100,
    ensures
        noted(ids, sent) == last_of(ids + sent, 100),
        SELF_MSG_KEEP == 100,
{
    law_last_sent_are_known(ids, sent);
}

/// What the bot does is drawn: it answers where the willingness, within nothing and one and not above the
/// limit, is not below the lot; a willingness that more is added to never makes it answer less.
pub proof fn law_more_willing_answers_more(a: Real, b: Real, limit: Real, lot: Real)
    requires
        !a.nan(),
        !b.nan(),
        !limit.nan(),
        !lot.nan(),
        a.at_most(b),
        !a.lesser(limit).within((Real { bits: 0 }), (Real { bits: ONE_BITS })).less(lot),
    ensures
        !b.lesser(limit).within((Real { bits: 0 }), (Real { bits: ONE_BITS })).less(lot),
{
}

/// A group of which nothing is kept is at rest: no willingness, no messages, and no times.
pub proof fn law_new_group_is_at_rest(data: JsonView)
    ensures
        data.get("willingness"@) is None ==> status_of(data).willingness == (Real { bits: 0 }),
        data.get("self_msg_ids"@) is None ==> status_of(data).self_msg_ids.len() == 0,
        data.get("last_check_willing_time"@) is None ==> status_of(data).last_check_willing_time
            is None,
        data.get("last_reply_time"@) is None ==> status_of(data).last_reply_time is None,
        data.get("self_msg_ids"@) matches Some(JsonView::Array(items)) ==> status_of(
            data,
        ).self_msg_ids == ints_of(items),
        data.get("last_reply_time"@) is Some ==> status_of(data).last_reply_time == data.get(
            "last_reply_time"@,
        )->0.as_real(),
        data.get("last_check_willing_time"@) is Some ==> status_of(data).last_check_willing_time
            == data.get("last_check_willing_time"@)->0.as_real(),
{
}

} // verus!
