//! What the bot considers before it answers, and what it asks the language model.

use crate::chat::is_command;
use crate::config::{
    filled, law_first_variable_counts, persona_for, persona_value, python_format, var, var_views, Config,
    FormatError, FormatErrorView,
};
use crate::events::{first_of, memory_views, EventMemory, EventMemoryView};
use crate::json::{entry_views, json_views, law_lookup_finds_the_first, Json, JsonView};
use crate::memory::{
    self_views, SelfMemory, SelfMemoryView, UserMemory, UserMemoryView, UserUpdate, UserUpdateView,
};
use crate::number::Real;
use crate::order::{
    arrange, arranged, law_arranged_is_in_order, law_arranged_is_permutation, law_numbers_rank,
    Counted,
};
use crate::rpc::{cfg_model, int_value, model_at, LlmRequest};
use crate::sticker::real_views;
use crate::text::{
    chars_of, concat, concatenated, int_text, join, joined, own, signed_text, views,
};
use crate::types::{message_views, pokes_since, Message, MessageView, PokeBoard};
use crate::util::{holds, json_f64_vec, vector_of};
use crate::yaml::YamlView;
use crate::select::{lemma_selected_next, lemma_selected_none, selected};
use vstd::prelude::*;
use vstd::string::*;

verus! {

/// The messages among the items that are no commands.
pub open spec fn history(items: Seq<JsonView>, group_id: i64) -> Seq<MessageView>
    decreases items.len(),
{
    if items.len() == 0 {
        Seq::empty()
    } else {
        let front = history(items.drop_last(), group_id);
        match MessageView::of_json(items.last(), Some(group_id)) {
            Some(m) => if is_command(m.plain_text()) {
                front
            } else {
                front.push(m)
            },
            None => front,
        }
    }
}

/// Whether one of the messages has this number.
pub open spec fn has_message(msgs: Seq<MessageView>, msg_id: i64) -> bool {
    exists|i: int| 0 <= i < msgs.len() && (#[trigger] msgs[i]).msg_id == msg_id
}

/// The messages with the one to answer: it comes behind the last where it is not among them, unless it
/// is a poke or has no number.
pub open spec fn with_current(msgs: Seq<MessageView>, msg: MessageView) -> Seq<MessageView> {
    if !msg.is_poke() && msg.msg_id != 0 && !has_message(msgs, msg.msg_id) {
        msgs.push(msg)
    } else {
        msgs
    }
}

/// The least of the messages' times.
pub open spec fn earliest(msgs: Seq<MessageView>) -> Option<Real>
    decreases msgs.len(),
{
    if msgs.len() == 0 {
        None
    } else {
        match earliest(msgs.drop_last()) {
            Some(t) => Some(t.lesser(msgs.last().time)),
            None => Some(msgs.last().time),
        }
    }
}

/// The keys of the pokes among the messages.
pub open spec fn poke_keys(msgs: Seq<MessageView>) -> Seq<(i64, i64, i64)>
    decreases msgs.len(),
{
    if msgs.len() == 0 {
        Seq::empty()
    } else if msgs.last().is_poke() {
        poke_keys(msgs.drop_last()).push(msgs.last().poke_key())
    } else {
        poke_keys(msgs.drop_last())
    }
}

/// The pokes that have none of the keys, and each key once.
pub open spec fn unseen(pokes: Seq<MessageView>, keys: Seq<(i64, i64, i64)>) -> Seq<MessageView>
    decreases pokes.len(),
{
    if pokes.len() == 0 {
        Seq::empty()
    } else {
        let front = pokes.drop_last();
        let key = pokes.last().poke_key();
        if keys.contains(key) || exists|i: int|
            0 <= i < front.len() && (#[trigger] front[i]).poke_key() == key {
            unseen(front, keys)
        } else {
            unseen(front, keys).push(pokes.last())
        }
    }
}

/// The messages that the bot considers: those of the group's history that are no commands, the one to
/// answer, and the pokes since the earliest of these.
pub open spec fn recent(
    raw: JsonView,
    msg: MessageView,
    board: PokeBoard,
) -> Seq<MessageView> {
    let items = match raw {
        JsonView::Array(items) => items,
        _ => Seq::empty(),
    };
    let base = with_current(history(items, msg.group_id), msg);
    let since = match earliest(base) {
        Some(t) => t,
        None => msg.time,
    };
    base + unseen(pokes_since(board.pokes_of(msg.group_id), since), poke_keys(base))
}

fn read_history(raw: &Json, group_id: i64) -> (res: Vec<Message>)
    ensures
        message_views(res@) == history(
            match raw@ {
                JsonView::Array(items) => items,
                _ => Seq::empty(),
            },
            group_id,
        ),
{
    let mut out: Vec<Message> = Vec::new();
    assert(message_views(out@) =~= Seq::empty());
    match raw.as_array() {
        Some(items) => {
            let ghost all = json_views(items@);
            let mut i: usize = 0;
            while i < items.len()
                invariant
                    all == json_views(items@),
                    i <= items@.len(),
                    message_views(out@) == history(all.take(i as int), group_id),
                decreases items@.len() - i,
            {
                assert(all.take(i + 1).drop_last() == all.take(i as int));
                match Message::from_json(&items[i], Some(group_id)) {
                    Some(m) => {
                        let text = m.plain_text();
                        let chars = chars_of(text.as_str());
                        if !(chars.len() > 0 && chars[0] == '/') {
                            let ghost before = out@;
                            let ghost v = m@;
                            out.push(m);
                            assert(message_views(out@) =~= message_views(before).push(v));
                        }
                    },
                    None => {},
                }
                i += 1;
            }
            assert(all.take(i as int) == all);
        },
        None => {},
    }
    out
}

/// Whether one of the messages has this number.
pub fn knows_message(msgs: &Vec<Message>, msg_id: i64) -> (res: bool)
    ensures
        res == has_message(message_views(msgs@), msg_id),
{
    let ghost all = message_views(msgs@);
    let mut i: usize = 0;
    while i < msgs.len()
        invariant
            all == message_views(msgs@),
            i <= msgs@.len(),
            forall|j: int| 0 <= j < i ==> (#[trigger] all[j]).msg_id != msg_id,
        decreases msgs@.len() - i,
    {
        if msgs[i].msg_id == msg_id {
            assert(all[i as int].msg_id == msg_id);
            return true;
        }
        i += 1;
    }
    false
}

fn has_key(keys: &Vec<(i64, i64, i64)>, key: (i64, i64, i64)) -> (res: bool)
    ensures
        res == keys@.contains(key),
{
    let mut i: usize = 0;
    while i < keys.len()
        invariant
            i <= keys@.len(),
            forall|j: int| 0 <= j < i ==> keys@[j] != key,
        decreases keys@.len() - i,
    {
        if keys[i].0 == key.0 && keys[i].1 == key.1 && keys[i].2 == key.2 {
            assert(keys@[i as int] == key);
            return true;
        }
        i += 1;
    }
    false
}

fn find_earliest(msgs: &Vec<Message>) -> (res: Option<Real>)
    ensures
        res == earliest(message_views(msgs@)),
{
    let ghost all = message_views(msgs@);
    let mut least: Option<Real> = None;
    let mut i: usize = 0;
    while i < msgs.len()
        invariant
            all == message_views(msgs@),
            i <= msgs@.len(),
            least == earliest(all.take(i as int)),
        decreases msgs@.len() - i,
    {
        assert(all.take(i + 1).drop_last() == all.take(i as int));
        least = match least {
            Some(t) => Some(t.min(msgs[i].time)),
            None => Some(msgs[i].time),
        };
        i += 1;
    }
    assert(all.take(i as int) == all);
    least
}

fn collect_poke_keys(msgs: &Vec<Message>) -> (res: Vec<(i64, i64, i64)>)
    ensures
        res@ == poke_keys(message_views(msgs@)),
{
    let ghost all = message_views(msgs@);
    let mut keys: Vec<(i64, i64, i64)> = Vec::new();
    let mut i: usize = 0;
    while i < msgs.len()
        invariant
            all == message_views(msgs@),
            i <= msgs@.len(),
            keys@ == poke_keys(all.take(i as int)),
        decreases msgs@.len() - i,
    {
        assert(all.take(i + 1).drop_last() == all.take(i as int));
        if msgs[i].is_poke() {
            keys.push(msgs[i].poke_key());
        }
        i += 1;
    }
    assert(all.take(i as int) == all);
    keys
}

fn take_unseen(pokes: &Vec<Message>, keys: &Vec<(i64, i64, i64)>) -> (res: Vec<Message>)
    ensures
        message_views(res@) == unseen(message_views(pokes@), keys@),
{
    let ghost all = message_views(pokes@);
    let mut seen: Vec<(i64, i64, i64)> = Vec::new();
    let mut out: Vec<Message> = Vec::new();
    let mut i: usize = 0;
    assert(message_views(out@) =~= Seq::empty());
    while i < pokes.len()
        invariant
            all == message_views(pokes@),
            i <= pokes@.len(),
            seen@.len() == i,
            forall|j: int| 0 <= j < i ==> #[trigger] seen@[j] == all[j].poke_key(),
            message_views(out@) == unseen(all.take(i as int), keys@),
        decreases pokes@.len() - i,
    {
        let ghost front = all.take(i as int);
        assert(all.take(i + 1).drop_last() == front);
        let key = pokes[i].poke_key();
        assert(seen@.contains(key) == (exists|j: int|
            0 <= j < front.len() && (#[trigger] front[j]).poke_key() == key)) by {
            if seen@.contains(key) {
                let j = choose|j: int| 0 <= j < seen@.len() && seen@[j] == key;
                assert(front[j].poke_key() == key);
            }
            if exists|j: int| 0 <= j < front.len() && (#[trigger] front[j]).poke_key() == key {
                let j = choose|j: int|
                    0 <= j < front.len() && (#[trigger] front[j]).poke_key() == key;
                assert(seen@[j] == key);
            }
        }
        if !has_key(keys, key) && !has_key(&seen, key) {
            let ghost before = out@;
            let m = pokes[i].copy();
            let ghost v = m@;
            out.push(m);
            assert(message_views(out@) =~= message_views(before).push(v));
        }
        seen.push(key);
        i += 1;
    }
    assert(all.take(i as int) == all);
    out
}

/// The messages that the bot considers. `raw` is the group's history.
pub fn recent_msgs(raw: &Json, msg: &Message, board: &PokeBoard) -> (res: Vec<Message>)
    ensures
        message_views(res@) == recent(raw@, msg@, *board),
{
    let mut msgs = read_history(raw, msg.group_id);
    if !msg.is_poke() && msg.msg_id != 0 && !knows_message(&msgs, msg.msg_id) {
        let ghost before = msgs@;
        msgs.push(msg.copy());
        assert(message_views(msgs@) =~= message_views(before).push(msg@));
    }
    let ghost base = message_views(msgs@);
    let since = match find_earliest(&msgs) {
        Some(t) => t,
        None => msg.time,
    };
    let keys = collect_poke_keys(&msgs);
    let pokes = board.collect_recent_pokes(msg.group_id, since);
    let mut more = take_unseen(&pokes, &keys);
    let ghost added = message_views(more@);
    msgs.append(&mut more);
    assert(message_views(msgs@) =~= base + added);
    msgs
}

/// The message to answer is among those that the bot considers, unless it is a poke or has no number.
pub proof fn law_current_is_considered(raw: JsonView, msg: MessageView, board: PokeBoard)
    requires
        !msg.is_poke(),
        msg.msg_id != 0,
    ensures
        has_message(recent(raw, msg, board), msg.msg_id),
{
    let items = match raw {
        JsonView::Array(items) => items,
        _ => Seq::empty(),
    };
    let h = history(items, msg.group_id);
    let base = with_current(h, msg);
    let all = recent(raw, msg, board);
    if has_message(h, msg.msg_id) {
        let i = choose|i: int| 0 <= i < h.len() && (#[trigger] h[i]).msg_id == msg.msg_id;
        assert(all[i].msg_id == msg.msg_id);
    } else {
        assert(base[h.len() as int] == msg);
        assert(all[h.len() as int].msg_id == msg.msg_id);
    }
}

/// The text of the last message that has four characters or more.
pub open spec fn last_long_text(msgs: Seq<MessageView>) -> Option<Seq<char>>
    decreases msgs.len(),
{
    if msgs.len() == 0 {
        None
    } else if msgs.last().plain_text().len() >= 4 {
        Some(msgs.last().plain_text())
    } else {
        last_long_text(msgs.drop_last())
    }
}

/// The texts whose vectors are asked for: the summary, and the last message that is long enough.
pub fn texts_to_embed(summary: &str, msgs: &Vec<Message>) -> (res: Vec<String>)
    ensures
        views(res@) == (match last_long_text(message_views(msgs@)) {
            Some(t) => seq![summary@, t],
            None => seq![summary@],
        }),
{
    let ghost all = message_views(msgs@);
    let mut out: Vec<String> = Vec::new();
    out.push(own(summary));
    let mut i: usize = msgs.len();
    assert(all.take(i as int) == all);
    while i > 0
        invariant
            all == message_views(msgs@),
            i <= msgs@.len(),
            views(out@) == seq![summary@],
            last_long_text(all) == last_long_text(all.take(i as int)),
        decreases i,
    {
        i -= 1;
        assert(all.take(i + 1).drop_last() == all.take(i as int));
        let text = msgs[i].plain_text();
        if chars_of(text.as_str()).len() >= 4 {
            let ghost before = out@;
            let ghost t = text@;
            out.push(text);
            assert(views(out@) =~= views(before).push(t));
            assert(views(before).push(t) =~= seq![summary@, t]);
            return out;
        }
    }
    out
}

/// The vectors among the items.
pub open spec fn vectors_among(items: Seq<JsonView>) -> Seq<Seq<Real>>
    decreases items.len(),
{
    if items.len() == 0 {
        Seq::empty()
    } else {
        match vector_of(items.last()) {
            Some(v) => vectors_among(items.drop_last()).push(v),
            None => vectors_among(items.drop_last()),
        }
    }
}

/// The vectors in a reply, or the complaint that there is none.
pub fn query_vectors(reply: &Json) -> (res: Result<Vec<Vec<Real>>, String>)
    ensures
        ({
            let found = match reply@ {
                JsonView::Array(items) => vectors_among(items),
                _ => Seq::empty(),
            };
            match res {
                Ok(vs) => found.len() > 0 && real_views(vs@) == found,
                Err(e) => found.len() == 0 && e@ == "embedding 为空"@,
            }
        }),
{
    let mut out: Vec<Vec<Real>> = Vec::new();
    assert(real_views(out@) =~= Seq::empty());
    match reply.as_array() {
        Some(items) => {
            let ghost all = json_views(items@);
            let mut i: usize = 0;
            while i < items.len()
                invariant
                    all == json_views(items@),
                    i <= items@.len(),
                    real_views(out@) == vectors_among(all.take(i as int)),
                decreases items@.len() - i,
            {
                assert(all.take(i + 1).drop_last() == all.take(i as int));
                match json_f64_vec(&items[i]) {
                    Some(v) => {
                        let ghost before = out@;
                        out.push(v);
                        assert(real_views(out@) =~= real_views(before).push(v@));
                    },
                    None => {},
                }
                i += 1;
            }
            assert(all.take(i as int) == all);
        },
        None => {},
    }
    let ghost found = match reply@ {
        JsonView::Array(items) => vectors_among(items),
        _ => Seq::empty(),
    };
    assert(real_views(out@) == found);
    assert(out@.len() == found.len());
    if out.len() == 0 {
        Err(own("embedding 为空"))
    } else {
        Ok(out)
    }
}

/// One line for each event: its time and what it says.
pub open spec fn event_lines(
    ems: Seq<EventMemoryView>,
    stamps: Seq<Seq<char>>,
) -> Seq<Seq<char>> {
    Seq::new(ems.len(), |i: int| stamps[i] + ": "@ + ems[i].text + "\n"@)
}

/// The events that come to mind, for the language model; nothing where there is none.
pub open spec fn events_text(ems: Seq<EventMemoryView>, stamps: Seq<Seq<char>>) -> Seq<char> {
    if ems.len() == 0 {
        Seq::empty()
    } else {
        "可能与你当前聊天内容相关的记忆事件:\n```\n"@ + concatenated(event_lines(ems, stamps))
            + "```\n"@
    }
}

/// The events that come to mind, for the language model. `stamps` holds the time of each as it is
/// shown.
pub fn em_text(ems: &Vec<EventMemory>, stamps: &Vec<String>) -> (res: String)
    requires
        stamps@.len() == ems@.len(),
    ensures
        res@ == events_text(memory_views(ems@), views(stamps@)),
{
    if ems.len() == 0 {
        let s = String::new();
        assert(s@ =~= Seq::empty());
        return s;
    }
    let ghost all = memory_views(ems@);
    let mut lines: Vec<String> = Vec::new();
    let mut i: usize = 0;
    while i < ems.len()
        invariant
            all == memory_views(ems@),
            stamps@.len() == ems@.len(),
            i <= ems@.len(),
            lines@.len() == i,
            forall|j: int|
                0 <= j < i ==> (#[trigger] lines@[j])@ == stamps@[j]@ + ": "@ + all[j].text + "\n"@,
        decreases ems@.len() - i,
    {
        let mut line = own(stamps[i].as_str());
        line.append(": ");
        line.append(ems[i].text.as_str());
        line.append("\n");
        lines.push(line);
        i += 1;
    }
    assert(views(lines@) =~= event_lines(all, views(stamps@)));
    let body = concat(&lines);
    let mut out = own("可能与你当前聊天内容相关的记忆事件:\n```\n");
    out.append(body.as_str());
    out.append("```\n");
    out
}

/// What the bot said once, in words: a text, or a sticker.
pub open spec fn said_text(sm: SelfMemoryView) -> Seq<char> {
    if sm.sticker.len() > 0 {
        "[表情包: "@ + sm.sticker + "]"@
    } else {
        sm.text
    }
}

/// One line for each thing that the bot said: its time, its number, and what it was.
pub open spec fn said_lines(sms: Seq<SelfMemoryView>, stamps: Seq<Seq<char>>) -> Seq<Seq<char>> {
    Seq::new(
        sms.len(),
        |i: int| stamps[i] + " ["@ + sms[i].id + "]: "@ + said_text(sms[i]) + "\n"@,
    )
}

/// What the bot said, for the language model; nothing where it said nothing.
pub open spec fn said_block(sms: Seq<SelfMemoryView>, stamps: Seq<Seq<char>>) -> Seq<char> {
    if sms.len() == 0 {
        Seq::empty()
    } else {
        "你自己过去的回复记录供参考:\n```\n"@ + concatenated(said_lines(sms, stamps)) + "```\n"@
    }
}

/// What the bot said, for the language model. `stamps` holds the time of each as it is shown.
pub fn sm_text(sms: &Vec<SelfMemory>, stamps: &Vec<String>) -> (res: String)
    requires
        stamps@.len() == sms@.len(),
    ensures
        res@ == said_block(self_views(sms@), views(stamps@)),
{
    if sms.len() == 0 {
        let s = String::new();
        assert(s@ =~= Seq::empty());
        return s;
    }
    let ghost all = self_views(sms@);
    let mut lines: Vec<String> = Vec::new();
    let mut i: usize = 0;
    while i < sms.len()
        invariant
            all == self_views(sms@),
            stamps@.len() == sms@.len(),
            i <= sms@.len(),
            lines@.len() == i,
            forall|j: int|
                0 <= j < i ==> (#[trigger] lines@[j])@ == stamps@[j]@ + " ["@ + all[j].id + "]: "@
                    + said_text(all[j]) + "\n"@,
        decreases sms@.len() - i,
    {
        let sm = &sms[i];
        let body = if !sm.sticker.as_str().is_empty() {
            let mut b = own("[表情包: ");
            b.append(sm.sticker.as_str());
            b.append("]");
            b
        } else {
            own(sm.text.as_str())
        };
        let mut line = own(stamps[i].as_str());
        line.append(" [");
        line.append(sm.id.as_str());
        line.append("]: ");
        line.append(body.as_str());
        line.append("\n");
        lines.push(line);
        i += 1;
    }
    assert(views(lines@) =~= said_lines(all, views(stamps@)));
    let body = concat(&lines);
    let mut out = own("你自己过去的回复记录供参考:\n```\n");
    out.append(body.as_str());
    out.append("```\n");
    out
}

/// The people who wrote the messages, each once, in the order in which they first did.
pub open spec fn speakers(msgs: Seq<MessageView>) -> Seq<i64>
    decreases msgs.len(),
{
    if msgs.len() == 0 {
        Seq::empty()
    } else {
        let front = speakers(msgs.drop_last());
        if front.contains(msgs.last().user_id) {
            front
        } else {
            front.push(msgs.last().user_id)
        }
    }
}

/// How many of the messages a person wrote.
pub open spec fn written_by(msgs: Seq<MessageView>, uid: i64) -> nat
    decreases msgs.len(),
{
    if msgs.len() == 0 {
        0
    } else if msgs.last().user_id == uid {
        written_by(msgs.drop_last(), uid) + 1
    } else {
        written_by(msgs.drop_last(), uid)
    }
}

/// The people who wrote the messages with how many each wrote.
pub open spec fn tally(msgs: Seq<MessageView>) -> Seq<Counted> {
    speakers(msgs).map_values(
        |uid: i64| Counted { count: written_by(msgs, uid) as usize, item: uid },
    )
}

/// The people who wrote the messages, those who wrote more first.
pub open spec fn top_speakers(msgs: Seq<MessageView>) -> Seq<i64> {
    arranged(tally(msgs)).map_values(|c: Counted| c.item)
}

/// The people with those who are mentioned in front of them, each of these that is not among them.
pub open spec fn with_mentioned(people: Seq<i64>, mentioned: Seq<i64>) -> Seq<i64>
    decreases mentioned.len(),
{
    if mentioned.len() == 0 {
        people
    } else {
        let before = with_mentioned(people, mentioned.drop_last());
        if before.contains(mentioned.last()) {
            before
        } else {
            seq![mentioned.last()] + before
        }
    }
}

fn count_by(msgs: &Vec<Message>, uid: i64) -> (res: usize)
    ensures
        res == written_by(message_views(msgs@), uid),
{
    let ghost all = message_views(msgs@);
    let mut n: usize = 0;
    let mut i: usize = 0;
    while i < msgs.len()
        invariant
            all == message_views(msgs@),
            i <= msgs@.len(),
            n <= i,
            n == written_by(all.take(i as int), uid),
        decreases msgs@.len() - i,
    {
        assert(all.take(i + 1).drop_last() == all.take(i as int));
        if msgs[i].user_id == uid {
            n += 1;
        }
        i += 1;
    }
    assert(all.take(i as int) == all);
    n
}

fn find_speakers(msgs: &Vec<Message>) -> (res: Vec<i64>)
    ensures
        res@ == speakers(message_views(msgs@)),
{
    let ghost all = message_views(msgs@);
    let mut out: Vec<i64> = Vec::new();
    let mut i: usize = 0;
    while i < msgs.len()
        invariant
            all == message_views(msgs@),
            i <= msgs@.len(),
            out@ == speakers(all.take(i as int)),
        decreases msgs@.len() - i,
    {
        assert(all.take(i + 1).drop_last() == all.take(i as int));
        if !holds(&out, msgs[i].user_id) {
            out.push(msgs[i].user_id);
        }
        i += 1;
    }
    assert(all.take(i as int) == all);
    out
}

/// The people of whom the bot recalls what it knows: those who are mentioned, then those who wrote the
/// messages, those who wrote more first; no more than `um_num` of them.
pub fn candidate_users(msgs: &Vec<Message>, mentioned: &Vec<i64>, um_num: usize) -> (res: Vec<i64>)
    ensures
        res@ == first_of(
            with_mentioned(top_speakers(message_views(msgs@)), mentioned@),
            um_num as int,
        ),
{
    let ghost all = message_views(msgs@);
    let people = find_speakers(msgs);
    let mut counted: Vec<Counted> = Vec::new();
    let mut i: usize = 0;
    while i < people.len()
        invariant
            all == message_views(msgs@),
            i <= people@.len(),
            counted@.len() == i,
            forall|j: int|
                0 <= j < i ==> #[trigger] counted@[j] == (Counted {
                    count: written_by(all, people@[j]) as usize,
                    item: people@[j],
                }),
        decreases people@.len() - i,
    {
        counted.push(Counted { count: count_by(msgs, people[i]), item: people[i] });
        i += 1;
    }
    assert(counted@ =~= tally(all));
    let order = arrange(counted);
    let mut out: Vec<i64> = Vec::new();
    let mut k: usize = 0;
    while k < order.len()
        invariant
            k <= order@.len(),
            out@.len() == k,
            forall|j: int| 0 <= j < k ==> #[trigger] out@[j] == order@[j].item,
        decreases order@.len() - k,
    {
        out.push(order[k].item);
        k += 1;
    }
    assert(out@ =~= top_speakers(all));
    let mut m: usize = 0;
    while m < mentioned.len()
        invariant
            m <= mentioned@.len(),
            out@ == with_mentioned(top_speakers(all), mentioned@.take(m as int)),
        decreases mentioned@.len() - m,
    {
        assert(mentioned@.take(m + 1).drop_last() == mentioned@.take(m as int));
        if !holds(&out, mentioned[m]) {
            let ghost before = out@;
            out.insert(0, mentioned[m]);
            assert(out@ =~= seq![mentioned@[m as int]] + before);
        }
        m += 1;
    }
    assert(mentioned@.take(m as int) == mentioned@);
    out.truncate(um_num);
    out
}

/// A line about a person, where there is anything to say in it.
pub open spec fn detail_line(label: Seq<char>, text: Seq<char>, present: bool) -> Seq<char> {
    if present {
        label + text + "\n"@
    } else {
        Seq::empty()
    }
}

/// One line for each event of a person: its time and what it was.
pub open spec fn user_event_lines(
    events: Seq<(JsonView, Seq<char>)>,
    stamps: Seq<Seq<char>>,
) -> Seq<Seq<char>> {
    Seq::new(events.len(), |i: int| "    ["@ + stamps[i] + "]: "@ + events[i].1 + "\n"@)
}

/// What the bot knows of a person, for the language model.
pub open spec fn user_block(
    user_id: i64,
    um: UserMemoryView,
    stamps: Seq<Seq<char>>,
) -> Seq<char> {
    "用户ID: "@ + int_text(user_id as int) + "\n"@ + detail_line(
        "  - 曾用名: "@,
        joined(um.names, ", "@),
        um.names.len() > 0,
    ) + detail_line("  - 简介: "@, um.profile, um.profile.len() > 0) + if um.recent_events.len()
        > 0 {
        "  - 最近事件:\n"@ + concatenated(user_event_lines(um.recent_events, stamps))
    } else {
        Seq::empty()
    }
}

/// What the bot knows of a person, for the language model. `stamps` holds the time of each event as it
/// is shown.
pub fn write_user(user_id: i64, um: &UserMemory, stamps: &Vec<String>) -> (res: String)
    requires
        stamps@.len() == um.recent_events@.len(),
    ensures
        res@ == user_block(user_id, um@, views(stamps@)),
{
    let mut out = own("用户ID: ");
    let id = signed_text(user_id);
    out.append(id.as_str());
    out.append("\n");
    let ghost head = out@;
    if um.names.len() > 0 {
        out.append("  - 曾用名: ");
        let names = join(&um.names, ", ");
        out.append(names.as_str());
        out.append("\n");
    }
    let ghost names_line = detail_line(
        "  - 曾用名: "@,
        joined(um@.names, ", "@),
        um@.names.len() > 0,
    );
    assert(out@ =~= head + names_line);
    if !um.profile.as_str().is_empty() {
        out.append("  - 简介: ");
        out.append(um.profile.as_str());
        out.append("\n");
    }
    let ghost profile_line = detail_line("  - 简介: "@, um@.profile, um@.profile.len() > 0);
    assert(out@ =~= head + names_line + profile_line);
    if um.recent_events.len() > 0 {
        let mut lines: Vec<String> = Vec::new();
        let mut i: usize = 0;
        while i < um.recent_events.len()
            invariant
                stamps@.len() == um.recent_events@.len(),
                i <= um.recent_events@.len(),
                lines@.len() == i,
                forall|j: int|
                    0 <= j < i ==> (#[trigger] lines@[j])@ == "    ["@ + stamps@[j]@ + "]: "@
                        + um.recent_events@[j].1@ + "\n"@,
            decreases um.recent_events@.len() - i,
        {
            let mut line = own("    [");
            line.append(stamps[i].as_str());
            line.append("]: ");
            line.append(um.recent_events[i].1.as_str());
            line.append("\n");
            lines.push(line);
            i += 1;
        }
        assert(views(lines@) =~= user_event_lines(um@.recent_events, views(stamps@)));
        let body = concat(&lines);
        out.append("  - 最近事件:\n");
        out.append(body.as_str());
        assert(out@ =~= head + names_line + profile_line + ("  - 最近事件:\n"@ + body@));
    } else {
        assert(out@ =~= head + names_line + profile_line + Seq::<char>::empty());
    }
    out
}

/// What the bot knows of people, for the language model; nothing where it knows nothing.
pub fn um_text(blocks: &Vec<String>) -> (res: String)
    ensures
        res@ == if blocks@.len() == 0 {
            Seq::empty()
        } else {
            "你对聊天中的部分用户的记忆:\n```\n"@ + joined(views(blocks@), "\n"@) + "```\n"@
        },
{
    if blocks.len() == 0 {
        let s = String::new();
        assert(s@ =~= Seq::empty());
        return s;
    }
    let body = join(blocks, "\n");
    let mut out = own("你对聊天中的部分用户的记忆:\n```\n");
    out.append(body.as_str());
    out.append("```\n");
    out
}

/// What the language model is told.
#[derive(Debug)]
pub struct Briefing {
    pub self_id: i64,
    pub self_name: String,
    pub recent_text: String,
    pub em_text: String,
    pub sm_text: String,
    pub um_text: String,
}

/// The values for the template of the question.
pub open spec fn briefing_vars(b: Briefing, persona: Seq<char>) -> Seq<(Seq<char>, Seq<char>)> {
    seq![
        ("self_id"@, int_text(b.self_id as int)),
        ("self_name"@, b.self_name@),
        ("persona"@, persona),
        ("recent_text"@, "以下是最近的聊天记录:\n```\n"@ + b.recent_text@ + "\n```"@),
        ("em_text"@, b.em_text@),
        ("sm_text"@, b.sm_text@),
        ("um_text"@, b.um_text@),
    ]
}

/// The persona that is configured for a group.
pub open spec fn group_persona(cfg: Config, group_id: i64) -> Option<YamlView> {
    match cfg.lookup("chat.prompt.persona"@) {
        Some(v) => persona_value(v, group_id),
        None => None,
    }
}

/// Whether the persona that is configured for a group, where there is one, can be written as a text.
pub open spec fn persona_readable(cfg: Config, group_id: i64) -> bool {
    group_persona(cfg, group_id) matches Some(v) ==> v.regular()
}

/// The question for the language model, or why it cannot be put together.
pub open spec fn reply_prompt(cfg: Config, group_id: i64, b: Briefing) -> Result<
    Seq<char>,
    FormatErrorView,
> {
    let persona = match group_persona(cfg, group_id) {
        Some(v) => v.plain(),
        None => Seq::empty(),
    };
    filled(cfg.text_at("chat.prompt.framework"@), briefing_vars(b, persona))
}

/// One of the keys that the answer must have, and that there is a list under it.
pub open spec fn list_key(key: Seq<char>) -> JsonView {
    JsonView::Object(seq![("key"@, JsonView::Str(key)), ("type"@, JsonView::Str("list"@))])
}

/// The options of the question: the answer is a JSON object with two lists.
pub open spec fn reply_options(timeout: JsonView, max_tokens: i64) -> JsonView {
    JsonView::Object(
        seq![
            (
                "json_key_restraints"@,
                JsonView::Array(seq![list_key("actions"@), list_key("user_updates"@)]),
            ),
            ("json_reply"@, JsonView::Bool(true)),
            ("max_tokens"@, int_value(max_tokens)),
            ("timeout"@, timeout),
        ],
    )
}

fn make_list_key(key: &str) -> (res: Json)
    ensures
        res@ == list_key(key@),
{
    let mut entries: Vec<(String, Json)> = Vec::new();
    entries.push((own("key"), Json::str(key)));
    entries.push((own("type"), Json::str("list")));
    assert(entry_views(entries@) =~= list_key(key@)->Object_0);
    Json::object(entries)
}

fn make_reply_options(timeout: Json, max_tokens: i64) -> (res: Json)
    ensures
        res@ == reply_options(timeout@, max_tokens),
{
    let ghost t = timeout@;
    let mut keys: Vec<Json> = Vec::new();
    keys.push(make_list_key("actions"));
    keys.push(make_list_key("user_updates"));
    assert(json_views(keys@) =~= seq![list_key("actions"@), list_key("user_updates"@)]);
    let mut entries: Vec<(String, Json)> = Vec::new();
    entries.push((own("json_key_restraints"), Json::array(keys)));
    entries.push((own("json_reply"), Json::Bool(true)));
    entries.push((own("max_tokens"), Json::integer(max_tokens)));
    entries.push((own("timeout"), timeout));
    assert(entry_views(entries@) =~= reply_options(t, max_tokens)->Object_0);
    Json::object(entries)
}

/// The question for the language model, or why it cannot be put together.
pub fn reply_request(cfg: &Config, group_id: i64, b: &Briefing) -> (res: Result<
    LlmRequest,
    FormatError,
>)
    ensures
        cfg.readable("chat.prompt.framework"@) && cfg.convertible("chat.llm.model"@)
            && persona_readable(*cfg, group_id) ==> match res {
            Ok(r) => {
                &&& reply_prompt(*cfg, group_id, *b) == Ok::<Seq<char>, FormatErrorView>(r.prompt@)
                &&& r.model@ == model_at(*cfg, "chat.llm.model"@).json()
                &&& r.images@.len() == 0
                &&& r.options@ == reply_options(
                    cfg.float_at("chat.llm.timeout"@, 120),
                    cfg.int_at("chat.llm.max_tokens"@, 10240),
                )
            },
            Err(e) => reply_prompt(*cfg, group_id, *b) == Err::<Seq<char>, FormatErrorView>(e@),
        },
{
    let persona = persona_for(cfg.get("chat.prompt.persona"), group_id);
    let framework = cfg.str("chat.prompt.framework");
    proof {
        if cfg.lookup("chat.prompt.persona"@) is None {
            assert(persona_value(YamlView::Null, group_id) is None);
        }
        assert(persona_readable(*cfg, group_id) ==> persona@ =~= match group_persona(
            *cfg,
            group_id,
        ) {
            Some(v) => v.plain(),
            None => Seq::empty(),
        });
    }
    let mut block = own("以下是最近的聊天记录:\n```\n");
    block.append(b.recent_text.as_str());
    block.append("\n```");
    let mut vars: Vec<(String, String)> = Vec::new();
    vars.push((own("self_id"), signed_text(b.self_id)));
    vars.push((own("self_name"), own(b.self_name.as_str())));
    vars.push((own("persona"), own(persona.as_str())));
    vars.push((own("recent_text"), block));
    vars.push((own("em_text"), own(b.em_text.as_str())));
    vars.push((own("sm_text"), own(b.sm_text.as_str())));
    vars.push((own("um_text"), own(b.um_text.as_str())));
    assert(var_views(vars@) =~= briefing_vars(*b, persona@));
    match python_format(framework.as_str(), &vars) {
        Ok(prompt) => {
            let options = make_reply_options(
                cfg.float_or("chat.llm.timeout", 120),
                cfg.i64_or("chat.llm.max_tokens", 10240),
            );
            Ok(
                LlmRequest {
                    model: cfg_model(cfg, "chat.llm.model"),
                    prompt,
                    images: Vec::new(),
                    options,
                },
            )
        },
        Err(e) => Err(e),
    }
}

/// The name under which a person wrote the last of the messages that are theirs.
pub open spec fn last_nickname(msgs: Seq<MessageView>, uid: i64) -> Option<Seq<char>>
    decreases msgs.len(),
{
    if msgs.len() == 0 {
        None
    } else if msgs.last().user_id == uid {
        Some(msgs.last().nickname)
    } else {
        last_nickname(msgs.drop_last(), uid)
    }
}

/// The names that an update brings: the one that it gives, and the one under which the person last
/// wrote.
pub open spec fn names_of_update(
    update: JsonView,
    msgs: Seq<MessageView>,
    uid: i64,
) -> Seq<Seq<char>> {
    let given = match update.get_str("new_name"@) {
        Some(n) => if n.len() > 0 {
            seq![n]
        } else {
            Seq::empty()
        },
        None => Seq::empty(),
    };
    match last_nickname(msgs, uid) {
        Some(n) => given.push(n),
        None => given,
    }
}

/// What an item of the answer says is to be changed in what is known of a person, where that is one of
/// those whom the model was told of, or the one who is answered.
pub open spec fn update_of(
    update: JsonView,
    msgs: Seq<MessageView>,
    told: Seq<i64>,
    sender: i64,
) -> Option<(i64, UserUpdateView)> {
    match update.get("user_id"@) {
        Some(id) => match id.to_int() {
            Some(uid) => if told.contains(uid) || uid == sender {
                Some(
                    (
                        uid,
                        UserUpdateView {
                            new_names: names_of_update(update, msgs, uid),
                            wrong_names: update.strings("wrong_names"@),
                            profile: update.get_str("profile"@),
                            event: update.get_str("new_event"@),
                        },
                    ),
                )
            } else {
                None
            },
            None => None,
        },
        None => None,
    }
}

/// What the items of the answer say is to be changed in what is known of people.
pub open spec fn updates_of(
    items: Seq<JsonView>,
    msgs: Seq<MessageView>,
    told: Seq<i64>,
    sender: i64,
) -> Seq<(i64, UserUpdateView)>
    decreases items.len(),
{
    if items.len() == 0 {
        Seq::empty()
    } else {
        match update_of(items.last(), msgs, told, sender) {
            Some(u) => updates_of(items.drop_last(), msgs, told, sender).push(u),
            None => updates_of(items.drop_last(), msgs, told, sender),
        }
    }
}

/// The views of a list of updates.
pub open spec fn update_views(updates: Seq<(i64, UserUpdate)>) -> Seq<(i64, UserUpdateView)> {
    updates.map_values(|u: (i64, UserUpdate)| (u.0, u.1@))
}

fn find_nickname(msgs: &Vec<Message>, uid: i64) -> (res: Option<&str>)
    ensures
        match res {
            Some(n) => last_nickname(message_views(msgs@), uid) == Some(n@),
            None => last_nickname(message_views(msgs@), uid) is None,
        },
{
    let ghost all = message_views(msgs@);
    let mut i: usize = msgs.len();
    assert(all.take(i as int) == all);
    while i > 0
        invariant
            all == message_views(msgs@),
            i <= msgs@.len(),
            last_nickname(all, uid) == last_nickname(all.take(i as int), uid),
        decreases i,
    {
        i -= 1;
        assert(all.take(i + 1).drop_last() == all.take(i as int));
        if msgs[i].user_id == uid {
            return Some(msgs[i].nickname.as_str());
        }
    }
    None
}

fn own_text(s: Option<&str>) -> (res: Option<String>)
    ensures
        crate::memory::text_view(res) == (match s {
            Some(t) => Some(t@),
            None => None,
        }),
{
    match s {
        Some(t) => Some(own(t)),
        None => None,
    }
}

fn read_update(update: &Json, msgs: &Vec<Message>, told: &Vec<i64>, sender: i64) -> (res: Option<
    (i64, UserUpdate),
>)
    ensures
        match res {
            Some(u) => update_of(update@, message_views(msgs@), told@, sender) == Some(
                (u.0, u.1@),
            ),
            None => update_of(update@, message_views(msgs@), told@, sender) is None,
        },
{
    let uid = match update.get("user_id") {
        Some(id) => match id.to_int() {
            Some(uid) => uid,
            None => {
                return None;
            },
        },
        None => {
            return None;
        },
    };
    if !holds(told, uid) && uid != sender {
        return None;
    }
    let mut names: Vec<String> = Vec::new();
    assert(views(names@) =~= Seq::empty());
    match update.get_str("new_name") {
        Some(n) => {
            if !n.is_empty() {
                names.push(own(n));
                assert(views(names@) =~= seq![n@]);
            }
        },
        None => {},
    }
    let ghost given = views(names@);
    match find_nickname(msgs, uid) {
        Some(n) => {
            names.push(own(n));
            assert(views(names@) =~= given.push(n@));
        },
        None => {},
    }
    Some(
        (
            uid,
            UserUpdate {
                new_names: names,
                wrong_names: update.strings("wrong_names"),
                profile: own_text(update.get_str("profile")),
                event: own_text(update.get_str("new_event")),
            },
        ),
    )
}

/// What the answer of the language model says is to be changed in what is known of people.
pub fn user_updates(
    response: &Json,
    msgs: &Vec<Message>,
    told: &Vec<i64>,
    sender: i64,
) -> (res: Vec<(i64, UserUpdate)>)
    ensures
        update_views(res@) == (match response@.get("user_updates"@) {
            Some(JsonView::Array(items)) => updates_of(items, message_views(msgs@), told@, sender),
            _ => Seq::empty(),
        }),
{
    let mut out: Vec<(i64, UserUpdate)> = Vec::new();
    assert(update_views(out@) =~= Seq::empty());
    match response.get("user_updates") {
        Some(v) => match v.as_array() {
            Some(items) => {
                let ghost all = json_views(items@);
                let mut i: usize = 0;
                while i < items.len()
                    invariant
                        all == json_views(items@),
                        i <= items@.len(),
                        update_views(out@) == updates_of(
                            all.take(i as int),
                            message_views(msgs@),
                            told@,
                            sender,
                        ),
                    decreases items@.len() - i,
                {
                    assert(all.take(i + 1).drop_last() == all.take(i as int));
                    match read_update(&items[i], msgs, told, sender) {
                        Some(u) => {
                            let ghost before = out@;
                            let ghost v = (u.0, u.1@);
                            out.push(u);
                            assert(update_views(out@) =~= update_views(before).push(v));
                        },
                        None => {},
                    }
                    i += 1;
                }
                assert(all.take(i as int) == all);
            },
            None => {},
        },
        None => {},
    }
    out
}

/// Nobody's memory is changed but that of people of whom the model was told, or who is answered.
pub proof fn law_updates_are_confined(
    items: Seq<JsonView>,
    msgs: Seq<MessageView>,
    told: Seq<i64>,
    sender: i64,
)
    ensures
        forall|i: int|
            0 <= i < updates_of(items, msgs, told, sender).len() ==> told.contains(
                (#[trigger] updates_of(items, msgs, told, sender)[i]).0,
            ) || updates_of(items, msgs, told, sender)[i].0 == sender,
    decreases items.len(),
{
    if items.len() > 0 {
        law_updates_are_confined(items.drop_last(), msgs, told, sender);
        let front = updates_of(items.drop_last(), msgs, told, sender);
        let res = updates_of(items, msgs, told, sender);
        assert forall|i: int| 0 <= i < res.len() implies told.contains((#[trigger] res[i]).0)
            || res[i].0 == sender by {
            if i < front.len() {
                assert(res[i] == front[i]);
            }
        }
    }
}

/// The messages that came in.
pub open spec fn incoming(items: Seq<JsonView>) -> Seq<MessageView>
    decreases items.len(),
{
    if items.len() == 0 {
        Seq::empty()
    } else {
        match MessageView::of_json(items.last(), None) {
            Some(m) => incoming(items.drop_last()).push(m),
            None => incoming(items.drop_last()),
        }
    }
}

/// The messages that came in, where the reply is a list of them.
pub fn new_messages(reply: &Json) -> (res: Vec<Message>)
    ensures
        message_views(res@) == (match reply@ {
            JsonView::Array(items) => incoming(items),
            _ => Seq::empty(),
        }),
{
    let mut out: Vec<Message> = Vec::new();
    assert(message_views(out@) =~= Seq::empty());
    match reply.as_array() {
        Some(items) => {
            let ghost all = json_views(items@);
            let mut i: usize = 0;
            while i < items.len()
                invariant
                    all == json_views(items@),
                    i <= items@.len(),
                    message_views(out@) == incoming(all.take(i as int)),
                decreases items@.len() - i,
            {
                assert(all.take(i + 1).drop_last() == all.take(i as int));
                match Message::from_json(&items[i], None) {
                    Some(m) => {
                        let ghost before = out@;
                        let ghost v = m@;
                        out.push(m);
                        assert(message_views(out@) =~= message_views(before).push(v));
                    },
                    None => {},
                }
                i += 1;
            }
            assert(all.take(i as int) == all);
        },
        None => {},
    }
    out
}

/// The history holds the messages that can be read, in their order, but for the commands.
pub proof fn law_history_keeps_all_but_commands(items: Seq<JsonView>, group_id: i64)
    ensures
        selected(
            items.len() as int,
            |i: int|
                if MessageView::of_json(items[i], Some(group_id)) is Some && !(MessageView::of_json(
                    items[i],
                    Some(group_id),
                )->0.plain_text().len() > 0 && MessageView::of_json(
                    items[i],
                    Some(group_id),
                )->0.plain_text()[0] == '/') {
                    MessageView::of_json(items[i], Some(group_id))
                } else {
                    None
                },
            history(items, group_id),
        ),
{
    let f = |i: int|
        if MessageView::of_json(items[i], Some(group_id)) is Some && !(MessageView::of_json(
            items[i],
            Some(group_id),
        )->0.plain_text().len() > 0 && MessageView::of_json(
            items[i],
            Some(group_id),
        )->0.plain_text()[0] == '/') {
            MessageView::of_json(items[i], Some(group_id))
        } else {
            None
        };
    lemma_history_keeps_all_but_commands(items, group_id, f, items.len() as int);
    assert(items.take(items.len() as int) =~= items);
}

proof fn lemma_history_keeps_all_but_commands(
    items: Seq<JsonView>,
    group_id: i64,
    f: spec_fn(int) -> Option<MessageView>,
    n: int,
)
    requires
        0 <= n <= items.len(),
        forall|i: int|
            0 <= i < items.len() ==> (#[trigger] f(i)) == (
                if MessageView::of_json(items[i], Some(group_id)) is Some && !(MessageView::of_json(
                    items[i],
                    Some(group_id),
                )->0.plain_text().len() > 0 && MessageView::of_json(
                    items[i],
                    Some(group_id),
                )->0.plain_text()[0] == '/') {
                    MessageView::of_json(items[i], Some(group_id))
                } else {
                    None
                }
            ),
    ensures
        selected(n, f, history(items.take(n), group_id)),
    decreases n,
{
    if n == 0 {
        lemma_selected_none(f);
    } else {
        lemma_history_keeps_all_but_commands(items, group_id, f, n - 1);
        assert(items.take(n).drop_last() =~= items.take(n - 1));
        lemma_selected_next(n - 1, f, history(items.take(n - 1), group_id));
    }
}

/// What arrives is read message by message, in its order, without what is no message.
pub proof fn law_arrivals_are_all_read(items: Seq<JsonView>)
    ensures
        selected(
            items.len() as int,
            |i: int|
                MessageView::of_json(items[i], None),
            incoming(items),
        ),
{
    let f = |i: int|
        MessageView::of_json(items[i], None);
    lemma_arrivals_are_all_read(items, f, items.len() as int);
    assert(items.take(items.len() as int) =~= items);
}

proof fn lemma_arrivals_are_all_read(
    items: Seq<JsonView>,
    f: spec_fn(int) -> Option<MessageView>,
    n: int,
)
    requires
        0 <= n <= items.len(),
        forall|i: int|
            0 <= i < items.len() ==> (#[trigger] f(i)) == (
                MessageView::of_json(items[i], None)
            ),
    ensures
        selected(n, f, incoming(items.take(n))),
    decreases n,
{
    if n == 0 {
        lemma_selected_none(f);
    } else {
        lemma_arrivals_are_all_read(items, f, n - 1);
        assert(items.take(n).drop_last() =~= items.take(n - 1));
        lemma_selected_next(n - 1, f, incoming(items.take(n - 1)));
    }
}

/// Of the vectors that come back all that can be read are kept, in their order.
pub proof fn law_vectors_are_all_read(items: Seq<JsonView>)
    ensures
        selected(
            items.len() as int,
            |i: int|
                vector_of(items[i]),
            vectors_among(items),
        ),
{
    let f = |i: int|
        vector_of(items[i]);
    lemma_vectors_are_all_read(items, f, items.len() as int);
    assert(items.take(items.len() as int) =~= items);
}

proof fn lemma_vectors_are_all_read(
    items: Seq<JsonView>,
    f: spec_fn(int) -> Option<Seq<Real>>,
    n: int,
)
    requires
        0 <= n <= items.len(),
        forall|i: int|
            0 <= i < items.len() ==> (#[trigger] f(i)) == (
                vector_of(items[i])
            ),
    ensures
        selected(n, f, vectors_among(items.take(n))),
    decreases n,
{
    if n == 0 {
        lemma_selected_none(f);
    } else {
        lemma_vectors_are_all_read(items, f, n - 1);
        assert(items.take(n).drop_last() =~= items.take(n - 1));
        lemma_selected_next(n - 1, f, vectors_among(items.take(n - 1)));
    }
}

/// Every poke among the messages has its key, in their order.
pub proof fn law_pokes_have_their_keys(msgs: Seq<MessageView>)
    ensures
        selected(
            msgs.len() as int,
            |i: int|
                if msgs[i].is_poke() {
                    Some(msgs[i].poke_key())
                } else {
                    None
                },
            poke_keys(msgs),
        ),
{
    let f = |i: int|
        if msgs[i].is_poke() {
            Some(msgs[i].poke_key())
        } else {
            None
        };
    lemma_pokes_have_their_keys(msgs, f, msgs.len() as int);
    assert(msgs.take(msgs.len() as int) =~= msgs);
}

proof fn lemma_pokes_have_their_keys(
    msgs: Seq<MessageView>,
    f: spec_fn(int) -> Option<(i64, i64, i64)>,
    n: int,
)
    requires
        0 <= n <= msgs.len(),
        forall|i: int|
            0 <= i < msgs.len() ==> (#[trigger] f(i)) == (
                if msgs[i].is_poke() {
                    Some(msgs[i].poke_key())
                } else {
                    None
                }
            ),
    ensures
        selected(n, f, poke_keys(msgs.take(n))),
    decreases n,
{
    if n == 0 {
        lemma_selected_none(f);
    } else {
        lemma_pokes_have_their_keys(msgs, f, n - 1);
        assert(msgs.take(n).drop_last() =~= msgs.take(n - 1));
        lemma_selected_next(n - 1, f, poke_keys(msgs.take(n - 1)));
    }
}

/// Of the pokes those are added, in their order, that are not known yet, each once.
pub proof fn law_known_pokes_are_left_out(pokes: Seq<MessageView>, keys: Seq<(i64, i64, i64)>)
    ensures
        selected(
            pokes.len() as int,
            |i: int|
                if !keys.contains(pokes[i].poke_key()) && (forall|j: int|
                    0 <= j < i ==> (#[trigger] pokes[j]).poke_key() != pokes[i].poke_key()) {
                    Some(pokes[i])
                } else {
                    None
                },
            unseen(pokes, keys),
        ),
{
    let f = |i: int|
        if !keys.contains(pokes[i].poke_key()) && (forall|j: int|
            0 <= j < i ==> (#[trigger] pokes[j]).poke_key() != pokes[i].poke_key()) {
            Some(pokes[i])
        } else {
            None
        };
    lemma_known_pokes_are_left_out(pokes, keys, f, pokes.len() as int);
    assert(pokes.take(pokes.len() as int) =~= pokes);
}

proof fn lemma_known_pokes_are_left_out(
    pokes: Seq<MessageView>,
    keys: Seq<(i64, i64, i64)>,
    f: spec_fn(int) -> Option<MessageView>,
    n: int,
)
    requires
        0 <= n <= pokes.len(),
        forall|i: int|
            0 <= i < pokes.len() ==> (#[trigger] f(i)) == (
                if !keys.contains(pokes[i].poke_key()) && (forall|j: int|
                    0 <= j < i ==> (#[trigger] pokes[j]).poke_key() != pokes[i].poke_key()) {
                    Some(pokes[i])
                } else {
                    None
                }
            ),
    ensures
        selected(n, f, unseen(pokes.take(n), keys)),
    decreases n,
{
    if n == 0 {
        lemma_selected_none(f);
    } else {
        lemma_known_pokes_are_left_out(pokes, keys, f, n - 1);
        assert(pokes.take(n).drop_last() =~= pokes.take(n - 1));
        let front = pokes.take(n - 1);
        let key = pokes[n - 1].poke_key();
        if exists|i: int| 0 <= i < front.len() && (#[trigger] front[i]).poke_key() == key {
            let i = choose|i: int| 0 <= i < front.len() && (#[trigger] front[i]).poke_key() == key;
            assert(pokes[i].poke_key() == key);
        } else {
            assert forall|j: int| 0 <= j < n - 1 implies (#[trigger] pokes[j]).poke_key() != key by {
                assert(front[j] == pokes[j]);
            }
        }
        lemma_selected_next(n - 1, f, unseen(pokes.take(n - 1), keys));
    }
}

/// Of the updates all that are meant for somebody whom the bot was told of are kept, in their order.
pub proof fn law_updates_are_all_read(
    items: Seq<JsonView>,
    msgs: Seq<MessageView>,
    told: Seq<i64>,
    sender: i64,
)
    ensures
        selected(
            items.len() as int,
            |i: int|
                update_of(items[i], msgs, told, sender),
            updates_of(items, msgs, told, sender),
        ),
{
    let f = |i: int|
        update_of(items[i], msgs, told, sender);
    lemma_updates_are_all_read(items, msgs, told, sender, f, items.len() as int);
    assert(items.take(items.len() as int) =~= items);
}

proof fn lemma_updates_are_all_read(
    items: Seq<JsonView>,
    msgs: Seq<MessageView>,
    told: Seq<i64>,
    sender: i64,
    f: spec_fn(int) -> Option<(i64, UserUpdateView)>,
    n: int,
)
    requires
        0 <= n <= items.len(),
        forall|i: int|
            0 <= i < items.len() ==> (#[trigger] f(i)) == (
                update_of(items[i], msgs, told, sender)
            ),
    ensures
        selected(n, f, updates_of(items.take(n), msgs, told, sender)),
    decreases n,
{
    if n == 0 {
        lemma_selected_none(f);
    } else {
        lemma_updates_are_all_read(items, msgs, told, sender, f, n - 1);
        assert(items.take(n).drop_last() =~= items.take(n - 1));
        lemma_selected_next(n - 1, f, updates_of(items.take(n - 1), msgs, told, sender));
    }
}

/// The text that is looked up besides the summary is that of the last message of four characters or more;
/// where there is none, only the summary is looked up.
pub proof fn law_last_long_message_is_embedded(msgs: Seq<MessageView>, i: int)
    ensures
        0 <= i < msgs.len() && msgs[i].plain_text().len() >= 4 && (forall|j: int|
            i < j < msgs.len() ==> (#[trigger] msgs[j]).plain_text().len() < 4) ==> last_long_text(
            msgs,
        ) == Some(msgs[i].plain_text()),
        (forall|j: int| 0 <= j < msgs.len() ==> (#[trigger] msgs[j]).plain_text().len() < 4)
            ==> last_long_text(msgs) is None,
        last_long_text(msgs) is Some ==> exists|k: int|
            0 <= k < msgs.len() && last_long_text(msgs) == Some((#[trigger] msgs[k]).plain_text())
                && msgs[k].plain_text().len() >= 4 && forall|j: int|
                k < j < msgs.len() ==> (#[trigger] msgs[j]).plain_text().len() < 4,
    decreases msgs.len(),
{
    if msgs.len() > 0 {
        let front = msgs.drop_last();
        let last = msgs.len() - 1;
        law_last_long_message_is_embedded(front, i);
        assert(forall|j: int| 0 <= j < last ==> #[trigger] front[j] == msgs[j]);
        if msgs[last].plain_text().len() >= 4 {
            assert(last_long_text(msgs) == Some(msgs[last].plain_text()));
        } else if last_long_text(msgs) is Some {
            let k = choose|k: int|
                0 <= k < front.len() && last_long_text(front) == Some(
                    (#[trigger] front[k]).plain_text(),
                ) && front[k].plain_text().len() >= 4 && forall|j: int|
                    k < j < front.len() ==> (#[trigger] front[j]).plain_text().len() < 4;
            assert(last_long_text(msgs) == Some(msgs[k].plain_text()));
            assert forall|j: int| k < j < msgs.len() implies (#[trigger] msgs[j]).plain_text().len()
                < 4 by {
                if j < last {
                    assert(front[j].plain_text().len() < 4);
                }
            }
        }
        if 0 <= i < last && (forall|j: int|
            i < j < msgs.len() ==> (#[trigger] msgs[j]).plain_text().len() < 4) {
            assert(msgs[last].plain_text().len() < 4);
            assert forall|j: int| i < j < front.len() implies (#[trigger] front[j]).plain_text().len()
                < 4 by {
                assert(msgs[j].plain_text().len() < 4);
            }
        }
        if forall|j: int| 0 <= j < msgs.len() ==> (#[trigger] msgs[j]).plain_text().len() < 4 {
            assert(msgs[last].plain_text().len() < 4);
            assert forall|j: int| 0 <= j < front.len() implies (#[trigger] front[j]).plain_text().len()
                < 4 by {
                assert(msgs[j].plain_text().len() < 4);
            }
        }
    }
}

/// The message at hand joins the history where it has a number of its own that no message there has; a
/// poke never does.
pub proof fn law_message_at_hand_joins(msgs: Seq<MessageView>, msg: MessageView)
    ensures
        msg.is_poke() || msg.msg_id == 0 ==> with_current(msgs, msg) == msgs,
        (exists|i: int| 0 <= i < msgs.len() && (#[trigger] msgs[i]).msg_id == msg.msg_id)
            ==> with_current(msgs, msg) == msgs,
        !msg.is_poke() && msg.msg_id != 0 && (forall|i: int|
            0 <= i < msgs.len() ==> (#[trigger] msgs[i]).msg_id != msg.msg_id) ==> with_current(
            msgs,
            msg,
        ) == msgs + seq![msg],
{
    assert(msgs.push(msg) =~= msgs + seq![msg]);
}

/// The earliest time is that of one of the messages, and no message's is less.
pub proof fn law_earliest_is_least(msgs: Seq<MessageView>)
    requires
        forall|i: int| 0 <= i < msgs.len() ==> !(#[trigger] msgs[i]).time.nan(),
    ensures
        msgs.len() == 0 ==> earliest(msgs) is None,
        msgs.len() > 0 ==> earliest(msgs) is Some && !earliest(msgs)->0.nan() && (exists|i: int|
            0 <= i < msgs.len() && earliest(msgs) == Some((#[trigger] msgs[i]).time)),
        forall|i: int|
            0 <= i < msgs.len() ==> earliest(msgs)->0.at_most((#[trigger] msgs[i]).time),
    decreases msgs.len(),
{
    if msgs.len() > 0 {
        let front = msgs.drop_last();
        let last = msgs.len() - 1;
        assert forall|i: int| 0 <= i < front.len() implies !(#[trigger] front[i]).time.nan() by {
            assert(!msgs[i].time.nan());
        }
        assert(!msgs[last].time.nan());
        law_earliest_is_least(front);
        if front.len() > 0 {
            let i = choose|i: int|
                0 <= i < front.len() && earliest(front) == Some((#[trigger] front[i]).time);
            assert(earliest(msgs) == Some(msgs[i].time) || earliest(msgs) == Some(msgs[last].time));
            assert forall|i: int| 0 <= i < msgs.len() implies earliest(msgs)->0.at_most(
                (#[trigger] msgs[i]).time,
            ) by {
                if i < last {
                    assert(earliest(front)->0.at_most(front[i].time));
                }
            }
        } else {
            assert(earliest(msgs) == Some(msgs[last].time));
        }
    }
}

/// The messages that are looked at: first the history with the message at hand, as it stands, and behind
/// it the group's pokes since the earliest of these that are not among them.
pub proof fn law_recent_messages(
    items: Seq<JsonView>,
    msg: MessageView,
    board: PokeBoard,
    base: Seq<MessageView>,
)
    requires
        base == with_current(history(items, msg.group_id), msg),
    ensures
        recent(JsonView::Array(items), msg, board).take(base.len() as int) == base,
        base.len() > 0 ==> recent(JsonView::Array(items), msg, board).skip(base.len() as int)
            == unseen(
            pokes_since(board.pokes_of(msg.group_id), earliest(base)->0),
            poke_keys(base),
        ),
        base.len() == 0 ==> recent(JsonView::Array(items), msg, board) == unseen(
            pokes_since(board.pokes_of(msg.group_id), msg.time),
            Seq::empty(),
        ),
        forall|raw: JsonView|
            !(raw is Array) ==> #[trigger] recent(raw, msg, board) == recent(
                JsonView::Array(Seq::empty()),
                msg,
                board,
            ),
{
    let res = recent(JsonView::Array(items), msg, board);
    assert(res.take(base.len() as int) =~= base);
    if base.len() > 0 {
        assert(earliest(base) is Some);
        assert(res.skip(base.len() as int) =~= unseen(
            pokes_since(board.pokes_of(msg.group_id), earliest(base)->0),
            poke_keys(base),
        ));
    } else {
        let tail = unseen(pokes_since(board.pokes_of(msg.group_id), msg.time), Seq::empty());
        assert(base + tail =~= tail);
    }
}

/// Everybody who wrote is counted, once, in the order of the first message; the count is that of the
/// messages.
pub proof fn law_everybody_who_wrote_is_counted(msgs: Seq<MessageView>, uid: i64)
    ensures
        speakers(msgs).no_duplicates(),
        speakers(msgs).contains(uid) == (exists|i: int|
            0 <= i < msgs.len() && (#[trigger] msgs[i]).user_id == uid),
        written_by(msgs, uid) == msgs.filter(|m: MessageView| m.user_id == uid).len(),
    decreases msgs.len(),
{
    let f = |m: MessageView| m.user_id == uid;
    lemma_written_by(msgs, uid);
    if msgs.len() > 0 {
        let before = msgs.drop_last();
        let last = msgs.len() - 1;
        law_everybody_who_wrote_is_counted(before, uid);
        let front = speakers(before);
        if front.contains(uid) {
            let i = choose|i: int| 0 <= i < before.len() && (#[trigger] before[i]).user_id == uid;
            assert(msgs[i].user_id == uid);
            let k = choose|k: int| 0 <= k < front.len() && front[k] == uid;
            assert(front.push(msgs[last].user_id)[k] == uid);
        } else if msgs[last].user_id == uid {
            assert(front.push(uid)[front.len() as int] == uid);
        } else {
            assert forall|i: int| 0 <= i < msgs.len() implies (#[trigger] msgs[i]).user_id != uid by {
                if i < last {
                    assert(before[i] == msgs[i]);
                }
            }
        }
    }
}

proof fn lemma_written_by(msgs: Seq<MessageView>, uid: i64)
    ensures
        written_by(msgs, uid) == msgs.filter(|m: MessageView| m.user_id == uid).len(),
    decreases msgs.len(),
{
    let f = |m: MessageView| m.user_id == uid;
    if msgs.len() == 0 {
        msgs.lemma_filter_len(f);
    } else {
        lemma_written_by(msgs.drop_last(), uid);
        lemma_filter_last(msgs, f);
    }
}

proof fn lemma_filter_last(msgs: Seq<MessageView>, f: spec_fn(MessageView) -> bool)
    requires
        msgs.len() > 0,
    ensures
        msgs.filter(f).len() == msgs.drop_last().filter(f).len() + (if f(msgs.last()) {
            1nat
        } else {
            0
        }),
{
    reveal(Seq::filter);
}

/// Those who are mentioned come before the others, the one mentioned last first; nobody comes twice on
/// that account, and nobody gets lost.
pub proof fn law_mentioned_come_first(people: Seq<i64>, mentioned: Seq<i64>, uid: i64)
    ensures
        with_mentioned(people, Seq::empty()) == people,
        with_mentioned(people, mentioned.push(uid)) == (if people.contains(uid)
            || mentioned.contains(uid) {
            with_mentioned(people, mentioned)
        } else {
            seq![uid] + with_mentioned(people, mentioned)
        }),
{
    assert(mentioned.push(uid).drop_last() =~= mentioned);
    lemma_with_mentioned(people, mentioned, uid);
}

proof fn lemma_with_mentioned(people: Seq<i64>, mentioned: Seq<i64>, uid: i64)
    ensures
        with_mentioned(people, mentioned).contains(uid) == (people.contains(uid)
            || mentioned.contains(uid)),
    decreases mentioned.len(),
{
    if mentioned.len() > 0 {
        let front = mentioned.drop_last();
        let last = mentioned.last();
        lemma_with_mentioned(people, front, uid);
        lemma_with_mentioned(people, front, last);
        let before = with_mentioned(people, front);
        let res = with_mentioned(people, mentioned);
        if mentioned.contains(uid) {
            let k = choose|k: int| 0 <= k < mentioned.len() && mentioned[k] == uid;
            if k < front.len() {
                assert(front[k] == uid);
            }
        }
        if front.contains(uid) {
            let k = choose|k: int| 0 <= k < front.len() && front[k] == uid;
            assert(mentioned[k] == uid);
        }
        assert(mentioned[mentioned.len() - 1] == last);
        if !before.contains(last) {
            assert(res =~= seq![last] + before);
            if before.contains(uid) {
                let k = choose|k: int| 0 <= k < before.len() && before[k] == uid;
                assert(res[k + 1] == uid);
            }
            assert(res[0] == last);
            if res.contains(uid) {
                let k = choose|k: int| 0 <= k < res.len() && res[k] == uid;
                if k > 0 {
                    assert(before[k - 1] == uid);
                }
            }
        }
    }
}

/// The name under which somebody wrote last is the one of the last message of that person.
pub proof fn law_last_name_counts(msgs: Seq<MessageView>, uid: i64, i: int)
    ensures
        0 <= i < msgs.len() && msgs[i].user_id == uid && (forall|j: int|
            i < j < msgs.len() ==> (#[trigger] msgs[j]).user_id != uid) ==> last_nickname(msgs, uid)
            == Some(msgs[i].nickname),
        (forall|j: int| 0 <= j < msgs.len() ==> (#[trigger] msgs[j]).user_id != uid)
            ==> last_nickname(msgs, uid) is None,
    decreases msgs.len(),
{
    if msgs.len() > 0 {
        let front = msgs.drop_last();
        let last = msgs.len() - 1;
        law_last_name_counts(front, uid, i);
        assert(forall|j: int| 0 <= j < last ==> #[trigger] front[j] == msgs[j]);
        if 0 <= i < last && (forall|j: int|
            i < j < msgs.len() ==> (#[trigger] msgs[j]).user_id != uid) {
            assert(msgs[last].user_id != uid);
            assert forall|j: int| i < j < front.len() implies (#[trigger] front[j]).user_id != uid by {
                assert(msgs[j].user_id != uid);
            }
        }
        if forall|j: int| 0 <= j < msgs.len() ==> (#[trigger] msgs[j]).user_id != uid {
            assert(msgs[last].user_id != uid);
            assert forall|j: int| 0 <= j < front.len() implies (#[trigger] front[j]).user_id != uid by {
                assert(msgs[j].user_id != uid);
            }
        }
    }
}

/// An update is read where it names, by number, the one who wrote or somebody whom the bot was told of. It
/// gives the new name, unless that is empty, and the name the person wrote under last; the names to
/// forget, the profile and the event are those that it holds.
pub proof fn law_update_is_read(
    update: JsonView,
    msgs: Seq<MessageView>,
    told: Seq<i64>,
    sender: i64,
    uid: i64,
)
    ensures
        update.get("user_id"@) is None || update.get("user_id"@)->0.to_int() is None ==> update_of(
            update,
            msgs,
            told,
            sender,
        ) is None,
        update.get("user_id"@) is Some && update.get("user_id"@)->0.to_int() == Some(uid) ==> (
        update_of(update, msgs, told, sender) is Some) == (told.contains(uid) || uid == sender),
        update_of(update, msgs, told, sender) is Some && update.get("user_id"@)->0.to_int() == Some(
            uid,
        ) ==> {
            let res = update_of(update, msgs, told, sender)->0;
            &&& res.0 == uid
            &&& res.1.profile == update.get_str("profile"@)
            &&& res.1.event == update.get_str("new_event"@)
            &&& res.1.wrong_names == update.strings("wrong_names"@)
            &&& update.get_str("new_name"@) is Some && update.get_str("new_name"@)->0.len() > 0
                ==> res.1.new_names.len() > 0 && res.1.new_names[0] == update.get_str("new_name"@)->0
            &&& last_nickname(msgs, uid) is Some ==> res.1.new_names.len() > 0
                && res.1.new_names.last() == last_nickname(msgs, uid)->0
            &&& res.1.new_names.len() == (if update.get_str("new_name"@) is Some && update.get_str(
                "new_name"@,
            )->0.len() > 0 {
                1int
            } else {
                0
            }) + (if last_nickname(msgs, uid) is Some {
                1int
            } else {
                0
            })
        },
{
}

/// The line for each event holds its time and its text, and the lines stand in the events' order; the same
/// goes for what the bot said itself, where a sticker is named by its words.
pub proof fn law_lines_of_memory(
    ems: Seq<EventMemoryView>,
    sms: Seq<SelfMemoryView>,
    stamps: Seq<Seq<char>>,
    i: int,
)
    ensures
        ems.len() == 0 ==> events_text(ems, stamps).len() == 0,
        sms.len() == 0 ==> said_block(sms, stamps).len() == 0,
        event_lines(ems, stamps).len() == ems.len(),
        said_lines(sms, stamps).len() == sms.len(),
        0 <= i < ems.len() ==> event_lines(ems, stamps)[i] == stamps[i] + ": "@ + ems[i].text
            + "\n"@,
        0 <= i < sms.len() && sms[i].sticker.len() == 0 ==> said_lines(sms, stamps)[i] == stamps[i]
            + " ["@ + sms[i].id + "]: "@ + sms[i].text + "\n"@,
        0 <= i < sms.len() && sms[i].sticker.len() > 0 ==> said_lines(sms, stamps)[i] == stamps[i]
            + " ["@ + sms[i].id + "]: "@ + ("[表情包: "@ + sms[i].sticker + "]"@) + "\n"@,
        ems.len() > 0 ==> events_text(ems, stamps) == "可能与你当前聊天内容相关的记忆事件:\n```\n"@
            + concatenated(event_lines(ems, stamps)) + "```\n"@,
        sms.len() > 0 ==> said_block(sms, stamps) == "你自己过去的回复记录供参考:\n```\n"@
            + concatenated(said_lines(sms, stamps)) + "```\n"@,
{
}

/// What the bot knows of somebody: the number always; the names, the profile and the events each where
/// there are any.
pub proof fn law_block_of_a_user(user_id: i64, um: UserMemoryView, stamps: Seq<Seq<char>>)
    ensures
        ({
            let names = if um.names.len() > 0 {
                "  - 曾用名: "@ + joined(um.names, ", "@) + "\n"@
            } else {
                Seq::empty()
            };
            let profile = if um.profile.len() > 0 {
                "  - 简介: "@ + um.profile + "\n"@
            } else {
                Seq::empty()
            };
            let events = if um.recent_events.len() > 0 {
                "  - 最近事件:\n"@ + concatenated(
                    Seq::new(
                        um.recent_events.len(),
                        |i: int| "    ["@ + stamps[i] + "]: "@ + um.recent_events[i].1 + "\n"@,
                    ),
                )
            } else {
                Seq::empty()
            };
            user_block(user_id, um, stamps) == "用户ID: "@ + int_text(user_id as int) + "\n"@ + names
                + profile + events
        }),
{
}

/// Those who wrote come in the order of how much they wrote, most first.
pub proof fn law_most_active_come_first(msgs: Seq<MessageView>, i: int, j: int)
    requires
        0 <= i < j < top_speakers(msgs).len(),
        msgs.len() <= usize::MAX,
    ensures
        written_by(msgs, top_speakers(msgs)[i]) >= written_by(msgs, top_speakers(msgs)[j]),
        top_speakers(msgs).len() == speakers(msgs).len(),
        speakers(msgs).contains(top_speakers(msgs)[i]),
{
    let list = tally(msgs);
    let done = arranged(list);
    law_arranged_is_permutation(list);
    law_numbers_rank(Seq::empty(), Seq::empty(), list);
    law_arranged_is_in_order(list);
    broadcast use vstd::seq_lib::group_to_multiset_ensures;

    assert(done.contains(done[i]) && done.contains(done[j]));
    assert(list.contains(done[i])) by {
        assert(done.to_multiset().count(done[i]) > 0);
    }
    assert(list.contains(done[j])) by {
        assert(done.to_multiset().count(done[j]) > 0);
    }
    let a = choose|a: int| 0 <= a < list.len() && list[a] == done[i];
    let b = choose|b: int| 0 <= b < list.len() && list[b] == done[j];
    lemma_written_is_bounded(msgs, speakers(msgs)[a]);
    lemma_written_is_bounded(msgs, speakers(msgs)[b]);
    assert(speakers(msgs)[a] == top_speakers(msgs)[i]);
}

proof fn lemma_written_is_bounded(msgs: Seq<MessageView>, uid: i64)
    ensures
        written_by(msgs, uid) <= msgs.len(),
    decreases msgs.len(),
{
    if msgs.len() > 0 {
        lemma_written_is_bounded(msgs.drop_last(), uid);
    }
}

/// What the template of the prompt can name, each by its name: the bot's number and name, the persona, the
/// recent talk, and what is remembered of events, of the bot's own replies and of people.
pub proof fn law_briefing_names(b: Briefing, persona: Seq<char>)
    ensures
        ({
            let vars = briefing_vars(b, persona);
            &&& var(vars, "self_id"@) == Some(int_text(b.self_id as int))
            &&& var(vars, "self_name"@) == Some(b.self_name@)
            &&& var(vars, "persona"@) == Some(persona)
            &&& var(vars, "recent_text"@) == Some(
                "以下是最近的聊天记录:\n```\n"@ + b.recent_text@ + "\n```"@,
            )
            &&& var(vars, "em_text"@) == Some(b.em_text@)
            &&& var(vars, "sm_text"@) == Some(b.sm_text@)
            &&& var(vars, "um_text"@) == Some(b.um_text@)
        }),
{
    reveal_strlit("self_id");
    reveal_strlit("self_name");
    reveal_strlit("persona");
    reveal_strlit("recent_text");
    reveal_strlit("em_text");
    reveal_strlit("sm_text");
    reveal_strlit("um_text");
    assert("self_id"@.len() == 7 && "self_name"@.len() == 9 && "recent_text"@.len() == 11);
    assert("self_id"@[1] == 'e' && "persona"@[0] == 'p' && "em_text"@[0] == 'e');
    assert("sm_text"@[0] == 's' && "sm_text"@[1] == 'm' && "um_text"@[0] == 'u');
    let vars = briefing_vars(b, persona);
    law_first_variable_counts(vars, "self_id"@, 0);
    law_first_variable_counts(vars, "self_name"@, 1);
    law_first_variable_counts(vars, "persona"@, 2);
    law_first_variable_counts(vars, "recent_text"@, 3);
    law_first_variable_counts(vars, "em_text"@, 4);
    law_first_variable_counts(vars, "sm_text"@, 5);
    law_first_variable_counts(vars, "um_text"@, 6);
}

/// The prompt is the template of the settings with the briefing filled in, with the group's persona, or
/// none where the settings have none.
pub proof fn law_prompt_is_the_filled_template(cfg: Config, group_id: i64, b: Briefing, p: YamlView)
    ensures
        cfg.lookup("chat.prompt.persona"@) == Some(p) && persona_value(p, group_id) is Some
            ==> reply_prompt(cfg, group_id, b) == filled(
            cfg.text_at("chat.prompt.framework"@),
            briefing_vars(b, persona_value(p, group_id)->0.plain()),
        ),
        cfg.lookup("chat.prompt.persona"@) is None || (cfg.lookup("chat.prompt.persona"@) == Some(p)
            && persona_value(p, group_id) is None) ==> reply_prompt(cfg, group_id, b) == filled(
            cfg.text_at("chat.prompt.framework"@),
            briefing_vars(b, Seq::empty()),
        ),
{
}

/// What is asked of the model: an object whose entries "actions" and "user_updates" are lists, within the
/// tokens and the time that are given.
pub proof fn law_reply_is_asked_as_an_object(timeout: JsonView, max_tokens: i64)
    ensures
        ({
            let o = reply_options(timeout, max_tokens);
            &&& o.get("json_reply"@) == Some(JsonView::Bool(true))
            &&& o.get("max_tokens"@) == Some(int_value(max_tokens))
            &&& o.get("timeout"@) == Some(timeout)
            &&& o.get("json_key_restraints"@) matches Some(JsonView::Array(keys)) && {
                &&& keys.len() == 2
                &&& keys[0].get_str("key"@) == Some("actions"@)
                &&& keys[0].get_str("type"@) == Some("list"@)
                &&& keys[1].get_str("key"@) == Some("user_updates"@)
                &&& keys[1].get_str("type"@) == Some("list"@)
            }
        }),
{
    reveal_strlit("json_key_restraints");
    reveal_strlit("json_reply");
    reveal_strlit("max_tokens");
    reveal_strlit("timeout");
    reveal_strlit("key");
    reveal_strlit("type");
    assert("json_key_restraints"@.len() == 19 && "json_reply"@.len() == 10);
    assert("json_reply"@[0] == 'j' && "max_tokens"@[0] == 'm' && "timeout"@.len() == 7);
    assert("key"@.len() == 3 && "type"@.len() == 4);
    let o = reply_options(timeout, max_tokens);
    let entries = o->Object_0;
    law_lookup_finds_the_first(o, entries, "json_key_restraints"@, 0);
    law_lookup_finds_the_first(o, entries, "json_reply"@, 1);
    law_lookup_finds_the_first(o, entries, "max_tokens"@, 2);
    law_lookup_finds_the_first(o, entries, "timeout"@, 3);
    let a = list_key("actions"@);
    let u = list_key("user_updates"@);
    law_lookup_finds_the_first(a, a->Object_0, "key"@, 0);
    law_lookup_finds_the_first(a, a->Object_0, "type"@, 1);
    law_lookup_finds_the_first(u, u->Object_0, "key"@, 0);
    law_lookup_finds_the_first(u, u->Object_0, "type"@, 1);
}

/// Those who wrote are found in the order in which they wrote first.
pub proof fn law_speakers_in_order_of_first_words(msgs: Seq<MessageView>)
    ensures
        selected(
            msgs.len() as int,
            |i: int|
                if forall|j: int| 0 <= j < i ==> (#[trigger] msgs[j]).user_id != msgs[i].user_id {
                    Some(msgs[i].user_id)
                } else {
                    None
                },
            speakers(msgs),
        ),
{
    let f = |i: int|
        if forall|j: int| 0 <= j < i ==> (#[trigger] msgs[j]).user_id != msgs[i].user_id {
            Some(msgs[i].user_id)
        } else {
            None
        };
    lemma_speakers_in_order_of_first_words(msgs, f, msgs.len() as int);
    assert(msgs.take(msgs.len() as int) =~= msgs);
}

proof fn lemma_speakers_in_order_of_first_words(msgs: Seq<MessageView>, f: spec_fn(int) -> Option<i64>, n: int)
    requires
        0 <= n <= msgs.len(),
        forall|i: int|
            0 <= i < msgs.len() ==> (#[trigger] f(i)) == (
                if forall|j: int| 0 <= j < i ==> (#[trigger] msgs[j]).user_id != msgs[i].user_id {
                    Some(msgs[i].user_id)
                } else {
                    None
                }
            ),
    ensures
        selected(n, f, speakers(msgs.take(n))),
    decreases n,
{
    if n == 0 {
        lemma_selected_none(f);
    } else {
        lemma_speakers_in_order_of_first_words(msgs, f, n - 1);
        assert(msgs.take(n).drop_last() =~= msgs.take(n - 1));
        let front = msgs.take(n - 1);
        let uid = msgs[n - 1].user_id;
        law_everybody_who_wrote_is_counted(front, uid);
        if speakers(front).contains(uid) {
            let j = choose|j: int| 0 <= j < front.len() && (#[trigger] front[j]).user_id == uid;
            assert(msgs[j].user_id == uid);
        } else {
            assert forall|j: int| 0 <= j < n - 1 implies (#[trigger] msgs[j]).user_id != uid by {
                assert(front[j] == msgs[j]);
            }
        }
        lemma_selected_next(n - 1, f, speakers(msgs.take(n - 1)));
    }
}

/// Everybody who wrote stands in the tally, in the order of the first words and with the number of
/// messages, and is then arranged by that number.
pub proof fn law_tally_counts_everybody(msgs: Seq<MessageView>, k: int)
    requires
        msgs.len() <= usize::MAX,
        0 <= k < speakers(msgs).len(),
    ensures
        tally(msgs).len() == speakers(msgs).len(),
        tally(msgs)[k].item == speakers(msgs)[k],
        tally(msgs)[k].count == written_by(msgs, speakers(msgs)[k]),
        top_speakers(msgs).len() == tally(msgs).len(),
        top_speakers(msgs)[k] == arranged(tally(msgs))[k].item,
{
    lemma_written_is_bounded(msgs, speakers(msgs)[k]);
    law_arranged_is_permutation(tally(msgs));
}

} // verus!
