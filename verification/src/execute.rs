//! What becomes of the actions that the language model asks for.

use crate::actions::{Action, ActionView, action_views};
use crate::chat::{law_last_sent_are_known, noted, SELF_MSG_KEEP};
use crate::context::{has_message, knows_message};
use crate::json::{Json, JsonView};
use crate::patterns::{find_at, find_reply, first_mark, law_mark_is_not_empty, AT_MARK, REPLY_MARK};
use crate::rpc::{int_value, Call, CallView, RpcSession, Wait};
use crate::sticker::StickerHit;
use crate::text::{
    int_of_text, int_text, own, parse_int, replace, replaced, signed_text, trim, trimmed,
};
use crate::types::{member_int, message_views, Message, MessageView};
use crate::util::{last_of, truncate, truncated};
use crate::select::{lemma_selected_next, lemma_selected_none, selected};
use vstd::prelude::*;
use vstd::string::*;

verus! {

/// Whether somebody wrote one of the messages.
pub open spec fn has_speaker(msgs: Seq<MessageView>, uid: i64) -> bool {
    exists|i: int| 0 <= i < msgs.len() && (#[trigger] msgs[i]).user_id == uid
}

fn knows_speaker(msgs: &Vec<Message>, uid: i64) -> (res: bool)
    ensures
        res == has_speaker(message_views(msgs@), uid),
{
    let ghost all = message_views(msgs@);
    let mut i: usize = 0;
    while i < msgs.len()
        invariant
            all == message_views(msgs@),
            i <= msgs@.len(),
            forall|j: int| 0 <= j < i ==> (#[trigger] all[j]).user_id != uid,
        decreases msgs@.len() - i,
    {
        if msgs[i].user_id == uid {
            assert(all[i as int].user_id == uid);
            return true;
        }
        i += 1;
    }
    false
}

/// The text with its first mark of a person carried out: all marks like it go, and where that person
/// wrote one of the messages, the text begins with a code that names them. A number that does not fit
/// leaves the text as it is.
pub open spec fn at_applied(text: Seq<char>, msgs: Seq<MessageView>) -> Seq<char> {
    match first_mark(text, AT_MARK@) {
        Some((whole, inner)) => match int_of_text(inner) {
            Some(id) => {
                let rest = replaced(text, whole, ""@);
                if has_speaker(msgs, id) {
                    "[CQ:at,qq="@ + int_text(id as int) + "]"@ + rest
                } else {
                    rest
                }
            },
            None => text,
        },
        None => text,
    }
}

/// The text with its first mark of a message carried out, in the same way.
pub open spec fn reply_applied(text: Seq<char>, msgs: Seq<MessageView>) -> Seq<char> {
    match first_mark(text, REPLY_MARK@) {
        Some((whole, inner)) => match int_of_text(inner) {
            Some(id) => {
                let rest = replaced(text, whole, ""@);
                if has_message(msgs, id) {
                    "[CQ:reply,id="@ + int_text(id as int) + "]"@ + rest
                } else {
                    rest
                }
            },
            None => text,
        },
        None => text,
    }
}

/// A text as it is sent: with its marks carried out, and cut where it is too long.
pub open spec fn outgoing(text: Seq<char>, msgs: Seq<MessageView>, limit: int) -> Seq<char> {
    truncated(reply_applied(at_applied(text, msgs), msgs), limit)
}

fn apply_at(text: &str, msgs: &Vec<Message>) -> (res: String)
    ensures
        res@ == at_applied(text@, message_views(msgs@)),
{
    match find_at(text) {
        Some((whole, inner)) => match parse_int(inner.as_str()) {
            Some(id) => {
                proof {
                    law_mark_is_not_empty(text@, AT_MARK@);
                }
                let rest = replace(text, whole.as_str(), "");
                if knows_speaker(msgs, id) {
                    let mut out = own("[CQ:at,qq=");
                    let n = signed_text(id);
                    out.append(n.as_str());
                    out.append("]");
                    out.append(rest.as_str());
                    out
                } else {
                    rest
                }
            },
            None => own(text),
        },
        None => own(text),
    }
}

fn apply_reply(text: &str, msgs: &Vec<Message>) -> (res: String)
    ensures
        res@ == reply_applied(text@, message_views(msgs@)),
{
    match find_reply(text) {
        Some((whole, inner)) => match parse_int(inner.as_str()) {
            Some(id) => {
                proof {
                    law_mark_is_not_empty(text@, REPLY_MARK@);
                }
                let rest = replace(text, whole.as_str(), "");
                if knows_message(msgs, id) {
                    let mut out = own("[CQ:reply,id=");
                    let n = signed_text(id);
                    out.append(n.as_str());
                    out.append("]");
                    out.append(rest.as_str());
                    out
                } else {
                    rest
                }
            },
            None => own(text),
        },
        None => own(text),
    }
}

/// A text as it is sent.
pub fn render_text(text: &str, msgs: &Vec<Message>, limit: i64) -> (res: String)
    ensures
        res@ == outgoing(text@, message_views(msgs@), limit as int),
{
    let at = apply_at(text, msgs);
    let reply = apply_reply(at.as_str(), msgs);
    truncate(reply.as_str(), limit)
}

/// A text without marks is sent as it is, cut where it is too long.
pub proof fn law_plain_text_is_sent(text: Seq<char>, msgs: Seq<MessageView>, limit: int)
    requires
        !text.contains('['),
    ensures
        outgoing(text, msgs, limit) == truncated(text, limit),
{
    crate::patterns::law_unmarked_text_is_kept(text, AT_MARK@);
    crate::patterns::law_unmarked_text_is_kept(text, REPLY_MARK@);
}

/// The code that shows a picture.
pub open spec fn picture_code(path: Seq<char>) -> Seq<char> {
    "[CQ:image,file=file://"@ + path + "]"@
}

/// A sticker in words: the emotion and the scene for which it was searched, or its number.
pub open spec fn sticker_words(query: JsonView, sid: i64) -> Seq<char> {
    let emotion = trimmed(query.str_or_empty("emotion"@));
    let scene = trimmed(query.str_or_empty("scene"@));
    if emotion.len() > 0 && scene.len() > 0 {
        emotion + "/"@ + scene
    } else if emotion.len() > 0 {
        emotion
    } else if scene.len() > 0 {
        scene
    } else {
        "sid="@ + int_text(sid as int)
    }
}

fn write_picture(path: &str) -> (res: String)
    ensures
        res@ == picture_code(path@),
{
    let mut out = own("[CQ:image,file=file://");
    out.append(path);
    out.append("]");
    out
}

fn describe_sticker(query: &Json, sid: i64) -> (res: String)
    ensures
        res@ == sticker_words(query@, sid),
{
    let e = query.str_or_empty("emotion");
    let s = query.str_or_empty("scene");
    let emotion = trim(e.as_str());
    let scene = trim(s.as_str());
    if !emotion.as_str().is_empty() && !scene.as_str().is_empty() {
        let mut out = emotion;
        out.append("/");
        out.append(scene.as_str());
        out
    } else if !emotion.as_str().is_empty() {
        emotion
    } else if !scene.as_str().is_empty() {
        scene
    } else {
        let mut out = own("sid=");
        let n = signed_text(sid);
        out.append(n.as_str());
        out
    }
}

/// What is to be done, one step after the other, with a pause before each but the first.
pub enum StepView {
    /// The turn passes: there is nothing to do.
    Pass,
    /// A text is sent.
    Say { text: Seq<char> },
    /// A sticker is sent: the message, the sticker's place among the actions, and what to call it.
    Show { message: Seq<char>, action: int, words: Seq<char> },
    /// People are poked.
    Poke { ids: Seq<i64> },
    /// A message gets a reaction.
    React { msg_id: i64, emoji_id: Seq<char> },
}

/// What is to be done, one step after the other, with a pause before each but the first.
#[derive(Debug)]
pub enum Step {
    /// The turn passes: there is nothing to do.
    Pass,
    /// A text is sent.
    Say { text: String },
    /// A sticker is sent: the message, the sticker's place among the actions, and what to call it.
    Show { message: String, action: usize, words: String },
    /// People are poked.
    Poke { ids: Vec<i64> },
    /// A message gets a reaction.
    React { msg_id: i64, emoji_id: String },
}

impl View for Step {
    type V = StepView;

    open spec fn view(&self) -> StepView {
        match self {
            Step::Pass => StepView::Pass,
            Step::Say { text } => StepView::Say { text: text@ },
            Step::Show { message, action, words } => StepView::Show {
                message: message@,
                action: *action as int,
                words: words@,
            },
            Step::Poke { ids } => StepView::Poke { ids: ids@ },
            Step::React { msg_id, emoji_id } => StepView::React {
                msg_id: *msg_id,
                emoji_id: emoji_id@,
            },
        }
    }
}

/// The views of a list of steps.
pub open spec fn step_views(steps: Seq<Step>) -> Seq<StepView> {
    steps.map_values(|s: Step| s@)
}

/// Where a sticker that was found is, and its number.
pub struct Found {
    pub path: Seq<char>,
    pub sid: i64,
}

/// Where the sticker for an action is, where one was found in time.
pub open spec fn found(hit: Option<StickerHit>) -> Option<Found> {
    match hit {
        Some(h) => match h.path {
            Some(p) => Some(
                Found {
                    path: p@,
                    sid: match h.sid {
                        Some(s) => s,
                        None => 0,
                    },
                },
            ),
            None => None,
        },
        None => None,
    }
}

/// What has been found for the actions.
pub open spec fn all_found(hits: Seq<Option<StickerHit>>) -> Seq<Option<Found>> {
    hits.map_values(|h: Option<StickerHit>| found(h))
}

/// The step for one action, where it has one: a sticker that was not found has none, an empty text and
/// a reaction to a message that is not among the considered ones let their turn pass.
pub open spec fn step_of(
    action: ActionView,
    at: int,
    hit: Option<Found>,
    msgs: Seq<MessageView>,
    limit: int,
) -> Option<StepView> {
    match action {
        ActionView::Text { text } => Some(
            if text.len() == 0 {
                StepView::Pass
            } else {
                StepView::Say { text: outgoing(text, msgs, limit) }
            },
        ),
        ActionView::Sticker { query } => match hit {
            Some(f) => Some(
                StepView::Show {
                    message: picture_code(f.path),
                    action: at,
                    words: sticker_words(query, f.sid),
                },
            ),
            None => None,
        },
        ActionView::Poke { ids } => Some(StepView::Poke { ids }),
        ActionView::React { msg_id, emoji_id } => Some(
            if has_message(msgs, msg_id) {
                StepView::React { msg_id, emoji_id }
            } else {
                StepView::Pass
            },
        ),
    }
}

/// The steps for the actions, in their order.
pub open spec fn steps_of(
    actions: Seq<ActionView>,
    hits: Seq<Option<Found>>,
    msgs: Seq<MessageView>,
    limit: int,
) -> Seq<StepView>
    decreases actions.len(),
{
    if actions.len() == 0 {
        Seq::empty()
    } else {
        let k = actions.len() - 1;
        let front = steps_of(actions.drop_last(), hits, msgs, limit);
        match step_of(actions[k], k, hits[k], msgs, limit) {
            Some(s) => front.push(s),
            None => front,
        }
    }
}

fn copy_ids(ids: &Vec<i64>) -> (res: Vec<i64>)
    ensures
        res@ == ids@,
{
    let mut out: Vec<i64> = Vec::new();
    let mut i: usize = 0;
    while i < ids.len()
        invariant
            i <= ids@.len(),
            out@ == ids@.take(i as int),
        decreases ids@.len() - i,
    {
        out.push(ids[i]);
        assert(ids@.take(i + 1) =~= ids@.take(i as int).push(ids@[i as int]));
        i += 1;
    }
    assert(ids@.take(i as int) =~= ids@);
    out
}

fn make_step(
    action: &Action,
    at: usize,
    hit: &Option<StickerHit>,
    msgs: &Vec<Message>,
    limit: i64,
) -> (res: Option<Step>)
    ensures
        match res {
            Some(s) => step_of(action@, at as int, found(*hit), message_views(msgs@), limit as int)
                == Some(s@),
            None => step_of(action@, at as int, found(*hit), message_views(msgs@), limit as int)
                is None,
        },
{
    match action {
        Action::Text { text } => {
            if text.as_str().is_empty() {
                Some(Step::Pass)
            } else {
                Some(Step::Say { text: render_text(text.as_str(), msgs, limit) })
            }
        },
        Action::Sticker { query } => match hit {
            Some(h) => match &h.path {
                Some(p) => {
                    let sid = match h.sid {
                        Some(s) => s,
                        None => 0,
                    };
                    Some(
                        Step::Show {
                            message: write_picture(p.as_str()),
                            action: at,
                            words: describe_sticker(query, sid),
                        },
                    )
                },
                None => None,
            },
            None => None,
        },
        Action::Poke { ids } => Some(Step::Poke { ids: copy_ids(ids) }),
        Action::React { msg_id, emoji_id } => {
            if knows_message(msgs, *msg_id) {
                Some(Step::React { msg_id: *msg_id, emoji_id: own(emoji_id.as_str()) })
            } else {
                Some(Step::Pass)
            }
        },
    }
}

/// The steps for the actions, in their order. `hits` holds for each action the sticker that was found
/// for it in time, where it asks for one.
pub fn execute_actions(
    actions: &Vec<Action>,
    hits: &Vec<Option<StickerHit>>,
    msgs: &Vec<Message>,
    limit: i64,
) -> (res: Vec<Step>)
    requires
        hits@.len() == actions@.len(),
    ensures
        step_views(res@) == steps_of(
            action_views(actions@),
            all_found(hits@),
            message_views(msgs@),
            limit as int,
        ),
{
    let ghost all = action_views(actions@);
    let ghost finds = all_found(hits@);
    let mut out: Vec<Step> = Vec::new();
    let mut i: usize = 0;
    assert(step_views(out@) =~= Seq::empty());
    while i < actions.len()
        invariant
            all == action_views(actions@),
            finds == all_found(hits@),
            hits@.len() == actions@.len(),
            i <= actions@.len(),
            step_views(out@) == steps_of(
                all.take(i as int),
                finds,
                message_views(msgs@),
                limit as int,
            ),
        decreases actions@.len() - i,
    {
        assert(all.take(i + 1).drop_last() == all.take(i as int));
        assert(all.take(i + 1)[i as int] == actions@[i as int]@);
        assert(finds[i as int] == found(hits@[i as int]));
        match make_step(&actions[i], i, &hits[i], msgs, limit) {
            Some(s) => {
                let ghost before = out@;
                let ghost v = s@;
                out.push(s);
                assert(step_views(out@) =~= step_views(before).push(v));
            },
            None => {},
        }
        i += 1;
    }
    assert(all.take(i as int) == all);
    out
}

/// The places of the actions that ask for a sticker.
pub open spec fn sticker_places(actions: Seq<ActionView>) -> Seq<usize>
    decreases actions.len(),
{
    if actions.len() == 0 {
        Seq::empty()
    } else if actions.last() is Sticker {
        sticker_places(actions.drop_last()).push((actions.len() - 1) as usize)
    } else {
        sticker_places(actions.drop_last())
    }
}

/// The places of the actions that ask for a sticker.
pub fn sticker_indexes(actions: &Vec<Action>) -> (res: Vec<usize>)
    ensures
        res@ == sticker_places(action_views(actions@)),
{
    let ghost all = action_views(actions@);
    let mut out: Vec<usize> = Vec::new();
    let mut i: usize = 0;
    while i < actions.len()
        invariant
            all == action_views(actions@),
            i <= actions@.len(),
            out@ == sticker_places(all.take(i as int)),
        decreases actions@.len() - i,
    {
        assert(all.take(i + 1).drop_last() == all.take(i as int));
        match &actions[i] {
            Action::Sticker { .. } => {
                out.push(i);
            },
            _ => {},
        }
        i += 1;
    }
    assert(all.take(i as int) == all);
    out
}

/// The number of the message that was sent, as the reply says, or zero.
pub fn sent_message_id(ret: &Json) -> (res: i64)
    ensures
        res == member_int(ret@, "message_id"@),
{
    match ret.get("message_id") {
        Some(v) => match v.to_int() {
            Some(i) => i,
            None => 0,
        },
        None => 0,
    }
}

/// The calls that carry out a step, in their order.
pub open spec fn calls_of(step: StepView, group_id: i64) -> Seq<CallView> {
    match step {
        StepView::Pass => Seq::empty(),
        StepView::Say { text } => seq![send_call(group_id, text)],
        StepView::Show { message, .. } => seq![send_call(group_id, message)],
        StepView::Poke { ids } => ids.map_values(|uid: i64| poke_call(group_id, uid)),
        StepView::React { msg_id, emoji_id } => seq![
            CallView {
                method: "set_msg_emoji_like"@,
                args: seq![int_value(group_id), int_value(msg_id), JsonView::Str(emoji_id)],
                wait: Wait::Usual,
            },
        ],
    }
}

/// The call that sends a message.
pub open spec fn send_call(group_id: i64, message: Seq<char>) -> CallView {
    CallView {
        method: "send_group_msg"@,
        args: seq![int_value(group_id), JsonView::Str(message)],
        wait: Wait::Usual,
    }
}

/// The call that pokes a person.
pub open spec fn poke_call(group_id: i64, uid: i64) -> CallView {
    CallView {
        method: "poke_group_member"@,
        args: seq![int_value(group_id), int_value(uid)],
        wait: Wait::Usual,
    }
}

/// The views of a list of calls.
pub open spec fn call_views(calls: Seq<Call>) -> Seq<CallView> {
    calls.map_values(|c: Call| c@)
}

/// The calls that carry out a step, in their order.
pub fn step_calls(step: &Step, group_id: i64) -> (res: Vec<Call>)
    ensures
        call_views(res@) == calls_of(step@, group_id),
{
    let mut out: Vec<Call> = Vec::new();
    match step {
        Step::Pass => {},
        Step::Say { text } => {
            out.push(RpcSession::send_group_msg(group_id, text.as_str()));
        },
        Step::Show { message, .. } => {
            out.push(RpcSession::send_group_msg(group_id, message.as_str()));
        },
        Step::Poke { ids } => {
            let mut i: usize = 0;
            while i < ids.len()
                invariant
                    i <= ids@.len(),
                    out@.len() == i,
                    forall|j: int|
                        0 <= j < i ==> (#[trigger] out@[j])@ == poke_call(group_id, ids@[j]),
                decreases ids@.len() - i,
            {
                out.push(RpcSession::poke_group_member(group_id, ids[i]));
                i += 1;
            }
        },
        Step::React { msg_id, emoji_id } => {
            out.push(RpcSession::set_msg_emoji_like(group_id, *msg_id, emoji_id.as_str()));
        },
    }
    assert(call_views(out@) =~= calls_of(step@, group_id));
    out
}

/// Something that was sent: its number, and the text or what to call the sticker.
pub struct SentView {
    pub msg_id: i64,
    pub text: Seq<char>,
    pub sticker: Seq<char>,
}

/// Something that was sent: its number, and the text or what to call the sticker.
#[derive(Debug)]
pub struct Sent {
    pub msg_id: i64,
    pub text: String,
    pub sticker: String,
}

impl View for Sent {
    type V = SentView;

    open spec fn view(&self) -> SentView {
        SentView { msg_id: self.msg_id, text: self.text@, sticker: self.sticker@ }
    }
}

/// The views of what was sent.
pub open spec fn sent_views(sent: Seq<Sent>) -> Seq<SentView> {
    sent.map_values(|s: Sent| s@)
}

/// What a step has sent, where this came back of its call; nothing where the call failed, or where the
/// step sends nothing.
pub open spec fn sent_by(step: StepView, reply: Option<JsonView>) -> Seq<SentView> {
    match (step, reply) {
        (StepView::Say { text }, Some(r)) => seq![
            SentView {
                msg_id: member_int(r, "message_id"@),
                text,
                sticker: Seq::empty(),
            },
        ],
        (StepView::Show { words, .. }, Some(r)) => seq![
            SentView {
                msg_id: member_int(r, "message_id"@),
                text: Seq::empty(),
                sticker: words,
            },
        ],
        _ => Seq::empty(),
    }
}

/// What all the steps have sent, where these came back of their calls.
pub open spec fn sent_by_all(steps: Seq<StepView>, replies: Seq<Option<JsonView>>) -> Seq<SentView>
    decreases steps.len(),
{
    if steps.len() == 0 {
        Seq::empty()
    } else {
        sent_by_all(steps.drop_last(), replies) + sent_by(
            steps.last(),
            replies[steps.len() - 1],
        )
    }
}

/// A step was carried out; `reply` is what came back where it sent something and that went well. Gives
/// what has been sent so far.
pub fn on_step(sent: Vec<Sent>, step: &Step, reply: Option<&Json>) -> (res: Vec<Sent>)
    ensures
        sent_views(res@) == sent_views(sent@) + sent_by(
            step@,
            match reply {
                Some(r) => Some(r@),
                None => None,
            },
        ),
{
    let mut out = sent;
    let ghost before = out@;
    match reply {
        Some(r) => match step {
            Step::Say { text } => {
                let none = String::new();
                assert(none@ =~= Seq::empty());
                out.push(
                    Sent { msg_id: sent_message_id(r), text: own(text.as_str()), sticker: none },
                );
            },
            Step::Show { words, .. } => {
                let none = String::new();
                assert(none@ =~= Seq::empty());
                out.push(
                    Sent { msg_id: sent_message_id(r), text: none, sticker: own(words.as_str()) },
                );
            },
            _ => {},
        },
        None => {},
    }
    assert(sent_views(out@) =~= sent_views(before) + sent_by(
        step@,
        match reply {
            Some(r) => Some(r@),
            None => None,
        },
    ));
    out
}

/// The numbers of what was sent, in its order.
pub open spec fn sent_ids(sent: Seq<SentView>) -> Seq<i64> {
    sent.map_values(|s: SentView| s.msg_id)
}

/// A step that fails stops none of the others: what is sent is what the steps before it and those
/// after it send, in the order of the steps.
pub proof fn law_failure_stops_nothing(
    steps: Seq<StepView>,
    replies: Seq<Option<JsonView>>,
    failed: int,
)
    requires
        0 <= failed < steps.len() == replies.len(),
        replies[failed] is None,
    ensures
        sent_by_all(steps, replies) == sent_by_all(steps.take(failed), replies.take(failed))
            + sent_by_all(steps.skip(failed + 1), replies.skip(failed + 1)),
{
    lemma_sent_in_parts(steps, replies, failed);
    let rest = steps.skip(failed);
    let rest_replies = replies.skip(failed);
    lemma_sent_in_parts(rest, rest_replies, 1);
    let one = rest.take(1);
    reveal_with_fuel(sent_by_all, 2);
    assert(one.drop_last() =~= Seq::empty());
    assert(rest_replies.take(1)[0] == replies[failed]);
    assert(sent_by_all(one, rest_replies.take(1)) =~= Seq::empty());
    assert(rest.skip(1) =~= steps.skip(failed + 1));
    assert(rest_replies.skip(1) =~= replies.skip(failed + 1));
    assert(Seq::<SentView>::empty() + sent_by_all(rest.skip(1), rest_replies.skip(1))
        =~= sent_by_all(rest.skip(1), rest_replies.skip(1)));
}

/// Whether a step has sent something, where this came back of its call.
pub open spec fn went_out(step: StepView, reply: Option<JsonView>) -> bool {
    (step is Say || step is Show) && reply is Some
}

/// Each step that sends something and does not fail gives one entry, and nothing else gives any.
pub proof fn law_one_entry_for_each_sent(
    steps: Seq<StepView>,
    replies: Seq<Option<JsonView>>,
    last: StepView,
    reply: Option<JsonView>,
)
    requires
        replies.len() == steps.len(),
    ensures
        sent_by_all(steps.push(last), replies.push(reply)) == sent_by_all(steps, replies) + sent_by(
            last,
            reply,
        ),
        sent_by(last, reply).len() == if went_out(last, reply) {
            1int
        } else {
            0
        },
{
    assert(steps.push(last).drop_last() =~= steps);
    lemma_sent_reads_prefix(steps, replies.push(reply), replies);
}

/// The numbers of all that the steps sent are appended to those of the bot's own messages, in the
/// order of the steps, and the last ones are kept.
pub proof fn law_sent_messages_are_known(
    ids: Seq<i64>,
    steps: Seq<StepView>,
    replies: Seq<Option<JsonView>>,
)
    requires
        ids.len() <= SELF_MSG_KEEP,
    ensures
        noted(ids, sent_ids(sent_by_all(steps, replies))) == last_of(
            ids + sent_ids(sent_by_all(steps, replies)),
            SELF_MSG_KEEP as int,
        ),
{
    law_last_sent_are_known(ids, sent_ids(sent_by_all(steps, replies)));
}

proof fn lemma_sent_reads_prefix(
    steps: Seq<StepView>,
    a: Seq<Option<JsonView>>,
    b: Seq<Option<JsonView>>,
)
    requires
        a.len() >= steps.len(),
        b.len() >= steps.len(),
        forall|i: int| 0 <= i < steps.len() ==> #[trigger] a[i] == b[i],
    ensures
        sent_by_all(steps, a) == sent_by_all(steps, b),
    decreases steps.len(),
{
    if steps.len() > 0 {
        lemma_sent_reads_prefix(steps.drop_last(), a, b);
        assert(a[steps.len() - 1] == b[steps.len() - 1]);
    }
}

proof fn lemma_sent_in_parts(steps: Seq<StepView>, replies: Seq<Option<JsonView>>, k: int)
    requires
        0 <= k <= steps.len() == replies.len(),
    ensures
        sent_by_all(steps, replies) == sent_by_all(steps.take(k), replies.take(k)) + sent_by_all(
            steps.skip(k),
            replies.skip(k),
        ),
    decreases steps.len() - k,
{
    let n = steps.len() as int;
    if k == n {
        assert(steps.take(k) =~= steps);
        assert(replies.take(k) =~= replies);
        assert(sent_by_all(steps.skip(k), replies.skip(k)) =~= Seq::empty());
        assert(sent_by_all(steps, replies) + Seq::<SentView>::empty() =~= sent_by_all(
            steps,
            replies,
        ));
    } else {
        let front = steps.drop_last();
        let front_replies = replies.drop_last();
        lemma_sent_in_parts(front, front_replies, k);
        lemma_sent_reads_prefix(front, replies, front_replies);
        assert(front.take(k) =~= steps.take(k));
        assert(front_replies.take(k) =~= replies.take(k));
        let tail = steps.skip(k);
        assert(tail.drop_last() =~= front.skip(k));
        assert(tail.last() == steps.last());
        assert(replies.skip(k)[tail.len() - 1] == replies[n - 1]);
        lemma_sent_reads_prefix(front.skip(k), replies.skip(k), front_replies.skip(k));
        assert((sent_by_all(steps.take(k), replies.take(k)) + sent_by_all(
            front.skip(k),
            front_replies.skip(k),
        )) + sent_by(steps.last(), replies[n - 1]) =~= sent_by_all(steps.take(k), replies.take(k))
            + (sent_by_all(front.skip(k), front_replies.skip(k)) + sent_by(
            steps.last(),
            replies[n - 1],
        )));
    }
}

/// There are no more steps than actions; and no sticker is shown that was not found, and no message
/// gets a reaction that is not among the considered ones.
pub proof fn law_steps_are_sound(
    actions: Seq<ActionView>,
    hits: Seq<Option<Found>>,
    msgs: Seq<MessageView>,
    limit: int,
)
    ensures
        steps_of(actions, hits, msgs, limit).len() <= actions.len(),
        forall|i: int|
            #![trigger steps_of(actions, hits, msgs, limit)[i]]
            0 <= i < steps_of(actions, hits, msgs, limit).len() ==> match steps_of(
                actions,
                hits,
                msgs,
                limit,
            )[i] {
                StepView::Show { action, .. } => 0 <= action < actions.len() && hits[action]
                    is Some && actions[action] is Sticker,
                StepView::React { msg_id, .. } => has_message(msgs, msg_id),
                _ => true,
            },
    decreases actions.len(),
{
    if actions.len() > 0 {
        let shorter = actions.drop_last();
        law_steps_are_sound(shorter, hits, msgs, limit);
        let front = steps_of(shorter, hits, msgs, limit);
        let res = steps_of(actions, hits, msgs, limit);
        assert forall|i: int| #![trigger res[i]] 0 <= i < res.len() implies match res[i] {
            StepView::Show { action, .. } => 0 <= action < actions.len() && hits[action] is Some
                && actions[action] is Sticker,
            StepView::React { msg_id, .. } => has_message(msgs, msg_id),
            _ => true,
        } by {
            if i < front.len() {
                assert(res[i] == front[i]);
                if let StepView::Show { action, .. } = front[i] {
                    assert(shorter[action] == actions[action]);
                }
            }
        }
    }
}

/// The steps answer to the actions one to one, in their order: people are poked, all that are named and
/// in their order; a text is said; a message that is known gets its reaction; a sticker is shown where
/// one was found. Where a text is empty or a message is not known the turn passes; where no sticker was
/// found there is no step.
pub proof fn law_steps_answer_to_the_actions(
    actions: Seq<ActionView>,
    hits: Seq<Option<Found>>,
    msgs: Seq<MessageView>,
    limit: int,
)
    ensures
        selected(
            actions.len() as int,
            |i: int|
                match actions[i] {
                    ActionView::Poke { ids } => Some(StepView::Poke { ids }),
                    ActionView::Text { text } => if text.len() > 0 {
                        Some(StepView::Say { text: outgoing(text, msgs, limit) })
                    } else {
                        Some(StepView::Pass)
                    },
                    ActionView::React { msg_id, emoji_id } => if exists|k: int|
                        0 <= k < msgs.len() && (#[trigger] msgs[k]).msg_id == msg_id {
                        Some(StepView::React { msg_id, emoji_id })
                    } else {
                        Some(StepView::Pass)
                    },
                    ActionView::Sticker { query } => if hits[i] is Some {
                        Some(
                            StepView::Show {
                                message: "[CQ:image,file=file://"@ + hits[i]->0.path + "]"@,
                                action: i,
                                words: sticker_words(query, hits[i]->0.sid),
                            },
                        )
                    } else {
                        None
                    },
                },
            steps_of(actions, hits, msgs, limit),
        ),
{
    let f = |i: int|
        match actions[i] {
            ActionView::Poke { ids } => Some(StepView::Poke { ids }),
            ActionView::Text { text } => if text.len() > 0 {
                Some(StepView::Say { text: outgoing(text, msgs, limit) })
            } else {
                Some(StepView::Pass)
            },
            ActionView::React { msg_id, emoji_id } => if exists|k: int|
                0 <= k < msgs.len() && (#[trigger] msgs[k]).msg_id == msg_id {
                Some(StepView::React { msg_id, emoji_id })
            } else {
                Some(StepView::Pass)
            },
            ActionView::Sticker { query } => if hits[i] is Some {
                Some(
                    StepView::Show {
                        message: "[CQ:image,file=file://"@ + hits[i]->0.path + "]"@,
                        action: i,
                        words: sticker_words(query, hits[i]->0.sid),
                    },
                )
            } else {
                None
            },
        };
    lemma_steps_answer_to_the_actions(actions, hits, msgs, limit, f, actions.len() as int);
    assert(actions.take(actions.len() as int) =~= actions);
}

proof fn lemma_steps_answer_to_the_actions(
    actions: Seq<ActionView>,
    hits: Seq<Option<Found>>,
    msgs: Seq<MessageView>,
    limit: int,
    f: spec_fn(int) -> Option<StepView>,
    n: int,
)
    requires
        0 <= n <= actions.len(),
        forall|i: int|
            0 <= i < actions.len() ==> (#[trigger] f(i)) == (
                match actions[i] {
                    ActionView::Poke { ids } => Some(StepView::Poke { ids }),
                    ActionView::Text { text } => if text.len() > 0 {
                        Some(StepView::Say { text: outgoing(text, msgs, limit) })
                    } else {
                        Some(StepView::Pass)
                    },
                    ActionView::React { msg_id, emoji_id } => if exists|k: int|
                        0 <= k < msgs.len() && (#[trigger] msgs[k]).msg_id == msg_id {
                        Some(StepView::React { msg_id, emoji_id })
                    } else {
                        Some(StepView::Pass)
                    },
                    ActionView::Sticker { query } => if hits[i] is Some {
                        Some(
                            StepView::Show {
                                message: "[CQ:image,file=file://"@ + hits[i]->0.path + "]"@,
                                action: i,
                                words: sticker_words(query, hits[i]->0.sid),
                            },
                        )
                    } else {
                        None
                    },
                }
            ),
    ensures
        selected(n, f, steps_of(actions.take(n), hits, msgs, limit)),
    decreases n,
{
    if n == 0 {
        lemma_selected_none(f);
    } else {
        lemma_steps_answer_to_the_actions(actions, hits, msgs, limit, f, n - 1);
        assert(actions.take(n).drop_last() =~= actions.take(n - 1));
        lemma_selected_next(n - 1, f, steps_of(actions.take(n - 1), hits, msgs, limit));
    }
}

/// Every action to poke people has a step that pokes just these, in their order.
pub proof fn law_everybody_named_is_poked(
    actions: Seq<ActionView>,
    hits: Seq<Option<Found>>,
    msgs: Seq<MessageView>,
    limit: int,
    k: int,
    ids: Seq<i64>,
)
    requires
        0 <= k < actions.len(),
        actions[k] == (ActionView::Poke { ids }),
    ensures
        exists|j: int|
            0 <= j < steps_of(actions, hits, msgs, limit).len() && #[trigger] steps_of(
                actions,
                hits,
                msgs,
                limit,
            )[j] == (StepView::Poke { ids }),
    decreases actions.len(),
{
    let steps = steps_of(actions, hits, msgs, limit);
    let front = steps_of(actions.drop_last(), hits, msgs, limit);
    if k == actions.len() - 1 {
        assert(steps[front.len() as int] == (StepView::Poke { ids }));
    } else {
        law_everybody_named_is_poked(actions.drop_last(), hits, msgs, limit, k, ids);
        let j = choose|j: int| 0 <= j < front.len() && #[trigger] front[j] == (StepView::Poke { ids });
        assert(steps[j] == front[j]);
    }
}

/// The first mark of the form [@123] is taken out of a text, everywhere it stands, and the text begins
/// with a call of the person with this number where that one has written any of the messages; likewise a
/// mark [reply=123] for one of the messages.
pub proof fn law_marks_become_codes(
    text: Seq<char>,
    msgs: Seq<MessageView>,
    whole: Seq<char>,
    inner: Seq<char>,
    id: i64,
)
    requires
        int_of_text(inner) == Some(id),
    ensures
        first_mark(text, AT_MARK@) == Some((whole, inner)) ==> at_applied(text, msgs) == (
        if exists|i: int| 0 <= i < msgs.len() && (#[trigger] msgs[i]).user_id == id {
            "[CQ:at,qq="@ + int_text(id as int) + "]"@
        } else {
            Seq::empty()
        }) + replaced(text, whole, Seq::empty()),
        first_mark(text, REPLY_MARK@) == Some((whole, inner)) ==> reply_applied(text, msgs) == (
        if exists|i: int| 0 <= i < msgs.len() && (#[trigger] msgs[i]).msg_id == id {
            "[CQ:reply,id="@ + int_text(id as int) + "]"@
        } else {
            Seq::empty()
        }) + replaced(text, whole, Seq::empty()),
        first_mark(text, AT_MARK@) is None || int_of_text((first_mark(text, AT_MARK@)->0).1) is None
            ==> at_applied(text, msgs) == text,
        first_mark(text, REPLY_MARK@) is None || int_of_text((first_mark(text, REPLY_MARK@)->0).1)
            is None ==> reply_applied(text, msgs) == text,
{
    reveal_strlit("");
    assert(""@ =~= Seq::<char>::empty());
    let rest = replaced(text, whole, ""@);
    assert(Seq::<char>::empty() + rest =~= rest);
}

/// A sticker is called by its feeling and its scene, as far as these are given, else by its number.
pub proof fn law_sticker_is_called_by_its_words(
    query: JsonView,
    emotion: Seq<char>,
    scene: Seq<char>,
    sid: i64,
)
    requires
        query.str_or_empty("emotion"@) == emotion,
        query.str_or_empty("scene"@) == scene,
    ensures
        trimmed(emotion).len() > 0 && trimmed(scene).len() > 0 ==> sticker_words(query, sid)
            == trimmed(emotion) + "/"@ + trimmed(scene),
        trimmed(emotion).len() > 0 && trimmed(scene).len() == 0 ==> sticker_words(query, sid)
            == trimmed(emotion),
        trimmed(emotion).len() == 0 && trimmed(scene).len() > 0 ==> sticker_words(query, sid)
            == trimmed(scene),
        trimmed(emotion).len() == 0 && trimmed(scene).len() == 0 ==> sticker_words(query, sid)
            == "sid="@ + int_text(sid as int),
{
}

/// A sticker is searched for each action that asks for one, and for no other.
pub proof fn law_stickers_are_searched_in_their_places(actions: Seq<ActionView>)
    ensures
        selected(
            actions.len() as int,
            |i: int|
                if actions[i] is Sticker {
                    Some(i as usize)
                } else {
                    None
                },
            sticker_places(actions),
        ),
{
    let f = |i: int|
        if actions[i] is Sticker {
            Some(i as usize)
        } else {
            None
        };
    lemma_stickers_are_searched_in_their_places(actions, f, actions.len() as int);
    assert(actions.take(actions.len() as int) =~= actions);
}

proof fn lemma_stickers_are_searched_in_their_places(
    actions: Seq<ActionView>,
    f: spec_fn(int) -> Option<usize>,
    n: int,
)
    requires
        0 <= n <= actions.len(),
        forall|i: int|
            0 <= i < actions.len() ==> (#[trigger] f(i)) == (
                if actions[i] is Sticker {
                    Some(i as usize)
                } else {
                    None
                }
            ),
    ensures
        selected(n, f, sticker_places(actions.take(n))),
    decreases n,
{
    if n == 0 {
        lemma_selected_none(f);
    } else {
        lemma_stickers_are_searched_in_their_places(actions, f, n - 1);
        assert(actions.take(n).drop_last() =~= actions.take(n - 1));
        lemma_selected_next(n - 1, f, sticker_places(actions.take(n - 1)));
    }
}

/// What is asked of the platform for a step: a message in the group for a text or a sticker, a poke for
/// each of the people in turn, a reaction for a reaction, and nothing where the turn passes.
pub proof fn law_calls_of_a_step(group_id: i64, s: Seq<char>, ids: Seq<i64>, i: int, at: int)
    requires
        0 <= i < ids.len(),
    ensures
        calls_of(StepView::Pass, group_id).len() == 0,
        calls_of(StepView::Poke { ids }, group_id).len() == ids.len(),
        calls_of(StepView::Poke { ids }, group_id)[i].method == "poke_group_member"@,
        calls_of(StepView::Poke { ids }, group_id)[i].args == seq![
            int_value(group_id),
            int_value(ids[i]),
        ],
        calls_of(StepView::Say { text: s }, group_id).len() == 1,
        calls_of(StepView::Say { text: s }, group_id)[0].method == "send_group_msg"@,
        calls_of(StepView::Say { text: s }, group_id)[0].args == seq![
            int_value(group_id),
            JsonView::Str(s),
        ],
        forall|words: Seq<char>| #[trigger]
            calls_of(StepView::Show { message: s, action: at, words }, group_id) == calls_of(
                StepView::Say { text: s },
                group_id,
            ),
        calls_of(StepView::React { msg_id: ids[i], emoji_id: s }, group_id).len() == 1,
        calls_of(StepView::React { msg_id: ids[i], emoji_id: s }, group_id)[0].method
            == "set_msg_emoji_like"@,
        calls_of(StepView::React { msg_id: ids[i], emoji_id: s }, group_id)[0].args == seq![
            int_value(group_id),
            int_value(ids[i]),
            JsonView::Str(s),
        ],
{
}

/// What was sent is known by the number that the platform gave it, with the text that was sent, or the
/// words for the sticker that was; what got no answer, and what sends nothing, is not known at all.
pub proof fn law_sent_is_noted_as_sent(
    text: Seq<char>,
    shown: StepView,
    reply: JsonView,
    step: StepView,
)
    requires
        shown is Show,
    ensures
        sent_by(StepView::Say { text }, Some(reply)).len() == 1,
        sent_by(StepView::Say { text }, Some(reply))[0].text == text,
        sent_by(StepView::Say { text }, Some(reply))[0].sticker.len() == 0,
        sent_by(shown, Some(reply)).len() == 1,
        sent_by(shown, Some(reply))[0].text.len() == 0,
        sent_by(shown, Some(reply))[0].sticker == shown->words,
        reply.get("message_id"@) is Some && reply.get("message_id"@)->0.to_int() is Some
            ==> sent_by(StepView::Say { text }, Some(reply))[0].msg_id == reply.get(
            "message_id"@,
        )->0.to_int()->0 && sent_by(shown, Some(reply))[0].msg_id == reply.get(
            "message_id"@,
        )->0.to_int()->0,
        reply.get("message_id"@) is None || reply.get("message_id"@)->0.to_int() is None ==> sent_by(
            StepView::Say { text },
            Some(reply),
        )[0].msg_id == 0 && sent_by(shown, Some(reply))[0].msg_id == 0,
        sent_by(step, None).len() == 0,
        !(step is Say) && !(step is Show) ==> sent_by(step, Some(reply)).len() == 0,
{
}

/// A sticker was found where the search gives a path; its number is the one that the search gives.
pub proof fn law_found_where_there_is_a_path(h: StickerHit)
    ensures
        found(None) is None,
        h.path is None ==> found(Some(h)) is None,
        h.path is Some && h.sid is Some ==> found(Some(h)) == Some(
            (Found { path: h.path->0@, sid: h.sid->0 }),
        ),
        h.path is Some && h.sid is None ==> found(Some(h)) == Some(
            (Found { path: h.path->0@, sid: 0 }),
        ),
{
}

/// A text that calls somebody and answers a message is sent with the code of the answer first, then that
/// of the call, and then what is left of it, cut at the limit.
pub proof fn law_codes_stand_in_order(
    text: Seq<char>,
    msgs: Seq<MessageView>,
    limit: int,
    at: (Seq<char>, Seq<char>),
    uid: i64,
    reply: (Seq<char>, Seq<char>),
    msg_id: i64,
    i: int,
    j: int,
)
    requires
        first_mark(text, AT_MARK@) == Some(at),
        int_of_text(at.1) == Some(uid),
        0 <= i < msgs.len() && msgs[i].user_id == uid,
        first_mark(
            "[CQ:at,qq="@ + int_text(uid as int) + "]"@ + replaced(text, at.0, ""@),
            REPLY_MARK@,
        ) == Some(reply),
        int_of_text(reply.1) == Some(msg_id),
        0 <= j < msgs.len() && msgs[j].msg_id == msg_id,
    ensures
        outgoing(text, msgs, limit) == truncated(
            "[CQ:reply,id="@ + int_text(msg_id as int) + "]"@ + replaced(
                "[CQ:at,qq="@ + int_text(uid as int) + "]"@ + replaced(text, at.0, ""@),
                reply.0,
                ""@,
            ),
            limit,
        ),
{
    assert(has_speaker(msgs, uid));
    assert(has_message(msgs, msg_id));
}

} // verus!
