//! The course of one answer: each stage takes what came in from outside and gives the next, or ends it.

use crate::actions::{action_views, parse_actions, reply_actions, Action};
use crate::chat::{
    considers, group_scale, scale_of, settle, should_consider, status_key, status_of,
    willing_terms, willingness_terms, GroupStatus, GroupStatusView,
};
use crate::config::{Config, FormatError, FormatErrorView};
use crate::context::{
    em_text, events_text, last_long_text, persona_readable, query_vectors, recent, recent_msgs,
    reply_options, reply_prompt, reply_request, said_block, sm_text, texts_to_embed, update_views,
    updates_of, user_updates, vectors_among, Briefing,
};
use crate::events::{memory_views, EventMemory};
use crate::execute::{
    all_found, execute_actions, sent_views, step_views, steps_of, Sent, Step,
};
use crate::filedb::{stored, FileDb};
use crate::format::{answer_text, summary_outcome};
use crate::json::{json_views, text_values, Json, JsonView};
use crate::memory::{items_of, self_memories, self_views, MemorySystem, UserUpdate};
use crate::number::{Real, ONE_BITS};
use crate::recall::{
    count_at, keeping, kept_by, known_among, known_views, people_text, people_told, people_updated,
    recall, remember, sent_added, write_people, Recalled, Stamps,
};
use crate::rpc::{model_at, CallView, Call, LlmRequest, RpcSession};
use crate::sticker::{real_views, StickerHit};
use crate::text::{own, views};
use crate::types::{message_views, remembered, Message, PokeBoard};
use crate::util::last_of;
use vstd::prelude::*;

verus! {

/// A message came in.
#[derive(Debug)]
pub struct Started {
    pub msg: Message,
}

/// The message is one to consider: how willing the bot is has to be found out.
#[derive(Debug)]
pub struct Weighing {
    pub msg: Message,
    pub self_id: i64,
    pub self_name: String,
    pub status: GroupStatus,
}

/// The bot answers: the group's history has to be read.
#[derive(Debug)]
pub struct Reading {
    pub msg: Message,
    pub self_id: i64,
    pub self_name: String,
}

/// The messages to consider are known: they have to be put into words.
#[derive(Debug)]
pub struct Wording {
    pub msg: Message,
    pub self_id: i64,
    pub self_name: String,
    pub recent: Vec<Message>,
}

/// The messages are in words: a summary has to be made.
#[derive(Debug)]
pub struct Summing {
    pub msg: Message,
    pub self_id: i64,
    pub self_name: String,
    pub recent: Vec<Message>,
    pub recent_text: String,
}

/// There is a summary: the vectors have to be made.
#[derive(Debug)]
pub struct Embedding {
    pub msg: Message,
    pub self_id: i64,
    pub self_name: String,
    pub recent: Vec<Message>,
    pub recent_text: String,
    pub summary: String,
}

/// There are vectors: what the bot remembers has to be recalled.
#[derive(Debug)]
pub struct Recalling {
    pub msg: Message,
    pub self_id: i64,
    pub self_name: String,
    pub recent: Vec<Message>,
    pub recent_text: String,
    pub summary: String,
    pub vectors: Vec<Vec<Real>>,
}

/// Everything is there that the language model has to be told. `rewarded` are the short-term events
/// that came to mind; the summary and its vector are kept for later.
#[derive(Debug)]
pub struct Asking {
    pub msg: Message,
    pub recent: Vec<Message>,
    pub briefing: Briefing,
    pub told: Vec<i64>,
    pub summary: String,
    pub vector: Vec<Real>,
    pub rewarded: Vec<String>,
}

/// The language model has answered: its actions have to be carried out.
#[derive(Debug)]
pub struct Acting {
    pub msg: Message,
    pub recent: Vec<Message>,
    pub actions: Vec<Action>,
    pub updates: Vec<(i64, UserUpdate)>,
    pub summary: String,
    pub vector: Vec<Real>,
    pub rewarded: Vec<String>,
}

/// The numbers of events.
pub open spec fn event_ids(ems: Seq<EventMemory>) -> Seq<Seq<char>> {
    ems.map_values(|e: EventMemory| e.id@)
}

impl Started {
    /// A message came in; a poke is remembered, whatever becomes of it.
    pub fn begin(msg: Message, board: &mut PokeBoard) -> (res: Started)
        ensures
            res.msg == msg,
            old(board).wf() ==> final(board).wf(),
            msg@.is_poke() ==> final(board).pokes_of(msg.group_id) == remembered(
                old(board).pokes_of(msg.group_id),
                msg@,
            ),
            forall|g: i64|
                g != msg.group_id || !msg@.is_poke() ==> #[trigger] final(board).pokes_of(g)
                    == old(board).pokes_of(g),
    {
        if msg.is_poke() {
            board.remember_poke(&msg);
        }
        Started { msg }
    }

    /// The bot's own number and name are known: goes on where the message is one to consider.
    pub fn on_self_info(self, self_id: i64, self_name: String, db: &FileDb) -> (res: Option<Weighing>)
        ensures
            ({
                let status = status_of(stored(db.data@, status_key(self.msg.group_id)));
                match res {
                    Some(w) => {
                        &&& considers(self.msg@, self_id, status.last_reply_time)
                        &&& w.msg == self.msg
                        &&& w.self_id == self_id
                        &&& w.self_name == self_name
                        &&& w.status@ == status
                    },
                    None => !considers(self.msg@, self_id, status.last_reply_time),
                }
            }),
    {
        let status = GroupStatus::load(db, self.msg.group_id);
        if should_consider(&self.msg, self_id, status.last_reply_time) {
            Some(Weighing { msg: self.msg, self_id, self_name, status })
        } else {
            None
        }
    }
}

impl Weighing {
    /// What the message adds to the willingness, and by how much the change counts in this group.
    pub fn terms(&self, cfg: &Config) -> (res: (Vec<Real>, Real))
        ensures
            cfg.keys_readable("chat.willing.increase_keywords"@) ==> res.0@ == willing_terms(
                *cfg,
                self.msg@,
                self.self_id,
                self.status.self_msg_ids@,
            ),
            cfg.keys_readable("chat.willing.group_scale"@) ==> res.1 == scale_of(
                *cfg,
                self.msg.group_id,
            ),
    {
        (
            willingness_terms(cfg, &self.msg, self.self_id, &self.status.self_msg_ids),
            group_scale(cfg, self.msg.group_id),
        )
    }

    /// The willingness has been added up, at this moment: goes on where the lot falls on an answer.
    /// Gives how the group stands now, which is to be kept whatever the lot says.
    pub fn on_willingness(self, willingness: Real, now: Real, cfg: &Config, lot: Real) -> (res: (
        GroupStatus,
        Option<Reading>,
    ))
        ensures
            ({
                let limit = cfg.real_at("chat.willing.limit"@, Real { bits: ONE_BITS });
                let kept = willingness.lesser(limit);
                let rate = kept.within(Real { bits: 0 }, Real { bits: ONE_BITS });
                &&& res.0@ == (GroupStatusView {
                    willingness: kept,
                    last_check_willing_time: Some(now),
                    ..self.status@
                })
                &&& match res.1 {
                    Some(r) => {
                        &&& !rate.less(lot)
                        &&& r.msg == self.msg
                        &&& r.self_id == self.self_id
                        &&& r.self_name == self.self_name
                    },
                    None => rate.less(lot),
                }
            }),
    {
        let limit = cfg.f64_or("chat.willing.limit", Real { bits: ONE_BITS });
        let (kept, answers) = settle(willingness, limit, lot);
        let status = self.status.after_check(kept, now);
        if answers {
            (
                status,
                Some(
                    Reading { msg: self.msg, self_id: self.self_id, self_name: self.self_name },
                ),
            )
        } else {
            (status, None)
        }
    }
}

impl Reading {
    /// The call for the group's history.
    pub fn history_call(&self, cfg: &Config) -> (res: Call)
        ensures
            res@ == (CallView {
                method: "get_group_history_msg"@,
                args: seq![
                    crate::rpc::int_value(self.msg.group_id),
                    crate::rpc::int_value(cfg.int_at("chat.history_msg_num"@, 20)),
                ],
                wait: crate::rpc::Wait::Usual,
            }),
    {
        RpcSession::get_group_history_msg(
            self.msg.group_id,
            cfg.i64_or("chat.history_msg_num", 20),
        )
    }

    /// The group's history came.
    pub fn on_history(self, raw: &Json, board: &PokeBoard) -> (res: Wording)
        ensures
            message_views(res.recent@) == recent(raw@, self.msg@, *board),
            res.msg == self.msg,
            res.self_id == self.self_id,
            res.self_name == self.self_name,
    {
        let recent = recent_msgs(raw, &self.msg, board);
        Wording { msg: self.msg, self_id: self.self_id, self_name: self.self_name, recent }
    }
}

impl Wording {
    /// The messages are in words.
    pub fn on_text(self, recent_text: String) -> (res: Summing)
        ensures
            res.recent_text == recent_text,
            res.recent == self.recent,
            res.msg == self.msg,
            res.self_id == self.self_id,
            res.self_name == self.self_name,
    {
        Summing {
            msg: self.msg,
            self_id: self.self_id,
            self_name: self.self_name,
            recent: self.recent,
            recent_text,
        }
    }
}

impl Summing {
    /// A summary came, or none: without one the answer ends.
    pub fn on_summary(self, reply: Option<&Json>) -> (res: Result<Embedding, String>)
        ensures
            ({
                let summary = match reply {
                    Some(r) => answer_text(r@),
                    None => Seq::empty(),
                };
                match res {
                    Ok(e) => {
                        &&& summary.len() > 0
                        &&& e.summary@ == summary
                        &&& e.recent_text == self.recent_text
                        &&& e.recent == self.recent
                        &&& e.msg == self.msg
                        &&& e.self_id == self.self_id
                        &&& e.self_name == self.self_name
                    },
                    Err(e) => summary.len() == 0 && e@ == "生成聊天记录摘要失败，放弃聊天处理"@,
                }
            }),
    {
        let summary = summary_outcome(reply);
        if summary.as_str().is_empty() {
            return Err(own("生成聊天记录摘要失败，放弃聊天处理"));
        }
        Ok(
            Embedding {
                msg: self.msg,
                self_id: self.self_id,
                self_name: self.self_name,
                recent: self.recent,
                recent_text: self.recent_text,
                summary,
            },
        )
    }
}

impl Embedding {
    /// The call for the vectors of the summary and of the last message that is long enough.
    pub fn vectors_call(&self, cfg: &Config) -> (res: Call)
        ensures
            res@.wait == crate::rpc::Wait::Given(Real { bits: crate::rpc::SIXTY_BITS }),
            cfg.readable("chat.llm.emb_model"@) ==> {
                let texts = match last_long_text(message_views(self.recent@)) {
                    Some(t) => seq![self.summary@, t],
                    None => seq![self.summary@],
                };
                &&& res@.method == "query_embedding"@
                &&& res@.args == seq![
                    JsonView::Array(text_values(texts)),
                    JsonView::Str(cfg.text_at("chat.llm.emb_model"@)),
                ]
            },
    {
        let texts = texts_to_embed(self.summary.as_str(), &self.recent);
        let model = cfg.str("chat.llm.emb_model");
        RpcSession::query_embeddings(&texts, model.as_str())
    }

    /// The vectors came: without any the answer ends.
    pub fn on_vectors(self, reply: &Json) -> (res: Result<Recalling, String>)
        ensures
            ({
                let found = match reply@ {
                    JsonView::Array(items) => vectors_among(items),
                    _ => Seq::empty(),
                };
                match res {
                    Ok(r) => {
                        &&& found.len() > 0
                        &&& real_views(r.vectors@) == found
                        &&& r.summary == self.summary
                        &&& r.recent_text == self.recent_text
                        &&& r.recent == self.recent
                        &&& r.msg == self.msg
                        &&& r.self_id == self.self_id
                        &&& r.self_name == self.self_name
                    },
                    Err(e) => found.len() == 0 && e@ == "embedding 为空"@,
                }
            }),
    {
        match query_vectors(reply) {
            Ok(vectors) => Ok(
                Recalling {
                    msg: self.msg,
                    self_id: self.self_id,
                    self_name: self.self_name,
                    recent: self.recent,
                    recent_text: self.recent_text,
                    summary: self.summary,
                    vectors,
                },
            ),
            Err(e) => Err(e),
        }
    }
}

impl Recalling {
    /// What comes to mind of what the bot said and of people.
    pub fn recalls(&self, mem: &MemorySystem, cfg: &Config) -> (res: Recalled)
        ensures
            self_views(res.said@) == last_of(
                self_memories(items_of(stored(mem.file_db.data@, "sms"@))),
                count_at(*cfg, "chat.mem.sm_num"@, 5) as int,
            ),
            res.told@ == people_told(*cfg, mem.file_db.data@, message_views(self.recent@)),
            known_views(res.known@) == known_among(mem.file_db.data@, res.told@),
    {
        recall(&self.recent, mem, cfg)
    }

    /// What the bot remembers has come to mind: the short-term events, the long-term ones, and the
    /// rest. `stamps` holds their times as they are shown.
    pub fn on_memories(
        self,
        short: Vec<EventMemory>,
        long: Vec<EventMemory>,
        recalled: Recalled,
        stamps: &Stamps,
    ) -> (res: Asking)
        requires
            self.vectors@.len() > 0,
            stamps.fit(short@.len() + long@.len(), recalled),
        ensures
            res.msg == self.msg,
            res.recent == self.recent,
            res.told == recalled.told,
            res.summary == self.summary,
            res.vector == self.vectors@[0],
            views(res.rewarded@) == event_ids(short@),
            res.briefing.self_id == self.self_id,
            res.briefing.self_name == self.self_name,
            res.briefing.recent_text == self.recent_text,
            res.briefing.em_text@ == events_text(
                memory_views(short@) + memory_views(long@),
                views(stamps.events@),
            ),
            res.briefing.sm_text@ == said_block(self_views(recalled.said@), views(stamps.said@)),
            res.briefing.um_text@ == people_text(known_views(recalled.known@), stamps.people@),
    {
        let mut rewarded: Vec<String> = Vec::new();
        let mut i: usize = 0;
        while i < short.len()
            invariant
                i <= short@.len(),
                rewarded@.len() == i,
                forall|j: int| 0 <= j < i ==> (#[trigger] rewarded@[j])@ == short@[j].id@,
            decreases short@.len() - i,
        {
            rewarded.push(own(short[i].id.as_str()));
            i += 1;
        }
        assert(views(rewarded@) =~= event_ids(short@));
        let ghost first = short@;
        let ghost second = long@;
        let mut events = short;
        let mut later = long;
        events.append(&mut later);
        assert(memory_views(events@) =~= memory_views(first) + memory_views(second));
        let em = em_text(&events, &stamps.events);
        let sm = sm_text(&recalled.said, &stamps.said);
        let um = write_people(&recalled.known, &stamps.people);
        let mut vectors = self.vectors;
        let vector = vectors.remove(0);
        Asking {
            msg: self.msg,
            recent: self.recent,
            briefing: Briefing {
                self_id: self.self_id,
                self_name: self.self_name,
                recent_text: self.recent_text,
                em_text: em,
                sm_text: sm,
                um_text: um,
            },
            told: recalled.told,
            summary: self.summary,
            vector,
            rewarded,
        }
    }
}

impl Asking {
    /// The question for the language model, or why it cannot be put together.
    pub fn request(&self, cfg: &Config) -> (res: Result<LlmRequest, FormatError>)
        ensures
            cfg.readable("chat.prompt.framework"@) && cfg.convertible("chat.llm.model"@)
                && persona_readable(*cfg, self.msg.group_id) ==> match res {
                Ok(r) => {
                    &&& reply_prompt(*cfg, self.msg.group_id, self.briefing) == Ok::<
                        Seq<char>,
                        FormatErrorView,
                    >(r.prompt@)
                    &&& r.model@ == model_at(*cfg, "chat.llm.model"@).json()
                    &&& r.images@.len() == 0
                    &&& r.options@ == reply_options(
                        cfg.float_at("chat.llm.timeout"@, 120),
                        cfg.int_at("chat.llm.max_tokens"@, 10240),
                    )
                },
                Err(e) => reply_prompt(*cfg, self.msg.group_id, self.briefing) == Err::<
                    Seq<char>,
                    FormatErrorView,
                >(e@),
            },
    {
        reply_request(cfg, self.msg.group_id, &self.briefing)
    }

    /// The language model has answered.
    pub fn on_reply(self, response: &Json) -> (res: Acting)
        ensures
            res.msg == self.msg,
            res.recent == self.recent,
            res.summary == self.summary,
            res.vector == self.vector,
            res.rewarded == self.rewarded,
            action_views(res.actions@) == reply_actions(response@),
            update_views(res.updates@) == (match response@.get("user_updates"@) {
                Some(JsonView::Array(items)) => updates_of(
                    items,
                    message_views(self.recent@),
                    self.told@,
                    self.msg.user_id,
                ),
                _ => Seq::empty(),
            }),
    {
        let actions = parse_actions(response);
        let updates = user_updates(response, &self.recent, &self.told, self.msg.user_id);
        Acting {
            msg: self.msg,
            recent: self.recent,
            actions,
            updates,
            summary: self.summary,
            vector: self.vector,
            rewarded: self.rewarded,
        }
    }
}

impl Acting {
    /// The steps for the actions, where `hits` holds the stickers that were found in time.
    pub fn steps(&self, cfg: &Config, hits: &Vec<Option<StickerHit>>) -> (res: Vec<Step>)
        requires
            hits@.len() == self.actions@.len(),
        ensures
            step_views(res@) == steps_of(
                action_views(self.actions@),
                all_found(hits@),
                message_views(self.recent@),
                cfg.int_at("chat.reply_max_length"@, 512) as int,
            ),
    {
        execute_actions(
            &self.actions,
            hits,
            &self.recent,
            cfg.i64_or("chat.reply_max_length", 512),
        )
    }

    /// Keeps what the language model says of people, and then what the bot sent.
    pub fn remember(
        &self,
        mem: &mut MemorySystem,
        update_moments: &Vec<Json>,
        sent: &Vec<Sent>,
        sent_moments: &Vec<Json>,
        cfg: &Config,
    )
        requires
            update_moments@.len() == self.updates@.len(),
            sent_moments@.len() == sent@.len(),
        ensures
            final(mem).file_db.data@ == sent_added(
                people_updated(
                    old(mem).file_db.data@,
                    update_views(self.updates@),
                    json_views(update_moments@),
                    kept_by(*cfg),
                ),
                sent_views(sent@),
                json_views(sent_moments@),
                kept_by(*cfg),
            ),
    {
        remember(mem, &self.updates, update_moments, sent, sent_moments, keeping(cfg));
    }
}

/// The events that are rewarded are those that were recalled, by their numbers.
pub proof fn law_recalled_events_are_rewarded(ems: Seq<EventMemory>, i: int)
    requires
        0 <= i < ems.len(),
    ensures
        event_ids(ems).len() == ems.len(),
        event_ids(ems)[i] == ems[i].id@,
{
}

} // verus!
