//! What comes to mind before an answer, and what is kept after it.

use crate::config::Config;
use crate::context::{
    candidate_users, top_speakers, um_text, update_views, user_block, with_mentioned, write_user,
};
use crate::events::first_of;
use crate::execute::{sent_views, Sent, SentView};
use crate::filedb::stored;
use crate::json::{json_views, Json, JsonView};
use crate::memory::{
    entries_of, items_of, known_user, mentioned, self_added, self_memories, self_views,
    user_updated, MemorySystem, SelfMemory, UserMemory, UserMemoryView, UserUpdate, UserUpdateView,
};
use crate::number::Real;
use crate::rpc::TENTH_BITS;
use crate::text::{concat, concatenated, joined, views};
use crate::types::{message_views, Message, MessageView};
use crate::util::{keep_last, last_of};
use crate::select::{lemma_selected_next, lemma_selected_none, selected};
use vstd::prelude::*;
use vstd::string::*;

verus! {

/// The bit pattern of the number nearest to two hundredths.
pub const TWO_HUNDREDTHS_BITS: u64 = 0x3f94_7ae1_47ae_147b;

/// The bit pattern of the number three.
pub const THREE_BITS: u64 = 0x4008_0000_0000_0000;

/// The count that the configuration has under a key, none below zero.
pub open spec fn count_at(cfg: Config, key: Seq<char>, default: usize) -> usize {
    if cfg.int_at(key, default as i64) < 0 {
        0
    } else {
        cfg.int_at(key, default as i64) as usize
    }
}

/// How many events of each kind are to be recalled, and how fast the short-term ones fade.
#[derive(Clone, Copy, Debug, PartialEq, Eq, Structural)]
pub struct EventPlan {
    pub short: usize,
    pub long: usize,
    pub decay: Real,
}

/// Which events are to be recalled, where any are.
pub fn event_plan(cfg: &Config) -> (res: Option<EventPlan>)
    ensures
        ({
            let short = count_at(*cfg, "chat.mem.short_em_num"@, 3);
            let long = count_at(*cfg, "chat.mem.long_em_num"@, 1);
            res == if short + long > 0 {
                Some(
                    EventPlan {
                        short,
                        long,
                        decay: cfg.real_at(
                            "chat.mem.em_time_decay_per_hour"@,
                            Real { bits: TWO_HUNDREDTHS_BITS },
                        ),
                    },
                )
            } else {
                None
            }
        }),
{
    let short = cfg.usize_or("chat.mem.short_em_num", 3);
    let long = cfg.usize_or("chat.mem.long_em_num", 1);
    if short > 0 || long > 0 {
        let decay = cfg.f64_or(
            "chat.mem.em_time_decay_per_hour",
            Real { bits: TWO_HUNDREDTHS_BITS },
        );
        Some(EventPlan { short, long, decay })
    } else {
        None
    }
}

/// What comes to mind of what the bot said and of people: the last things that it said, the people of
/// whom the language model is told, and what is known of those of them of whom anything is.
#[derive(Debug)]
pub struct Recalled {
    pub said: Vec<SelfMemory>,
    pub told: Vec<i64>,
    pub known: Vec<(i64, UserMemory)>,
}

/// The texts of the messages, one behind the other.
pub open spec fn full_text(msgs: Seq<MessageView>) -> Seq<char> {
    concatenated(msgs.map_values(|m: MessageView| m.plain_text()))
}

/// What the store says of those of the people of whom it says anything.
pub open spec fn known_among(data: JsonView, people: Seq<i64>) -> Seq<(i64, UserMemoryView)>
    decreases people.len(),
{
    if people.len() == 0 {
        Seq::empty()
    } else {
        let front = known_among(data, people.drop_last());
        match known_user(data, people.last()) {
            Some(um) => front.push((people.last(), um)),
            None => front,
        }
    }
}

/// The views of what is known of people.
pub open spec fn known_views(known: Seq<(i64, UserMemory)>) -> Seq<(i64, UserMemoryView)> {
    known.map_values(|k: (i64, UserMemory)| (k.0, k.1@))
}

/// The people of whom the language model is told: those who are mentioned in the messages, then those
/// who wrote them.
pub open spec fn people_told(cfg: Config, data: JsonView, msgs: Seq<MessageView>) -> Seq<i64> {
    first_of(
        with_mentioned(
            top_speakers(msgs),
            mentioned(entries_of(stored(data, "ums"@)), full_text(msgs)),
        ),
        count_at(cfg, "chat.mem.um_num"@, 3) as int,
    )
}

fn write_full_text(msgs: &Vec<Message>) -> (res: String)
    ensures
        res@ == full_text(message_views(msgs@)),
{
    let mut parts: Vec<String> = Vec::new();
    let mut i: usize = 0;
    while i < msgs.len()
        invariant
            i <= msgs@.len(),
            parts@.len() == i,
            forall|j: int| 0 <= j < i ==> (#[trigger] parts@[j])@ == msgs@[j]@.plain_text(),
        decreases msgs@.len() - i,
    {
        parts.push(msgs[i].plain_text());
        i += 1;
    }
    assert(views(parts@) =~= message_views(msgs@).map_values(|m: MessageView| m.plain_text()));
    concat(&parts)
}

/// What comes to mind of what the bot said and of people.
pub fn recall(msgs: &Vec<Message>, mem: &MemorySystem, cfg: &Config) -> (res: Recalled)
    ensures
        self_views(res.said@) == last_of(
            self_memories(items_of(stored(mem.file_db.data@, "sms"@))),
            count_at(*cfg, "chat.mem.sm_num"@, 5) as int,
        ),
        res.told@ == people_told(*cfg, mem.file_db.data@, message_views(msgs@)),
        known_views(res.known@) == known_among(mem.file_db.data@, res.told@),
{
    let all_said = mem.sm_get();
    let sm_num = cfg.usize_or("chat.mem.sm_num", 5);
    let ghost before = all_said@;
    let said = keep_last(all_said, sm_num);
    assert(self_views(said@) =~= last_of(self_views(before), sm_num as int));
    let full = write_full_text(msgs);
    let named = mem.um_query_uid_by_name_in_message(full.as_str());
    let told = candidate_users(msgs, &named, cfg.usize_or("chat.mem.um_num", 3));
    let ghost all = told@;
    let mut known: Vec<(i64, UserMemory)> = Vec::new();
    let mut i: usize = 0;
    assert(known_views(known@) =~= Seq::empty());
    while i < told.len()
        invariant
            all == told@,
            i <= told@.len(),
            known_views(known@) == known_among(mem.file_db.data@, all.take(i as int)),
        decreases told@.len() - i,
    {
        assert(all.take(i + 1).drop_last() == all.take(i as int));
        match mem.um_get(told[i]) {
            Some(um) => {
                let ghost so_far = known@;
                let ghost item = (told@[i as int], um@);
                known.push((told[i], um));
                assert(known_views(known@) =~= known_views(so_far).push(item));
            },
            None => {},
        }
        i += 1;
    }
    assert(all.take(i as int) == all);
    Recalled { said, told, known }
}

/// The moments of the events of a person; zero for what is no number.
pub fn event_moments(um: &UserMemory) -> (res: Vec<Real>)
    ensures
        res@.len() == um@.recent_events.len(),
        forall|i: int|
            0 <= i < res@.len() ==> #[trigger] res@[i] == (match um@.recent_events[i].0.as_real() {
                Some(x) => x,
                None => (Real { bits: 0 }),
            }),
{
    let mut out: Vec<Real> = Vec::new();
    let mut i: usize = 0;
    while i < um.recent_events.len()
        invariant
            i <= um.recent_events@.len(),
            out@.len() == i,
            forall|j: int|
                0 <= j < i ==> #[trigger] out@[j] == (match um.recent_events@[j].0@.as_real() {
                    Some(x) => x,
                    None => (Real { bits: 0 }),
                }),
        decreases um.recent_events@.len() - i,
    {
        out.push(
            match um.recent_events[i].0.as_real() {
                Some(x) => x,
                None => Real { bits: 0 },
            },
        );
        i += 1;
    }
    out
}

/// The times of what comes to mind, as they are shown: of the events, of what the bot said, and of the
/// events of each person of whom something is known.
#[derive(Debug)]
pub struct Stamps {
    pub events: Vec<String>,
    pub said: Vec<String>,
    pub people: Vec<Vec<String>>,
}

impl Stamps {
    /// Whether there is one for each.
    pub open spec fn fit(self, events: nat, recalled: Recalled) -> bool {
        &&& self.events@.len() == events
        &&& self.said@.len() == recalled.said@.len()
        &&& self.people@.len() == recalled.known@.len()
        &&& forall|i: int|
            0 <= i < self.people@.len() ==> (#[trigger] self.people@[i])@.len()
                == recalled.known@[i].1.recent_events@.len()
    }
}

/// What is known of each person, in words.
pub open spec fn people_blocks(
    known: Seq<(i64, UserMemoryView)>,
    stamps: Seq<Vec<String>>,
) -> Seq<Seq<char>> {
    Seq::new(known.len(), |i: int| user_block(known[i].0, known[i].1, views(stamps[i]@)))
}

/// What is known of people, for the language model; nothing where nothing is.
pub open spec fn people_text(
    known: Seq<(i64, UserMemoryView)>,
    stamps: Seq<Vec<String>>,
) -> Seq<char> {
    if known.len() == 0 {
        Seq::empty()
    } else {
        "你对聊天中的部分用户的记忆:\n```\n"@ + joined(people_blocks(known, stamps), "\n"@)
            + "```\n"@
    }
}

/// What is known of people, for the language model.
pub fn write_people(known: &Vec<(i64, UserMemory)>, stamps: &Vec<Vec<String>>) -> (res: String)
    requires
        stamps@.len() == known@.len(),
        forall|i: int|
            0 <= i < stamps@.len() ==> (#[trigger] stamps@[i])@.len()
                == known@[i].1.recent_events@.len(),
    ensures
        res@ == people_text(known_views(known@), stamps@),
{
    let mut blocks: Vec<String> = Vec::new();
    let mut i: usize = 0;
    while i < known.len()
        invariant
            stamps@.len() == known@.len(),
            forall|i: int|
                0 <= i < stamps@.len() ==> (#[trigger] stamps@[i])@.len()
                    == known@[i].1.recent_events@.len(),
            i <= known@.len(),
            blocks@.len() == i,
            forall|j: int|
                0 <= j < i ==> (#[trigger] blocks@[j])@ == user_block(
                    known@[j].0,
                    known@[j].1@,
                    views(stamps@[j]@),
                ),
        decreases known@.len() - i,
    {
        assert(stamps@[i as int]@.len() == known@[i as int].1.recent_events@.len());
        blocks.push(write_user(known[i].0, &known[i].1, &stamps[i]));
        i += 1;
    }
    assert(views(blocks@) =~= people_blocks(known_views(known@), stamps@));
    um_text(&blocks)
}

/// How what the bot remembers is kept: how much an event that came to mind gains and from which
/// weight on it stays, after how many days and how likely the others are forgotten, and how much is
/// kept of people and of what the bot said.
#[derive(Clone, Copy, Debug, PartialEq, Eq, Structural)]
pub struct Keeping {
    pub reward: i64,
    pub threshold: i64,
    pub forget_days: Real,
    pub forget_prob: Real,
    pub max_events: usize,
    pub max_names: usize,
    pub keep_count: usize,
}

/// How what the bot remembers is kept, as the configuration says.
pub open spec fn kept_by(cfg: Config) -> Keeping {
    Keeping {
        reward: cfg.int_at("chat.mem.short_em_reward"@, 1),
        threshold: cfg.int_at("chat.mem.em_long_term_threshold"@, 10),
        forget_days: cfg.real_at("chat.mem.short_em_forget_days"@, Real { bits: THREE_BITS }),
        forget_prob: cfg.real_at("chat.mem.short_em_forget_prob"@, Real { bits: TENTH_BITS }),
        max_events: count_at(cfg, "chat.mem.um_max_events"@, 5),
        max_names: count_at(cfg, "chat.mem.um_max_names"@, 10),
        keep_count: count_at(cfg, "chat.mem.sm_keep_count"@, 10),
    }
}

/// How what the bot remembers is kept, as the configuration says.
pub fn keeping(cfg: &Config) -> (res: Keeping)
    ensures
        res == kept_by(*cfg),
{
    Keeping {
        reward: cfg.i64_or("chat.mem.short_em_reward", 1),
        threshold: cfg.i64_or("chat.mem.em_long_term_threshold", 10),
        forget_days: cfg.f64_or("chat.mem.short_em_forget_days", Real { bits: THREE_BITS }),
        forget_prob: cfg.f64_or("chat.mem.short_em_forget_prob", Real { bits: TENTH_BITS }),
        max_events: cfg.usize_or("chat.mem.um_max_events", 5),
        max_names: cfg.usize_or("chat.mem.um_max_names", 10),
        keep_count: cfg.usize_or("chat.mem.sm_keep_count", 10),
    }
}

/// The store after the updates of what it says of people, one after the other, each at its moment.
pub open spec fn people_updated(
    data: JsonView,
    updates: Seq<(i64, UserUpdateView)>,
    moments: Seq<JsonView>,
    by: Keeping,
) -> JsonView
    decreases updates.len(),
{
    if updates.len() == 0 {
        data
    } else {
        user_updated(
            people_updated(data, updates.drop_last(), moments, by),
            updates.last().0,
            updates.last().1,
            moments[updates.len() - 1],
            by.max_events as int,
            by.max_names as int,
        )
    }
}

/// The store after all that the bot sent, one thing after the other, each at its moment.
pub open spec fn sent_added(
    data: JsonView,
    sent: Seq<SentView>,
    moments: Seq<JsonView>,
    by: Keeping,
) -> JsonView
    decreases sent.len(),
{
    if sent.len() == 0 {
        data
    } else {
        self_added(
            sent_added(data, sent.drop_last(), moments, by),
            sent.last().msg_id,
            by.keep_count as int,
            sent.last().text,
            sent.last().sticker,
            moments[sent.len() - 1],
        )
    }
}

/// Keeps what the language model says of people, and then what the bot sent. The lists of moments hold
/// the time of each.
pub fn remember(
    mem: &mut MemorySystem,
    updates: &Vec<(i64, UserUpdate)>,
    update_moments: &Vec<Json>,
    sent: &Vec<Sent>,
    sent_moments: &Vec<Json>,
    by: Keeping,
)
    requires
        update_moments@.len() == updates@.len(),
        sent_moments@.len() == sent@.len(),
    ensures
        final(mem).file_db.data@ == sent_added(
            people_updated(
                old(mem).file_db.data@,
                update_views(updates@),
                json_views(update_moments@),
                by,
            ),
            sent_views(sent@),
            json_views(sent_moments@),
            by,
        ),
{
    let ghost start = mem.file_db.data@;
    let ghost all = update_views(updates@);
    let ghost times = json_views(update_moments@);
    let mut i: usize = 0;
    while i < updates.len()
        invariant
            all == update_views(updates@),
            times == json_views(update_moments@),
            update_moments@.len() == updates@.len(),
            i <= updates@.len(),
            mem.file_db.data@ == people_updated(start, all.take(i as int), times, by),
        decreases updates@.len() - i,
    {
        assert(all.take(i + 1).drop_last() == all.take(i as int));
        assert(all[i as int] == (updates@[i as int].0, updates@[i as int].1@));
        assert(times[i as int] == update_moments@[i as int]@);
        mem.um_update(
            updates[i].0,
            &updates[i].1,
            &update_moments[i],
            by.max_events,
            by.max_names,
        );
        i += 1;
    }
    assert(all.take(i as int) == all);
    let ghost middle = mem.file_db.data@;
    let ghost things = sent_views(sent@);
    let ghost moments = json_views(sent_moments@);
    let mut k: usize = 0;
    while k < sent.len()
        invariant
            things == sent_views(sent@),
            moments == json_views(sent_moments@),
            sent_moments@.len() == sent@.len(),
            k <= sent@.len(),
            mem.file_db.data@ == sent_added(middle, things.take(k as int), moments, by),
        decreases sent@.len() - k,
    {
        assert(things.take(k + 1).drop_last() == things.take(k as int));
        assert(things[k as int] == sent@[k as int]@);
        assert(moments[k as int] == sent_moments@[k as int]@);
        mem.sm_add(
            sent[k].msg_id,
            by.keep_count,
            sent[k].text.as_str(),
            sent[k].sticker.as_str(),
            &sent_moments[k],
        );
        k += 1;
    }
    assert(things.take(k as int) == things);
}

/// Of the people those that are known are recalled, in their order, each with what is kept of that one.
pub proof fn law_known_people_are_all_recalled(data: JsonView, people: Seq<i64>)
    ensures
        selected(
            people.len() as int,
            |i: int|
                if known_user(data, people[i]) is Some {
                    Some((people[i], known_user(data, people[i])->0))
                } else {
                    None
                },
            known_among(data, people),
        ),
{
    let f = |i: int|
        if known_user(data, people[i]) is Some {
            Some((people[i], known_user(data, people[i])->0))
        } else {
            None
        };
    lemma_known_people_are_all_recalled(data, people, f, people.len() as int);
    assert(people.take(people.len() as int) =~= people);
}

proof fn lemma_known_people_are_all_recalled(
    data: JsonView,
    people: Seq<i64>,
    f: spec_fn(int) -> Option<(i64, UserMemoryView)>,
    n: int,
)
    requires
        0 <= n <= people.len(),
        forall|i: int|
            0 <= i < people.len() ==> (#[trigger] f(i)) == (
                if known_user(data, people[i]) is Some {
                    Some((people[i], known_user(data, people[i])->0))
                } else {
                    None
                }
            ),
    ensures
        selected(n, f, known_among(data, people.take(n))),
    decreases n,
{
    if n == 0 {
        lemma_selected_none(f);
    } else {
        lemma_known_people_are_all_recalled(data, people, f, n - 1);
        assert(people.take(n).drop_last() =~= people.take(n - 1));
        lemma_selected_next(n - 1, f, known_among(data, people.take(n - 1)));
    }
}

/// A count that the settings give is taken, one below none as none, and where there is none the usual one.
pub proof fn law_counts_are_not_negative(cfg: Config, key: Seq<char>, default: usize)
    ensures
        cfg.int_at(key, default as i64) < 0 ==> count_at(cfg, key, default) == 0,
        0 <= cfg.int_at(key, default as i64) <= usize::MAX ==> count_at(cfg, key, default)
            == cfg.int_at(key, default as i64),
{
}

/// The people whom the bot is told of: those mentioned by name in the texts, and then those who wrote
/// most, as many as the settings allow, or three.
pub proof fn law_people_told(cfg: Config, data: JsonView, msgs: Seq<MessageView>, i: int)
    ensures
        ({
            let all = with_mentioned(
                top_speakers(msgs),
                mentioned(
                    entries_of(stored(data, "ums"@)),
                    concatenated(msgs.map_values(|m: MessageView| m.plain_text())),
                ),
            );
            let res = people_told(cfg, data, msgs);
            &&& res.len() == vstd::math::min(
                all.len() as int,
                count_at(cfg, "chat.mem.um_num"@, 3) as int,
            )
            &&& 0 <= i < res.len() ==> res[i] == all[i]
        }),
{
}

/// How much is kept, where the settings do not say: a reward of one, ten for what lasts, three days, a
/// tenth, five events, ten names and ten replies.
pub proof fn law_what_is_kept(cfg: Config)
    ensures
        kept_by(cfg).reward == cfg.int_at("chat.mem.short_em_reward"@, 1),
        kept_by(cfg).threshold == cfg.int_at("chat.mem.em_long_term_threshold"@, 10),
        kept_by(cfg).forget_days == cfg.real_at(
            "chat.mem.short_em_forget_days"@,
            (Real { bits: 0x4008_0000_0000_0000 }),
        ),
        kept_by(cfg).forget_prob == cfg.real_at(
            "chat.mem.short_em_forget_prob"@,
            (Real { bits: 0x3fb9_9999_9999_999a }),
        ),
        kept_by(cfg).max_events == count_at(cfg, "chat.mem.um_max_events"@, 5),
        kept_by(cfg).max_names == count_at(cfg, "chat.mem.um_max_names"@, 10),
        kept_by(cfg).keep_count == count_at(cfg, "chat.mem.sm_keep_count"@, 10),
{
}

/// People are updated, and replies are added, one after the other, each with its own time.
pub proof fn law_remembered_in_turn(
    data: JsonView,
    updates: Seq<(i64, UserUpdateView)>,
    update: (i64, UserUpdateView),
    sent: Seq<SentView>,
    one: SentView,
    moments: Seq<JsonView>,
    by: Keeping,
)
    ensures
        people_updated(data, Seq::empty(), moments, by) == data,
        people_updated(data, updates.push(update), moments, by) == user_updated(
            people_updated(data, updates, moments, by),
            update.0,
            update.1,
            moments[updates.len() as int],
            by.max_events as int,
            by.max_names as int,
        ),
        sent_added(data, Seq::empty(), moments, by) == data,
        sent_added(data, sent.push(one), moments, by) == self_added(
            sent_added(data, sent, moments, by),
            one.msg_id,
            by.keep_count as int,
            one.text,
            one.sticker,
            moments[sent.len() as int],
        ),
{
    assert(updates.push(update).drop_last() =~= updates);
    assert(sent.push(one).drop_last() =~= sent);
}

/// What the bot knows of people is told by a block for each of them, in their order.
pub proof fn law_blocks_of_people(
    known: Seq<(i64, UserMemoryView)>,
    stamps: Seq<Vec<String>>,
    i: int,
)
    ensures
        known.len() == 0 ==> people_text(known, stamps).len() == 0,
        people_blocks(known, stamps).len() == known.len(),
        0 <= i < known.len() ==> people_blocks(known, stamps)[i] == user_block(
            known[i].0,
            known[i].1,
            views(stamps[i]@),
        ),
        known.len() > 0 ==> people_text(known, stamps) == "你对聊天中的部分用户的记忆:\n```\n"@
            + joined(people_blocks(known, stamps), "\n"@) + "```\n"@,
{
}

} // verus!
