//! The calls to the main program: requests, replies, and which calls are still unanswered.

use crate::config::Config;
use crate::json::{
    entry_views, json_of_text, json_views, text_values, Json, JsonView, NumView,
};
use crate::number::Real;
use crate::text::{int_text, own, signed_text, views};
use crate::yaml::{yaml_to_json, YamlView};
use vstd::prelude::*;
use vstd::string::*;

verus! {

/// Why a call failed.
#[derive(Debug)]
pub enum RpcError {
    NotConnected,
    Closed,
    Timeout,
    Remote(String),
    Other(String),
}

/// Why a call failed.
pub enum RpcErrorView {
    NotConnected,
    Closed,
    Timeout,
    Remote(Seq<char>),
    Other(Seq<char>),
}

impl View for RpcError {
    type V = RpcErrorView;

    open spec fn view(&self) -> RpcErrorView {
        match self {
            RpcError::NotConnected => RpcErrorView::NotConnected,
            RpcError::Closed => RpcErrorView::Closed,
            RpcError::Timeout => RpcErrorView::Timeout,
            RpcError::Remote(s) => RpcErrorView::Remote(s@),
            RpcError::Other(s) => RpcErrorView::Other(s@),
        }
    }
}

impl RpcErrorView {
    /// The failure in words.
    pub open spec fn message(self) -> Seq<char> {
        match self {
            RpcErrorView::NotConnected => "RPC未连接"@,
            RpcErrorView::Closed => "RPC连接已关闭"@,
            RpcErrorView::Timeout => "RPC请求超时"@,
            RpcErrorView::Remote(s) => "RPC请求错误: "@ + s,
            RpcErrorView::Other(s) => s,
        }
    }
}

impl RpcError {
    /// The failure in words.
    pub fn message(&self) -> (res: String)
        ensures
            res@ == self@.message(),
    {
        match self {
            RpcError::NotConnected => own("RPC未连接"),
            RpcError::Closed => own("RPC连接已关闭"),
            RpcError::Timeout => own("RPC请求超时"),
            RpcError::Remote(s) => {
                let mut out = own("RPC请求错误: ");
                out.append(s.as_str());
                out
            },
            RpcError::Other(s) => own(s.as_str()),
        }
    }
}

/// How long the answer to a call is waited for, in seconds.
#[derive(Clone, Copy, Debug, PartialEq, Eq, Structural)]
pub enum Wait {
    /// As long as the configuration says.
    Usual,
    /// So long, whatever the configuration says.
    Given(Real),
    /// Five seconds more than a language model may take.
    Model(Real),
}

/// The bit pattern of the number five.
pub const FIVE_BITS: u64 = 0x4014_0000_0000_0000;

/// The bit pattern of the number sixty.
pub const SIXTY_BITS: u64 = 0x404e_0000_0000_0000;

/// The bit pattern of the number three hundred.
pub const THREE_HUNDRED_BITS: u64 = 0x4072_c000_0000_0000;

/// The bit pattern of the number nearest to a tenth.
pub const TENTH_BITS: u64 = 0x3fb9_9999_9999_999a;

impl Wait {
    /// The seconds to wait, before what is added to them.
    pub open spec fn base_seconds(self, cfg: Config) -> Real {
        match self {
            Wait::Usual => cfg.real_at("rpc.default_timeout"@, Real { bits: FIVE_BITS }),
            Wait::Given(x) => x,
            Wait::Model(x) => x,
        }
    }

    /// The seconds to wait, before what is added to them.
    pub fn base(self, cfg: &Config) -> (res: Real)
        ensures
            res == self.base_seconds(*cfg),
    {
        match self {
            Wait::Usual => cfg.f64_or("rpc.default_timeout", Real { bits: FIVE_BITS }),
            Wait::Given(x) => x,
            Wait::Model(x) => x,
        }
    }

    /// The seconds that are added: five for a language model.
    pub fn extra(self) -> (res: Option<Real>)
        ensures
            res == (match self {
                Wait::Model(_) => Some(Real { bits: FIVE_BITS }),
                _ => None,
            }),
    {
        match self {
            Wait::Model(_) => Some(Real { bits: FIVE_BITS }),
            _ => None,
        }
    }
}

/// The seconds that are waited in the end: a tenth of one at the least.
pub fn waited(seconds: Real) -> (res: Real)
    ensures
        res == seconds.greater(Real { bits: TENTH_BITS }),
{
    seconds.max(Real { bits: TENTH_BITS })
}

/// How long a question to a language model may take: what its options say, else three hundred
/// seconds.
pub open spec fn model_seconds(options: JsonView) -> Real {
    match options.get("timeout"@) {
        Some(v) => match v.as_real() {
            Some(x) => x,
            None => (Real { bits: THREE_HUNDRED_BITS }),
        },
        None => (Real { bits: THREE_HUNDRED_BITS }),
    }
}

fn read_model_seconds(options: &Json) -> (res: Real)
    ensures
        res == model_seconds(options@),
{
    match options.get("timeout") {
        Some(v) => match v.as_real() {
            Some(x) => x,
            None => Real { bits: THREE_HUNDRED_BITS },
        },
        None => Real { bits: THREE_HUNDRED_BITS },
    }
}

/// A procedure of the main program with its arguments, and how long its answer is waited for.
pub struct CallView {
    pub method: Seq<char>,
    pub args: Seq<JsonView>,
    pub wait: Wait,
}

/// A procedure of the main program with its arguments, and how long its answer is waited for.
#[derive(Debug)]
pub struct Call {
    pub method: String,
    pub args: Vec<Json>,
    pub wait: Wait,
}

impl View for Call {
    type V = CallView;

    open spec fn view(&self) -> CallView {
        CallView { method: self.method@, args: json_views(self.args@), wait: self.wait }
    }
}

/// The integer as a JSON value.
pub open spec fn int_value(i: i64) -> JsonView {
    JsonView::Number(NumView::Int(i))
}

/// The request with this number: its parameters are the token and then the arguments.
pub open spec fn request(id: i64, token: Seq<char>, call: CallView) -> JsonView {
    JsonView::Object(
        seq![
            ("id"@, int_value(id)),
            ("jsonrpc"@, JsonView::Str("2.0"@)),
            ("method"@, JsonView::Str(call.method)),
            ("params"@, JsonView::Array(seq![JsonView::Str(token)] + call.args)),
        ],
    )
}

/// What a reply says of the call that it names: the result, or the words of the error.
pub open spec fn reply_to(v: JsonView) -> Option<(i64, Result<JsonView, RpcErrorView>)> {
    match v.get("id"@) {
        Some(JsonView::Number(NumView::Int(id))) => Some(
            (
                id,
                match v.get("error"@) {
                    Some(err) => Err(
                        RpcErrorView::Remote(
                            match err.get_str("message"@) {
                                Some(m) => m,
                                None => err.canonical().written(),
                            },
                        ),
                    ),
                    None => Ok(
                        match v.get("result"@) {
                            Some(r) => r,
                            None => JsonView::Null,
                        },
                    ),
                },
            ),
        ),
        _ => None,
    }
}

/// What a value that came in does to the calls that have no answer yet, and the answer that it gives
/// to one of them.
pub open spec fn on_value(awaiting: Set<i64>, v: JsonView) -> (
    Set<i64>,
    Option<(i64, Result<JsonView, RpcErrorView>)>,
) {
    match reply_to(v) {
        Some(r) => (
            awaiting.remove(r.0),
            if awaiting.contains(r.0) {
                Some(r)
            } else {
                None
            },
        ),
        None => (awaiting, None),
    }
}

/// The view of an answer to a call.
pub open spec fn reply_view(a: Option<(i64, Result<Json, RpcError>)>) -> Option<
    (i64, Result<JsonView, RpcErrorView>),
> {
    match a {
        Some((id, answer)) => Some((id, answer_view(answer))),
        None => None,
    }
}

/// The view of an answer.
pub open spec fn answer_view(a: Result<Json, RpcError>) -> Result<JsonView, RpcErrorView> {
    match a {
        Ok(v) => Ok(v@),
        Err(e) => Err(e@),
    }
}

/// A connection to the main program: whether it stands, the number of the next call, and the numbers
/// of the calls that have no answer yet.
#[derive(Debug)]
pub struct RpcSession {
    pub connected: bool,
    pub next_id: i64,
    pub pending: Vec<i64>,
}

/// A connection: whether it stands, the number of the next call, and the calls without an answer.
#[verifier::ext_equal]
pub struct SessionView {
    pub connected: bool,
    pub next_id: i64,
    pub awaiting: Set<i64>,
}

/// What can happen to a connection.
pub enum Event {
    Connect,
    Disconnect,
    Call,
    SendFailed(i64),
    TimedOut(i64),
    Value(JsonView),
}

/// A connection after something happened to it.
pub open spec fn after(s: SessionView, e: Event) -> SessionView {
    match e {
        Event::Connect => SessionView { connected: true, ..s },
        Event::Disconnect => SessionView { connected: false, awaiting: Set::empty(), ..s },
        Event::Call => if s.connected {
            SessionView {
                next_id: next_number(s.next_id),
                awaiting: s.awaiting.insert(s.next_id),
                ..s
            }
        } else {
            s
        },
        Event::SendFailed(_) => SessionView { connected: false, awaiting: Set::empty(), ..s },
        Event::TimedOut(id) => SessionView { awaiting: s.awaiting.remove(id), ..s },
        Event::Value(v) => SessionView { awaiting: on_value(s.awaiting, v).0, ..s },
    }
}

/// A connection after some things happened to it, one after the other.
pub open spec fn after_all(s: SessionView, events: Seq<Event>) -> SessionView
    decreases events.len(),
{
    if events.len() == 0 {
        s
    } else {
        after(after_all(s, events.drop_last()), events.last())
    }
}

/// The numbers that the calls among the events got.
pub open spec fn numbers_given(s: SessionView, events: Seq<Event>) -> Seq<i64>
    decreases events.len(),
{
    if events.len() == 0 {
        Seq::empty()
    } else {
        let front = numbers_given(s, events.drop_last());
        let before = after_all(s, events.drop_last());
        if events.last() is Call && before.connected {
            front.push(before.next_id)
        } else {
            front
        }
    }
}

/// The number that comes `k` calls later; the numbers go round.
pub open spec fn number_after(id: i64, k: int) -> i64 {
    ((id + k + 0x8000_0000_0000_0000) % 0x1_0000_0000_0000_0000 - 0x8000_0000_0000_0000) as i64
}

impl View for RpcSession {
    type V = SessionView;

    open spec fn view(&self) -> SessionView {
        SessionView {
            connected: self.connected,
            next_id: self.next_id,
            awaiting: self.awaiting(),
        }
    }
}

/// The number after this one; after the greatest comes the least.
pub open spec fn next_number(id: i64) -> i64 {
    if id == i64::MAX {
        i64::MIN
    } else {
        (id + 1) as i64
    }
}

fn find_id(ids: &Vec<i64>, id: i64) -> (res: Option<usize>)
    ensures
        match res {
            Some(i) => i < ids@.len() && ids@[i as int] == id,
            None => !ids@.contains(id),
        },
{
    let mut i: usize = 0;
    while i < ids.len()
        invariant
            i <= ids@.len(),
            forall|j: int| 0 <= j < i ==> ids@[j] != id,
        decreases ids@.len() - i,
    {
        if ids[i] == id {
            return Some(i);
        }
        i += 1;
    }
    None
}

impl RpcSession {
    /// Whether no call is listed twice.
    pub open spec fn wf(self) -> bool {
        self.pending@.no_duplicates()
    }

    /// The calls that have no answer yet.
    pub open spec fn awaiting(self) -> Set<i64> {
        Set::new(|id: i64| self.pending@.contains(id))
    }

    /// A connection that does not stand yet.
    pub fn new() -> (res: RpcSession)
        ensures
            res.wf(),
            !res.connected,
            res.next_id == 1,
            res.awaiting() == Set::<i64>::empty(),
    {
        RpcSession { connected: false, next_id: 1, pending: Vec::new() }
    }

    /// Whether the connection stands.
    pub fn is_connected(&self) -> (res: bool)
        ensures
            res == self.connected,
    {
        self.connected
    }

    /// The connection stands now.
    pub fn connect(&mut self)
        ensures
            final(self)@ == after(old(self)@, Event::Connect),
            final(self).connected,
            final(self).next_id == old(self).next_id,
            final(self).pending == old(self).pending,
            final(self).awaiting() == old(self).awaiting(),
    {
        self.connected = true;
    }

    /// The connection is gone. Gives the calls that have to be told so.
    pub fn disconnect(&mut self) -> (res: Vec<i64>)
        ensures
            final(self)@ == after(old(self)@, Event::Disconnect),
            !final(self).connected,
            final(self).next_id == old(self).next_id,
            final(self).awaiting() == Set::<i64>::empty(),
            final(self).wf(),
            res@ == old(self).pending@,
    {
        self.connected = false;
        let mut ids: Vec<i64> = Vec::new();
        std::mem::swap(&mut ids, &mut self.pending);
        ids
    }

    /// Begins a call: its number and the text of the request.
    pub fn call(&mut self, token: &str, call: Call) -> (res: Result<(i64, String), RpcError>)
        requires
            old(self).wf(),
        ensures
            final(self)@ == after(old(self)@, Event::Call),
            final(self).wf(),
            final(self).connected == old(self).connected,
            match res {
                Ok(r) => {
                    &&& old(self).connected
                    &&& r.0 == old(self).next_id
                    &&& r.1@ == request(old(self).next_id, token@, call@).canonical().written()
                    &&& final(self).next_id == next_number(old(self).next_id)
                    &&& final(self).awaiting() == old(self).awaiting().insert(r.0)
                },
                Err(e) => {
                    &&& !old(self).connected
                    &&& e is NotConnected
                    &&& *final(self) == *old(self)
                },
            },
    {
        if !self.connected {
            return Err(RpcError::NotConnected);
        }
        let id = self.next_id;
        self.next_id = if id == i64::MAX {
            i64::MIN
        } else {
            id + 1
        };
        let ghost the_call = call@;
        let mut params: Vec<Json> = Vec::new();
        params.push(Json::str(token));
        let mut args = call.args;
        let ghost given = args@;
        params.append(&mut args);
        assert(json_views(params@) =~= seq![JsonView::Str(token@)] + json_views(given));
        let mut entries: Vec<(String, Json)> = Vec::new();
        entries.push((own("id"), Json::integer(id)));
        entries.push((own("jsonrpc"), Json::str("2.0")));
        entries.push((own("method"), Json::Str(call.method)));
        entries.push((own("params"), Json::array(params)));
        assert(entry_views(entries@) =~= request(id, token@, the_call)->Object_0);
        let text = Json::object(entries).text();
        let ghost before = self.pending@;
        if find_id(&self.pending, id).is_none() {
            self.pending.push(id);
            assert(self.pending@ =~= before.push(id));
        }
        proof {
            assert forall|other: i64| self.pending@.contains(other) == (before.contains(other)
                || other == id) by {
                if before.contains(other) {
                    let k = choose|k: int| 0 <= k < before.len() && before[k] == other;
                    assert(self.pending@[k] == other);
                }
                if other == id && !before.contains(id) {
                    assert(self.pending@[before.len() as int] == id);
                }
            }
            assert(self.awaiting() =~= old(self).awaiting().insert(id));
            assert(self.pending@.no_duplicates());
        }
        Ok((id, text))
    }

    /// A call is not awaited any more.
    fn forget(&mut self, id: i64) -> (res: bool)
        requires
            old(self).wf(),
        ensures
            final(self).wf(),
            final(self).connected == old(self).connected,
            final(self).next_id == old(self).next_id,
            res == old(self).awaiting().contains(id),
            final(self).awaiting() == old(self).awaiting().remove(id),
    {
        let ghost before = self.pending@;
        match find_id(&self.pending, id) {
            Some(i) => {
                self.pending.remove(i);
                let ghost after = self.pending@;
                assert(before.contains(before[i as int]));
                proof {
                    assert forall|a: int, b: int| 0 <= a < after.len() && 0 <= b < after.len() && a
                        != b implies after[a] != after[b] by {
                        let a0 = if a < i { a } else { a + 1 };
                        let b0 = if b < i { b } else { b + 1 };
                        assert(after[a] == before[a0] && after[b] == before[b0]);
                    }
                    assert forall|other: i64| after.contains(other) == (before.contains(
                        other,
                    ) && other != id) by {
                        if before.contains(other) && other != id {
                            let k = choose|k: int| 0 <= k < before.len() && before[k] == other;
                            let k0 = if k < i { k } else { k - 1 };
                            assert(after[k0] == other);
                        }
                        if after.contains(other) {
                            let k = choose|k: int| 0 <= k < after.len() && after[k] == other;
                            let k0 = if k < i { k } else { k + 1 };
                            assert(before[k0] == other);
                        }
                    }
                    assert(self.awaiting() =~= old(self).awaiting().remove(id));
                }
                true
            },
            None => {
                assert(self.awaiting() =~= old(self).awaiting().remove(id));
                false
            },
        }
    }

    /// A request could not be sent: the connection is gone. Gives the other calls that have to be
    /// told so; the call itself fails as closed.
    pub fn send_failed(&mut self, id: i64) -> (res: (Vec<i64>, RpcError))
        requires
            old(self).wf(),
        ensures
            final(self)@ == after(old(self)@, Event::SendFailed(id)),
            final(self).wf(),
            !final(self).connected,
            final(self).next_id == old(self).next_id,
            final(self).awaiting() == Set::<i64>::empty(),
            res.0@.to_set() == old(self).awaiting().remove(id),
            res.1 is Closed,
    {
        self.forget(id);
        let ghost mid = *self;
        let ids = self.disconnect();
        assert(ids@.to_set() =~= mid.awaiting());
        (ids, RpcError::Closed)
    }

    /// A call was waited for too long.
    pub fn timed_out(&mut self, id: i64) -> (res: RpcError)
        requires
            old(self).wf(),
        ensures
            final(self)@ == after(old(self)@, Event::TimedOut(id)),
            final(self).wf(),
            final(self).connected == old(self).connected,
            final(self).next_id == old(self).next_id,
            final(self).awaiting() == old(self).awaiting().remove(id),
            res is Timeout,
    {
        self.forget(id);
        RpcError::Timeout
    }

    /// A text came in: the call that it answers, where one waits for it, and the answer. Anything
    /// else is passed over.
    pub fn on_text(&mut self, text: &str) -> (res: Option<(i64, Result<Json, RpcError>)>)
        requires
            old(self).wf(),
        ensures
            final(self).wf(),
            final(self).connected == old(self).connected,
            final(self).next_id == old(self).next_id,
            match json_of_text(text@) {
                Some(v) => (final(self).awaiting(), reply_view(res)) == on_value(
                    old(self).awaiting(),
                    v,
                ) && final(self)@ == after(old(self)@, Event::Value(v)),
                None => res is None && *final(self) == *old(self),
            },
    {
        match Json::parse(text) {
            Some(v) => self.on_reply(&v),
            None => None,
        }
    }

    /// What [`RpcSession::on_text`] does with the value that a text stands for.
    pub fn on_reply(&mut self, v: &Json) -> (res: Option<(i64, Result<Json, RpcError>)>)
        requires
            old(self).wf(),
        ensures
            final(self)@ == after(old(self)@, Event::Value(v@)),
            final(self).wf(),
            final(self).connected == old(self).connected,
            final(self).next_id == old(self).next_id,
            (final(self).awaiting(), reply_view(res)) == on_value(old(self).awaiting(), v@),
    {
        let id = match v.get("id") {
            Some(Json::Number(n)) => match n.as_i64() {
                Some(id) => id,
                None => {
                    return None;
                },
            },
            _ => {
                return None;
            },
        };
        if !self.forget(id) {
            return None;
        }
        match v.get("error") {
            Some(err) => {
                let msg = match err.get_str("message") {
                    Some(m) => own(m),
                    None => err.text(),
                };
                Some((id, Err(RpcError::Remote(msg))))
            },
            None => {
                let result = match v.get("result") {
                    Some(r) => r.copy(),
                    None => Json::Null,
                };
                Some((id, Ok(result)))
            },
        }
    }

    /// The call for the bot's own number and name in a group.
    pub fn get_self_info(group_id: i64) -> (res: Call)
        ensures
            res@ == (CallView {
                method: "get_self_info"@,
                args: seq![int_value(group_id)],
                wait: Wait::Usual,
            }),
    {
        let mut args: Vec<Json> = Vec::new();
        args.push(Json::integer(group_id));
        assert(json_views(args@) =~= seq![int_value(group_id)]);
        Call { method: own("get_self_info"), args, wait: Wait::Usual }
    }

    /// The call that sends a message to a group.
    pub fn send_group_msg(group_id: i64, message: &str) -> (res: Call)
        ensures
            res@ == (CallView {
                method: "send_group_msg"@,
                args: seq![int_value(group_id), JsonView::Str(message@)],
                wait: Wait::Usual,
            }),
    {
        let mut args: Vec<Json> = Vec::new();
        args.push(Json::integer(group_id));
        args.push(Json::str(message));
        assert(json_views(args@) =~= seq![int_value(group_id), JsonView::Str(message@)]);
        Call { method: own("send_group_msg"), args, wait: Wait::Usual }
    }

    /// The call that pokes a member of a group.
    pub fn poke_group_member(group_id: i64, user_id: i64) -> (res: Call)
        ensures
            res@ == (CallView {
                method: "poke_group_member"@,
                args: seq![int_value(group_id), int_value(user_id)],
                wait: Wait::Usual,
            }),
    {
        let mut args: Vec<Json> = Vec::new();
        args.push(Json::integer(group_id));
        args.push(Json::integer(user_id));
        assert(json_views(args@) =~= seq![int_value(group_id), int_value(user_id)]);
        Call { method: own("poke_group_member"), args, wait: Wait::Usual }
    }

    /// The call that reacts to a message with an emoji.
    pub fn set_msg_emoji_like(group_id: i64, message_id: i64, emoji_id: &str) -> (res: Call)
        ensures
            res@ == (CallView {
                method: "set_msg_emoji_like"@,
                args: seq![int_value(group_id), int_value(message_id), JsonView::Str(emoji_id@)],
                wait: Wait::Usual,
            }),
    {
        let mut args: Vec<Json> = Vec::new();
        args.push(Json::integer(group_id));
        args.push(Json::integer(message_id));
        args.push(Json::str(emoji_id));
        assert(json_views(args@) =~= seq![
            int_value(group_id),
            int_value(message_id),
            JsonView::Str(emoji_id@),
        ]);
        Call { method: own("set_msg_emoji_like"), args, wait: Wait::Usual }
    }

    /// The call for the last messages of a group.
    pub fn get_group_history_msg(group_id: i64, limit: i64) -> (res: Call)
        ensures
            res@ == (CallView {
                method: "get_group_history_msg"@,
                args: seq![int_value(group_id), int_value(limit)],
                wait: Wait::Usual,
            }),
    {
        let mut args: Vec<Json> = Vec::new();
        args.push(Json::integer(group_id));
        args.push(Json::integer(limit));
        assert(json_views(args@) =~= seq![int_value(group_id), int_value(limit)]);
        Call { method: own("get_group_history_msg"), args, wait: Wait::Usual }
    }

    /// The call for the messages that came since the last one.
    pub fn get_new_msgs() -> (res: Call)
        ensures
            res@ == (CallView {
                method: "get_new_msgs"@,
                args: Seq::empty(),
                wait: Wait::Usual,
            }),
    {
        let args: Vec<Json> = Vec::new();
        assert(json_views(args@) =~= Seq::empty());
        Call { method: own("get_new_msgs"), args, wait: Wait::Usual }
    }

    /// The call that asks a language model.
    pub fn query_llm(req: LlmRequest) -> (res: Call)
        ensures
            res@ == (CallView {
                method: "query_llm"@,
                args: seq![
                    req.model@,
                    JsonView::Str(req.prompt@),
                    JsonView::Array(json_views(req.images@)),
                    req.options@,
                ],
                wait: Wait::Model(model_seconds(req.options@)),
            }),
    {
        let mut args: Vec<Json> = Vec::new();
        let ghost r = req;
        let seconds = read_model_seconds(&req.options);
        args.push(req.model);
        args.push(Json::Str(req.prompt));
        args.push(Json::array(req.images));
        args.push(req.options);
        assert(json_views(args@) =~= seq![
            r.model@,
            JsonView::Str(r.prompt@),
            JsonView::Array(json_views(r.images@)),
            r.options@,
        ]);
        Call { method: own("query_llm"), args, wait: Wait::Model(seconds) }
    }

    /// The call for the vectors of texts.
    pub fn query_embeddings(texts: &Vec<String>, model_name: &str) -> (res: Call)
        ensures
            res@ == (CallView {
                method: "query_embedding"@,
                args: seq![
                    JsonView::Array(text_values(views(texts@))),
                    JsonView::Str(model_name@),
                ],
                wait: Wait::Given(Real { bits: SIXTY_BITS }),
            }),
    {
        let mut args: Vec<Json> = Vec::new();
        args.push(Json::texts(texts));
        args.push(Json::str(model_name));
        assert(json_views(args@) =~= seq![
            JsonView::Array(text_values(views(texts@))),
            JsonView::Str(model_name@),
        ]);
        Call { method: own("query_embedding"), args, wait: Wait::Given(Real { bits: SIXTY_BITS }) }
    }
}

/// A question to a language model.
#[derive(Debug)]
pub struct LlmRequest {
    pub model: Json,
    pub prompt: String,
    pub images: Vec<Json>,
    pub options: Json,
}

/// The options of a question: how long to wait, and how long an answer may be.
pub open spec fn llm_options(timeout: JsonView, max_tokens: i64) -> JsonView {
    JsonView::Object(seq![("max_tokens"@, int_value(max_tokens)), ("timeout"@, timeout)])
}

/// The options of a question: how long to wait, and how long an answer may be.
pub fn make_llm_options(timeout: Json, max_tokens: i64) -> (res: Json)
    ensures
        res@ == llm_options(timeout@, max_tokens),
{
    let mut entries: Vec<(String, Json)> = Vec::new();
    let ghost t = timeout@;
    entries.push((own("max_tokens"), Json::integer(max_tokens)));
    entries.push((own("timeout"), timeout));
    assert(entry_views(entries@) =~= llm_options(t, max_tokens)->Object_0);
    Json::object(entries)
}

/// The address of the main program.
pub fn server_url(cfg: &Config) -> (res: String)
    ensures
        cfg.readable("rpc.host"@) ==> res@ == "ws://"@ + cfg.text_or("rpc.host"@, "127.0.0.1"@)
            + ":"@ + int_text(cfg.int_at("rpc.port"@, 555) as int),
{
    let host = cfg.str_or("rpc.host", "127.0.0.1");
    let mut out = own("ws://");
    out.append(host.as_str());
    out.append(":");
    let port = signed_text(cfg.i64_or("rpc.port", 555));
    out.append(port.as_str());
    out
}

/// The model that the configuration names under a key, as JSON.
pub open spec fn model_at(cfg: Config, key: Seq<char>) -> YamlView {
    match cfg.lookup(key) {
        Some(v) => v,
        None => YamlView::Null,
    }
}

/// The model that the configuration names under a key, as JSON.
pub fn cfg_model(cfg: &Config, key: &str) -> (res: Json)
    ensures
        cfg.convertible(key@) ==> res@ == model_at(*cfg, key@).json(),
{
    yaml_to_json(cfg.get(key))
}

/// A reply answers a call once: the same reply again finds nobody waiting.
pub proof fn law_reply_answers_once(awaiting: Set<i64>, v: JsonView)
    ensures
        on_value(on_value(awaiting, v).0, v).1 is None,
        on_value(on_value(awaiting, v).0, v).0 == on_value(awaiting, v).0,
{
    match reply_to(v) {
        Some(r) => {
            assert(awaiting.remove(r.0).remove(r.0) =~= awaiting.remove(r.0));
        },
        None => {},
    }
}

/// A reply to a call that nobody waits for changes nothing, and every other call waits on.
pub proof fn law_reply_leaves_others(awaiting: Set<i64>, v: JsonView, other: i64)
    ensures
        reply_to(v) matches Some(r) ==> (!awaiting.contains(r.0) ==> on_value(awaiting, v) == (
            awaiting,
            None::<(i64, Result<JsonView, RpcErrorView>)>,
        )),
        (reply_to(v) matches Some(r) ==> r.0 != other) ==> on_value(awaiting, v).0.contains(other)
            == awaiting.contains(other),
{
    match reply_to(v) {
        Some(r) => {
            if !awaiting.contains(r.0) {
                assert(awaiting.remove(r.0) =~= awaiting);
            }
        },
        None => {},
    }
}

/// A reply with the number of a call that waits gives it the result, and the call waits no more.
pub proof fn law_reply_reaches_its_call(awaiting: Set<i64>, id: i64, result: JsonView)
    requires
        awaiting.contains(id),
    ensures
        on_value(
            awaiting,
            JsonView::Object(seq![("id"@, int_value(id)), ("result"@, result)]),
        ) == (awaiting.remove(id), Some((id, Ok::<JsonView, RpcErrorView>(result)))),
{
    let v = JsonView::Object(seq![("id"@, int_value(id)), ("result"@, result)]);
    let entries = v->Object_0;
    reveal_strlit("id");
    reveal_strlit("result");
    reveal_strlit("error");
    assert("id"@.len() == 2 && "result"@.len() == 6 && "error"@.len() == 5);
    reveal_with_fuel(crate::json::lookup, 4);
    assert(entries.skip(1)[0] == entries[1]);
    assert(v.get("id"@) == Some(int_value(id)));
    assert(v.get("error"@) is None);
    assert(v.get("result"@) == Some(result));
}

proof fn lemma_numbers_given(s: SessionView, events: Seq<Event>)
    ensures
        numbers_given(s, events).len() <= events.len(),
        after_all(s, events).next_id == number_after(
            s.next_id,
            numbers_given(s, events).len() as int,
        ),
        forall|i: int|
            0 <= i < numbers_given(s, events).len() ==> #[trigger] numbers_given(s, events)[i]
                == number_after(s.next_id, i),
    decreases events.len(),
{
    if events.len() > 0 {
        let front = events.drop_last();
        lemma_numbers_given(s, front);
        let given = numbers_given(s, events);
        assert forall|i: int| 0 <= i < given.len() implies #[trigger] given[i] == number_after(
            s.next_id,
            i,
        ) by {
            if i < numbers_given(s, front).len() {
                assert(given[i] == numbers_given(s, front)[i]);
            }
        }
    }
}

/// Whatever happens to a connection, its calls get numbers of their own: no two of them have the same,
/// as long as they are no more than two to the power of 64.
pub proof fn law_calls_have_numbers_of_their_own(s: SessionView, events: Seq<Event>)
    requires
        numbers_given(s, events).len() <= 0x1_0000_0000_0000_0000,
    ensures
        numbers_given(s, events).no_duplicates(),
        forall|i: int|
            0 <= i < numbers_given(s, events).len() ==> #[trigger] numbers_given(s, events)[i]
                == number_after(s.next_id, i),
{
    lemma_numbers_given(s, events);
    let given = numbers_given(s, events);
    assert forall|i: int, j: int| 0 <= i < given.len() && 0 <= j < given.len() && i
        != j implies given[i] != given[j] by {
        assert(given[i] == number_after(s.next_id, i));
        assert(given[j] == number_after(s.next_id, j));
    }
}

/// Whether something that happens ends the waiting for a call: its reply, its time being up, or the
/// end of the connection.
pub open spec fn decides(e: Event, id: i64) -> bool {
    match e {
        Event::Disconnect => true,
        Event::SendFailed(_) => true,
        Event::TimedOut(other) => other == id,
        Event::Value(v) => reply_to(v) matches Some(r) && r.0 == id,
        _ => false,
    }
}

/// Only its own reply, its time being up or the end of the connection ends the waiting for a call:
/// whatever else happens, it waits on, and its reply then gives it the answer.
pub proof fn law_only_its_reply_decides(s: SessionView, events: Seq<Event>, id: i64, v: JsonView)
    requires
        s.awaiting.contains(id),
        forall|i: int| 0 <= i < events.len() ==> !decides(#[trigger] events[i], id),
    ensures
        after_all(s, events).awaiting.contains(id),
        reply_to(v) matches Some(r) ==> r.0 == id ==> on_value(
            after_all(s, events).awaiting,
            v,
        ).1 == Some(r),
    decreases events.len(),
{
    if events.len() > 0 {
        let front = events.drop_last();
        assert forall|i: int| 0 <= i < front.len() implies !decides(#[trigger] front[i], id) by {
            assert(front[i] == events[i]);
        }
        law_only_its_reply_decides(s, front, id, v);
        assert(!decides(events[events.len() - 1], id));
    }
}

/// A request tells its number, the version of the protocol, the method, and as parameters first the token
/// and then the arguments.
pub proof fn law_request_holds_the_call(id: i64, token: Seq<char>, call: CallView, i: int)
    requires
        0 <= i < call.args.len(),
    ensures
        ({
            let r = request(id, token, call);
            &&& r.get("id"@) == Some(int_value(id))
            &&& r.get_str("jsonrpc"@) == Some("2.0"@)
            &&& r.get_str("method"@) == Some(call.method)
            &&& r.get("params"@) matches Some(JsonView::Array(params)) && {
                &&& params.len() == call.args.len() + 1
                &&& params[0] == JsonView::Str(token)
                &&& params[i + 1] == call.args[i]
            }
        }),
{
    reveal_strlit("id");
    reveal_strlit("jsonrpc");
    reveal_strlit("method");
    reveal_strlit("params");
    assert("id"@.len() == 2 && "jsonrpc"@.len() == 7 && "method"@.len() == 6);
    assert("method"@[0] == 'm' && "params"@[0] == 'p');
    let r = request(id, token, call);
    let entries = r->Object_0;
    crate::json::law_lookup_finds_the_first(r, entries, "id"@, 0);
    crate::json::law_lookup_finds_the_first(r, entries, "jsonrpc"@, 1);
    crate::json::law_lookup_finds_the_first(r, entries, "method"@, 2);
    crate::json::law_lookup_finds_the_first(r, entries, "params"@, 3);
}

/// A reply is for the call whose integer number it holds. Where it holds an error that is the answer, by
/// its message if it has one; else the result is, or nothing.
pub proof fn law_replies_are_read(v: JsonView, id: i64, err: JsonView, result: JsonView)
    ensures
        v.get("id"@) is None ==> reply_to(v) is None,
        v.get("id"@) is Some && !(v.get("id"@)->0 is Number) ==> reply_to(v) is None,
        v.get("id"@) matches Some(JsonView::Number(n)) ==> !(n is Int) ==> reply_to(v) is None,
        v.get("id"@) == Some(int_value(id)) && v.get("error"@) == Some(err) && err.get_str(
            "message"@,
        ) is Some ==> reply_to(v) == Some(
            (
                id,
                Err::<JsonView, RpcErrorView>(RpcErrorView::Remote(err.get_str("message"@)->0)),
            ),
        ),
        v.get("id"@) == Some(int_value(id)) && v.get("error"@) == Some(err) && err.get_str(
            "message"@,
        ) is None ==> reply_to(v) == Some(
            (
                id,
                Err::<JsonView, RpcErrorView>(RpcErrorView::Remote(err.canonical().written())),
            ),
        ),
        v.get("id"@) == Some(int_value(id)) && v.get("error"@) is None && v.get("result"@) == Some(
            result,
        ) ==> reply_to(v) == Some((id, Ok::<JsonView, RpcErrorView>(result))),
        v.get("id"@) == Some(int_value(id)) && v.get("error"@) is None && v.get("result"@) is None
            ==> reply_to(v) == Some((id, Ok::<JsonView, RpcErrorView>(JsonView::Null))),
{
}

/// What each event does to the calls that are waited for: a call is waited for from when it is made while
/// connected; a lost connection ends all; a call that takes too long, and one that is answered, ends
/// alone. Only connecting and losing the connection change whether there is one.
pub proof fn law_what_is_waited_for(s: SessionView, id: i64, other: i64, v: JsonView)
    ensures
        after(s, Event::Connect).connected,
        after(s, Event::Connect).awaiting == s.awaiting,
        !after(s, Event::Disconnect).connected,
        !after(s, Event::Disconnect).awaiting.contains(id),
        !after(s, Event::SendFailed(other)).connected,
        !after(s, Event::SendFailed(other)).awaiting.contains(id),
        !s.connected ==> after(s, Event::Call) == s,
        s.connected ==> after(s, Event::Call).connected && after(s, Event::Call).awaiting.contains(id)
            == (id == s.next_id || s.awaiting.contains(id)),
        s.connected && s.next_id < i64::MAX ==> after(s, Event::Call).next_id == s.next_id + 1,
        after(s, Event::TimedOut(other)).awaiting.contains(id) == (id != other
            && s.awaiting.contains(id)),
        after(s, Event::TimedOut(other)).connected == s.connected,
        after(s, Event::Value(v)).connected == s.connected,
        after(s, Event::Value(v)).awaiting.contains(id) == (s.awaiting.contains(id) && !(reply_to(v)
            is Some && (reply_to(v)->0).0 == id)),
{
}

/// How long an answer is waited for: what the options say where they say a number, else three hundred
/// seconds; and what the settings say for a usual call, else five.
pub proof fn law_how_long_is_waited(options: JsonView, cfg: Config, x: Real)
    ensures
        options.get("timeout"@) is Some && options.get("timeout"@)->0.as_real() == Some(x)
            ==> model_seconds(options) == x,
        options.get("timeout"@) is None || options.get("timeout"@)->0.as_real() is None
            ==> model_seconds(options) == (Real { bits: 0x4072_c000_0000_0000 }),
        Wait::Usual.base_seconds(cfg) == cfg.real_at(
            "rpc.default_timeout"@,
            (Real { bits: 0x4014_0000_0000_0000 }),
        ),
        Wait::Given(x).base_seconds(cfg) == x,
        Wait::Model(x).base_seconds(cfg) == x,
{
}

/// The options of a question hold the most tokens and the time to wait.
pub proof fn law_options_of_a_question(timeout: JsonView, max_tokens: i64)
    ensures
        llm_options(timeout, max_tokens).get("max_tokens"@) == Some(int_value(max_tokens)),
        llm_options(timeout, max_tokens).get("timeout"@) == Some(timeout),
{
    reveal_strlit("max_tokens");
    reveal_strlit("timeout");
    assert("max_tokens"@.len() == 10 && "timeout"@.len() == 7);
    let o = llm_options(timeout, max_tokens);
    let entries = o->Object_0;
    crate::json::law_lookup_finds_the_first(o, entries, "max_tokens"@, 0);
    crate::json::law_lookup_finds_the_first(o, entries, "timeout"@, 1);
}

/// Each error is told in its own words, one from afar with what was said there.
pub proof fn law_errors_are_told(s: Seq<char>)
    ensures
        RpcErrorView::NotConnected.message() == "RPC未连接"@,
        RpcErrorView::Closed.message() == "RPC连接已关闭"@,
        RpcErrorView::Timeout.message() == "RPC请求超时"@,
        RpcErrorView::Remote(s).message() == "RPC请求错误: "@ + s,
        RpcErrorView::Other(s).message() == s,
{
}

/// The model is the one that the settings name, and nothing where they name none.
pub proof fn law_model_is_configured(cfg: Config, key: Seq<char>, v: YamlView)
    ensures
        cfg.lookup(key) == Some(v) ==> model_at(cfg, key) == v,
        cfg.lookup(key) is None ==> model_at(cfg, key) is Null,
{
}

/// The time that calls may take and that is waited: five, sixty and three hundred seconds, and a tenth.
pub proof fn law_usual_waits()
    ensures
        FIVE_BITS == 0x4014_0000_0000_0000,
        SIXTY_BITS == 0x404e_0000_0000_0000,
        THREE_HUNDRED_BITS == 0x4072_c000_0000_0000,
        TENTH_BITS == 0x3fb9_9999_9999_999a,
{
}

} // verus!
