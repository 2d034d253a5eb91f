//! Messages as text for the language model, with captions for the pictures and a summary.

use crate::config::{filled, python_format, var_views, Config, FormatError, FormatErrorView};
use crate::filedb::{stored, with_value, FileDb};
use crate::json::{json_of_text, json_views, num_real, Json, JsonView, NumView};
use crate::log::configured_level;
use crate::number::Real;
use crate::order::{
    law_ranking_down_ignores_arrival, law_ranking_down_is_in_order, law_ranking_down_is_permutation,
    rank_down, ranking_down, rearranges,
};
use crate::rpc::{cfg_model, llm_options, make_llm_options, model_at, LlmRequest};
use crate::text::{
    int_text, join, joined, own, replace, replaced, same, signed_text, to_ascii_upper, trim,
    trimmed, views,
};
use crate::types::{
    member_int, message_views, person_label, poke_person_label, Message, MessageView,
};
use crate::util::{truncate, truncated};
use crate::select::{lemma_selected_next, lemma_selected_none, selected};
use vstd::prelude::*;
use vstd::string::*;

verus! {

/// Whether the configuration asks for all that helps to find faults.
pub fn debug_mode(cfg: &Config) -> (res: bool)
    ensures
        cfg.readable("log_level"@) ==> res == (configured_level(*cfg) == "DEBUG"@),
{
    let level = cfg.str_or("log_level", "INFO");
    let upper = to_ascii_upper(level.as_str());
    same(upper.as_str(), "DEBUG")
}

/// The details of a shared card, where the value holds any.
pub open spec fn card_detail(data: JsonView) -> Option<JsonView> {
    match data.get_str("data"@) {
        Some(raw) => match json_of_text(raw) {
            Some(parsed) => match parsed.get("meta"@) {
                Some(meta) => meta.get("detail_1"@),
                None => None,
            },
            None => None,
        },
        None => None,
    }
}

/// A shared card in words: its title and the beginning of its description, or its prompt, or just that
/// there is one.
pub open spec fn card_text(data: JsonView) -> Seq<char> {
    match card_detail(data) {
        Some(detail) => "["@ + detail.str_or_empty("title"@) + "分享:"@ + truncated(
            detail.str_or_empty("desc"@),
            32,
        ) + "]"@,
        None => match data.get_str("prompt"@) {
            Some(prompt) => "[转发消息:"@ + prompt + "]"@,
            None => "[转发消息]"@,
        },
    }
}

fn find_detail(data: &Json) -> (res: Option<Json>)
    ensures
        match res {
            Some(d) => card_detail(data@) == Some(d@),
            None => card_detail(data@) is None,
        },
{
    match data.get_str("data") {
        Some(raw) => match Json::parse(raw) {
            Some(parsed) => match parsed.get("meta") {
                Some(meta) => match meta.get("detail_1") {
                    Some(d) => Some(d.copy()),
                    None => None,
                },
                None => None,
            },
            None => None,
        },
        None => None,
    }
}

/// A shared card in words.
pub fn json_msg_to_readable_text(data: &Json) -> (res: String)
    ensures
        res@ == card_text(data@),
{
    match find_detail(data) {
        Some(detail) => {
            let mut out = own("[");
            let title = detail.str_or_empty("title");
            let desc = detail.str_or_empty("desc");
            let short = truncate(desc.as_str(), 32);
            out.append(title.as_str());
            out.append("分享:");
            out.append(short.as_str());
            out.append("]");
            out
        },
        None => match data.get_str("prompt") {
            Some(prompt) => {
                let mut out = own("[转发消息:");
                out.append(prompt);
                out.append("]");
                out
            },
            None => own("[转发消息]"),
        },
    }
}

/// Whether a picture is an emotion, and not an ordinary one.
pub open spec fn is_emotion(data: JsonView) -> bool {
    member_int(data, "sub_type"@) != 0
}

/// What a picture is called.
pub open spec fn picture_name(data: JsonView) -> Seq<char> {
    if is_emotion(data) {
        "表情"@
    } else {
        "图片"@
    }
}

/// A picture with what is to be seen in it.
pub open spec fn captioned(data: JsonView, caption: Seq<char>) -> Seq<char> {
    "["@ + picture_name(data) + ":"@ + caption + "]"@
}

/// A picture of which nothing is known but what its sender says.
pub open spec fn uncaptioned(data: JsonView) -> Seq<char> {
    let summary = data.str_or_empty("summary"@);
    if summary.len() == 0 {
        "["@ + picture_name(data) + "]"@
    } else {
        captioned(data, summary)
    }
}

/// The caption that is kept for a picture, where there is one.
pub open spec fn kept_caption(db: JsonView, data: JsonView) -> Option<Seq<char>> {
    let key = data.str_or_empty("file_unique"@);
    if key.len() == 0 {
        None
    } else {
        stored(db, key).as_str()
    }
}

fn sub_type_of(data: &Json) -> (res: i64)
    ensures
        res == member_int(data@, "sub_type"@),
{
    match data.get("sub_type") {
        Some(v) => match v.to_int() {
            Some(i) => i,
            None => 0,
        },
        None => 0,
    }
}

/// Whether a picture is an emotion, and not an ordinary one.
pub fn picture_is_emotion(data: &Json) -> (res: bool)
    ensures
        res == is_emotion(data@),
{
    sub_type_of(data) != 0
}

fn name_picture(data: &Json) -> (res: &'static str)
    ensures
        res@ == picture_name(data@),
{
    if sub_type_of(data) == 0 {
        "图片"
    } else {
        "表情"
    }
}

fn write_caption(data: &Json, caption: &str) -> (res: String)
    ensures
        res@ == captioned(data@, caption@),
{
    let mut out = own("[");
    out.append(name_picture(data));
    out.append(":");
    out.append(caption);
    out.append("]");
    out
}

fn write_uncaptioned(data: &Json) -> (res: String)
    ensures
        res@ == uncaptioned(data@),
{
    let summary = data.str_or_empty("summary");
    if summary.as_str().is_empty() {
        let mut out = own("[");
        out.append(name_picture(data));
        out.append("]");
        out
    } else {
        write_caption(data, summary.as_str())
    }
}

/// The question for what is to be seen in a picture: the template filled in, or where that fails with
/// the name of the picture put in by hand.
pub open spec fn caption_prompt(template: Seq<char>, data: JsonView) -> Seq<char> {
    match filled(template, seq![("sub_type"@, picture_name(data))]) {
        Ok(p) => p,
        Err(_) => replaced(template, "{sub_type}"@, picture_name(data)),
    }
}

/// The pictures that go with the question: the one that the value points to, where it points to one.
pub open spec fn caption_images(data: JsonView) -> Seq<JsonView> {
    match data.get("url"@) {
        Some(JsonView::Null) => Seq::empty(),
        Some(url) => seq![url],
        None => Seq::empty(),
    }
}

/// What is to be done for the caption of a picture.
#[derive(Debug)]
pub enum CaptionStep {
    /// The picture in words.
    Done(String),
    /// A model is to be asked.
    Ask(LlmRequest),
}

/// What is to be done for the caption of a picture: a caption that is kept is taken, else a model is
/// asked where it may be, and else the picture goes without.
pub fn get_image_caption(cfg: &Config, db: &FileDb, data: &Json, use_llm: bool) -> (res: CaptionStep)
    ensures
        match kept_caption(db.data@, data@) {
            Some(c) => res matches CaptionStep::Done(s) && s@ == captioned(data@, c),
            None => if use_llm {
                res matches CaptionStep::Ask(r) && (cfg.readable("image_caption.prompt"@)
                    && cfg.convertible("image_caption.model"@) ==> {
                    &&& r.model@ == model_at(*cfg, "image_caption.model"@).json()
                    &&& r.prompt@ == caption_prompt(cfg.text_at("image_caption.prompt"@), data@)
                    &&& json_views(r.images@) == caption_images(data@)
                    &&& r.options@ == llm_options(
                        cfg.float_at("image_caption.timeout"@, 60),
                        cfg.int_at("image_caption.max_tokens"@, 2048),
                    )
                })
            } else {
                res matches CaptionStep::Done(s) && s@ == uncaptioned(data@)
            },
        },
{
    let key = data.str_or_empty("file_unique");
    if !key.as_str().is_empty() {
        let cache = db.get(key.as_str());
        match cache.as_str() {
            Some(c) => {
                return CaptionStep::Done(write_caption(data, c));
            },
            None => {},
        }
    }
    if !use_llm {
        return CaptionStep::Done(write_uncaptioned(data));
    }
    let template = cfg.str("image_caption.prompt");
    let name = name_picture(data);
    let mut vars: Vec<(String, String)> = Vec::new();
    vars.push((own("sub_type"), own(name)));
    assert(var_views(vars@) =~= seq![("sub_type"@, picture_name(data@))]);
    let prompt = match python_format(template.as_str(), &vars) {
        Ok(p) => p,
        Err(_) => {
            proof {
                reveal_strlit("{sub_type}");
            }
            replace(template.as_str(), "{sub_type}", name)
        },
    };
    let mut images: Vec<Json> = Vec::new();
    match data.get("url") {
        Some(url) => {
            if !url.is_null() {
                images.push(url.copy());
            }
        },
        None => {},
    }
    assert(json_views(images@) =~= caption_images(data@));
    let options = make_llm_options(
        cfg.float_or("image_caption.timeout", 60),
        cfg.i64_or("image_caption.max_tokens", 2048),
    );
    CaptionStep::Ask(
        LlmRequest { model: cfg_model(cfg, "image_caption.model"), prompt, images, options },
    )
}

/// The words of an answer that has to be a text; nothing where it is none.
pub open spec fn answer_text(reply: JsonView) -> Seq<char> {
    match reply {
        JsonView::Str(s) => s,
        _ => Seq::empty(),
    }
}

/// The picture in words once a model has answered, or has failed: the answer, where it says anything,
/// which is then kept for the next time.
pub fn caption_outcome(db: &mut FileDb, data: &Json, reply: Option<&Json>) -> (res: String)
    ensures
        ({
            let caption = match reply {
                Some(r) => answer_text(r@),
                None => Seq::empty(),
            };
            let key = data@.str_or_empty("file_unique"@);
            if caption.len() == 0 {
                res@ == uncaptioned(data@) && *final(db) == *old(db)
            } else {
                &&& res@ == captioned(data@, caption)
                &&& final(db).data@ == if key.len() == 0 {
                    old(db).data@
                } else {
                    with_value(old(db).data@, key, JsonView::Str(caption))
                }
            }
        }),
{
    let caption = match reply {
        Some(Json::Str(s)) => own(s.as_str()),
        _ => String::new(),
    };
    assert(caption@ =~= match reply {
        Some(r) => answer_text(r@),
        None => Seq::empty(),
    });
    if caption.as_str().is_empty() {
        return write_uncaptioned(data);
    }
    let key = data.str_or_empty("file_unique");
    if !key.as_str().is_empty() {
        db.set(key.as_str(), Json::str(caption.as_str()));
    }
    write_caption(data, caption.as_str())
}

/// A caption that a model gave is found the next time, and no model is asked again.
pub proof fn law_caption_is_kept(db: JsonView, data: JsonView, caption: Seq<char>)
    requires
        data.str_or_empty("file_unique"@).len() > 0,
    ensures
        kept_caption(
            with_value(db, data.str_or_empty("file_unique"@), JsonView::Str(caption)),
            data,
        ) == Some(caption),
{
    let key = data.str_or_empty("file_unique"@);
    crate::filedb::law_get_after_set(db, key, JsonView::Str(caption), key);
}

/// How many pictures of each kind had their caption so far.
#[derive(Clone, Copy, Debug, PartialEq, Eq, Structural)]
pub struct CaptionCount {
    pub images: u32,
    pub emotions: u32,
}

/// For how many pictures a model may be asked, and how likely that is for each.
#[derive(Clone, Copy, Debug)]
pub struct CaptionLimits {
    pub image_limit: Real,
    pub image_prob: Real,
    pub emotion_limit: Real,
    pub emotion_prob: Real,
}

/// Whether a model may be asked for one more picture after so many: there are fewer than the limit,
/// and the lot is below the probability.
pub open spec fn may_ask(count: u32, limit: Real, lot: Real, prob: Real) -> bool {
    num_real(NumView::Int(count as i64)).less(limit) && lot.less(prob)
}

fn below(count: u32, limit: Real) -> (res: bool)
    ensures
        res == num_real(NumView::Int(count as i64)).less(limit),
{
    match Json::integer(count as i64).as_real() {
        Some(n) => n.lt(limit),
        None => false,
    }
}

impl CaptionCount {
    /// Counts one more picture; says whether a model may be asked for its caption.
    pub fn use_llm(&mut self, limits: &CaptionLimits, data: &Json, lot: Real) -> (res: bool)
        requires
            old(self).images < u32::MAX,
            old(self).emotions < u32::MAX,
        ensures
            is_emotion(data@) ==> {
                &&& res == may_ask(old(self).emotions, limits.emotion_limit, lot, limits.emotion_prob)
                &&& *final(self) == (CaptionCount {
                    images: old(self).images,
                    emotions: (old(self).emotions + 1) as u32,
                })
            },
            !is_emotion(data@) ==> {
                &&& res == may_ask(old(self).images, limits.image_limit, lot, limits.image_prob)
                &&& *final(self) == (CaptionCount {
                    images: (old(self).images + 1) as u32,
                    emotions: old(self).emotions,
                })
            },
    {
        if picture_is_emotion(data) {
            let ask = below(self.emotions, limits.emotion_limit) && lot.lt(limits.emotion_prob);
            self.emotions = self.emotions + 1;
            ask
        } else {
            let ask = below(self.images, limits.image_limit) && lot.lt(limits.image_prob);
            self.images = self.images + 1;
            ask
        }
    }
}

/// What a segment is about; an empty object where it does not say.
pub open spec fn segment_data(seg: JsonView) -> JsonView {
    match seg.get("data"@) {
        Some(d) => d,
        None => JsonView::Object(Seq::empty()),
    }
}

/// The kind of a segment.
pub open spec fn segment_kind(seg: JsonView) -> Seq<char> {
    seg.str_or_empty("type"@)
}

/// A value as it is: a text itself, of any other value its JSON text; nothing where there is none.
pub open spec fn raw_text(v: Option<JsonView>) -> Seq<char> {
    match v {
        Some(JsonView::Str(s)) => s,
        Some(w) => w.canonical().written(),
        None => Seq::empty(),
    }
}

/// How many of the segments are pictures.
pub open spec fn image_count(segs: Seq<JsonView>) -> nat
    decreases segs.len(),
{
    if segs.len() == 0 {
        0
    } else if segment_kind(segs.last()) == "image"@ {
        image_count(segs.drop_last()) + 1
    } else {
        image_count(segs.drop_last())
    }
}

/// A poke in words.
pub open spec fn poke_text(
    msg: MessageView,
    data: JsonView,
    stamp: Seq<char>,
    self_id: i64,
) -> Seq<char> {
    let target = member_int(data, "target_id"@);
    let name = match data.get_str("target_name"@) {
        Some(n) => n,
        None => int_text(target as int),
    };
    stamp + " "@ + person_label(msg.user_id, msg.nickname, self_id) + " 戳了戳 "@ + person_label(
        target,
        name,
        self_id,
    )
}

/// What a segment adds to the text of its message.
pub open spec fn segment_text(seg: JsonView, caption: Seq<char>) -> Seq<char> {
    let data = segment_data(seg);
    let kind = segment_kind(seg);
    if kind == "text"@ {
        data.str_or_empty("text"@)
    } else if kind == "face"@ {
        "[表情]"@
    } else if kind == "video"@ {
        "[视频]"@
    } else if kind == "audio"@ {
        "[音频]"@
    } else if kind == "file"@ {
        "[文件]"@
    } else if kind == "at"@ {
        "[@"@ + raw_text(data.get("qq"@)) + "]"@
    } else if kind == "reply"@ {
        "[reply="@ + raw_text(data.get("id"@)) + "]"@
    } else if kind == "forward"@ {
        "[转发聊天记录]"@
    } else if kind == "json"@ {
        card_text(data)
    } else if kind == "image"@ {
        caption
    } else {
        Seq::empty()
    }
}

/// The line with which the text of a message begins.
pub open spec fn message_head(msg: MessageView, stamp: Seq<char>) -> Seq<char> {
    stamp + " ["@ + int_text(msg.msg_id as int) + "] "@ + msg.nickname + "("@ + int_text(
        msg.user_id as int,
    ) + "):\n"@
}

/// The text of a message as far as these segments: a poke takes the place of all before it, and each
/// picture comes with its caption.
pub open spec fn segments_text(
    msg: MessageView,
    segs: Seq<JsonView>,
    stamp: Seq<char>,
    captions: Seq<Seq<char>>,
    self_id: i64,
) -> Seq<char>
    decreases segs.len(),
{
    if segs.len() == 0 {
        message_head(msg, stamp)
    } else {
        let front = segs.drop_last();
        if segment_kind(segs.last()) == "poke"@ {
            poke_text(msg, segment_data(segs.last()), stamp, self_id)
        } else {
            segments_text(msg, front, stamp, captions, self_id) + segment_text(
                segs.last(),
                captions[image_count(front) as int],
            )
        }
    }
}

/// The text of a message, without the space around it.
pub open spec fn message_text(
    msg: MessageView,
    stamp: Seq<char>,
    captions: Seq<Seq<char>>,
    self_id: i64,
) -> Seq<char> {
    trimmed(segments_text(msg, msg.msg, stamp, captions, self_id))
}

fn data_of(seg: &Json) -> (res: Json)
    ensures
        res@ == segment_data(seg@),
{
    match seg.get("data") {
        Some(d) => d.copy(),
        None => {
            let entries: Vec<(String, Json)> = Vec::new();
            assert(crate::json::entry_views(entries@) =~= Seq::empty());
            Json::object(entries)
        },
    }
}

fn write_raw(v: Option<&Json>) -> (res: String)
    ensures
        res@ == raw_text(match v {
            Some(w) => Some(w@),
            None => None,
        }),
{
    match v {
        Some(w) => match w.as_str() {
            Some(s) => own(s),
            None => w.text(),
        },
        None => {
            let s = String::new();
            assert(s@ =~= Seq::empty());
            s
        },
    }
}

fn write_poke(msg: &Message, data: &Json, stamp: &str, self_id: i64) -> (res: String)
    ensures
        res@ == poke_text(msg@, data@, stamp@, self_id),
{
    let target = match data.get("target_id") {
        Some(v) => match v.to_int() {
            Some(i) => i,
            None => 0,
        },
        None => 0,
    };
    let name = match data.get_str("target_name") {
        Some(n) => own(n),
        None => signed_text(target),
    };
    let from = poke_person_label(msg.user_id, msg.nickname.as_str(), self_id);
    let to = poke_person_label(target, name.as_str(), self_id);
    let mut out = own(stamp);
    out.append(" ");
    out.append(from.as_str());
    out.append(" 戳了戳 ");
    out.append(to.as_str());
    out
}

fn write_segment(kind: &str, data: &Json, caption: &str, seg: Ghost<JsonView>) -> (res: String)
    requires
        kind@ == segment_kind(seg@),
        data@ == segment_data(seg@),
    ensures
        res@ == segment_text(seg@, caption@),
{
    if same(kind, "text") {
        data.str_or_empty("text")
    } else if same(kind, "face") {
        own("[表情]")
    } else if same(kind, "video") {
        own("[视频]")
    } else if same(kind, "audio") {
        own("[音频]")
    } else if same(kind, "file") {
        own("[文件]")
    } else if same(kind, "at") {
        let mut out = own("[@");
        let qq = write_raw(data.get("qq"));
        out.append(qq.as_str());
        out.append("]");
        out
    } else if same(kind, "reply") {
        let mut out = own("[reply=");
        let id = write_raw(data.get("id"));
        out.append(id.as_str());
        out.append("]");
        out
    } else if same(kind, "forward") {
        own("[转发聊天记录]")
    } else if same(kind, "json") {
        json_msg_to_readable_text(data)
    } else if same(kind, "image") {
        own(caption)
    } else {
        let s = String::new();
        assert(s@ =~= Seq::empty());
        s
    }
}

fn write_head(msg: &Message, stamp: &str) -> (res: String)
    ensures
        res@ == message_head(msg@, stamp@),
{
    let mut out = own(stamp);
    out.append(" [");
    let id = signed_text(msg.msg_id);
    out.append(id.as_str());
    out.append("] ");
    out.append(msg.nickname.as_str());
    out.append("(");
    let uid = signed_text(msg.user_id);
    out.append(uid.as_str());
    out.append("):\n");
    out
}

/// The pictures of a message: what each of them is about.
pub open spec fn image_data(segs: Seq<JsonView>) -> Seq<JsonView>
    decreases segs.len(),
{
    if segs.len() == 0 {
        Seq::empty()
    } else if segment_kind(segs.last()) == "image"@ {
        image_data(segs.drop_last()).push(segment_data(segs.last()))
    } else {
        image_data(segs.drop_last())
    }
}

/// The pictures of a message: what each of them is about.
pub fn message_images(msg: &Message) -> (res: Vec<Json>)
    ensures
        json_views(res@) == image_data(msg@.msg),
        res@.len() == image_count(msg@.msg),
{
    let ghost segs = msg@.msg;
    let mut out: Vec<Json> = Vec::new();
    let mut i: usize = 0;
    assert(json_views(out@) =~= Seq::empty());
    while i < msg.msg.len()
        invariant
            segs == json_views(msg.msg@),
            i <= msg.msg@.len(),
            json_views(out@) == image_data(segs.take(i as int)),
            out@.len() == image_count(segs.take(i as int)),
        decreases msg.msg@.len() - i,
    {
        assert(segs.take(i + 1).drop_last() == segs.take(i as int));
        let kind = msg.msg[i].str_or_empty("type");
        if same(kind.as_str(), "image") {
            let ghost before = out@;
            let d = data_of(&msg.msg[i]);
            out.push(d);
            assert(json_views(out@) =~= json_views(before).push(d@));
        }
        i += 1;
    }
    assert(segs.take(i as int) == segs);
    out
}

/// The text of a message. `stamp` is its time as it is shown, and `captions` holds one caption for
/// each of its pictures.
pub fn format_msg(msg: &Message, stamp: &str, captions: &Vec<String>, self_id: i64) -> (res: String)
    requires
        captions@.len() == image_count(msg@.msg),
    ensures
        res@ == message_text(msg@, stamp@, views(captions@), self_id),
{
    let ghost segs = msg@.msg;
    let ghost caps = views(captions@);
    let mut text = write_head(msg, stamp);
    let total = captions.len();
    let mut k: usize = 0;
    let mut i: usize = 0;
    while i < msg.msg.len()
        invariant
            segs == json_views(msg.msg@),
            caps == views(captions@),
            captions@.len() == image_count(segs),
            total == captions@.len(),
            i <= msg.msg@.len(),
            k == image_count(segs.take(i as int)),
            text@ == segments_text(msg@, segs.take(i as int), stamp@, caps, self_id),
        decreases msg.msg@.len() - i,
    {
        let ghost front = segs.take(i as int);
        assert(segs.take(i + 1).drop_last() == front);
        let kind = msg.msg[i].str_or_empty("type");
        let data = data_of(&msg.msg[i]);
        if same(kind.as_str(), "poke") {
            proof {
                reveal_strlit("poke");
                reveal_strlit("image");
                assert("poke"@.len() == 4 && "image"@.len() == 5);
            }
            text = write_poke(msg, &data, stamp, self_id);
        } else if same(kind.as_str(), "image") {
            proof {
                lemma_image_count(segs, i + 1);
            }
            let piece = write_segment(
                kind.as_str(),
                &data,
                captions[k].as_str(),
                Ghost(segs[i as int]),
            );
            text.append(piece.as_str());
            k += 1;
        } else {
            let piece = write_segment(kind.as_str(), &data, "", Ghost(segs[i as int]));
            proof {
                assert(segment_text(segs[i as int], ""@) == segment_text(
                    segs[i as int],
                    caps[k as int],
                ));
            }
            text.append(piece.as_str());
        }
        i += 1;
    }
    assert(segs.take(i as int) == segs);
    trim(text.as_str())
}

proof fn lemma_image_count(segs: Seq<JsonView>, n: int)
    requires
        0 <= n <= segs.len(),
    ensures
        image_count(segs.take(n)) <= image_count(segs),
    decreases segs.len(),
{
    if n < segs.len() {
        assert(segs.drop_last().take(n) == segs.take(n));
        lemma_image_count(segs.drop_last(), n);
    } else {
        assert(segs.take(n) == segs);
    }
}

/// The times by which messages stand in order.
pub open spec fn time_keys(msgs: Seq<MessageView>) -> Seq<(Real, Real)> {
    msgs.map_values(|m: MessageView| (m.time, Real { bits: 0 }))
}

/// The places of the messages, those of the latest ones first.
pub open spec fn latest_first(msgs: Seq<MessageView>) -> Seq<usize> {
    ranking_down(time_keys(msgs))
}

/// The places of the messages, those of the latest ones first: the order in which pictures get their
/// captions.
pub fn format_order(msgs: &Vec<Message>) -> (res: Vec<usize>)
    ensures
        res@ == latest_first(message_views(msgs@)),
        res@.len() == msgs@.len(),
        forall|i: int| 0 <= i < res@.len() ==> (#[trigger] res@[i]) < msgs@.len(),
{
    let mut keys: Vec<(Real, Real)> = Vec::new();
    let mut i: usize = 0;
    while i < msgs.len()
        invariant
            i <= msgs@.len(),
            keys@.len() == i,
            forall|j: int|
                0 <= j < i ==> #[trigger] keys@[j] == (msgs@[j].time, (Real { bits: 0 })),
        decreases msgs@.len() - i,
    {
        keys.push((msgs[i].time, Real { bits: 0 }));
        i += 1;
    }
    assert(keys@ =~= time_keys(message_views(msgs@)));
    rank_down(&keys)
}

/// The views of lists of texts.
pub open spec fn list_views(lists: Seq<Vec<String>>) -> Seq<Seq<Seq<char>>> {
    lists.map_values(|l: Vec<String>| views(l@))
}

/// The texts of the messages in the given order.
pub open spec fn texts_in_order(
    msgs: Seq<MessageView>,
    order: Seq<usize>,
    stamps: Seq<Seq<char>>,
    captions: Seq<Seq<Seq<char>>>,
    self_id: i64,
) -> Seq<Seq<char>> {
    order.map_values(
        |i: usize|
            message_text(msgs[i as int], stamps[i as int], captions[i as int], self_id),
    )
}

/// The messages as text, the earliest first. For each of them there is its time as it is shown, and a
/// caption for each of its pictures.
pub fn format_msgs(
    msgs: &Vec<Message>,
    stamps: &Vec<String>,
    captions: &Vec<Vec<String>>,
    self_id: i64,
) -> (res: String)
    requires
        stamps@.len() == msgs@.len(),
        captions@.len() == msgs@.len(),
        forall|i: int|
            0 <= i < msgs@.len() ==> (#[trigger] captions@[i])@.len() == image_count(msgs@[i]@.msg),
    ensures
        res@ == joined(
            texts_in_order(
                message_views(msgs@),
                latest_first(message_views(msgs@)),
                views(stamps@),
                list_views(captions@),
                self_id,
            ).reverse(),
            "\n"@,
        ),
{
    let ghost all = message_views(msgs@);
    let order = format_order(msgs);
    let ghost texts = texts_in_order(all, order@, views(stamps@), list_views(captions@), self_id);
    let mut out: Vec<String> = Vec::new();
    let mut k: usize = order.len();
    while k > 0
        invariant
            all == message_views(msgs@),
            stamps@.len() == msgs@.len(),
            captions@.len() == msgs@.len(),
            forall|i: int|
                0 <= i < msgs@.len() ==> (#[trigger] captions@[i])@.len() == image_count(
                    msgs@[i]@.msg,
                ),
            forall|i: int| 0 <= i < order@.len() ==> (#[trigger] order@[i]) < msgs@.len(),
            texts == texts_in_order(
                all,
                order@,
                views(stamps@),
                list_views(captions@),
                self_id,
            ),
            k <= order@.len(),
            out@.len() == order@.len() - k,
            forall|j: int|
                0 <= j < out@.len() ==> (#[trigger] out@[j])@ == texts[order@.len() - 1 - j],
        decreases k,
    {
        k -= 1;
        let i = order[k];
        assert(captions@[i as int]@.len() == image_count(msgs@[i as int]@.msg));
        let t = format_msg(&msgs[i], stamps[i].as_str(), &captions[i], self_id);
        assert(t@ == texts[k as int]) by {
            assert(all[i as int] == msgs@[i as int]@);
            assert(views(stamps@)[i as int] == stamps@[i as int]@);
            assert(list_views(captions@)[i as int] == views(captions@[i as int]@));
        }
        out.push(t);
    }
    assert(views(out@) =~= texts.reverse());
    join(&out, "\n")
}

/// Every message is in the text, and just once.
pub proof fn law_every_message_is_shown(msgs: Seq<MessageView>)
    requires
        msgs.len() <= usize::MAX,
    ensures
        latest_first(msgs).len() == msgs.len(),
        latest_first(msgs).no_duplicates(),
        forall|i: int| 0 <= i < msgs.len() ==> (#[trigger] latest_first(msgs)[i]) < msgs.len(),
{
    law_ranking_down_is_permutation(time_keys(msgs));
}

/// The order in which messages came in does not matter where their times all differ: the same messages
/// with the same times as they are shown and the same captions, in any order, give the same text.
pub proof fn law_text_ignores_arrival(
    msgs: Seq<MessageView>,
    stamps: Seq<Seq<char>>,
    captions: Seq<Seq<Seq<char>>>,
    places: Seq<int>,
    self_id: i64,
)
    requires
        msgs.len() <= usize::MAX,
        stamps.len() == msgs.len(),
        captions.len() == msgs.len(),
        rearranges(places, msgs.len()),
        forall|i: int| 0 <= i < msgs.len() ==> !(#[trigger] msgs[i]).time.nan(),
        forall|i: int, j: int|
            0 <= i < j < msgs.len() ==> (#[trigger] msgs[i]).time.rank() != (
            #[trigger] msgs[j]).time.rank(),
    ensures
        ({
            let other_msgs = places.map_values(|k: int| msgs[k]);
            texts_in_order(
                other_msgs,
                latest_first(other_msgs),
                places.map_values(|k: int| stamps[k]),
                places.map_values(|k: int| captions[k]),
                self_id,
            ) == texts_in_order(msgs, latest_first(msgs), stamps, captions, self_id)
        }),
{
    let n = msgs.len() as int;
    let other_msgs = places.map_values(|k: int| msgs[k]);
    let other_stamps = places.map_values(|k: int| stamps[k]);
    let other_captions = places.map_values(|k: int| captions[k]);
    let keys = time_keys(msgs);
    let again = time_keys(other_msgs);
    assert forall|i: int| 0 <= i < n implies #[trigger] again[i] == keys[places[i]] by {
        assert(other_msgs[i] == msgs[places[i]]);
        assert(0 <= places[i] < n);
    }
    assert forall|i: int| 0 <= i < n implies !(#[trigger] keys[i]).0.nan() && !keys[i].1.nan() by {
        assert(!msgs[i].time.nan());
    }
    assert forall|i: int, j: int| 0 <= i < j < n implies (#[trigger] keys[i]).0.rank() != (
    #[trigger] keys[j]).0.rank() by {
        assert(msgs[i].time.rank() != msgs[j].time.rank());
    }
    law_ranking_down_ignores_arrival(keys, again, places);
    law_ranking_down_is_permutation(keys);
    law_ranking_down_is_permutation(again);
    let first = texts_in_order(msgs, latest_first(msgs), stamps, captions, self_id);
    let second = texts_in_order(
        other_msgs,
        latest_first(other_msgs),
        other_stamps,
        other_captions,
        self_id,
    );
    assert forall|i: int| 0 <= i < n implies #[trigger] first[i] == second[i] by {
        let k = latest_first(other_msgs)[i] as int;
        assert(0 <= k < n);
        assert(places[k] == latest_first(msgs)[i]);
        assert(other_msgs[k] == msgs[places[k]]);
        assert(other_stamps[k] == stamps[places[k]]);
        assert(other_captions[k] == captions[places[k]]);
    }
    assert(first =~= second);
}

/// The question for a summary of a text, or why it cannot be asked.
pub fn generate_summary(cfg: &Config, text: &str) -> (res: Result<LlmRequest, FormatError>)
    ensures
        cfg.readable("summary.prompt"@) && cfg.convertible("summary.model"@) ==> match res {
            Ok(r) => {
                &&& filled(cfg.text_at("summary.prompt"@), seq![("text"@, text@)]) == Ok::<
                    Seq<char>,
                    FormatErrorView,
                >(r.prompt@)
                &&& r.model@ == model_at(*cfg, "summary.model"@).json()
                &&& r.images@.len() == 0
                &&& r.options@ == llm_options(
                    cfg.float_at("summary.timeout"@, 60),
                    cfg.int_at("summary.max_tokens"@, 10240),
                )
            },
            Err(e) => filled(cfg.text_at("summary.prompt"@), seq![("text"@, text@)]) == Err::<
                Seq<char>,
                FormatErrorView,
            >(e@),
        },
{
    let template = cfg.str("summary.prompt");
    let mut vars: Vec<(String, String)> = Vec::new();
    vars.push((own("text"), own(text)));
    assert(var_views(vars@) =~= seq![("text"@, text@)]);
    match python_format(template.as_str(), &vars) {
        Ok(prompt) => {
            let options = make_llm_options(
                cfg.float_or("summary.timeout", 60),
                cfg.i64_or("summary.max_tokens", 10240),
            );
            Ok(
                LlmRequest {
                    model: cfg_model(cfg, "summary.model"),
                    prompt,
                    images: Vec::new(),
                    options,
                },
            )
        },
        Err(e) => Err(e),
    }
}

/// The summary that a model gave; nothing where it failed, or gave no text.
pub fn summary_outcome(reply: Option<&Json>) -> (res: String)
    ensures
        res@ == (match reply {
            Some(r) => answer_text(r@),
            None => Seq::empty(),
        }),
{
    let s = match reply {
        Some(Json::Str(s)) => own(s.as_str()),
        _ => String::new(),
    };
    assert(s@ =~= match reply {
        Some(r) => answer_text(r@),
        None => Seq::empty(),
    });
    s
}

/// The pictures of a message are the data of its segments of this kind, in their order.
pub proof fn law_pictures_are_all_found(segs: Seq<JsonView>)
    ensures
        selected(
            segs.len() as int,
            |i: int|
                if segs[i].str_or_empty("type"@) == "image"@ {
                    Some(
                        if segs[i].get("data"@) is Some {
                            segs[i].get("data"@)->0
                        } else {
                            JsonView::Object(Seq::empty())
                        },
                    )
                } else {
                    None
                },
            image_data(segs),
        ),
{
    let f = |i: int|
        if segs[i].str_or_empty("type"@) == "image"@ {
            Some(
                if segs[i].get("data"@) is Some {
                    segs[i].get("data"@)->0
                } else {
                    JsonView::Object(Seq::empty())
                },
            )
        } else {
            None
        };
    lemma_pictures_are_all_found(segs, f, segs.len() as int);
    assert(segs.take(segs.len() as int) =~= segs);
}

proof fn lemma_pictures_are_all_found(
    segs: Seq<JsonView>,
    f: spec_fn(int) -> Option<JsonView>,
    n: int,
)
    requires
        0 <= n <= segs.len(),
        forall|i: int|
            0 <= i < segs.len() ==> (#[trigger] f(i)) == (
                if segs[i].str_or_empty("type"@) == "image"@ {
                    Some(
                        if segs[i].get("data"@) is Some {
                            segs[i].get("data"@)->0
                        } else {
                            JsonView::Object(Seq::empty())
                        },
                    )
                } else {
                    None
                }
            ),
    ensures
        selected(n, f, image_data(segs.take(n))),
    decreases n,
{
    if n == 0 {
        lemma_selected_none(f);
    } else {
        lemma_pictures_are_all_found(segs, f, n - 1);
        assert(segs.take(n).drop_last() =~= segs.take(n - 1));
        lemma_selected_next(n - 1, f, image_data(segs.take(n - 1)));
    }
}

/// The text of a message grows segment by segment: each segment stands behind those before it, and the
/// picture that has as many pictures before it as there are captions gets the next caption. A poke tells
/// just who poked whom.
pub proof fn law_segments_follow_each_other(
    msg: MessageView,
    segs: Seq<JsonView>,
    seg: JsonView,
    stamp: Seq<char>,
    captions: Seq<Seq<char>>,
    self_id: i64,
)
    ensures
        segments_text(msg, Seq::empty(), stamp, captions, self_id) == stamp + " ["@ + int_text(
            msg.msg_id as int,
        ) + "] "@ + msg.nickname + "("@ + int_text(msg.user_id as int) + "):\n"@,
        seg.str_or_empty("type"@) != "poke"@ ==> segments_text(
            msg,
            segs.push(seg),
            stamp,
            captions,
            self_id,
        ) == segments_text(msg, segs, stamp, captions, self_id) + segment_text(
            seg,
            captions[image_data(segs).len() as int],
        ),
        seg.str_or_empty("type"@) == "poke"@ && seg.get("data"@) is Some ==> segments_text(
            msg,
            segs.push(seg),
            stamp,
            captions,
            self_id,
        ) == stamp + " "@ + person_label(msg.user_id, msg.nickname, self_id) + " 戳了戳 "@
            + person_label(
            member_int(seg.get("data"@)->0, "target_id"@),
            match seg.get("data"@)->0.get_str("target_name"@) {
                Some(n) => n,
                None => int_text(member_int(seg.get("data"@)->0, "target_id"@) as int),
            },
            self_id,
        ),
        image_count(segs) == image_data(segs).len(),
{
    assert(segs.push(seg).drop_last() =~= segs);
    lemma_images_counted(segs);
}

proof fn lemma_images_counted(segs: Seq<JsonView>)
    ensures
        image_count(segs) == image_data(segs).len(),
    decreases segs.len(),
{
    if segs.len() > 0 {
        lemma_images_counted(segs.drop_last());
    }
}

/// How each kind of segment is written: a text as it is, a face, a video, a sound, a file and a forwarded
/// talk by a word, a call and an answer by their marks, a picture by its caption, any other not at all.
pub proof fn law_segments_are_written(
    kind: Seq<char>,
    seg: JsonView,
    data: JsonView,
    caption: Seq<char>,
)
    requires
        seg.str_or_empty("type"@) == kind,
        seg.get("data"@) == Some(data),
    ensures
        kind == "text"@ ==> segment_text(seg, caption) == (match data.get_str("text"@) {
            Some(t) => t,
            None => Seq::empty(),
        }),
        kind == "face"@ ==> segment_text(seg, caption) == "[表情]"@,
        kind == "video"@ ==> segment_text(seg, caption) == "[视频]"@,
        kind == "audio"@ ==> segment_text(seg, caption) == "[音频]"@,
        kind == "file"@ ==> segment_text(seg, caption) == "[文件]"@,
        kind == "forward"@ ==> segment_text(seg, caption) == "[转发聊天记录]"@,
        kind == "at"@ && data.get_str("qq"@) is Some ==> segment_text(seg, caption) == "[@"@
            + data.get_str("qq"@)->0 + "]"@,
        kind == "reply"@ && data.get_str("id"@) is Some ==> segment_text(seg, caption)
            == "[reply="@ + data.get_str("id"@)->0 + "]"@,
        kind == "at"@ && data.get("qq"@) is Some && data.get_str("qq"@) is None ==> segment_text(
            seg,
            caption,
        ) == "[@"@ + data.get("qq"@)->0.canonical().written() + "]"@,
        kind == "reply"@ && data.get("id"@) is Some && data.get_str("id"@) is None ==> segment_text(
            seg,
            caption,
        ) == "[reply="@ + data.get("id"@)->0.canonical().written() + "]"@,
        kind == "at"@ && data.get("qq"@) is None ==> segment_text(seg, caption) == "[@"@
            + Seq::<char>::empty() + "]"@,
        kind == "reply"@ && data.get("id"@) is None ==> segment_text(seg, caption) == "[reply="@
            + Seq::<char>::empty() + "]"@,
        kind == "json"@ ==> segment_text(seg, caption) == card_text(data),
        kind == "image"@ ==> segment_text(seg, caption) == caption,
        kind != "text"@ && kind != "face"@ && kind != "video"@ && kind != "audio"@ && kind
            != "file"@ && kind != "forward"@ && kind != "at"@ && kind != "reply"@ && kind
            != "json"@ && kind != "image"@ ==> segment_text(seg, caption).len() == 0,
{
    reveal_strlit("text");
    reveal_strlit("face");
    reveal_strlit("video");
    reveal_strlit("audio");
    reveal_strlit("file");
    reveal_strlit("forward");
    reveal_strlit("at");
    reveal_strlit("reply");
    reveal_strlit("json");
    reveal_strlit("image");
    assert("text"@[0] == 't' && "face"@[0] == 'f' && "face"@[1] == 'a' && "file"@[1] == 'i');
    assert("video"@[0] == 'v' && "audio"@[0] == 'a' && "reply"@[0] == 'r' && "image"@[0] == 'i');
    assert("json"@[0] == 'j' && "at"@.len() == 2 && "forward"@.len() == 7);
}

/// A shared card is told by its title and the beginning of its description, where it has such; else by its
/// prompt, or just as something forwarded.
pub proof fn law_cards_are_told(data: JsonView, detail: JsonView)
    ensures
        card_detail(data) == Some(detail) ==> card_text(data) == "["@ + detail.str_or_empty(
            "title"@,
        ) + "分享:"@ + truncated(detail.str_or_empty("desc"@), 32) + "]"@,
        card_detail(data) is None && data.get_str("prompt"@) is Some ==> card_text(data)
            == "[转发消息:"@ + data.get_str("prompt"@)->0 + "]"@,
        card_detail(data) is None && data.get_str("prompt"@) is None ==> card_text(data)
            == "[转发消息]"@,
        data.get_str("data"@) is Some && json_of_text(data.get_str("data"@)->0) is Some
            && json_of_text(data.get_str("data"@)->0)->0.get("meta"@) is Some ==> card_detail(data)
            == json_of_text(data.get_str("data"@)->0)->0.get("meta"@)->0.get("detail_1"@),
        data.get_str("data"@) is None ==> card_detail(data) is None,
{
}

/// A picture is an emotion where its kind is given and is not zero. It is told by its caption, by the
/// summary that came with it where there is no caption, or just by what it is.
pub proof fn law_pictures_are_told(data: JsonView, caption: Seq<char>, kind: i64)
    ensures
        data.get("sub_type"@) is Some && data.get("sub_type"@)->0.to_int() == Some(kind) && kind
            != 0 ==> captioned(data, caption) == "["@ + "表情"@ + ":"@ + caption + "]"@,
        data.get("sub_type"@) is None || data.get("sub_type"@)->0.to_int() == Some(0i64)
            ==> captioned(data, caption) == "["@ + "图片"@ + ":"@ + caption + "]"@,
        data.get("sub_type"@) is None || data.get("sub_type"@)->0.to_int() == Some(0i64)
            ==> !is_emotion(data) && picture_name(data) == "图片"@,
        data.get("sub_type"@) is Some && data.get("sub_type"@)->0.to_int() == Some(kind) && kind
            != 0 ==> is_emotion(data) && picture_name(data) == "表情"@,
        data.get("sub_type"@) is Some && data.get("sub_type"@)->0.to_int() is None ==> !is_emotion(
            data,
        ) && picture_name(data) == "图片"@,
        data.str_or_empty("summary"@).len() > 0 ==> uncaptioned(data) == captioned(
            data,
            data.str_or_empty("summary"@),
        ),
        data.str_or_empty("summary"@).len() == 0 ==> uncaptioned(data) == "["@ + picture_name(data)
            + "]"@,
{
}

/// A caption that was kept under the picture's key is found again; a picture without a key has none, nor
/// has one for which something else than a text was kept.
pub proof fn law_captions_are_found(db: JsonView, data: JsonView, key: Seq<char>)
    requires
        data.str_or_empty("file_unique"@) == key,
    ensures
        key.len() == 0 ==> kept_caption(db, data) is None,
        key.len() > 0 && stored(db, key) is Str ==> kept_caption(db, data) == stored(
            db,
            key,
        ).as_str(),
        key.len() > 0 && !(stored(db, key) is Str) ==> kept_caption(db, data) is None,
{
}

/// What is asked to see a picture is its address, where it has one.
pub proof fn law_address_is_asked(data: JsonView)
    ensures
        data.get("url"@) is Some && !(data.get("url"@)->0 is Null) ==> caption_images(data) == seq![
            data.get("url"@)->0,
        ],
        data.get("url"@) is None || data.get("url"@)->0 is Null ==> caption_images(data).len() == 0,
{
}

/// The messages are arranged by their times: of two places, the one in front never has the earlier time.
pub proof fn law_latest_come_first(msgs: Seq<MessageView>, i: int, j: int)
    requires
        msgs.len() <= usize::MAX,
        forall|k: int| 0 <= k < msgs.len() ==> !(#[trigger] msgs[k]).time.nan(),
        0 <= i < j < msgs.len(),
    ensures
        !msgs[latest_first(msgs)[i] as int].time.less(msgs[latest_first(msgs)[j] as int].time),
{
    law_every_message_is_shown(msgs);
    let keys = time_keys(msgs);
    law_ranking_down_is_in_order(keys);
    assert(keys.len() == msgs.len());
    assert(latest_first(msgs)[i] < msgs.len() && latest_first(msgs)[j] < msgs.len());
    assert(keys[latest_first(msgs)[i] as int].0 == msgs[latest_first(msgs)[i] as int].time);
    assert(keys[latest_first(msgs)[j] as int].0 == msgs[latest_first(msgs)[j] as int].time);
}

/// The texts in an order are those of the messages at these places, each with its own time and captions.
pub proof fn law_texts_stand_in_order(
    msgs: Seq<MessageView>,
    order: Seq<usize>,
    stamps: Seq<Seq<char>>,
    captions: Seq<Seq<Seq<char>>>,
    self_id: i64,
    k: int,
)
    requires
        0 <= k < order.len(),
    ensures
        texts_in_order(msgs, order, stamps, captions, self_id).len() == order.len(),
        texts_in_order(msgs, order, stamps, captions, self_id)[k] == trimmed(
            segments_text(
                msgs[order[k] as int],
                msgs[order[k] as int].msg,
                stamps[order[k] as int],
                captions[order[k] as int],
                self_id,
            ),
        ),
{
}

/// What the model says is its text; what is no text says nothing.
pub proof fn law_answers_are_texts(reply: JsonView, s: Seq<char>)
    ensures
        answer_text(JsonView::Str(s)) == s,
        !(reply is Str) ==> answer_text(reply).len() == 0,
{
}

/// The model may be asked while fewer were counted than the limit, and where the lot is below the chance.
pub proof fn law_captions_are_limited(count: u32, limit: Real, lot: Real, prob: Real)
    requires
        !limit.nan(),
        !lot.nan(),
        !prob.nan(),
    ensures
        limit.at_most(num_real(NumView::Int(count as i64))) ==> !may_ask(count, limit, lot, prob),
        prob.at_most(lot) ==> !may_ask(count, limit, lot, prob),
        num_real(NumView::Int(count as i64)).less(limit) && lot.less(prob) ==> may_ask(
            count,
            limit,
            lot,
            prob,
        ),
{
}

/// What is asked of a picture is the template with what the picture is filled in; where the template
/// cannot be filled in, what the picture is stands for the field.
pub proof fn law_picture_is_named_in_the_question(template: Seq<char>, data: JsonView, s: Seq<char>)
    ensures
        filled(template, seq![("sub_type"@, picture_name(data))]) == Ok::<
            Seq<char>,
            FormatErrorView,
        >(s) ==> caption_prompt(template, data) == s,
        filled(template, seq![("sub_type"@, picture_name(data))]) is Err ==> caption_prompt(
            template,
            data,
        ) == replaced(template, "{sub_type}"@, picture_name(data)),
{
}

/// A segment without data is written like one whose data are empty.
pub proof fn law_missing_data_are_empty(seg: JsonView, like: JsonView, caption: Seq<char>)
    requires
        seg.str_or_empty("type"@) == like.str_or_empty("type"@),
        seg.get("data"@) is None,
        like.get("data"@) == Some(JsonView::Object(Seq::empty())),
    ensures
        segment_text(seg, caption) == segment_text(like, caption),
{
}

} // verus!
