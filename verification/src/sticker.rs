//! Stickers: their captions and vectors, and which one fits what is asked for.

use crate::json::{entry_views, json_views, Json, JsonView};
use crate::number::{Real, ONE_BITS};
use crate::text::{
    before_char, int_of_text, int_text, own, parse_int, same, signed_text, until_char,
};
use crate::util::{json_f64_vec, vector_of};
use std::collections::HashMap;
use crate::select::{lemma_selected_next, lemma_selected_none, selected};
use vstd::prelude::*;
use vstd::string::*;

verus! {

/// The words by which a sticker is found: its emotion and its scene, or the scene alone.
pub open spec fn caption_text(emotion: Seq<char>, scene: Seq<char>) -> Seq<char> {
    if emotion.len() > 0 {
        emotion + ","@ + scene
    } else {
        scene
    }
}

fn caption(emotion: &str, scene: &str) -> (res: String)
    ensures
        res@ == caption_text(emotion@, scene@),
{
    if emotion.is_empty() {
        own(scene)
    } else {
        let mut out = own(emotion);
        out.append(",");
        out.append(scene);
        out
    }
}

/// One caption of a sticker: the sticker's number, the words, and where the picture is.
pub struct SidTextView {
    pub sid: i64,
    pub text: Seq<char>,
    pub path: Option<Seq<char>>,
}

/// One caption of a sticker: the sticker's number, the words, and where the picture is.
#[derive(Debug)]
pub struct SidText {
    pub sid: i64,
    pub text: String,
    pub path: Option<String>,
}

/// The view of a path that may be missing.
pub open spec fn path_view(path: Option<String>) -> Option<Seq<char>> {
    match path {
        Some(p) => Some(p@),
        None => None,
    }
}

impl View for SidText {
    type V = SidTextView;

    open spec fn view(&self) -> SidTextView {
        SidTextView { sid: self.sid, text: self.text@, path: path_view(self.path) }
    }
}

/// The views of a list of captions.
pub open spec fn caption_views(items: Seq<SidText>) -> Seq<SidTextView> {
    items.map_values(|c: SidText| c@)
}

/// The caption that an emotion and a scene make, where one of them says anything.
pub open spec fn one_caption(
    sid: i64,
    path: Option<Seq<char>>,
    emotion: Seq<char>,
    scene: Seq<char>,
) -> Seq<SidTextView> {
    if emotion.len() > 0 || scene.len() > 0 {
        seq![SidTextView { sid, text: caption_text(emotion, scene), path }]
    } else {
        Seq::empty()
    }
}

/// The captions that a list of them makes.
pub open spec fn list_captions(
    sid: i64,
    path: Option<Seq<char>>,
    items: Seq<JsonView>,
) -> Seq<SidTextView>
    decreases items.len(),
{
    if items.len() == 0 {
        Seq::empty()
    } else {
        list_captions(sid, path, items.drop_last()) + one_caption(
            sid,
            path,
            items.last().str_or_empty("emotion"@),
            items.last().str_or_empty("scene"@),
        )
    }
}

/// The captions of one sticker: a text is a scene without an emotion.
pub open spec fn sticker_captions(key: Seq<char>, sticker: JsonView) -> Seq<SidTextView> {
    let sid = match int_of_text(key) {
        Some(i) => i,
        None => 0,
    };
    let path = sticker.get_str("path"@);
    match sticker.get("caption"@) {
        Some(JsonView::Str(s)) => one_caption(sid, path, Seq::empty(), s),
        Some(JsonView::Array(items)) => list_captions(sid, path, items),
        _ => Seq::empty(),
    }
}

/// The captions of all stickers.
pub open spec fn all_captions(stickers: Seq<(Seq<char>, JsonView)>) -> Seq<SidTextView>
    decreases stickers.len(),
{
    if stickers.len() == 0 {
        Seq::empty()
    } else {
        all_captions(stickers.drop_last()) + sticker_captions(
            stickers.last().0,
            stickers.last().1,
        )
    }
}

/// The captions in a library of stickers.
pub open spec fn library_captions(db: JsonView) -> Seq<SidTextView> {
    match db.get("stickers"@) {
        Some(JsonView::Object(stickers)) => all_captions(stickers),
        _ => Seq::empty(),
    }
}

fn copy_path(path: Option<&str>) -> (res: Option<String>)
    ensures
        match path {
            Some(p) => path_view(res) == Some(p@),
            None => res is None,
        },
{
    match path {
        Some(p) => Some(own(p)),
        None => None,
    }
}

fn push_caption(
    out: &mut Vec<SidText>,
    sid: i64,
    path: Option<&str>,
    emotion: &str,
    scene: &str,
)
    ensures
        caption_views(final(out)@) == caption_views(old(out)@) + one_caption(
            sid,
            match path {
                Some(p) => Some(p@),
                None => None,
            },
            emotion@,
            scene@,
        ),
{
    let ghost before = out@;
    if !emotion.is_empty() || !scene.is_empty() {
        let item = SidText { sid, text: caption(emotion, scene), path: copy_path(path) };
        let ghost new = item@;
        out.push(item);
        assert(caption_views(out@) =~= caption_views(before) + seq![new]);
    } else {
        assert(caption_views(out@) =~= caption_views(before) + Seq::<SidTextView>::empty());
    }
}

fn push_sticker(out: &mut Vec<SidText>, key: &str, sticker: &Json)
    ensures
        caption_views(final(out)@) == caption_views(old(out)@) + sticker_captions(key@, sticker@),
{
    let ghost start = caption_views(out@);
    let sid = match parse_int(key) {
        Some(i) => i,
        None => 0,
    };
    let path = sticker.get_str("path");
    let ghost p = match path {
        Some(p) => Some(p@),
        None => None,
    };
    match sticker.get("caption") {
        Some(c) => {
            match c.as_str() {
                Some(s) => {
                    assert(""@ =~= Seq::<char>::empty()) by {
                        reveal_strlit("");
                    }
                    push_caption(out, sid, path, "", s);
                    return ;
                },
                None => {},
            }
            match c.as_array() {
                Some(items) => {
                    let ghost all = json_views(items@);
                    let mut i: usize = 0;
                    assert(start + list_captions(sid, p, all.take(0)) =~= start);
                    while i < items.len()
                        invariant
                            all == json_views(items@),
                            i <= items@.len(),
                            p == (match path {
                                Some(p) => Some(p@),
                                None => None,
                            }),
                            caption_views(out@) == start + list_captions(
                                sid,
                                p,
                                all.take(i as int),
                            ),
                        decreases items@.len() - i,
                    {
                        assert(all.take(i + 1).drop_last() == all.take(i as int));
                        let emotion = items[i].str_or_empty("emotion");
                        let scene = items[i].str_or_empty("scene");
                        let ghost before = list_captions(sid, p, all.take(i as int));
                        push_caption(out, sid, path, emotion.as_str(), scene.as_str());
                        assert(caption_views(out@) =~= start + (before + one_caption(
                            sid,
                            p,
                            emotion@,
                            scene@,
                        )));
                        i += 1;
                    }
                    assert(all.take(i as int) == all);
                    return ;
                },
                None => {},
            }
        },
        None => {},
    }
    assert(start + Seq::<SidTextView>::empty() =~= start);
}

/// The captions in a library of stickers, given by its JSON text; nothing where it is not JSON.
pub fn collect_sid_texts(text: &str) -> (res: Option<Vec<SidText>>)
    ensures
        match crate::json::json_of_text(text@) {
            Some(db) => res matches Some(items) && caption_views(items@) == library_captions(db),
            None => res is None,
        },
{
    match Json::parse(text) {
        Some(db) => Some(collect_captions(&db)),
        None => None,
    }
}

/// The captions in a library of stickers.
pub fn collect_captions(db: &Json) -> (res: Vec<SidText>)
    ensures
        caption_views(res@) == library_captions(db@),
{
    let mut out: Vec<SidText> = Vec::new();
    assert(caption_views(out@) =~= Seq::empty());
    match db.get("stickers") {
        Some(stickers) => match stickers.as_object() {
            Some(entries) => {
                let ghost all = entry_views(entries@);
                let mut i: usize = 0;
                while i < entries.len()
                    invariant
                        all == entry_views(entries@),
                        i <= entries@.len(),
                        caption_views(out@) == all_captions(all.take(i as int)),
                    decreases entries@.len() - i,
                {
                    assert(all.take(i + 1).drop_last() == all.take(i as int));
                    push_sticker(&mut out, entries[i].0.as_str(), &entries[i].1);
                    i += 1;
                }
                assert(all.take(i as int) == all);
            },
            None => {},
        },
        None => {},
    }
    out
}

/// The vectors of texts by their keys, each vector by the bits of its single-precision numbers.
#[derive(Debug)]
pub struct EmbDb {
    entries: Vec<(String, Vec<u32>)>,
}

/// The map that comes of setting the entries one after the other.
pub open spec fn map_of(entries: Seq<(String, Vec<u32>)>) -> Map<Seq<char>, Seq<u32>>
    decreases entries.len(),
{
    if entries.len() == 0 {
        Map::empty()
    } else {
        map_of(entries.drop_last()).insert(entries.last().0@, entries.last().1@)
    }
}

impl View for EmbDb {
    type V = Map<Seq<char>, Seq<u32>>;

    closed spec fn view(&self) -> Map<Seq<char>, Seq<u32>> {
        map_of(self.entries@)
    }
}

/// Whether no two entries have one key.
pub open spec fn keys_apart(entries: Seq<(String, Vec<u32>)>) -> bool {
    forall|i: int, j: int|
        0 <= i < j < entries.len() ==> (#[trigger] entries[i]).0@ != (#[trigger] entries[j]).0@
}

proof fn lemma_replaced(entries: Seq<(String, Vec<u32>)>, i: int, entry: (String, Vec<u32>))
    requires
        0 <= i < entries.len(),
        entries[i].0@ == entry.0@,
        forall|j: int| i < j < entries.len() ==> (#[trigger] entries[j]).0@ != entry.0@,
    ensures
        map_of(entries.update(i, entry)) == map_of(entries).insert(entry.0@, entry.1@),
    decreases entries.len(),
{
    let new = entries.update(i, entry);
    let n = entries.len() - 1;
    if i == n {
        assert(new.drop_last() =~= entries.drop_last());
        assert(map_of(new) =~= map_of(entries).insert(entry.0@, entry.1@));
    } else {
        let front = entries.drop_last();
        assert forall|j: int| i < j < front.len() implies (#[trigger] front[j]).0@ != entry.0@ by {
            assert(front[j] == entries[j]);
        }
        lemma_replaced(front, i, entry);
        assert(new.drop_last() =~= front.update(i, entry));
        assert(entries[n].0@ != entry.0@);
        assert(map_of(new) =~= map_of(entries).insert(entry.0@, entry.1@));
    }
}

impl EmbDb {
    /// Whether no key is listed twice.
    pub closed spec fn wf(self) -> bool {
        keys_apart(self.entries@)
    }

    /// No vectors.
    pub fn new() -> (res: EmbDb)
        ensures
            res@ == Map::<Seq<char>, Seq<u32>>::empty(),
            res.wf(),
    {
        EmbDb { entries: Vec::new() }
    }

    /// Sets the vector of a key.
    pub fn insert(&mut self, key: &str, vector: Vec<u32>)
        ensures
            final(self)@ == old(self)@.insert(key@, vector@),
            old(self).wf() ==> final(self).wf(),
    {
        let ghost before = self.entries@;
        let mut i: usize = self.entries.len();
        while i > 0 && !same(self.entries[i - 1].0.as_str(), key)
            invariant
                before == self.entries@,
                i <= before.len(),
                forall|j: int| i <= j < before.len() ==> (#[trigger] before[j]).0@ != key@,
            decreases i,
        {
            i -= 1;
        }
        let entry = (own(key), vector);
        if i > 0 {
            proof {
                lemma_replaced(before, i - 1, entry);
            }
            self.entries.set(i - 1, entry);
        } else {
            self.entries.push(entry);
            assert(self.entries@.drop_last() =~= before);
        }
    }

    /// The vector of a key.
    pub fn get(&self, key: &str) -> (res: Option<&Vec<u32>>)
        ensures
            match res {
                Some(v) => self@.contains_key(key@) && self@[key@] == v@,
                None => !self@.contains_key(key@),
            },
    {
        let ghost all = self.entries@;
        let mut i: usize = self.entries.len();
        assert(all.take(i as int) == all);
        while i > 0
            invariant
                all == self.entries@,
                i <= all.len(),
                self@ == map_of(all),
                self@.contains_key(key@) == map_of(all.take(i as int)).contains_key(key@),
                self@.contains_key(key@) ==> self@[key@] == map_of(all.take(i as int))[key@],
            decreases i,
        {
            i -= 1;
            assert(all.take(i + 1).drop_last() == all.take(i as int));
            if same(self.entries[i].0.as_str(), key) {
                return Some(&self.entries[i].1);
            }
        }
        None
    }

    /// The entries.
    pub fn entries(&self) -> (res: &Vec<(String, Vec<u32>)>)
        ensures
            map_of(res@) == self@,
            self.wf() ==> keys_apart(res@),
    {
        &self.entries
    }
}

/// The key of the vector of a caption.
pub open spec fn full_key(c: SidTextView) -> Seq<char> {
    int_text(c.sid as int) + ":"@ + c.text
}

/// The key of the vector of a caption's emotion.
pub open spec fn emotion_key(c: SidTextView) -> Seq<char> {
    "e:"@ + full_key(c)
}

fn make_full_key(c: &SidText) -> (res: String)
    ensures
        res@ == full_key(c@),
{
    let mut out = signed_text(c.sid);
    out.append(":");
    out.append(c.text.as_str());
    out
}

fn make_emotion_key(c: &SidText) -> (res: String)
    ensures
        res@ == emotion_key(c@),
{
    let mut out = own("e:");
    let key = make_full_key(c);
    out.append(key.as_str());
    out
}

/// Whether both vectors of a caption are there.
pub open spec fn covered(c: SidTextView, db: Map<Seq<char>, Seq<u32>>) -> bool {
    db.contains_key(full_key(c)) && db.contains_key(emotion_key(c))
}

/// A caption with its vectors.
pub struct CacheItemView {
    pub sid: i64,
    pub text: Seq<char>,
    pub path: Seq<char>,
    pub full_emb: Seq<u32>,
    pub emotion_emb: Seq<u32>,
}

/// A caption with its vectors.
#[derive(Debug)]
pub struct CacheItem {
    pub sid: i64,
    pub text: String,
    pub path: String,
    pub full_emb: Vec<u32>,
    pub emotion_emb: Vec<u32>,
}

impl View for CacheItem {
    type V = CacheItemView;

    open spec fn view(&self) -> CacheItemView {
        CacheItemView {
            sid: self.sid,
            text: self.text@,
            path: self.path@,
            full_emb: self.full_emb@,
            emotion_emb: self.emotion_emb@,
        }
    }
}

/// The views of the captions with their vectors.
pub open spec fn cache_views(items: Seq<CacheItem>) -> Seq<CacheItemView> {
    items.map_values(|c: CacheItem| c@)
}

/// The captions that have both their vectors, with these.
pub open spec fn cache_of(
    captions: Seq<SidTextView>,
    db: Map<Seq<char>, Seq<u32>>,
) -> Seq<CacheItemView>
    decreases captions.len(),
{
    if captions.len() == 0 {
        Seq::empty()
    } else {
        let front = cache_of(captions.drop_last(), db);
        let c = captions.last();
        if covered(c, db) {
            front.push(
                CacheItemView {
                    sid: c.sid,
                    text: c.text,
                    path: match c.path {
                        Some(p) => p,
                        None => Seq::empty(),
                    },
                    full_emb: db[full_key(c)],
                    emotion_emb: db[emotion_key(c)],
                },
            )
        } else {
            front
        }
    }
}

fn copy_vector(v: &Vec<u32>) -> (res: Vec<u32>)
    ensures
        res@ == v@,
{
    let mut out: Vec<u32> = Vec::new();
    let mut i: usize = 0;
    while i < v.len()
        invariant
            i <= v@.len(),
            out@ == v@.take(i as int),
        decreases v@.len() - i,
    {
        out.push(v[i]);
        assert(v@.take(i + 1) =~= v@.take(i as int).push(v@[i as int]));
        i += 1;
    }
    assert(v@.take(i as int) =~= v@);
    out
}

/// The captions that have both their vectors, with these.
pub fn apply_sticker_cache(sid_texts: &Vec<SidText>, emb_db: &EmbDb) -> (res: Vec<CacheItem>)
    ensures
        cache_views(res@) == cache_of(caption_views(sid_texts@), emb_db@),
{
    let ghost all = caption_views(sid_texts@);
    let mut out: Vec<CacheItem> = Vec::new();
    let mut i: usize = 0;
    assert(cache_views(out@) =~= Seq::empty());
    while i < sid_texts.len()
        invariant
            all == caption_views(sid_texts@),
            i <= sid_texts@.len(),
            cache_views(out@) == cache_of(all.take(i as int), emb_db@),
        decreases sid_texts@.len() - i,
    {
        assert(all.take(i + 1).drop_last() == all.take(i as int));
        let c = &sid_texts[i];
        assert(all[i as int] == c@);
        let k = make_full_key(c);
        let ek = make_emotion_key(c);
        match (emb_db.get(k.as_str()), emb_db.get(ek.as_str())) {
            (Some(full), Some(emo)) => {
                let ghost before = out@;
                let path = match &c.path {
                    Some(p) => own(p.as_str()),
                    None => String::new(),
                };
                let item = CacheItem {
                    sid: c.sid,
                    text: own(c.text.as_str()),
                    path,
                    full_emb: copy_vector(full),
                    emotion_emb: copy_vector(emo),
                };
                assert(path@ =~= match c@.path {
                    Some(p) => p,
                    None => Seq::empty(),
                });
                let ghost new = item@;
                out.push(item);
                assert(cache_views(out@) =~= cache_views(before).push(new));
            },
            _ => {},
        }
        i += 1;
    }
    assert(all.take(i as int) == all);
    out
}

/// The places of the captions that lack a vector.
pub open spec fn lacking(captions: Seq<SidTextView>, db: Map<Seq<char>, Seq<u32>>) -> Seq<usize>
    decreases captions.len(),
{
    if captions.len() == 0 {
        Seq::empty()
    } else {
        let front = lacking(captions.drop_last(), db);
        if covered(captions.last(), db) {
            front
        } else {
            front.push((captions.len() - 1) as usize)
        }
    }
}

/// The places of the captions that lack a vector.
pub fn missing_indices(sid_texts: &Vec<SidText>, emb_db: &EmbDb) -> (res: Vec<usize>)
    ensures
        res@ == lacking(caption_views(sid_texts@), emb_db@),
        forall|i: int| 0 <= i < res@.len() ==> (#[trigger] res@[i]) < sid_texts@.len(),
{
    let ghost all = caption_views(sid_texts@);
    let mut out: Vec<usize> = Vec::new();
    let mut i: usize = 0;
    while i < sid_texts.len()
        invariant
            all == caption_views(sid_texts@),
            i <= sid_texts@.len(),
            out@ == lacking(all.take(i as int), emb_db@),
            forall|j: int| 0 <= j < out@.len() ==> (#[trigger] out@[j]) < i,
        decreases sid_texts@.len() - i,
    {
        assert(all.take(i + 1).drop_last() == all.take(i as int));
        let c = &sid_texts[i];
        assert(all[i as int] == c@);
        let k = make_full_key(c);
        let ek = make_emotion_key(c);
        if emb_db.get(k.as_str()).is_none() || emb_db.get(ek.as_str()).is_none() {
            out.push(i);
        }
        i += 1;
    }
    assert(all.take(i as int) == all);
    out
}

/// Where no caption lacks a vector, all of them are in the cache, and where all are, none lacks one.
pub proof fn law_cache_is_complete(captions: Seq<SidTextView>, db: Map<Seq<char>, Seq<u32>>)
    ensures
        cache_of(captions, db).len() + lacking(captions, db).len() == captions.len(),
    decreases captions.len(),
{
    if captions.len() > 0 {
        law_cache_is_complete(captions.drop_last(), db);
    }
}

/// How many captions are sent off together for their vectors.
pub const BATCH: usize = 10;

/// The list in pieces of ten, the last one shorter where need be.
pub open spec fn pieces(s: Seq<usize>) -> Seq<Seq<usize>>
    decreases s.len(),
{
    if s.len() == 0 {
        Seq::empty()
    } else if s.len() <= BATCH {
        seq![s]
    } else {
        seq![s.take(BATCH as int)] + pieces(s.skip(BATCH as int))
    }
}

/// The views of a list of batches.
pub open spec fn batch_views(batches: Seq<Vec<usize>>) -> Seq<Seq<usize>> {
    batches.map_values(|b: Vec<usize>| b@)
}

/// The places in batches of ten, the last one smaller where need be.
pub fn batches(places: &Vec<usize>) -> (res: Vec<Vec<usize>>)
    ensures
        batch_views(res@) == pieces(places@),
        forall|b: int, k: int|
            0 <= b < res@.len() && 0 <= k < (#[trigger] res@[b])@.len() ==> places@.contains(
                #[trigger] res@[b]@[k],
            ),
{
    let ghost all = places@;
    let total = places.len();
    let mut out: Vec<Vec<usize>> = Vec::new();
    let mut at: usize = 0;
    assert(all.skip(0) == all);
    assert(batch_views(out@) + pieces(all) =~= pieces(all));
    while at < total
        invariant
            all == places@,
            total == places@.len(),
            at <= places@.len(),
            batch_views(out@) + pieces(all.skip(at as int)) == pieces(all),
            forall|b: int, k: int|
                0 <= b < out@.len() && 0 <= k < (#[trigger] out@[b])@.len() ==> all.contains(
                    #[trigger] out@[b]@[k],
                ),
        decreases places@.len() - at,
    {
        let ghost rest = all.skip(at as int);
        let n: usize = if total - at > BATCH {
            BATCH
        } else {
            total - at
        };
        let mut batch: Vec<usize> = Vec::new();
        let mut k: usize = 0;
        while k < n
            invariant
                all == places@,
                total == places@.len(),
                at + n <= total,
                k <= n,
                batch@ == all.subrange(at as int, at + k),
            decreases n - k,
        {
            batch.push(places[at + k]);
            assert(all.subrange(at as int, at + k + 1) =~= all.subrange(at as int, at + k).push(
                all[at + k],
            ));
            k += 1;
        }
        let ghost before = out@;
        let ghost piece = batch@;
        assert(piece =~= rest.take(n as int));
        assert forall|j: int| 0 <= j < piece.len() implies all.contains(#[trigger] piece[j]) by {
            assert(piece[j] == all[at + j]);
        }
        out.push(batch);
        assert(batch_views(out@) =~= batch_views(before).push(piece));
        assert(rest.skip(n as int) =~= all.skip(at + n));
        proof {
            if rest.len() <= BATCH {
                assert(rest =~= piece);
                assert(pieces(rest) =~= seq![piece]);
                assert(pieces(all.skip(at + n)) =~= Seq::empty());
            }
        }
        assert(pieces(rest) =~= seq![piece] + pieces(all.skip(at + n)));
        assert(batch_views(before) + (seq![piece] + pieces(all.skip(at + n))) =~= batch_views(out@)
            + pieces(all.skip(at + n)));
        at += n;
    }
    assert(batch_views(out@) + Seq::<Seq<usize>>::empty() =~= batch_views(out@));
    out
}

/// The words of the captions at the given places.
pub open spec fn batch_texts(captions: Seq<SidTextView>, places: Seq<usize>) -> Seq<Seq<char>> {
    places.map_values(|i: usize| captions[i as int].text)
}

/// The emotions of the captions at the given places: what stands before the first comma.
pub open spec fn batch_emotions(captions: Seq<SidTextView>, places: Seq<usize>) -> Seq<Seq<char>> {
    places.map_values(|i: usize| before_char(captions[i as int].text, ','))
}

/// The words and the emotions of the captions of one batch.
pub fn batch_request(sid_texts: &Vec<SidText>, batch: &Vec<usize>) -> (res: (
    Vec<String>,
    Vec<String>,
))
    requires
        forall|k: int| 0 <= k < batch@.len() ==> (#[trigger] batch@[k]) < sid_texts@.len(),
    ensures
        crate::text::views(res.0@) == batch_texts(caption_views(sid_texts@), batch@),
        crate::text::views(res.1@) == batch_emotions(caption_views(sid_texts@), batch@),
{
    let ghost all = caption_views(sid_texts@);
    let mut full: Vec<String> = Vec::new();
    let mut emo: Vec<String> = Vec::new();
    let mut k: usize = 0;
    while k < batch.len()
        invariant
            all == caption_views(sid_texts@),
            forall|k: int| 0 <= k < batch@.len() ==> (#[trigger] batch@[k]) < sid_texts@.len(),
            k <= batch@.len(),
            full@.len() == k,
            emo@.len() == k,
            forall|j: int| 0 <= j < k ==> (#[trigger] full@[j])@ == all[batch@[j] as int].text,
            forall|j: int|
                0 <= j < k ==> (#[trigger] emo@[j])@ == before_char(
                    all[batch@[j] as int].text,
                    ',',
                ),
        decreases batch@.len() - k,
    {
        let c = &sid_texts[batch[k]];
        assert(all[batch@[k as int] as int] == c@);
        full.push(own(c.text.as_str()));
        emo.push(until_char(c.text.as_str(), ','));
        k += 1;
    }
    assert(crate::text::views(full@) =~= batch_texts(all, batch@));
    assert(crate::text::views(emo@) =~= batch_emotions(all, batch@));
    (full, emo)
}

/// The vectors after those of the captions at the given places were set, as far as both came.
pub open spec fn absorbed(
    db: Map<Seq<char>, Seq<u32>>,
    captions: Seq<SidTextView>,
    places: Seq<usize>,
    full: Seq<Seq<u32>>,
    emo: Seq<Seq<u32>>,
) -> Map<Seq<char>, Seq<u32>>
    decreases places.len(),
{
    if places.len() == 0 {
        db
    } else {
        let k = places.len() - 1;
        let before = absorbed(db, captions, places.drop_last(), full, emo);
        if k < full.len() && k < emo.len() {
            let c = captions[places[k] as int];
            before.insert(full_key(c), full[k]).insert(emotion_key(c), emo[k])
        } else {
            before
        }
    }
}

/// The views of a list of vectors.
pub open spec fn vector_views(vectors: Seq<Vec<u32>>) -> Seq<Seq<u32>> {
    vectors.map_values(|v: Vec<u32>| v@)
}

/// Sets the vectors of one batch, as far as both came.
pub fn absorb_batch(
    emb_db: &mut EmbDb,
    sid_texts: &Vec<SidText>,
    batch: &Vec<usize>,
    full: &Vec<Vec<u32>>,
    emo: &Vec<Vec<u32>>,
)
    requires
        forall|k: int| 0 <= k < batch@.len() ==> (#[trigger] batch@[k]) < sid_texts@.len(),
    ensures
        final(emb_db)@ == absorbed(
            old(emb_db)@,
            caption_views(sid_texts@),
            batch@,
            vector_views(full@),
            vector_views(emo@),
        ),
{
    let ghost start = emb_db@;
    let ghost all = caption_views(sid_texts@);
    let ghost fulls = vector_views(full@);
    let ghost emos = vector_views(emo@);
    let mut k: usize = 0;
    while k < batch.len()
        invariant
            all == caption_views(sid_texts@),
            fulls == vector_views(full@),
            emos == vector_views(emo@),
            forall|k: int| 0 <= k < batch@.len() ==> (#[trigger] batch@[k]) < sid_texts@.len(),
            k <= batch@.len(),
            emb_db@ == absorbed(start, all, batch@.take(k as int), fulls, emos),
        decreases batch@.len() - k,
    {
        assert(batch@.take(k + 1).drop_last() == batch@.take(k as int));
        if k < full.len() && k < emo.len() {
            let c = &sid_texts[batch[k]];
            assert(all[batch@[k as int] as int] == c@);
            let key = make_full_key(c);
            let ekey = make_emotion_key(c);
            emb_db.insert(key.as_str(), copy_vector(&full[k]));
            emb_db.insert(ekey.as_str(), copy_vector(&emo[k]));
        }
        k += 1;
    }
    assert(batch@.take(k as int) == batch@);
}

/// A batch for which all vectors came lacks none afterwards, and no vector goes.
pub proof fn law_batch_is_covered(
    db: Map<Seq<char>, Seq<u32>>,
    captions: Seq<SidTextView>,
    places: Seq<usize>,
    full: Seq<Seq<u32>>,
    emo: Seq<Seq<u32>>,
)
    requires
        full.len() >= places.len(),
        emo.len() >= places.len(),
    ensures
        db.dom().subset_of(absorbed(db, captions, places, full, emo).dom()),
        forall|k: int|
            0 <= k < places.len() ==> covered(
                captions[(#[trigger] places[k]) as int],
                absorbed(db, captions, places, full, emo),
            ),
    decreases places.len(),
{
    if places.len() > 0 {
        let front = places.drop_last();
        law_batch_is_covered(db, captions, front, full, emo);
        let before = absorbed(db, captions, front, full, emo);
        assert forall|k: int| 0 <= k < places.len() implies covered(
            captions[(#[trigger] places[k]) as int],
            absorbed(db, captions, places, full, emo),
        ) by {
            if k < front.len() {
                assert(front[k] == places[k]);
                assert(covered(captions[front[k] as int], before));
            }
        }
    }
}

/// Whether a key belongs to one of the captions.
pub open spec fn in_use(key: Seq<char>, captions: Seq<SidTextView>) -> bool {
    exists|i: int|
        0 <= i < captions.len() && (key == full_key(#[trigger] captions[i]) || key == emotion_key(
            captions[i],
        ))
}

fn is_in_use(key: &str, sid_texts: &Vec<SidText>) -> (res: bool)
    ensures
        res == in_use(key@, caption_views(sid_texts@)),
{
    let ghost all = caption_views(sid_texts@);
    let mut i: usize = 0;
    while i < sid_texts.len()
        invariant
            all == caption_views(sid_texts@),
            i <= sid_texts@.len(),
            forall|j: int|
                0 <= j < i ==> key@ != full_key(#[trigger] all[j]) && key@ != emotion_key(all[j]),
        decreases sid_texts@.len() - i,
    {
        let c = &sid_texts[i];
        assert(all[i as int] == c@);
        let k = make_full_key(c);
        let ek = make_emotion_key(c);
        if same(key, k.as_str()) || same(key, ek.as_str()) {
            return true;
        }
        i += 1;
    }
    false
}

/// The vectors without those that belong to no caption.
pub fn retain_used(sid_texts: &Vec<SidText>, emb_db: &EmbDb) -> (res: EmbDb)
    ensures
        forall|key: Seq<char>|
            #[trigger] res@.contains_key(key) == (emb_db@.contains_key(key) && in_use(
                key,
                caption_views(sid_texts@),
            )),
        forall|key: Seq<char>| #[trigger] res@.contains_key(key) ==> res@[key] == emb_db@[key],
{
    let ghost all = caption_views(sid_texts@);
    let ghost entries = emb_db.entries@;
    let mut out = EmbDb::new();
    let mut i: usize = 0;
    while i < emb_db.entries.len()
        invariant
            all == caption_views(sid_texts@),
            entries == emb_db.entries@,
            i <= entries.len(),
            forall|key: Seq<char>|
                #[trigger] out@.contains_key(key) == (map_of(entries.take(i as int)).contains_key(
                    key,
                ) && in_use(key, all)),
            forall|key: Seq<char>| #[trigger]
                out@.contains_key(key) ==> out@[key] == map_of(entries.take(i as int))[key],
        decreases entries.len() - i,
    {
        assert(entries.take(i + 1).drop_last() == entries.take(i as int));
        let key = emb_db.entries[i].0.as_str();
        if is_in_use(key, sid_texts) {
            out.insert(key, copy_vector(&emb_db.entries[i].1));
        }
        i += 1;
    }
    assert(entries.take(i as int) == entries);
    out
}

/// Dropping the vectors that belong to no caption leaves the cache as it is.
pub proof fn law_retaining_keeps_cache(
    captions: Seq<SidTextView>,
    db: Map<Seq<char>, Seq<u32>>,
    kept: Map<Seq<char>, Seq<u32>>,
    all: Seq<SidTextView>,
)
    requires
        forall|key: Seq<char>| #[trigger]
            kept.contains_key(key) == (db.contains_key(key) && in_use(key, all)),
        forall|key: Seq<char>| #[trigger] kept.contains_key(key) ==> kept[key] == db[key],
        forall|i: int| 0 <= i < captions.len() ==> all.contains(#[trigger] captions[i]),
    ensures
        cache_of(captions, kept) == cache_of(captions, db),
    decreases captions.len(),
{
    if captions.len() > 0 {
        let front = captions.drop_last();
        assert forall|i: int| 0 <= i < front.len() implies all.contains(#[trigger] front[i]) by {
            assert(front[i] == captions[i]);
        }
        law_retaining_keeps_cache(front, db, kept, all);
        let c = captions.last();
        assert(all.contains(captions[captions.len() - 1]));
        let k = choose|k: int| 0 <= k < all.len() && all[k] == c;
        assert(in_use(full_key(all[k]), all));
        assert(in_use(emotion_key(all[k]), all));
        assert(kept.contains_key(full_key(c)) == db.contains_key(full_key(c)));
        assert(kept.contains_key(emotion_key(c)) == db.contains_key(emotion_key(c)));
    }
}

/// The vectors in a reply, or what is wrong with it.
pub open spec fn reply_vectors(items: Seq<JsonView>) -> Option<Seq<Seq<Real>>>
    decreases items.len(),
{
    if items.len() == 0 {
        Some(Seq::empty())
    } else {
        match (reply_vectors(items.drop_last()), vector_of(items.last())) {
            (Some(front), Some(v)) => Some(front.push(v)),
            _ => None,
        }
    }
}

/// The views of a list of vectors.
pub open spec fn real_views(vectors: Seq<Vec<Real>>) -> Seq<Seq<Real>> {
    vectors.map_values(|v: Vec<Real>| v@)
}

/// The vectors in a reply, or the complaint that it is no array, or that an item is no vector.
pub fn parse_embeddings(v: &Json) -> (res: Result<Vec<Vec<Real>>, String>)
    ensures
        match v@ {
            JsonView::Array(items) => match reply_vectors(items) {
                Some(vs) => res matches Ok(xs) && real_views(xs@) == vs,
                None => res matches Err(e) && e@ == "embedding 向量解析失败"@,
            },
            _ => res matches Err(e) && e@ == "embedding 返回不是数组"@,
        },
{
    match v.as_array() {
        Some(items) => {
            let ghost all = json_views(items@);
            let mut out: Vec<Vec<Real>> = Vec::new();
            let mut i: usize = 0;
            assert(real_views(out@) =~= Seq::empty());
            while i < items.len()
                invariant
                    all == json_views(items@),
                    v@ == JsonView::Array(all),
                    i <= items@.len(),
                    reply_vectors(all.take(i as int)) == Some(real_views(out@)),
                decreases items@.len() - i,
            {
                assert(all.take(i + 1).drop_last() == all.take(i as int));
                match json_f64_vec(&items[i]) {
                    Some(x) => {
                        let ghost before = out@;
                        out.push(x);
                        assert(real_views(out@) =~= real_views(before).push(x@));
                    },
                    None => {
                        proof {
                            lemma_reply_prefix(all, i + 1);
                        }
                        return Err(own("embedding 向量解析失败"));
                    },
                }
                i += 1;
            }
            assert(all.take(i as int) == all);
            Ok(out)
        },
        None => Err(own("embedding 返回不是数组")),
    }
}

proof fn lemma_reply_prefix(items: Seq<JsonView>, n: int)
    requires
        0 <= n <= items.len(),
        reply_vectors(items.take(n)) is None,
    ensures
        reply_vectors(items) is None,
    decreases items.len(),
{
    if n < items.len() {
        assert(items.drop_last().take(n) == items.take(n));
        lemma_reply_prefix(items.drop_last(), n);
    } else {
        assert(items.take(n) == items);
    }
}

/// The value of -1 as a double-precision number.
pub const MINUS_ONE_BITS: u64 = 0xBFF0_0000_0000_0000;

/// A sticker that was found: where it is and its number, all the stickers that were considered, and
/// their multipliers at that moment.
pub struct StickerHitView {
    pub path: Option<Seq<char>>,
    pub sid: Option<i64>,
    pub all_sids: Seq<i64>,
    pub old_multipliers: Seq<(i64, Real)>,
}

/// A sticker that was found: where it is and its number, all the stickers that were considered, and
/// their multipliers at that moment.
#[derive(Debug)]
pub struct StickerHit {
    pub path: Option<String>,
    pub sid: Option<i64>,
    pub all_sids: Vec<i64>,
    pub old_multipliers: Vec<(i64, Real)>,
}

impl View for StickerHit {
    type V = StickerHitView;

    open spec fn view(&self) -> StickerHitView {
        StickerHitView {
            path: path_view(self.path),
            sid: self.sid,
            all_sids: self.all_sids@,
            old_multipliers: self.old_multipliers@,
        }
    }
}

/// No sticker was found.
pub open spec fn no_hit() -> StickerHitView {
    StickerHitView {
        path: None,
        sid: None,
        all_sids: Seq::empty(),
        old_multipliers: Seq::empty(),
    }
}

impl StickerHit {
    /// No sticker was found.
    pub fn none() -> (res: StickerHit)
        ensures
            res@ == no_hit(),
    {
        StickerHit { path: None, sid: None, all_sids: Vec::new(), old_multipliers: Vec::new() }
    }
}

/// A sticker that may fit: its best caption's score, and where it is.
pub struct CandidateView {
    pub sid: i64,
    pub score: Real,
    pub path: Seq<char>,
}

/// A sticker that may fit: its best caption's score, and where it is.
#[derive(Debug)]
pub struct Candidate {
    pub sid: i64,
    pub score: Real,
    pub path: String,
}

impl View for Candidate {
    type V = CandidateView;

    open spec fn view(&self) -> CandidateView {
        CandidateView { sid: self.sid, score: self.score, path: self.path@ }
    }
}

/// The views of a list of candidates.
pub open spec fn candidate_views(items: Seq<Candidate>) -> Seq<CandidateView> {
    items.map_values(|c: Candidate| c@)
}

/// The place of the candidate that is this sticker; their number where there is none.
pub open spec fn candidate_of(items: Seq<CandidateView>, sid: i64) -> int
    decreases items.len(),
{
    if items.len() == 0 || items[0].sid == sid {
        0
    } else {
        1 + candidate_of(items.skip(1), sid)
    }
}

/// The candidates after one more caption: of a sticker that is among them the caption counts only
/// where its score is not at most the one before.
pub open spec fn considered(items: Seq<CandidateView>, new: CandidateView) -> Seq<CandidateView> {
    let k = candidate_of(items, new.sid);
    if k < items.len() {
        if new.score.at_most(items[k].score) {
            items
        } else {
            items.update(k, new)
        }
    } else {
        items.push(new)
    }
}

/// The stickers one of whose captions has an emotion that is not below the threshold, each by the
/// best of those captions.
pub open spec fn fitting_stickers(
    cache: Seq<CacheItemView>,
    emotion_scores: Seq<Real>,
    full_scores: Seq<Real>,
    threshold: Real,
) -> Seq<CandidateView>
    decreases cache.len(),
{
    if cache.len() == 0 {
        Seq::empty()
    } else {
        let k = cache.len() - 1;
        let front = fitting_stickers(cache.drop_last(), emotion_scores, full_scores, threshold);
        if emotion_scores[k].less(threshold) {
            front
        } else {
            considered(
                front,
                CandidateView { sid: cache[k].sid, score: full_scores[k], path: cache[k].path },
            )
        }
    }
}

proof fn lemma_candidate_of(items: Seq<CandidateView>, sid: i64)
    ensures
        0 <= candidate_of(items, sid) <= items.len(),
        candidate_of(items, sid) < items.len() ==> items[candidate_of(items, sid)].sid == sid,
        forall|i: int| 0 <= i < candidate_of(items, sid) ==> (#[trigger] items[i]).sid != sid,
    decreases items.len(),
{
    if items.len() > 0 && items[0].sid != sid {
        let rest = items.skip(1);
        lemma_candidate_of(rest, sid);
        assert forall|i: int| 0 <= i < candidate_of(items, sid) implies (#[trigger] items[i]).sid
            != sid by {
            if i > 0 {
                assert(items[i] == rest[i - 1]);
            }
        }
    }
}

fn consider(items: &mut Vec<Candidate>, new: Candidate)
    ensures
        candidate_views(final(items)@) == considered(candidate_views(old(items)@), new@),
{
    let ghost all = candidate_views(items@);
    let ghost n = new@;
    let mut i: usize = 0;
    assert(all.skip(0) == all);
    while i < items.len() && items[i].sid != new.sid
        invariant
            all == candidate_views(items@),
            i <= items@.len(),
            candidate_of(all, new.sid) == i + candidate_of(all.skip(i as int), new.sid),
        decreases items@.len() - i,
    {
        assert(all.skip(i as int).skip(1) == all.skip(i + 1));
        i += 1;
    }
    if i < items.len() {
        if !new.score.le(items[i].score) {
            items.set(i, new);
            assert(candidate_views(items@) =~= all.update(i as int, n));
        }
    } else {
        items.push(new);
        assert(candidate_views(items@) =~= all.push(n));
    }
}

/// The stickers one of whose captions has an emotion that is not below the threshold, each by the
/// best of those captions. The scores are those of the captions in the cache.
pub fn sticker_candidates(
    cache: &Vec<CacheItem>,
    emotion_scores: &Vec<Real>,
    full_scores: &Vec<Real>,
    threshold: Real,
) -> (res: Vec<Candidate>)
    requires
        emotion_scores@.len() == cache@.len(),
        full_scores@.len() == cache@.len(),
    ensures
        candidate_views(res@) == fitting_stickers(
            cache_views(cache@),
            emotion_scores@,
            full_scores@,
            threshold,
        ),
{
    let ghost all = cache_views(cache@);
    let mut out: Vec<Candidate> = Vec::new();
    let mut i: usize = 0;
    assert(candidate_views(out@) =~= Seq::empty());
    while i < cache.len()
        invariant
            all == cache_views(cache@),
            emotion_scores@.len() == cache@.len(),
            full_scores@.len() == cache@.len(),
            i <= cache@.len(),
            candidate_views(out@) == fitting_stickers(
                all.take(i as int),
                emotion_scores@,
                full_scores@,
                threshold,
            ),
        decreases cache@.len() - i,
    {
        assert(all.take(i + 1).drop_last() == all.take(i as int));
        if !emotion_scores[i].lt(threshold) {
            let c = Candidate {
                sid: cache[i].sid,
                score: full_scores[i],
                path: own(cache[i].path.as_str()),
            };
            consider(&mut out, c);
        }
        i += 1;
    }
    assert(all.take(i as int) == all);
    out
}

/// No sticker is a candidate twice.
pub proof fn law_candidates_are_distinct(
    cache: Seq<CacheItemView>,
    emotion_scores: Seq<Real>,
    full_scores: Seq<Real>,
    threshold: Real,
)
    ensures
        forall|i: int, j: int|
            0 <= i < j < fitting_stickers(cache, emotion_scores, full_scores, threshold).len()
                ==> (#[trigger] fitting_stickers(
                cache,
                emotion_scores,
                full_scores,
                threshold,
            )[i]).sid != (#[trigger] fitting_stickers(
                cache,
                emotion_scores,
                full_scores,
                threshold,
            )[j]).sid,
    decreases cache.len(),
{
    if cache.len() > 0 {
        let k = cache.len() - 1;
        law_candidates_are_distinct(cache.drop_last(), emotion_scores, full_scores, threshold);
        let front = fitting_stickers(cache.drop_last(), emotion_scores, full_scores, threshold);
        lemma_candidate_of(front, cache[k].sid);
        let res = fitting_stickers(cache, emotion_scores, full_scores, threshold);
        assert forall|i: int, j: int| 0 <= i < j < res.len() implies (#[trigger] res[i]).sid != (
        #[trigger] res[j]).sid by {
            assert(res[i].sid == front[i].sid);
            if j < front.len() {
                assert(res[j].sid == front[j].sid);
            }
        }
    }
}

/// Whether the caption at a place has an emotion that is not below the threshold.
pub open spec fn fits(
    cache: Seq<CacheItemView>,
    emotion_scores: Seq<Real>,
    threshold: Real,
    k: int,
) -> bool {
    0 <= k < cache.len() && !emotion_scores[k].less(threshold)
}

/// The candidate that the caption at a place makes of its sticker.
pub open spec fn candidate_at(
    cache: Seq<CacheItemView>,
    full_scores: Seq<Real>,
    k: int,
) -> CandidateView {
    CandidateView { sid: cache[k].sid, score: full_scores[k], path: cache[k].path }
}

/// Whether a candidate is what a caption that fits makes of its sticker.
pub open spec fn comes_from_caption(
    c: CandidateView,
    cache: Seq<CacheItemView>,
    emotion_scores: Seq<Real>,
    full_scores: Seq<Real>,
    threshold: Real,
) -> bool {
    exists|k: int| #[trigger]
        fits(cache, emotion_scores, threshold, k) && c == candidate_at(cache, full_scores, k)
}

/// Whether a sticker is among the candidates with at least this score.
pub open spec fn represented(items: Seq<CandidateView>, sid: i64, score: Real) -> bool {
    exists|i: int|
        0 <= i < items.len() && (#[trigger] items[i]).sid == sid && score.at_most(items[i].score)
}

proof fn lemma_considered_represents(
    items: Seq<CandidateView>,
    new: CandidateView,
    sid: i64,
    score: Real,
)
    requires
        !new.score.nan(),
        forall|i: int| 0 <= i < items.len() ==> !(#[trigger] items[i]).score.nan(),
    ensures
        represented(items, sid, score) ==> represented(considered(items, new), sid, score),
        represented(considered(items, new), new.sid, new.score),
{
    let res = considered(items, new);
    lemma_candidate_of(items, new.sid);
    let p = candidate_of(items, new.sid);
    if represented(items, sid, score) {
        let i = choose|i: int|
            0 <= i < items.len() && (#[trigger] items[i]).sid == sid && score.at_most(
                items[i].score,
            );
        assert(res[i].sid == items[i].sid);
        assert(!items[i].score.nan());
        assert(score.at_most(res[i].score));
    }
    if p < items.len() {
        assert(!items[p].score.nan());
        assert(res[p].sid == new.sid && new.score.at_most(res[p].score));
    } else {
        assert(res[items.len() as int] == new);
    }
}

/// The candidates are the stickers that have a caption that fits, and no other: each is what its best
/// caption that fits makes of it, unless a score is no number.
pub proof fn law_candidates_are_the_best(
    cache: Seq<CacheItemView>,
    emotion_scores: Seq<Real>,
    full_scores: Seq<Real>,
    threshold: Real,
)
    requires
        full_scores.len() >= cache.len(),
        forall|k: int| 0 <= k < cache.len() ==> !(#[trigger] full_scores[k]).nan(),
    ensures
        ({
            let res = fitting_stickers(cache, emotion_scores, full_scores, threshold);
            &&& forall|i: int|
                0 <= i < res.len() ==> comes_from_caption(
                    #[trigger] res[i],
                    cache,
                    emotion_scores,
                    full_scores,
                    threshold,
                )
            &&& forall|k: int| #[trigger]
                fits(cache, emotion_scores, threshold, k) ==> represented(
                    res,
                    cache[k].sid,
                    full_scores[k],
                )
        }),
    decreases cache.len(),
{
    if cache.len() > 0 {
        let n = cache.len() - 1;
        let less = cache.drop_last();
        law_candidates_are_the_best(less, emotion_scores, full_scores, threshold);
        let front = fitting_stickers(less, emotion_scores, full_scores, threshold);
        let res = fitting_stickers(cache, emotion_scores, full_scores, threshold);
        let new = candidate_at(cache, full_scores, n);
        assert(!full_scores[n].nan());
        assert forall|i: int| 0 <= i < front.len() implies comes_from_caption(
            #[trigger] front[i],
            cache,
            emotion_scores,
            full_scores,
            threshold,
        ) && !front[i].score.nan() by {
            let k = choose|k: int| #[trigger]
                fits(less, emotion_scores, threshold, k) && front[i] == candidate_at(
                    less,
                    full_scores,
                    k,
                );
            assert(less[k] == cache[k]);
            assert(!full_scores[k].nan());
            assert(fits(cache, emotion_scores, threshold, k));
        }
        lemma_candidate_of(front, new.sid);
        if fits(cache, emotion_scores, threshold, n) {
            assert(comes_from_caption(new, cache, emotion_scores, full_scores, threshold));
            assert(res == considered(front, new));
        } else {
            assert(res == front);
        }
        assert forall|i: int| 0 <= i < res.len() implies comes_from_caption(
            #[trigger] res[i],
            cache,
            emotion_scores,
            full_scores,
            threshold,
        ) by {
            if i < front.len() && res[i] == front[i] {
                assert(comes_from_caption(front[i], cache, emotion_scores, full_scores, threshold));
            }
        }
        assert forall|k: int| #[trigger] fits(cache, emotion_scores, threshold, k) implies represented(
            res,
            cache[k].sid,
            full_scores[k],
        ) by {
            if k < n {
                assert(less[k] == cache[k]);
                assert(fits(less, emotion_scores, threshold, k));
            }
            lemma_considered_represents(front, new, cache[k].sid, full_scores[k]);
        }
    }
}

/// The place of the first of the greatest numbers that are above the bound, and that number; the
/// bound where there is none.
pub open spec fn best_of(scores: Seq<Real>, bound: Real) -> (Option<int>, Real)
    decreases scores.len(),
{
    if scores.len() == 0 {
        (None, bound)
    } else {
        let front = best_of(scores.drop_last(), bound);
        if front.1.less(scores.last()) {
            (Some(scores.len() - 1), scores.last())
        } else {
            front
        }
    }
}

/// The numbers of the candidates.
pub open spec fn sids_of(items: Seq<CandidateView>) -> Seq<i64> {
    items.map_values(|c: CandidateView| c.sid)
}

/// The sticker that fits best: the candidate with the greatest adjusted score, where that is not
/// below the threshold.
pub open spec fn best_sticker(
    items: Seq<CandidateView>,
    adjusted: Seq<Real>,
    old_multipliers: Seq<(i64, Real)>,
    threshold: Real,
) -> StickerHitView {
    let best = best_of(adjusted, Real { bits: MINUS_ONE_BITS });
    if threshold.at_most(best.1) {
        StickerHitView {
            path: match best.0 {
                Some(k) => Some(items[k].path),
                None => None,
            },
            sid: match best.0 {
                Some(k) => Some(items[k].sid),
                None => None,
            },
            all_sids: sids_of(items),
            old_multipliers,
        }
    } else {
        no_hit()
    }
}

/// The numbers of the candidates.
pub fn candidate_sids(items: &Vec<Candidate>) -> (res: Vec<i64>)
    ensures
        res@ == sids_of(candidate_views(items@)),
{
    let mut out: Vec<i64> = Vec::new();
    let mut i: usize = 0;
    while i < items.len()
        invariant
            i <= items@.len(),
            out@.len() == i,
            forall|j: int| 0 <= j < i ==> #[trigger] out@[j] == items@[j].sid,
        decreases items@.len() - i,
    {
        out.push(items[i].sid);
        i += 1;
    }
    assert(out@ =~= sids_of(candidate_views(items@)));
    out
}

proof fn lemma_best_of(scores: Seq<Real>, bound: Real)
    ensures
        best_of(scores, bound).0 matches Some(k) ==> 0 <= k < scores.len() && scores[k] == best_of(
            scores,
            bound,
        ).1,
    decreases scores.len(),
{
    if scores.len() > 0 {
        lemma_best_of(scores.drop_last(), bound);
    }
}

/// The sticker that fits best, and whether there is one: the candidate with the greatest adjusted
/// score, where that is not below the threshold. Where there is none, all candidates are to recover.
pub fn search_sticker(
    items: &Vec<Candidate>,
    adjusted: &Vec<Real>,
    old_multipliers: Vec<(i64, Real)>,
    threshold: Real,
) -> (res: (StickerHit, bool))
    requires
        adjusted@.len() == items@.len(),
    ensures
        res.0@ == best_sticker(
            candidate_views(items@),
            adjusted@,
            old_multipliers@,
            threshold,
        ),
        res.1 == threshold.at_most(best_of(adjusted@, Real { bits: MINUS_ONE_BITS }).1),
{
    let bound = Real { bits: MINUS_ONE_BITS };
    let mut best: Option<usize> = None;
    let mut score = bound;
    let mut i: usize = 0;
    while i < adjusted.len()
        invariant
            bound == (Real { bits: MINUS_ONE_BITS }),
            i <= adjusted@.len(),
            best_of(adjusted@.take(i as int), bound) == (
                match best {
                    Some(k) => Some(k as int),
                    None => None,
                },
                score,
            ),
            best matches Some(k) ==> k < i,
        decreases adjusted@.len() - i,
    {
        assert(adjusted@.take(i + 1).drop_last() == adjusted@.take(i as int));
        if score.lt(adjusted[i]) {
            best = Some(i);
            score = adjusted[i];
        }
        i += 1;
    }
    assert(adjusted@.take(i as int) == adjusted@);
    if threshold.le(score) {
        let all_sids = candidate_sids(items);
        let (path, sid) = match best {
            Some(k) => (Some(own(items[k].path.as_str())), Some(items[k].sid)),
            None => (None, None),
        };
        (StickerHit { path, sid, all_sids, old_multipliers }, true)
    } else {
        (StickerHit::none(), false)
    }
}

/// A sticker that is found is one of the candidates, its adjusted score is not below the threshold,
/// and no other candidate's is greater.
pub proof fn law_hit_is_the_best(
    items: Seq<CandidateView>,
    adjusted: Seq<Real>,
    old_multipliers: Seq<(i64, Real)>,
    threshold: Real,
)
    requires
        adjusted.len() == items.len(),
        best_sticker(items, adjusted, old_multipliers, threshold).sid is Some,
    ensures
        exists|k: int|
            0 <= k < items.len() && (#[trigger] items[k]).sid == best_sticker(
                items,
                adjusted,
                old_multipliers,
                threshold,
            ).sid->0 && threshold.at_most(adjusted[k]) && forall|j: int|
                0 <= j < items.len() ==> !adjusted[k].less(#[trigger] adjusted[j]),
{
    let bound = Real { bits: MINUS_ONE_BITS };
    let best = best_of(adjusted, bound);
    lemma_best_of(adjusted, bound);
    lemma_best_is_greatest(adjusted, bound);
    let k = best.0->0;
    assert(items[k].sid == best_sticker(items, adjusted, old_multipliers, threshold).sid->0);
}

proof fn lemma_best_is_greatest(scores: Seq<Real>, bound: Real)
    requires
        !bound.nan(),
    ensures
        !best_of(scores, bound).1.nan(),
        forall|j: int| 0 <= j < scores.len() ==> !best_of(scores, bound).1.less(#[trigger] scores[j]),
    decreases scores.len(),
{
    if scores.len() > 0 {
        let front = scores.drop_last();
        lemma_best_is_greatest(front, bound);
        assert forall|j: int| 0 <= j < scores.len() implies !best_of(scores, bound).1.less(
            #[trigger] scores[j],
        ) by {
            if j < front.len() {
                assert(front[j] == scores[j]);
                assert(!best_of(front, bound).1.less(front[j]));
            }
        }
    }
}

/// The words for which a sticker is searched: those of the emotion and the scene, and the emotion
/// alone.
pub fn sticker_query_texts(query: &Json) -> (res: (String, String))
    ensures
        res.0@ == caption_text(query@.str_or_empty("emotion"@), query@.str_or_empty("scene"@)),
        res.1@ == query@.str_or_empty("emotion"@),
{
    let emotion = query.str_or_empty("emotion");
    let scene = query.str_or_empty("scene");
    (caption(emotion.as_str(), scene.as_str()), emotion)
}

/// What the search for stickers keeps: the captions with their vectors, when they were read, how
/// much each group likes each sticker, and whether the vectors are being worked on.
#[derive(Debug)]
pub struct StickerState {
    pub cache: Vec<CacheItem>,
    pub cache_mtime: Real,
    pub multipliers: HashMap<i64, HashMap<i64, Real>>,
    pub job: bool,
}

/// The multiplier of a sticker in a list of them; one where it has none.
pub open spec fn listed(m: Map<i64, Real>, sid: i64) -> Real {
    if m.contains_key(sid) {
        m[sid]
    } else {
        Real { bits: ONE_BITS }
    }
}

/// The multiplier that a sticker gets: that of the one that was sent falls, at most to zero, and
/// that of another rises, at most to one.
pub open spec fn moved(sid: i64, sent_sid: Option<i64>, fallen: Real, risen: Real) -> Real {
    if sent_sid == Some(sid) {
        fallen.greater(Real { bits: 0 })
    } else {
        risen.lesser(Real { bits: ONE_BITS })
    }
}

/// The multiplier of a sticker after the places of `sids` came one after the other; what the last of
/// its own places gave it stays. At each place, `fallen` and `risen` hold what the multiplier falls
/// and rises to as it stands when that place comes.
pub open spec fn moved_to(
    sid: i64,
    sids: Seq<i64>,
    sent_sid: Option<i64>,
    fallen: Seq<Real>,
    risen: Seq<Real>,
    before: Real,
) -> Real
    decreases sids.len(),
{
    if sids.len() == 0 {
        before
    } else if sids.last() == sid {
        moved(sid, sent_sid, fallen[sids.len() - 1], risen[sids.len() - 1])
    } else {
        moved_to(sid, sids.drop_last(), sent_sid, fallen, risen, before)
    }
}

/// The multiplier of a sticker after the places of `sids` came one after the other, where `drop` says
/// what a multiplier falls to and `gain` what it rises to.
pub open spec fn in_turn(
    sid: i64,
    sids: Seq<i64>,
    sent_sid: Option<i64>,
    drop: spec_fn(Real) -> Real,
    gain: spec_fn(Real) -> Real,
    before: Real,
) -> Real
    decreases sids.len(),
{
    if sids.len() == 0 {
        before
    } else {
        let current = in_turn(sid, sids.drop_last(), sent_sid, drop, gain, before);
        if sids.last() == sid {
            moved(sid, sent_sid, drop(current), gain(current))
        } else {
            current
        }
    }
}

/// One update of the multipliers of a group: the sticker that was sent, where one was, and all that
/// are listed.
pub struct Update {
    pub group_id: i64,
    pub sent_sid: Option<i64>,
    pub sids: Seq<i64>,
}

/// How much a group likes a sticker after some updates.
pub open spec fn after_updates(
    group_id: i64,
    sid: i64,
    updates: Seq<Update>,
    drop: spec_fn(Real) -> Real,
    gain: spec_fn(Real) -> Real,
) -> Real
    decreases updates.len(),
{
    if updates.len() == 0 {
        Real { bits: ONE_BITS }
    } else {
        let current = after_updates(group_id, sid, updates.drop_last(), drop, gain);
        let u = updates.last();
        if u.group_id == group_id {
            in_turn(sid, u.sids, u.sent_sid, drop, gain, current)
        } else {
            current
        }
    }
}

/// What is to be done before a search.
#[derive(Clone, Copy, Debug, PartialEq, Eq, Structural)]
pub enum Preparation {
    /// The vectors are being worked on: no search.
    Busy,
    /// There is no library of stickers: no search.
    Nothing,
    /// The search can begin.
    Ready,
    /// There are no usable vectors: they are to be made anew, and there is no search.
    Rebuild,
}

impl StickerState {
    /// How much a group likes a sticker.
    pub open spec fn multiplier(self, group_id: i64, sid: i64) -> Real {
        if self.multipliers@.contains_key(group_id) {
            listed(self.multipliers@[group_id]@, sid)
        } else {
            Real { bits: ONE_BITS }
        }
    }

    /// Nothing read yet, and every sticker liked alike.
    pub fn new() -> (res: StickerState)
        ensures
            res.cache@.len() == 0,
            res.cache_mtime == (Real { bits: 0 }),
            forall|g: i64, s: i64| #[trigger] res.multiplier(g, s) == (Real { bits: ONE_BITS }),
            !res.job,
    {
        broadcast use vstd::std_specs::hash::group_hash_axioms;

        StickerState {
            cache: Vec::new(),
            cache_mtime: Real { bits: 0 },
            multipliers: HashMap::new(),
            job: false,
        }
    }

    /// Whether the vectors are being worked on.
    pub fn sticker_job_running(&self) -> (res: bool)
        ensures
            res == self.job,
    {
        self.job
    }

    /// Begins to work on the vectors; says whether nobody else does.
    pub fn start_sticker_job(&mut self) -> (res: bool)
        ensures
            res == !old(self).job,
            final(self).job,
            final(self).cache == old(self).cache,
            final(self).cache_mtime == old(self).cache_mtime,
            forall|g: i64, s: i64| #[trigger]
                final(self).multiplier(g, s) == old(self).multiplier(g, s),
    {
        let free = !self.job;
        self.job = true;
        free
    }

    /// Ends the work on the vectors.
    pub fn finish_sticker_job(&mut self)
        ensures
            !final(self).job,
            final(self).cache == old(self).cache,
            final(self).cache_mtime == old(self).cache_mtime,
            forall|g: i64, s: i64| #[trigger]
                final(self).multiplier(g, s) == old(self).multiplier(g, s),
    {
        self.job = false;
    }

    /// Puts the captions that have both their vectors into the cache.
    pub fn set_cache(&mut self, sid_texts: &Vec<SidText>, emb_db: &EmbDb, mtime: Real)
        ensures
            cache_views(final(self).cache@) == cache_of(caption_views(sid_texts@), emb_db@),
            final(self).cache_mtime == mtime,
            final(self).job == old(self).job,
            forall|g: i64, s: i64| #[trigger]
                final(self).multiplier(g, s) == old(self).multiplier(g, s),
    {
        self.cache = apply_sticker_cache(sid_texts, emb_db);
        self.cache_mtime = mtime;
    }

    /// Puts the captions that have both their vectors into the cache, and gives the vectors that are
    /// still of use.
    pub fn commit_sticker_cache(&mut self, sid_texts: &Vec<SidText>, emb_db: &EmbDb, mtime: Real)
        -> (res: EmbDb)
        ensures
            cache_views(final(self).cache@) == cache_of(caption_views(sid_texts@), emb_db@),
            final(self).cache_mtime == mtime,
            final(self).job == old(self).job,
            forall|g: i64, s: i64| #[trigger]
                final(self).multiplier(g, s) == old(self).multiplier(g, s),
            forall|key: Seq<char>| #[trigger]
                res@.contains_key(key) == (emb_db@.contains_key(key) && in_use(
                    key,
                    caption_views(sid_texts@),
                )),
            forall|key: Seq<char>| #[trigger] res@.contains_key(key) ==> res@[key] == emb_db@[key],
    {
        let kept = retain_used(sid_texts, emb_db);
        proof {
            let all = caption_views(sid_texts@);
            assert forall|i: int| 0 <= i < all.len() implies all.contains(#[trigger] all[i]) by {}
            law_retaining_keeps_cache(all, emb_db@, kept@, all);
        }
        self.set_cache(sid_texts, &kept, mtime);
        kept
    }

    /// Takes in what was read from disk: the usable vectors, and the captions with the time of their
    /// file. Says whether there is something to search in. What is in the cache already stays.
    pub fn load_memory_from_disk(
        &mut self,
        emb_db: Option<&EmbDb>,
        sid_texts: Option<&Vec<SidText>>,
        mtime: Real,
    ) -> (res: bool)
        ensures
            res == (emb_db is Some && (old(self).cache@.len() > 0 || sid_texts is Some)),
            emb_db is Some && old(self).cache@.len() == 0 && sid_texts is Some ==> cache_views(
                final(self).cache@,
            ) == cache_of(caption_views(sid_texts->0@), emb_db->0@) && final(self).cache_mtime
                == mtime,
            !(emb_db is Some && old(self).cache@.len() == 0 && sid_texts is Some) ==> final(self).cache == old(self).cache && final(self).cache_mtime == old(self).cache_mtime,
            final(self).job == old(self).job,
            forall|g: i64, s: i64| #[trigger]
                final(self).multiplier(g, s) == old(self).multiplier(g, s),
    {
        match emb_db {
            Some(db) => {
                if self.cache.len() > 0 {
                    return true;
                }
                match sid_texts {
                    Some(texts) => {
                        self.set_cache(texts, db, mtime);
                        true
                    },
                    None => false,
                }
            },
            None => false,
        }
    }

    /// Whether the vectors on disk are to be read before a search: nobody works on them, and there is a
    /// library of stickers.
    pub fn reads_vectors(&self, present: bool) -> (res: bool)
        ensures
            res == (!self.job && present),
    {
        !self.job && present
    }

    /// Whether the captions on disk are to be read too: there are usable vectors, and nothing is in the
    /// cache yet.
    pub fn reads_captions(&self, present: bool, emb_db: Option<&EmbDb>) -> (res: bool)
        ensures
            res == (!self.job && present && emb_db is Some && self.cache@.len() == 0),
    {
        !self.job && present && emb_db.is_some() && self.cache.len() == 0
    }

    /// What is to be done before a search. `present` says whether there is a library of stickers;
    /// the rest is what was read from disk.
    pub fn prepare_sticker_search(
        &mut self,
        present: bool,
        emb_db: Option<&EmbDb>,
        sid_texts: Option<&Vec<SidText>>,
        mtime: Real,
    ) -> (res: Preparation)
        ensures
            res == if old(self).job {
                Preparation::Busy
            } else if !present {
                Preparation::Nothing
            } else if emb_db is Some && (old(self).cache@.len() > 0 || sid_texts is Some) {
                Preparation::Ready
            } else {
                Preparation::Rebuild
            },
            res == Preparation::Ready && old(self).cache@.len() == 0 ==> cache_views(
                final(self).cache@,
            ) == cache_of(caption_views(sid_texts->0@), emb_db->0@) && final(self).cache_mtime
                == mtime,
            !(res == Preparation::Ready && old(self).cache@.len() == 0) ==> final(self).cache
                == old(self).cache && final(self).cache_mtime == old(self).cache_mtime,
            final(self).job == old(self).job,
            forall|g: i64, s: i64| #[trigger]
                final(self).multiplier(g, s) == old(self).multiplier(g, s),
    {
        if self.job {
            return Preparation::Busy;
        }
        if !present {
            return Preparation::Nothing;
        }
        if self.load_memory_from_disk(emb_db, sid_texts, mtime) {
            Preparation::Ready
        } else {
            Preparation::Rebuild
        }
    }

    /// Whether the vectors that are missing are to be fetched: nobody works on them, and there are
    /// usable ones and captions that lack one.
    pub fn schedule_sticker_fill(
        &self,
        emb_db: Option<&EmbDb>,
        sid_texts: Option<&Vec<SidText>>,
    ) -> (res: bool)
        ensures
            res == (!self.job && emb_db is Some && sid_texts is Some && lacking(
                caption_views(sid_texts->0@),
                emb_db->0@,
            ).len() > 0),
    {
        if self.job {
            return false;
        }
        match (emb_db, sid_texts) {
            (Some(db), Some(texts)) => missing_indices(texts, db).len() > 0,
            _ => false,
        }
    }

    /// How much a group likes a sticker.
    pub fn get_sticker_multiplier(&self, group_id: i64, sid: i64) -> (res: Real)
        ensures
            res == self.multiplier(group_id, sid),
    {
        broadcast use vstd::std_specs::hash::group_hash_axioms;

        match self.multipliers.get(&group_id) {
            Some(m) => match m.get(&sid) {
                Some(x) => *x,
                None => Real { bits: ONE_BITS },
            },
            None => Real { bits: ONE_BITS },
        }
    }

    /// Lets a group like the sticker that was sent less, and the others more. The places of
    /// `all_sids` come one after the other: for each of them, `fallen` holds the multiplier as it
    /// stands when the place comes less the penalty, and `risen` that one with what it recovers. A
    /// sticker that is listed twice moves twice.
    pub fn update_sticker_multipliers(
        &mut self,
        group_id: i64,
        sent_sid: Option<i64>,
        all_sids: &Vec<i64>,
        fallen: &Vec<Real>,
        risen: &Vec<Real>,
    )
        requires
            fallen@.len() == all_sids@.len(),
            risen@.len() == all_sids@.len(),
        ensures
            forall|s: i64| #[trigger]
                final(self).multiplier(group_id, s) == moved_to(
                    s,
                    all_sids@,
                    sent_sid,
                    fallen@,
                    risen@,
                    old(self).multiplier(group_id, s),
                ),
            forall|g: i64, s: i64|
                g != group_id ==> #[trigger] final(self).multiplier(g, s) == old(self).multiplier(
                    g,
                    s,
                ),
            final(self).cache == old(self).cache,
            final(self).cache_mtime == old(self).cache_mtime,
            final(self).job == old(self).job,
    {
        broadcast use vstd::std_specs::hash::group_hash_axioms;

        let ghost before = *self;
        let mut m: HashMap<i64, Real> = match self.multipliers.remove(&group_id) {
            Some(m) => m,
            None => HashMap::new(),
        };
        assert forall|s: i64| #[trigger] listed(m@, s) == before.multiplier(group_id, s) by {}
        let mut i: usize = 0;
        while i < all_sids.len()
            invariant
                fallen@.len() == all_sids@.len(),
                risen@.len() == all_sids@.len(),
                i <= all_sids@.len(),
                forall|s: i64| #[trigger]
                    listed(m@, s) == moved_to(
                        s,
                        all_sids@.take(i as int),
                        sent_sid,
                        fallen@,
                        risen@,
                        before.multiplier(group_id, s),
                    ),
            decreases all_sids@.len() - i,
        {
            let sid = all_sids[i];
            assert(all_sids@.take(i + 1).drop_last() == all_sids@.take(i as int));
            let sent = match sent_sid {
                Some(s) => s == sid,
                None => false,
            };
            let x = if sent {
                fallen[i].max(Real { bits: 0 })
            } else {
                risen[i].min(Real { bits: ONE_BITS })
            };
            let ghost old_m = m@;
            m.insert(sid, x);
            assert forall|s: i64| #[trigger] listed(m@, s) == moved_to(
                s,
                all_sids@.take(i + 1),
                sent_sid,
                fallen@,
                risen@,
                before.multiplier(group_id, s),
            ) by {
                if s != sid {
                    assert(listed(m@, s) == listed(old_m, s));
                }
            }
            i += 1;
        }
        assert(all_sids@.take(i as int) == all_sids@);
        let ghost done = m@;
        self.multipliers.insert(group_id, m);
        proof {
            assert forall|s: i64| #[trigger] self.multiplier(group_id, s) == moved_to(
                s,
                all_sids@,
                sent_sid,
                fallen@,
                risen@,
                before.multiplier(group_id, s),
            ) by {
                assert(self.multiplier(group_id, s) == listed(done, s));
            }
            assert forall|g: i64, s: i64| g != group_id implies #[trigger] self.multiplier(g, s)
                == before.multiplier(g, s) by {
                assert(self.multipliers@.contains_key(g) == before.multipliers@.contains_key(g));
            }
        }
    }
}

/// The vectors of a file are usable where they were made by the model that is asked for.
pub fn emb_db_usable(file: Option<(String, EmbDb)>, model: &str) -> (res: Option<EmbDb>)
    ensures
        match file {
            Some(f) => if f.0@ == model@ {
                res == Some(f.1)
            } else {
                res is None
            },
            None => res is None,
        },
{
    match file {
        Some((emb_model, db)) => if same(emb_model.as_str(), model) {
            Some(db)
        } else {
            None
        },
        None => None,
    }
}

/// What is to be done in the background.
#[derive(Debug)]
pub enum Job {
    /// There is no caption: the cache is emptied.
    Clear,
    /// Every caption has its vectors: nothing is to be done.
    Done,
    /// The vectors of these captions are to be fetched, batch by batch.
    Fetch(Vec<Vec<usize>>),
}

/// What is to be done in the background for the captions, where these vectors are there already. Anew
/// they are made from none.
pub fn sticker_job(sid_texts: &Vec<SidText>, emb_db: &EmbDb) -> (res: Job)
    ensures
        match res {
            Job::Clear => sid_texts@.len() == 0,
            Job::Done => sid_texts@.len() > 0 && lacking(
                caption_views(sid_texts@),
                emb_db@,
            ).len() == 0,
            Job::Fetch(b) => sid_texts@.len() > 0 && lacking(
                caption_views(sid_texts@),
                emb_db@,
            ).len() > 0 && batch_views(b@) == pieces(lacking(caption_views(sid_texts@), emb_db@))
                && (forall|i: int, k: int|
                0 <= i < b@.len() && 0 <= k < (#[trigger] b@[i])@.len() ==> (#[trigger] b@[i]@[k])
                    < sid_texts@.len()),
        },
{
    if sid_texts.len() == 0 {
        return Job::Clear;
    }
    let missing = missing_indices(sid_texts, emb_db);
    if missing.len() == 0 {
        return Job::Done;
    }
    Job::Fetch(batches(&missing))
}

/// Where there are no vectors yet, every caption lacks its own: anew, all of them are fetched.
pub proof fn law_anew_everything_is_fetched(captions: Seq<SidTextView>)
    ensures
        lacking(captions, Map::<Seq<char>, Seq<u32>>::empty()).len() == captions.len(),
    decreases captions.len(),
{
    if captions.len() > 0 {
        law_anew_everything_is_fetched(captions.drop_last());
    }
}

/// The places of a list come one after the other: where what each place gives was computed from the
/// multiplier as it stood when the place came, every sticker has the multiplier that comes of moving
/// it once for each of its places.
pub proof fn law_places_come_in_turn(
    sid: i64,
    sids: Seq<i64>,
    sent_sid: Option<i64>,
    fallen: Seq<Real>,
    risen: Seq<Real>,
    before: spec_fn(i64) -> Real,
    drop: spec_fn(Real) -> Real,
    gain: spec_fn(Real) -> Real,
)
    requires
        fallen.len() >= sids.len(),
        risen.len() >= sids.len(),
        forall|i: int|
            #![trigger sids[i]]
            0 <= i < sids.len() ==> {
                let current = moved_to(
                    sids[i],
                    sids.take(i),
                    sent_sid,
                    fallen,
                    risen,
                    before(sids[i]),
                );
                fallen[i] == drop(current) && risen[i] == gain(current)
            },
    ensures
        moved_to(sid, sids, sent_sid, fallen, risen, before(sid)) == in_turn(
            sid,
            sids,
            sent_sid,
            drop,
            gain,
            before(sid),
        ),
    decreases sids.len(),
{
    if sids.len() > 0 {
        let front = sids.drop_last();
        assert forall|i: int| #![trigger front[i]] 0 <= i < front.len() implies {
            let current = moved_to(
                front[i],
                front.take(i),
                sent_sid,
                fallen,
                risen,
                before(front[i]),
            );
            fallen[i] == drop(current) && risen[i] == gain(current)
        } by {
            assert(front[i] == sids[i]);
            assert(front.take(i) =~= sids.take(i));
        }
        law_places_come_in_turn(sid, front, sent_sid, fallen, risen, before, drop, gain);
        let n = sids.len() - 1;
        assert(sids[n] == sids.last());
        assert(sids.take(n) =~= front);
    }
}

/// A list is the same as its places one by one.
pub proof fn law_places_one_by_one(
    sid: i64,
    sids: Seq<i64>,
    next: i64,
    sent_sid: Option<i64>,
    drop: spec_fn(Real) -> Real,
    gain: spec_fn(Real) -> Real,
    before: Real,
)
    ensures
        in_turn(sid, sids.push(next), sent_sid, drop, gain, before) == in_turn(
            sid,
            seq![next],
            sent_sid,
            drop,
            gain,
            in_turn(sid, sids, sent_sid, drop, gain, before),
        ),
{
    reveal_with_fuel(in_turn, 2);
    assert(sids.push(next).drop_last() =~= sids);
    assert(seq![next].drop_last() =~= Seq::<i64>::empty());
}

/// An update whose places were computed in turn continues the updates before it.
pub proof fn law_update_continues(
    group_id: i64,
    sid: i64,
    updates: Seq<Update>,
    sids: Seq<i64>,
    sent_sid: Option<i64>,
    fallen: Seq<Real>,
    risen: Seq<Real>,
    drop: spec_fn(Real) -> Real,
    gain: spec_fn(Real) -> Real,
)
    requires
        fallen.len() >= sids.len(),
        risen.len() >= sids.len(),
        forall|i: int|
            #![trigger sids[i]]
            0 <= i < sids.len() ==> {
                let current = moved_to(
                    sids[i],
                    sids.take(i),
                    sent_sid,
                    fallen,
                    risen,
                    after_updates(group_id, sids[i], updates, drop, gain),
                );
                fallen[i] == drop(current) && risen[i] == gain(current)
            },
    ensures
        moved_to(
            sid,
            sids,
            sent_sid,
            fallen,
            risen,
            after_updates(group_id, sid, updates, drop, gain),
        ) == after_updates(
            group_id,
            sid,
            updates.push((Update { group_id, sent_sid, sids })),
            drop,
            gain,
        ),
{
    let before = |s: i64| after_updates(group_id, s, updates, drop, gain);
    assert forall|i: int| #![trigger sids[i]] 0 <= i < sids.len() implies {
        let current = moved_to(sids[i], sids.take(i), sent_sid, fallen, risen, before(sids[i]));
        fallen[i] == drop(current) && risen[i] == gain(current)
    } by {}
    law_places_come_in_turn(sid, sids, sent_sid, fallen, risen, before, drop, gain);
    assert(updates.push((Update { group_id, sent_sid, sids })).drop_last() =~= updates);
}

/// Whether a multiplier lies between zero and one.
pub open spec fn proper(x: Real) -> bool {
    (Real { bits: 0 }).at_most(x) && x.at_most(Real { bits: ONE_BITS })
}

/// Whether a penalty makes nothing greater and a recovery makes nothing less.
pub open spec fn sensible(drop: spec_fn(Real) -> Real, gain: spec_fn(Real) -> Real) -> bool {
    forall|x: Real|
        #![trigger drop(x)]
        #![trigger gain(x)]
        proper(x) ==> (drop(x).nan() || drop(x).at_most(x)) && (gain(x).nan() || x.at_most(gain(x)))
}

proof fn lemma_in_turn_is_proper(
    sid: i64,
    sids: Seq<i64>,
    sent_sid: Option<i64>,
    drop: spec_fn(Real) -> Real,
    gain: spec_fn(Real) -> Real,
    before: Real,
)
    requires
        sensible(drop, gain),
        proper(before),
    ensures
        proper(in_turn(sid, sids, sent_sid, drop, gain, before)),
    decreases sids.len(),
{
    if sids.len() > 0 {
        let front = sids.drop_last();
        lemma_in_turn_is_proper(sid, front, sent_sid, drop, gain, before);
        let current = in_turn(sid, front, sent_sid, drop, gain, before);
        assert(drop(current).nan() || drop(current).at_most(current));
        assert(gain(current).nan() || current.at_most(gain(current)));
    }
}

/// However often the multipliers are updated, each lies between zero and one.
pub proof fn law_multipliers_are_bounded(
    group_id: i64,
    sid: i64,
    updates: Seq<Update>,
    drop: spec_fn(Real) -> Real,
    gain: spec_fn(Real) -> Real,
)
    requires
        sensible(drop, gain),
    ensures
        (Real { bits: 0 }).at_most(after_updates(group_id, sid, updates, drop, gain)),
        after_updates(group_id, sid, updates, drop, gain).at_most(Real { bits: ONE_BITS }),
    decreases updates.len(),
{
    if updates.len() > 0 {
        law_multipliers_are_bounded(group_id, sid, updates.drop_last(), drop, gain);
        let u = updates.last();
        lemma_in_turn_is_proper(
            sid,
            u.sids,
            u.sent_sid,
            drop,
            gain,
            after_updates(group_id, sid, updates.drop_last(), drop, gain),
        );
    }
}

/// A sticker that no update of a group lists keeps the multiplier one there.
pub proof fn law_never_listed_stays_one(
    group_id: i64,
    sid: i64,
    updates: Seq<Update>,
    drop: spec_fn(Real) -> Real,
    gain: spec_fn(Real) -> Real,
)
    requires
        forall|i: int|
            0 <= i < updates.len() && (#[trigger] updates[i]).group_id == group_id
                ==> !updates[i].sids.contains(sid),
    ensures
        after_updates(group_id, sid, updates, drop, gain) == (Real { bits: ONE_BITS }),
    decreases updates.len(),
{
    if updates.len() > 0 {
        let front = updates.drop_last();
        assert forall|i: int|
            0 <= i < front.len() && (#[trigger] front[i]).group_id
                == group_id implies !front[i].sids.contains(sid) by {
            assert(front[i] == updates[i]);
        }
        law_never_listed_stays_one(group_id, sid, front, drop, gain);
        let u = updates.last();
        assert(u == updates[updates.len() - 1]);
        if u.group_id == group_id {
            lemma_unlisted_stays(sid, u.sids, u.sent_sid, drop, gain, Real { bits: ONE_BITS });
        }
    }
}

proof fn lemma_unlisted_stays(
    sid: i64,
    sids: Seq<i64>,
    sent_sid: Option<i64>,
    drop: spec_fn(Real) -> Real,
    gain: spec_fn(Real) -> Real,
    before: Real,
)
    requires
        !sids.contains(sid),
    ensures
        in_turn(sid, sids, sent_sid, drop, gain, before) == before,
    decreases sids.len(),
{
    if sids.len() > 0 {
        let front = sids.drop_last();
        assert(sids[sids.len() - 1] == sids.last());
        if front.contains(sid) {
            let k = choose|k: int| 0 <= k < front.len() && front[k] == sid;
            assert(sids[k] == sid);
        }
        lemma_unlisted_stays(sid, front, sent_sid, drop, gain, before);
    }
}

/// Where a sticker is found there is one candidate, whose adjusted score is not below the threshold, is
/// exceeded by no other's and reached by none before it, such that both the number and the path are
/// that candidate's; the candidates' numbers are all given, and the multipliers as they were. Where no
/// candidate's score reaches the threshold nothing is found.
pub proof fn law_hit_is_one_candidate(
    items: Seq<CandidateView>,
    adjusted: Seq<Real>,
    old_multipliers: Seq<(i64, Real)>,
    threshold: Real,
)
    requires
        adjusted.len() == items.len(),
    ensures
        ({
            let hit = best_sticker(items, adjusted, old_multipliers, threshold);
            &&& hit.path is Some == hit.sid is Some
            &&& hit.sid is Some ==> exists|k: int|
                0 <= k < items.len() && hit.sid == Some((#[trigger] items[k]).sid) && hit.path
                    == Some(items[k].path) && threshold.at_most(adjusted[k]) && (forall|j: int|
                    0 <= j < items.len() ==> !adjusted[k].less(#[trigger] adjusted[j])) && forall|
                    j: int,
                |
                    0 <= j < k ==> !adjusted[k].at_most(#[trigger] adjusted[j])
            &&& hit.sid is Some ==> hit.old_multipliers == old_multipliers && hit.all_sids.len()
                == items.len()
            &&& hit.sid is Some ==> forall|j: int|
                0 <= j < items.len() ==> #[trigger] hit.all_sids[j] == items[j].sid
            &&& (forall|j: int| 0 <= j < items.len() ==> !threshold.at_most(#[trigger] adjusted[j]))
                ==> hit.sid is None && hit.path is None
            &&& (exists|j: int|
                0 <= j < items.len() && threshold.at_most(#[trigger] adjusted[j]) && (Real {
                    bits: 0xbff0_0000_0000_0000,
                }).less(adjusted[j])) ==> hit.sid is Some
        }),
{
    let bound = Real { bits: MINUS_ONE_BITS };
    let hit = best_sticker(items, adjusted, old_multipliers, threshold);
    let best = best_of(adjusted, bound);
    lemma_best_of(adjusted, bound);
    lemma_best_is_greatest(adjusted, bound);
    lemma_none_is_best(adjusted, bound);
    lemma_best_is_first(adjusted, bound);
    if hit.sid is Some {
        let k = best.0->0;
        assert(hit.sid == Some(items[k].sid) && hit.path == Some(items[k].path));
    }
    if exists|j: int|
        0 <= j < items.len() && threshold.at_most(#[trigger] adjusted[j]) && (Real {
            bits: 0xbff0_0000_0000_0000,
        }).less(adjusted[j]) {
        let j = choose|j: int|
            0 <= j < items.len() && threshold.at_most(#[trigger] adjusted[j]) && (Real {
                bits: 0xbff0_0000_0000_0000,
            }).less(adjusted[j]);
        assert(!best.1.less(adjusted[j]));
    }
}

proof fn lemma_best_is_first(scores: Seq<Real>, bound: Real)
    requires
        !bound.nan(),
    ensures
        best_of(scores, bound).0 matches Some(k) ==> forall|j: int|
            0 <= j < k ==> !best_of(scores, bound).1.at_most(#[trigger] scores[j]),
    decreases scores.len(),
{
    if scores.len() > 0 {
        let front = scores.drop_last();
        lemma_best_is_first(front, bound);
        lemma_best_of(front, bound);
        lemma_best_is_greatest(front, bound);
        assert forall|j: int| 0 <= j < front.len() implies #[trigger] scores[j] == front[j] by {}
        if best_of(scores, bound).0 is Some {
            let k = best_of(scores, bound).0->0;
            assert forall|j: int| 0 <= j < k implies !best_of(scores, bound).1.at_most(
                #[trigger] scores[j],
            ) by {
                if best_of(front, bound).1.less(scores.last()) {
                    assert(!best_of(front, bound).1.less(front[j]));
                } else {
                    assert(!best_of(front, bound).1.at_most(front[j]));
                }
            }
        }
    }
}

proof fn lemma_none_is_best(scores: Seq<Real>, bound: Real)
    ensures
        best_of(scores, bound).0 is None ==> best_of(scores, bound).1 == bound,
    decreases scores.len(),
{
    if scores.len() > 0 {
        lemma_none_is_best(scores.drop_last(), bound);
    }
}

/// A sticker has a caption for each of its descriptions that names a feeling or a scene: the feeling, a
/// comma and the scene, or the scene alone; a single text describes the scene. Each carries the sticker's
/// number, which its key writes, and its path.
pub proof fn law_captions_of_a_sticker(
    key: Seq<char>,
    sticker: JsonView,
    s: Seq<char>,
    items: Seq<JsonView>,
    item: JsonView,
    sid: i64,
)
    requires
        int_of_text(key) == Some(sid),
    ensures
        sticker.get("caption"@) == Some(JsonView::Str(s)) && s.len() > 0 ==> sticker_captions(
            key,
            sticker,
        ) == seq![SidTextView { sid, text: s, path: sticker.get_str("path"@) }],
        sticker.get("caption"@) == Some(JsonView::Str(s)) && s.len() == 0 ==> sticker_captions(
            key,
            sticker,
        ).len() == 0,
        sticker.get("caption"@) is None ==> sticker_captions(key, sticker).len() == 0,
        sticker.get("caption"@) == Some(JsonView::Array(items)) ==> sticker_captions(key, sticker)
            == list_captions(sid, sticker.get_str("path"@), items),
        ({
            let path = sticker.get_str("path"@);
            let emotion = item.str_or_empty("emotion"@);
            let scene = item.str_or_empty("scene"@);
            list_captions(sid, path, items.push(item)) == list_captions(sid, path, items) + (
            if emotion.len() > 0 {
                seq![SidTextView { sid, text: emotion + ","@ + scene, path }]
            } else if scene.len() > 0 {
                seq![SidTextView { sid, text: scene, path }]
            } else {
                Seq::empty()
            })
        }),
        list_captions(sid, sticker.get_str("path"@), Seq::empty()).len() == 0,
{
    assert(items.push(item).drop_last() =~= items);
}

/// The captions of a library are those of its stickers, one after the other.
pub proof fn law_captions_of_the_library(
    stickers: Seq<(Seq<char>, JsonView)>,
    key: Seq<char>,
    sticker: JsonView,
    db: JsonView,
)
    ensures
        all_captions(Seq::empty()).len() == 0,
        all_captions(stickers.push((key, sticker))) == all_captions(stickers) + sticker_captions(
            key,
            sticker,
        ),
        db.get("stickers"@) == Some(JsonView::Object(stickers)) ==> library_captions(db)
            == all_captions(stickers),
        db.get("stickers"@) is None ==> library_captions(db).len() == 0,
{
    assert(stickers.push((key, sticker)).drop_last() =~= stickers);
}

/// The vectors of a caption are kept under the sticker's number and the caption's text, that of the
/// feeling under the same behind a mark; both are needed.
pub proof fn law_keys_of_a_caption(c: SidTextView, db: Map<Seq<char>, Seq<u32>>)
    ensures
        full_key(c) == int_text(c.sid as int) + ":"@ + c.text,
        emotion_key(c) == "e:"@ + (int_text(c.sid as int) + ":"@ + c.text),
        full_key(c) != emotion_key(c),
        covered(c, db) == (db.contains_key(int_text(c.sid as int) + ":"@ + c.text)
            && db.contains_key("e:"@ + (int_text(c.sid as int) + ":"@ + c.text))),
{
    reveal_strlit("e:");
    assert(emotion_key(c).len() == full_key(c).len() + 2);
}

/// The cache holds every caption whose vectors are both there, in their order, with its own vectors and
/// path.
pub proof fn law_covered_captions_are_cached(
    captions: Seq<SidTextView>,
    db: Map<Seq<char>, Seq<u32>>,
)
    ensures
        selected(
            captions.len() as int,
            |i: int|
                if db.contains_key(full_key(captions[i])) && db.contains_key(emotion_key(captions[i])) {
                    Some(
                        CacheItemView {
                            sid: captions[i].sid,
                            text: captions[i].text,
                            path: if captions[i].path is Some {
                                captions[i].path->0
                            } else {
                                Seq::empty()
                            },
                            full_emb: db[full_key(captions[i])],
                            emotion_emb: db[emotion_key(captions[i])],
                        },
                    )
                } else {
                    None
                },
            cache_of(captions, db),
        ),
{
    let f = |i: int|
        if db.contains_key(full_key(captions[i])) && db.contains_key(emotion_key(captions[i])) {
            Some(
                CacheItemView {
                    sid: captions[i].sid,
                    text: captions[i].text,
                    path: if captions[i].path is Some {
                        captions[i].path->0
                    } else {
                        Seq::empty()
                    },
                    full_emb: db[full_key(captions[i])],
                    emotion_emb: db[emotion_key(captions[i])],
                },
            )
        } else {
            None
        };
    lemma_covered_captions_are_cached(captions, db, f, captions.len() as int);
    assert(captions.take(captions.len() as int) =~= captions);
}

proof fn lemma_covered_captions_are_cached(
    captions: Seq<SidTextView>,
    db: Map<Seq<char>, Seq<u32>>,
    f: spec_fn(int) -> Option<CacheItemView>,
    n: int,
)
    requires
        0 <= n <= captions.len(),
        forall|i: int|
            0 <= i < captions.len() ==> (#[trigger] f(i)) == (
                if db.contains_key(full_key(captions[i])) && db.contains_key(emotion_key(captions[i])) {
                    Some(
                        CacheItemView {
                            sid: captions[i].sid,
                            text: captions[i].text,
                            path: if captions[i].path is Some {
                                captions[i].path->0
                            } else {
                                Seq::empty()
                            },
                            full_emb: db[full_key(captions[i])],
                            emotion_emb: db[emotion_key(captions[i])],
                        },
                    )
                } else {
                    None
                }
            ),
    ensures
        selected(n, f, cache_of(captions.take(n), db)),
    decreases n,
{
    if n == 0 {
        lemma_selected_none(f);
    } else {
        lemma_covered_captions_are_cached(captions, db, f, n - 1);
        assert(captions.take(n).drop_last() =~= captions.take(n - 1));
        lemma_selected_next(n - 1, f, cache_of(captions.take(n - 1), db));
    }
}

/// What lacks vectors are the places of the captions for which one of the two is not there.
pub proof fn law_others_are_lacking(captions: Seq<SidTextView>, db: Map<Seq<char>, Seq<u32>>)
    ensures
        selected(
            captions.len() as int,
            |i: int|
                if db.contains_key(full_key(captions[i])) && db.contains_key(emotion_key(captions[i])) {
                    None
                } else {
                    Some(i as usize)
                },
            lacking(captions, db),
        ),
{
    let f = |i: int|
        if db.contains_key(full_key(captions[i])) && db.contains_key(emotion_key(captions[i])) {
            None
        } else {
            Some(i as usize)
        };
    lemma_others_are_lacking(captions, db, f, captions.len() as int);
    assert(captions.take(captions.len() as int) =~= captions);
}

proof fn lemma_others_are_lacking(
    captions: Seq<SidTextView>,
    db: Map<Seq<char>, Seq<u32>>,
    f: spec_fn(int) -> Option<usize>,
    n: int,
)
    requires
        0 <= n <= captions.len(),
        forall|i: int|
            0 <= i < captions.len() ==> (#[trigger] f(i)) == (
                if db.contains_key(full_key(captions[i])) && db.contains_key(emotion_key(captions[i])) {
                    None
                } else {
                    Some(i as usize)
                }
            ),
    ensures
        selected(n, f, lacking(captions.take(n), db)),
    decreases n,
{
    if n == 0 {
        lemma_selected_none(f);
    } else {
        lemma_others_are_lacking(captions, db, f, n - 1);
        assert(captions.take(n).drop_last() =~= captions.take(n - 1));
        lemma_selected_next(n - 1, f, lacking(captions.take(n - 1), db));
    }
}

/// The places are asked for in batches of ten: put together the batches are the places, in their order,
/// every batch but the last has ten, and none is empty.
pub proof fn law_batches_of_ten(s: Seq<usize>, b: int)
    requires
        0 <= b < pieces(s).len(),
    ensures
        pieces(s).flatten() == s,
        b < pieces(s).len() - 1 ==> pieces(s)[b].len() == 10,
        1 <= pieces(s)[b].len() <= 10,
    decreases s.len(),
{
    let all = pieces(s);
    if s.len() <= 10 {
        assert(all =~= seq![s]);
        all.lemma_flatten_one_element();
    } else {
        let rest = s.skip(10);
        let head = seq![s.take(10)];
        assert(pieces(rest).len() > 0);
        law_batches_of_ten(
            rest,
            if b > 0 {
                b - 1
            } else {
                0
            },
        );
        assert(all.drop_first() =~= pieces(rest));
        assert(all.first() == s.take(10));
        assert(s.take(10) + rest =~= s);
    }
}

/// What is asked for a batch is the text of each of its captions, and what stands before the first comma.
pub proof fn law_batch_asks_for_its_captions(captions: Seq<SidTextView>, places: Seq<usize>, k: int)
    requires
        0 <= k < places.len(),
    ensures
        batch_texts(captions, places).len() == places.len(),
        batch_emotions(captions, places).len() == places.len(),
        batch_texts(captions, places)[k] == captions[places[k] as int].text,
        batch_emotions(captions, places)[k] == before_char(captions[places[k] as int].text, ','),
{
}

/// The vectors of a batch are kept for its captions in turn: the next place gets the next of both, and
/// where one of them did not come nothing is kept.
pub proof fn law_batch_is_kept_in_turn(
    db: Map<Seq<char>, Seq<u32>>,
    captions: Seq<SidTextView>,
    places: Seq<usize>,
    at: usize,
    full: Seq<Seq<u32>>,
    emo: Seq<Seq<u32>>,
)
    ensures
        absorbed(db, captions, Seq::empty(), full, emo) == db,
        ({
            let k = places.len() as int;
            let before = absorbed(db, captions, places, full, emo);
            let after = absorbed(db, captions, places.push(at), full, emo);
            let c = captions[at as int];
            &&& (k >= full.len() || k >= emo.len()) ==> after == before
            &&& k < full.len() && k < emo.len() ==> {
                &&& after.contains_key(full_key(c)) && after[full_key(c)] == full[k]
                &&& after.contains_key(emotion_key(c)) && after[emotion_key(c)] == emo[k]
                &&& forall|key: Seq<char>|
                    key != full_key(c) && key != emotion_key(c) ==> {
                        &&& #[trigger] after.contains_key(key) == before.contains_key(key)
                        &&& before.contains_key(key) ==> after[key] == before[key]
                    }
            }
        }),
{
    assert(places.push(at).drop_last() =~= places);
    law_keys_of_a_caption(captions[at as int], db);
}

/// All the vectors of an answer are read, each in its place, or none where one cannot be.
pub proof fn law_answer_is_read_whole(items: Seq<JsonView>)
    ensures
        (forall|i: int| 0 <= i < items.len() ==> vector_of(#[trigger] items[i]) is Some)
            == reply_vectors(items) is Some,
        reply_vectors(items) is Some ==> reply_vectors(items)->0.len() == items.len() && forall|
            i: int,
        |
            0 <= i < items.len() ==> Some(#[trigger] reply_vectors(items)->0[i]) == vector_of(
                items[i],
            ),
    decreases items.len(),
{
    if items.len() > 0 {
        let front = items.drop_last();
        law_answer_is_read_whole(front);
        if forall|i: int| 0 <= i < items.len() ==> vector_of(#[trigger] items[i]) is Some {
            assert forall|i: int| 0 <= i < front.len() implies vector_of(#[trigger] front[i])
                is Some by {
                assert(vector_of(items[i]) is Some);
            }
            assert(vector_of(items[items.len() - 1]) is Some);
        }
        if reply_vectors(items) is Some {
            let k = items.len() - 1;
            assert forall|i: int| 0 <= i < items.len() implies vector_of(#[trigger] items[i]) is Some
                && Some(reply_vectors(items)->0[i]) == vector_of(items[i]) by {
                if i < k {
                    assert(vector_of(front[i]) is Some);
                    assert(reply_vectors(front)->0[i] == reply_vectors(items)->0[i]);
                }
            }
        }
    }
}

/// Each candidate is a caption whose feeling is near enough, with the number and the path of its sticker
/// and its own score; and each such caption's sticker is a candidate, with a score not below that one.
pub proof fn law_candidates_are_captions(
    cache: Seq<CacheItemView>,
    emotion_scores: Seq<Real>,
    full_scores: Seq<Real>,
    threshold: Real,
    i: int,
    k: int,
)
    requires
        full_scores.len() >= cache.len(),
        forall|n: int| 0 <= n < cache.len() ==> !(#[trigger] full_scores[n]).nan(),
    ensures
        ({
            let res = fitting_stickers(cache, emotion_scores, full_scores, threshold);
            &&& 0 <= i < res.len() ==> exists|n: int|
                0 <= n < cache.len() && !emotion_scores[n].less(threshold) && res[i].sid == (
                #[trigger] cache[n]).sid && res[i].path == cache[n].path && res[i].score
                    == full_scores[n]
            &&& 0 <= k < cache.len() && !emotion_scores[k].less(threshold) ==> exists|n: int|
                0 <= n < res.len() && (#[trigger] res[n]).sid == cache[k].sid
                    && full_scores[k].at_most(res[n].score)
        }),
{
    let res = fitting_stickers(cache, emotion_scores, full_scores, threshold);
    law_candidates_are_the_best(cache, emotion_scores, full_scores, threshold);
    if 0 <= i < res.len() {
        assert(comes_from_caption(res[i], cache, emotion_scores, full_scores, threshold));
        let n = choose|n: int| #[trigger]
            fits(cache, emotion_scores, threshold, n) && res[i] == candidate_at(
                cache,
                full_scores,
                n,
            );
        assert(res[i].sid == cache[n].sid);
    }
    if 0 <= k < cache.len() && !emotion_scores[k].less(threshold) {
        assert(fits(cache, emotion_scores, threshold, k));
        assert(represented(res, cache[k].sid, full_scores[k]));
    }
}

/// The multiplier of the sticker that was sent falls, not below nothing, and that of each other candidate
/// rises, not above one; a sticker that was no candidate keeps its own.
pub proof fn law_multipliers_move(
    sid: i64,
    sids: Seq<i64>,
    sent_sid: Option<i64>,
    fallen: Seq<Real>,
    risen: Seq<Real>,
    before: Real,
    k: int,
)
    ensures
        !sids.contains(sid) ==> moved_to(sid, sids, sent_sid, fallen, risen, before) == before,
        0 <= k < sids.len() && sids[k] == sid && (forall|j: int|
            k < j < sids.len() ==> #[trigger] sids[j] != sid) && sent_sid == Some(sid) ==> moved_to(
            sid,
            sids,
            sent_sid,
            fallen,
            risen,
            before,
        ) == fallen[k].greater((Real { bits: 0 })),
        0 <= k < sids.len() && sids[k] == sid && (forall|j: int|
            k < j < sids.len() ==> #[trigger] sids[j] != sid) && sent_sid != Some(sid) ==> moved_to(
            sid,
            sids,
            sent_sid,
            fallen,
            risen,
            before,
        ) == risen[k].lesser((Real { bits: 0x3ff0_0000_0000_0000 })),
    decreases sids.len(),
{
    if sids.len() > 0 {
        let front = sids.drop_last();
        let last = sids.len() - 1;
        law_multipliers_move(sid, front, sent_sid, fallen, risen, before, k);
        if !sids.contains(sid) {
            assert(sids[last] != sid);
            if front.contains(sid) {
                let j = choose|j: int| 0 <= j < front.len() && front[j] == sid;
                assert(sids[j] == sid);
            }
        }
        if 0 <= k < last && sids[k] == sid && (forall|j: int|
            k < j < sids.len() ==> #[trigger] sids[j] != sid) {
            assert(sids[last] != sid);
            assert(front[k] == sid);
            assert forall|j: int| k < j < front.len() implies #[trigger] front[j] != sid by {
                assert(sids[j] != sid);
            }
        }
    }
}

/// A search is for the feeling, a comma and the scene, or for the scene alone where no feeling is named.
pub proof fn law_search_words(emotion: Seq<char>, scene: Seq<char>)
    ensures
        emotion.len() > 0 ==> caption_text(emotion, scene) == emotion + ","@ + scene,
        emotion.len() == 0 ==> caption_text(emotion, scene) == scene,
{
}

/// The captions are gone through in their order: one whose feeling is not near enough changes nothing; one
/// of a sticker that is no candidate yet comes last; and one of a sticker that is takes its place where its
/// score is greater.
pub proof fn law_captions_are_gone_through(
    cache: Seq<CacheItemView>,
    item: CacheItemView,
    emotion_scores: Seq<Real>,
    full_scores: Seq<Real>,
    threshold: Real,
    i: int,
)
    ensures
        ({
            let n = cache.len() as int;
            let before = fitting_stickers(cache, emotion_scores, full_scores, threshold);
            let after = fitting_stickers(
                cache.push(item),
                emotion_scores,
                full_scores,
                threshold,
            );
            let new = CandidateView { sid: item.sid, score: full_scores[n], path: item.path };
            &&& fitting_stickers(
                Seq::empty(),
                emotion_scores,
                full_scores,
                threshold,
            ).len() == 0
            &&& emotion_scores[n].less(threshold) ==> after == before
            &&& !emotion_scores[n].less(threshold) && (forall|k: int|
                0 <= k < before.len() ==> (#[trigger] before[k]).sid != item.sid) ==> after
                == before + seq![new]
            &&& !emotion_scores[n].less(threshold) && 0 <= i < before.len() && before[i].sid
                == item.sid && full_scores[n].at_most(before[i].score) ==> after == before
            &&& !emotion_scores[n].less(threshold) && 0 <= i < before.len() && before[i].sid
                == item.sid && !full_scores[n].at_most(before[i].score) ==> after == before.update(
                i,
                new,
            )
        }),
{
    assert(cache.push(item).drop_last() =~= cache);
    let n = cache.len() as int;
    let before = fitting_stickers(cache, emotion_scores, full_scores, threshold);
    let new = CandidateView { sid: item.sid, score: full_scores[n], path: item.path };
    lemma_candidate_of(before, item.sid);
    law_candidates_are_distinct(cache, emotion_scores, full_scores, threshold);
    let k = candidate_of(before, item.sid);
    if 0 <= i < before.len() && before[i].sid == item.sid && k < before.len() && k != i {
        if k < i {
            assert(before[k].sid != before[i].sid);
        } else {
            assert(before[i].sid != before[k].sid);
        }
    }
    assert(before.push(new) =~= before + seq![new]);
}

/// A sticker whose key writes no number counts under zero; one whose captions are neither a text nor a
/// list has none.
pub proof fn law_odd_stickers(key: Seq<char>, sticker: JsonView, s: Seq<char>)
    ensures
        int_of_text(key) is None && sticker.get("caption"@) == Some(JsonView::Str(s)) && s.len() > 0
            ==> sticker_captions(key, sticker) == seq![
            SidTextView { sid: 0, text: s, path: sticker.get_str("path"@) },
        ],
        sticker.get("caption"@) is Some && !(sticker.get("caption"@)->0 is Str) && !(sticker.get(
            "caption"@,
        )->0 is Array) ==> sticker_captions(key, sticker).len() == 0,
{
}

/// A key is in use where it is one of the two keys of any caption.
pub proof fn law_keys_in_use(key: Seq<char>, captions: Seq<SidTextView>, i: int)
    ensures
        0 <= i < captions.len() ==> in_use(
            int_text(captions[i].sid as int) + ":"@ + captions[i].text,
            captions,
        ) && in_use(
            "e:"@ + (int_text(captions[i].sid as int) + ":"@ + captions[i].text),
            captions,
        ),
        (forall|k: int|
            0 <= k < captions.len() ==> key != int_text((#[trigger] captions[k]).sid as int) + ":"@
                + captions[k].text && key != "e:"@ + (int_text(captions[k].sid as int) + ":"@
                + captions[k].text)) ==> !in_use(key, captions),
{
    if 0 <= i < captions.len() {
        assert(full_key(captions[i]) == int_text(captions[i].sid as int) + ":"@ + captions[i].text);
    }
}

} // verus!
