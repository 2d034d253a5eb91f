//! Voice clips: which clip says what is to be said, and what to do where none does.

use crate::config::Config;
use crate::json::{entry_views, Json, JsonView};
use crate::number::Real;
use crate::order::{
    law_first_ranked_down_are_best, law_ranking_down_is_in_order, law_ranking_down_is_permutation,
    outranks, rank_down, ranking_down,
};
use crate::patterns::{
    first_number, law_first_mark_is_found, law_marks_are_told_apart, law_unmarked_text_is_kept,
    number_in, remove_marks, without_marks, AT_MARK, REPLY_MARK,
};
use crate::rpc::{cfg_model, llm_options, make_llm_options, model_at, LlmRequest};
use crate::text::{
    chars_of, int_of_text, join, joined, nat_text, own, parse_int, replace, replaced, same,
    split_words, trim, trimmed, unsigned_text, views, words,
};
use crate::select::{lemma_selected_next, lemma_selected_none, selected};
use vstd::prelude::*;
use vstd::string::*;

verus! {

/// A voice clip: its number, where it is, and what is said in it.
pub struct VoiceClipView {
    pub vid: i64,
    pub path: Seq<char>,
    pub tag: Seq<char>,
}

/// A voice clip: its number, where it is, and what is said in it.
#[derive(Debug)]
pub struct VoiceClip {
    pub vid: i64,
    pub path: String,
    pub tag: String,
}

impl View for VoiceClip {
    type V = VoiceClipView;

    open spec fn view(&self) -> VoiceClipView {
        VoiceClipView { vid: self.vid, path: self.path@, tag: self.tag@ }
    }
}

/// The views of a list of clips.
pub open spec fn clip_views(clips: Seq<VoiceClip>) -> Seq<VoiceClipView> {
    clips.map_values(|c: VoiceClip| c@)
}

fn copy_clip(c: &VoiceClip) -> (res: VoiceClip)
    ensures
        res@ == c@,
{
    VoiceClip { vid: c.vid, path: own(c.path.as_str()), tag: own(c.tag.as_str()) }
}

/// What becomes of something to say.
#[derive(Debug)]
pub enum VoiceHit {
    /// Nothing.
    Skip,
    /// A clip that is in this file.
    File(String),
    /// A text.
    Text(String),
}

/// What becomes of something to say.
pub enum VoiceHitView {
    Skip,
    File(Seq<char>),
    Text(Seq<char>),
}

impl View for VoiceHit {
    type V = VoiceHitView;

    open spec fn view(&self) -> VoiceHitView {
        match self {
            VoiceHit::Skip => VoiceHitView::Skip,
            VoiceHit::File(s) => VoiceHitView::File(s@),
            VoiceHit::Text(s) => VoiceHitView::Text(s@),
        }
    }
}

/// What is to be said in a text: its words without the marks.
pub open spec fn spoken(text: Seq<char>) -> Seq<char> {
    joined(words(without_marks(without_marks(text, AT_MARK@), REPLY_MARK@)), " "@)
}

/// What is to be said in a text: its words without the marks.
pub fn plain_tts_text(text: &str) -> (res: String)
    ensures
        res@ == spoken(text@),
{
    let bare = remove_marks(text);
    let parts = split_words(bare.as_str());
    join(&parts, " ")
}

/// The characters of a text, each where it stands first.
pub open spec fn distinct(s: Seq<char>) -> Seq<char>
    decreases s.len(),
{
    if s.len() == 0 {
        Seq::empty()
    } else if s.drop_last().contains(s.last()) {
        distinct(s.drop_last())
    } else {
        distinct(s.drop_last()).push(s.last())
    }
}

/// How many different characters two texts have in common, and how many they have together.
pub open spec fn overlap(a: Seq<char>, b: Seq<char>) -> (nat, nat) {
    (distinct(a).filter(|c: char| b.contains(c)).len(), distinct(a + b).len())
}

proof fn lemma_distinct(s: Seq<char>)
    ensures
        forall|c: char| #[trigger] distinct(s).contains(c) == s.contains(c),
        distinct(s).no_duplicates(),
        distinct(s).len() <= s.len(),
    decreases s.len(),
{
    if s.len() > 0 {
        let front = s.drop_last();
        lemma_distinct(front);
        let d = distinct(front);
        assert forall|c: char| #[trigger] distinct(s).contains(c) == s.contains(c) by {
            if s.contains(c) {
                let k = choose|k: int| 0 <= k < s.len() && s[k] == c;
                if k < front.len() {
                    assert(front[k] == c);
                    assert(front.contains(c));
                    assert(d.contains(c));
                    let m = choose|m: int| 0 <= m < d.len() && d[m] == c;
                    assert(distinct(s)[m] == c);
                } else if front.contains(s.last()) {
                    assert(d.contains(c));
                } else {
                    assert(distinct(s)[d.len() as int] == c);
                }
            }
            if distinct(s).contains(c) {
                let m = choose|m: int| 0 <= m < distinct(s).len() && distinct(s)[m] == c;
                if m < d.len() {
                    assert(d[m] == c);
                    assert(d.contains(c));
                    assert(front.contains(c));
                    let k = choose|k: int| 0 <= k < front.len() && front[k] == c;
                    assert(s[k] == c);
                } else {
                    assert(s[s.len() - 1] == c);
                }
            }
        }
        if !front.contains(s.last()) {
            assert(!d.contains(s.last()));
            assert forall|i: int, j: int| 0 <= i < distinct(s).len() && 0 <= j < distinct(s).len()
                && i != j implies distinct(s)[i] != distinct(s)[j] by {
                if i < d.len() {
                    assert(d.contains(d[i]));
                }
                if j < d.len() {
                    assert(d.contains(d[j]));
                }
            }
        }
    } else {
        assert(distinct(s) =~= s);
    }
}

fn holds(chars: &Vec<char>, c: char) -> (res: bool)
    ensures
        res == chars@.contains(c),
{
    let mut i: usize = 0;
    while i < chars.len()
        invariant
            i <= chars@.len(),
            forall|j: int| 0 <= j < i ==> chars@[j] != c,
        decreases chars@.len() - i,
    {
        if chars[i] == c {
            assert(chars@[i as int] == c);
            return true;
        }
        i += 1;
    }
    false
}

fn distinct_chars(chars: &Vec<char>) -> (res: Vec<char>)
    ensures
        res@ == distinct(chars@),
{
    let mut out: Vec<char> = Vec::new();
    let mut i: usize = 0;
    while i < chars.len()
        invariant
            i <= chars@.len(),
            out@ == distinct(chars@.take(i as int)),
        decreases chars@.len() - i,
    {
        assert(chars@.take(i + 1).drop_last() == chars@.take(i as int));
        proof {
            lemma_distinct(chars@.take(i as int));
        }
        if !holds(&out, chars[i]) {
            out.push(chars[i]);
        }
        i += 1;
    }
    assert(chars@.take(i as int) == chars@);
    out
}

/// How much two texts have in common: the number of different characters in both, and in either.
/// Nothing where one of them is empty.
pub fn jaccard(a: &str, b: &str) -> (res: Option<(usize, usize)>)
    ensures
        match res {
            Some(r) => a@.len() > 0 && b@.len() > 0 && (r.0 as nat, r.1 as nat) == overlap(a@, b@)
                && r.0 <= r.1 && r.1 > 0,
            None => a@.len() == 0 || b@.len() == 0,
        },
{
    if a.is_empty() || b.is_empty() {
        return None;
    }
    let ca = chars_of(a);
    let cb = chars_of(b);
    let da = distinct_chars(&ca);
    let mut inter: usize = 0;
    let mut i: usize = 0;
    let ghost f = |c: char| b@.contains(c);
    proof {
        reveal(Seq::filter);
    }
    while i < da.len()
        invariant
            cb@ == b@,
            f == (|c: char| b@.contains(c)),
            i <= da@.len(),
            inter <= i,
            inter == da@.take(i as int).filter(f).len(),
        decreases da@.len() - i,
    {
        assert(da@.take(i + 1).drop_last() == da@.take(i as int));
        proof {
            reveal(Seq::filter);
        }
        if holds(&cb, da[i]) {
            inter += 1;
        }
        i += 1;
    }
    assert(da@.take(i as int) == da@);
    let mut both = ca;
    let mut second = cb;
    both.append(&mut second);
    assert(both@ =~= a@ + b@);
    let du = distinct_chars(&both);
    proof {
        law_overlap_is_a_part(a@, b@);
        lemma_distinct(a@ + b@);
        assert((a@ + b@)[0] == a@[0]);
        assert((a@ + b@).contains(a@[0]));
        assert(distinct(a@ + b@).contains(a@[0]));
    }
    Some((inter, du.len()))
}

/// What two texts have in common is no more than what they have together.
pub proof fn law_overlap_is_a_part(a: Seq<char>, b: Seq<char>)
    ensures
        overlap(a, b).0 <= overlap(a, b).1,
{
    let d = distinct(a);
    let f = |c: char| b.contains(c);
    lemma_distinct(a);
    lemma_distinct(a + b);
    lemma_filter_len(d, f);
    let u = distinct(a + b);
    d.unique_seq_to_set();
    u.unique_seq_to_set();
    assert(d.to_set().subset_of(u.to_set())) by {
        assert forall|c: char| d.to_set().contains(c) implies u.to_set().contains(c) by {
            assert(a.contains(c));
            let k = choose|k: int| 0 <= k < a.len() && a[k] == c;
            assert((a + b)[k] == c);
            assert((a + b).contains(c));
        }
    }
    vstd::set_lib::lemma_len_subset(d.to_set(), u.to_set());
}

proof fn lemma_filter_len(s: Seq<char>, f: spec_fn(char) -> bool)
    ensures
        s.filter(f).len() <= s.len(),
    decreases s.len(),
{
    reveal(Seq::filter);
    if s.len() > 0 {
        lemma_filter_len(s.drop_last(), f);
    }
}

/// The lengths of two texts, the lesser first. Nothing where one of them is empty.
pub fn len_ratio(a: &str, b: &str) -> (res: Option<(usize, usize)>)
    ensures
        match res {
            Some(r) => a@.len() > 0 && b@.len() > 0 && r.0 == vstd::math::min(
                a@.len() as int,
                b@.len() as int,
            ) && r.1 == vstd::math::max(a@.len() as int, b@.len() as int),
            None => a@.len() == 0 || b@.len() == 0,
        },
{
    let la = chars_of(a).len();
    let lb = chars_of(b).len();
    if la == 0 || lb == 0 {
        None
    } else if la < lb {
        Some((la, lb))
    } else {
        Some((lb, la))
    }
}

/// The places of the clips that come into question: those that have enough in common with what is to
/// be said, or are about as long.
pub open spec fn in_question(
    scores: Seq<(Real, Real)>,
    min_jaccard: Real,
    min_len_ratio: Real,
) -> Seq<usize>
    decreases scores.len(),
{
    if scores.len() == 0 {
        Seq::empty()
    } else {
        let front = in_question(scores.drop_last(), min_jaccard, min_len_ratio);
        if scores.last().0.less(min_jaccard) && scores.last().1.less(min_len_ratio) {
            front
        } else {
            front.push((scores.len() - 1) as usize)
        }
    }
}

/// The scores at the given places.
pub open spec fn scores_at(scores: Seq<(Real, Real)>, places: Seq<usize>) -> Seq<(Real, Real)> {
    places.map_values(|i: usize| scores[i as int])
}

/// The places of the clips that are chosen: of those that come into question, those with more in
/// common first, no more than `limit` of them but one in any case.
pub open spec fn chosen_places(
    scores: Seq<(Real, Real)>,
    limit: int,
    min_jaccard: Real,
    min_len_ratio: Real,
) -> Seq<usize> {
    let places = in_question(scores, min_jaccard, min_len_ratio);
    let order = ranking_down(scores_at(scores, places));
    let n = vstd::math::min(order.len() as int, vstd::math::max(limit, 1));
    order.take(n).map_values(|k: usize| places[k as int])
}

/// The clips that come into question, those with more in common first, no more than `limit` of them
/// but one in any case. `query` is what of the text to be said counts; where it is empty no clip comes
/// into question.
pub open spec fn coarse_candidates(
    query: Seq<char>,
    clips: Seq<VoiceClipView>,
    scores: Seq<(Real, Real)>,
    limit: int,
    min_jaccard: Real,
    min_len_ratio: Real,
) -> Seq<VoiceClipView> {
    if query.len() == 0 {
        Seq::empty()
    } else {
        chosen_places(scores, limit, min_jaccard, min_len_ratio).map_values(
            |i: usize| clips[i as int],
        )
    }
}

/// The clips that come into question, those with more in common first. `query` is what of the text
/// to be said counts, and `scores` holds for each clip how much it has in common with it, and how its
/// length compares.
pub fn coarse_voice_candidates(
    query: &str,
    clips: &Vec<VoiceClip>,
    scores: &Vec<(Real, Real)>,
    limit: usize,
    min_jaccard: Real,
    min_len_ratio: Real,
) -> (res: Vec<VoiceClip>)
    requires
        scores@.len() == clips@.len(),
    ensures
        clip_views(res@) == coarse_candidates(
            query@,
            clip_views(clips@),
            scores@,
            limit as int,
            min_jaccard,
            min_len_ratio,
        ),
{
    let mut out: Vec<VoiceClip> = Vec::new();
    if query.is_empty() {
        assert(clip_views(out@) =~= Seq::empty());
        return out;
    }
    let ghost all = clip_views(clips@);
    let mut places: Vec<usize> = Vec::new();
    let mut keys: Vec<(Real, Real)> = Vec::new();
    let mut i: usize = 0;
    while i < scores.len()
        invariant
            i <= scores@.len(),
            places@ == in_question(scores@.take(i as int), min_jaccard, min_len_ratio),
            keys@.len() == places@.len(),
            forall|j: int| 0 <= j < places@.len() ==> (#[trigger] places@[j]) < i,
            forall|j: int|
                0 <= j < places@.len() ==> #[trigger] keys@[j] == scores@[places@[j] as int],
        decreases scores@.len() - i,
    {
        assert(scores@.take(i + 1).drop_last() == scores@.take(i as int));
        if !(scores[i].0.lt(min_jaccard) && scores[i].1.lt(min_len_ratio)) {
            places.push(i);
            keys.push(scores[i]);
        }
        i += 1;
    }
    assert(scores@.take(i as int) == scores@);
    assert(keys@ =~= scores_at(scores@, places@));
    let order = rank_down(&keys);
    let most: usize = if limit < 1 {
        1
    } else {
        limit
    };
    let n: usize = if order.len() < most {
        order.len()
    } else {
        most
    };
    let mut k: usize = 0;
    while k < n
        invariant
            all == clip_views(clips@),
            n <= order@.len(),
            order@.len() == places@.len(),
            forall|i: int| 0 <= i < order@.len() ==> (#[trigger] order@[i]) < places@.len(),
            forall|j: int| 0 <= j < places@.len() ==> (#[trigger] places@[j]) < clips@.len(),
            k <= n,
            out@.len() == k,
            forall|j: int|
                0 <= j < k ==> (#[trigger] out@[j])@ == all[places@[order@[j] as int] as int],
        decreases n - k,
    {
        out.push(copy_clip(&clips[places[order[k]]]));
        k += 1;
    }
    assert(clip_views(out@) =~= chosen_places(
        scores@,
        limit as int,
        min_jaccard,
        min_len_ratio,
    ).map_values(|i: usize| all[i as int]));
    out
}

/// Whether a clip with these scores comes into question: it has enough in common, or is about as long.
pub open spec fn eligible(score: (Real, Real), min_jaccard: Real, min_len_ratio: Real) -> bool {
    !(score.0.less(min_jaccard) && score.1.less(min_len_ratio))
}

proof fn lemma_in_question(scores: Seq<(Real, Real)>, min_jaccard: Real, min_len_ratio: Real)
    requires
        scores.len() <= usize::MAX,
    ensures
        ({
            let places = in_question(scores, min_jaccard, min_len_ratio);
            &&& places.len() <= scores.len()
            &&& forall|j: int|
                0 <= j < places.len() ==> (#[trigger] places[j]) < scores.len() && eligible(
                    scores[places[j] as int],
                    min_jaccard,
                    min_len_ratio,
                )
            &&& forall|i: int, j: int|
                0 <= i < j < places.len() ==> (#[trigger] places[i]) < (#[trigger] places[j])
            &&& forall|m: int|
                0 <= m < scores.len() && eligible(#[trigger] scores[m], min_jaccard, min_len_ratio)
                    ==> places.contains(m as usize)
        }),
    decreases scores.len(),
{
    if scores.len() > 0 {
        let less = scores.drop_last();
        lemma_in_question(less, min_jaccard, min_len_ratio);
        let front = in_question(less, min_jaccard, min_len_ratio);
        let places = in_question(scores, min_jaccard, min_len_ratio);
        let n = scores.len() - 1;
        assert forall|j: int| 0 <= j < places.len() implies (#[trigger] places[j]) < scores.len()
            && eligible(scores[places[j] as int], min_jaccard, min_len_ratio) by {
            if j < front.len() {
                assert(places[j] == front[j]);
                assert(less[front[j] as int] == scores[front[j] as int]);
            }
        }
        assert forall|m: int|
            0 <= m < scores.len() && eligible(
                #[trigger] scores[m],
                min_jaccard,
                min_len_ratio,
            ) implies places.contains(m as usize) by {
            if m < n {
                assert(less[m] == scores[m]);
                let k = choose|k: int| 0 <= k < front.len() && front[k] == m as usize;
                assert(places[k] == m as usize);
            } else {
                assert(places[places.len() - 1] == m as usize);
            }
        }
    }
}

/// The chosen clips are different clips that come into question, as many of these as there are up to the
/// limit; none that follows ranks above one before it, and none that comes into question and was left
/// out ranks above one that was chosen, unless a score is no number.
pub proof fn law_best_clips_are_chosen(
    scores: Seq<(Real, Real)>,
    limit: int,
    min_jaccard: Real,
    min_len_ratio: Real,
)
    requires
        scores.len() <= usize::MAX,
        forall|i: int|
            0 <= i < scores.len() ==> !(#[trigger] scores[i]).0.nan() && !scores[i].1.nan(),
    ensures
        ({
            let chosen = chosen_places(scores, limit, min_jaccard, min_len_ratio);
            &&& chosen.len() == vstd::math::min(
                in_question(scores, min_jaccard, min_len_ratio).len() as int,
                vstd::math::max(limit, 1),
            )
            &&& chosen.no_duplicates()
            &&& forall|j: int|
                0 <= j < chosen.len() ==> (#[trigger] chosen[j]) < scores.len() && eligible(
                    scores[chosen[j] as int],
                    min_jaccard,
                    min_len_ratio,
                )
            &&& forall|i: int, j: int|
                0 <= i < j < chosen.len() ==> !outranks(
                    scores[(#[trigger] chosen[j]) as int],
                    scores[(#[trigger] chosen[i]) as int],
                )
            &&& forall|m: int, i: int|
                0 <= m < scores.len() && eligible(
                    #[trigger] scores[m],
                    min_jaccard,
                    min_len_ratio,
                ) && !chosen.contains(m as usize) && 0 <= i < chosen.len() ==> !outranks(
                    scores[m],
                    scores[(#[trigger] chosen[i]) as int],
                )
        }),
{
    let places = in_question(scores, min_jaccard, min_len_ratio);
    lemma_in_question(scores, min_jaccard, min_len_ratio);
    let keys = scores_at(scores, places);
    assert forall|i: int| 0 <= i < keys.len() implies !(#[trigger] keys[i]).0.nan()
        && !keys[i].1.nan() by {
        assert(places[i] < scores.len());
        assert(!scores[places[i] as int].0.nan());
    }
    law_ranking_down_is_permutation(keys);
    law_ranking_down_is_in_order(keys);
    let order = ranking_down(keys);
    let n = vstd::math::min(order.len() as int, vstd::math::max(limit, 1));
    let chosen = chosen_places(scores, limit, min_jaccard, min_len_ratio);
    assert forall|j: int| 0 <= j < n implies #[trigger] chosen[j] == places[order[j] as int]
        && order[j] < places.len() by {
        assert(order[j] < keys.len());
    }
    assert forall|i: int, j: int| 0 <= i < n && 0 <= j < n && i != j implies chosen[i]
        != chosen[j] by {
        assert(order[i] != order[j]);
        let a = order[i] as int;
        let b = order[j] as int;
        assert(chosen[i] == places[a] && chosen[j] == places[b]);
        if a < b {
            assert(places[a] < places[b]);
        } else {
            assert(places[b] < places[a]);
        }
    }
    assert forall|i: int, j: int| 0 <= i < j < n implies !outranks(
        scores[(#[trigger] chosen[j]) as int],
        scores[(#[trigger] chosen[i]) as int],
    ) by {
        assert(!outranks(keys[order[j] as int], keys[order[i] as int]));
    }
    assert forall|m: int, i: int|
        0 <= m < scores.len() && eligible(#[trigger] scores[m], min_jaccard, min_len_ratio)
            && !chosen.contains(m as usize) && 0 <= i < n implies !outranks(
        scores[m],
        scores[(#[trigger] chosen[i]) as int],
    ) by {
        assert(places.contains(m as usize));
        let k = choose|k: int| 0 <= k < places.len() && places[k] == m as usize;
        law_first_ranked_down_are_best(keys, n, k);
        if order.take(n).contains(k as usize) {
            let j = choose|j: int| 0 <= j < n && order.take(n)[j] == k as usize;
            assert(chosen[j] == m as usize);
        }
        assert(!outranks(keys[k], keys[order[i] as int]));
        assert(keys[k] == scores[m]);
    }
}

/// The choice that a model's words name: the first number in them, where it is one from 1 to `n`; else
/// zero.
pub open spec fn match_index(raw: Seq<char>, n: int) -> int {
    match first_number(raw) {
        Some(s) => match int_of_text(s) {
            Some(i) => if 1 <= i && i <= n {
                i as int
            } else {
                0
            },
            None => 0,
        },
        None => 0,
    }
}

/// The choice that a model's words name: the first number in them, where it is one from 1 to `n`; else
/// zero.
pub fn parse_match_index(raw: &str, n: usize) -> (res: usize)
    ensures
        res == match_index(raw@, n as int),
{
    match number_in(raw) {
        Some(s) => match parse_int(s.as_str()) {
            Some(i) => if 1 <= i && i as u64 <= n as u64 {
                i as usize
            } else {
                0
            },
            None => 0,
        },
        None => 0,
    }
}

/// Whether a model is configured that can speak.
pub fn tts_model_configured(cfg: &Config) -> (res: bool)
    ensures
        cfg.readable("chat.voice.tts_model"@) ==> res == (trimmed(
            cfg.text_at("chat.voice.tts_model"@),
        ).len() > 0),
{
    let s = cfg.str("chat.voice.tts_model");
    let t = trim(s.as_str());
    !t.as_str().is_empty()
}

/// The list from which a model chooses: the tags, numbered from one.
pub open spec fn numbered_tags(clips: Seq<VoiceClipView>) -> Seq<Seq<char>> {
    Seq::new(clips.len(), |i: int| nat_text((i + 1) as nat) + ". "@ + clips[i].tag)
}

fn number_tags(clips: &Vec<VoiceClip>) -> (res: Vec<String>)
    ensures
        views(res@) == numbered_tags(clip_views(clips@)),
{
    let ghost all = clip_views(clips@);
    let total = clips.len();
    let mut out: Vec<String> = Vec::new();
    let mut i: usize = 0;
    while i < total
        invariant
            all == clip_views(clips@),
            total == clips@.len(),
            i <= total,
            out@.len() == i,
            forall|j: int|
                0 <= j < i ==> (#[trigger] out@[j])@ == nat_text((j + 1) as nat) + ". "@
                    + all[j].tag,
        decreases total - i,
    {
        let mut line = unsigned_text(i as u64 + 1);
        line.append(". ");
        line.append(clips[i].tag.as_str());
        out.push(line);
        i += 1;
    }
    assert(views(out@) =~= numbered_tags(all));
    out
}

/// The question by which a model chooses among the clips.
pub open spec fn pick_prompt(
    template: Seq<char>,
    text: Seq<char>,
    candidates: Seq<VoiceClipView>,
) -> Seq<char> {
    replaced(
        replaced(template, "{text}"@, text),
        "{candidates}"@,
        joined(numbered_tags(candidates), "\n"@),
    )
}

/// Whether a model is named.
pub open spec fn names_model(model: JsonView) -> bool {
    match model {
        JsonView::Null => false,
        JsonView::Array(items) => items.len() > 0,
        _ => true,
    }
}

/// 0.8 as a double-precision number.
pub const ALIKE_BITS: u64 = 0x3FE9_9999_9999_999A;

/// Whether a single candidate is taken without asking: it has so much in common with what is to be
/// said, by their `jaccard` quotient, that there is no doubt.
pub fn picks_directly(candidates: &Vec<VoiceClip>, quotient: Real) -> (res: bool)
    ensures
        res == (candidates@.len() == 1 && (Real { bits: ALIKE_BITS }).at_most(quotient)),
{
    candidates.len() == 1 && Real { bits: ALIKE_BITS }.le(quotient)
}

/// The question by which a model chooses among the clips, where there are any, a model is named and
/// there is a template.
pub fn pick_request(cfg: &Config, text: &str, candidates: &Vec<VoiceClip>) -> (res: Option<
    LlmRequest,
>)
    ensures
        cfg.convertible("chat.voice.model"@) && cfg.readable("chat.voice.prompt"@) ==> {
            let model = model_at(*cfg, "chat.voice.model"@).json();
            let template = cfg.text_at("chat.voice.prompt"@);
            match res {
                Some(r) => {
                    &&& candidates@.len() > 0 && names_model(model) && trimmed(template).len() > 0
                    &&& r.model@ == model
                    &&& r.prompt@ == pick_prompt(template, text@, clip_views(candidates@))
                    &&& r.images@.len() == 0
                    &&& r.options@ == llm_options(
                        cfg.float_at("chat.voice.match_timeout"@, 8),
                        cfg.int_at("chat.voice.max_tokens"@, 64),
                    )
                },
                None => candidates@.len() == 0 || !names_model(model) || trimmed(template).len()
                    == 0,
            }
        },
{
    if candidates.len() == 0 {
        return None;
    }
    let model = cfg_model(cfg, "chat.voice.model");
    let template = cfg.str("chat.voice.prompt");
    let named = match &model {
        Json::Null => false,
        Json::Array(items) => items.len() > 0,
        _ => true,
    };
    proof {
        crate::json::lemma_views(model);
    }
    let bare = trim(template.as_str());
    if !named || bare.as_str().is_empty() {
        return None;
    }
    let tags = number_tags(candidates);
    let lines = join(&tags, "\n");
    proof {
        reveal_strlit("{text}");
        reveal_strlit("{candidates}");
    }
    let once = replace(template.as_str(), "{text}", text);
    let prompt = replace(once.as_str(), "{candidates}", lines.as_str());
    let options = make_llm_options(
        cfg.float_or("chat.voice.match_timeout", 8),
        cfg.i64_or("chat.voice.max_tokens", 64),
    );
    Some(LlmRequest { model, prompt, images: Vec::new(), options })
}

/// The words of a model's answer: a text itself, of any other value its JSON text.
pub open spec fn answer_words(resp: JsonView) -> Seq<char> {
    match resp {
        JsonView::Str(s) => trimmed(s),
        _ => trimmed(resp.canonical().written()),
    }
}

/// The place of the clip that a model chose, where it chose one.
pub fn pick_reply(resp: &Json, n: usize) -> (res: Option<usize>)
    ensures
        match res {
            Some(k) => match_index(answer_words(resp@), n as int) == k + 1 && k < n,
            None => match_index(answer_words(resp@), n as int) == 0,
        },
{
    let raw = match resp {
        Json::Str(s) => trim(s.as_str()),
        _ => {
            let t = resp.text();
            trim(t.as_str())
        },
    };
    let idx = parse_match_index(raw.as_str(), n);
    if idx > 0 {
        Some(idx - 1)
    } else {
        None
    }
}

/// The place of the first clip that says just this; the number of clips where there is none.
pub open spec fn exact_clip(clips: Seq<VoiceClipView>, text: Seq<char>) -> int
    decreases clips.len(),
{
    if clips.len() == 0 || clips[0].tag == text {
        0
    } else {
        1 + exact_clip(clips.skip(1), text)
    }
}

/// What becomes of something to say before any model is asked: nothing where there is nothing to say,
/// the clip that says just this, or else it is open.
pub open spec fn settled(text: Seq<char>, clips: Seq<VoiceClipView>) -> Option<VoiceHitView> {
    if spoken(text).len() == 0 {
        Some(VoiceHitView::Skip)
    } else if exact_clip(clips, spoken(text)) < clips.len() {
        Some(VoiceHitView::File(clips[exact_clip(clips, spoken(text))].path))
    } else {
        None
    }
}

/// What becomes of something to say before any model is asked.
pub fn resolve_voice_action(text: &str, clips: &Vec<VoiceClip>) -> (res: Option<VoiceHit>)
    ensures
        match res {
            Some(h) => settled(text@, clip_views(clips@)) == Some(h@),
            None => settled(text@, clip_views(clips@)) is None,
        },
{
    let plain = plain_tts_text(text);
    if plain.as_str().is_empty() {
        return Some(VoiceHit::Skip);
    }
    let ghost all = clip_views(clips@);
    let mut i: usize = 0;
    assert(all.skip(0) == all);
    while i < clips.len()
        invariant
            all == clip_views(clips@),
            plain@ == spoken(text@),
            plain@.len() > 0,
            i <= clips@.len(),
            exact_clip(all, plain@) == i + exact_clip(all.skip(i as int), plain@),
        decreases clips@.len() - i,
    {
        if same(clips[i].tag.as_str(), plain.as_str()) {
            return Some(VoiceHit::File(own(clips[i].path.as_str())));
        }
        assert(all.skip(i as int).skip(1) == all.skip(i + 1));
        i += 1;
    }
    None
}

/// What becomes of something to say once a model has chosen: the clip that it chose, or the text where
/// nothing can speak it, or else it is to be spoken.
pub fn after_pick(text: &str, pick: Option<&VoiceClip>, can_speak: bool) -> (res: Option<VoiceHit>)
    ensures
        match res {
            Some(h) => match pick {
                Some(c) => h@ == VoiceHitView::File(c.path@),
                None => !can_speak && h@ == VoiceHitView::Text(spoken(text@)),
            },
            None => pick is None && can_speak,
        },
{
    match pick {
        Some(c) => Some(VoiceHit::File(own(c.path.as_str()))),
        None => if can_speak {
            None
        } else {
            Some(VoiceHit::Text(plain_tts_text(text)))
        },
    }
}

/// Where a clip is that was made, as the reply says; nothing where it does not say.
pub fn synth_path(ret: &Json) -> (res: String)
    ensures
        res@ == ret@.str_or_empty("path"@),
{
    ret.str_or_empty("path")
}

/// What becomes of something that was spoken: the file where there is one, else the text.
pub fn after_synthesis(text: &str, path: &str, is_file: bool) -> (res: VoiceHit)
    ensures
        res@ == if path@.len() > 0 && is_file {
            VoiceHitView::File(path@)
        } else {
            VoiceHitView::Text(spoken(text@))
        },
{
    if path.is_empty() || !is_file {
        VoiceHit::Text(plain_tts_text(text))
    } else {
        VoiceHit::File(own(path))
    }
}

/// What becomes of something to say where all this takes too long.
pub fn prefetch_voice_timeout(text: &str) -> (res: VoiceHit)
    ensures
        res@ == if spoken(text@).len() == 0 {
            VoiceHitView::Skip
        } else {
            VoiceHitView::Text(spoken(text@))
        },
{
    let fallback = plain_tts_text(text);
    if fallback.as_str().is_empty() {
        VoiceHit::Skip
    } else {
        VoiceHit::Text(fallback)
    }
}

/// A clip as the library of clips has it: its path as it is written there.
pub open spec fn listed_clip(v: JsonView) -> Option<VoiceClipView> {
    let path = trimmed(v.str_or_empty("path"@));
    let tag = trimmed(v.str_or_empty("tag"@));
    if tag.len() == 0 || path.len() == 0 {
        None
    } else {
        Some(
            VoiceClipView {
                vid: match v.get("vid"@) {
                    Some(x) => match x.as_int() {
                        Some(i) => i,
                        None => 0,
                    },
                    None => 0,
                },
                path,
                tag,
            },
        )
    }
}

/// The clips that the library lists.
pub open spec fn listed_clips(entries: Seq<(Seq<char>, JsonView)>) -> Seq<VoiceClipView>
    decreases entries.len(),
{
    if entries.len() == 0 {
        Seq::empty()
    } else {
        match listed_clip(entries.last().1) {
            Some(c) => listed_clips(entries.drop_last()).push(c),
            None => listed_clips(entries.drop_last()),
        }
    }
}

/// The clips that a library of clips lists.
pub open spec fn library_clips(db: JsonView) -> Seq<VoiceClipView> {
    match db.get("voices"@) {
        Some(JsonView::Object(entries)) => listed_clips(entries),
        _ => Seq::empty(),
    }
}

/// The clips that a library of clips lists, given by its JSON text; nothing where it is not JSON.
pub fn parse_voice_db(text: &str) -> (res: Option<Vec<VoiceClip>>)
    ensures
        match crate::json::json_of_text(text@) {
            Some(db) => res matches Some(clips) && clip_views(clips@) == library_clips(db),
            None => res is None,
        },
{
    match Json::parse(text) {
        Some(db) => Some(list_clips(&db)),
        None => None,
    }
}

/// The clips that a library of clips lists.
pub fn list_clips(db: &Json) -> (res: Vec<VoiceClip>)
    ensures
        clip_views(res@) == library_clips(db@),
{
    let mut out: Vec<VoiceClip> = Vec::new();
    assert(clip_views(out@) =~= Seq::empty());
    match db.get("voices") {
        Some(voices) => match voices.as_object() {
            Some(entries) => {
                let ghost all = entry_views(entries@);
                let mut i: usize = 0;
                while i < entries.len()
                    invariant
                        all == entry_views(entries@),
                        i <= entries@.len(),
                        clip_views(out@) == listed_clips(all.take(i as int)),
                    decreases entries@.len() - i,
                {
                    assert(all.take(i + 1).drop_last() == all.take(i as int));
                    let v = &entries[i].1;
                    assert(all[i as int].1 == v@);
                    let raw_path = v.str_or_empty("path");
                    let raw_tag = v.str_or_empty("tag");
                    let path = trim(raw_path.as_str());
                    let tag = trim(raw_tag.as_str());
                    if !tag.as_str().is_empty() && !path.as_str().is_empty() {
                        let vid = match v.get("vid") {
                            Some(x) => match x.as_int() {
                                Some(i) => i,
                                None => 0,
                            },
                            None => 0,
                        };
                        let ghost before = out@;
                        let c = VoiceClip { vid, path, tag };
                        out.push(c);
                        assert(clip_views(out@) =~= clip_views(before).push(c@));
                    }
                    i += 1;
                }
                assert(all.take(i as int) == all);
            },
            None => {},
        },
        None => {},
    }
    out
}

/// The clips whose files are there, each by the place that was found for it.
pub open spec fn located(
    clips: Seq<VoiceClipView>,
    places: Seq<Option<Seq<char>>>,
) -> Seq<VoiceClipView>
    decreases clips.len(),
{
    if clips.len() == 0 {
        Seq::empty()
    } else {
        let k = clips.len() - 1;
        match places[k] {
            Some(path) => located(clips.drop_last(), places).push(
                VoiceClipView { path, ..clips[k] },
            ),
            None => located(clips.drop_last(), places),
        }
    }
}

/// The views of the places that were found.
pub open spec fn place_views(places: Seq<Option<String>>) -> Seq<Option<Seq<char>>> {
    places.map_values(
        |p: Option<String>|
            match p {
                Some(s) => Some(s@),
                None => None,
            },
    )
}

/// The clips that are known, and the time of the file from which they were read.
#[derive(Debug)]
pub struct VoiceState {
    pub clips: Vec<VoiceClip>,
    pub mtime: Option<Real>,
}

/// What is to be done with the file of the clips.
#[derive(Clone, Copy, Debug, PartialEq, Eq, Structural)]
pub enum VoiceFile {
    /// What is known stays.
    Keep,
    /// The file is to be read.
    Read,
}

impl VoiceState {
    /// Nothing known yet.
    pub fn new() -> (res: VoiceState)
        ensures
            res.clips@.len() == 0,
            res.mtime is None,
    {
        VoiceState { clips: Vec::new(), mtime: None }
    }

    /// What is to be done with the file of the clips: one that is not there makes all clips
    /// forgotten, one whose time cannot be told or is the same as before changes nothing, and any
    /// other is to be read.
    pub fn load_voice_clips(&mut self, mtime: Option<Real>, exists_now: bool) -> (res: VoiceFile)
        ensures
            match mtime {
                Some(t) => {
                    &&& *final(self) == *old(self)
                    &&& (res is Keep) == (old(self).mtime matches Some(m) && m.at_most(t)
                        && t.at_most(m))
                },
                None => {
                    &&& res is Keep
                    &&& exists_now ==> *final(self) == *old(self)
                    &&& !exists_now ==> final(self).clips@.len() == 0 && final(self).mtime is None
                },
            },
    {
        match mtime {
            Some(t) => {
                let known = match self.mtime {
                    Some(m) => m.le(t) && t.le(m),
                    None => false,
                };
                if known {
                    VoiceFile::Keep
                } else {
                    VoiceFile::Read
                }
            },
            None => {
                if !exists_now {
                    self.clips = Vec::new();
                    self.mtime = None;
                }
                VoiceFile::Keep
            },
        }
    }

    /// Takes in the clips that were read, those whose files are there, each by the place that was
    /// found for it.
    pub fn accept_clips(
        &mut self,
        listed: &Vec<VoiceClip>,
        places: &Vec<Option<String>>,
        mtime: Real,
    )
        requires
            places@.len() == listed@.len(),
        ensures
            clip_views(final(self).clips@) == located(
                clip_views(listed@),
                place_views(places@),
            ),
            final(self).mtime == Some(mtime),
    {
        let ghost all = clip_views(listed@);
        let ghost found = place_views(places@);
        let mut out: Vec<VoiceClip> = Vec::new();
        let mut i: usize = 0;
        assert(clip_views(out@) =~= Seq::empty());
        while i < listed.len()
            invariant
                all == clip_views(listed@),
                found == place_views(places@),
                places@.len() == listed@.len(),
                i <= listed@.len(),
                clip_views(out@) == located(all.take(i as int), found),
            decreases listed@.len() - i,
        {
            assert(all.take(i + 1).drop_last() == all.take(i as int));
            assert(all.take(i + 1)[i as int] == listed@[i as int]@);
            match &places[i] {
                Some(p) => {
                    let c = VoiceClip {
                        vid: listed[i].vid,
                        path: own(p.as_str()),
                        tag: own(listed[i].tag.as_str()),
                    };
                    assert(found[i as int] == Some(p@));
                    let ghost before = out@;
                    out.push(c);
                    assert(clip_views(out@) =~= clip_views(before).push(c@));
                },
                None => {
                    assert(found[i as int] is None);
                },
            }
            i += 1;
        }
        assert(all.take(i as int) == all);
        self.clips = out;
        self.mtime = Some(mtime);
    }
}

/// Every clip of the library that has a tag and a path is listed, in their order.
pub proof fn law_clips_are_all_listed(entries: Seq<(Seq<char>, JsonView)>)
    ensures
        selected(
            entries.len() as int,
            |i: int|
                if trimmed(entries[i].1.str_or_empty("tag"@)).len() > 0 && trimmed(
                    entries[i].1.str_or_empty("path"@),
                ).len() > 0 {
                    Some(
                        VoiceClipView {
                            vid: if entries[i].1.get("vid"@) is Some && entries[i].1.get("vid"@)->0.as_int() is Some {
                                entries[i].1.get("vid"@)->0.as_int()->0
                            } else {
                                0
                            },
                            path: trimmed(entries[i].1.str_or_empty("path"@)),
                            tag: trimmed(entries[i].1.str_or_empty("tag"@)),
                        },
                    )
                } else {
                    None
                },
            library_clips(JsonView::Object(seq![("voices"@, JsonView::Object(entries))])),
        ),
{
    let f = |i: int|
        if trimmed(entries[i].1.str_or_empty("tag"@)).len() > 0 && trimmed(
            entries[i].1.str_or_empty("path"@),
        ).len() > 0 {
            Some(
                VoiceClipView {
                    vid: if entries[i].1.get("vid"@) is Some && entries[i].1.get("vid"@)->0.as_int() is Some {
                        entries[i].1.get("vid"@)->0.as_int()->0
                    } else {
                        0
                    },
                    path: trimmed(entries[i].1.str_or_empty("path"@)),
                    tag: trimmed(entries[i].1.str_or_empty("tag"@)),
                },
            )
        } else {
            None
        };
    lemma_clips_are_all_listed(entries, f, entries.len() as int);
    assert(entries.take(entries.len() as int) =~= entries);
}

proof fn lemma_clips_are_all_listed(
    entries: Seq<(Seq<char>, JsonView)>,
    f: spec_fn(int) -> Option<VoiceClipView>,
    n: int,
)
    requires
        0 <= n <= entries.len(),
        forall|i: int|
            0 <= i < entries.len() ==> (#[trigger] f(i)) == (
                if trimmed(entries[i].1.str_or_empty("tag"@)).len() > 0 && trimmed(
                    entries[i].1.str_or_empty("path"@),
                ).len() > 0 {
                    Some(
                        VoiceClipView {
                            vid: if entries[i].1.get("vid"@) is Some && entries[i].1.get("vid"@)->0.as_int() is Some {
                                entries[i].1.get("vid"@)->0.as_int()->0
                            } else {
                                0
                            },
                            path: trimmed(entries[i].1.str_or_empty("path"@)),
                            tag: trimmed(entries[i].1.str_or_empty("tag"@)),
                        },
                    )
                } else {
                    None
                }
            ),
    ensures
        selected(n, f, library_clips(JsonView::Object(seq![("voices"@, JsonView::Object(entries.take(n)))]))),
    decreases n,
{
    if n == 0 {
        lemma_library(entries.take(0));
        lemma_selected_none(f);
    } else {
        lemma_clips_are_all_listed(entries, f, n - 1);
        assert(entries.take(n).drop_last() =~= entries.take(n - 1));
        lemma_library(entries.take(n));
        lemma_library(entries.take(n - 1));
        lemma_selected_next(n - 1, f, library_clips(JsonView::Object(seq![("voices"@, JsonView::Object(entries.take(n - 1)))])));
    }
}

proof fn lemma_library(entries: Seq<(Seq<char>, JsonView)>)
    ensures
        library_clips(JsonView::Object(seq![("voices"@, JsonView::Object(entries))]))
            == listed_clips(entries),
{
    let db = JsonView::Object(seq![("voices"@, JsonView::Object(entries))]);
    reveal_with_fuel(crate::json::lookup, 2);
    assert(db.get("voices"@) == Some(JsonView::Object(entries)));
}

/// The clips whose files are found are kept, each with its number, its tag and the place of its file.
pub proof fn law_located_clips_are_kept(clips: Seq<VoiceClipView>, places: Seq<Option<Seq<char>>>)
    ensures
        selected(
            clips.len() as int,
            |i: int|
                if places[i] is Some {
                    Some(VoiceClipView { vid: clips[i].vid, path: places[i]->0, tag: clips[i].tag })
                } else {
                    None
                },
            located(clips, places),
        ),
{
    let f = |i: int|
        if places[i] is Some {
            Some(VoiceClipView { vid: clips[i].vid, path: places[i]->0, tag: clips[i].tag })
        } else {
            None
        };
    lemma_located_clips_are_kept(clips, places, f, clips.len() as int);
    assert(clips.take(clips.len() as int) =~= clips);
}

proof fn lemma_located_clips_are_kept(
    clips: Seq<VoiceClipView>,
    places: Seq<Option<Seq<char>>>,
    f: spec_fn(int) -> Option<VoiceClipView>,
    n: int,
)
    requires
        0 <= n <= clips.len(),
        forall|i: int|
            0 <= i < clips.len() ==> (#[trigger] f(i)) == (
                if places[i] is Some {
                    Some(VoiceClipView { vid: clips[i].vid, path: places[i]->0, tag: clips[i].tag })
                } else {
                    None
                }
            ),
    ensures
        selected(n, f, located(clips.take(n), places)),
    decreases n,
{
    if n == 0 {
        lemma_selected_none(f);
    } else {
        lemma_located_clips_are_kept(clips, places, f, n - 1);
        assert(clips.take(n).drop_last() =~= clips.take(n - 1));
        lemma_selected_next(n - 1, f, located(clips.take(n - 1), places));
    }
}

/// In question are the clips that are alike enough by their characters or by their lengths, in their
/// order.
pub proof fn law_likely_clips_are_in_question(
    scores: Seq<(Real, Real)>,
    min_jaccard: Real,
    min_len_ratio: Real,
)
    ensures
        selected(
            scores.len() as int,
            |i: int|
                if scores[i].0.less(min_jaccard) && scores[i].1.less(min_len_ratio) {
                    None
                } else {
                    Some(i as usize)
                },
            in_question(scores, min_jaccard, min_len_ratio),
        ),
{
    let f = |i: int|
        if scores[i].0.less(min_jaccard) && scores[i].1.less(min_len_ratio) {
            None
        } else {
            Some(i as usize)
        };
    lemma_likely_clips_are_in_question(scores, min_jaccard, min_len_ratio, f, scores.len() as int);
    assert(scores.take(scores.len() as int) =~= scores);
}

proof fn lemma_likely_clips_are_in_question(
    scores: Seq<(Real, Real)>,
    min_jaccard: Real,
    min_len_ratio: Real,
    f: spec_fn(int) -> Option<usize>,
    n: int,
)
    requires
        0 <= n <= scores.len(),
        forall|i: int|
            0 <= i < scores.len() ==> (#[trigger] f(i)) == (
                if scores[i].0.less(min_jaccard) && scores[i].1.less(min_len_ratio) {
                    None
                } else {
                    Some(i as usize)
                }
            ),
    ensures
        selected(n, f, in_question(scores.take(n), min_jaccard, min_len_ratio)),
    decreases n,
{
    if n == 0 {
        lemma_selected_none(f);
    } else {
        lemma_likely_clips_are_in_question(scores, min_jaccard, min_len_ratio, f, n - 1);
        assert(scores.take(n).drop_last() =~= scores.take(n - 1));
        lemma_selected_next(n - 1, f, in_question(scores.take(n - 1), min_jaccard, min_len_ratio));
    }
}

/// The distinct characters of a text are its characters, each where it stands first.
pub proof fn law_distinct_characters_in_order(s: Seq<char>)
    ensures
        selected(
            s.len() as int,
            |i: int|
                if forall|j: int| 0 <= j < i ==> #[trigger] s[j] != s[i] {
                    Some(s[i])
                } else {
                    None
                },
            distinct(s),
        ),
{
    let f = |i: int|
        if forall|j: int| 0 <= j < i ==> #[trigger] s[j] != s[i] {
            Some(s[i])
        } else {
            None
        };
    lemma_distinct_characters_in_order(s, f, s.len() as int);
    assert(s.take(s.len() as int) =~= s);
}

proof fn lemma_distinct_characters_in_order(s: Seq<char>, f: spec_fn(int) -> Option<char>, n: int)
    requires
        0 <= n <= s.len(),
        forall|i: int|
            0 <= i < s.len() ==> (#[trigger] f(i)) == (
                if forall|j: int| 0 <= j < i ==> #[trigger] s[j] != s[i] {
                    Some(s[i])
                } else {
                    None
                }
            ),
    ensures
        selected(n, f, distinct(s.take(n))),
    decreases n,
{
    if n == 0 {
        lemma_selected_none(f);
    } else {
        lemma_distinct_characters_in_order(s, f, n - 1);
        assert(s.take(n).drop_last() =~= s.take(n - 1));
        let front = s.take(n - 1);
        if front.contains(s[n - 1]) {
            let j = choose|j: int| 0 <= j < front.len() && front[j] == s[n - 1];
            assert(s[j] == s[n - 1]);
        } else {
            assert forall|j: int| 0 <= j < n - 1 implies #[trigger] s[j] != s[n - 1] by {
                assert(front[j] == s[j]);
            }
        }
        lemma_selected_next(n - 1, f, distinct(s.take(n - 1)));
    }
}

/// The overlap of two texts counts the characters that are in both, and those that are in one at least,
/// each once.
pub proof fn law_overlap_counts_characters(a: Seq<char>, b: Seq<char>)
    ensures
        overlap(a, b).0 == a.to_set().intersect(b.to_set()).len(),
        overlap(a, b).1 == a.to_set().union(b.to_set()).len(),
{
    let f = |c: char| b.contains(c);
    let both = distinct(a).filter(f);
    lemma_distinct(a);
    lemma_distinct(a + b);
    lemma_filter_keeps_apart(distinct(a), f);
    both.unique_seq_to_set();
    assert(both.to_set() =~= a.to_set().intersect(b.to_set())) by {
        assert forall|c: char| both.to_set().contains(c) == a.to_set().intersect(
            b.to_set(),
        ).contains(c) by {
            assert(distinct(a).contains(c) == a.contains(c));
            assert(both.contains(c) == (distinct(a).contains(c) && f(c)));
        }
    }
    distinct(a + b).unique_seq_to_set();
    assert(distinct(a + b).to_set() =~= a.to_set().union(b.to_set())) by {
        assert forall|c: char| distinct(a + b).to_set().contains(c) == a.to_set().union(
            b.to_set(),
        ).contains(c) by {
            assert(distinct(a + b).contains(c) == (a + b).contains(c));
            if a.contains(c) {
                let k = choose|k: int| 0 <= k < a.len() && a[k] == c;
                assert((a + b)[k] == c);
            }
            if b.contains(c) {
                let k = choose|k: int| 0 <= k < b.len() && b[k] == c;
                assert((a + b)[a.len() + k] == c);
            }
            if (a + b).contains(c) {
                let k = choose|k: int| 0 <= k < (a + b).len() && (a + b)[k] == c;
                if k < a.len() {
                    assert(a[k] == c);
                } else {
                    assert(b[k - a.len()] == c);
                }
            }
        }
    }
}

proof fn lemma_filter_step(s: Seq<char>, f: spec_fn(char) -> bool)
    requires
        s.len() > 0,
    ensures
        s.filter(f) == (if f(s.last()) {
            s.drop_last().filter(f).push(s.last())
        } else {
            s.drop_last().filter(f)
        }),
{
    reveal(Seq::filter);
}

proof fn lemma_filter_keeps_apart(s: Seq<char>, f: spec_fn(char) -> bool)
    requires
        s.no_duplicates(),
    ensures
        s.filter(f).no_duplicates(),
        forall|c: char| s.filter(f).contains(c) == (s.contains(c) && f(c)),
    decreases s.len(),
{
    if s.len() == 0 {
        s.lemma_filter_len(f);
    } else {
        let front = s.drop_last();
        lemma_filter_step(s, f);
        lemma_filter_keeps_apart(front, f);
        assert forall|c: char| s.filter(f).contains(c) == (s.contains(c) && f(c)) by {
            let kept = front.filter(f);
            if s.contains(c) {
                let k = choose|k: int| 0 <= k < s.len() && s[k] == c;
                if k < front.len() {
                    assert(front[k] == c);
                }
            }
            if front.contains(c) {
                let k = choose|k: int| 0 <= k < front.len() && front[k] == c;
                assert(s[k] == c);
            }
            assert(s[s.len() - 1] == s.last());
            if kept.contains(c) {
                let k = choose|k: int| 0 <= k < kept.len() && kept[k] == c;
                assert(kept.push(s.last())[k] == c);
            }
            assert(kept.push(s.last())[kept.len() as int] == s.last());
            if kept.push(s.last()).contains(c) {
                let k = choose|k: int| 0 <= k < kept.len() + 1 && kept.push(s.last())[k] == c;
                if k < kept.len() {
                    assert(kept[k] == c);
                }
            }
        }
        if front.contains(s.last()) {
            let k = choose|k: int| 0 <= k < front.len() && front[k] == s.last();
            assert(s[k] == s[s.len() - 1]);
        }
    }
}

/// The candidates are the clips at the chosen places, in their order; for no words there are none.
pub proof fn law_candidates_are_the_chosen(
    query: Seq<char>,
    clips: Seq<VoiceClipView>,
    scores: Seq<(Real, Real)>,
    limit: int,
    min_jaccard: Real,
    min_len_ratio: Real,
)
    ensures
        ({
            let res = coarse_candidates(query, clips, scores, limit, min_jaccard, min_len_ratio);
            let chosen = chosen_places(scores, limit, min_jaccard, min_len_ratio);
            &&& query.len() == 0 ==> res.len() == 0
            &&& query.len() > 0 ==> res.len() == chosen.len() && forall|j: int|
                0 <= j < res.len() ==> #[trigger] res[j] == clips[chosen[j] as int]
        }),
{
}

/// What the answer picks is the first number in it, where that is the number of a candidate; else nothing.
pub proof fn law_pick_is_a_candidate(raw: Seq<char>, n: int, s: Seq<char>, i: i64)
    ensures
        first_number(raw) == Some(s) && int_of_text(s) == Some(i) && 1 <= i <= n ==> match_index(
            raw,
            n,
        ) == i,
        first_number(raw) == Some(s) && int_of_text(s) == Some(i) && (i < 1 || n < i)
            ==> match_index(raw, n) == 0,
        first_number(raw) is None ==> match_index(raw, n) == 0,
        first_number(raw) == Some(s) && int_of_text(s) is None ==> match_index(raw, n) == 0,
{
}

/// The candidates are shown by their tags, numbered from one on.
pub proof fn law_tags_are_numbered(clips: Seq<VoiceClipView>, i: int)
    requires
        0 <= i < clips.len(),
    ensures
        numbered_tags(clips).len() == clips.len(),
        numbered_tags(clips)[i] == nat_text((i + 1) as nat) + ". "@ + clips[i].tag,
{
}

/// A text without words is not spoken. A text that is the tag of a clip is spoken by the first such clip's
/// file. For any other nothing is settled yet.
pub proof fn law_exact_clip_is_played(text: Seq<char>, clips: Seq<VoiceClipView>, k: int)
    ensures
        spoken(text).len() == 0 ==> settled(text, clips) == Some(VoiceHitView::Skip),
        spoken(text).len() > 0 && 0 <= k < clips.len() && clips[k].tag == spoken(text) && (forall|
            i: int,
        |
            0 <= i < k ==> (#[trigger] clips[i]).tag != spoken(text)) ==> settled(text, clips)
            == Some(VoiceHitView::File(clips[k].path)),
        spoken(text).len() > 0 && (forall|i: int|
            0 <= i < clips.len() ==> (#[trigger] clips[i]).tag != spoken(text)) ==> settled(
            text,
            clips,
        ) is None,
{
    lemma_exact_clip(clips, spoken(text), k);
}

proof fn lemma_exact_clip(clips: Seq<VoiceClipView>, text: Seq<char>, k: int)
    ensures
        0 <= k < clips.len() && clips[k].tag == text && (forall|i: int|
            0 <= i < k ==> (#[trigger] clips[i]).tag != text) ==> exact_clip(clips, text) == k,
        (forall|i: int| 0 <= i < clips.len() ==> (#[trigger] clips[i]).tag != text) ==> exact_clip(
            clips,
            text,
        ) == clips.len(),
    decreases clips.len(),
{
    if clips.len() > 0 && clips[0].tag != text {
        let rest = clips.skip(1);
        lemma_exact_clip(rest, text, k - 1);
        if 0 <= k < clips.len() && clips[k].tag == text && (forall|i: int|
            0 <= i < k ==> (#[trigger] clips[i]).tag != text) {
            assert(rest[k - 1] == clips[k]);
            assert forall|i: int| 0 <= i < k - 1 implies (#[trigger] rest[i]).tag != text by {
                assert(clips[i + 1].tag != text);
            }
        }
        if forall|i: int| 0 <= i < clips.len() ==> (#[trigger] clips[i]).tag != text {
            assert forall|i: int| 0 <= i < rest.len() implies (#[trigger] rest[i]).tag != text by {
                assert(clips[i + 1].tag != text);
            }
        }
    }
}

/// The question which clip to take holds the text and the numbered tags where the template has fields for
/// them.
pub proof fn law_pick_question(template: Seq<char>, text: Seq<char>, clips: Seq<VoiceClipView>)
    ensures
        pick_prompt(template, text, clips) == replaced(
            replaced(template, "{text}"@, text),
            "{candidates}"@,
            joined(numbered_tags(clips), "\n"@),
        ),
        names_model(JsonView::Null) == false,
        forall|items: Seq<JsonView>| #[trigger]
            names_model(JsonView::Array(items)) == (items.len() > 0),
        forall|v: JsonView| !(v is Null) && !(v is Array) ==> #[trigger] names_model(v),
        forall|s: Seq<char>| #[trigger] answer_words(JsonView::Str(s)) == trimmed(s),
{
}

/// A text without marks is spoken as its words with one space between them.
pub proof fn law_words_are_spoken(text: Seq<char>)
    requires
        !text.contains('['),
    ensures
        spoken(text) == joined(words(text), " "@),
{
    law_unmarked_text_is_kept(text, AT_MARK@);
    law_unmarked_text_is_kept(text, REPLY_MARK@);
}

/// Two texts are alike from eight tenths on.
pub proof fn law_alike_from_eight_tenths()
    ensures
        ALIKE_BITS == 0x3fe9_9999_9999_999a,
{
}

/// A mark is not spoken, neither a call nor an answer: the words are those of the text without it.
pub proof fn law_marks_are_not_spoken(before: Seq<char>, digits: Seq<char>, after: Seq<char>)
    requires
        !before.contains('['),
        !after.contains('['),
        digits.len() > 0,
        forall|i: int| 0 <= i < digits.len() ==> '0' <= #[trigger] digits[i] <= '9',
    ensures
        spoken(before + (seq!['[', '@'] + digits + seq![']']) + after) == joined(
            words(before + after),
            " "@,
        ),
        spoken(
            before + (seq!['[', 'r', 'e', 'p', 'l', 'y', '='] + digits + seq![']']) + after,
        ) == joined(words(before + after), " "@),
{
    let plain = before + after;
    assert(!plain.contains('[')) by {
        if plain.contains('[') {
            let k = choose|k: int| 0 <= k < plain.len() && plain[k] == '[';
            if k < before.len() {
                assert(before[k] == '[');
            } else {
                assert(after[k - before.len()] == '[');
            }
        }
    }
    assert(!digits.contains('[')) by {
        if digits.contains('[') {
            let k = choose|k: int| 0 <= k < digits.len() && digits[k] == '[';
            assert('0' <= digits[k] <= '9');
        }
    }
    law_first_mark_is_found(before, digits, after, AT_MARK@, seq!['[', '@']);
    law_first_mark_is_found(
        before,
        digits,
        after,
        REPLY_MARK@,
        seq!['[', 'r', 'e', 'p', 'l', 'y', '='],
    );
    law_marks_are_told_apart(before, digits, after);
    law_unmarked_text_is_kept(after, AT_MARK@);
    law_unmarked_text_is_kept(after, REPLY_MARK@);
    law_unmarked_text_is_kept(plain, REPLY_MARK@);
}

} // verus!
