//! Small things that the other modules share: readable times, bounded lists, vectors as bytes.

use crate::json::{json_views, Json, JsonView};
use crate::number::Real;
use crate::text::{chars_of, int_text, own, signed_text, text_of};
use vstd::prelude::*;
use vstd::string::*;

verus! {

/// `chrono`'s spans of time.
#[verifier::external_type_specification]
#[verifier::external_body]
pub struct ExTimeDelta(chrono::TimeDelta);

/// The length of a span of time, in nanoseconds; below zero for one that goes back.
pub uninterp spec fn span_nanos(d: chrono::TimeDelta) -> int;

/// The quotient without its fraction, whichever side of zero it is on.
pub open spec fn toward_zero(n: int, d: int) -> int {
    if n < 0 {
        -((-n) / d)
    } else {
        n / d
    }
}

/// `chrono::TimeDelta::num_seconds`: the whole seconds.
pub assume_specification[ chrono::TimeDelta::num_seconds ](d: &chrono::TimeDelta) -> (res: i64)
    ensures
        res == toward_zero(span_nanos(*d), 1_000_000_000),
;

/// `chrono::TimeDelta::num_milliseconds`: the whole milliseconds. They are never the least integer
/// of 64 bits.
pub assume_specification[ chrono::TimeDelta::num_milliseconds ](d: &chrono::TimeDelta) -> (res: i64)
    ensures
        res == toward_zero(span_nanos(*d), 1_000_000),
        res > i64::MIN,
;

/// A number with its unit.
pub open spec fn counted(n: int, unit: Seq<char>) -> Seq<char> {
    int_text(n) + unit
}

/// A time of so many seconds, in its largest unit; hours come with minutes.
pub open spec fn elapsed_text(total: int) -> Seq<char> {
    if total < 60 {
        counted(total, "秒"@)
    } else if total < 3600 {
        counted(total / 60, "分钟"@)
    } else if total < 86400 {
        counted(total / 3600, "小时"@) + counted((total / 60) % 60, "分钟"@)
    } else {
        counted(total / 86400, "天"@)
    }
}

/// How far a moment is away that many milliseconds ahead, or back where they are below zero.
pub open spec fn distance_text(millis: int) -> Seq<char> {
    if millis < 0 {
        elapsed_text((-millis) / 1000) + "前"@
    } else {
        elapsed_text(millis / 1000) + "后"@
    }
}

fn count(n: i64, unit: &str) -> (res: String)
    ensures
        res@ == counted(n as int, unit@),
{
    let mut out = signed_text(n);
    out.append(unit);
    out
}

/// How far a moment is away, and where asked for the moment itself before that. `stamp` is the
/// moment as it is shown, `ahead` the time from now to it.
pub fn get_readable_datetime(
    stamp: &str,
    ahead: &chrono::TimeDelta,
    show_original_time: bool,
) -> (res: String)
    ensures
        ({
            let text = distance_text(toward_zero(span_nanos(*ahead), 1_000_000));
            res@ == if show_original_time {
                stamp@ + " ("@ + text + ")"@
            } else {
                text
            }
        }),
{
    let millis = ahead.num_milliseconds();
    readable_datetime(stamp, millis, show_original_time)
}

/// What [`get_readable_datetime`] says of a moment that many milliseconds ahead.
pub fn readable_datetime(stamp: &str, millis: i64, show_original_time: bool) -> (res: String)
    requires
        millis > i64::MIN,
    ensures
        res@ == if show_original_time {
            stamp@ + " ("@ + distance_text(millis as int) + ")"@
        } else {
            distance_text(millis as int)
        },
{
    let back = millis < 0;
    let total: i64 = if back {
        (-millis) / 1000
    } else {
        millis / 1000
    };
    let mut text = if total < 60 {
        count(total, "秒")
    } else if total < 3600 {
        count(total / 60, "分钟")
    } else if total < 86400 {
        let mut t = count(total / 3600, "小时");
        let minutes = count((total / 60) % 60, "分钟");
        t.append(minutes.as_str());
        t
    } else {
        count(total / 86400, "天")
    };
    if back {
        text.append("前");
    } else {
        text.append("后");
    }
    if show_original_time {
        let mut out = own(stamp);
        out.append(" (");
        out.append(text.as_str());
        out.append(")");
        out
    } else {
        text
    }
}

/// The number with its unit where it is above zero, else nothing.
pub open spec fn where_positive(n: int, unit: Seq<char>) -> Seq<char> {
    if n > 0 {
        counted(n, unit)
    } else {
        Seq::empty()
    }
}

/// A time of so many seconds in days, hours and minutes, each where there are any; the seconds only
/// where there is nothing else.
pub open spec fn timedelta_text(s: int) -> Seq<char> {
    let long = where_positive(s / 86400, "天"@) + where_positive((s % 86400) / 3600, "小时"@)
        + where_positive((s % 3600) / 60, "分钟"@);
    if s <= 0 {
        "0秒"@
    } else if long.len() == 0 {
        where_positive(s % 60, "秒"@)
    } else {
        long
    }
}

/// A span of time in words.
pub fn get_readable_timedelta(delta: &chrono::TimeDelta) -> (res: String)
    ensures
        res@ == timedelta_text(toward_zero(span_nanos(*delta), 1_000_000_000)),
{
    readable_seconds(delta.num_seconds())
}

/// What [`get_readable_timedelta`] says of a span of so many whole seconds.
pub fn readable_seconds(s: i64) -> (res: String)
    ensures
        res@ == timedelta_text(s as int),
{
    if s <= 0 {
        return own("0秒");
    }
    let d = s / 86400;
    let h = (s % 86400) / 3600;
    let m = (s % 3600) / 60;
    let mut out = String::new();
    if d > 0 {
        let t = count(d, "天");
        out.append(t.as_str());
    }
    assert(out@ =~= where_positive(d as int, "天"@));
    if h > 0 {
        let t = count(h, "小时");
        out.append(t.as_str());
    }
    assert(out@ =~= where_positive(d as int, "天"@) + where_positive(h as int, "小时"@));
    if m > 0 {
        let t = count(m, "分钟");
        out.append(t.as_str());
    }
    assert(out@ =~= where_positive(d as int, "天"@) + where_positive(h as int, "小时"@)
        + where_positive(m as int, "分钟"@));
    if s % 60 > 0 && out.as_str().is_empty() {
        let t = count(s % 60, "秒");
        out.append(t.as_str());
        assert(out@ =~= where_positive(s as int % 60, "秒"@));
    }
    out
}

/// The room that a character takes: one place, or two beyond ASCII.
pub open spec fn width(c: char) -> int {
    if (c as u32) < 128 {
        1
    } else {
        2
    }
}

/// The room that a text takes.
pub open spec fn text_width(s: Seq<char>) -> int
    decreases s.len(),
{
    if s.len() == 0 {
        0
    } else {
        width(s[0]) + text_width(s.skip(1))
    }
}

/// How many characters go before the room is used up.
pub open spec fn fitting(s: Seq<char>, room: int) -> int
    decreases s.len(),
{
    if s.len() == 0 || room <= 0 {
        0
    } else {
        1 + fitting(s.skip(1), room - width(s[0]))
    }
}

/// The text, cut where the room is used up and then marked with three dots.
pub open spec fn truncated(s: Seq<char>, limit: int) -> Seq<char> {
    let n = fitting(s, limit);
    if n < s.len() {
        s.take(n) + "..."@
    } else {
        s
    }
}

proof fn lemma_fitting(s: Seq<char>, room: int)
    ensures
        0 <= fitting(s, room) <= s.len(),
    decreases s.len(),
{
    if s.len() > 0 && room > 0 {
        lemma_fitting(s.skip(1), room - width(s[0]));
    }
}

/// Cuts a text where the room is used up and then marks it with three dots.
pub fn truncate(s: &str, limit: i64) -> (res: String)
    ensures
        res@ == truncated(s@, limit as int),
{
    let chars = chars_of(s);
    let room: i128 = limit as i128;
    let mut used: i128 = 0;
    let mut i: usize = 0;
    assert(s@.skip(0) == s@);
    while i < chars.len()
        invariant
            chars@ == s@,
            i <= chars@.len(),
            room == limit,
            used <= 2 * i,
            0 <= used,
            fitting(s@, limit as int) == i + fitting(s@.skip(i as int), room - used),
        decreases chars@.len() - i,
    {
        if used >= room {
            let mut out = text_of(&chars, 0, i);
            out.append("...");
            return out;
        }
        let ghost rest = s@.skip(i as int);
        assert(rest.skip(1) == s@.skip(i + 1));
        used += if (chars[i] as u32) < 128 {
            1
        } else {
            2
        };
        i += 1;
    }
    own(s)
}

/// A text that takes no more room than there is stays as it is.
pub proof fn law_truncate_keeps_short(s: Seq<char>, limit: int)
    requires
        text_width(s) <= limit,
    ensures
        truncated(s, limit) == s,
{
    lemma_all_fits(s, limit);
}

proof fn lemma_all_fits(s: Seq<char>, room: int)
    requires
        text_width(s) <= room,
    ensures
        fitting(s, room) == s.len(),
    decreases s.len(),
{
    if s.len() > 0 {
        lemma_width(s.skip(1));
        lemma_all_fits(s.skip(1), room - width(s[0]));
    }
}

proof fn lemma_width(s: Seq<char>)
    ensures
        text_width(s) >= s.len(),
    decreases s.len(),
{
    if s.len() > 0 {
        lemma_width(s.skip(1));
    }
}

/// What is left of a text before the dots takes at most one place more than there is.
pub proof fn law_truncate_bounds(s: Seq<char>, limit: int)
    requires
        limit >= 0,
    ensures
        text_width(s.take(fitting(s, limit))) <= limit + 1,
    decreases s.len(),
{
    lemma_fitting(s, limit);
    let n = fitting(s, limit);
    if s.len() > 0 && limit > 0 {
        let rest = s.skip(1);
        let room = limit - width(s[0]);
        lemma_fitting(rest, room);
        assert(s.take(n).skip(1) == rest.take(n - 1));
        if room >= 0 {
            law_truncate_bounds(rest, room);
        } else {
            assert(rest.take(0).len() == 0);
        }
    }
}

/// The last `n` items.
pub open spec fn last_of<T>(s: Seq<T>, n: int) -> Seq<T> {
    if s.len() > n {
        s.skip(s.len() - n)
    } else {
        s
    }
}

/// Drops all but the last `n` items.
pub fn keep_last<T>(items: Vec<T>, n: usize) -> (res: Vec<T>)
    ensures
        res@ == last_of(items@, n as int),
{
    let mut items = items;
    if items.len() > n {
        let extra = items.len() - n;
        items.split_off(extra)
    } else {
        items
    }
}

/// Whether a number is in the list.
pub fn holds(ids: &Vec<i64>, id: i64) -> (res: bool)
    ensures
        res == ids@.contains(id),
{
    let mut i: usize = 0;
    while i < ids.len()
        invariant
            i <= ids@.len(),
            forall|j: int| 0 <= j < i ==> ids@[j] != id,
        decreases ids@.len() - i,
    {
        if ids[i] == id {
            assert(ids@[i as int] == id);
            return true;
        }
        i += 1;
    }
    false
}

/// The numbers of an array, where all its items are numbers.
pub open spec fn reals_of(items: Seq<JsonView>) -> Option<Seq<Real>>
    decreases items.len(),
{
    if items.len() == 0 {
        Some(Seq::empty())
    } else {
        match (reals_of(items.drop_last()), items.last().as_real()) {
            (Some(front), Some(x)) => Some(front.push(x)),
            _ => None,
        }
    }
}

/// The numbers of a JSON array, where it is one and all its items are numbers.
pub open spec fn vector_of(v: JsonView) -> Option<Seq<Real>> {
    match v {
        JsonView::Array(items) => reals_of(items),
        _ => None,
    }
}

/// The numbers of a JSON array, where it is one and all its items are numbers.
pub fn json_f64_vec(v: &Json) -> (res: Option<Vec<Real>>)
    ensures
        match res {
            Some(xs) => vector_of(v@) == Some(xs@),
            None => vector_of(v@) is None,
        },
{
    match v.as_array() {
        Some(items) => {
            let ghost all = json_views(items@);
            let mut out: Vec<Real> = Vec::new();
            let mut i: usize = 0;
            while i < items.len()
                invariant
                    all == json_views(items@),
                    i <= items@.len(),
                    v@ == JsonView::Array(all),
                    reals_of(all.take(i as int)) == Some(out@),
                decreases items@.len() - i,
            {
                assert(all.take(i + 1).drop_last() == all.take(i as int));
                match items[i].as_real() {
                    Some(x) => {
                        out.push(x);
                    },
                    None => {
                        proof {
                            lemma_reals_of_prefix(all, i + 1);
                        }
                        return None;
                    },
                }
                i += 1;
            }
            assert(all.take(i as int) == all);
            Some(out)
        },
        None => None,
    }
}

proof fn lemma_reals_of_prefix(items: Seq<JsonView>, n: int)
    requires
        0 <= n <= items.len(),
        reals_of(items.take(n)) is None,
    ensures
        reals_of(items) is None,
    decreases items.len(),
{
    if n < items.len() {
        assert(items.drop_last().take(n) == items.take(n));
        lemma_reals_of_prefix(items.drop_last(), n);
    } else {
        assert(items.take(n) == items);
    }
}

/// The bytes of 32 bits, the lowest first.
pub open spec fn le_bytes(x: u32) -> Seq<u8> {
    seq![
        (x % 0x100) as u8,
        (x / 0x100 % 0x100) as u8,
        (x / 0x1_0000 % 0x100) as u8,
        (x / 0x100_0000) as u8,
    ]
}

/// The 32 bits that four bytes stand for, the lowest first.
pub open spec fn of_le_bytes(b: Seq<u8>) -> u32 {
    (b[0] + b[1] * 0x100 + b[2] * 0x1_0000 + b[3] * 0x100_0000) as u32
}

/// The bytes of a vector of single-precision numbers, each given by its bits.
pub open spec fn vector_bytes(v: Seq<u32>) -> Seq<u8>
    decreases v.len(),
{
    if v.len() == 0 {
        Seq::empty()
    } else {
        vector_bytes(v.drop_last()) + le_bytes(v.last())
    }
}

/// The vector that the bytes stand for; what is left behind the last four of them is dropped.
pub open spec fn bytes_vector(b: Seq<u8>) -> Seq<u32>
    decreases b.len(),
{
    if b.len() < 4 {
        Seq::empty()
    } else {
        seq![of_le_bytes(b.take(4))] + bytes_vector(b.skip(4))
    }
}

/// The bytes of a vector of single-precision numbers, each given by its bits.
pub fn f32_to_le_bytes(v: &Vec<u32>) -> (res: Vec<u8>)
    ensures
        res@ == vector_bytes(v@),
{
    let mut out: Vec<u8> = Vec::new();
    let mut i: usize = 0;
    while i < v.len()
        invariant
            i <= v@.len(),
            out@ == vector_bytes(v@.take(i as int)),
        decreases v@.len() - i,
    {
        let x = v[i];
        let ghost before = out@;
        out.push((x % 0x100) as u8);
        out.push((x / 0x100 % 0x100) as u8);
        out.push((x / 0x1_0000 % 0x100) as u8);
        out.push((x / 0x100_0000) as u8);
        assert(v@.take(i + 1).drop_last() == v@.take(i as int));
        assert(out@ == before + le_bytes(x));
        i += 1;
    }
    assert(v@.take(i as int) == v@);
    out
}

/// The vector that the bytes stand for; what is left behind the last four of them is dropped.
pub fn f32_from_le_bytes(b: &Vec<u8>) -> (res: Vec<u32>)
    ensures
        res@ == bytes_vector(b@),
{
    let mut out: Vec<u32> = Vec::new();
    let mut i: usize = 0;
    assert(b@.skip(0) == b@);
    while b.len() - i >= 4
        invariant
            i <= b@.len(),
            bytes_vector(b@) == out@ + bytes_vector(b@.skip(i as int)),
        decreases b@.len() - i,
    {
        let ghost rest = b@.skip(i as int);
        let ghost before = out@;
        let x = b[i] as u32 + b[i + 1] as u32 * 0x100 + b[i + 2] as u32 * 0x1_0000 + b[i + 3] as u32
            * 0x100_0000;
        out.push(x);
        assert(rest.skip(4) == b@.skip(i + 4));
        assert(rest.take(4)[0] == b@[i as int] && rest.take(4)[1] == b@[i + 1] && rest.take(4)[2]
            == b@[i + 2] && rest.take(4)[3] == b@[i + 3]);
        assert(before + (seq![x] + bytes_vector(b@.skip(i + 4))) == out@ + bytes_vector(
            b@.skip(i + 4),
        ));
        i += 4;
    }
    assert(out@ + Seq::<u32>::empty() == out@);
    out
}

/// The bytes of a vector stand for that vector.
pub proof fn law_vector_reads_back(v: Seq<u32>)
    ensures
        bytes_vector(vector_bytes(v)) == v,
    decreases v.len(),
{
    if v.len() > 0 {
        law_vector_reads_back(v.drop_last());
        let x = v.last();
        assert(of_le_bytes(le_bytes(x)) == x);
        lemma_vector_bytes_len(v.drop_last());
        lemma_bytes_appended(vector_bytes(v.drop_last()), le_bytes(x), v.drop_last().len() as int);
        assert(v.drop_last().push(x) == v);
    }
}

proof fn lemma_vector_bytes_len(v: Seq<u32>)
    ensures
        vector_bytes(v).len() == 4 * v.len(),
    decreases v.len(),
{
    if v.len() > 0 {
        lemma_vector_bytes_len(v.drop_last());
    }
}

proof fn lemma_bytes_appended(a: Seq<u8>, four: Seq<u8>, n: int)
    requires
        a.len() == 4 * n,
        four.len() == 4,
    ensures
        bytes_vector(a + four) == bytes_vector(a).push(of_le_bytes(four)),
    decreases a.len(),
{
    let all = a + four;
    if a.len() < 4 {
        assert(all.take(4) == four);
        assert(all.skip(4).len() == 0);
        assert(bytes_vector(a) == Seq::<u32>::empty());
        assert(bytes_vector(all) == seq![of_le_bytes(four)] + bytes_vector(all.skip(4)));
    } else {
        assert(all.take(4) == a.take(4));
        assert(all.skip(4) == a.skip(4) + four);
        lemma_bytes_appended(a.skip(4), four, n - 1);
        assert(bytes_vector(all) == seq![of_le_bytes(a.take(4))] + bytes_vector(a.skip(4)).push(
            of_le_bytes(four),
        ));
    }
}

/// How a span of time is told: the seconds below a minute, the minutes below an hour, the hours and the
/// minutes below a day, and else the days, each without what is left over.
pub proof fn law_spans_are_told(days: int, hours: int, minutes: int, seconds: int)
    requires
        0 <= hours < 24,
        0 <= minutes < 60,
        0 <= seconds < 60,
        days >= 0,
    ensures
        elapsed_text(seconds) == int_text(seconds) + "秒"@,
        minutes > 0 ==> elapsed_text(60 * minutes + seconds) == int_text(minutes) + "分钟"@,
        hours > 0 ==> elapsed_text(3600 * hours + 60 * minutes + seconds) == int_text(hours)
            + "小时"@ + (int_text(minutes) + "分钟"@),
        days > 0 ==> elapsed_text(86400 * days + 3600 * hours + 60 * minutes + seconds) == int_text(
            days,
        ) + "天"@,
{
    assert((60 * minutes + seconds) / 60 == minutes);
    let t = 3600 * hours + 60 * minutes + seconds;
    assert(t / 3600 == hours);
    assert(t / 60 == 60 * hours + minutes);
    assert((60 * hours + minutes) % 60 == minutes);
    assert((86400 * days + t) / 86400 == days);
}

/// What lies ahead is told as coming, and what lies behind as past, both by the same span of whole
/// seconds.
pub proof fn law_past_and_future(millis: int, d: int)
    requires
        millis > 0,
        d > 0,
    ensures
        distance_text(millis) == elapsed_text(millis / 1000) + "后"@,
        distance_text(-millis) == elapsed_text(millis / 1000) + "前"@,
        distance_text(0) == elapsed_text(0) + "后"@,
        toward_zero(millis, d) == millis / d,
        toward_zero(-millis, d) == -(millis / d),
{
}

/// How a duration is told: the days, the hours and the minutes that are more than none; the seconds only
/// where there is none of these; and no seconds where there is nothing at all.
pub proof fn law_durations_are_told(days: int, hours: int, minutes: int, seconds: int)
    requires
        days >= 0,
        0 <= hours < 24,
        0 <= minutes < 60,
        0 <= seconds < 60,
        days + hours + minutes + seconds > 0,
    ensures
        ({
            let t = 86400 * days + 3600 * hours + 60 * minutes + seconds;
            let d = if days > 0 {
                int_text(days) + "天"@
            } else {
                Seq::empty()
            };
            let h = if hours > 0 {
                int_text(hours) + "小时"@
            } else {
                Seq::empty()
            };
            let m = if minutes > 0 {
                int_text(minutes) + "分钟"@
            } else {
                Seq::empty()
            };
            timedelta_text(t) == if days == 0 && hours == 0 && minutes == 0 {
                int_text(seconds) + "秒"@
            } else {
                d + h + m
            }
        }),
        forall|t: int| t <= 0 ==> #[trigger] timedelta_text(t) == "0秒"@,
{
    let t = 86400 * days + 3600 * hours + 60 * minutes + seconds;
    assert(t / 86400 == days);
    assert(t % 86400 == 3600 * hours + 60 * minutes + seconds);
    assert((3600 * hours + 60 * minutes + seconds) / 3600 == hours);
    assert(t % 3600 == 60 * minutes + seconds) by {
        assert(t == 3600 * (24 * days + hours) + (60 * minutes + seconds));
    }
    assert((60 * minutes + seconds) / 60 == minutes);
    assert(t % 60 == seconds) by {
        assert(t == 60 * (1440 * days + 60 * hours + minutes) + seconds);
    }
    let long = where_positive(t / 86400, "天"@) + where_positive((t % 86400) / 3600, "小时"@)
        + where_positive((t % 3600) / 60, "分钟"@);
    reveal_strlit("天");
    reveal_strlit("小时");
    reveal_strlit("分钟");
    assert(long.len() == 0 <==> days == 0 && hours == 0 && minutes == 0);
}

/// Characters of ASCII are one wide and all others two, and the width of a text is that of its parts.
pub proof fn law_width_adds_up(a: Seq<char>, b: Seq<char>, c: char)
    ensures
        text_width(a + b) == text_width(a) + text_width(b),
        text_width(seq![c]) == (if (c as u32) < 0x80 {
            1int
        } else {
            2
        }),
        text_width(Seq::empty()) == 0,
    decreases a.len(),
{
    reveal_with_fuel(text_width, 2);
    assert(seq![c].skip(1) =~= Seq::<char>::empty());
    if a.len() == 0 {
        assert(a + b =~= b);
    } else {
        law_width_adds_up(a.skip(1), b, c);
        assert((a + b).skip(1) =~= a.skip(1) + b);
        assert((a + b)[0] == a[0]);
    }
}

/// A text is cut behind the first character with which it reaches the limit, if any is left then, and
/// dots say so; a text that does not reach it earlier stays as it is.
pub proof fn law_text_is_cut_at_the_limit(s: Seq<char>, limit: int, n: int)
    requires
        0 <= n <= s.len(),
        text_width(s.take(n)) >= limit,
        forall|k: int| 0 <= k < n ==> text_width(#[trigger] s.take(k)) < limit,
    ensures
        n < s.len() ==> truncated(s, limit) == s.take(n) + "..."@,
        n == s.len() ==> truncated(s, limit) == s,
{
    lemma_fitting_is(s, limit, n);
}

proof fn lemma_fitting_is(s: Seq<char>, limit: int, n: int)
    requires
        0 <= n <= s.len(),
        text_width(s.take(n)) >= limit,
        forall|k: int| 0 <= k < n ==> text_width(#[trigger] s.take(k)) < limit,
    ensures
        fitting(s, limit) == n,
    decreases n,
{
    if n == 0 {
        assert(text_width(s.take(0)) == 0);
    } else {
        assert(text_width(s.take(0)) < limit);
        let rest = s.skip(1);
        let room = limit - width(s[0]);
        assert forall|k: int| 0 <= k < s.len() implies text_width(s.take(k + 1)) == width(s[0])
            + text_width(#[trigger] rest.take(k)) by {
            assert(s.take(k + 1).skip(1) =~= rest.take(k));
        }
        assert(text_width(rest.take(n - 1)) >= room);
        assert forall|k: int| 0 <= k < n - 1 implies text_width(#[trigger] rest.take(k)) < room by {
            assert(text_width(s.take(k + 1)) < limit);
        }
        lemma_fitting_is(rest, room, n - 1);
    }
}

/// The last items of a list are its end, as many as are asked for or as there are.
pub proof fn law_last_items<T>(s: Seq<T>, n: int)
    requires
        n >= 0,
    ensures
        last_of(s, n).len() == vstd::math::min(n, s.len() as int),
        forall|i: int|
            0 <= i < last_of(s, n).len() ==> #[trigger] last_of(s, n)[i] == s[s.len() - last_of(
                s,
                n,
            ).len() + i],
{
}

/// A vector is read where it is a list of numbers alone, and then holds each of them in its place.
pub proof fn law_vector_is_read(items: Seq<JsonView>)
    ensures
        (forall|i: int| 0 <= i < items.len() ==> (#[trigger] items[i]).as_real() is Some)
            == vector_of(JsonView::Array(items)) is Some,
        vector_of(JsonView::Array(items)) is Some ==> vector_of(JsonView::Array(items))->0.len()
            == items.len() && forall|i: int|
            0 <= i < items.len() ==> Some(
                #[trigger] vector_of(JsonView::Array(items))->0[i],
            ) == items[i].as_real(),
        forall|v: JsonView| !(v is Array) ==> #[trigger] vector_of(v) is None,
    decreases items.len(),
{
    if items.len() > 0 {
        let front = items.drop_last();
        law_vector_is_read(front);
        assert(vector_of(JsonView::Array(front)) == reals_of(front));
        assert(vector_of(JsonView::Array(items)) == reals_of(items));
        if forall|i: int| 0 <= i < items.len() ==> (#[trigger] items[i]).as_real() is Some {
            assert forall|i: int| 0 <= i < front.len() implies (#[trigger] front[i]).as_real()
                is Some by {
                assert(items[i].as_real() is Some);
            }
            assert(items[items.len() - 1].as_real() is Some);
        }
        if reals_of(items) is Some {
            let k = items.len() - 1;
            assert forall|i: int| 0 <= i < items.len() implies (#[trigger] items[i]).as_real()
                is Some && Some(reals_of(items)->0[i]) == items[i].as_real() by {
                if i < k {
                    assert(front[i].as_real() is Some);
                    assert(reals_of(front)->0[i] == reals_of(items)->0[i]);
                }
            }
        }
    }
}

/// The bytes of a vector: four for each number, in its place, the least first.
pub proof fn law_bytes_of_a_vector(v: Seq<u32>, x: u32)
    ensures
        vector_bytes(v).len() == 4 * v.len(),
        vector_bytes(v.push(x)) == vector_bytes(v) + le_bytes(x),
        le_bytes(x).len() == 4,
        le_bytes(x)[0] + 0x100 * le_bytes(x)[1] + 0x1_0000 * le_bytes(x)[2] + 0x100_0000 * le_bytes(
            x,
        )[3] == x,
{
    lemma_vector_bytes_len(v);
    assert(v.push(x).drop_last() =~= v);
}

/// Bytes are read four by four, the least first, and what is left over at the end is not read.
pub proof fn law_bytes_are_read_in_fours(b: Seq<u8>, x: u32, rest: Seq<u8>)
    ensures
        bytes_vector(b).len() == b.len() / 4,
        bytes_vector(le_bytes(x) + rest) == seq![x] + bytes_vector(rest),
    decreases b.len(),
{
    if b.len() >= 4 {
        law_bytes_are_read_in_fours(b.skip(4), x, rest);
    }
    let all = le_bytes(x) + rest;
    assert(all.take(4) =~= le_bytes(x));
    assert(all.skip(4) =~= rest);
    assert(of_le_bytes(le_bytes(x)) == x);
}

} // verus!
