//! Text as sequences of characters: trimming, searching, replacing, splitting, joining and
//! decimal numbers.

use vstd::prelude::*;
use vstd::string::*;

verus! {

/// std's `String::push`: the character is appended to the text.
pub assume_specification[ String::push ](s: &mut String, c: char)
    ensures
        final(s)@ == old(s)@.push(c),
;

/// The characters of `s`, in order.
pub fn chars_of(s: &str) -> (res: Vec<char>)
    ensures
        res@ == s@,
{
    let mut out: Vec<char> = Vec::new();
    for c in it: s.chars()
        invariant
            it.seq() == s@,
            out@ == s@.take(it.index() as int),
    {
        out.push(c);
    }
    assert(s@.take(s@.len() as int) == s@);
    out
}

/// The text made of the characters `chars[from..to]`.
pub fn text_of(chars: &Vec<char>, from: usize, to: usize) -> (res: String)
    requires
        from <= to <= chars@.len(),
    ensures
        res@ == chars@.subrange(from as int, to as int),
{
    let mut out = String::new();
    let mut i: usize = from;
    while i < to
        invariant
            from <= i <= to <= chars@.len(),
            out@ == chars@.subrange(from as int, i as int),
        decreases to - i,
    {
        out.push(chars[i]);
        i += 1;
    }
    out
}

/// A copy of `s`.
pub fn own(s: &str) -> (res: String)
    ensures
        res@ == s@,
{
    s.to_owned()
}

/// Whether the two texts are equal.
pub fn same(a: &str, b: &str) -> (res: bool)
    ensures
        res == (a@ == b@),
{
    a.to_owned() == b.to_owned()
}

/// Whether `c` has Unicode's White_Space property.
pub open spec fn is_white(c: char) -> bool {
    ||| '\u{9}' <= c <= '\u{d}'
    ||| c == '\u{20}'
    ||| c == '\u{85}'
    ||| c == '\u{a0}'
    ||| c == '\u{1680}'
    ||| '\u{2000}' <= c <= '\u{200a}'
    ||| c == '\u{2028}'
    ||| c == '\u{2029}'
    ||| c == '\u{202f}'
    ||| c == '\u{205f}'
    ||| c == '\u{3000}'
}

/// Decides [`is_white`].
pub fn white(c: char) -> (res: bool)
    ensures
        res == is_white(c),
{
    ('\u{9}' <= c && c <= '\u{d}') || c == '\u{20}' || c == '\u{85}' || c == '\u{a0}' || c
        == '\u{1680}' || ('\u{2000}' <= c && c <= '\u{200a}') || c == '\u{2028}' || c == '\u{2029}'
        || c == '\u{202f}' || c == '\u{205f}' || c == '\u{3000}'
}

/// `s` without its leading white space.
pub open spec fn trim_start(s: Seq<char>) -> Seq<char>
    decreases s.len(),
{
    if s.len() > 0 && is_white(s[0]) {
        trim_start(s.skip(1))
    } else {
        s
    }
}

/// `s` without its trailing white space.
pub open spec fn trim_end(s: Seq<char>) -> Seq<char>
    decreases s.len(),
{
    if s.len() > 0 && is_white(s.last()) {
        trim_end(s.drop_last())
    } else {
        s
    }
}

/// `s` without the white space at either end.
pub open spec fn trimmed(s: Seq<char>) -> Seq<char> {
    trim_end(trim_start(s))
}

/// `s` without the white space at either end.
pub fn trim(s: &str) -> (res: String)
    ensures
        res@ == trimmed(s@),
{
    let chars = chars_of(s);
    let n = chars.len();
    let mut a: usize = 0;
    assert(s@.skip(0) == s@);
    while a < n && white(chars[a])
        invariant
            n == chars@.len(),
            chars@ == s@,
            0 <= a <= n,
            trim_start(s@) == trim_start(s@.skip(a as int)),
        decreases n - a,
    {
        assert(s@.skip(a as int).skip(1) == s@.skip(a + 1));
        a += 1;
    }
    let ghost left = s@.skip(a as int);
    assert(trim_start(s@) == left);
    let mut b: usize = n;
    assert(left.take(left.len() as int) == left);
    while b > a && white(chars[b - 1])
        invariant
            n == chars@.len(),
            chars@ == s@,
            a <= b <= n,
            left == s@.skip(a as int),
            trim_end(left) == trim_end(left.take(b - a)),
        decreases b,
    {
        assert(left.take(b - a).last() == chars@[b - 1]);
        assert(left.take(b - a).drop_last() == left.take(b - 1 - a));
        b -= 1;
    }
    assert(b > a ==> left.take(b - a).last() == chars@[b - 1]);
    assert(left.take(b - a) == chars@.subrange(a as int, b as int));
    text_of(&chars, a, b)
}

/// Whether `needle` occurs in `hay`.
pub open spec fn occurs(hay: Seq<char>, needle: Seq<char>) -> bool {
    exists|i: int|
        0 <= i <= hay.len() - needle.len() && #[trigger] hay.subrange(i, i + needle.len()) == needle
}

/// Whether `needle` stands in `hay` at position `at`.
pub fn stands_at(hay: &Vec<char>, at: usize, needle: &Vec<char>) -> (res: bool)
    requires
        at + needle@.len() <= hay@.len(),
    ensures
        res == (hay@.subrange(at as int, at + needle@.len()) == needle@),
{
    let total = hay.len();
    let mut k: usize = 0;
    while k < needle.len()
        invariant
            at + needle@.len() <= hay@.len(),
            total == hay@.len(),
            k <= needle@.len(),
            forall|j: int| 0 <= j < k ==> hay@[at + j] == needle@[j],
        decreases needle@.len() - k,
    {
        if hay[at + k] != needle[k] {
            assert(hay@.subrange(at as int, at + needle@.len())[k as int] != needle@[k as int]);
            return false;
        }
        k += 1;
    }
    assert(hay@.subrange(at as int, at + needle@.len()) =~= needle@);
    true
}

/// Whether `needle` occurs in `hay`.
pub fn contains(hay: &str, needle: &str) -> (res: bool)
    ensures
        res == occurs(hay@, needle@),
{
    let h = chars_of(hay);
    let n = chars_of(needle);
    if n.len() == 0 {
        assert(hay@.subrange(0, 0int + needle@.len()) == needle@);
        return true;
    }
    let mut i: usize = 0;
    while i < h.len() && n.len() <= h.len() - i
        invariant
            h@ == hay@,
            n@ == needle@,
            n@.len() > 0,
            i <= h@.len(),
            forall|j: int|
                0 <= j < i ==> #[trigger] hay@.subrange(j, j + needle@.len()) != needle@,
        decreases h@.len() - i,
    {
        if stands_at(&h, i, &n) {
            assert(hay@.subrange(i as int, i + needle@.len()) == needle@);
            return true;
        }
        i += 1;
    }
    false
}

/// `s` with each occurrence of `from`, taken from the left and not overlapping, replaced by `to`.
pub open spec fn replaced(s: Seq<char>, from: Seq<char>, to: Seq<char>) -> Seq<char>
    decreases s.len(),
{
    if from.len() == 0 || s.len() < from.len() {
        s
    } else if s.take(from.len() as int) == from {
        to + replaced(s.skip(from.len() as int), from, to)
    } else {
        seq![s[0]] + replaced(s.skip(1), from, to)
    }
}

/// `s` with each occurrence of `from`, taken from the left and not overlapping, replaced by `to`.
pub fn replace(s: &str, from: &str, to: &str) -> (res: String)
    requires
        from@.len() > 0,
    ensures
        res@ == replaced(s@, from@, to@),
{
    let chars = chars_of(s);
    let pat = chars_of(from);
    let mut out = String::new();
    let mut i: usize = 0;
    assert(s@.skip(0) == s@);
    while i < chars.len() && pat.len() <= chars.len() - i
        invariant
            chars@ == s@,
            pat@ == from@,
            pat@.len() > 0,
            i <= chars@.len(),
            out@ + replaced(s@.skip(i as int), from@, to@) == replaced(s@, from@, to@),
        decreases chars@.len() - i,
    {
        let ghost rest = s@.skip(i as int);
        let ghost before = out@;
        assert(rest.take(pat@.len() as int) == chars@.subrange(i as int, i + pat@.len()));
        if stands_at(&chars, i, &pat) {
            out.append(to);
            assert(rest.skip(from@.len() as int) == s@.skip(i + from@.len()));
            assert(replaced(rest, from@, to@) == to@ + replaced(rest.skip(from@.len() as int), from@, to@));
            assert(before + (to@ + replaced(s@.skip(i + from@.len()), from@, to@)) == (before + to@)
                + replaced(s@.skip(i + from@.len()), from@, to@));
            i += pat.len();
        } else {
            out.push(chars[i]);
            assert(rest.skip(1) == s@.skip(i + 1));
            assert(before + (seq![rest[0]] + replaced(rest.skip(1), from@, to@)) == before.push(
                rest[0],
            ) + replaced(rest.skip(1), from@, to@));
            i += 1;
        }
    }
    let tail = text_of(&chars, i, chars.len());
    assert(tail@ == s@.skip(i as int));
    out.append(tail.as_str());
    out
}

/// The first position of `c` in `s`, or its length.
pub open spec fn find_char(s: Seq<char>, c: char) -> int
    decreases s.len(),
{
    if s.len() == 0 || s[0] == c {
        0
    } else {
        1 + find_char(s.skip(1), c)
    }
}

/// [`find_char`] is the first position at which `c` stands, and the length where it stands nowhere.
pub proof fn lemma_find_char(s: Seq<char>, c: char)
    ensures
        0 <= find_char(s, c) <= s.len(),
        forall|j: int| 0 <= j < find_char(s, c) ==> s[j] != c,
        find_char(s, c) < s.len() ==> s[find_char(s, c)] == c,
    decreases s.len(),
{
    if s.len() > 0 && s[0] != c {
        lemma_find_char(s.skip(1), c);
        assert forall|j: int| 0 <= j < find_char(s, c) implies s[j] != c by {
            if j > 0 {
                assert(s.skip(1)[j - 1] == s[j]);
            }
        }
    }
}

/// A first position is the one that [`find_char`] names.
pub proof fn lemma_find_char_at(s: Seq<char>, c: char, k: int)
    requires
        0 <= k <= s.len(),
        forall|j: int| 0 <= j < k ==> s[j] != c,
        k < s.len() ==> s[k] == c,
    ensures
        find_char(s, c) == k,
{
    lemma_find_char(s, c);
}

/// The part of `s` before the first `c`; all of it where `c` does not occur.
pub open spec fn before_char(s: Seq<char>, c: char) -> Seq<char> {
    s.take(find_char(s, c))
}

/// The part of `s` before the first `c`; all of it where `c` does not occur.
pub fn until_char(s: &str, c: char) -> (res: String)
    ensures
        res@ == before_char(s@, c),
{
    let chars = chars_of(s);
    let mut i: usize = 0;
    while i < chars.len() && chars[i] != c
        invariant
            chars@ == s@,
            i <= chars@.len(),
            forall|j: int| 0 <= j < i ==> s@[j] != c,
        decreases chars@.len() - i,
    {
        i += 1;
    }
    proof {
        lemma_find_char_at(s@, c, i as int);
    }
    text_of(&chars, 0, i)
}

/// The parts of `s` between the occurrences of `c`.
pub open spec fn split_parts(s: Seq<char>, c: char) -> Seq<Seq<char>>
    decreases s.len(),
    via split_parts_shrinks
{
    let k = find_char(s, c);
    if k >= s.len() {
        seq![s]
    } else {
        seq![s.take(k)] + split_parts(s.skip(k + 1), c)
    }
}

#[via_fn]
proof fn split_parts_shrinks(s: Seq<char>, c: char) {
    lemma_find_char(s, c);
}

/// The views of a list of texts.
pub open spec fn views(parts: Seq<String>) -> Seq<Seq<char>> {
    parts.map_values(|p: String| p@)
}

/// The parts of `s` between the occurrences of `c`.
pub fn split(s: &str, c: char) -> (res: Vec<String>)
    ensures
        views(res@) == split_parts(s@, c),
{
    let chars = chars_of(s);
    let mut out: Vec<String> = Vec::new();
    let mut from: usize = 0;
    let mut i: usize = 0;
    assert(s@.skip(0) == s@);
    while i < chars.len()
        invariant
            chars@ == s@,
            from <= i <= chars@.len(),
            forall|j: int| from <= j < i ==> s@[j] != c,
            views(out@) + split_parts(s@.skip(from as int), c) == split_parts(s@, c),
        decreases chars@.len() - i,
    {
        if chars[i] == c {
            let ghost rest = s@.skip(from as int);
            let ghost before = out@;
            let part = text_of(&chars, from, i);
            proof {
                lemma_find_char_at(rest, c, i - from);
                assert(rest.skip(i - from + 1) == s@.skip(i + 1));
                assert(rest.take(i - from) == part@);
            }
            out.push(part);
            assert(views(out@) == views(before).push(part@));
            assert(views(before) + (seq![part@] + split_parts(s@.skip(i + 1), c)) == views(
                before,
            ).push(part@) + split_parts(s@.skip(i + 1), c));
            from = i + 1;
        }
        i += 1;
    }
    let ghost before = out@;
    let part = text_of(&chars, from, i);
    proof {
        let rest = s@.skip(from as int);
        lemma_find_char_at(rest, c, rest.len() as int);
        assert(part@ == rest);
    }
    out.push(part);
    assert(views(out@) == views(before).push(part@));
    out
}

/// `parts` with `sep` between each two neighbours.
pub open spec fn joined(parts: Seq<Seq<char>>, sep: Seq<char>) -> Seq<char>
    decreases parts.len(),
{
    if parts.len() == 0 {
        Seq::empty()
    } else if parts.len() == 1 {
        parts[0]
    } else {
        joined(parts.drop_last(), sep) + sep + parts.last()
    }
}

/// `parts` with `sep` between each two neighbours.
pub fn join(parts: &Vec<String>, sep: &str) -> (res: String)
    ensures
        res@ == joined(views(parts@), sep@),
{
    let mut out = String::new();
    let mut i: usize = 0;
    let ghost all = views(parts@);
    while i < parts.len()
        invariant
            all == views(parts@),
            i <= parts@.len(),
            out@ == joined(all.take(i as int), sep@),
        decreases parts@.len() - i,
    {
        if i > 0 {
            out.append(sep);
        }
        out.append(parts[i].as_str());
        assert(all.take(i + 1).drop_last() == all.take(i as int));
        assert(all.take(i + 1).last() == parts@[i as int]@);
        i += 1;
    }
    assert(all.take(i as int) == all);
    out
}

/// All of `parts`, one after the other.
pub open spec fn concatenated(parts: Seq<Seq<char>>) -> Seq<char>
    decreases parts.len(),
{
    if parts.len() == 0 {
        Seq::empty()
    } else {
        concatenated(parts.drop_last()) + parts.last()
    }
}

/// All of `parts`, one after the other.
pub fn concat(parts: &Vec<String>) -> (res: String)
    ensures
        res@ == concatenated(views(parts@)),
{
    let mut out = String::new();
    let mut i: usize = 0;
    let ghost all = views(parts@);
    while i < parts.len()
        invariant
            all == views(parts@),
            i <= parts@.len(),
            out@ == concatenated(all.take(i as int)),
        decreases parts@.len() - i,
    {
        out.append(parts[i].as_str());
        assert(all.take(i + 1).drop_last() == all.take(i as int));
        assert(all.take(i + 1).last() == parts@[i as int]@);
        i += 1;
    }
    assert(all.take(i as int) == all);
    out
}

/// The words of `cur + s` that are not yet complete in `cur`: `cur` is a word that has begun.
pub open spec fn words_after(s: Seq<char>, cur: Seq<char>) -> Seq<Seq<char>>
    decreases s.len(),
{
    let begun = if cur.len() == 0 {
        Seq::<Seq<char>>::empty()
    } else {
        seq![cur]
    };
    if s.len() == 0 {
        begun
    } else if is_white(s[0]) {
        begun + words_after(s.skip(1), Seq::empty())
    } else {
        words_after(s.skip(1), cur.push(s[0]))
    }
}

/// The maximal runs of `s` without white space.
pub open spec fn words(s: Seq<char>) -> Seq<Seq<char>> {
    words_after(s, Seq::empty())
}

/// The maximal runs of `s` without white space.
pub fn split_words(s: &str) -> (res: Vec<String>)
    ensures
        views(res@) == words(s@),
{
    let chars = chars_of(s);
    let mut out: Vec<String> = Vec::new();
    let mut from: usize = 0;
    let mut i: usize = 0;
    assert(s@.skip(0) == s@);
    assert(s@.subrange(0, 0) == Seq::<char>::empty());
    assert(views(out@) + words(s@) == words(s@));
    while i < chars.len()
        invariant
            chars@ == s@,
            from <= i <= chars@.len(),
            views(out@) + words_after(s@.skip(i as int), s@.subrange(from as int, i as int)) == words(s@),
        decreases chars@.len() - i,
    {
        let ghost rest = s@.skip(i as int);
        let ghost cur = s@.subrange(from as int, i as int);
        let ghost before = out@;
        assert(rest.skip(1) == s@.skip(i + 1));
        if white(chars[i]) {
            if from < i {
                let word = text_of(&chars, from, i);
                out.push(word);
                assert(views(out@) == views(before).push(cur));
                assert(views(before) + (seq![cur] + words_after(s@.skip(i + 1), Seq::empty()))
                    == views(before).push(cur) + words_after(s@.skip(i + 1), Seq::empty()));
            } else {
                assert(Seq::<Seq<char>>::empty() + words_after(s@.skip(i + 1), Seq::empty())
                    == words_after(s@.skip(i + 1), Seq::empty()));
            }
            from = i + 1;
            assert(s@.subrange(from as int, i + 1) == Seq::<char>::empty());
        } else {
            assert(s@.subrange(from as int, i + 1) == cur.push(rest[0]));
        }
        i += 1;
    }
    if from < i {
        let ghost before = out@;
        let word = text_of(&chars, from, i);
        out.push(word);
        assert(views(out@) == views(before).push(word@));
    }
    out
}

/// The character of a decimal digit.
pub open spec fn digit_char(d: int) -> char {
    (48 + d) as char
}

/// The decimal digits of `n`.
pub open spec fn nat_text(n: nat) -> Seq<char>
    decreases n,
{
    if n < 10 {
        seq![digit_char(n as int)]
    } else {
        nat_text(n / 10).push(digit_char((n % 10) as int))
    }
}

/// `n` in decimal.
pub open spec fn int_text(n: int) -> Seq<char> {
    if n < 0 {
        seq!['-'] + nat_text((-n) as nat)
    } else {
        nat_text(n as nat)
    }
}

/// `n` in decimal.
pub fn unsigned_text(n: u64) -> (res: String)
    ensures
        res@ == nat_text(n as nat),
    decreases n,
{
    let mut out = if n < 10 {
        String::new()
    } else {
        unsigned_text(n / 10)
    };
    let d: u8 = (n % 10) as u8;
    out.push((48u8 + d) as char);
    out
}

/// `n` in decimal.
pub fn signed_text(n: i64) -> (res: String)
    ensures
        res@ == int_text(n as int),
{
    if n < 0 {
        let mut out = own("-");
        proof {
            reveal_strlit("-");
        }
        let magnitude: u64 = (-(n as i128)) as u64;
        out.append(unsigned_text(magnitude).as_str());
        assert("-"@ =~= seq!['-']);
        out
    } else {
        unsigned_text(n as u64)
    }
}

/// Whether `c` is one of the ten ASCII digits.
pub open spec fn is_digit(c: char) -> bool {
    '0' <= c <= '9'
}

/// Whether every character of `s` is an ASCII digit.
pub open spec fn all_digits(s: Seq<char>) -> bool {
    forall|i: int| 0 <= i < s.len() ==> is_digit(#[trigger] s[i])
}

/// The number that the decimal digits `s` stand for.
pub open spec fn digits_value(s: Seq<char>) -> int
    decreases s.len(),
{
    if s.len() == 0 {
        0
    } else {
        10 * digits_value(s.drop_last()) + (s.last() as int - 48)
    }
}

/// Whether every character of `s` is an ASCII digit.
pub fn only_digits(s: &str) -> (res: bool)
    ensures
        res == all_digits(s@),
{
    let chars = chars_of(s);
    let mut i: usize = 0;
    while i < chars.len()
        invariant
            chars@ == s@,
            i <= chars@.len(),
            forall|j: int| 0 <= j < i ==> is_digit(#[trigger] s@[j]),
        decreases chars@.len() - i,
    {
        if chars[i] < '0' || chars[i] > '9' {
            assert(!is_digit(s@[i as int]));
            return false;
        }
        i += 1;
    }
    true
}

/// The digits of a decimal number: what follows its sign, where it has one.
pub open spec fn unsigned_part(s: Seq<char>) -> Seq<char> {
    if s.len() > 0 && (s[0] == '+' || s[0] == '-') {
        s.skip(1)
    } else {
        s
    }
}

/// The number that `s` stands for: an optional sign, then one or more decimal digits.
pub open spec fn signed_value(s: Seq<char>) -> int {
    if s.len() > 0 && s[0] == '-' {
        -digits_value(unsigned_part(s))
    } else {
        digits_value(unsigned_part(s))
    }
}

/// The 64-bit number that `s` stands for, where it stands for one.
pub open spec fn int_of_text(s: Seq<char>) -> Option<i64> {
    let digits = unsigned_part(s);
    if digits.len() > 0 && all_digits(digits) && i64::MIN <= signed_value(s) <= i64::MAX {
        Some(signed_value(s) as i64)
    } else {
        None
    }
}

/// The 64-bit number that `s` stands for, where it stands for one.
pub fn parse_int(s: &str) -> (res: Option<i64>)
    ensures
        res == int_of_text(s@),
{
    let chars = chars_of(s);
    let n = chars.len();
    let negative = n > 0 && chars[0] == '-';
    let from: usize = if n > 0 && (chars[0] == '+' || chars[0] == '-') {
        1
    } else {
        0
    };
    let ghost digits = unsigned_part(s@);
    assert(digits == s@.skip(from as int));
    if from == n {
        return None;
    }
    let mut acc: i128 = 0;
    let mut large = false;
    let mut i: usize = from;
    while i < n
        invariant
            chars@ == s@,
            n == chars@.len(),
            from <= i <= n,
            digits == s@.skip(from as int),
            digits == unsigned_part(s@),
            forall|j: int| 0 <= j < i - from ==> is_digit(#[trigger] digits[j]),
            0 <= acc <= 0xffff_ffff_ffff_ffff,
            !large ==> acc == digits_value(digits.take(i - from)),
            large ==> digits_value(digits.take(i - from)) > 0xffff_ffff_ffff_ffff,
        decreases n - i,
    {
        let c = chars[i];
        assert(c == digits[i - from]);
        if c < '0' || c > '9' {
            assert(!is_digit(digits[i - from]));
            return None;
        }
        assert(digits.take(i - from + 1).drop_last() == digits.take(i - from));
        if !large {
            let next: i128 = acc * 10 + (c as u32 as i128 - 48);
            if next > 0xffff_ffff_ffff_ffff {
                large = true;
            } else {
                acc = next;
            }
        }
        i += 1;
    }
    assert(digits.take(n - from) == digits);
    if large {
        return None;
    }
    let value: i128 = if negative {
        -acc
    } else {
        acc
    };
    if value < i64::MIN as i128 || value > i64::MAX as i128 {
        None
    } else {
        Some(value as i64)
    }
}

proof fn lemma_nat_text_reads_back(n: nat)
    ensures
        nat_text(n).len() > 0,
        all_digits(nat_text(n)),
        digits_value(nat_text(n)) == n,
    decreases n,
{
    if n >= 10 {
        lemma_nat_text_reads_back(n / 10);
        assert(nat_text(n).drop_last() == nat_text(n / 10));
    } else {
        assert(nat_text(n).drop_last() == Seq::<char>::empty());
        assert(digits_value(nat_text(n).drop_last()) == 0);
    }
}

/// A 64-bit number written in decimal reads back as itself.
pub proof fn law_decimal_reads_back(n: i64)
    ensures
        int_of_text(int_text(n as int)) == Some(n),
{
    if n < 0 {
        lemma_nat_text_reads_back((-n) as nat);
        assert(int_text(n as int).skip(1) == nat_text((-n) as nat));
    } else {
        lemma_nat_text_reads_back(n as nat);
        assert(is_digit(nat_text(n as nat)[0]));
    }
}

/// Two 64-bit numbers with the same decimal text are equal.
pub proof fn law_decimal_is_injective(m: i64, n: i64)
    requires
        int_text(m as int) == int_text(n as int),
    ensures
        m == n,
{
    law_decimal_reads_back(m);
    law_decimal_reads_back(n);
}

/// The upper case of an ASCII letter; any other character itself.
pub open spec fn ascii_upper(c: char) -> char {
    if 'a' <= c <= 'z' {
        (c as int - 32) as char
    } else {
        c
    }
}

/// `s` with its ASCII letters in upper case.
pub open spec fn ascii_uppercase(s: Seq<char>) -> Seq<char> {
    s.map_values(|c: char| ascii_upper(c))
}

/// `s` with its ASCII letters in upper case.
pub fn to_ascii_upper(s: &str) -> (res: String)
    ensures
        res@ == ascii_uppercase(s@),
{
    let chars = chars_of(s);
    let mut out = String::new();
    let mut i: usize = 0;
    while i < chars.len()
        invariant
            chars@ == s@,
            i <= chars@.len(),
            out@ == ascii_uppercase(s@.take(i as int)),
        decreases chars@.len() - i,
    {
        let c = chars[i];
        if 'a' <= c && c <= 'z' {
            let u: u8 = (c as u32 - 32) as u8;
            out.push(u as char);
        } else {
            out.push(c);
        }
        assert(ascii_uppercase(s@.take(i + 1)) == ascii_uppercase(s@.take(i as int)).push(
            ascii_upper(c),
        ));
        i += 1;
    }
    assert(s@.take(i as int) == s@);
    out
}

/// A text in small letters, as std's `str::to_lowercase` has it.
pub uninterp spec fn lowercase(s: Seq<char>) -> Seq<char>;

/// A capital ASCII letter as the small one, any other character as it is.
pub open spec fn ascii_lower(c: char) -> char {
    if 'A' <= c && c <= 'Z' {
        (c as u32 + 32) as char
    } else {
        c
    }
}

/// std's `str::to_lowercase`: the text in small letters, by the rules of Unicode. A text in ASCII has
/// its capitals replaced one by one.
#[verifier::external_body]
pub(crate) fn to_lower(s: &str) -> (res: String)
    ensures
        res@ == lowercase(s@),
        (forall|i: int| 0 <= i < s@.len() ==> (#[trigger] s@[i] as u32) < 128) ==> res@
            == s@.map_values(|c: char| ascii_lower(c)),
{
    s.to_lowercase()
}

/// Whether `a` stands before `b` in the order of code points.
pub open spec fn precedes(a: Seq<char>, b: Seq<char>) -> bool
    decreases a.len(),
{
    if b.len() == 0 {
        false
    } else if a.len() == 0 {
        true
    } else if a[0] != b[0] {
        a[0] < b[0]
    } else {
        precedes(a.skip(1), b.skip(1))
    }
}

/// Whether `a` stands before `b` in the order of code points.
pub fn comes_before(a: &str, b: &str) -> (res: bool)
    ensures
        res == precedes(a@, b@),
{
    let x = chars_of(a);
    let y = chars_of(b);
    let mut i: usize = 0;
    assert(a@.skip(0) == a@);
    assert(b@.skip(0) == b@);
    while i < x.len() && i < y.len() && x[i] == y[i]
        invariant
            x@ == a@,
            y@ == b@,
            i <= x@.len(),
            i <= y@.len(),
            precedes(a@, b@) == precedes(a@.skip(i as int), b@.skip(i as int)),
        decreases x@.len() - i,
    {
        assert(a@.skip(i as int).skip(1) == a@.skip(i + 1));
        assert(b@.skip(i as int).skip(1) == b@.skip(i + 1));
        i += 1;
    }
    if i >= y.len() {
        false
    } else if i >= x.len() {
        true
    } else {
        x[i] < y[i]
    }
}

/// The order of code points is a strict total order.
pub proof fn law_precedes_is_total(a: Seq<char>, b: Seq<char>, c: Seq<char>)
    ensures
        !precedes(a, a),
        !(precedes(a, b) && precedes(b, a)),
        a == b || precedes(a, b) || precedes(b, a),
        precedes(a, b) && precedes(b, c) ==> precedes(a, c),
    decreases a.len() + b.len() + c.len(),
{
    if a.len() > 0 && b.len() > 0 {
        if c.len() > 0 {
            law_precedes_is_total(a.skip(1), b.skip(1), c.skip(1));
        } else {
            law_precedes_is_total(a.skip(1), b.skip(1), c);
        }
        if a.skip(1) == b.skip(1) && a[0] == b[0] {
            assert forall|i: int| 0 <= i < a.len() implies a[i] == b[i] by {
                if i > 0 {
                    assert(a[i] == a.skip(1)[i - 1]);
                    assert(b[i] == b.skip(1)[i - 1]);
                }
            }
            assert(a.len() == a.skip(1).len() + 1);
            assert(a =~= b);
        }
    } else {
        if a.len() > 0 {
            law_precedes_is_total(a.skip(1), b, c);
        }
        if a.len() == 0 && b.len() == 0 {
            assert(a =~= b);
        }
    }
}

/// Trimming takes away just the white space at both ends: what is left is the middle of the text, and
/// unless nothing is left it begins and ends with something else.
pub proof fn law_trimmed_is_the_middle(s: Seq<char>)
    ensures
        exists|from: int, to: int|
            0 <= from <= to <= s.len() && trimmed(s) == #[trigger] s.subrange(from, to) && (forall|
                i: int,
            |
                0 <= i < s.len() && (i < from || to <= i) ==> is_white(#[trigger] s[i])),
        trimmed(s).len() > 0 ==> !is_white(trimmed(s)[0]) && !is_white(trimmed(s).last()),
{
    lemma_trim_start(s);
    let rest = trim_start(s);
    lemma_trim_end(rest);
    let from = s.len() - rest.len();
    let to = from + trim_end(rest).len();
    assert(trimmed(s) =~= s.subrange(from, to));
    assert forall|i: int| 0 <= i < s.len() && (i < from || to <= i) implies is_white(
        #[trigger] s[i],
    ) by {
        if to <= i {
            assert(rest[i - from] == s[i]);
        }
    }
}

proof fn lemma_trim_start(s: Seq<char>)
    ensures
        trim_start(s).len() <= s.len(),
        trim_start(s) == s.skip(s.len() - trim_start(s).len()),
        forall|i: int| 0 <= i < s.len() - trim_start(s).len() ==> is_white(#[trigger] s[i]),
        trim_start(s).len() > 0 ==> !is_white(trim_start(s)[0]),
    decreases s.len(),
{
    if s.len() > 0 && is_white(s[0]) {
        let rest = s.skip(1);
        lemma_trim_start(rest);
        let k = rest.len() - trim_start(rest).len();
        assert(rest.skip(k) =~= s.skip(k + 1));
        assert forall|i: int| 0 <= i < s.len() - trim_start(s).len() implies is_white(
            #[trigger] s[i],
        ) by {
            if i > 0 {
                assert(rest[i - 1] == s[i]);
            }
        }
    } else {
        assert(s.skip(0) =~= s);
    }
}

proof fn lemma_trim_end(s: Seq<char>)
    ensures
        trim_end(s).len() <= s.len(),
        trim_end(s) == s.take(trim_end(s).len() as int),
        forall|i: int| trim_end(s).len() <= i < s.len() ==> is_white(#[trigger] s[i]),
        trim_end(s).len() > 0 ==> !is_white(trim_end(s).last()),
    decreases s.len(),
{
    if s.len() > 0 && is_white(s.last()) {
        let rest = s.drop_last();
        lemma_trim_end(rest);
        assert(rest.take(trim_end(rest).len() as int) =~= s.take(trim_end(rest).len() as int));
        assert forall|i: int| trim_end(s).len() <= i < s.len() implies is_white(
            #[trigger] s[i],
        ) by {
            if i < rest.len() {
                assert(rest[i] == s[i]);
            }
        }
    } else {
        assert(s.take(s.len() as int) =~= s);
    }
}

/// The space, the tab, the line breaks and the wide space are white; what can be seen in ASCII is not.
pub proof fn law_white_space(c: char)
    ensures
        c == ' ' || c == '\t' || c == '\n' || c == '\r' || c == '\u{3000}' ==> is_white(c),
        '!' <= c <= '~' ==> !is_white(c),
        '\u{4e00}' <= c ==> !is_white(c),
{
}

/// One text occurs in another just where the other is something, the text and something.
pub proof fn law_occurrence(hay: Seq<char>, before: Seq<char>, needle: Seq<char>, after: Seq<char>)
    ensures
        hay == before + needle + after ==> occurs(hay, needle),
        occurs(hay, needle) ==> exists|a: Seq<char>, b: Seq<char>|
            hay == #[trigger] ((a + needle) + b),
{
    if hay == before + needle + after {
        let i = before.len() as int;
        assert(hay.subrange(i, i + needle.len()) =~= needle);
    }
    if occurs(hay, needle) {
        let i = choose|i: int|
            0 <= i <= hay.len() - needle.len() && #[trigger] hay.subrange(i, i + needle.len())
                == needle;
        let a = hay.take(i);
        let b = hay.skip(i + needle.len());
        assert(hay =~= (a + needle) + b) by {
            assert forall|k: int| 0 <= k < hay.len() implies hay[k] == ((a + needle) + b)[k] by {
                if i <= k < i + needle.len() {
                    assert(hay.subrange(i, i + needle.len())[k - i] == hay[k]);
                }
            }
        }
    }
}

/// A text that does not occur is replaced nowhere; one that occurs is replaced where it stands first, and
/// then in what follows.
pub proof fn law_replacement(s: Seq<char>, from: Seq<char>, to: Seq<char>, at: int)
    requires
        from.len() > 0,
    ensures
        !occurs(s, from) ==> replaced(s, from, to) == s,
        0 <= at <= s.len() - from.len() && s.subrange(at, at + from.len()) == from && (forall|
            i: int,
        |
            0 <= i < at ==> #[trigger] s.subrange(i, i + from.len()) != from) ==> replaced(
            s,
            from,
            to,
        ) == s.take(at) + to + replaced(s.skip(at + from.len()), from, to),
    decreases s.len(),
{
    let n = from.len() as int;
    if s.len() < n {
    } else if s.take(n) == from {
        assert(s.subrange(0, 0 + n) == from);
        assert(occurs(s, from));
        if 0 <= at <= s.len() - n && s.subrange(at, at + n) == from && (forall|i: int|
            0 <= i < at ==> #[trigger] s.subrange(i, i + from.len()) != from) {
            if at > 0 {
                assert(s.subrange(0, 0int + from.len()) != from);
            }
            assert(at == 0);
            assert(s.take(0) + to + replaced(s.skip(n), from, to) =~= to + replaced(
                s.skip(n),
                from,
                to,
            ));
        }
    } else {
        let rest = s.skip(1);
        law_replacement(rest, from, to, at - 1);
        if !occurs(s, from) {
            if occurs(rest, from) {
                let i = choose|i: int|
                    0 <= i <= rest.len() - from.len() && #[trigger] rest.subrange(
                        i,
                        i + from.len(),
                    ) == from;
                assert(rest.subrange(i, i + n) =~= s.subrange(i + 1, i + 1 + n));
                assert(s.subrange(i + 1, i + 1 + from.len()) == from);
                assert(false);
            }
            assert(seq![s[0]] + rest =~= s);
        }
        if 0 <= at <= s.len() - n && s.subrange(at, at + n) == from && (forall|i: int|
            0 <= i < at ==> #[trigger] s.subrange(i, i + from.len()) != from) {
            assert(at > 0) by {
                assert(s.subrange(0, n) =~= s.take(n));
            }
            assert(rest.subrange(at - 1, at - 1 + n) =~= s.subrange(at, at + n));
            assert forall|i: int| 0 <= i < at - 1 implies #[trigger] rest.subrange(
                i,
                i + from.len(),
            ) != from by {
                assert(rest.subrange(i, i + n) =~= s.subrange(i + 1, i + 1 + n));
                assert(s.subrange(i + 1, i + 1 + from.len()) != from);
            }
            assert(rest.skip(at - 1 + n) =~= s.skip(at + n));
            assert(seq![s[0]] + rest.take(at - 1) =~= s.take(at));
            let tail = replaced(s.skip(at + n), from, to);
            assert(seq![s[0]] + (rest.take(at - 1) + to + tail) =~= s.take(at) + to + tail);
        }
    }
}

/// The text before a character is the longest beginning without it.
pub proof fn law_text_before_a_character(s: Seq<char>, c: char)
    ensures
        before_char(s, c).len() <= s.len(),
        before_char(s, c) == s.take(before_char(s, c).len() as int),
        !before_char(s, c).contains(c),
        before_char(s, c).len() < s.len() ==> s[before_char(s, c).len() as int] == c,
{
    lemma_find_char(s, c);
}

/// Splitting takes a text apart at each place of the character, and at nothing else: no part holds the
/// character, and the parts joined by it are the text again.
pub proof fn law_split_parts_join_again(s: Seq<char>, c: char)
    ensures
        split_parts(s, c).len() > 0,
        joined(split_parts(s, c), seq![c]) == s,
        forall|i: int|
            0 <= i < split_parts(s, c).len() ==> !(#[trigger] split_parts(s, c)[i]).contains(c),
    decreases s.len(),
{
    lemma_find_char(s, c);
    let k = find_char(s, c);
    if k < s.len() {
        let rest = s.skip(k + 1);
        law_split_parts_join_again(rest, c);
        law_joined_in_two(seq![s.take(k)], split_parts(rest, c), seq![c]);
        reveal_with_fuel(joined, 2);
        assert(joined(seq![s.take(k)], seq![c]) == s.take(k));
        assert(s.take(k) + seq![c] + rest =~= s);
        assert forall|i: int| 0 <= i < split_parts(s, c).len() implies !(#[trigger] split_parts(
            s,
            c,
        )[i]).contains(c) by {
            if i > 0 {
                assert(split_parts(s, c)[i] == split_parts(rest, c)[i - 1]);
            }
        }
    }
}

/// Joining two lists of parts is joining each of them, with the separator in between; a single part is
/// joined to itself, and no part to nothing.
pub proof fn law_joined_in_two(a: Seq<Seq<char>>, b: Seq<Seq<char>>, sep: Seq<char>)
    requires
        a.len() > 0,
        b.len() > 0,
    ensures
        joined(a + b, sep) == joined(a, sep) + sep + joined(b, sep),
        a.len() == 1 ==> joined(a, sep) == a[0],
        joined(Seq::<Seq<char>>::empty(), sep) == Seq::<char>::empty(),
    decreases b.len(),
{
    assert((a + b).drop_last() =~= a + b.drop_last());
    assert((a + b).last() == b.last());
    if b.len() == 1 {
        assert(a + b.drop_last() =~= a);
    } else {
        law_joined_in_two(a, b.drop_last(), sep);
        assert(joined(a, sep) + sep + joined(b.drop_last(), sep) + sep + b.last() =~= joined(a, sep)
            + sep + (joined(b.drop_last(), sep) + sep + b.last()));
    }
}

/// Putting two lists of parts together is putting each of them together, one behind the other.
pub proof fn law_concatenated_in_two(a: Seq<Seq<char>>, b: Seq<Seq<char>>)
    ensures
        concatenated(a + b) == concatenated(a) + concatenated(b),
        a.len() == 1 ==> concatenated(a) == a[0],
    decreases b.len(),
{
    if a.len() == 1 {
        reveal_with_fuel(concatenated, 2);
        assert(a.drop_last() =~= Seq::<Seq<char>>::empty());
        assert(concatenated(a) =~= a[0]);
    }
    if b.len() == 0 {
        assert(a + b =~= a);
        assert(concatenated(a) + concatenated(b) =~= concatenated(a));
    } else {
        law_concatenated_in_two(a, b.drop_last());
        assert((a + b).drop_last() =~= a + b.drop_last());
        assert((a + b).last() == b.last());
        assert(concatenated(a) + (concatenated(b.drop_last()) + b.last()) =~= concatenated(a)
            + concatenated(b.drop_last()) + b.last());
    }
}

/// The words of a text: white space parts them, and what has no white space in it is one word.
pub proof fn law_words(a: Seq<char>, c: char, b: Seq<char>)
    ensures
        is_white(c) ==> words(a + seq![c] + b) == words(a) + words(b),
        a.len() > 0 && (forall|i: int| 0 <= i < a.len() ==> !is_white(#[trigger] a[i])) ==> words(a)
            == seq![a],
        words(Seq::empty()) == Seq::<Seq<char>>::empty(),
{
    if is_white(c) {
        lemma_words_parted(a, c, b, Seq::empty());
    }
    if a.len() > 0 && (forall|i: int| 0 <= i < a.len() ==> !is_white(#[trigger] a[i])) {
        lemma_words_whole(a, Seq::empty());
        assert(Seq::<char>::empty() + a =~= a);
    }
}

proof fn lemma_words_parted(a: Seq<char>, c: char, b: Seq<char>, cur: Seq<char>)
    requires
        is_white(c),
    ensures
        words_after(a + seq![c] + b, cur) == words_after(a, cur) + words(b),
    decreases a.len(),
{
    let s = a + seq![c] + b;
    if a.len() == 0 {
        assert(s[0] == c);
        assert(s.skip(1) =~= b);
    } else {
        assert(s[0] == a[0]);
        assert(s.skip(1) =~= a.skip(1) + seq![c] + b);
        if is_white(a[0]) {
            lemma_words_parted(a.skip(1), c, b, Seq::empty());
            let begun = if cur.len() == 0 {
                Seq::<Seq<char>>::empty()
            } else {
                seq![cur]
            };
            assert(begun + (words_after(a.skip(1), Seq::empty()) + words(b)) =~= begun
                + words_after(a.skip(1), Seq::empty()) + words(b));
        } else {
            lemma_words_parted(a.skip(1), c, b, cur.push(a[0]));
        }
    }
}

proof fn lemma_words_whole(a: Seq<char>, cur: Seq<char>)
    requires
        a.len() + cur.len() > 0,
        forall|i: int| 0 <= i < a.len() ==> !is_white(#[trigger] a[i]),
    ensures
        words_after(a, cur) == seq![cur + a],
    decreases a.len(),
{
    if a.len() == 0 {
        assert(cur + a =~= cur);
    } else {
        assert forall|i: int| 0 <= i < a.skip(1).len() implies !is_white(#[trigger] a.skip(1)[i]) by {
            assert(a.skip(1)[i] == a[i + 1]);
        }
        lemma_words_whole(a.skip(1), cur.push(a[0]));
        assert(cur.push(a[0]) + a.skip(1) =~= cur + a);
    }
}

/// A number is written with digits alone, behind a minus where it is negative, with no zero in front of
/// the others; the last digit is the remainder by ten, and those before it write the quotient.
pub proof fn law_numbers_are_written_in_decimal(n: nat)
    ensures
        nat_text(n).len() > 0,
        all_digits(nat_text(n)),
        digits_value(nat_text(n)) == n,
        n > 0 ==> nat_text(n)[0] != '0',
        int_text(n as int) == nat_text(n),
        n > 0 ==> int_text(-(n as int)) == seq!['-'] + nat_text(n),
        nat_text(n).last() as int == 48 + n % 10,
        n >= 10 ==> nat_text(n).drop_last() == nat_text(n / 10),
    decreases n,
{
    if n >= 10 {
        law_numbers_are_written_in_decimal(n / 10);
        assert(nat_text(n).drop_last() =~= nat_text(n / 10));
        assert(nat_text(n)[0] == nat_text(n / 10)[0]);
    } else {
        reveal_with_fuel(digits_value, 2);
    }
}

/// What is read as a number: digits, at least one, with a sign in front or none, whose value fits; a digit
/// more counts ten times the others.
pub proof fn law_numbers_are_read(digits: Seq<char>, d: char)
    requires
        is_digit(d),
    ensures
        digits.len() > 0 && all_digits(digits) ==> {
            &&& digits_value(digits) >= 0
            &&& int_of_text(digits) == (if digits_value(digits) <= i64::MAX {
                Some(digits_value(digits) as i64)
            } else {
                None
            })
            &&& int_of_text(seq!['+'] + digits) == int_of_text(digits)
            &&& int_of_text(seq!['-'] + digits) == (if digits_value(digits) <= i64::MAX + 1 {
                Some((-digits_value(digits)) as i64)
            } else {
                None
            })
        },
        digits_value(digits.push(d)) == 10 * digits_value(digits) + (d as int - '0' as int),
        digits_value(Seq::empty()) == 0,
        int_of_text(Seq::empty()) is None,
        digits.len() == 0 ==> int_of_text(seq!['+'] + digits) is None && int_of_text(
            seq!['-'] + digits,
        ) is None,
        !all_digits(digits) ==> int_of_text(seq!['+'] + digits) is None && int_of_text(
            seq!['-'] + digits,
        ) is None,
        !all_digits(digits) && digits[0] != '+' && digits[0] != '-' ==> int_of_text(digits) is None,
{
    assert(digits.push(d).drop_last() =~= digits);
    assert((seq!['+'] + digits).skip(1) =~= digits);
    assert((seq!['-'] + digits).skip(1) =~= digits);
    if all_digits(digits) {
        lemma_digits_value_positive(digits);
        if digits.len() > 0 {
            assert(is_digit(digits[0]));
        }
    }
}

proof fn lemma_digits_value_positive(digits: Seq<char>)
    requires
        all_digits(digits),
    ensures
        digits_value(digits) >= 0,
    decreases digits.len(),
{
    if digits.len() > 0 {
        assert(is_digit(digits[digits.len() - 1]));
        assert forall|i: int| 0 <= i < digits.drop_last().len() implies is_digit(
            #[trigger] digits.drop_last()[i],
        ) by {
            assert(is_digit(digits[i]));
        }
        lemma_digits_value_positive(digits.drop_last());
    }
}

/// One text comes before another where it is a true beginning of it, or has the smaller character at the
/// first place where they differ.
pub proof fn law_order_of_texts(a: Seq<char>, b: Seq<char>, k: int)
    requires
        0 <= k <= a.len(),
        k <= b.len(),
        forall|i: int| 0 <= i < k ==> #[trigger] a[i] == b[i],
        k == a.len() || k == b.len() || a[k] != b[k],
    ensures
        precedes(a, b) == (k < b.len() && (k == a.len() || a[k] < b[k])),
    decreases k,
{
    if k > 0 {
        assert(a[0] == b[0]);
        assert forall|i: int| 0 <= i < k - 1 implies #[trigger] a.skip(1)[i] == b.skip(1)[i] by {
            assert(a[i + 1] == b[i + 1]);
        }
        law_order_of_texts(a.skip(1), b.skip(1), k - 1);
    }
}

/// Writing in capitals keeps every character but the small letters of ASCII, each of which becomes the
/// capital in the same place of the alphabet.
pub proof fn law_capitals(s: Seq<char>, i: int)
    requires
        0 <= i < s.len(),
    ensures
        ascii_uppercase(s).len() == s.len(),
        'a' <= s[i] <= 'z' ==> ascii_uppercase(s)[i] as int - 'A' as int == s[i] as int
            - 'a' as int,
        !('a' <= s[i] <= 'z') ==> ascii_uppercase(s)[i] == s[i],
{
}

} // verus!
