//! The marks that the language model puts into its texts, and numbers and words in them.

use crate::text::{concat, concatenated, is_digit, views};
use vstd::prelude::*;

verus! {

/// The mark that names a person: `[@` and a number.
pub const AT_MARK: &'static str = "\\[@(\\d+)\\]";

/// The mark that names a message: `[reply=` and a number, which may have a minus sign.
pub const REPLY_MARK: &'static str = "\\[reply=(-?\\d+)\\]";

/// Whether a character beyond ASCII is a decimal digit, as `regex` has it for `\d`.
pub uninterp spec fn wide_digit(c: char) -> bool;

/// Whether a character is a decimal digit of any script.
pub open spec fn any_digit(c: char) -> bool {
    if (c as u32) < 128 {
        is_digit(c)
    } else {
        wide_digit(c)
    }
}

/// How many decimal digits a text begins with.
pub open spec fn digit_run(s: Seq<char>) -> int
    decreases s.len(),
{
    if s.len() > 0 && any_digit(s[0]) {
        1 + digit_run(s.skip(1))
    } else {
        0
    }
}

/// How long the number is with which a text begins, its minus sign counted; zero where there is none.
pub open spec fn number_len(s: Seq<char>, signed: bool) -> int {
    let sign: int = if signed && s.len() > 0 && s[0] == '-' {
        1
    } else {
        0
    };
    let digits = digit_run(s.skip(sign));
    if digits > 0 {
        sign + digits
    } else {
        0
    }
}

/// With what a mark begins.
pub open spec fn opening(mark: Seq<char>) -> Seq<char> {
    if mark == AT_MARK@ {
        seq!['[', '@']
    } else {
        seq!['[', 'r', 'e', 'p', 'l', 'y', '=']
    }
}

/// How long the mark is with which a text begins; zero where it begins with none.
pub open spec fn mark_len(s: Seq<char>, mark: Seq<char>) -> int {
    let open = opening(mark);
    if s.len() < open.len() || s.take(open.len() as int) != open {
        0
    } else {
        let rest = s.skip(open.len() as int);
        let n = number_len(rest, mark != AT_MARK@);
        if n > 0 && n < rest.len() && rest[n] == ']' {
            open.len() + n + 1
        } else {
            0
        }
    }
}

/// Where the first mark begins; the length of the text where there is none.
pub open spec fn find_mark(s: Seq<char>, mark: Seq<char>) -> int
    decreases s.len(),
{
    if s.len() == 0 || mark_len(s, mark) > 0 {
        0
    } else {
        1 + find_mark(s.skip(1), mark)
    }
}

/// The first mark in a text, and the number in it.
pub open spec fn first_mark(s: Seq<char>, mark: Seq<char>) -> Option<(Seq<char>, Seq<char>)> {
    let p = find_mark(s, mark);
    if p < s.len() {
        let whole = s.skip(p).take(mark_len(s.skip(p), mark));
        Some((whole, whole.subrange(opening(mark).len() as int, whole.len() - 1)))
    } else {
        None
    }
}

/// The text without its marks.
pub open spec fn without_marks(s: Seq<char>, mark: Seq<char>) -> Seq<char>
    decreases s.len(),
    via without_marks_shrinks
{
    if s.len() == 0 {
        Seq::empty()
    } else if mark_len(s, mark) > 0 {
        without_marks(s.skip(mark_len(s, mark)), mark)
    } else {
        seq![s[0]] + without_marks(s.skip(1), mark)
    }
}

#[via_fn]
proof fn without_marks_shrinks(s: Seq<char>, mark: Seq<char>) {
}

/// Where the first number begins; the length of the text where there is none.
pub open spec fn find_number(s: Seq<char>) -> int
    decreases s.len(),
{
    if s.len() == 0 || number_len(s, true) > 0 {
        0
    } else {
        1 + find_number(s.skip(1))
    }
}

/// The first number in a text, with its minus sign.
pub open spec fn first_number(s: Seq<char>) -> Option<Seq<char>> {
    let p = find_number(s);
    if p < s.len() {
        Some(s.skip(p).take(number_len(s.skip(p), true)))
    } else {
        None
    }
}

/// Whether a character counts where texts are compared: one of the common Chinese ones, or an ASCII
/// letter or digit.
pub open spec fn counts(c: char) -> bool {
    ('\u{4e00}' <= c && c <= '\u{9fff}') || ('A' <= c && c <= 'Z') || ('a' <= c && c <= 'z')
        || is_digit(c)
}

/// `regex::Regex::captures` for one of the two marks: the leftmost match and what its group matched.
/// The digits of the pattern are those of any script.
#[verifier::external_body]
fn captures(mark: &str, text: &str) -> (res: Option<(String, String)>)
    requires
        mark@ == AT_MARK@ || mark@ == REPLY_MARK@,
    ensures
        match res {
            Some(r) => first_mark(text@, mark@) == Some((r.0@, r.1@)),
            None => first_mark(text@, mark@) is None,
        },
        res is Some ==> forall|i: int|
            0 <= i < (res->0).1@.len() && ((res->0).1@[i] as u32) >= 128 ==> wide_digit(
                #[trigger] (res->0).1@[i],
            ),
{
    let re = regex::Regex::new(mark).unwrap();
    re.captures(text).map(|c| (c[0].to_string(), c[1].to_string()))
}

/// `regex::Regex::replace_all` with nothing, for one of the two marks: the text without the matches,
/// which are taken from the left and do not overlap.
#[verifier::external_body]
fn remove_all(mark: &str, text: &str) -> (res: String)
    requires
        mark@ == AT_MARK@ || mark@ == REPLY_MARK@,
    ensures
        res@ == without_marks(text@, mark@),
{
    let re = regex::Regex::new(mark).unwrap();
    re.replace_all(text, "").into_owned()
}

/// `regex::Regex::find` for a number that may have a minus sign: the leftmost match.
#[verifier::external_body]
fn find_first_number(text: &str) -> (res: Option<String>)
    ensures
        match res {
            Some(s) => first_number(text@) == Some(s@),
            None => first_number(text@) is None,
        },
{
    let re = regex::Regex::new(r"-?\d+").unwrap();
    re.find(text).map(|m| m.as_str().to_string())
}

/// How many characters at the start of a text count.
pub open spec fn run_length(s: Seq<char>) -> int
    decreases s.len(),
{
    if s.len() == 0 || !counts(s[0]) {
        0
    } else {
        1 + run_length(s.skip(1))
    }
}

/// The longest runs of characters that count, in their order.
pub open spec fn runs(s: Seq<char>) -> Seq<Seq<char>>
    decreases s.len(),
    via runs_shrink
{
    if s.len() == 0 {
        Seq::empty()
    } else if counts(s[0]) {
        seq![s.take(run_length(s))] + runs(s.skip(run_length(s)))
    } else {
        runs(s.skip(1))
    }
}

#[via_fn]
proof fn runs_shrink(s: Seq<char>) {
    lemma_run_length(s);
}

proof fn lemma_run_length(s: Seq<char>)
    ensures
        0 <= run_length(s) <= s.len(),
        s.len() > 0 && counts(s[0]) ==> run_length(s) > 0,
        forall|i: int| 0 <= i < run_length(s) ==> counts(#[trigger] s[i]),
    decreases s.len(),
{
    if s.len() > 0 && counts(s[0]) {
        let rest = s.skip(1);
        lemma_run_length(rest);
        assert forall|i: int| 0 <= i < run_length(s) implies counts(#[trigger] s[i]) by {
            if i > 0 {
                assert(s[i] == rest[i - 1]);
            }
        }
    }
}

/// `regex::Regex::find_iter` for runs of characters that count: the matches are the longest runs of
/// such characters, from the start of the text on.
#[verifier::external_body]
fn find_runs(text: &str) -> (res: Vec<String>)
    ensures
        views(res@) == runs(text@),
{
    let re = regex::Regex::new(r"[\u{4e00}-\u{9fff}A-Za-z0-9]+").unwrap();
    re.find_iter(text).map(|m| m.as_str().to_string()).collect()
}

proof fn lemma_concatenated_front(first: Seq<char>, rest: Seq<Seq<char>>)
    ensures
        concatenated(seq![first] + rest) == first + concatenated(rest),
    decreases rest.len(),
{
    let all = seq![first] + rest;
    if rest.len() == 0 {
        reveal_with_fuel(concatenated, 2);
        assert(all.drop_last() =~= Seq::<Seq<char>>::empty());
        assert(concatenated(all) =~= first + concatenated(rest));
    } else {
        lemma_concatenated_front(first, rest.drop_last());
        assert(all.drop_last() =~= seq![first] + rest.drop_last());
        assert(all.last() == rest.last());
        assert(concatenated(all) =~= first + concatenated(rest));
    }
}

proof fn lemma_filter_all(s: Seq<char>, f: spec_fn(char) -> bool)
    requires
        forall|i: int| 0 <= i < s.len() ==> f(#[trigger] s[i]),
    ensures
        s.filter(f) == s,
    decreases s.len(),
{
    reveal(Seq::filter);
    if s.len() > 0 {
        let front = s.drop_last();
        assert forall|i: int| 0 <= i < front.len() implies f(#[trigger] front[i]) by {
            assert(front[i] == s[i]);
        }
        lemma_filter_all(front, f);
        assert(f(s[s.len() - 1]));
        assert(front.push(s.last()) =~= s);
    }
}

/// The runs of characters that count are together all characters that do.
pub proof fn law_runs_hold_what_counts(s: Seq<char>)
    ensures
        concatenated(runs(s)) == s.filter(|c: char| counts(c)),
    decreases s.len(),
{
    let f = |c: char| counts(c);
    if s.len() == 0 {
        reveal(Seq::filter);
        assert(concatenated(runs(s)) =~= s.filter(f));
    } else if counts(s[0]) {
        lemma_run_length(s);
        let n = run_length(s);
        let head = s.take(n);
        let tail = s.skip(n);
        law_runs_hold_what_counts(tail);
        lemma_concatenated_front(head, runs(tail));
        assert forall|i: int| 0 <= i < head.len() implies f(#[trigger] head[i]) by {
            assert(head[i] == s[i]);
        }
        lemma_filter_all(head, f);
        Seq::filter_distributes_over_add(head, tail, f);
        assert(head + tail =~= s);
    } else {
        let tail = s.skip(1);
        law_runs_hold_what_counts(tail);
        let head = s.take(1);
        reveal(Seq::filter);
        assert(head.drop_last() =~= Seq::<char>::empty());
        assert(Seq::<char>::empty().filter(f) =~= Seq::<char>::empty());
        assert(!f(head.last()));
        assert(head.filter(f) =~= Seq::<char>::empty());
        Seq::filter_distributes_over_add(head, tail, f);
        assert(head + tail =~= s);
        assert(Seq::<char>::empty() + tail.filter(f) =~= tail.filter(f));
    }
}

/// The first mark that names a person, and the number in it.
pub fn find_at(text: &str) -> (res: Option<(String, String)>)
    ensures
        match res {
            Some(r) => first_mark(text@, AT_MARK@) == Some((r.0@, r.1@)),
            None => first_mark(text@, AT_MARK@) is None,
        },
{
    captures(AT_MARK, text)
}

/// The first mark that names a message, and the number in it.
pub fn find_reply(text: &str) -> (res: Option<(String, String)>)
    ensures
        match res {
            Some(r) => first_mark(text@, REPLY_MARK@) == Some((r.0@, r.1@)),
            None => first_mark(text@, REPLY_MARK@) is None,
        },
{
    captures(REPLY_MARK, text)
}

/// The text without the marks of persons and then of messages.
pub fn remove_marks(text: &str) -> (res: String)
    ensures
        res@ == without_marks(without_marks(text@, AT_MARK@), REPLY_MARK@),
{
    let once = remove_all(AT_MARK, text);
    remove_all(REPLY_MARK, once.as_str())
}

/// The first number in a text, with its minus sign.
pub fn number_in(text: &str) -> (res: Option<String>)
    ensures
        match res {
            Some(s) => first_number(text@) == Some(s@),
            None => first_number(text@) is None,
        },
{
    find_first_number(text)
}

/// The characters of a text that count where texts are compared.
pub fn match_chars(text: &str) -> (res: String)
    ensures
        res@ == text@.filter(|c: char| counts(c)),
{
    let found = find_runs(text);
    proof {
        law_runs_hold_what_counts(text@);
    }
    concat(&found)
}

/// A mark that is found is not empty.
pub proof fn law_mark_is_not_empty(s: Seq<char>, mark: Seq<char>)
    ensures
        first_mark(s, mark) matches Some(m) ==> m.0.len() > 0,
{
    lemma_find_mark(s, mark);
}

proof fn lemma_digit_run(s: Seq<char>)
    ensures
        0 <= digit_run(s) <= s.len(),
    decreases s.len(),
{
    if s.len() > 0 && any_digit(s[0]) {
        lemma_digit_run(s.skip(1));
    }
}

proof fn lemma_find_mark(s: Seq<char>, mark: Seq<char>)
    ensures
        0 <= find_mark(s, mark) <= s.len(),
        find_mark(s, mark) < s.len() ==> mark_len(s.skip(find_mark(s, mark)), mark) > 0,
        find_mark(s, mark) < s.len() ==> mark_len(s.skip(find_mark(s, mark)), mark) <= s.len()
            - find_mark(s, mark),
    decreases s.len(),
{
    assert(s.skip(0) == s);
    if s.len() > 0 && mark_len(s, mark) <= 0 {
        lemma_find_mark(s.skip(1), mark);
        assert(s.skip(1).skip(find_mark(s.skip(1), mark)) == s.skip(find_mark(s, mark)));
    }
}

/// A text without an opening bracket has no marks and stays as it is.
pub proof fn law_unmarked_text_is_kept(s: Seq<char>, mark: Seq<char>)
    requires
        !s.contains('['),
    ensures
        first_mark(s, mark) is None,
        without_marks(s, mark) == s,
{
    lemma_no_mark(s, mark);
}

proof fn lemma_no_mark(s: Seq<char>, mark: Seq<char>)
    requires
        !s.contains('['),
    ensures
        find_mark(s, mark) == s.len(),
        without_marks(s, mark) == s,
    decreases s.len(),
{
    if s.len() > 0 {
        assert(s[0] != '[');
        let open = opening(mark);
        if s.len() >= open.len() {
            assert(s.take(open.len() as int)[0] == s[0]);
            assert(open[0] == '[');
        }
        assert(mark_len(s, mark) == 0);
        assert forall|i: int| 0 <= i < s.skip(1).len() implies s.skip(1)[i] != '[' by {
            assert(s.skip(1)[i] == s[i + 1]);
        }
        lemma_no_mark(s.skip(1), mark);
        assert(seq![s[0]] + s.skip(1) =~= s);
    } else {
        assert(s =~= Seq::empty());
    }
}

/// The first mark of a text is found: what opens it, digits, and what closes it; the digits are what it
/// tells. Taking the marks out leaves the text before it and what is left of the text behind it.
pub proof fn law_first_mark_is_found(
    before: Seq<char>,
    digits: Seq<char>,
    after: Seq<char>,
    mark: Seq<char>,
    open: Seq<char>,
)
    requires
        !before.contains('['),
        digits.len() > 0,
        forall|i: int| 0 <= i < digits.len() ==> '0' <= #[trigger] digits[i] <= '9',
        mark == AT_MARK@ && open == seq!['[', '@'] || mark == REPLY_MARK@ && open == seq![
            '[',
            'r',
            'e',
            'p',
            'l',
            'y',
            '=',
        ],
    ensures
        first_mark(before + (open + digits + seq![']']) + after, mark) == Some(
            (open + digits + seq![']'], digits),
        ),
        without_marks(before + (open + digits + seq![']']) + after, mark) == before + without_marks(
            after,
            mark,
        ),
{
    let whole = open + digits + seq![']'];
    let s = before + whole + after;
    let rest = whole + after;
    lemma_marks_differ();
    lemma_mark_stands(digits, after, mark, open);
    lemma_unmarked_front(before, rest, mark);
    assert(s =~= before + rest);
    assert(find_mark(rest, mark) == 0);
    assert(s.skip(before.len() as int) =~= rest);
    assert(rest.take(whole.len() as int) =~= whole);
    assert(whole.subrange(open.len() as int, whole.len() - 1) =~= digits);
    assert(rest.skip(whole.len() as int) =~= after);
}

proof fn lemma_unmarked_front(before: Seq<char>, rest: Seq<char>, mark: Seq<char>)
    requires
        !before.contains('['),
    ensures
        find_mark(before + rest, mark) == before.len() + find_mark(rest, mark),
        without_marks(before + rest, mark) == before + without_marks(rest, mark),
    decreases before.len(),
{
    let s = before + rest;
    if before.len() == 0 {
        assert(s =~= rest);
        assert(before + without_marks(rest, mark) =~= without_marks(rest, mark));
    } else {
        let less = before.skip(1);
        assert(before.contains(before[0]));
        assert forall|c: char| less.contains(c) implies before.contains(c) by {
            let k = choose|k: int| 0 <= k < less.len() && less[k] == c;
            assert(before[k + 1] == c);
        }
        lemma_unmarked_front(less, rest, mark);
        assert(s.skip(1) =~= less + rest);
        assert(s[0] == before[0]);
        lemma_no_mark_stands(s, mark);
        assert(seq![s[0]] + (less + without_marks(rest, mark)) =~= before + without_marks(
            rest,
            mark,
        ));
    }
}

proof fn lemma_mark_stands(digits: Seq<char>, after: Seq<char>, mark: Seq<char>, open: Seq<char>)
    requires
        digits.len() > 0,
        forall|i: int| 0 <= i < digits.len() ==> '0' <= #[trigger] digits[i] <= '9',
        mark == AT_MARK@ || mark == REPLY_MARK@,
        open == opening(mark),
    ensures
        mark_len((open + digits + seq![']']) + after, mark) == open.len() + digits.len() + 1,
{
    let s = (open + digits + seq![']']) + after;
    assert(s.take(open.len() as int) =~= open);
    let rest = s.skip(open.len() as int);
    assert(rest =~= digits + (seq![']'] + after));
    lemma_digit_run_is(digits, seq![']'] + after);
    assert('0' <= digits[0] <= '9');
    assert(rest[0] == digits[0]);
    assert(rest.skip(0) =~= rest);
    assert(number_len(rest, mark != AT_MARK@) == digits.len());
    assert(rest[digits.len() as int] == ']');
}

proof fn lemma_no_mark_stands(s: Seq<char>, mark: Seq<char>)
    requires
        s.len() > 0,
        s[0] != '[',
    ensures
        mark_len(s, mark) == 0,
{
    let open = opening(mark);
    if s.len() >= open.len() && s.take(open.len() as int) == open {
        assert(s.take(open.len() as int)[0] == s[0]);
    }
}

proof fn lemma_marks_differ()
    ensures
        AT_MARK@ != REPLY_MARK@,
{
    reveal_strlit("\\[@(\\d+)\\]");
    reveal_strlit("\\[reply=(-?\\d+)\\]");
    assert(AT_MARK@[2] == '@');
    assert(REPLY_MARK@[2] == 'r');
}

proof fn lemma_digit_run_is(digits: Seq<char>, rest: Seq<char>)
    requires
        forall|i: int| 0 <= i < digits.len() ==> '0' <= #[trigger] digits[i] <= '9',
        rest.len() > 0 ==> (rest[0] as u32) < 128 && !is_digit(rest[0]),
    ensures
        digit_run(digits + rest) == digits.len(),
    decreases digits.len(),
{
    let s = digits + rest;
    if digits.len() == 0 {
        assert(s =~= rest);
    } else {
        let less = digits.skip(1);
        assert forall|i: int| 0 <= i < less.len() implies '0' <= #[trigger] less[i] <= '9' by {
            assert(less[i] == digits[i + 1]);
        }
        lemma_digit_run_is(less, rest);
        assert(s.skip(1) =~= less + rest);
        assert(s[0] == digits[0]);
    }
}

/// The first number of a text is the digits that stand first in it, with a minus where one stands right
/// before them.
pub proof fn law_first_number_is_found(before: Seq<char>, digits: Seq<char>, after: Seq<char>)
    requires
        digits.len() > 0,
        forall|i: int| 0 <= i < digits.len() ==> '0' <= #[trigger] digits[i] <= '9',
        forall|i: int|
            0 <= i < before.len() ==> #[trigger] before[i] != '-' && !any_digit(before[i]),
        after.len() > 0 ==> (after[0] as u32) < 128 && !is_digit(after[0]),
    ensures
        first_number(before + digits + after) == Some(digits),
        first_number(before + (seq!['-'] + digits) + after) == Some(seq!['-'] + digits),
    decreases before.len(),
{
    lemma_number_is_found(before, digits, digits, after);
    lemma_number_is_found(before, seq!['-'] + digits, digits, after);
}

proof fn lemma_number_is_found(
    before: Seq<char>,
    number: Seq<char>,
    digits: Seq<char>,
    after: Seq<char>,
)
    requires
        digits.len() > 0,
        number == digits || number == seq!['-'] + digits,
        forall|i: int| 0 <= i < digits.len() ==> '0' <= #[trigger] digits[i] <= '9',
        forall|i: int|
            0 <= i < before.len() ==> #[trigger] before[i] != '-' && !any_digit(before[i]),
        after.len() > 0 ==> (after[0] as u32) < 128 && !is_digit(after[0]),
    ensures
        first_number(before + number + after) == Some(number),
        find_number(before + number + after) == before.len(),
    decreases before.len(),
{
    let s = before + number + after;
    if before.len() == 0 {
        assert(s =~= number + after);
        lemma_digit_run_is(digits, after);
        assert('0' <= digits[0] <= '9');
        if number == digits {
            assert(s[0] == digits[0]);
            assert(s.skip(0) =~= digits + after);
        } else {
            assert(s[0] == '-');
            assert(s.skip(1) =~= digits + after);
        }
        assert(number_len(s, true) == number.len());
        assert(s.skip(0) =~= s);
        assert(s.take(number.len() as int) =~= number);
    } else {
        let less = before.skip(1);
        assert(before[0] != '-' && !any_digit(before[0]));
        assert forall|i: int| 0 <= i < less.len() implies #[trigger] less[i] != '-' && !any_digit(
            less[i],
        ) by {
            assert(less[i] == before[i + 1]);
            assert(before[i + 1] != '-');
        }
        lemma_number_is_found(less, number, digits, after);
        assert(s.skip(1) =~= less + number + after);
        assert(s[0] == before[0]);
        assert(s.skip(0) =~= s);
        assert(number_len(s, true) == 0);
        assert(s.skip(before.len() as int) =~= s.skip(1).skip(less.len() as int));
    }
}

/// What counts of a text: the letters and digits of ASCII, and the common ideographs.
pub proof fn law_what_counts(c: char)
    ensures
        '0' <= c <= '9' || 'a' <= c <= 'z' || 'A' <= c <= 'Z' ==> counts(c),
        '\u{4e00}' <= c <= '\u{9fff}' ==> counts(c),
        c == ' ' || c == '_' || c == '-' || '\u{3000}' <= c <= '\u{4dff}' || '\u{a000}' <= c
            ==> !counts(c),
{
}

/// A mark of the one kind is none of the other.
pub proof fn law_marks_are_told_apart(before: Seq<char>, digits: Seq<char>, after: Seq<char>)
    requires
        !before.contains('['),
        !digits.contains('['),
        !after.contains('['),
    ensures
        without_marks(
            before + (seq!['[', 'r', 'e', 'p', 'l', 'y', '='] + digits + seq![']']) + after,
            AT_MARK@,
        ) == before + (seq!['[', 'r', 'e', 'p', 'l', 'y', '='] + digits + seq![']']) + after,
{
    let whole = seq!['[', 'r', 'e', 'p', 'l', 'y', '='] + digits + seq![']'];
    let rest = whole + after;
    let s = before + whole + after;
    assert(s =~= before + rest);
    lemma_unmarked_front(before, rest, AT_MARK@);
    let tail = rest.skip(1);
    assert(!tail.contains('[')) by {
        if tail.contains('[') {
            let k = choose|k: int| 0 <= k < tail.len() && tail[k] == '[';
            if k >= whole.len() - 1 {
                assert(after[k + 1 - whole.len()] == '[');
            } else if k >= 6 && k < whole.len() - 2 {
                assert(digits[k - 6] == '[');
            }
        }
    }
    law_unmarked_text_is_kept(tail, AT_MARK@);
    assert(rest.take(2)[1] == 'r');
    assert(opening(AT_MARK@)[1] == '@');
    assert(mark_len(rest, AT_MARK@) == 0);
    assert(seq![rest[0]] + tail =~= rest);
}

} // verus!
