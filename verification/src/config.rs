//! The configuration: values by dotted keys, with defaults, and prompt templates.

use crate::json::{real_json, Json, JsonView, NumView};
use crate::number::{int_bits, real_of_text, Real};
use crate::text::{
    before_char, chars_of, find_char, int_of_text, lemma_find_char, lemma_find_char_at, own, same,
    split, split_parts, text_of, to_ascii_upper, trim, trimmed, until_char, views, ascii_uppercase,
};
use crate::yaml::{
    law_members_are_regular, law_regular_is_convertible, lemma_yaml_views, mapping_get, pair_views,
    value_to_f64, value_to_float, value_to_i64, value_to_string, yaml_of_text, Key, KeyView, Yaml,
    YamlView,
};
use vstd::prelude::*;
use vstd::string::*;

verus! {

/// The configuration, as it was last read, and the time stamp of the file at that moment.
#[derive(Debug)]
pub struct Config {
    pub mtime: Option<u64>,
    pub data: Yaml,
}

/// The value that lies under the names `path`, one inside the other.
pub open spec fn at_path(v: YamlView, path: Seq<Seq<char>>) -> Option<YamlView>
    decreases path.len(),
{
    if path.len() == 0 {
        Some(v)
    } else {
        match v.member(path[0]) {
            Some(w) => at_path(w, path.skip(1)),
            None => None,
        }
    }
}

/// The texts that a key switches on.
pub open spec fn affirmative(s: Seq<char>) -> bool {
    let upper = ascii_uppercase(s);
    upper == "TRUE"@ || upper == "1"@ || upper == "YES"@
}

/// `pairs` with the value of `key` set: in place of the pair that has this key, or behind the last.
pub open spec fn set_pair(
    pairs: Seq<(Seq<char>, YamlView)>,
    key: Seq<char>,
    value: YamlView,
) -> Seq<(Seq<char>, YamlView)>
    decreases pairs.len(),
{
    if pairs.len() == 0 {
        seq![(key, value)]
    } else if pairs[0].0 == key {
        seq![(key, value)] + pairs.skip(1)
    } else {
        seq![pairs[0]] + set_pair(pairs.skip(1), key, value)
    }
}

/// The entries of a mapping with their keys as texts; of two alike the later value counts.
pub open spec fn text_pairs(entries: Seq<(YamlView, YamlView)>) -> Seq<(Seq<char>, YamlView)>
    decreases entries.len(),
{
    if entries.len() == 0 {
        Seq::empty()
    } else {
        set_pair(
            text_pairs(entries.drop_last()),
            entries.last().0.plain(),
            entries.last().1,
        )
    }
}

/// The views of pairs of a text and a value.
pub open spec fn text_pair_views(pairs: Seq<(String, &Yaml)>) -> Seq<(Seq<char>, YamlView)> {
    pairs.map_values(|p: (String, &Yaml)| (p.0@, p.1@))
}

impl Config {
    /// The value under a dotted key.
    pub open spec fn lookup(self, key: Seq<char>) -> Option<YamlView> {
        at_path(self.data@, split_parts(key, '.'))
    }

    /// Whether all its values are in order. One that was only ever read from documents always is.
    pub open spec fn wf(self) -> bool {
        self.data@.regular()
    }

    /// A configuration that was never read.
    pub fn unread() -> (res: Config)
        ensures
            res.mtime is None,
            res.data@ == YamlView::Null,
            res.wf(),
    {
        Config { mtime: None, data: Yaml::Null }
    }

    /// Whether the file with this time stamp has been read already.
    pub fn is_fresh(&self, mtime: Option<u64>) -> (res: bool)
        ensures
            res == (self.mtime == mtime && !(self.data@.untagged() is Null)),
    {
        let same_stamp = match (self.mtime, mtime) {
            (Some(a), Some(b)) => a == b,
            (None, None) => true,
            _ => false,
        };
        same_stamp && !self.data.is_null()
    }

    /// Takes in the file with this time stamp: its text, where it could be read. A file that was
    /// read already changes nothing. A text that is no YAML leaves the values as they were. Says
    /// whether there is nothing to complain of.
    pub fn refresh(&mut self, mtime: Option<u64>, text: Option<&str>) -> (res: bool)
        ensures
            old(self).wf() ==> final(self).wf(),
            old(self).mtime == mtime && !(old(self).data@.untagged() is Null) ==> res && *final(self)
                == *old(self),
            !(old(self).mtime == mtime && !(old(self).data@.untagged() is Null)) ==> {
                &&& final(self).mtime == mtime
                &&& match text {
                    Some(s) => match yaml_of_text(s@) {
                        Some(v) => res && final(self).data@ == v && final(self).wf(),
                        None => !res && final(self).data == old(self).data,
                    },
                    None => !res && final(self).data == old(self).data,
                }
            },
    {
        if self.is_fresh(mtime) {
            return true;
        }
        self.mtime = mtime;
        match text {
            Some(s) => match Yaml::parse(s) {
                Some(data) => {
                    self.data = data;
                    true
                },
                None => false,
            },
            None => false,
        }
    }

    /// The value under a dotted key.
    pub fn try_get(&self, key: &str) -> (res: Option<&Yaml>)
        ensures
            match res {
                Some(v) => self.lookup(key@) == Some(v@),
                None => self.lookup(key@) is None,
            },
    {
        let parts = split(key, '.');
        let ghost path = views(parts@);
        let mut cur: &Yaml = &self.data;
        let mut i: usize = 0;
        assert(path.skip(0) == path);
        while i < parts.len()
            invariant
                path == views(parts@),
                path == split_parts(key@, '.'),
                i <= parts@.len(),
                self.lookup(key@) == at_path(cur@, path.skip(i as int)),
            decreases parts@.len() - i,
        {
            assert(path.skip(i as int).skip(1) == path.skip(i + 1));
            assert(path.skip(i as int)[0] == parts@[i as int]@);
            match mapping_get(cur, parts[i].as_str()) {
                Some(next) => {
                    cur = next;
                },
                None => {
                    return None;
                },
            }
            i += 1;
        }
        Some(cur)
    }

    /// The value under a dotted key, or the text of the complaint that there is none.
    pub fn require(&self, key: &str) -> (res: Result<&Yaml, String>)
        ensures
            match res {
                Ok(v) => self.lookup(key@) == Some(v@),
                Err(e) => self.lookup(key@) is None && e@ == "配置 chat.autochat 中不存在 "@ + key@,
            },
    {
        match self.try_get(key) {
            Some(v) => Ok(v),
            None => {
                let mut e = own("配置 chat.autochat 中不存在 ");
                e.append(key);
                Err(e)
            },
        }
    }

    /// The value under a dotted key, or null.
    pub fn get(&self, key: &str) -> (res: &Yaml)
        ensures
            res@ == (match self.lookup(key@) {
                Some(v) => v,
                None => YamlView::Null,
            }),
    {
        match self.try_get(key) {
            Some(v) => v,
            None => &Yaml::Null,
        }
    }

    /// The value under a dotted key, or the default.
    pub fn get_or<'a>(&'a self, key: &str, default: &'a Yaml) -> (res: &'a Yaml)
        ensures
            res@ == (match self.lookup(key@) {
                Some(v) => v,
                None => default@,
            }),
    {
        match self.try_get(key) {
            Some(v) => v,
            None => default,
        }
    }

    /// Whether the value under a dotted key, where there is one, can be written as a text.
    pub open spec fn readable(self, key: Seq<char>) -> bool {
        self.lookup(key) matches Some(v) ==> v.regular()
    }

    /// Whether the value under a dotted key, where there is one, can be turned into JSON.
    pub open spec fn convertible(self, key: Seq<char>) -> bool {
        self.lookup(key) matches Some(v) ==> v.convertible()
    }

    /// The text for the value under a dotted key; nothing where there is none.
    pub open spec fn text_at(self, key: Seq<char>) -> Seq<char> {
        match self.lookup(key) {
            Some(v) => v.plain(),
            None => Seq::empty(),
        }
    }

    /// The text for the value under a dotted key; nothing where there is none.
    pub fn str(&self, key: &str) -> (res: String)
        ensures
            self.readable(key@) ==> res@ == self.text_at(key@),
    {
        match self.try_get(key) {
            Some(v) => value_to_string(v),
            None => {
                let s = String::new();
                assert(s@ =~= Seq::empty());
                s
            },
        }
    }

    /// The text for the value under a dotted key; the default where there is none or it is null.
    pub open spec fn text_or(self, key: Seq<char>, default: Seq<char>) -> Seq<char> {
        match self.lookup(key) {
            Some(v) => if v.untagged() is Null {
                default
            } else {
                v.plain()
            },
            None => default,
        }
    }

    /// The text for the value under a dotted key; the default where there is none or it is null.
    pub fn str_or(&self, key: &str, default: &str) -> (res: String)
        ensures
            self.readable(key@) ==> res@ == self.text_or(key@, default@),
    {
        match self.try_get(key) {
            Some(v) => if v.is_null() {
                own(default)
            } else {
                value_to_string(v)
            },
            None => own(default),
        }
    }

    /// The truth value under a dotted key: a text is true where it is one of `true`, `1` and `yes`
    /// in any case, a number where it is an integer other than zero.
    pub fn bool_or(&self, key: &str, default: bool) -> (res: bool)
        ensures
            res == (match self.lookup(key@) {
                Some(YamlView::Bool(b)) => b,
                Some(YamlView::Str(s)) => affirmative(s),
                Some(YamlView::Number(n)) => n matches crate::json::NumView::Int(i) && i != 0,
                _ => default,
            }),
    {
        match self.try_get(key) {
            Some(Yaml::Bool(b)) => *b,
            Some(Yaml::Str(s)) => {
                let upper = to_ascii_upper(s.as_str());
                same(upper.as_str(), "TRUE") || same(upper.as_str(), "1") || same(
                    upper.as_str(),
                    "YES",
                )
            },
            Some(Yaml::Number(n)) => match n.as_i64() {
                Some(i) => i != 0,
                None => false,
            },
            _ => default,
        }
    }

    /// The integer under a dotted key.
    pub open spec fn int_at(self, key: Seq<char>, default: i64) -> i64 {
        match self.lookup(key) {
            Some(v) => match v.to_int() {
                Some(i) => i,
                None => default,
            },
            None => default,
        }
    }

    /// The integer under a dotted key; the default where there is none.
    pub fn i64_or(&self, key: &str, default: i64) -> (res: i64)
        ensures
            res == self.int_at(key@, default),
    {
        match self.try_get(key) {
            Some(v) => match value_to_i64(v) {
                Some(i) => i,
                None => default,
            },
            None => default,
        }
    }

    /// The integer under a dotted key, none below zero; the default where there is none.
    pub fn usize_or(&self, key: &str, default: usize) -> (res: usize)
        ensures
            res == (if self.int_at(key@, default as i64) < 0 {
                0
            } else {
                self.int_at(key@, default as i64) as usize
            }),
    {
        let i = self.i64_or(key, default as i64);
        if i < 0 {
            0
        } else {
            i as usize
        }
    }

    /// The double-precision number under a dotted key; the default where there is none.
    pub open spec fn real_at(self, key: Seq<char>, default: Real) -> Real {
        match self.lookup(key) {
            Some(v) => match v.to_real() {
                Some(x) => x,
                None => default,
            },
            None => default,
        }
    }

    /// The double-precision number under a dotted key; the default where there is none.
    pub fn f64_or(&self, key: &str, default: Real) -> (res: Real)
        ensures
            res == self.real_at(key@, default),
    {
        match self.try_get(key) {
            Some(v) => match value_to_f64(v) {
                Some(x) => x,
                None => default,
            },
            None => default,
        }
    }

    /// The JSON value for the double-precision number under a dotted key; the default, as such a
    /// number, where there is none.
    pub open spec fn float_at(self, key: Seq<char>, default: i64) -> JsonView {
        let configured = match self.lookup(key) {
            Some(v) => v.to_real(),
            None => None,
        };
        match configured {
            Some(x) => real_json(x),
            None => JsonView::Number(NumView::Float(int_bits(default as int))),
        }
    }

    /// The JSON value for the double-precision number under a dotted key; the default, as such a
    /// number, where there is none.
    pub fn float_or(&self, key: &str, default: i64) -> (res: Json)
        ensures
            res@ == self.float_at(key@, default),
    {
        match self.try_get(key) {
            Some(v) => match value_to_float(v) {
                Some(x) => x,
                None => Json::whole(default),
            },
            None => Json::whole(default),
        }
    }

    /// Whether the keys of the mapping under a dotted key, where there is one, can be written as texts.
    pub open spec fn keys_readable(self, key: Seq<char>) -> bool {
        self.lookup(key) matches Some(YamlView::Mapping(entries)) ==> forall|i: int|
            0 <= i < entries.len() ==> (#[trigger] entries[i]).0.regular()
    }

    /// The entries of the mapping under a dotted key, their keys as texts; of two alike the later
    /// value counts. Nothing where there is no mapping, or one with a tag.
    pub open spec fn pairs_at(self, key: Seq<char>) -> Seq<(Seq<char>, YamlView)> {
        match self.lookup(key) {
            Some(YamlView::Mapping(entries)) => text_pairs(entries),
            _ => Seq::empty(),
        }
    }

    /// The entries of the mapping under a dotted key, their keys as texts; of two alike the later
    /// value counts. Nothing where there is no mapping, or one with a tag.
    pub fn mapping(&self, key: &str) -> (res: Vec<(String, &Yaml)>)
        ensures
            self.keys_readable(key@) ==> text_pair_views(res@) == self.pairs_at(key@),
    {
        let mut out: Vec<(String, &Yaml)> = Vec::new();
        match self.try_get(key) {
            Some(v) => {
                proof {
                    lemma_yaml_views(*v);
                }
                match v {
                    Yaml::Mapping(entries) => {
                        let ghost all = pair_views(entries@);
                        let ghost regular = forall|i: int|
                            0 <= i < all.len() ==> (#[trigger] all[i]).0.regular();
                        let mut i: usize = 0;
                        assert(text_pair_views(out@) =~= Seq::empty());
                        while i < entries.len()
                            invariant
                                self.lookup(key@) == Some(YamlView::Mapping(all)),
                                all == pair_views(entries@),
                                i <= entries@.len(),
                                regular == (forall|i: int|
                                    0 <= i < all.len() ==> (#[trigger] all[i]).0.regular()),
                                regular ==> text_pair_views(out@) == text_pairs(
                                    all.take(i as int),
                                ),
                            decreases entries@.len() - i,
                        {
                            assert(all.take(i + 1).drop_last() == all.take(i as int));
                            assert(regular ==> all[i as int].0.regular());
                            let k = value_to_string(&entries[i].0);
                            out = put_pair(out, k, &entries[i].1);
                            i += 1;
                        }
                        assert(all.take(i as int) == all);
                    },
                    _ => {
                        assert(text_pair_views(out@) =~= Seq::empty());
                    },
                }
            },
            None => {
                assert(text_pair_views(out@) =~= Seq::empty());
            },
        }
        out
    }
}

proof fn lemma_path_is_regular(v: YamlView, path: Seq<Seq<char>>)
    requires
        v.regular(),
    ensures
        at_path(v, path) matches Some(w) ==> w.regular(),
    decreases path.len(),
{
    if path.len() > 0 {
        let name = path[0];
        law_members_are_regular(v, KeyView::Str(name));
        if let Some(i) = int_of_text(name) {
            law_members_are_regular(v, KeyView::Int(i));
        }
        if let Some(x) = real_of_text(name) {
            law_members_are_regular(v, KeyView::Float(x));
        }
        if let Some(w) = v.member(name) {
            lemma_path_is_regular(w, path.skip(1));
        }
    }
}

/// Every value of a configuration that is in order can be written as a text and turned into JSON, and
/// so can the keys of its mappings, and the personas.
pub proof fn law_configuration_is_readable(cfg: Config, key: Seq<char>, group_id: i64)
    requires
        cfg.wf(),
    ensures
        cfg.readable(key),
        cfg.convertible(key),
        cfg.keys_readable(key),
        cfg.lookup(key) matches Some(v) ==> (persona_value(v, group_id) matches Some(w)
            ==> w.regular()),
{
    lemma_path_is_regular(cfg.data@, split_parts(key, '.'));
    if let Some(v) = cfg.lookup(key) {
        law_regular_is_convertible(v);
        law_members_are_regular(v, KeyView::Int(group_id));
        law_members_are_regular(v, KeyView::Str(crate::text::int_text(group_id as int)));
        law_members_are_regular(v, KeyView::Str("default"@));
    }
}

#[verifier::loop_isolation(false)]
fn put_pair<'a>(pairs: Vec<(String, &'a Yaml)>, key: String, value: &'a Yaml) -> (res: Vec<
    (String, &'a Yaml),
>)
    ensures
        text_pair_views(res@) == set_pair(text_pair_views(pairs@), key@, value@),
{
    let mut pairs = pairs;
    let ghost all = text_pair_views(pairs@);
    let ghost new = (key@, value@);
    let mut i: usize = 0;
    assert(all.skip(0) == all);
    assert(all.take(0) + set_pair(all, key@, value@) == set_pair(all, key@, value@));
    while i < pairs.len()
        invariant
            all == text_pair_views(pairs@),
            new == (key@, value@),
            i <= pairs@.len(),
            all.take(i as int) + set_pair(all.skip(i as int), key@, value@) == set_pair(
                all,
                key@,
                value@,
            ),
        decreases pairs@.len() - i,
    {
        let ghost rest = all.skip(i as int);
        assert(rest.skip(1) == all.skip(i + 1));
        assert(rest[0] == (pairs@[i as int].0@, pairs@[i as int].1@));
        if same(pairs[i].0.as_str(), key.as_str()) {
            assert(all.take(i as int) + (seq![new] + rest.skip(1)) == all.update(i as int, new));
            pairs.set(i, (key, value));
            assert(text_pair_views(pairs@) == all.update(i as int, new));
            return pairs;
        }
        assert(all.take(i as int) + (seq![rest[0]] + set_pair(rest.skip(1), key@, value@))
            == all.take(i + 1) + set_pair(all.skip(i + 1), key@, value@));
        i += 1;
    }
    assert(all.take(i as int) + seq![new] == all.push(new));
    pairs.push((key, value));
    assert(text_pair_views(pairs@) == all.push(new));
    pairs
}

/// Why a template cannot be filled in.
#[derive(Debug)]
pub enum FormatError {
    /// The name between two braces is empty or holds a brace.
    InvalidField(String),
    /// There is no value for this name.
    MissingField(String),
    /// An opening brace is never closed.
    UnmatchedOpen,
    /// A closing brace was never opened.
    UnmatchedClose,
}

/// Why a template cannot be filled in.
pub enum FormatErrorView {
    InvalidField(Seq<char>),
    MissingField(Seq<char>),
    UnmatchedOpen,
    UnmatchedClose,
}

impl View for FormatError {
    type V = FormatErrorView;

    open spec fn view(&self) -> FormatErrorView {
        match self {
            FormatError::InvalidField(s) => FormatErrorView::InvalidField(s@),
            FormatError::MissingField(s) => FormatErrorView::MissingField(s@),
            FormatError::UnmatchedOpen => FormatErrorView::UnmatchedOpen,
            FormatError::UnmatchedClose => FormatErrorView::UnmatchedClose,
        }
    }
}

impl FormatErrorView {
    /// The complaint in words.
    pub open spec fn message(self) -> Seq<char> {
        match self {
            FormatErrorView::InvalidField(name) => "invalid format field {"@ + name + "}"@,
            FormatErrorView::MissingField(key) => "配置 format 缺少字段: "@ + key,
            FormatErrorView::UnmatchedOpen => "unmatched '{' in format string"@,
            FormatErrorView::UnmatchedClose => "unmatched '}' in format string"@,
        }
    }
}

impl FormatError {
    /// The complaint in words.
    pub fn message(&self) -> (res: String)
        ensures
            res@ == self@.message(),
    {
        match self {
            FormatError::InvalidField(name) => {
                let mut out = own("invalid format field {");
                out.append(name.as_str());
                out.append("}");
                out
            },
            FormatError::MissingField(key) => {
                let mut out = own("配置 format 缺少字段: ");
                out.append(key.as_str());
                out
            },
            FormatError::UnmatchedOpen => own("unmatched '{' in format string"),
            FormatError::UnmatchedClose => own("unmatched '}' in format string"),
        }
    }
}

/// The views of named values.
pub open spec fn var_views(vars: Seq<(String, String)>) -> Seq<(Seq<char>, Seq<char>)> {
    vars.map_values(|p: (String, String)| (p.0@, p.1@))
}

/// The first value with this name.
pub open spec fn var(vars: Seq<(Seq<char>, Seq<char>)>, name: Seq<char>) -> Option<Seq<char>>
    decreases vars.len(),
{
    if vars.len() == 0 {
        None
    } else if vars[0].0 == name {
        Some(vars[0].1)
    } else {
        var(vars.skip(1), name)
    }
}

/// The name that a field asks for: what stands before a conversion and a format.
pub open spec fn field_key(name: Seq<char>) -> Seq<char> {
    before_char(before_char(name, '!'), ':')
}

/// `head` in front of what came out well.
pub open spec fn led_by(
    head: Seq<char>,
    rest: Result<Seq<char>, FormatErrorView>,
) -> Result<Seq<char>, FormatErrorView> {
    match rest {
        Ok(s) => Ok(head + s),
        Err(e) => Err(e),
    }
}

/// A template filled in: two braces in a row stand for one, and a name between braces for its
/// value. The first fault from the left decides.
pub open spec fn filled(template: Seq<char>, vars: Seq<(Seq<char>, Seq<char>)>) -> Result<
    Seq<char>,
    FormatErrorView,
>
    decreases template.len(),
    via filled_shrinks
{
    if template.len() == 0 {
        Ok(Seq::empty())
    } else if template[0] == '{' {
        if template.len() > 1 && template[1] == '{' {
            led_by(seq!['{'], filled(template.skip(2), vars))
        } else {
            let end = find_char(template.skip(1), '}');
            if end >= template.len() - 1 {
                Err(FormatErrorView::UnmatchedOpen)
            } else {
                let name = trimmed(template.subrange(1, end + 1));
                if name.len() == 0 || name.contains('{') {
                    Err(FormatErrorView::InvalidField(name))
                } else {
                    match var(vars, field_key(name)) {
                        Some(value) => led_by(value, filled(template.skip(end + 2), vars)),
                        None => Err(FormatErrorView::MissingField(field_key(name))),
                    }
                }
            }
        }
    } else if template[0] == '}' {
        if template.len() > 1 && template[1] == '}' {
            led_by(seq!['}'], filled(template.skip(2), vars))
        } else {
            Err(FormatErrorView::UnmatchedClose)
        }
    } else {
        led_by(seq![template[0]], filled(template.skip(1), vars))
    }
}

#[via_fn]
proof fn filled_shrinks(template: Seq<char>, vars: Seq<(Seq<char>, Seq<char>)>) {
    lemma_find_char(template.skip(1), '}');
}

fn find_var<'a>(vars: &'a Vec<(String, String)>, name: &str) -> (res: Option<&'a str>)
    ensures
        match res {
            Some(v) => var(var_views(vars@), name@) == Some(v@),
            None => var(var_views(vars@), name@) is None,
        },
{
    let ghost all = var_views(vars@);
    let mut i: usize = 0;
    assert(all.skip(0) == all);
    while i < vars.len()
        invariant
            all == var_views(vars@),
            i <= vars@.len(),
            var(all, name@) == var(all.skip(i as int), name@),
        decreases vars@.len() - i,
    {
        if same(vars[i].0.as_str(), name) {
            return Some(vars[i].1.as_str());
        }
        assert(all.skip(i as int).skip(1) == all.skip(i + 1));
        i += 1;
    }
    None
}

fn has_char(s: &str, c: char) -> (res: bool)
    ensures
        res == s@.contains(c),
{
    let chars = chars_of(s);
    let mut i: usize = 0;
    while i < chars.len()
        invariant
            chars@ == s@,
            i <= chars@.len(),
            forall|j: int| 0 <= j < i ==> s@[j] != c,
        decreases chars@.len() - i,
    {
        if chars[i] == c {
            assert(s@[i as int] == c);
            return true;
        }
        i += 1;
    }
    false
}

/// Fills in a template: two braces in a row stand for one, and a name between braces for its value.
#[verifier::spinoff_prover]
#[verifier::rlimit(40)]
pub fn python_format(template: &str, vars: &Vec<(String, String)>) -> (res: Result<
    String,
    FormatError,
>)
    ensures
        match res {
            Ok(s) => filled(template@, var_views(vars@)) == Ok::<Seq<char>, FormatErrorView>(s@),
            Err(e) => filled(template@, var_views(vars@)) == Err::<Seq<char>, FormatErrorView>(e@),
        },
{
    let chars = chars_of(template);
    let n = chars.len();
    let ghost t = template@;
    let ghost vs = var_views(vars@);
    let mut out = String::new();
    let mut i: usize = 0;
    assert(t.skip(0) == t);
    assert(led_by(out@, filled(t, vs)) == filled(t, vs)) by {
        if let Ok(s) = filled(t, vs) {
            assert(Seq::<char>::empty() + s == s);
        }
    }
    while i < n
        invariant
            i <= n,
            n == chars@.len(),
            chars@ == t,
            t == template@,
            vs == var_views(vars@),
            led_by(out@, filled(t.skip(i as int), vs)) == filled(t, vs),
        decreases n - i,
    {
        let c = chars[i];
        let ghost rest = t.skip(i as int);
        let ghost before = out@;
        if c == '{' {
            if i + 1 < n && chars[i + 1] == '{' {
                assert(rest[1] == '{');
                out.push('{');
                assert(rest.skip(2) == t.skip(i + 2));
                proof {
                    lemma_led_by(before, seq!['{'], filled(t.skip(i + 2), vs));
                    assert(before + seq!['{'] == out@);
                }
                i += 2;
            } else {
                assert(i + 1 < n ==> rest[1] == chars@[i + 1]);
                let mut k: usize = i + 1;
                while k < n && chars[k] != '}'
                    invariant
                        i < k <= n,
                        n == chars@.len(),
                        forall|j: int| i < j < k ==> chars@[j] != '}',
                    decreases n - k,
                {
                    k += 1;
                }
                proof {
                    lemma_find_char_at(rest.skip(1), '}', k - i - 1);
                }
                if k >= n {
                    return Err(FormatError::UnmatchedOpen);
                }
                let raw = text_of(&chars, i + 1, k);
                assert(raw@ == rest.subrange(1, k - i));
                let name = trim(raw.as_str());
                if name.as_str().is_empty() || has_char(name.as_str(), '{') {
                    return Err(FormatError::InvalidField(name));
                }
                let key = until_char(until_char(name.as_str(), '!').as_str(), ':');
                match find_var(vars, key.as_str()) {
                    Some(value) => {
                        out.append(value);
                        assert(rest.skip(k - i + 1) == t.skip(k + 1));
                        proof {
                            lemma_led_by(before, value@, filled(t.skip(k + 1), vs));
                        }
                    },
                    None => {
                        return Err(FormatError::MissingField(key));
                    },
                }
                i = k + 1;
            }
        } else if c == '}' {
            if i + 1 < n && chars[i + 1] == '}' {
                assert(rest[1] == '}');
                out.push('}');
                assert(rest.skip(2) == t.skip(i + 2));
                proof {
                    lemma_led_by(before, seq!['}'], filled(t.skip(i + 2), vs));
                    assert(before + seq!['}'] == out@);
                }
                i += 2;
            } else {
                assert(i + 1 < n ==> rest[1] == chars@[i + 1]);
                return Err(FormatError::UnmatchedClose);
            }
        } else {
            out.push(c);
            assert(rest.skip(1) == t.skip(i + 1));
            proof {
                lemma_led_by(before, seq![c], filled(t.skip(i + 1), vs));
                assert(before + seq![c] == out@);
            }
            i += 1;
        }
    }
    assert(t.skip(n as int) == Seq::<char>::empty());
    assert(out@ + Seq::<char>::empty() == out@);
    Ok(out)
}

proof fn lemma_led_by(a: Seq<char>, b: Seq<char>, rest: Result<Seq<char>, FormatErrorView>)
    ensures
        led_by(a, led_by(b, rest)) == led_by(a + b, rest),
{
    if let Ok(s) = rest {
        assert(a + (b + s) =~= (a + b) + s);
    }
}

/// The text with each brace doubled.
pub open spec fn escaped(s: Seq<char>) -> Seq<char>
    decreases s.len(),
{
    if s.len() == 0 {
        Seq::empty()
    } else if s[0] == '{' || s[0] == '}' {
        seq![s[0], s[0]] + escaped(s.skip(1))
    } else {
        seq![s[0]] + escaped(s.skip(1))
    }
}

/// A text whose braces are doubled is filled in to itself, whatever the values.
pub proof fn law_escaped_text_is_kept(s: Seq<char>, vars: Seq<(Seq<char>, Seq<char>)>)
    ensures
        filled(escaped(s), vars) == Ok::<Seq<char>, FormatErrorView>(s),
    decreases s.len(),
{
    if s.len() > 0 {
        law_escaped_text_is_kept(s.skip(1), vars);
        let e = escaped(s);
        assert(seq![s[0]] + s.skip(1) =~= s);
        if s[0] == '{' || s[0] == '}' {
            assert(e.skip(2) =~= escaped(s.skip(1)));
        } else {
            assert(e.skip(1) =~= escaped(s.skip(1)));
        }
    } else {
        assert(s =~= Seq::empty());
    }
}

/// A text without braces is filled in to itself.
pub proof fn law_plain_text_is_kept(s: Seq<char>, vars: Seq<(Seq<char>, Seq<char>)>)
    requires
        !s.contains('{'),
        !s.contains('}'),
    ensures
        filled(s, vars) == Ok::<Seq<char>, FormatErrorView>(s),
    decreases s.len(),
{
    if s.len() > 0 {
        assert(s[0] != '{' && s[0] != '}');
        assert forall|i: int| 0 <= i < s.skip(1).len() implies s.skip(1)[i] != '{' && s.skip(1)[i]
            != '}' by {
            assert(s.skip(1)[i] == s[i + 1]);
        }
        law_plain_text_is_kept(s.skip(1), vars);
        assert(seq![s[0]] + s.skip(1) =~= s);
    } else {
        assert(s =~= Seq::empty());
    }
}

/// The persona for a group: the entry under its number, or under the text of its number, or the
/// default one.
pub open spec fn persona_value(persona: YamlView, group_id: i64) -> Option<YamlView> {
    if let Some(v) = persona.find(KeyView::Int(group_id)) {
        Some(v)
    } else if let Some(v) = persona.find(KeyView::Str(crate::text::int_text(group_id as int))) {
        Some(v)
    } else {
        persona.find(KeyView::Str("default"@))
    }
}

/// The persona for a group, as text; nothing where there is none.
pub fn persona_for(persona: &Yaml, group_id: i64) -> (res: String)
    ensures
        match persona_value(persona@, group_id) {
            Some(v) => v.regular() ==> res@ == v.plain(),
            None => res@.len() == 0,
        },
{
    let name = crate::text::signed_text(group_id);
    let by_number = match persona.find(Key::Int(group_id)) {
        Some(v) => Some(v),
        None => persona.find(Key::Str(name.as_str())),
    };
    match by_number {
        Some(v) => value_to_string(v),
        None => match persona.find(Key::Str("default")) {
            Some(v) => value_to_string(v),
            None => String::new(),
        },
    }
}

/// A name with dots leads from one value into the next: up to the first dot it names a member, in which
/// the rest is looked up; a name without dots names a member.
pub proof fn law_names_lead_inwards(cfg: Config, v: YamlView, name: Seq<char>, rest: Seq<char>)
    requires
        !name.contains('.'),
    ensures
        cfg.lookup(name) == cfg.data@.member(name),
        cfg.lookup(name + seq!['.'] + rest) == (match cfg.data@.member(name) {
            Some(w) => at_path(w, split_parts(rest, '.')),
            None => None,
        }),
{
    let key = name + seq!['.'] + rest;
    let k = name.len() as int;
    assert forall|j: int| 0 <= j < k implies name[j] != '.' by {
        assert(name.contains(name[j]));
    }
    lemma_find_char_at(name, '.', k);
    assert(split_parts(name, '.') =~= seq![name]);
    reveal_with_fuel(at_path, 2);
    assert(seq![name].skip(1) =~= Seq::<Seq<char>>::empty());
    assert forall|j: int| 0 <= j < k implies key[j] != '.' by {
        assert(key[j] == name[j]);
    }
    assert(key[k] == '.');
    lemma_find_char_at(key, '.', k);
    assert(key.take(k) =~= name);
    assert(key.skip(k + 1) =~= rest);
    let parts = split_parts(key, '.');
    assert(parts =~= seq![name] + split_parts(rest, '.'));
    assert(parts.skip(1) =~= split_parts(rest, '.'));
}

/// What the settings give is taken; what they do not give, or what is no number, is the usual value.
pub proof fn law_settings_or_usual_values(
    cfg: Config,
    key: Seq<char>,
    i: i64,
    x: Real,
    t: Seq<char>,
)
    ensures
        cfg.lookup(key) is None ==> cfg.int_at(key, i) == i && cfg.real_at(key, x) == x
            && cfg.text_or(key, t) == t && cfg.text_at(key).len() == 0 && cfg.pairs_at(key).len()
            == 0 && cfg.float_at(key, i) == JsonView::Number(NumView::Float(int_bits(i as int))),
        cfg.lookup(key) matches Some(v) ==> {
            &&& cfg.int_at(key, i) == (if v.to_int() is Some {
                v.to_int()->0
            } else {
                i
            })
            &&& cfg.real_at(key, x) == (if v.to_real() is Some {
                v.to_real()->0
            } else {
                x
            })
            &&& cfg.text_at(key) == v.plain()
            &&& v matches YamlView::Mapping(entries) ==> cfg.pairs_at(key) == text_pairs(entries)
            &&& !(v is Mapping) ==> cfg.pairs_at(key).len() == 0
            &&& v.untagged() is Null ==> cfg.text_or(key, t) == t
            &&& !(v.untagged() is Null) ==> cfg.text_or(key, t) == v.plain()
            &&& v.to_real() is Some && v.to_real()->0.exponent() < 2047 ==> cfg.float_at(key, i)
                == JsonView::Number(NumView::Float(v.to_real()->0.bits))
            &&& v.to_real() is None ==> cfg.float_at(key, i) == JsonView::Number(
                NumView::Float(int_bits(i as int)),
            )
        },
{
}

/// Of the entries of a mapping that are written alike the last counts, in the place of the first.
pub proof fn law_last_entry_counts(
    entries: Seq<(YamlView, YamlView)>,
    key: YamlView,
    value: YamlView,
    k: int,
)
    ensures
        text_pairs(Seq::empty()).len() == 0,
        ({
            let before = text_pairs(entries);
            let after = text_pairs(entries.push((key, value)));
            let name = key.plain();
            &&& (forall|i: int| 0 <= i < before.len() ==> (#[trigger] before[i]).0 != name)
                ==> after == before + seq![(name, value)]
            &&& 0 <= k < before.len() && before[k].0 == name && (forall|i: int|
                0 <= i < k ==> (#[trigger] before[i]).0 != name) ==> after == before.update(
                k,
                (name, value),
            )
        }),
{
    assert(entries.push((key, value)).drop_last() =~= entries);
    lemma_set_pair(text_pairs(entries), key.plain(), value, k);
}

proof fn lemma_set_pair(
    pairs: Seq<(Seq<char>, YamlView)>,
    key: Seq<char>,
    value: YamlView,
    k: int,
)
    ensures
        (forall|i: int| 0 <= i < pairs.len() ==> (#[trigger] pairs[i]).0 != key) ==> set_pair(
            pairs,
            key,
            value,
        ) == pairs + seq![(key, value)],
        0 <= k < pairs.len() && pairs[k].0 == key && (forall|i: int|
            0 <= i < k ==> (#[trigger] pairs[i]).0 != key) ==> set_pair(pairs, key, value)
            == pairs.update(k, (key, value)),
    decreases pairs.len(),
{
    let res = set_pair(pairs, key, value);
    if pairs.len() == 0 {
        assert(res =~= pairs + seq![(key, value)]);
    } else if pairs[0].0 == key {
        assert(res =~= pairs.update(0, (key, value)));
    } else {
        let rest = pairs.skip(1);
        lemma_set_pair(rest, key, value, k - 1);
        if forall|i: int| 0 <= i < pairs.len() ==> (#[trigger] pairs[i]).0 != key {
            assert forall|i: int| 0 <= i < rest.len() implies (#[trigger] rest[i]).0 != key by {
                assert(pairs[i + 1].0 != key);
            }
            assert(res =~= pairs + seq![(key, value)]);
        }
        if 0 <= k < pairs.len() && pairs[k].0 == key && (forall|i: int|
            0 <= i < k ==> (#[trigger] pairs[i]).0 != key) {
            assert(rest[k - 1] == pairs[k]);
            assert forall|i: int| 0 <= i < k - 1 implies (#[trigger] rest[i]).0 != key by {
                assert(pairs[i + 1].0 != key);
            }
            assert(res =~= pairs.update(k, (key, value)));
        }
    }
}

/// A field in a template is replaced by the value of the variable that it names, up to a mark of
/// conversion or form, and the rest is filled in likewise; a variable that is not there is missed.
pub proof fn law_fields_are_filled(
    field: Seq<char>,
    rest: Seq<char>,
    vars: Seq<(Seq<char>, Seq<char>)>,
    value: Seq<char>,
    tail: Seq<char>,
)
    requires
        !field.contains('}'),
        !field.contains('{'),
        trimmed(field).len() > 0,
        !trimmed(field).contains('{'),
    ensures
        var(vars, before_char(before_char(trimmed(field), '!'), ':')) == Some(value) && filled(
            rest,
            vars,
        ) == Ok::<Seq<char>, FormatErrorView>(tail) ==> filled(
            seq!['{'] + field + seq!['}'] + rest,
            vars,
        ) == Ok::<Seq<char>, FormatErrorView>(value + tail),
        var(vars, before_char(before_char(trimmed(field), '!'), ':')) is None ==> filled(
            seq!['{'] + field + seq!['}'] + rest,
            vars,
        ) == Err::<Seq<char>, FormatErrorView>(
            FormatErrorView::MissingField(before_char(before_char(trimmed(field), '!'), ':')),
        ),
{
    let template = seq!['{'] + field + seq!['}'] + rest;
    let k = field.len() as int;
    assert(template[0] == '{');
    assert(field.len() > 0) by {
        if field.len() == 0 {
            assert(trimmed(field) == field);
        }
    }
    assert(template[1] == field[0]);
    assert(field.contains(field[0]));
    let inner = template.skip(1);
    assert forall|j: int| 0 <= j < k implies inner[j] != '}' by {
        assert(inner[j] == field[j]);
        assert(field.contains(field[j]));
    }
    assert(inner[k] == '}');
    lemma_find_char_at(inner, '}', k);
    assert(template.subrange(1, k + 1) =~= field);
    assert(template.skip(k + 2) =~= rest);
}

/// A text without braces in front of a template stays in front of what is filled in.
pub proof fn law_text_between_fields_stays(
    text: Seq<char>,
    rest: Seq<char>,
    vars: Seq<(Seq<char>, Seq<char>)>,
    tail: Seq<char>,
)
    requires
        !text.contains('{'),
        !text.contains('}'),
        filled(rest, vars) == Ok::<Seq<char>, FormatErrorView>(tail),
    ensures
        filled(text + rest, vars) == Ok::<Seq<char>, FormatErrorView>(text + tail),
    decreases text.len(),
{
    if text.len() == 0 {
        assert(text + rest =~= rest);
        assert(text + tail =~= tail);
    } else {
        assert(text.contains(text[0]));
        let less = text.skip(1);
        assert forall|c: char| less.contains(c) implies text.contains(c) by {
            let k = choose|k: int| 0 <= k < less.len() && less[k] == c;
            assert(text[k + 1] == c);
        }
        law_text_between_fields_stays(less, rest, vars, tail);
        assert((text + rest).skip(1) =~= less + rest);
        assert((text + rest)[0] == text[0]);
        assert(seq![text[0]] + (less + tail) =~= text + tail);
    }
}

/// A brace that opens and is not closed, and one that closes and was not opened, are errors.
pub proof fn law_single_braces_are_errors(text: Seq<char>, vars: Seq<(Seq<char>, Seq<char>)>)
    ensures
        !text.contains('}') && (text.len() == 0 || text[0] != '{') ==> filled(
            seq!['{'] + text,
            vars,
        ) == Err::<Seq<char>, FormatErrorView>(FormatErrorView::UnmatchedOpen),
        text.len() == 0 || text[0] != '}' ==> filled(seq!['}'] + text, vars) == Err::<
            Seq<char>,
            FormatErrorView,
        >(FormatErrorView::UnmatchedClose),
{
    let open = seq!['{'] + text;
    let close = seq!['}'] + text;
    assert(open[0] == '{' && close[0] == '}');
    assert(open.skip(1) =~= text);
    if !text.contains('}') {
        assert forall|j: int| 0 <= j < text.len() implies text[j] != '}' by {
            assert(text.contains(text[j]));
        }
        lemma_find_char_at(text, '}', text.len() as int);
    }
    if text.len() > 0 {
        assert(open[1] == text[0] && close[1] == text[0]);
    }
}

/// A variable is the first one of its name.
pub proof fn law_first_variable_counts(vars: Seq<(Seq<char>, Seq<char>)>, name: Seq<char>, k: int)
    ensures
        0 <= k < vars.len() && vars[k].0 == name && (forall|i: int|
            0 <= i < k ==> (#[trigger] vars[i]).0 != name) ==> var(vars, name) == Some(vars[k].1),
        (forall|i: int| 0 <= i < vars.len() ==> (#[trigger] vars[i]).0 != name) ==> var(vars, name)
            is None,
    decreases vars.len(),
{
    if vars.len() > 0 && vars[0].0 != name {
        let rest = vars.skip(1);
        law_first_variable_counts(rest, name, k - 1);
        if 0 <= k < vars.len() && vars[k].0 == name && (forall|i: int|
            0 <= i < k ==> (#[trigger] vars[i]).0 != name) {
            assert(rest[k - 1] == vars[k]);
            assert forall|i: int| 0 <= i < k - 1 implies (#[trigger] rest[i]).0 != name by {
                assert(vars[i + 1].0 != name);
            }
        }
        if forall|i: int| 0 <= i < vars.len() ==> (#[trigger] vars[i]).0 != name {
            assert forall|i: int| 0 <= i < rest.len() implies (#[trigger] rest[i]).0 != name by {
                assert(vars[i + 1].0 != name);
            }
        }
    }
}

/// The persona of a group is the one under its number, by a number or by a text, and else the default.
pub proof fn law_persona_of_a_group(persona: YamlView, group_id: i64)
    ensures
        persona.find(KeyView::Int(group_id)) is Some ==> persona_value(persona, group_id)
            == persona.find(KeyView::Int(group_id)),
        persona.find(KeyView::Int(group_id)) is None && persona.find(
            KeyView::Str(crate::text::int_text(group_id as int)),
        ) is Some ==> persona_value(persona, group_id) == persona.find(
            KeyView::Str(crate::text::int_text(group_id as int)),
        ),
        persona.find(KeyView::Int(group_id)) is None && persona.find(
            KeyView::Str(crate::text::int_text(group_id as int)),
        ) is None ==> persona_value(persona, group_id) == persona.find(KeyView::Str("default"@)),
{
}

/// What counts as yes: true, one and yes, in capitals or not.
pub proof fn law_what_counts_as_yes(s: Seq<char>)
    ensures
        affirmative(s) == affirmative(ascii_uppercase(s)),
        s == "TRUE"@ || s == "YES"@ || s == "1"@ ==> affirmative(s),
        s.len() != 1 && s.len() != 3 && s.len() != 4 ==> !affirmative(s),
        s.len() == 1 ==> affirmative(s) == (s[0] == '1'),
        s.len() == 3 ==> affirmative(s) == (ascii_uppercase(s) == "YES"@),
        s.len() == 4 ==> affirmative(s) == (ascii_uppercase(s) == "TRUE"@),
{
    reveal_strlit("TRUE");
    reveal_strlit("YES");
    reveal_strlit("1");
    assert(ascii_uppercase(ascii_uppercase(s)) =~= ascii_uppercase(s));
    assert(s == "TRUE"@ || s == "YES"@ || s == "1"@ ==> ascii_uppercase(s) =~= s);
    if s.len() == 1 {
        assert(ascii_uppercase(s)[0] == crate::text::ascii_upper(s[0]));
        if s[0] == '1' {
            assert(ascii_uppercase(s) =~= "1"@);
        }
    }
}

/// What is said of a template that cannot be filled in names the field that is wrong or missing.
pub proof fn law_errors_name_the_field(name: Seq<char>)
    ensures
        FormatErrorView::InvalidField(name).message() == "invalid format field {"@ + name + "}"@,
        FormatErrorView::MissingField(name).message() == "配置 format 缺少字段: "@ + name,
        FormatErrorView::UnmatchedOpen.message() == "unmatched '{' in format string"@,
        FormatErrorView::UnmatchedClose.message() == "unmatched '}' in format string"@,
{
}

} // verus!
