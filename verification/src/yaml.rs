//! YAML values: reading their parts and turning them into text and JSON.

use crate::json::{
    insert, num_real, number_view, put, real_json, Json, JsonView, NumView,
};
use crate::number::{int_bits, parse_real, real_of_text, Real};
use crate::text::{int_of_text, int_text, own, parse_int, same, trim, trimmed};
use vstd::prelude::*;

verus! {

/// What a YAML value holds. The entries of a mapping stand in the order in which it is walked.
pub enum YamlView {
    Null,
    Bool(bool),
    Number(NumView),
    Str(Seq<char>),
    Sequence(Seq<YamlView>),
    Mapping(Seq<(YamlView, YamlView)>),
    Tagged(Seq<char>, Box<YamlView>),
}

/// A YAML value.
#[derive(Debug)]
pub enum Yaml {
    Null,
    Bool(bool),
    Number(serde_yaml::Number),
    Str(String),
    Sequence(Vec<Yaml>),
    Mapping(Vec<(Yaml, Yaml)>),
    Tagged(String, Box<Yaml>),
}

/// `serde_yaml`'s numbers.
#[verifier::external_type_specification]
#[verifier::external_body]
pub struct ExYamlNumber(serde_yaml::Number);

/// `serde_yaml`'s values.
#[verifier::external_type_specification]
#[verifier::external_body]
pub struct ExYamlValue(serde_yaml::Value);

/// What a `serde_yaml::Number` holds. It is an integer with sign wherever it fits one.
pub uninterp spec fn yaml_number_view(n: serde_yaml::Number) -> NumView;

/// What a `serde_yaml::Value` holds.
pub uninterp spec fn yaml_value_view(v: serde_yaml::Value) -> YamlView;

/// The text of a double-precision number in YAML.
pub uninterp spec fn yaml_float_text(bits: u64) -> Seq<char>;

/// The YAML document for a value, where it can be written.
pub uninterp spec fn yaml_text(v: YamlView) -> Option<Seq<char>>;

/// The YAML value that a document stands for, where it stands for one.
pub uninterp spec fn yaml_of_text(s: Seq<char>) -> Option<YamlView>;

/// `serde_yaml::Number::as_i64`: the number, where it fits 64 bits with sign.
pub assume_specification[ serde_yaml::Number::as_i64 ](n: &serde_yaml::Number) -> (res: Option<i64>)
    ensures
        res == (match yaml_number_view(*n) {
            NumView::Int(i) => Some(i),
            _ => None,
        }),
;

/// `serde_yaml::Number::as_u64`: the number, where it fits 64 bits without sign.
pub assume_specification[ serde_yaml::Number::as_u64 ](n: &serde_yaml::Number) -> (res: Option<u64>)
    ensures
        res == (match yaml_number_view(*n) {
            NumView::Int(i) => if i >= 0 {
                Some(i as u64)
            } else {
                None
            },
            NumView::UInt(u) => Some(u),
            NumView::Float(_) => None,
        }),
;

/// `serde_yaml::Number`'s `Clone`: an equal number.
pub assume_specification[ <serde_yaml::Number as Clone>::clone ](n: &serde_yaml::Number) -> (res:
    serde_yaml::Number)
    ensures
        res == *n,
;

/// `serde_yaml::Number::as_f64`, by its bits: the number itself where it is double-precision, or an
/// integer of at most 53 bits, else the double-precision number nearest to the integer, and of two as
/// near the even one.
#[verifier::external_body]
fn yaml_number_bits(n: &serde_yaml::Number) -> (res: Option<u64>)
    ensures
        match yaml_number_view(*n) {
            NumView::Int(i) => res == Some(int_bits(i as int)),
            NumView::UInt(u) => res == Some(int_bits(u as int)),
            NumView::Float(bits) => res == Some(bits),
        },
{
    n.as_f64().map(|x| x.to_bits())
}

/// `serde_yaml::Number`'s `Display`: an integer in decimal, another number as YAML writes it.
#[verifier::external_body]
fn yaml_number_text(n: &serde_yaml::Number) -> (res: String)
    ensures
        match yaml_number_view(*n) {
            NumView::Int(i) => res@ == int_text(i as int),
            NumView::UInt(u) => res@ == int_text(u as int),
            NumView::Float(bits) => res@ == yaml_float_text(bits),
        },
{
    n.to_string()
}

/// `serde_json::Number`'s `From<u64>`: the integer, with sign where it fits one.
#[verifier::external_body]
fn json_number_of_unsigned(u: u64) -> (res: serde_json::Number)
    ensures
        number_view(res) == (if u <= i64::MAX {
            NumView::Int(u as i64)
        } else {
            NumView::UInt(u)
        }),
{
    serde_json::Number::from(u)
}

/// `serde_json::Number::from_f64` on what `serde_yaml`'s `as_f64` gives: the double-precision
/// number, unless it is infinite or no number.
#[verifier::external_body]
fn json_number_of_float(n: &serde_yaml::Number) -> (res: Option<serde_json::Number>)
    ensures
        match res {
            Some(m) => JsonView::Number(number_view(m)) == real_json(num_real(yaml_number_view(*n))),
            None => real_json(num_real(yaml_number_view(*n))) is Null,
        },
{
    n.as_f64().and_then(serde_json::Number::from_f64)
}

/// One level of a `serde_yaml::Value`.
enum Layer {
    Null,
    Bool(bool),
    Number(serde_yaml::Number),
    Str(String),
    Sequence(Vec<serde_yaml::Value>),
    Mapping(Vec<(serde_yaml::Value, serde_yaml::Value)>),
    Tagged(String, serde_yaml::Value),
}

/// The variants of `serde_yaml::Value`, told apart; a mapping's entries come in the order in which
/// they were inserted, no two of its keys are alike, and a tag's text is its mark and what is behind
/// it.
#[verifier::external_body]
fn open_value(v: serde_yaml::Value) -> (res: Layer)
    ensures
        match yaml_value_view(v) {
            YamlView::Null => res is Null,
            YamlView::Bool(b) => res == Layer::Bool(b),
            YamlView::Number(n) => res matches Layer::Number(m) && yaml_number_view(m) == n,
            YamlView::Str(s) => res matches Layer::Str(t) && t@ == s,
            YamlView::Sequence(s) => {
                &&& res matches Layer::Sequence(t)
                &&& t@.len() == s.len()
                &&& forall|i: int| 0 <= i < s.len() ==> yaml_value_view(#[trigger] t@[i]) == s[i]
            },
            YamlView::Mapping(s) => {
                &&& distinct_keys(s)
                &&& res matches Layer::Mapping(t)
                &&& t@.len() == s.len()
                &&& forall|i: int|
                    0 <= i < s.len() ==> yaml_value_view((#[trigger] t@[i]).0) == s[i].0
                        && yaml_value_view(t@[i].1) == s[i].1
            },
            YamlView::Tagged(s, inner) => res matches Layer::Tagged(t, w) && t@ == s && marked(s)
                && yaml_value_view(w) == *inner,
        },
{
    match v {
        serde_yaml::Value::Null => Layer::Null,
        serde_yaml::Value::Bool(b) => Layer::Bool(b),
        serde_yaml::Value::Number(n) => Layer::Number(n),
        serde_yaml::Value::String(s) => Layer::Str(s),
        serde_yaml::Value::Sequence(a) => Layer::Sequence(a),
        serde_yaml::Value::Mapping(m) => Layer::Mapping(m.into_iter().collect()),
        serde_yaml::Value::Tagged(t) => Layer::Tagged(t.tag.to_string(), t.value),
    }
}

/// The variants of `serde_yaml::Value`, built. A tag's text is not empty, else `Tag::new` panics.
/// Nothing is said of a mapping two of whose keys are alike, nor of a tag without its mark or with
/// nothing behind it.
#[verifier::external_body]
fn close_value(layer: Layer) -> (res: serde_yaml::Value)
    requires
        layer matches Layer::Tagged(t, _) ==> t@.len() > 0,
    ensures
        match layer {
            Layer::Null => yaml_value_view(res) is Null,
            Layer::Bool(b) => yaml_value_view(res) == YamlView::Bool(b),
            Layer::Number(n) => yaml_value_view(res) == YamlView::Number(yaml_number_view(n)),
            Layer::Str(s) => yaml_value_view(res) == YamlView::Str(s@),
            Layer::Sequence(t) => yaml_value_view(res) == YamlView::Sequence(
                t@.map_values(|v: serde_yaml::Value| yaml_value_view(v)),
            ),
            Layer::Mapping(t) => {
                let entries = t@.map_values(
                    |e: (serde_yaml::Value, serde_yaml::Value)|
                        (yaml_value_view(e.0), yaml_value_view(e.1)),
                );
                distinct_keys(entries) ==> yaml_value_view(res) == YamlView::Mapping(entries)
            },
            Layer::Tagged(t, v) => marked(t@) ==> yaml_value_view(res) == YamlView::Tagged(
                t@,
                Box::new(yaml_value_view(v)),
            ),
        },
{
    match layer {
        Layer::Null => serde_yaml::Value::Null,
        Layer::Bool(b) => serde_yaml::Value::Bool(b),
        Layer::Number(n) => serde_yaml::Value::Number(n),
        Layer::Str(s) => serde_yaml::Value::String(s),
        Layer::Sequence(a) => serde_yaml::Value::Sequence(a),
        Layer::Mapping(m) => serde_yaml::Value::Mapping(m.into_iter().collect()),
        Layer::Tagged(t, v) => serde_yaml::Value::Tagged(
            Box::new(serde_yaml::value::TaggedValue { tag: serde_yaml::value::Tag::new(t), value: v }),
        ),
    }
}

/// `serde_yaml::from_str`: the value that the document stands for.
#[verifier::external_body]
fn parse_value(s: &str) -> (res: Option<serde_yaml::Value>)
    ensures
        match res {
            Some(v) => yaml_of_text(s@) == Some(yaml_value_view(v)),
            None => yaml_of_text(s@) is None,
        },
{
    serde_yaml::from_str(s).ok()
}

/// `serde_yaml::to_string`: the document for the value.
#[verifier::external_body]
fn value_text(v: &serde_yaml::Value) -> (res: Option<String>)
    ensures
        match res {
            Some(s) => yaml_text(yaml_value_view(*v)) == Some(s@),
            None => yaml_text(yaml_value_view(*v)) is None,
        },
{
    serde_yaml::to_string(v).ok()
}

/// Whether a tag begins with its mark and goes on behind it.
pub open spec fn marked(tag: Seq<char>) -> bool {
    tag.len() > 1 && tag[0] == '!'
}

/// Whether two values are alike, as the keys of a mapping: the same but for the order of the entries of
/// mappings; two double-precision numbers where they are equal or both no number.
pub open spec fn alike(a: YamlView, b: YamlView) -> bool
    decreases a,
{
    match (a, b) {
        (YamlView::Number(NumView::Float(x)), YamlView::Number(NumView::Float(y))) => (Real {
            bits: x,
        }.nan() && Real { bits: y }.nan()) || (Real { bits: x }.at_most(Real { bits: y })
            && Real { bits: y }.at_most(Real { bits: x })),
        (YamlView::Sequence(x), YamlView::Sequence(y)) => x.len() == y.len() && forall|i: int|
            0 <= i < x.len() ==> alike(#[trigger] x[i], y[i]),
        (YamlView::Mapping(x), YamlView::Mapping(y)) => x.len() == y.len() && forall|i: int|
            #![trigger x[i]]
            0 <= i < x.len() ==> exists|j: int|
                #![trigger y[j]]
                0 <= j < y.len() && alike(x[i].0, y[j].0) && alike(x[i].1, y[j].1),
        (YamlView::Tagged(s, x), YamlView::Tagged(t, y)) => s == t && alike(*x, *y),
        _ => a == b,
    }
}

/// Whether no two keys are alike.
pub open spec fn distinct_keys(entries: Seq<(YamlView, YamlView)>) -> bool {
    forall|i: int, j: int|
        0 <= i < j < entries.len() ==> !alike((#[trigger] entries[i]).0, (#[trigger] entries[j]).0)
}

/// The key that a mapping is asked for.
pub enum KeyView {
    Str(Seq<char>),
    Int(i64),
    Float(Real),
}

/// The key that a mapping is asked for.
pub enum Key<'a> {
    Str(&'a str),
    Int(i64),
    Float(Real),
}

impl<'a> View for Key<'a> {
    type V = KeyView;

    open spec fn view(&self) -> KeyView {
        match self {
            Key::Str(s) => KeyView::Str(s@),
            Key::Int(i) => KeyView::Int(*i),
            Key::Float(x) => KeyView::Float(*x),
        }
    }
}

impl KeyView {
    /// Whether an entry with the key `k` answers. Two double-precision numbers are the same key
    /// where they are equal, or where both are no number.
    pub open spec fn answers(self, k: YamlView) -> bool {
        match self {
            KeyView::Str(s) => k == YamlView::Str(s),
            KeyView::Int(i) => k == YamlView::Number(NumView::Int(i)),
            KeyView::Float(x) => k matches YamlView::Number(NumView::Float(bits)) && (if x.nan() {
                Real { bits }.nan()
            } else {
                x.at_most(Real { bits }) && Real { bits }.at_most(x)
            }),
        }
    }
}

/// The value of the first entry that answers to `key`.
pub open spec fn find(entries: Seq<(YamlView, YamlView)>, key: KeyView) -> Option<YamlView>
    decreases entries.len(),
{
    if entries.len() == 0 {
        None
    } else if key.answers(entries[0].0) {
        Some(entries[0].1)
    } else {
        find(entries.skip(1), key)
    }
}

impl YamlView {
    /// The value without the tags around it.
    pub open spec fn untagged(self) -> YamlView
        decreases self,
    {
        match self {
            YamlView::Tagged(_, inner) => inner.untagged(),
            _ => self,
        }
    }

    /// The value that a mapping has under `key`, whatever its tags.
    pub open spec fn find(self, key: KeyView) -> Option<YamlView> {
        match self.untagged() {
            YamlView::Mapping(entries) => find(entries, key),
            _ => None,
        }
    }

    /// The value that a mapping has under a name: under the text, else under the integer or the
    /// double-precision number that the text stands for.
    pub open spec fn member(self, name: Seq<char>) -> Option<YamlView> {
        if let Some(v) = self.find(KeyView::Str(name)) {
            Some(v)
        } else if int_of_text(name) is Some && self.find(
            KeyView::Int(int_of_text(name)->0),
        ) is Some {
            self.find(KeyView::Int(int_of_text(name)->0))
        } else if real_of_text(name) is Some {
            self.find(KeyView::Float(real_of_text(name)->0))
        } else {
            None
        }
    }

    /// Whether it is in order at every depth: no two keys of a mapping are alike, and each tag has its
    /// mark. What is read from a document always is.
    pub open spec fn regular(self) -> bool
        decreases self,
    {
        match self {
            YamlView::Sequence(items) => forall|i: int|
                0 <= i < items.len() ==> (#[trigger] items[i]).regular(),
            YamlView::Mapping(entries) => distinct_keys(entries) && forall|i: int|
                0 <= i < entries.len() ==> (#[trigger] entries[i]).0.regular()
                    && entries[i].1.regular(),
            YamlView::Tagged(tag, inner) => marked(tag) && inner.regular(),
            _ => true,
        }
    }

    /// Whether the keys of each mapping, at every depth, are in order.
    pub open spec fn convertible(self) -> bool
        decreases self,
    {
        match self {
            YamlView::Sequence(items) => forall|i: int|
                0 <= i < items.len() ==> (#[trigger] items[i]).convertible(),
            YamlView::Mapping(entries) => forall|i: int|
                0 <= i < entries.len() ==> (#[trigger] entries[i]).0.regular()
                    && entries[i].1.convertible(),
            YamlView::Tagged(_, inner) => inner.convertible(),
            _ => true,
        }
    }

    /// The text for a value: of a text itself, of a number its digits, of a truth value its name,
    /// nothing for null, and of any other value its document without the space around it.
    pub open spec fn plain(self) -> Seq<char> {
        match self {
            YamlView::Null => Seq::empty(),
            YamlView::Bool(b) => if b {
                "true"@
            } else {
                "false"@
            },
            YamlView::Number(NumView::Int(i)) => int_text(i as int),
            YamlView::Number(NumView::UInt(u)) => int_text(u as int),
            YamlView::Number(NumView::Float(bits)) => yaml_float_text(bits),
            YamlView::Str(s) => s,
            _ => match yaml_text(self) {
                Some(s) => trimmed(s),
                None => Seq::empty(),
            },
        }
    }

    /// The integer that a number or a text stands for: of a number that does not fit, the integral
    /// part of the double-precision number nearest to it.
    pub open spec fn to_int(self) -> Option<i64> {
        match self {
            YamlView::Number(NumView::Int(i)) => Some(i),
            YamlView::Number(n) => Some(num_real(n).whole() as i64),
            YamlView::Str(s) => int_of_text(s),
            _ => None,
        }
    }

    /// The double-precision number that a number or a text stands for.
    pub open spec fn to_real(self) -> Option<Real> {
        match self {
            YamlView::Number(n) => Some(num_real(n)),
            YamlView::Str(s) => real_of_text(s),
            _ => None,
        }
    }

    /// The JSON value for a YAML value: tags fall away, keys become texts, and what is no finite
    /// number becomes null.
    pub open spec fn json(self) -> JsonView
        decreases self,
    {
        match self {
            YamlView::Null => JsonView::Null,
            YamlView::Bool(b) => JsonView::Bool(b),
            YamlView::Number(NumView::UInt(u)) => JsonView::Number(
                if u <= i64::MAX {
                    NumView::Int(u as i64)
                } else {
                    NumView::UInt(u)
                },
            ),
            YamlView::Number(NumView::Float(bits)) => real_json(Real { bits }),
            YamlView::Number(n) => JsonView::Number(n),
            YamlView::Str(s) => JsonView::Str(s),
            YamlView::Sequence(items) => JsonView::Array(json_items(items)),
            YamlView::Mapping(entries) => JsonView::Object(json_entries(entries)),
            YamlView::Tagged(_, inner) => inner.json(),
        }
    }
}

/// The JSON values for a list of YAML values.
pub open spec fn json_items(items: Seq<YamlView>) -> Seq<JsonView>
    decreases items,
{
    if items.len() == 0 {
        Seq::empty()
    } else {
        json_items(items.drop_last()).push(items.last().json())
    }
}

/// The JSON object for the entries of a mapping, set one after the other.
pub open spec fn json_entries(entries: Seq<(YamlView, YamlView)>) -> Seq<(Seq<char>, JsonView)>
    decreases entries,
{
    if entries.len() == 0 {
        Seq::empty()
    } else {
        put(
            json_entries(entries.drop_last()),
            entries.last().0.plain(),
            entries.last().1.json(),
        )
    }
}

/// A value in order can be turned into JSON.
pub proof fn law_regular_is_convertible(v: YamlView)
    requires
        v.regular(),
    ensures
        v.convertible(),
    decreases v,
{
    match v {
        YamlView::Sequence(items) => {
            assert forall|i: int| 0 <= i < items.len() implies (#[trigger] items[i]).convertible() by {
                assert(items[i].regular());
                law_regular_is_convertible(items[i]);
            }
        },
        YamlView::Mapping(entries) => {
            assert forall|i: int| 0 <= i < entries.len() implies (#[trigger] entries[i]).0.regular()
                && entries[i].1.convertible() by {
                assert(entries[i].1.regular());
                assert(decreases_to!(entries[i] => entries[i].1));
                law_regular_is_convertible(entries[i].1);
            }
        },
        YamlView::Tagged(_, inner) => {
            law_regular_is_convertible(*inner);
        },
        _ => {},
    }
}

/// What a value in order has under a key is in order.
pub proof fn law_members_are_regular(v: YamlView, key: KeyView)
    requires
        v.regular(),
    ensures
        v.find(key) matches Some(w) ==> w.regular(),
{
    lemma_untagged_regular(v);
    if let YamlView::Mapping(entries) = v.untagged() {
        assert forall|i: int| 0 <= i < entries.len() implies (#[trigger] entries[i]).1.regular() by {}
        lemma_found_is_regular(entries, key);
    }
}

proof fn lemma_untagged_regular(v: YamlView)
    requires
        v.regular(),
    ensures
        v.untagged().regular(),
    decreases v,
{
    if let YamlView::Tagged(_, inner) = v {
        lemma_untagged_regular(*inner);
    }
}

proof fn lemma_found_is_regular(entries: Seq<(YamlView, YamlView)>, key: KeyView)
    requires
        forall|i: int| 0 <= i < entries.len() ==> (#[trigger] entries[i]).1.regular(),
    ensures
        find(entries, key) matches Some(w) ==> w.regular(),
    decreases entries.len(),
{
    if entries.len() > 0 {
        assert(entries[0].1.regular());
        let rest = entries.skip(1);
        assert forall|i: int| 0 <= i < rest.len() implies (#[trigger] rest[i]).1.regular() by {
            assert(rest[i] == entries[i + 1]);
        }
        lemma_found_is_regular(rest, key);
    }
}

/// What a value holds.
pub open spec fn model(v: Yaml) -> YamlView
    decreases v,
{
    match v {
        Yaml::Null => YamlView::Null,
        Yaml::Bool(b) => YamlView::Bool(b),
        Yaml::Number(n) => YamlView::Number(yaml_number_view(n)),
        Yaml::Str(s) => YamlView::Str(s@),
        Yaml::Sequence(items) => YamlView::Sequence(model_items(items@)),
        Yaml::Mapping(entries) => YamlView::Mapping(model_entries(entries@)),
        Yaml::Tagged(tag, inner) => YamlView::Tagged(tag@, Box::new(model(*inner))),
    }
}

/// What each value of a list holds.
pub open spec fn model_items(items: Seq<Yaml>) -> Seq<YamlView>
    decreases items,
{
    if items.len() == 0 {
        Seq::empty()
    } else {
        model_items(items.drop_last()).push(model(items.last()))
    }
}

/// What each entry of a list holds.
pub open spec fn model_entries(entries: Seq<(Yaml, Yaml)>) -> Seq<(YamlView, YamlView)>
    decreases entries,
{
    if entries.len() == 0 {
        Seq::empty()
    } else {
        model_entries(entries.drop_last()).push(
            (model(entries.last().0), model(entries.last().1)),
        )
    }
}

impl View for Yaml {
    type V = YamlView;

    open spec fn view(&self) -> YamlView {
        model(*self)
    }
}

proof fn lemma_model_items(items: Seq<Yaml>)
    ensures
        model_items(items) == yaml_views(items),
    decreases items.len(),
{
    if items.len() > 0 {
        lemma_model_items(items.drop_last());
        assert(yaml_views(items) =~= yaml_views(items.drop_last()).push(items.last()@));
    } else {
        assert(yaml_views(items) =~= Seq::empty());
    }
}

proof fn lemma_model_entries(entries: Seq<(Yaml, Yaml)>)
    ensures
        model_entries(entries) == pair_views(entries),
    decreases entries.len(),
{
    if entries.len() > 0 {
        lemma_model_entries(entries.drop_last());
        assert(pair_views(entries) =~= pair_views(entries.drop_last()).push(
            (entries.last().0@, entries.last().1@),
        ));
    } else {
        assert(pair_views(entries) =~= Seq::empty());
    }
}

/// The views of a list of values.
pub open spec fn yaml_views(items: Seq<Yaml>) -> Seq<YamlView> {
    items.map_values(|v: Yaml| v@)
}

/// The views of a list of entries.
pub open spec fn pair_views(entries: Seq<(Yaml, Yaml)>) -> Seq<(YamlView, YamlView)> {
    entries.map_values(|e: (Yaml, Yaml)| (e.0@, e.1@))
}

/// The view of a sequence holds the views of its items, and the view of a mapping those of its
/// entries.
pub proof fn lemma_yaml_views(v: Yaml)
    ensures
        v matches Yaml::Sequence(items) ==> v@ == YamlView::Sequence(yaml_views(items@)),
        v matches Yaml::Mapping(entries) ==> v@ == YamlView::Mapping(pair_views(entries@)),
        v matches Yaml::Tagged(tag, inner) ==> v@ == YamlView::Tagged(tag@, Box::new((*inner)@)),
{
    match v {
        Yaml::Sequence(items) => {
            lemma_model_items(items@);
        },
        Yaml::Mapping(entries) => {
            lemma_model_entries(entries@);
        },
        _ => {},
    }
}

impl<'a> Key<'a> {
    /// Whether an entry with the key `k` answers.
    fn answered_by(&self, k: &Yaml) -> (res: bool)
        ensures
            res == self@.answers(k@),
    {
        match (self, k) {
            (Key::Str(s), Yaml::Str(t)) => same(s, t.as_str()),
            (Key::Int(i), Yaml::Number(n)) => match n.as_i64() {
                Some(j) => *i == j,
                None => false,
            },
            (Key::Float(x), Yaml::Number(n)) => if n.as_i64().is_some() || n.as_u64().is_some() {
                false
            } else {
                match yaml_number_bits(n) {
                    Some(bits) => {
                        let y = Real { bits };
                        if x.is_nan() {
                            y.is_nan()
                        } else {
                            x.le(y) && y.le(*x)
                        }
                    },
                    None => false,
                }
            },
            _ => false,
        }
    }
}

impl Yaml {
    /// The library's value for a `serde_yaml` value.
    pub fn from_value(v: serde_yaml::Value) -> (res: Yaml)
        ensures
            res@ == yaml_value_view(v),
            res@.regular(),
        decreases yaml_value_view(v),
    {
        match open_value(v) {
            Layer::Null => Yaml::Null,
            Layer::Bool(b) => Yaml::Bool(b),
            Layer::Number(n) => Yaml::Number(n),
            Layer::Str(s) => Yaml::Str(s),
            Layer::Sequence(values) => {
                let ghost all = yaml_value_view(v)->Sequence_0;
                let ghost orig = values@;
                let mut rest = values;
                let mut out: Vec<Yaml> = Vec::new();
                while rest.len() > 0
                    invariant
                        yaml_value_view(v) == YamlView::Sequence(all),
                        orig.len() == all.len(),
                        forall|i: int|
                            0 <= i < orig.len() ==> yaml_value_view(#[trigger] orig[i]) == all[i],
                        out@.len() + rest@.len() == orig.len(),
                        rest@ == orig.skip(out@.len() as int),
                        forall|i: int| 0 <= i < out@.len() ==> (#[trigger] out@[i])@ == all[i],
                        forall|i: int| 0 <= i < out@.len() ==> (#[trigger] all[i]).regular(),
                    decreases rest.len(),
                {
                    let ghost k = out@.len() as int;
                    let x = rest.remove(0);
                    assert(x == orig[k]);
                    assert(decreases_to!(yaml_value_view(v) => yaml_value_view(v)->Sequence_0));
                    assert(decreases_to!(all => all[k]));
                    out.push(Yaml::from_value(x));
                }
                let res = Yaml::Sequence(out);
                proof {
                    lemma_yaml_views(res);
                    assert(yaml_views(res->Sequence_0@) =~= all);
                }
                res
            },
            Layer::Mapping(values) => {
                let ghost all = yaml_value_view(v)->Mapping_0;
                let ghost orig = values@;
                let mut rest = values;
                let mut out: Vec<(Yaml, Yaml)> = Vec::new();
                while rest.len() > 0
                    invariant
                        yaml_value_view(v) == YamlView::Mapping(all),
                        orig.len() == all.len(),
                        forall|i: int|
                            0 <= i < orig.len() ==> yaml_value_view((#[trigger] orig[i]).0) == all[i].0
                                && yaml_value_view(orig[i].1) == all[i].1,
                        out@.len() + rest@.len() == orig.len(),
                        rest@ == orig.skip(out@.len() as int),
                        forall|i: int|
                            0 <= i < out@.len() ==> (#[trigger] out@[i]).0@ == all[i].0 && out@[i].1@
                                == all[i].1,
                        forall|i: int|
                            0 <= i < out@.len() ==> (#[trigger] all[i]).0.regular()
                                && all[i].1.regular(),
                    decreases rest.len(),
                {
                    let ghost k = out@.len() as int;
                    let (key, x) = rest.remove(0);
                    assert(orig[k] == (key, x));
                    assert(decreases_to!(yaml_value_view(v) => yaml_value_view(v)->Mapping_0));
                    assert(decreases_to!(all => all[k]));
                    assert(decreases_to!(all[k] => all[k].0));
                    assert(decreases_to!(all[k] => all[k].1));
                    out.push((Yaml::from_value(key), Yaml::from_value(x)));
                }
                let res = Yaml::Mapping(out);
                proof {
                    lemma_yaml_views(res);
                    assert(pair_views(res->Mapping_0@) =~= all);
                }
                res
            },
            Layer::Tagged(tag, inner) => {
                assert(decreases_to!(yaml_value_view(v) => yaml_value_view(v)->Tagged_1));
                let res = Yaml::Tagged(tag, Box::new(Yaml::from_value(inner)));
                proof {
                    lemma_yaml_views(res);
                }
                res
            },
        }
    }

    /// The `serde_yaml` value for a value of the library.
    fn to_value(&self) -> (res: serde_yaml::Value)
        ensures
            self@.regular() ==> yaml_value_view(res) == self@,
        decreases self,
    {
        proof {
            lemma_yaml_views(*self);
        }
        match self {
            Yaml::Null => close_value(Layer::Null),
            Yaml::Bool(b) => close_value(Layer::Bool(*b)),
            Yaml::Number(n) => close_value(Layer::Number(n.clone())),
            Yaml::Str(s) => close_value(Layer::Str(s.clone())),
            Yaml::Sequence(items) => {
                let ghost all = yaml_views(items@);
                let mut out: Vec<serde_yaml::Value> = Vec::new();
                let mut i: usize = 0;
                while i < items.len()
                    invariant
                        *self == Yaml::Sequence(*items),
                        self@ == YamlView::Sequence(all),
                        all == yaml_views(items@),
                        i <= items@.len(),
                        out@.len() == i,
                        self@.regular() ==> forall|j: int|
                            0 <= j < i ==> yaml_value_view(#[trigger] out@[j]) == all[j],
                    decreases items@.len() - i,
                {
                    assert(decreases_to!(self => self->Sequence_0));
                    assert(decreases_to!(items => items@[i as int]));
                    proof {
                        reveal_with_fuel(YamlView::regular, 2);
                        assert(self@.regular() ==> all[i as int].regular());
                    }
                    out.push(items[i].to_value());
                    i += 1;
                }
                assert(self@.regular() ==> out@.map_values(
                    |v: serde_yaml::Value| yaml_value_view(v),
                ) =~= all);
                close_value(Layer::Sequence(out))
            },
            Yaml::Mapping(entries) => {
                let ghost all = pair_views(entries@);
                let mut out: Vec<(serde_yaml::Value, serde_yaml::Value)> = Vec::new();
                let mut i: usize = 0;
                while i < entries.len()
                    invariant
                        *self == Yaml::Mapping(*entries),
                        self@ == YamlView::Mapping(all),
                        all == pair_views(entries@),
                        i <= entries@.len(),
                        out@.len() == i,
                        self@.regular() ==> forall|j: int|
                            0 <= j < i ==> yaml_value_view((#[trigger] out@[j]).0) == all[j].0
                                && yaml_value_view(out@[j].1) == all[j].1,
                    decreases entries@.len() - i,
                {
                    assert(decreases_to!(self => self->Mapping_0));
                    assert(decreases_to!(entries => entries@[i as int]));
                    assert(decreases_to!(entries@[i as int] => entries@[i as int].0));
                    assert(decreases_to!(entries@[i as int] => entries@[i as int].1));
                    assert(self@.regular() ==> all[i as int].0.regular() && all[i as int].1.regular());
                    out.push((entries[i].0.to_value(), entries[i].1.to_value()));
                    i += 1;
                }
                assert(self@.regular() ==> out@.map_values(
                    |e: (serde_yaml::Value, serde_yaml::Value)|
                        (yaml_value_view(e.0), yaml_value_view(e.1)),
                ) =~= all);
                close_value(Layer::Mapping(out))
            },
            Yaml::Tagged(tag, inner) => {
                assert(decreases_to!(self => self->Tagged_1));
                let v = inner.to_value();
                if tag.as_str().is_empty() {
                    v
                } else {
                    close_value(Layer::Tagged(tag.clone(), v))
                }
            },
        }
    }

    /// The value that a document stands for, where it stands for one.
    pub fn parse(s: &str) -> (res: Option<Yaml>)
        ensures
            match res {
                Some(v) => yaml_of_text(s@) == Some(v@) && v@.regular(),
                None => yaml_of_text(s@) is None,
            },
    {
        match parse_value(s) {
            Some(v) => Some(Yaml::from_value(v)),
            None => None,
        }
    }

    /// The value without the tags around it.
    pub fn untag(&self) -> (res: &Yaml)
        ensures
            res@ == self@.untagged(),
            !(res is Tagged),
        decreases self,
    {
        proof {
            lemma_yaml_views(*self);
        }
        match self {
            Yaml::Tagged(_, inner) => inner.untag(),
            _ => self,
        }
    }

    /// Whether this is null, whatever its tags.
    pub fn is_null(&self) -> (res: bool)
        ensures
            res == (self@.untagged() is Null),
    {
        match self.untag() {
            Yaml::Null => true,
            _ => false,
        }
    }

    /// The value that a mapping has under `key`, whatever its tags.
    pub fn find(&self, key: Key) -> (res: Option<&Yaml>)
        ensures
            match res {
                Some(v) => self@.find(key@) == Some(v@),
                None => self@.find(key@) is None,
            },
    {
        let bare = self.untag();
        proof {
            lemma_yaml_views(*bare);
        }
        match bare {
            Yaml::Mapping(entries) => {
                let ghost all = pair_views(entries@);
                let mut i: usize = 0;
                assert(all.skip(0) == all);
                while i < entries.len()
                    invariant
                        all == pair_views(entries@),
                        i <= entries@.len(),
                        self@.untagged() == YamlView::Mapping(all),
                        find(all, key@) == find(all.skip(i as int), key@),
                    decreases entries@.len() - i,
                {
                    if key.answered_by(&entries[i].0) {
                        return Some(&entries[i].1);
                    }
                    assert(all.skip(i as int).skip(1) == all.skip(i + 1));
                    i += 1;
                }
                None
            },
            _ => None,
        }
    }
}

/// The value that a mapping has under a name: under the text, else under the integer or the
/// double-precision number that the text stands for.
pub fn mapping_get<'a>(v: &'a Yaml, key: &str) -> (res: Option<&'a Yaml>)
    ensures
        match res {
            Some(w) => v@.member(key@) == Some(w@),
            None => v@.member(key@) is None,
        },
{
    if let Some(w) = v.find(Key::Str(key)) {
        return Some(w);
    }
    if let Some(i) = parse_int(key) {
        if let Some(w) = v.find(Key::Int(i)) {
            return Some(w);
        }
    }
    match parse_real(key) {
        Some(x) => v.find(Key::Float(x)),
        None => None,
    }
}

/// The text for a value.
pub fn value_to_string(v: &Yaml) -> (res: String)
    ensures
        v@.regular() ==> res@ == v@.plain(),
{
    match v {
        Yaml::Str(s) => s.clone(),
        Yaml::Number(n) => yaml_number_text(n),
        Yaml::Bool(b) => if *b {
            own("true")
        } else {
            own("false")
        },
        Yaml::Null => String::new(),
        _ => match value_text(&v.to_value()) {
            Some(s) => trim(s.as_str()),
            None => String::new(),
        },
    }
}

/// The integer that a number or a text stands for.
pub fn value_to_i64(v: &Yaml) -> (res: Option<i64>)
    ensures
        res == v@.to_int(),
{
    match v {
        Yaml::Number(n) => match n.as_i64() {
            Some(i) => Some(i),
            None => match yaml_number_bits(n) {
                Some(bits) => Some(Real { bits }.trunc()),
                None => None,
            },
        },
        Yaml::Str(s) => parse_int(s.as_str()),
        _ => None,
    }
}

/// The double-precision number that a number or a text stands for.
pub fn value_to_f64(v: &Yaml) -> (res: Option<Real>)
    ensures
        res == v@.to_real(),
{
    match v {
        Yaml::Number(n) => match yaml_number_bits(n) {
            Some(bits) => Some(Real { bits }),
            None => None,
        },
        Yaml::Str(s) => parse_real(s.as_str()),
        _ => None,
    }
}

/// The JSON value for the double-precision number that a number or a text stands for, where it
/// stands for one.
pub fn value_to_float(v: &Yaml) -> (res: Option<Json>)
    ensures
        match res {
            Some(w) => v@.to_real() matches Some(x) && w@ == real_json(x),
            None => v@.to_real() is None,
        },
{
    match v {
        Yaml::Number(n) => match json_number_of_float(n) {
            Some(m) => Some(Json::Number(m)),
            None => Some(Json::Null),
        },
        Yaml::Str(s) => match parse_real(s.as_str()) {
            Some(_) => Some(Json::decimal(s.as_str())),
            None => None,
        },
        _ => None,
    }
}

/// The JSON value for a YAML value.
pub fn yaml_to_json(v: &Yaml) -> (res: Json)
    ensures
        v@.convertible() ==> res@ == v@.json(),
    decreases v,
{
    proof {
        lemma_yaml_views(*v);
    }
    match v {
        Yaml::Null => Json::Null,
        Yaml::Bool(b) => Json::Bool(*b),
        Yaml::Number(n) => {
            if let Some(i) = n.as_i64() {
                Json::integer(i)
            } else if let Some(u) = n.as_u64() {
                Json::Number(json_number_of_unsigned(u))
            } else {
                match json_number_of_float(n) {
                    Some(m) => Json::Number(m),
                    None => Json::Null,
                }
            }
        },
        Yaml::Str(s) => Json::Str(s.clone()),
        Yaml::Sequence(items) => {
            let ghost all = yaml_views(items@);
            let mut out: Vec<Json> = Vec::new();
            let mut i: usize = 0;
            while i < items.len()
                invariant
                    *v == Yaml::Sequence(*items),
                    v@ == YamlView::Sequence(all),
                    all == yaml_views(items@),
                    i <= items@.len(),
                    v@.convertible() ==> crate::json::json_views(out@) == json_items(all.take(i as int)),
                decreases items@.len() - i,
            {
                assert(decreases_to!(v => v->Sequence_0));
                assert(decreases_to!(items => items@[i as int]));
                proof {
                    reveal_with_fuel(YamlView::convertible, 2);
                    assert(v@.convertible() ==> all[i as int].convertible());
                }
                let ghost before = out@;
                let x = yaml_to_json(&items[i]);
                out.push(x);
                proof {
                    assert(all.take(i + 1).drop_last() == all.take(i as int));
                    assert(crate::json::json_views(out@) == crate::json::json_views(before).push(x@));
                }
                i += 1;
            }
            assert(all.take(i as int) == all);
            let res = Json::Array(out);
            proof {
                crate::json::lemma_views(res);
            }
            res
        },
        Yaml::Mapping(entries) => {
            let ghost all = pair_views(entries@);
            let mut out: Vec<(String, Json)> = Vec::new();
            let mut i: usize = 0;
            assert(crate::json::entry_views(out@) =~= Seq::empty());
            while i < entries.len()
                invariant
                    *v == Yaml::Mapping(*entries),
                    v@ == YamlView::Mapping(all),
                    all == pair_views(entries@),
                    i <= entries@.len(),
                    v@.convertible() ==> crate::json::entry_views(out@) == json_entries(
                        all.take(i as int),
                    ),
                decreases entries@.len() - i,
            {
                assert(decreases_to!(v => v->Mapping_0));
                assert(decreases_to!(entries => entries@[i as int]));
                assert(decreases_to!(entries@[i as int] => entries@[i as int].1));
                assert(v@.convertible() ==> all[i as int].0.regular() && all[i as int].1.convertible());
                let key = value_to_string(&entries[i].0);
                let x = yaml_to_json(&entries[i].1);
                out = insert(out, key.as_str(), x);
                assert(all.take(i + 1).drop_last() == all.take(i as int));
                i += 1;
            }
            assert(all.take(i as int) == all);
            let res = Json::Object(out);
            proof {
                crate::json::lemma_views(res);
            }
            res
        },
        Yaml::Tagged(_, inner) => {
            assert(decreases_to!(v => v->Tagged_1));
            yaml_to_json(inner)
        },
    }
}

/// The value under a key is that of the first entry whose key answers to it, behind any tags; nothing else
/// than a mapping has any.
pub proof fn law_first_key_counts(
    v: YamlView,
    entries: Seq<(YamlView, YamlView)>,
    key: KeyView,
    k: int,
)
    ensures
        v.untagged() == YamlView::Mapping(entries) && 0 <= k < entries.len() && key.answers(
            entries[k].0,
        ) && (forall|i: int| 0 <= i < k ==> !key.answers((#[trigger] entries[i]).0)) ==> v.find(key)
            == Some(entries[k].1),
        v.untagged() == YamlView::Mapping(entries) && (forall|i: int|
            0 <= i < entries.len() ==> !key.answers((#[trigger] entries[i]).0)) ==> v.find(key)
            is None,
        !(v.untagged() is Mapping) ==> v.find(key) is None,
{
    lemma_first_key(entries, key, k);
}

proof fn lemma_first_key(entries: Seq<(YamlView, YamlView)>, key: KeyView, k: int)
    ensures
        0 <= k < entries.len() && key.answers(entries[k].0) && (forall|i: int|
            0 <= i < k ==> !key.answers((#[trigger] entries[i]).0)) ==> find(entries, key) == Some(
            entries[k].1,
        ),
        (forall|i: int| 0 <= i < entries.len() ==> !key.answers((#[trigger] entries[i]).0)) ==> find(
            entries,
            key,
        ) is None,
    decreases entries.len(),
{
    if entries.len() > 0 && !key.answers(entries[0].0) {
        let rest = entries.skip(1);
        lemma_first_key(rest, key, k - 1);
        if 0 <= k < entries.len() && key.answers(entries[k].0) && (forall|i: int|
            0 <= i < k ==> !key.answers((#[trigger] entries[i]).0)) {
            assert(rest[k - 1] == entries[k]);
            assert forall|i: int| 0 <= i < k - 1 implies !key.answers((#[trigger] rest[i]).0) by {
                assert(!key.answers(entries[i + 1].0));
            }
        }
        if forall|i: int| 0 <= i < entries.len() ==> !key.answers((#[trigger] entries[i]).0) {
            assert forall|i: int| 0 <= i < rest.len() implies !key.answers(
                (#[trigger] rest[i]).0,
            ) by {
                assert(!key.answers(entries[i + 1].0));
            }
        }
    }
}

/// A member is the value under the text of its name, else under the integer that the name writes, else
/// under the number that it writes.
pub proof fn law_member_by_text_or_number(v: YamlView, name: Seq<char>, i: i64, x: Real)
    ensures
        v.find(KeyView::Str(name)) is Some ==> v.member(name) == v.find(KeyView::Str(name)),
        v.find(KeyView::Str(name)) is None && int_of_text(name) == Some(i) && v.find(
            KeyView::Int(i),
        ) is Some ==> v.member(name) == v.find(KeyView::Int(i)),
        v.find(KeyView::Str(name)) is None && (int_of_text(name) is None || v.find(
            KeyView::Int(int_of_text(name)->0),
        ) is None) && real_of_text(name) == Some(x) ==> v.member(name) == v.find(KeyView::Float(x)),
        v.find(KeyView::Str(name)) is None && int_of_text(name) is None && real_of_text(name) is None
            ==> v.member(name) is None,
{
}

/// What answers to a key: the same text, the same integer, or a number of the same rank.
pub proof fn law_keys_answer(s: Seq<char>, t: Seq<char>, i: i64, j: i64, x: Real, bits: u64)
    ensures
        KeyView::Str(s).answers(YamlView::Str(t)) == (s == t),
        KeyView::Int(i).answers(YamlView::Number(NumView::Int(j))) == (i == j),
        !x.nan() ==> KeyView::Float(x).answers(YamlView::Number(NumView::Float(bits))) == (!(Real {
            bits,
        }).nan() && x.rank() == (Real { bits }).rank()),
        !KeyView::Str(s).answers(YamlView::Number(NumView::Int(j))),
        !KeyView::Int(i).answers(YamlView::Str(t)),
{
}

/// What is read as a number: an integer as it is, of any other number its integral part, and what a text
/// writes; nothing else.
pub proof fn law_settings_are_read_as_numbers(v: YamlView, i: i64, n: NumView, s: Seq<char>)
    ensures
        YamlView::Number(NumView::Int(i)).to_int() == Some(i),
        !(n is Int) ==> YamlView::Number(n).to_int() == Some(num_real(n).whole() as i64),
        YamlView::Number(n).to_real() == Some(num_real(n)),
        YamlView::Str(s).to_int() == int_of_text(s),
        YamlView::Str(s).to_real() == real_of_text(s),
        !(v is Number) && !(v is Str) ==> v.to_int() is None && v.to_real() is None,
        YamlView::Str(s).plain() == s,
        YamlView::Null.plain().len() == 0,
        YamlView::Bool(true).plain() == "true"@,
        YamlView::Bool(false).plain() == "false"@,
        YamlView::Number(NumView::Int(i)).plain() == int_text(i as int),
{
}

/// Settings become values of the other kind part by part: a list item by item, a mapping entry by entry,
/// of which the last counts where names are written alike, and what is tagged without its tag.
pub proof fn law_settings_are_converted(
    items: Seq<YamlView>,
    item: YamlView,
    entries: Seq<(YamlView, YamlView)>,
    key: YamlView,
    tag: Seq<char>,
    s: Seq<char>,
    i: i64,
    b: bool,
)
    ensures
        YamlView::Null.json() == JsonView::Null,
        YamlView::Bool(b).json() == JsonView::Bool(b),
        YamlView::Str(s).json() == JsonView::Str(s),
        YamlView::Number(NumView::Int(i)).json() == JsonView::Number(NumView::Int(i)),
        i >= 0 ==> YamlView::Number(NumView::UInt(i as u64)).json() == JsonView::Number(
            NumView::Int(i),
        ),
        YamlView::Tagged(tag, Box::new(item)).json() == item.json(),
        json_items(Seq::empty()).len() == 0,
        json_items(items.push(item)) == json_items(items).push(item.json()),
        json_entries(Seq::empty()).len() == 0,
        json_entries(entries.push((key, item))) == put(
            json_entries(entries),
            key.plain(),
            item.json(),
        ),
        YamlView::Sequence(items).json() == JsonView::Array(json_items(items)),
        YamlView::Mapping(entries).json() == JsonView::Object(json_entries(entries)),
{
    assert(items.push(item).drop_last() =~= items);
    assert(entries.push((key, item)).drop_last() =~= entries);
}

} // verus!
