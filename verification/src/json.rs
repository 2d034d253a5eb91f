//! JSON values: reading their parts, building objects, and the way to and from text.

use crate::number::{
    exact_bits, int_bits, law_short_integers_are_exact, real_of_text, real_text_bits, short, Real,
};
use crate::text::{
    comes_before, concatenated, int_of_text, int_text, joined, own, parse_int, precedes, same, views,
};
use crate::select::{lemma_selected_next, lemma_selected_none, selected};
use vstd::prelude::*;

verus! {

/// What a JSON number holds: an integer of 64 bits, with or without sign, or the bits of a
/// double-precision number.
pub enum NumView {
    Int(i64),
    UInt(u64),
    Float(u64),
}

/// What a JSON value holds. The entries of an object stand in the order in which it is walked.
pub enum JsonView {
    Null,
    Bool(bool),
    Number(NumView),
    Str(Seq<char>),
    Array(Seq<JsonView>),
    Object(Seq<(Seq<char>, JsonView)>),
}

/// A JSON value.
#[derive(Debug)]
pub enum Json {
    Null,
    Bool(bool),
    Number(serde_json::Number),
    Str(String),
    Array(Vec<Json>),
    Object(Vec<(String, Json)>),
}

/// `serde_json`'s numbers.
#[verifier::external_type_specification]
#[verifier::external_body]
pub struct ExJsonNumber(serde_json::Number);

/// `serde_json`'s values.
#[verifier::external_type_specification]
#[verifier::external_body]
pub struct ExJsonValue(serde_json::Value);

/// What a `serde_json::Number` holds. It is an integer with sign wherever it fits one.
pub uninterp spec fn number_view(n: serde_json::Number) -> NumView;

/// What a `serde_json::Value` holds.
pub uninterp spec fn value_view(v: serde_json::Value) -> JsonView;

/// The double-precision number nearest to a JSON number.
pub open spec fn num_real(n: NumView) -> Real {
    match n {
        NumView::Int(i) => Real { bits: int_bits(i as int) },
        NumView::UInt(u) => Real { bits: int_bits(u as int) },
        NumView::Float(bits) => Real { bits },
    }
}

/// The text of a JSON value, without any space.
pub uninterp spec fn json_text(v: JsonView) -> Seq<char>;

/// The JSON value that a text stands for, where it stands for one.
pub uninterp spec fn json_of_text(s: Seq<char>) -> Option<JsonView>;

/// The bytes of a JSON value, each item and entry on a line of its own, where it can be written.
pub uninterp spec fn json_pretty(v: JsonView) -> Option<Seq<u8>>;

/// The JSON value that bytes stand for, where they stand for one.
pub uninterp spec fn json_of_bytes(b: Seq<u8>) -> Option<JsonView>;

/// `serde_json::Number::as_i64`: the number, where it fits 64 bits with sign.
pub assume_specification[ serde_json::Number::as_i64 ](n: &serde_json::Number) -> (res: Option<i64>)
    ensures
        res == (match number_view(*n) {
            NumView::Int(i) => Some(i),
            _ => None,
        }),
;

/// `serde_json::Number::as_u64`: the number, where it fits 64 bits without sign.
pub assume_specification[ serde_json::Number::as_u64 ](n: &serde_json::Number) -> (res: Option<u64>)
    ensures
        res == (match number_view(*n) {
            NumView::Int(i) => if i >= 0 {
                Some(i as u64)
            } else {
                None
            },
            NumView::UInt(u) => Some(u),
            NumView::Float(_) => None,
        }),
;

/// `serde_json::Number`'s `Clone`: an equal number.
pub assume_specification[ <serde_json::Number as Clone>::clone ](n: &serde_json::Number) -> (res:
    serde_json::Number)
    ensures
        res == *n,
;

/// `serde_json::Number::as_f64`, by its bits: the number itself where it is double-precision, or an
/// integer of at most 53 bits, else the double-precision number nearest to the integer, and of two as
/// near the even one.
#[verifier::external_body]
fn number_bits(n: &serde_json::Number) -> (res: Option<u64>)
    ensures
        match number_view(*n) {
            NumView::Int(i) => res == Some(int_bits(i as int)),
            NumView::UInt(u) => res == Some(int_bits(u as int)),
            NumView::Float(bits) => res == Some(bits),
        },
{
    n.as_f64().map(|x| x.to_bits())
}

/// `serde_json::Number::from_f64` on what `as_f64` gives: the number as a double-precision one.
#[verifier::external_body]
fn number_as_float(n: &serde_json::Number) -> (res: Option<serde_json::Number>)
    ensures
        res is Some,
        number_view(res->0) == NumView::Float(num_real(number_view(*n)).bits),
{
    n.as_f64().and_then(serde_json::Number::from_f64)
}

/// `serde_json::Number`'s `From<i64>`: the integer.
#[verifier::external_body]
fn number_of_int(i: i64) -> (res: serde_json::Number)
    ensures
        number_view(res) == NumView::Int(i),
{
    serde_json::Number::from(i)
}

/// std's `str::parse` for the type that `serde_json::Number::from_f64` takes, and that function: the
/// bits of the double-precision number nearest to what the text stands for, where it stands for a
/// number, and the JSON number for it, where it is finite. The grammar of such texts is std's.
#[verifier::external_body]
pub(crate) fn read_decimal(s: &str) -> (res: Option<(u64, Option<serde_json::Number>)>)
    ensures
        match real_text_bits(s@) {
            Some(bits) => {
                &&& res matches Some(r)
                &&& r.0 == bits
                &&& if (Real { bits }).exponent() == 2047 {
                    r.1 is None
                } else {
                    r.1 matches Some(n) && number_view(n) == NumView::Float(bits)
                }
            },
            None => res is None,
        },
{
    let parsed = s.parse().ok()?;
    let number = serde_json::Number::from_f64(parsed);
    Some((parsed.to_bits(), number))
}

/// One level of a `serde_json::Value`.
enum Layer {
    Null,
    Bool(bool),
    Number(serde_json::Number),
    Str(String),
    Array(Vec<serde_json::Value>),
    Object(Vec<(String, serde_json::Value)>),
}

/// The variants of `serde_json::Value`, told apart; an object's entries come in the order of its
/// keys, each key once.
#[verifier::external_body]
fn open_value(v: serde_json::Value) -> (res: Layer)
    ensures
        match value_view(v) {
            JsonView::Null => res is Null,
            JsonView::Bool(b) => res == Layer::Bool(b),
            JsonView::Number(n) => res matches Layer::Number(m) && number_view(m) == n,
            JsonView::Str(s) => res matches Layer::Str(t) && t@ == s,
            JsonView::Array(s) => {
                &&& res matches Layer::Array(t)
                &&& t@.len() == s.len()
                &&& forall|i: int| 0 <= i < s.len() ==> value_view(#[trigger] t@[i]) == s[i]
            },
            JsonView::Object(s) => {
                &&& sorted(s)
                &&& res matches Layer::Object(t)
                &&& t@.len() == s.len()
                &&& forall|i: int|
                    0 <= i < s.len() ==> (#[trigger] t@[i]).0@ == s[i].0 && value_view(t@[i].1)
                        == s[i].1
            },
        },
{
    match v {
        serde_json::Value::Null => Layer::Null,
        serde_json::Value::Bool(b) => Layer::Bool(b),
        serde_json::Value::Number(n) => Layer::Number(n),
        serde_json::Value::String(s) => Layer::Str(s),
        serde_json::Value::Array(a) => Layer::Array(a),
        serde_json::Value::Object(m) => Layer::Object(m.into_iter().collect()),
    }
}

/// The variants of `serde_json::Value`, built; the entries of an object are inserted one after the
/// other, which keeps it in the order of its keys and lets a later entry replace an earlier one.
#[verifier::external_body]
fn close_value(layer: Layer) -> (res: serde_json::Value)
    ensures
        match layer {
            Layer::Null => value_view(res) is Null,
            Layer::Bool(b) => value_view(res) == JsonView::Bool(b),
            Layer::Number(n) => value_view(res) == JsonView::Number(number_view(n)),
            Layer::Str(s) => value_view(res) == JsonView::Str(s@),
            Layer::Array(t) => value_view(res) == JsonView::Array(
                t@.map_values(|v: serde_json::Value| value_view(v)),
            ),
            Layer::Object(t) => value_view(res) == JsonView::Object(
                put_all(t@.map_values(|e: (String, serde_json::Value)| (e.0@, value_view(e.1)))),
            ),
        },
{
    match layer {
        Layer::Null => serde_json::Value::Null,
        Layer::Bool(b) => serde_json::Value::Bool(b),
        Layer::Number(n) => serde_json::Value::Number(n),
        Layer::Str(s) => serde_json::Value::String(s),
        Layer::Array(a) => serde_json::Value::Array(a),
        Layer::Object(m) => serde_json::Value::Object(m.into_iter().collect()),
    }
}

/// `serde_json::from_str`: the value that the text stands for.
#[verifier::external_body]
fn parse_value(s: &str) -> (res: Option<serde_json::Value>)
    ensures
        match res {
            Some(v) => json_of_text(s@) == Some(value_view(v)),
            None => json_of_text(s@) is None,
        },
{
    serde_json::from_str(s).ok()
}

/// `serde_json::Value`'s `Display`: the text of the value, without any space. It is written from the
/// texts of its parts; of a double-precision number that is no integer, or a great one, only the name of
/// its text is said.
#[verifier::external_body]
fn value_text(v: &serde_json::Value) -> (res: String)
    ensures
        res@ == json_text(value_view(*v)),
        res@ == value_view(*v).written(),
{
    v.to_string()
}

/// `serde_json::from_slice`: the value that the bytes stand for.
#[verifier::external_body]
fn value_of_bytes(b: &Vec<u8>) -> (res: Option<serde_json::Value>)
    ensures
        match res {
            Some(v) => json_of_bytes(b@) == Some(value_view(v)),
            None => json_of_bytes(b@) is None,
        },
{
    serde_json::from_slice(b).ok()
}

/// `serde_json::to_vec_pretty`: the bytes of the value, which can always be written. `from_slice` reads
/// it back with each double-precision number as it is read from its own text, unless it is too deep or
/// one of these texts is refused, as it may be only for numbers from two to the power of 1023 on; then
/// it reads nothing. A durable value is read back just as it was.
#[verifier::external_body]
fn bytes_of_value(v: &serde_json::Value) -> (res: Option<Vec<u8>>)
    ensures
        res is Some,
        json_pretty(value_view(*v)) == Some(res->0@),
        json_of_bytes(res->0@) == (if value_view(*v).legible(127) {
            Some(value_view(*v).reread())
        } else {
            None
        }),
        value_view(*v).modest(127) ==> json_of_bytes(res->0@) is Some,
        value_view(*v).durable(127) ==> json_of_bytes(res->0@) == Some(value_view(*v)),
{
    serde_json::to_vec_pretty(v).ok()
}

/// The bits of a double-precision number as they are read from the text that is written for it.
pub open spec fn reread_bits(bits: u64) -> u64 {
    match json_of_text(json_text(JsonView::Number(NumView::Float(bits)))) {
        Some(JsonView::Number(NumView::Float(b))) => b,
        _ => bits,
    }
}

/// Whether the bits are those of an integer that, with one more decimal digit, has at most 53 bits.
pub open spec fn round_bits(bits: u64) -> bool {
    let i = Real { bits }.whole();
    -900719925474099 <= i <= 900719925474099 && bits == exact_bits(i)
}

/// The JSON value for a double-precision number: null where it is not finite.
pub open spec fn real_json(x: Real) -> JsonView {
    if x.exponent() == 2047 {
        JsonView::Null
    } else {
        JsonView::Number(NumView::Float(x.bits))
    }
}

/// The digit for a number below sixteen.
pub open spec fn hex_digit(n: u32) -> char {
    if n < 10 {
        (n + 0x30) as char
    } else {
        (n + 0x57) as char
    }
}

/// A character as it stands in the text of a text.
pub open spec fn escaped(c: char) -> Seq<char> {
    if c == '"' || c == '\\' {
        seq!['\\', c]
    } else if c == '\u{8}' {
        seq!['\\', 'b']
    } else if c == '\u{c}' {
        seq!['\\', 'f']
    } else if c == '\n' {
        seq!['\\', 'n']
    } else if c == '\r' {
        seq!['\\', 'r']
    } else if c == '\t' {
        seq!['\\', 't']
    } else if 0x20 > c as u32 {
        let n: u32 = c as u32;
        seq!['\\', 'u', '0', '0', hex_digit(n / 16), hex_digit(n % 16)]
    } else {
        seq![c]
    }
}

/// The text of a text: in quotation marks, each character as it stands there.
pub open spec fn quoted(s: Seq<char>) -> Seq<char> {
    "\""@ + concatenated(s.map_values(|c: char| escaped(c))) + "\""@
}

/// Whether the keys of `entries` stand in their order, each once.
pub open spec fn sorted(entries: Seq<(Seq<char>, JsonView)>) -> bool {
    forall|i: int, j: int|
        0 <= i < j < entries.len() ==> precedes(
            (#[trigger] entries[i]).0,
            (#[trigger] entries[j]).0,
        )
}

/// The value of the first entry with this key.
pub open spec fn lookup(entries: Seq<(Seq<char>, JsonView)>, key: Seq<char>) -> Option<JsonView>
    decreases entries.len(),
{
    if entries.len() == 0 {
        None
    } else if entries[0].0 == key {
        Some(entries[0].1)
    } else {
        lookup(entries.skip(1), key)
    }
}

/// `entries` with the value of `key` set: in place of the entry that has this key, or before the
/// first entry with a greater one.
pub open spec fn put(
    entries: Seq<(Seq<char>, JsonView)>,
    key: Seq<char>,
    value: JsonView,
) -> Seq<(Seq<char>, JsonView)>
    decreases entries.len(),
{
    if entries.len() == 0 {
        seq![(key, value)]
    } else if entries[0].0 == key {
        seq![(key, value)] + entries.skip(1)
    } else if precedes(key, entries[0].0) {
        seq![(key, value)] + entries
    } else {
        seq![entries[0]] + put(entries.skip(1), key, value)
    }
}

/// The object that comes of setting each entry in turn.
pub open spec fn put_all(entries: Seq<(Seq<char>, JsonView)>) -> Seq<(Seq<char>, JsonView)>
    decreases entries.len(),
{
    if entries.len() == 0 {
        Seq::empty()
    } else {
        put(put_all(entries.drop_last()), entries.last().0, entries.last().1)
    }
}

/// Each item as [`JsonView::canonical`] has it.
pub open spec fn canonical_items(items: Seq<JsonView>) -> Seq<JsonView>
    decreases items,
{
    if items.len() == 0 {
        Seq::empty()
    } else {
        canonical_items(items.drop_last()).push(items.last().canonical())
    }
}

/// Each entry with its value as [`JsonView::canonical`] has it.
pub open spec fn canonical_entries(entries: Seq<(Seq<char>, JsonView)>) -> Seq<
    (Seq<char>, JsonView),
>
    decreases entries,
{
    if entries.len() == 0 {
        Seq::empty()
    } else {
        canonical_entries(entries.drop_last()).push(
            (entries.last().0, entries.last().1.canonical()),
        )
    }
}

impl JsonView {
    /// The value with each object's entries in the order of their keys, each key once.
    pub open spec fn canonical(self) -> JsonView
        decreases self,
    {
        match self {
            JsonView::Array(items) => JsonView::Array(canonical_items(items)),
            JsonView::Object(entries) => JsonView::Object(put_all(canonical_entries(entries))),
            _ => self,
        }
    }

    /// Whether each object, at every depth, has its entries in the order of their keys, each key
    /// once.
    pub open spec fn tidy(self) -> bool
        decreases self,
    {
        match self {
            JsonView::Array(items) => forall|i: int|
                0 <= i < items.len() ==> (#[trigger] items[i]).tidy(),
            JsonView::Object(entries) => sorted(entries) && forall|i: int|
                0 <= i < entries.len() ==> (#[trigger] entries[i]).1.tidy(),
            _ => true,
        }
    }

    /// The value with each double-precision number as it is read from its own text.
    pub open spec fn reread(self) -> JsonView
        decreases self,
    {
        match self {
            JsonView::Number(NumView::Float(bits)) => JsonView::Number(
                NumView::Float(reread_bits(bits)),
            ),
            JsonView::Array(items) => JsonView::Array(
                Seq::new(
                    items.len(),
                    |i: int|
                        if 0 <= i < items.len() {
                            items[i].reread()
                        } else {
                            JsonView::Null
                        },
                ),
            ),
            JsonView::Object(entries) => JsonView::Object(
                Seq::new(
                    entries.len(),
                    |i: int|
                        if 0 <= i < entries.len() {
                            (entries[i].0, entries[i].1.reread())
                        } else {
                            (Seq::empty(), JsonView::Null)
                        },
                ),
            ),
            _ => self,
        }
    }

    /// Whether the value goes at most `depth` levels deep and the text of each double-precision number
    /// in it is read as one.
    pub open spec fn legible(self, depth: int) -> bool
        decreases self,
    {
        match self {
            JsonView::Number(NumView::Float(bits)) => json_of_text(json_text(self)) matches Some(
                JsonView::Number(NumView::Float(_)),
            ),
            JsonView::Array(items) => depth > 0 && forall|i: int|
                0 <= i < items.len() ==> (#[trigger] items[i]).legible(depth - 1),
            JsonView::Object(entries) => depth > 0 && forall|i: int|
                0 <= i < entries.len() ==> (#[trigger] entries[i]).1.legible(depth - 1),
            _ => true,
        }
    }

    /// Whether the value goes at most `depth` levels deep and holds no double-precision number from
    /// two to the power of 1023 on.
    pub open spec fn modest(self, depth: int) -> bool
        decreases self,
    {
        match self {
            JsonView::Number(NumView::Float(bits)) => Real { bits }.exponent() <= 2045,
            JsonView::Array(items) => depth > 0 && forall|i: int|
                0 <= i < items.len() ==> (#[trigger] items[i]).modest(depth - 1),
            JsonView::Object(entries) => depth > 0 && forall|i: int|
                0 <= i < entries.len() ==> (#[trigger] entries[i]).1.modest(depth - 1),
            _ => true,
        }
    }

    /// Whether the value goes at most `depth` levels deep and each double-precision number in it is
    /// an integer that is not too great.
    pub open spec fn durable(self, depth: int) -> bool
        decreases self,
    {
        match self {
            JsonView::Number(NumView::Float(bits)) => round_bits(bits),
            JsonView::Array(items) => depth > 0 && forall|i: int|
                0 <= i < items.len() ==> (#[trigger] items[i]).durable(depth - 1),
            JsonView::Object(entries) => depth > 0 && forall|i: int|
                0 <= i < entries.len() ==> (#[trigger] entries[i]).1.durable(depth - 1),
            _ => true,
        }
    }

    /// The text of the value, without any space.
    pub open spec fn written(self) -> Seq<char>
        decreases self,
    {
        match self {
            JsonView::Null => "null"@,
            JsonView::Bool(b) => if b {
                "true"@
            } else {
                "false"@
            },
            JsonView::Number(NumView::Int(i)) => int_text(i as int),
            JsonView::Number(NumView::UInt(u)) => int_text(u as int),
            JsonView::Number(NumView::Float(bits)) => if round_bits(bits) {
                int_text(Real { bits }.whole()) + ".0"@
            } else {
                json_text(self)
            },
            JsonView::Str(s) => quoted(s),
            JsonView::Array(items) => "["@ + joined(
                Seq::new(
                    items.len(),
                    |i: int|
                        if 0 <= i < items.len() {
                            items[i].written()
                        } else {
                            Seq::empty()
                        },
                ),
                ","@,
            ) + "]"@,
            JsonView::Object(entries) => "{"@ + joined(
                Seq::new(
                    entries.len(),
                    |i: int|
                        if 0 <= i < entries.len() {
                            quoted(entries[i].0) + ":"@ + entries[i].1.written()
                        } else {
                            Seq::empty()
                        },
                ),
                ","@,
            ) + "}"@,
        }
    }

    /// The value that an object has under `key`.
    pub open spec fn get(self, key: Seq<char>) -> Option<JsonView> {
        match self {
            JsonView::Object(entries) => lookup(entries, key),
            _ => None,
        }
    }

    /// The text, where the value is one.
    pub open spec fn as_str(self) -> Option<Seq<char>> {
        match self {
            JsonView::Str(s) => Some(s),
            _ => None,
        }
    }

    /// The items, where the value is an array.
    pub open spec fn as_array(self) -> Option<Seq<JsonView>> {
        match self {
            JsonView::Array(items) => Some(items),
            _ => None,
        }
    }

    /// The text that an object has under `key`.
    pub open spec fn get_str(self, key: Seq<char>) -> Option<Seq<char>> {
        match self.get(key) {
            Some(v) => v.as_str(),
            None => None,
        }
    }

    /// The text that an object has under `key`, or the empty one.
    pub open spec fn str_or_empty(self, key: Seq<char>) -> Seq<char> {
        match self.get_str(key) {
            Some(s) => s,
            None => Seq::empty(),
        }
    }

    /// The texts in the array that an object has under `key`.
    pub open spec fn strings(self, key: Seq<char>) -> Seq<Seq<char>> {
        match self.get(key) {
            Some(JsonView::Array(items)) => strings_of(items),
            _ => Seq::empty(),
        }
    }

    /// The integer of a number that is one; one without sign that does not fit wraps around.
    pub open spec fn as_int(self) -> Option<i64> {
        match self {
            JsonView::Number(NumView::Int(i)) => Some(i),
            JsonView::Number(NumView::UInt(u)) => Some(wrapped(u)),
            _ => None,
        }
    }

    /// The integer that a number or a text stands for: of a number that is none, its integral part.
    pub open spec fn to_int(self) -> Option<i64> {
        match self {
            JsonView::Number(NumView::Float(bits)) => Some(Real { bits }.whole() as i64),
            JsonView::Number(_) => self.as_int(),
            JsonView::Str(s) => int_of_text(s),
            _ => None,
        }
    }

    /// The double-precision number nearest to a number.
    pub open spec fn as_real(self) -> Option<Real> {
        match self {
            JsonView::Number(n) => Some(num_real(n)),
            _ => None,
        }
    }
}

/// The texts among the items.
pub open spec fn strings_of(items: Seq<JsonView>) -> Seq<Seq<char>>
    decreases items.len(),
{
    if items.len() == 0 {
        Seq::empty()
    } else {
        match items.last() {
            JsonView::Str(s) => strings_of(items.drop_last()).push(s),
            _ => strings_of(items.drop_last()),
        }
    }
}

/// The integer with sign that has the same bits.
pub open spec fn wrapped(u: u64) -> i64 {
    if u > i64::MAX {
        (u - 0x1_0000_0000_0000_0000) as i64
    } else {
        u as i64
    }
}

impl View for Json {
    type V = JsonView;

    open spec fn view(&self) -> JsonView
        decreases self,
    {
        match self {
            Json::Null => JsonView::Null,
            Json::Bool(b) => JsonView::Bool(*b),
            Json::Number(n) => JsonView::Number(number_view(*n)),
            Json::Str(s) => JsonView::Str(s@),
            Json::Array(items) => JsonView::Array(
                Seq::new(
                    items@.len(),
                    |i: int|
                        if 0 <= i < items@.len() {
                            items@[i].view()
                        } else {
                            JsonView::Null
                        },
                ),
            ),
            Json::Object(entries) => JsonView::Object(
                Seq::new(
                    entries@.len(),
                    |i: int|
                        if 0 <= i < entries@.len() {
                            (entries@[i].0@, entries@[i].1.view())
                        } else {
                            (Seq::empty(), JsonView::Null)
                        },
                ),
            ),
        }
    }
}

/// The values of a list of texts.
pub open spec fn text_values(items: Seq<Seq<char>>) -> Seq<JsonView> {
    items.map_values(|s: Seq<char>| JsonView::Str(s))
}

/// The views of a list of values.
pub open spec fn json_views(items: Seq<Json>) -> Seq<JsonView> {
    items.map_values(|v: Json| v@)
}

/// The views of a list of entries.
pub open spec fn entry_views(entries: Seq<(String, Json)>) -> Seq<(Seq<char>, JsonView)> {
    entries.map_values(|e: (String, Json)| (e.0@, e.1@))
}

/// The view of an array holds the views of its items, and the view of an object those of its
/// entries.
pub proof fn lemma_views(v: Json)
    ensures
        v matches Json::Array(items) ==> v@ == JsonView::Array(json_views(items@)),
        v matches Json::Object(entries) ==> v@ == JsonView::Object(entry_views(entries@)),
{
    match v {
        Json::Array(items) => {
            reveal_with_fuel(<Json as View>::view, 2);
            assert forall|i: int| 0 <= i < items@.len() implies #[trigger] v@->Array_0[i] == json_views(items@)[i] by {
                assert(v@->Array_0[i] == items@[i]@);
            }
            assert(v@->Array_0 =~= json_views(items@));
        },
        Json::Object(entries) => {
            reveal_with_fuel(<Json as View>::view, 2);
            assert forall|i: int| 0 <= i < entries@.len() implies #[trigger] v@->Object_0[i] == entry_views(entries@)[i] by {
                assert(v@->Object_0[i] == (entries@[i].0@, entries@[i].1@));
            }
            assert(v@->Object_0 =~= entry_views(entries@));
        },
        _ => {},
    }
}

impl Json {
    /// The library's value for a `serde_json` value.
    pub fn from_value(v: serde_json::Value) -> (res: Json)
        ensures
            res@ == value_view(v),
            res@.tidy(),
        decreases value_view(v),
    {
        match open_value(v) {
            Layer::Null => Json::Null,
            Layer::Bool(b) => Json::Bool(b),
            Layer::Number(n) => Json::Number(n),
            Layer::Str(s) => Json::Str(s),
            Layer::Array(values) => {
                let ghost all = value_view(v)->Array_0;
                let ghost orig = values@;
                let mut rest = values;
                let mut out: Vec<Json> = Vec::new();
                while rest.len() > 0
                    invariant
                        value_view(v) == JsonView::Array(all),
                        orig.len() == all.len(),
                        forall|i: int| 0 <= i < orig.len() ==> value_view(#[trigger] orig[i]) == all[i],
                        out@.len() + rest@.len() == orig.len(),
                        rest@ == orig.skip(out@.len() as int),
                        forall|i: int| 0 <= i < out@.len() ==> (#[trigger] out@[i])@ == all[i],
                        forall|i: int| 0 <= i < out@.len() ==> (#[trigger] all[i]).tidy(),
                    decreases rest.len(),
                {
                    let ghost k = out@.len() as int;
                    let x = rest.remove(0);
                    assert(x == orig[k]);
                    assert(decreases_to!(value_view(v) => value_view(v)->Array_0));
                    assert(decreases_to!(all => all[k]));
                    out.push(Json::from_value(x));
                }
                let res = Json::Array(out);
                assert(res@->Array_0 =~= all);
                res
            },
            Layer::Object(values) => {
                let ghost all = value_view(v)->Object_0;
                let ghost orig = values@;
                let mut rest = values;
                let mut out: Vec<(String, Json)> = Vec::new();
                while rest.len() > 0
                    invariant
                        value_view(v) == JsonView::Object(all),
                        orig.len() == all.len(),
                        forall|i: int|
                            0 <= i < orig.len() ==> (#[trigger] orig[i]).0@ == all[i].0
                                && value_view(orig[i].1) == all[i].1,
                        out@.len() + rest@.len() == orig.len(),
                        rest@ == orig.skip(out@.len() as int),
                        forall|i: int|
                            0 <= i < out@.len() ==> (#[trigger] out@[i]).0@ == all[i].0 && out@[i].1@
                                == all[i].1,
                        forall|i: int| 0 <= i < out@.len() ==> (#[trigger] all[i]).1.tidy(),
                    decreases rest.len(),
                {
                    let ghost k = out@.len() as int;
                    let (key, x) = rest.remove(0);
                    assert(orig[k] == (key, x));
                    assert(decreases_to!(value_view(v) => value_view(v)->Object_0));
                    assert(decreases_to!(all => all[k]));
                    assert(decreases_to!(all[k] => all[k].1));
                    out.push((key, Json::from_value(x)));
                }
                let res = Json::Object(out);
                assert(res@->Object_0 =~= all);
                res
            },
        }
    }

    /// The `serde_json` value for a value of the library, its objects in the order of their keys.
    pub fn to_value(&self) -> (res: serde_json::Value)
        ensures
            value_view(res) == self@.canonical(),
        decreases self,
    {
        match self {
            Json::Null => close_value(Layer::Null),
            Json::Bool(b) => close_value(Layer::Bool(*b)),
            Json::Number(n) => close_value(Layer::Number(n.clone())),
            Json::Str(s) => close_value(Layer::Str(s.clone())),
            Json::Array(items) => {
                let mut out: Vec<serde_json::Value> = Vec::new();
                let ghost all = json_views(items@);
                let mut i: usize = 0;
                while i < items.len()
                    invariant
                        *self == Json::Array(*items),
                        all == json_views(items@),
                        i <= items@.len(),
                        out@.map_values(|v: serde_json::Value| value_view(v)) == canonical_items(
                            all.take(i as int),
                        ),
                    decreases items@.len() - i,
                {
                    assert(decreases_to!(self => self->Array_0));
                    assert(decreases_to!(items => items@[i as int]));
                    let ghost before = out@;
                    let x = items[i].to_value();
                    out.push(x);
                    proof {
                        assert(all.take(i + 1).drop_last() == all.take(i as int));
                        assert(out@.map_values(|v: serde_json::Value| value_view(v))
                            == before.map_values(|v: serde_json::Value| value_view(v)).push(
                            value_view(x),
                        ));
                    }
                    i += 1;
                }
                proof {
                    lemma_views(*self);
                    assert(all.take(i as int) == all);
                }
                close_value(Layer::Array(out))
            },
            Json::Object(entries) => {
                let mut out: Vec<(String, serde_json::Value)> = Vec::new();
                let ghost all = entry_views(entries@);
                let mut i: usize = 0;
                while i < entries.len()
                    invariant
                        *self == Json::Object(*entries),
                        all == entry_views(entries@),
                        i <= entries@.len(),
                        out@.map_values(|e: (String, serde_json::Value)| (e.0@, value_view(e.1)))
                            == canonical_entries(all.take(i as int)),
                    decreases entries@.len() - i,
                {
                    assert(decreases_to!(self => self->Object_0));
                    assert(decreases_to!(entries => entries@[i as int]));
                    assert(decreases_to!(entries@[i as int] => entries@[i as int].1));
                    let ghost before = out@;
                    let key = entries[i].0.clone();
                    let x = entries[i].1.to_value();
                    out.push((key, x));
                    proof {
                        assert(all.take(i + 1).drop_last() == all.take(i as int));
                        assert(out@.map_values(
                            |e: (String, serde_json::Value)| (e.0@, value_view(e.1)),
                        ) == before.map_values(
                            |e: (String, serde_json::Value)| (e.0@, value_view(e.1)),
                        ).push((key@, value_view(x))));
                    }
                    i += 1;
                }
                proof {
                    lemma_views(*self);
                    assert(all.take(i as int) == all);
                }
                close_value(Layer::Object(out))
            },
        }
    }

    /// An equal value.
    pub fn copy(&self) -> (res: Json)
        ensures
            res@ == self@,
        decreases self,
    {
        match self {
            Json::Null => Json::Null,
            Json::Bool(b) => Json::Bool(*b),
            Json::Number(n) => Json::Number(n.clone()),
            Json::Str(s) => Json::Str(s.clone()),
            Json::Array(items) => {
                let mut out: Vec<Json> = Vec::new();
                let mut i: usize = 0;
                while i < items.len()
                    invariant
                        *self == Json::Array(*items),
                        i <= items@.len(),
                        out@.len() == i,
                        forall|j: int| 0 <= j < i ==> (#[trigger] out@[j])@ == items@[j]@,
                    decreases items@.len() - i,
                {
                    assert(decreases_to!(self => self->Array_0));
                    assert(decreases_to!(items => items@[i as int]));
                    out.push(items[i].copy());
                    i += 1;
                }
                let res = Json::Array(out);
                proof {
                    lemma_views(*self);
                    lemma_views(res);
                    assert(json_views(res->Array_0@) =~= json_views(items@));
                }
                res
            },
            Json::Object(entries) => {
                let mut out: Vec<(String, Json)> = Vec::new();
                let mut i: usize = 0;
                while i < entries.len()
                    invariant
                        *self == Json::Object(*entries),
                        i <= entries@.len(),
                        out@.len() == i,
                        forall|j: int|
                            0 <= j < i ==> (#[trigger] out@[j]).0@ == entries@[j].0@ && out@[j].1@
                                == entries@[j].1@,
                    decreases entries@.len() - i,
                {
                    assert(decreases_to!(self => self->Object_0));
                    assert(decreases_to!(entries => entries@[i as int]));
                    assert(decreases_to!(entries@[i as int] => entries@[i as int].1));
                    out.push((entries[i].0.clone(), entries[i].1.copy()));
                    i += 1;
                }
                let res = Json::Object(out);
                proof {
                    lemma_views(*self);
                    lemma_views(res);
                    assert(entry_views(res->Object_0@) =~= entry_views(entries@));
                }
                res
            },
        }
    }

    /// The number of an integer.
    pub fn integer(i: i64) -> (res: Json)
        ensures
            res@ == JsonView::Number(NumView::Int(i)),
    {
        Json::Number(number_of_int(i))
    }

    /// The value of a text.
    pub fn str(s: &str) -> (res: Json)
        ensures
            res@ == JsonView::Str(s@),
    {
        Json::Str(own(s))
    }

    /// The double-precision number that a text stands for; null where it stands for none, or for
    /// one that is not finite.
    pub fn decimal(s: &str) -> (res: Json)
        ensures
            res@ == (match real_of_text(s@) {
                Some(x) => real_json(x),
                None => JsonView::Null,
            }),
    {
        match read_decimal(s) {
            Some((_, Some(n))) => Json::Number(n),
            _ => Json::Null,
        }
    }

    /// An integer as a double-precision number.
    pub fn whole(i: i64) -> (res: Json)
        ensures
            res@ == JsonView::Number(NumView::Float(int_bits(i as int))),
    {
        match number_as_float(&number_of_int(i)) {
            Some(n) => Json::Number(n),
            None => Json::Null,
        }
    }

    /// The array of the items.
    pub fn array(items: Vec<Json>) -> (res: Json)
        ensures
            res@ == JsonView::Array(json_views(items@)),
    {
        let res = Json::Array(items);
        proof {
            lemma_views(res);
        }
        res
    }

    /// The object of the entries.
    pub fn object(entries: Vec<(String, Json)>) -> (res: Json)
        ensures
            res@ == JsonView::Object(entry_views(entries@)),
    {
        let res = Json::Object(entries);
        proof {
            lemma_views(res);
        }
        res
    }

    /// The array of the texts.
    pub fn texts(items: &Vec<String>) -> (res: Json)
        ensures
            res@ == JsonView::Array(text_values(views(items@))),
    {
        let mut out: Vec<Json> = Vec::new();
        let mut i: usize = 0;
        while i < items.len()
            invariant
                i <= items@.len(),
                out@.len() == i,
                forall|j: int| 0 <= j < i ==> (#[trigger] out@[j])@ == JsonView::Str(items@[j]@),
            decreases items@.len() - i,
        {
            out.push(Json::str(items[i].as_str()));
            i += 1;
        }
        assert(json_views(out@) =~= text_values(views(items@)));
        Json::array(out)
    }

    /// The value that bytes stand for, where they stand for one.
    pub fn from_bytes(b: &Vec<u8>) -> (res: Option<Json>)
        ensures
            match res {
                Some(v) => json_of_bytes(b@) == Some(v@) && v@.tidy(),
                None => json_of_bytes(b@) is None,
            },
    {
        match value_of_bytes(b) {
            Some(v) => Some(Json::from_value(v)),
            None => None,
        }
    }

    /// The bytes of the value, each item and entry on a line of its own.
    pub fn to_bytes(&self) -> (res: Vec<u8>)
        ensures
            json_pretty(self@.canonical()) == Some(res@),
            json_of_bytes(res@) == (if self@.canonical().legible(127) {
                Some(self@.canonical().reread())
            } else {
                None
            }),
            self@.canonical().modest(127) ==> json_of_bytes(res@) is Some,
            self@.canonical().durable(127) ==> json_of_bytes(res@) == Some(self@.canonical()),
    {
        match bytes_of_value(&self.to_value()) {
            Some(b) => b,
            None => Vec::new(),
        }
    }

    /// The value that a text stands for, where it stands for one.
    pub fn parse(s: &str) -> (res: Option<Json>)
        ensures
            match res {
                Some(v) => json_of_text(s@) == Some(v@) && v@.tidy(),
                None => json_of_text(s@) is None,
            },
    {
        match parse_value(s) {
            Some(v) => Some(Json::from_value(v)),
            None => None,
        }
    }

    /// The text of the value, without any space.
    pub fn text(&self) -> (res: String)
        ensures
            res@ == self@.canonical().written(),
    {
        value_text(&self.to_value())
    }

    /// Whether this is `null`.
    pub fn is_null(&self) -> (res: bool)
        ensures
            res == (self@ is Null),
    {
        match self {
            Json::Null => true,
            _ => false,
        }
    }

    /// The value that an object has under `key`.
    pub fn get(&self, key: &str) -> (res: Option<&Json>)
        ensures
            match res {
                Some(v) => self@.get(key@) == Some(v@),
                None => self@.get(key@) is None,
            },
    {
        proof {
            lemma_views(*self);
        }
        match self {
            Json::Object(entries) => {
                let ghost all = entry_views(entries@);
                let mut i: usize = 0;
                assert(all.skip(0) == all);
                while i < entries.len()
                    invariant
                        all == entry_views(entries@),
                        i <= entries@.len(),
                        self@ == JsonView::Object(all),
                        lookup(all, key@) == lookup(all.skip(i as int), key@),
                    decreases entries@.len() - i,
                {
                    if same(entries[i].0.as_str(), key) {
                        return Some(&entries[i].1);
                    }
                    assert(all.skip(i as int).skip(1) == all.skip(i + 1));
                    i += 1;
                }
                None
            },
            _ => None,
        }
    }

    /// The text, where the value is one.
    pub fn as_str(&self) -> (res: Option<&str>)
        ensures
            match res {
                Some(s) => self@.as_str() == Some(s@),
                None => self@.as_str() is None,
            },
    {
        match self {
            Json::Str(s) => Some(s.as_str()),
            _ => None,
        }
    }

    /// The items, where the value is an array.
    pub fn as_array(&self) -> (res: Option<&Vec<Json>>)
        ensures
            match res {
                Some(items) => self@.as_array() == Some(json_views(items@)),
                None => self@.as_array() is None,
            },
    {
        proof {
            lemma_views(*self);
        }
        match self {
            Json::Array(items) => Some(items),
            _ => None,
        }
    }

    /// The entries, where the value is an object.
    pub fn as_object(&self) -> (res: Option<&Vec<(String, Json)>>)
        ensures
            match res {
                Some(entries) => self@ == JsonView::Object(entry_views(entries@)),
                None => !(self@ is Object),
            },
    {
        proof {
            lemma_views(*self);
        }
        match self {
            Json::Object(entries) => Some(entries),
            _ => None,
        }
    }

    /// The text that an object has under `key`.
    pub fn get_str(&self, key: &str) -> (res: Option<&str>)
        ensures
            match res {
                Some(s) => self@.get_str(key@) == Some(s@),
                None => self@.get_str(key@) is None,
            },
    {
        match self.get(key) {
            Some(v) => v.as_str(),
            None => None,
        }
    }

    /// The text that an object has under `key`, or the empty one.
    pub fn str_or_empty(&self, key: &str) -> (res: String)
        ensures
            res@ == self@.str_or_empty(key@),
    {
        match self.get_str(key) {
            Some(s) => own(s),
            None => String::new(),
        }
    }

    /// The texts in the array that an object has under `key`.
    pub fn strings(&self, key: &str) -> (res: Vec<String>)
        ensures
            views(res@) == self@.strings(key@),
    {
        let mut out: Vec<String> = Vec::new();
        assert(views(out@) =~= Seq::empty());
        match self.get(key) {
            Some(v) => match v.as_array() {
                Some(items) => {
                    let ghost all = json_views(items@);
                    let mut i: usize = 0;
                    while i < items.len()
                        invariant
                            all == json_views(items@),
                            i <= items@.len(),
                            views(out@) == strings_of(all.take(i as int)),
                        decreases items@.len() - i,
                    {
                        assert(all.take(i + 1).drop_last() == all.take(i as int));
                        match items[i].as_str() {
                            Some(s) => {
                                let ghost before = out@;
                                let t = own(s);
                                out.push(t);
                                assert(views(out@) =~= views(before).push(t@));
                            },
                            None => {},
                        }
                        i += 1;
                    }
                    assert(all.take(i as int) == all);
                },
                None => {},
            },
            None => {},
        }
        out
    }

    /// The integer of a number that is one; one without sign that does not fit wraps around.
    pub fn as_int(&self) -> (res: Option<i64>)
        ensures
            res == self@.as_int(),
    {
        match self {
            Json::Number(n) => match n.as_i64() {
                Some(i) => Some(i),
                None => match n.as_u64() {
                    Some(u) => Some(wrap(u)),
                    None => None,
                },
            },
            _ => None,
        }
    }

    /// The double-precision number nearest to a number.
    pub fn as_real(&self) -> (res: Option<Real>)
        ensures
            res == self@.as_real(),
    {
        match self {
            Json::Number(n) => match number_bits(n) {
                Some(bits) => Some(Real { bits }),
                None => None,
            },
            _ => None,
        }
    }

    /// A number as a double-precision one.
    pub fn as_float(&self) -> (res: Option<Json>)
        ensures
            match res {
                Some(v) => self@ is Number && v@ == JsonView::Number(
                    NumView::Float(num_real(self@->Number_0).bits),
                ),
                None => !(self@ is Number),
            },
    {
        match self {
            Json::Number(n) => match number_as_float(n) {
                Some(m) => Some(Json::Number(m)),
                None => None,
            },
            _ => None,
        }
    }

    /// The integer that a number or a text stands for: of a number that is none, its integral part.
    pub fn to_int(&self) -> (res: Option<i64>)
        ensures
            res == self@.to_int(),
    {
        match self {
            Json::Number(n) => match self.as_int() {
                Some(i) => Some(i),
                None => match number_bits(n) {
                    Some(bits) => Some(Real { bits }.trunc()),
                    None => None,
                },
            },
            Json::Str(s) => parse_int(s.as_str()),
            _ => None,
        }
    }
}

/// The integer with sign that has the same bits.
fn wrap(u: u64) -> (res: i64)
    ensures
        res == wrapped(u),
{
    if u > i64::MAX as u64 {
        (u as i128 - 0x1_0000_0000_0000_0000) as i64
    } else {
        u as i64
    }
}

/// Sets the value of `key`: in place of the entry that has this key, or before the first entry with
/// a greater one.
pub fn insert(entries: Vec<(String, Json)>, key: &str, value: Json) -> (res: Vec<(String, Json)>)
    ensures
        entry_views(res@) == put(entry_views(entries@), key@, value@),
{
    let mut entries = entries;
    let ghost all = entry_views(entries@);
    let mut i: usize = 0;
    assert(all.skip(0) == all);
    assert(all.take(0) + put(all, key@, value@) == put(all, key@, value@));
    while i < entries.len() && !same(entries[i].0.as_str(), key) && !comes_before(
        key,
        entries[i].0.as_str(),
    )
        invariant
            all == entry_views(entries@),
            i <= entries@.len(),
            all.take(i as int) + put(all.skip(i as int), key@, value@) == put(all, key@, value@),
        decreases entries@.len() - i,
    {
        let ghost rest = all.skip(i as int);
        assert(rest.skip(1) == all.skip(i + 1));
        assert(put(rest, key@, value@) == seq![rest[0]] + put(rest.skip(1), key@, value@));
        assert(all.take(i as int) + (seq![rest[0]] + put(rest.skip(1), key@, value@)) == all.take(
            i + 1,
        ) + put(all.skip(i + 1), key@, value@));
        i += 1;
    }
    let ghost rest = all.skip(i as int);
    let ghost new = (key@, value@);
    if i < entries.len() && same(entries[i].0.as_str(), key) {
        assert(all.take(i as int) + (seq![new] + rest.skip(1)) == all.update(i as int, new));
        entries.set(i, (own(key), value));
        assert(entry_views(entries@) == all.update(i as int, new));
    } else {
        if i < entries.len() {
            assert(all.take(i as int) + (seq![new] + rest) == all.insert(i as int, new));
        } else {
            assert(all.take(i as int) + seq![new] == all.insert(i as int, new));
        }
        entries.insert(i, (own(key), value));
        assert(entry_views(entries@) == all.insert(i as int, new));
    }
    entries
}

/// What was set is found, and every other key keeps its value.
pub proof fn law_lookup_after_put(
    entries: Seq<(Seq<char>, JsonView)>,
    key: Seq<char>,
    value: JsonView,
    other: Seq<char>,
)
    ensures
        lookup(put(entries, key, value), key) == Some(value),
        other != key ==> lookup(put(entries, key, value), other) == lookup(entries, other),
    decreases entries.len(),
{
    let res = put(entries, key, value);
    if entries.len() == 0 {
        assert(res.skip(1) == entries);
    } else if entries[0].0 == key {
        assert(res.skip(1) == entries.skip(1));
    } else if precedes(key, entries[0].0) {
        assert(res.skip(1) == entries);
    } else {
        law_lookup_after_put(entries.skip(1), key, value, other);
        assert(res.skip(1) == put(entries.skip(1), key, value));
    }
}

/// Setting a value keeps the keys in their order, each once.
pub proof fn law_put_keeps_order(
    entries: Seq<(Seq<char>, JsonView)>,
    key: Seq<char>,
    value: JsonView,
)
    requires
        sorted(entries),
    ensures
        sorted(put(entries, key, value)),
{
    lemma_put_keeps_order(entries, key, value);
}

proof fn lemma_put_keeps_order(
    entries: Seq<(Seq<char>, JsonView)>,
    key: Seq<char>,
    value: JsonView,
)
    requires
        sorted(entries),
    ensures
        sorted(put(entries, key, value)),
        forall|i: int|
            0 <= i < put(entries, key, value).len() ==> (#[trigger] put(entries, key, value)[i]).0
                == key || exists|j: int|
                0 <= j < entries.len() && entries[j].0 == put(entries, key, value)[i].0,
    decreases entries.len(),
{
    let res = put(entries, key, value);
    if entries.len() == 0 {
    } else if entries[0].0 == key {
        assert forall|i: int, j: int| 0 <= i < j < res.len() implies precedes(
            (#[trigger] res[i]).0,
            (#[trigger] res[j]).0,
        ) by {
            assert(entries[i].0 == res[i].0 && entries[j].0 == res[j].0);
        }
        assert forall|i: int| 0 <= i < res.len() implies (#[trigger] res[i]).0 == key || exists|j: int|
            0 <= j < entries.len() && entries[j].0 == res[i].0 by {
            assert(entries[i].0 == res[i].0);
        }
    } else if precedes(key, entries[0].0) {
        assert forall|i: int, j: int| 0 <= i < j < res.len() implies precedes(
            (#[trigger] res[i]).0,
            (#[trigger] res[j]).0,
        ) by {
            assert(res[j] == entries[j - 1]);
            if i == 0 {
                if j > 1 {
                    assert(precedes(entries[0].0, entries[j - 1].0));
                    crate::text::law_precedes_is_total(key, entries[0].0, entries[j - 1].0);
                }
            } else {
                assert(res[i] == entries[i - 1]);
            }
        }
        assert forall|i: int| 0 <= i < res.len() implies (#[trigger] res[i]).0 == key || exists|j: int|
            0 <= j < entries.len() && entries[j].0 == res[i].0 by {
            if i > 0 {
                assert(entries[i - 1].0 == res[i].0);
            }
        }
    } else {
        let rest = entries.skip(1);
        let tail = put(rest, key, value);
        assert forall|i: int, j: int| 0 <= i < j < rest.len() implies precedes(
            (#[trigger] rest[i]).0,
            (#[trigger] rest[j]).0,
        ) by {
            assert(rest[i] == entries[i + 1] && rest[j] == entries[j + 1]);
        }
        lemma_put_keeps_order(rest, key, value);
        crate::text::law_precedes_is_total(key, entries[0].0, key);
        assert forall|j: int| 0 <= j < tail.len() implies precedes(
            entries[0].0,
            (#[trigger] tail[j]).0,
        ) by {
            if tail[j].0 != key {
                let k = choose|k: int| 0 <= k < rest.len() && rest[k].0 == tail[j].0;
                assert(rest[k] == entries[k + 1]);
                assert(precedes(entries[0].0, entries[k + 1].0));
            }
        }
        assert forall|i: int, j: int| 0 <= i < j < res.len() implies precedes(
            (#[trigger] res[i]).0,
            (#[trigger] res[j]).0,
        ) by {
            assert(res[j] == tail[j - 1]);
            if i > 0 {
                assert(res[i] == tail[i - 1]);
            }
        }
        assert forall|i: int| 0 <= i < res.len() implies (#[trigger] res[i]).0 == key || exists|j: int|
            0 <= j < entries.len() && entries[j].0 == res[i].0 by {
            if i == 0 {
                assert(entries[0].0 == res[0].0);
            } else {
                assert(res[i] == tail[i - 1]);
                if res[i].0 != key {
                    let k = choose|k: int| 0 <= k < rest.len() && rest[k].0 == tail[i - 1].0;
                    assert(entries[k + 1].0 == res[i].0);
                }
            }
        }
    }
}

proof fn lemma_put_at_end(entries: Seq<(Seq<char>, JsonView)>, key: Seq<char>, value: JsonView)
    requires
        forall|i: int| 0 <= i < entries.len() ==> precedes((#[trigger] entries[i]).0, key),
    ensures
        put(entries, key, value) == entries.push((key, value)),
    decreases entries.len(),
{
    if entries.len() > 0 {
        assert(precedes(entries[0].0, key));
        crate::text::law_precedes_is_total(key, entries[0].0, key);
        assert forall|i: int| 0 <= i < entries.skip(1).len() implies precedes(
            (#[trigger] entries.skip(1)[i]).0,
            key,
        ) by {
            assert(entries.skip(1)[i] == entries[i + 1]);
        }
        lemma_put_at_end(entries.skip(1), key, value);
        assert(seq![entries[0]] + entries.skip(1).push((key, value)) =~= entries.push((key, value)));
    } else {
        assert(entries.push((key, value)) =~= seq![(key, value)]);
    }
}

proof fn lemma_put_all_of_sorted(entries: Seq<(Seq<char>, JsonView)>)
    requires
        sorted(entries),
    ensures
        put_all(entries) == entries,
    decreases entries.len(),
{
    if entries.len() > 0 {
        let front = entries.drop_last();
        assert forall|i: int, j: int| 0 <= i < j < front.len() implies precedes(
            (#[trigger] front[i]).0,
            (#[trigger] front[j]).0,
        ) by {
            assert(front[i] == entries[i] && front[j] == entries[j]);
        }
        lemma_put_all_of_sorted(front);
        assert forall|i: int| 0 <= i < front.len() implies precedes(
            (#[trigger] front[i]).0,
            entries.last().0,
        ) by {
            assert(precedes(entries[i].0, entries[entries.len() - 1].0));
        }
        lemma_put_at_end(front, entries.last().0, entries.last().1);
        assert(front.push(entries.last()) =~= entries);
    } else {
        assert(put_all(entries) =~= entries);
    }
}

proof fn lemma_canonical_items(items: Seq<JsonView>)
    requires
        forall|i: int| 0 <= i < items.len() ==> (#[trigger] items[i]).tidy(),
    ensures
        canonical_items(items) == items,
    decreases items,
{
    if items.len() > 0 {
        let front = items.drop_last();
        assert forall|i: int| 0 <= i < front.len() implies (#[trigger] front[i]).tidy() by {
            assert(items[i].tidy());
        }
        lemma_canonical_items(front);
        assert(items[items.len() - 1].tidy());
        law_canonical_of_tidy(items.last());
        assert(front.push(items.last()) =~= items);
    } else {
        assert(canonical_items(items) =~= items);
    }
}

proof fn lemma_canonical_entries(entries: Seq<(Seq<char>, JsonView)>)
    requires
        forall|i: int| 0 <= i < entries.len() ==> (#[trigger] entries[i]).1.tidy(),
    ensures
        canonical_entries(entries) == entries,
    decreases entries,
{
    if entries.len() > 0 {
        let front = entries.drop_last();
        assert forall|i: int| 0 <= i < front.len() implies (#[trigger] front[i]).1.tidy() by {
            assert(entries[i].1.tidy());
        }
        lemma_canonical_entries(front);
        assert(entries[entries.len() - 1].1.tidy());
        assert(decreases_to!(entries.last() => entries.last().1));
        law_canonical_of_tidy(entries.last().1);
        assert(front.push(entries.last()) =~= entries);
    } else {
        assert(canonical_entries(entries) =~= entries);
    }
}

/// A value whose objects are in order at every depth is its own canonical form.
pub proof fn law_canonical_of_tidy(v: JsonView)
    requires
        v.tidy(),
    ensures
        v.canonical() == v,
    decreases v,
{
    match v {
        JsonView::Array(items) => {
            lemma_canonical_items(items);
        },
        JsonView::Object(entries) => {
            lemma_canonical_entries(entries);
            lemma_put_all_of_sorted(entries);
        },
        _ => {},
    }
}

/// A number that is an integer of at most 53 bits has that integer as the integral part of the
/// double-precision number nearest to it.
pub proof fn law_short_integers_survive_as_reals(v: JsonView)
    requires
        v matches JsonView::Number(NumView::Int(i)) && short(i as int),
    ensures
        v.as_real() matches Some(x) && x.whole() == v.as_int()->0,
{
    law_short_integers_are_exact(v.as_int()->0 as int);
}

/// What is read back of a value has the same texts and integers at the same places: only
/// double-precision numbers can differ.
pub proof fn law_reread_keeps_texts_and_integers(v: JsonView, key: Seq<char>)
    ensures
        v.reread().get(key) == (match v.get(key) {
            Some(w) => Some(w.reread()),
            None => None::<JsonView>,
        }),
        v.reread().as_str() == v.as_str(),
        v.reread().as_int() == v.as_int(),
        v.reread() is Null == (v is Null),
        v.reread() is Bool ==> v.reread() == v,
        v.reread() is Array == (v is Array),
        v matches JsonView::Array(items) ==> v.reread()->Array_0.len() == items.len()
            && (forall|i: int|
            0 <= i < items.len() ==> #[trigger] v.reread()->Array_0[i] == items[i].reread()),
{
    if let JsonView::Object(entries) = v {
        lemma_lookup_reread(entries, v.reread()->Object_0, key);
    }
}

proof fn lemma_lookup_reread(
    entries: Seq<(Seq<char>, JsonView)>,
    again: Seq<(Seq<char>, JsonView)>,
    key: Seq<char>,
)
    requires
        entries.len() == again.len(),
        forall|i: int|
            0 <= i < entries.len() ==> #[trigger] again[i] == (
                entries[i].0,
                entries[i].1.reread(),
            ),
    ensures
        lookup(again, key) == (match lookup(entries, key) {
            Some(w) => Some(w.reread()),
            None => None::<JsonView>,
        }),
    decreases entries.len(),
{
    if entries.len() > 0 {
        assert(again[0] == (entries[0].0, entries[0].1.reread()));
        lemma_lookup_reread(entries.skip(1), again.skip(1), key);
    }
}

/// The texts of an array come back as they were.
pub proof fn law_reread_keeps_texts(v: JsonView, key: Seq<char>)
    ensures
        v.reread().get_str(key) == v.get_str(key),
        v.reread().strings(key) == v.strings(key),
{
    law_reread_keeps_texts_and_integers(v, key);
    if let Some(w) = v.get(key) {
        law_reread_keeps_texts_and_integers(w, key);
        if let JsonView::Array(items) = w {
            lemma_strings_reread(items, w.reread()->Array_0);
        }
    }
}

proof fn lemma_strings_reread(items: Seq<JsonView>, again: Seq<JsonView>)
    requires
        items.len() == again.len(),
        forall|i: int| 0 <= i < items.len() ==> #[trigger] again[i] == items[i].reread(),
    ensures
        strings_of(again) == strings_of(items),
    decreases items.len(),
{
    if items.len() > 0 {
        assert(again.last() == items.last().reread());
        lemma_strings_reread(items.drop_last(), again.drop_last());
    }
}

/// Of a list the texts are taken, in their order, and nothing else.
pub proof fn law_texts_of_a_list(items: Seq<JsonView>)
    ensures
        selected(
            items.len() as int,
            |i: int|
                match items[i] {
                    JsonView::Str(s) => Some(s),
                    _ => None,
                },
            strings_of(items),
        ),
{
    let f = |i: int|
        match items[i] {
            JsonView::Str(s) => Some(s),
            _ => None,
        };
    lemma_texts_of_a_list(items, f, items.len() as int);
    assert(items.take(items.len() as int) =~= items);
}

proof fn lemma_texts_of_a_list(items: Seq<JsonView>, f: spec_fn(int) -> Option<Seq<char>>, n: int)
    requires
        0 <= n <= items.len(),
        forall|i: int|
            0 <= i < items.len() ==> (#[trigger] f(i)) == (
                match items[i] {
                    JsonView::Str(s) => Some(s),
                    _ => None,
                }
            ),
    ensures
        selected(n, f, strings_of(items.take(n))),
    decreases n,
{
    if n == 0 {
        lemma_selected_none(f);
    } else {
        lemma_texts_of_a_list(items, f, n - 1);
        assert(items.take(n).drop_last() =~= items.take(n - 1));
        lemma_selected_next(n - 1, f, strings_of(items.take(n - 1)));
    }
}

/// A name is looked up among the entries of an object: the first entry of that name counts, and nothing
/// else than an object has any.
pub proof fn law_lookup_finds_the_first(
    v: JsonView,
    entries: Seq<(Seq<char>, JsonView)>,
    key: Seq<char>,
    k: int,
)
    ensures
        0 <= k < entries.len() && entries[k].0 == key && (forall|i: int|
            0 <= i < k ==> (#[trigger] entries[i]).0 != key) ==> JsonView::Object(entries).get(key)
            == Some(entries[k].1),
        (forall|i: int| 0 <= i < entries.len() ==> (#[trigger] entries[i]).0 != key)
            ==> JsonView::Object(entries).get(key) is None,
        !(v is Object) ==> v.get(key) is None,
    decreases entries.len(),
{
    if entries.len() > 0 && entries[0].0 != key {
        let rest = entries.skip(1);
        law_lookup_finds_the_first(v, rest, key, k - 1);
        assert(JsonView::Object(rest).get(key) == lookup(rest, key));
        if 0 <= k < entries.len() && entries[k].0 == key && (forall|i: int|
            0 <= i < k ==> (#[trigger] entries[i]).0 != key) {
            assert(rest[k - 1] == entries[k]);
            assert forall|i: int| 0 <= i < k - 1 implies (#[trigger] rest[i]).0 != key by {
                assert(entries[i + 1].0 != key);
            }
        }
        if forall|i: int| 0 <= i < entries.len() ==> (#[trigger] entries[i]).0 != key {
            assert forall|i: int| 0 <= i < rest.len() implies (#[trigger] rest[i]).0 != key by {
                assert(entries[i + 1].0 != key);
            }
        }
    }
}

/// What is read as an integer: an integer, the integral part of any other number, and what a text writes;
/// nothing else. As a number counts only a number.
pub proof fn law_integers_are_read(v: JsonView, i: i64, bits: u64, s: Seq<char>)
    ensures
        JsonView::Number(NumView::Int(i)).to_int() == Some(i),
        JsonView::Number(NumView::Int(i)).as_int() == Some(i),
        i >= 0 ==> JsonView::Number(NumView::UInt(i as u64)).to_int() == Some(i),
        i >= 0 ==> JsonView::Number(NumView::UInt(i as u64)).as_int() == Some(i),
        JsonView::Number(NumView::Float(bits)).to_int() == Some((Real { bits }).whole() as i64),
        JsonView::Number(NumView::Float(bits)).as_int() is None,
        JsonView::Number(NumView::Float(bits)).as_real() == Some((Real { bits })),
        JsonView::Str(s).to_int() == int_of_text(s),
        !(v is Number) && !(v is Str) ==> v.to_int() is None,
        !(v is Number) ==> v.as_int() is None && v.as_real() is None,
{
}

/// A text under a name is the string that stands there, and empty where none does.
pub proof fn law_text_under_a_name(v: JsonView, key: Seq<char>, s: Seq<char>)
    ensures
        v.get(key) == Some(JsonView::Str(s)) ==> v.get_str(key) == Some(s) && v.str_or_empty(key)
            == s,
        v.get(key) is None ==> v.get_str(key) is None && v.str_or_empty(key).len() == 0,
        v.get(key) is Some && !(v.get(key)->0 is Str) ==> v.get_str(key) is None && v.str_or_empty(
            key,
        ).len() == 0,
{
}

/// How plain values are written: nothing, truth and integers by their words and digits, a text that needs
/// no escapes between quotes.
pub proof fn law_plain_values_are_written(i: i64, b: bool, s: Seq<char>)
    ensures
        JsonView::Null.written() == "null"@,
        JsonView::Bool(b).written() == (if b {
            "true"@
        } else {
            "false"@
        }),
        JsonView::Number(NumView::Int(i)).written() == int_text(i as int),
        (forall|k: int|
            0 <= k < s.len() ==> 0x20 <= #[trigger] s[k] as u32 && s[k] != '"' && s[k] != '\\')
            ==> JsonView::Str(s).written() == "\""@ + s + "\""@,
{
    if forall|k: int|
        0 <= k < s.len() ==> 0x20 <= #[trigger] s[k] as u32 && s[k] != '"' && s[k] != '\\' {
        lemma_plain_escaped(s);
    }
}

proof fn lemma_plain_escaped(s: Seq<char>)
    requires
        forall|k: int|
            0 <= k < s.len() ==> 0x20 <= #[trigger] s[k] as u32 && s[k] != '"' && s[k] != '\\',
    ensures
        concatenated(s.map_values(|c: char| escaped(c))) == s,
    decreases s.len(),
{
    let parts = s.map_values(|c: char| escaped(c));
    if s.len() > 0 {
        let front = s.drop_last();
        assert forall|k: int| 0 <= k < front.len() implies 0x20 <= #[trigger] front[k] as u32
            && front[k] != '"' && front[k] != '\\' by {
            assert(front[k] == s[k]);
        }
        lemma_plain_escaped(front);
        assert(parts.drop_last() =~= front.map_values(|c: char| escaped(c)));
        let c = s[s.len() - 1];
        assert(0x20 <= c as u32 && c != '"' && c != '\\');
        assert(escaped(c) =~= seq![c]);
        assert(front + seq![c] =~= s);
    }
}

/// A value in its usual order: a list item by item, an object with each name once, of which the last
/// counts, and anything else as it is.
pub proof fn law_usual_order_keeps_the_last(
    items: Seq<JsonView>,
    item: JsonView,
    entries: Seq<(Seq<char>, JsonView)>,
    key: Seq<char>,
    leaf: JsonView,
)
    ensures
        JsonView::Array(Seq::empty()).canonical() == JsonView::Array(Seq::empty()),
        JsonView::Array(items.push(item)).canonical() == JsonView::Array(
            JsonView::Array(items).canonical()->Array_0.push(item.canonical()),
        ),
        JsonView::Object(Seq::empty()).canonical() == JsonView::Object(Seq::empty()),
        JsonView::Object(entries.push((key, item))).canonical() == JsonView::Object(
            put(JsonView::Object(entries).canonical()->Object_0, key, item.canonical()),
        ),
        JsonView::Object(entries.push((key, item))).canonical().get(key) == Some(item.canonical()),
        !(leaf is Array) && !(leaf is Object) ==> leaf.canonical() == leaf,
{
    assert(items.push(item).drop_last() =~= items);
    assert(entries.push((key, item)).drop_last() =~= entries);
    let more = canonical_entries(entries.push((key, item)));
    assert(more.drop_last() =~= canonical_entries(entries));
    law_lookup_after_put(put_all(canonical_entries(entries)), key, item.canonical(), key);
}

} // verus!
