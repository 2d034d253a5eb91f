//! A small store of named JSON values that is kept in one file.

use crate::json::{
    insert, json_of_bytes, json_pretty, law_canonical_of_tidy, law_lookup_after_put,
    law_put_keeps_order, law_reread_keeps_texts_and_integers, put, Json, JsonView,
};
use vstd::prelude::*;

verus! {

/// A store of named JSON values.
#[derive(Debug)]
pub struct FileDb {
    pub data: Json,
}

/// The value that the store has under a name; null where there is none.
pub open spec fn stored(data: JsonView, key: Seq<char>) -> JsonView {
    match data.get(key) {
        Some(v) => v,
        None => JsonView::Null,
    }
}

/// The store with one value set. What is no object is dropped first.
pub open spec fn with_value(data: JsonView, key: Seq<char>, value: JsonView) -> JsonView {
    match data {
        JsonView::Object(entries) => JsonView::Object(put(entries, key, value)),
        _ => JsonView::Object(put(Seq::empty(), key, value)),
    }
}

/// The bytes of a file that holds the store.
pub open spec fn file_bytes(data: JsonView) -> Seq<u8> {
    match json_pretty(data) {
        Some(b) => b,
        None => seq![0x7b, 0x7d],
    }
}

/// What the bytes of a file stand for; an empty store where they stand for nothing.
pub open spec fn file_data(b: Seq<u8>) -> JsonView {
    match json_of_bytes(b) {
        Some(v) => v,
        None => JsonView::Object(Seq::empty()),
    }
}

impl FileDb {
    /// The store that a file with these bytes holds; an empty one where there is no such file, or
    /// where its bytes are not JSON.
    pub fn load(bytes: Option<&Vec<u8>>) -> (res: FileDb)
        ensures
            res.data@ == (match bytes {
                Some(b) => file_data(b@),
                None => JsonView::Object(Seq::empty()),
            }),
            res.data@.tidy(),
    {
        let data = match bytes {
            Some(b) => Json::from_bytes(b),
            None => None,
        };
        match data {
            Some(data) => FileDb { data },
            None => {
                let entries: Vec<(String, Json)> = Vec::new();
                let data = Json::object(entries);
                assert(data@->Object_0 =~= Seq::empty());
                FileDb { data }
            },
        }
    }

    /// The bytes of the file that keeps the store. From them a store that is in order comes back with
    /// each double-precision number as it is read from its own text, and where it is durable just as it
    /// was; one that cannot be read at all, being too deep or holding a number close to the greatest,
    /// comes back empty.
    pub fn save(&self) -> (res: Vec<u8>)
        ensures
            res@ == file_bytes(self.data@.canonical()),
            self.data@.tidy() ==> file_data(res@) == (if self.data@.legible(127) {
                self.data@.reread()
            } else {
                JsonView::Object(Seq::empty())
            }),
            self.data@.tidy() && self.data@.modest(127) ==> file_data(res@) == self.data@.reread(),
            self.data@.tidy() && self.data@.durable(127) ==> file_data(res@) == self.data@,
    {
        proof {
            if self.data@.tidy() {
                law_canonical_of_tidy(self.data@);
            }
        }
        self.data.to_bytes()
    }

    /// The value that the store has under a name; null where there is none.
    pub fn get(&self, key: &str) -> (res: Json)
        ensures
            res@ == stored(self.data@, key@),
    {
        match self.data.get(key) {
            Some(v) => v.copy(),
            None => Json::Null,
        }
    }

    /// The value that the store has under a name; the default where there is none, or null.
    pub fn get_or(&self, key: &str, default: Json) -> (res: Json)
        ensures
            res@ == (if stored(self.data@, key@) is Null {
                default@
            } else {
                stored(self.data@, key@)
            }),
    {
        let v = self.get(key);
        if v.is_null() {
            default
        } else {
            v
        }
    }

    /// Sets the value under a name.
    pub fn set(&mut self, key: &str, value: Json)
        ensures
            final(self).data@ == with_value(old(self).data@, key@, value@),
            old(self).data@.tidy() && value@.tidy() ==> final(self).data@.tidy(),
    {
        proof {
            crate::json::lemma_views(self.data);
        }
        let ghost before = self.data@;
        let mut data = Json::Null;
        std::mem::swap(&mut data, &mut self.data);
        let entries: Vec<(String, Json)> = match data {
            Json::Object(entries) => entries,
            _ => Vec::new(),
        };
        assert(!(before is Object) ==> crate::json::entry_views(entries@) =~= Seq::empty());
        let entries = insert(entries, key, value);
        self.data = Json::object(entries);
        proof {
            if before.tidy() && value@.tidy() {
                law_set_keeps_order(before, key@, value@);
            }
        }
    }
}

/// What a stored value is, after the store is kept in a file and read back: itself where it holds
/// no double-precision number of its own, else with each of its own as it comes back from its text.
pub proof fn law_stored_rereads(data: JsonView, key: Seq<char>)
    ensures
        stored(data.reread(), key) == stored(data, key).reread(),
{
    law_reread_keeps_texts_and_integers(data, key);
}

/// What was set under a name is found there, and every other name keeps its value.
pub proof fn law_get_after_set(
    data: JsonView,
    key: Seq<char>,
    value: JsonView,
    other: Seq<char>,
)
    ensures
        stored(with_value(data, key, value), key) == value,
        other != key ==> stored(with_value(data, key, value), other) == stored(data, other),
{
    match data {
        JsonView::Object(entries) => {
            law_lookup_after_put(entries, key, value, other);
        },
        _ => {
            law_lookup_after_put(Seq::empty(), key, value, other);
        },
    }
}

/// A store stays legible when a value that is legible, and one level less deep, is set; and so it stays
/// modest, and durable.
pub proof fn law_set_keeps_legible(data: JsonView, key: Seq<char>, value: JsonView)
    ensures
        data.legible(127) && value.legible(126) ==> with_value(data, key, value).legible(127),
        data.modest(127) && value.modest(126) ==> with_value(data, key, value).modest(127),
        data.durable(127) && value.durable(126) ==> with_value(data, key, value).durable(127),
{
    let entries = match data {
        JsonView::Object(entries) => entries,
        _ => Seq::empty(),
    };
    lemma_put_comes_from(entries, key, value);
    let res = put(entries, key, value);
    assert forall|i: int| 0 <= i < res.len() implies (data.legible(127) && value.legible(126)
        ==> (#[trigger] res[i]).1.legible(126)) && (data.modest(127) && value.modest(126)
        ==> res[i].1.modest(126)) && (data.durable(127) && value.durable(126)
        ==> res[i].1.durable(126)) by {
        if res[i] != (key, value) {
            let j = choose|j: int| 0 <= j < entries.len() && res[i] == #[trigger] entries[j];
            assert(data is Object);
            assert(entries[j].1 == res[i].1);
        }
    }
}

proof fn lemma_put_comes_from(entries: Seq<(Seq<char>, JsonView)>, key: Seq<char>, value: JsonView)
    ensures
        forall|i: int|
            0 <= i < put(entries, key, value).len() ==> (#[trigger] put(entries, key, value)[i]) == (
                key,
                value,
            ) || exists|j: int|
                0 <= j < entries.len() && put(entries, key, value)[i] == #[trigger] entries[j],
    decreases entries.len(),
{
    let res = put(entries, key, value);
    if entries.len() > 0 {
        let rest = entries.skip(1);
        lemma_put_comes_from(rest, key, value);
        assert forall|i: int| 0 <= i < res.len() implies (#[trigger] res[i]) == (key, value)
            || exists|j: int| 0 <= j < entries.len() && res[i] == #[trigger] entries[j] by {
            if entries[0].0 == key {
                if i > 0 {
                    assert(res[i] == entries[i]);
                }
            } else if crate::text::precedes(key, entries[0].0) {
                if i > 0 {
                    assert(res[i] == entries[i - 1]);
                }
            } else if i == 0 {
                assert(res[0] == entries[0]);
            } else {
                let tail = put(rest, key, value);
                assert(res[i] == tail[i - 1]);
                if tail[i - 1] != (key, value) {
                    let j = choose|j: int| 0 <= j < rest.len() && tail[i - 1] == #[trigger] rest[j];
                    assert(rest[j] == entries[j + 1]);
                }
            }
        }
    }
}

/// A store stays in order when a value that is in order is set.
pub proof fn law_set_keeps_order(data: JsonView, key: Seq<char>, value: JsonView)
    requires
        data.tidy(),
        value.tidy(),
    ensures
        with_value(data, key, value).tidy(),
{
    let entries = match data {
        JsonView::Object(entries) => entries,
        _ => Seq::empty(),
    };
    law_put_keeps_order(entries, key, value);
    assert forall|i: int| 0 <= i < entries.len() implies (#[trigger] entries[i]).1.tidy() by {
        assert(data is Object);
    }
    lemma_put_holds(entries, key, value);
}

proof fn lemma_put_holds(entries: Seq<(Seq<char>, JsonView)>, key: Seq<char>, value: JsonView)
    requires
        value.tidy(),
        forall|i: int| 0 <= i < entries.len() ==> (#[trigger] entries[i]).1.tidy(),
    ensures
        forall|i: int|
            0 <= i < put(entries, key, value).len() ==> (#[trigger] put(
                entries,
                key,
                value,
            )[i]).1.tidy(),
    decreases entries.len(),
{
    let res = put(entries, key, value);
    if entries.len() > 0 {
        let rest = entries.skip(1);
        assert forall|i: int| 0 <= i < rest.len() implies (#[trigger] rest[i]).1.tidy() by {
            assert(rest[i] == entries[i + 1]);
        }
        if entries[0].0 == key {
            assert forall|i: int| 0 <= i < res.len() implies (#[trigger] res[i]).1.tidy() by {
                if i > 0 {
                    assert(res[i] == entries[i]);
                }
            }
        } else if crate::text::precedes(key, entries[0].0) {
            assert forall|i: int| 0 <= i < res.len() implies (#[trigger] res[i]).1.tidy() by {
                if i > 0 {
                    assert(res[i] == entries[i - 1]);
                }
            }
        } else {
            lemma_put_holds(rest, key, value);
            assert forall|i: int| 0 <= i < res.len() implies (#[trigger] res[i]).1.tidy() by {
                if i > 0 {
                    assert(res[i] == put(rest, key, value)[i - 1]);
                } else {
                    assert(res[0] == entries[0]);
                }
            }
        }
    }
}

/// A file that holds a value gives it back; one that holds none gives an empty object.
pub proof fn law_files_are_read(b: Seq<u8>, key: Seq<char>)
    ensures
        json_of_bytes(b) matches Some(v) ==> file_data(b) == v,
        json_of_bytes(b) is None ==> file_data(b).get(key) is None && file_data(b) is Object,
        stored(JsonView::Object(Seq::empty()), key) is Null,
{
}

} // verus!
