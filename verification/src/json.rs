//! JSON documents as plain values.
use crate::text;
use vstd::prelude::*;

verus! {

/// A JSON number.
#[derive(Clone, Copy, Debug, PartialEq, Eq, Structural)]
pub enum JsonNumber {
    /// A whole number that is not negative.
    Unsigned(u64),
    /// A negative whole number.
    Negative(i64),
    /// Any other number: the bit pattern of the double that stands for it.
    Double(u64),
}

impl JsonNumber {
    /// The number, if it is whole and fits.
    pub open spec fn as_unsigned(self) -> Option<u64> {
        match self {
            JsonNumber::Unsigned(n) => Some(n),
            _ => None,
        }
    }

    /// The number, if it is whole and fits.
    pub open spec fn as_signed(self) -> Option<i64> {
        match self {
            JsonNumber::Unsigned(n) => if n <= i64::MAX {
                Some(n as i64)
            } else {
                None
            },
            JsonNumber::Negative(n) => Some(n),
            JsonNumber::Double(_) => None,
        }
    }
}

/// A JSON document.
#[derive(Debug)]
pub enum Json {
    Null,
    Bool(bool),
    Number(JsonNumber),
    Text(String),
    Array(Vec<Json>),
    Object(Vec<(String, Json)>),
}

/// What a JSON document holds.
pub ghost enum JsonView {
    Null,
    Bool(bool),
    Number(JsonNumber),
    Text(Seq<char>),
    Array(Seq<JsonView>),
    Object(Seq<(Seq<char>, JsonView)>),
}

/// A document that is not JSON.
#[derive(Clone, Copy, Debug, PartialEq, Eq)]
pub struct NotJson;

/// The value of the first entry under `key`.
pub open spec fn lookup(entries: Seq<(Seq<char>, JsonView)>, key: Seq<char>) -> Option<JsonView>
    decreases entries.len(),
{
    if entries.len() == 0 {
        None
    } else if entries[0].0 == key {
        Some(entries[0].1)
    } else {
        lookup(entries.drop_first(), key)
    }
}

impl JsonView {
    /// The value under `key`; only an object has any.
    pub open spec fn get(self, key: Seq<char>) -> Option<JsonView> {
        match self {
            JsonView::Object(entries) => lookup(entries, key),
            _ => None,
        }
    }

    /// The text, if this is one.
    pub open spec fn as_text(self) -> Option<Seq<char>> {
        match self {
            JsonView::Text(s) => Some(s),
            _ => None,
        }
    }

    /// The number, if this is one that is whole and fits.
    pub open spec fn as_u64(self) -> Option<u64> {
        match self {
            JsonView::Number(n) => n.as_unsigned(),
            _ => None,
        }
    }

    /// The number, if this is one that is whole and fits.
    pub open spec fn as_i64(self) -> Option<i64> {
        match self {
            JsonView::Number(n) => n.as_signed(),
            _ => None,
        }
    }

    /// The text under `key`, or `default` if there is none.
    pub open spec fn text_at(self, key: Seq<char>, default: Seq<char>) -> Seq<char> {
        match self.get(key) {
            Some(JsonView::Text(s)) => s,
            _ => default,
        }
    }
}

impl Json {
    /// What the document holds.
    pub open spec fn plain(self) -> JsonView
        decreases self,
    {
        match self {
            Json::Null => JsonView::Null,
            Json::Bool(b) => JsonView::Bool(b),
            Json::Number(n) => JsonView::Number(n),
            Json::Text(s) => JsonView::Text(s@),
            Json::Array(items) => JsonView::Array(
                Seq::new(
                    items@.len(),
                    |i: int|
                        if 0 <= i < items@.len() {
                            items@[i].plain()
                        } else {
                            JsonView::Null
                        },
                ),
            ),
            Json::Object(entries) => JsonView::Object(
                Seq::new(
                    entries@.len(),
                    |i: int|
                        if 0 <= i < entries@.len() {
                            (entries@[i].0@, entries@[i].1.plain())
                        } else {
                            (seq![], JsonView::Null)
                        },
                ),
            ),
        }
    }
}

impl View for Json {
    type V = JsonView;

    open spec fn view(&self) -> JsonView {
        self.plain()
    }
}

#[verifier::external_type_specification]
#[verifier::external_body]
pub struct ExValue(serde_json::Value);

#[verifier::external_type_specification]
#[verifier::external_body]
pub struct ExNumber(serde_json::Number);

#[verifier::external_type_specification]
#[verifier::external_body]
pub struct ExError(serde_json::Error);

/// What a `serde_json::Value` holds.
pub uninterp spec fn held(value: serde_json::Value) -> JsonView;

/// The number that a `serde_json::Number` holds.
pub uninterp spec fn number(n: serde_json::Number) -> JsonNumber;

/// The document that `serde_json::from_slice` reads from the bytes `body`, if it reads one.
pub uninterp spec fn parsed(body: Seq<u8>) -> Option<JsonView>;

/// `serde_json::from_slice` for a `serde_json::Value`: a function of the bytes alone, which
/// [`parsed`] names.
#[verifier::external_body]
fn value_of_bytes(body: &[u8]) -> (r: Result<serde_json::Value, serde_json::Error>)
    ensures
        r matches Ok(value) ==> parsed(body@) == Some(held(value)),
        r is Err ==> parsed(body@) is None,
{
    serde_json::from_slice::<serde_json::Value>(body)
}

/// The outermost layer of a `serde_json::Value`.
enum Layer {
    Null,
    Bool(bool),
    Number(serde_json::Number),
    Text(String),
    Array(Vec<serde_json::Value>),
    Object(Vec<(String, serde_json::Value)>),
}

impl Layer {
    /// What the value of this layer holds.
    spec fn holds(self) -> JsonView {
        match self {
            Layer::Null => JsonView::Null,
            Layer::Bool(b) => JsonView::Bool(b),
            Layer::Number(n) => JsonView::Number(number(n)),
            Layer::Text(s) => JsonView::Text(s@),
            Layer::Array(items) => JsonView::Array(
                items@.map_values(|v: serde_json::Value| held(v)),
            ),
            Layer::Object(entries) => JsonView::Object(
                entries@.map_values(|e: (String, serde_json::Value)| (e.0@, held(e.1))),
            ),
        }
    }
}

/// The variants of `serde_json::Value`, one for one. The entries of an object come in the order
/// in which `serde_json::Map` walks them.
#[verifier::external_body]
fn layer_of(value: serde_json::Value) -> (layer: Layer)
    ensures
        layer.holds() == held(value),
{
    match value {
        serde_json::Value::Null => Layer::Null,
        serde_json::Value::Bool(b) => Layer::Bool(b),
        serde_json::Value::Number(n) => Layer::Number(n),
        serde_json::Value::String(s) => Layer::Text(s),
        serde_json::Value::Array(items) => Layer::Array(items),
        serde_json::Value::Object(entries) => Layer::Object(entries.into_iter().collect()),
    }
}

/// `serde_json::Number::as_u64`: the number, if it is whole and neither negative nor too large.
#[verifier::external_body]
fn unsigned_of(n: &serde_json::Number) -> (r: Option<u64>)
    ensures
        r == number(*n).as_unsigned(),
{
    n.as_u64()
}

/// `serde_json::Number::as_i64`: the number, if it is whole and neither too small nor too large.
#[verifier::external_body]
fn signed_of(n: &serde_json::Number) -> (r: Option<i64>)
    ensures
        r == number(*n).as_signed(),
{
    n.as_i64()
}

/// `serde_json::Number::as_f64`, as a bit pattern: the double that stands for a number that is
/// not whole or does not fit. Nothing is stated of the double nearest to any other number.
#[verifier::external_body]
fn double_of(n: &serde_json::Number) -> (r: Option<u64>)
    ensures
        number(*n) matches JsonNumber::Double(bits) ==> r == Some(bits),
{
    n.as_f64().map(|x| x.to_bits())
}

/// `n` as a number of this library.
fn plain_number(n: &serde_json::Number) -> (r: JsonNumber)
    ensures
        r == number(*n),
{
    match unsigned_of(n) {
        Some(u) => JsonNumber::Unsigned(u),
        None => match signed_of(n) {
            Some(i) => JsonNumber::Negative(i),
            None => match double_of(n) {
                Some(bits) => JsonNumber::Double(bits),
                // Never reached: a number that is not whole has a double.
                None => JsonNumber::Double(0),
            },
        },
    }
}

/// `value` as a document of this library.
fn document(value: serde_json::Value) -> (j: Json)
    ensures
        j@ == held(value),
    decreases held(value),
{
    match layer_of(value) {
        Layer::Null => Json::Null,
        Layer::Bool(b) => Json::Bool(b),
        Layer::Number(n) => Json::Number(plain_number(&n)),
        Layer::Text(s) => Json::Text(s),
        Layer::Array(items) => {
            let ghost all = held(value)->Array_0;
            let mut out: Vec<Json> = Vec::new();
            for v in it: items
                invariant
                    it.seq() == items@,
                    held(value) == JsonView::Array(all),
                    all == items@.map_values(|v: serde_json::Value| held(v)),
                    out@.len() == it.index(),
                    forall|i: int| 0 <= i < out@.len() ==> (#[trigger] out@[i])@ == all[i],
            {
                proof {
                    assert(held(v) == all[it.index()]);
                    assert(decreases_to!(held(value) => held(value)->Array_0));
                    assert(decreases_to!(held(value)->Array_0 => all[it.index()]));
                }
                out.push(document(v));
            }
            let j = Json::Array(out);
            proof {
                assert(j@->Array_0 =~= all) by {
                    assert forall|i: int| 0 <= i < all.len() implies j@->Array_0[i] == all[i] by {
                        assert(out@[i]@ == all[i]);
                    }
                }
            }
            j
        },
        Layer::Object(entries) => {
            let ghost all = held(value)->Object_0;
            let mut out: Vec<(String, Json)> = Vec::new();
            for e in it: entries
                invariant
                    it.seq() == entries@,
                    held(value) == JsonView::Object(all),
                    all == entries@.map_values(
                        |e: (String, serde_json::Value)| (e.0@, held(e.1)),
                    ),
                    out@.len() == it.index(),
                    forall|i: int|
                        0 <= i < out@.len() ==> (#[trigger] out@[i]).0@ == all[i].0 && out@[i].1@
                            == all[i].1,
            {
                proof {
                    assert((e.0@, held(e.1)) == all[it.index()]);
                    assert(decreases_to!(held(value) => held(value)->Object_0));
                    assert(decreases_to!(held(value)->Object_0 => all[it.index()]));
                    assert(decreases_to!(all[it.index()] => all[it.index()].1));
                }
                out.push((e.0, document(e.1)));
            }
            let j = Json::Object(out);
            proof {
                assert(j@->Object_0 =~= all) by {
                    assert forall|i: int| 0 <= i < all.len() implies j@->Object_0[i] == all[i] by {
                        assert(out@[i].0@ == all[i].0);
                    }
                }
            }
            j
        },
    }
}

/// The document that the bytes `body` hold.
pub fn parse_json(body: &[u8]) -> (r: Result<Json, NotJson>)
    ensures
        r matches Ok(j) ==> parsed(body@) == Some(j@),
        r is Err ==> parsed(body@) is None,
{
    match value_of_bytes(body) {
        Ok(value) => Ok(document(value)),
        Err(_) => Err(NotJson),
    }
}

impl Json {
    /// The value under `key`; only an object has any.
    pub fn get(&self, key: &str) -> (r: Option<&Json>)
        ensures
            r is Some <==> self@.get(key@) is Some,
            r matches Some(j) ==> self@.get(key@) == Some(j@),
    {
        match self {
            Json::Object(entries) => {
                let ghost all = self@->Object_0;
                let mut i: usize = 0;
                assert(all.skip(0) =~= all);
                while i < entries.len()
                    invariant
                        i <= entries@.len(),
                        all.len() == entries@.len(),
                        forall|j: int|
                            0 <= j < all.len() ==> #[trigger] all[j] == (
                                entries@[j].0@,
                                entries@[j].1@,
                            ),
                        self@ == JsonView::Object(all),
                        lookup(all.skip(i as int), key@) == lookup(all, key@),
                    decreases entries@.len() - i,
                {
                    assert(all.skip(i as int)[0] == all[i as int]);
                    if text::same_text(entries[i].0.as_str(), key) {
                        return Some(&entries[i].1);
                    }
                    assert(all.skip(i as int).drop_first() =~= all.skip(i + 1));
                    i += 1;
                }
                None
            },
            _ => None,
        }
    }

    /// The text, if this is one.
    pub fn as_text(&self) -> (r: Option<&str>)
        ensures
            r is Some <==> self@.as_text() is Some,
            r matches Some(s) ==> self@.as_text() == Some(s@),
    {
        match self {
            Json::Text(s) => Some(s.as_str()),
            _ => None,
        }
    }

    /// The number, if this is one that is whole and fits.
    pub fn as_u64(&self) -> (r: Option<u64>)
        ensures
            r == self@.as_u64(),
    {
        match self {
            Json::Number(JsonNumber::Unsigned(n)) => Some(*n),
            _ => None,
        }
    }

    /// The number, if this is one that is whole and fits.
    pub fn as_i64(&self) -> (r: Option<i64>)
        ensures
            r == self@.as_i64(),
    {
        match self {
            Json::Number(JsonNumber::Unsigned(n)) => if *n <= i64::MAX as u64 {
                Some(*n as i64)
            } else {
                None
            },
            Json::Number(JsonNumber::Negative(n)) => Some(*n),
            _ => None,
        }
    }

    /// The text under `key`, or `default` if there is none.
    pub fn text_at<'a>(&'a self, key: &str, default: &'a str) -> (r: &'a str)
        ensures
            r@ == self@.text_at(key@, default@),
    {
        match self.get(key) {
            Some(j) => match j.as_text() {
                Some(s) => s,
                None => default,
            },
            None => default,
        }
    }
}

/// A whole number is read as itself where it fits, and no other number is read.
pub proof fn lemma_numbers(n: u64, i: i64, bits: u64)
    ensures
        JsonNumber::Unsigned(n).as_unsigned() == Some(n),
        JsonNumber::Negative(i).as_unsigned() is None,
        JsonNumber::Double(bits).as_unsigned() is None,
        n < 0x8000_0000_0000_0000 ==> JsonNumber::Unsigned(n).as_signed() == Some(n as i64),
        n >= 0x8000_0000_0000_0000 ==> JsonNumber::Unsigned(n).as_signed() is None,
        JsonNumber::Negative(i).as_signed() == Some(i),
        JsonNumber::Double(bits).as_signed() is None,
{
}

/// What is read from a number is read from a document that is that number, and from no other
/// kind of document.
pub proof fn lemma_number_documents(n: u64, i: i64, v: JsonView)
    ensures
        JsonView::Number(JsonNumber::Unsigned(n)).as_u64() == Some(n),
        n < 0x8000_0000_0000_0000 ==> JsonView::Number(JsonNumber::Unsigned(n)).as_i64() == Some(
            n as i64,
        ),
        n >= 0x8000_0000_0000_0000 ==> JsonView::Number(JsonNumber::Unsigned(n)).as_i64() is None,
        JsonView::Number(JsonNumber::Negative(i)).as_i64() == Some(i),
        JsonView::Number(JsonNumber::Negative(i)).as_u64() is None,
        v.as_u64() is Some ==> v is Number && v->Number_0 is Unsigned,
        v.as_i64() is Some ==> v is Number && !(v->Number_0 is Double),
        v.as_text() is Some <==> v is Text,
        v is Text ==> v.as_text() == Some(v->Text_0),
{
}

/// The value under a key is that of the first entry with that key.
pub proof fn lemma_lookup(entries: Seq<(Seq<char>, JsonView)>, key: Seq<char>, i: int)
    requires
        0 <= i < entries.len(),
        entries[i].0 == key,
        forall|j: int| 0 <= j < i ==> (#[trigger] entries[j]).0 != key,
    ensures
        JsonView::Object(entries).get(key) == Some(entries[i].1),
    decreases i,
{
    if i > 0 {
        let rest = entries.drop_first();
        assert(entries[0].0 != key);
        assert forall|j: int| 0 <= j < i - 1 implies (#[trigger] rest[j]).0 != key by {
            assert(rest[j] == entries[j + 1]);
        }
        lemma_lookup(rest, key, i - 1);
    }
}

/// Without an entry under a key there is no value, nor is there one outside an object.
pub proof fn lemma_lookup_none(v: JsonView, key: Seq<char>)
    requires
        v matches JsonView::Object(entries) ==> forall|j: int|
            0 <= j < entries.len() ==> (#[trigger] entries[j]).0 != key,
    ensures
        v.get(key) is None,
    decreases v->Object_0.len(),
{
    if let JsonView::Object(entries) = v {
        if entries.len() > 0 {
            let rest = entries.drop_first();
            assert(entries[0].0 != key);
            assert forall|j: int| 0 <= j < rest.len() implies (#[trigger] rest[j]).0 != key by {
                assert(rest[j] == entries[j + 1]);
            }
            lemma_lookup_none(JsonView::Object(rest), key);
        }
    }
}

/// The text under a key is the whole text that stands there; anything else gives the default.
pub proof fn lemma_text_at(v: JsonView, key: Seq<char>, default: Seq<char>)
    ensures
        v.get(key) matches Some(JsonView::Text(s)) ==> v.text_at(key, default) == s,
        !(v.get(key) matches Some(JsonView::Text(_))) ==> v.text_at(key, default) == default,
{
}

/// A document holds what it is made of, item by item and entry by entry.
pub proof fn lemma_document(n: JsonNumber, b: bool, s: String, items: Vec<Json>, entries: Vec<(String, Json)>)
    ensures
        Json::Null@ == JsonView::Null,
        Json::Bool(b)@ == JsonView::Bool(b),
        Json::Number(n)@ == JsonView::Number(n),
        Json::Text(s)@ == JsonView::Text(s@),
        Json::Array(items)@ matches JsonView::Array(held) && held.len() == items@.len() && forall|
            i: int,
        |
            0 <= i < items@.len() ==> #[trigger] held[i] == items@[i]@,
        Json::Object(entries)@ matches JsonView::Object(held) && held.len() == entries@.len()
            && forall|i: int|
            0 <= i < entries@.len() ==> #[trigger] held[i] == (entries@[i].0@, entries@[i].1@),
{
}

} // verus!
