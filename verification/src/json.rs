//! JSON, read and written by `serde_json`.
//!
//! A document is read into a `serde_json::Value`, and the functions here are
//! the only ones that look into one. What a value holds is a [`Json`].
use crate::number::decimal;
use crate::text::join;
use vstd::prelude::*;

verus! {

#[verifier::external_type_specification]
#[verifier::external_body]
pub struct ExValue(serde_json::Value);

#[verifier::external_type_specification]
#[verifier::external_body]
pub struct ExError(serde_json::Error);

/// What a JSON value is.
pub enum Json {
    Null,
    Bool(bool),
    /// A number, with its value where it is written as an integer from 0 to
    /// 2^64 - 1, without a fraction or an exponent.
    Number(Option<nat>),
    Text(Seq<char>),
    Array(Seq<Json>),
    /// The members by their names. Of two members with one name, the last.
    Object(Map<Seq<char>, Json>),
}

/// What a `serde_json::Value` holds.
pub uninterp spec fn json_of(value: serde_json::Value) -> Json;

/// What `serde_json::from_str::<serde_json::Value>` reads in a text: nothing
/// where the text is not one JSON document.
pub uninterp spec fn json_document(text: Seq<char>) -> Option<Json>;

/// What `serde_json::from_slice::<serde_json::Value>` reads in some bytes:
/// nothing where they are not one JSON document.
pub uninterp spec fn json_in_bytes(bytes: Seq<u8>) -> Option<Json>;

pub open spec fn json_items(values: Seq<serde_json::Value>) -> Seq<Json> {
    values.map_values(|v: serde_json::Value| json_of(v))
}

/// A name that stands in JSON as it is.
pub open spec fn is_plain_name(s: Seq<char>) -> bool {
    forall|i: int|
        0 <= i < s.len() ==> {
            let c = #[trigger] s[i];
            ('a' <= c && c <= 'z') || c == '_'
        }
}

/// A value in a record.
pub enum Scalar {
    Text(Seq<char>),
    Number(u64),
}

/// A document that this program writes: a record of named values, or an
/// object with one member that is a list of records.
pub enum Written {
    Record(Seq<(Seq<char>, Scalar)>),
    Records(Seq<char>, Seq<Seq<(Seq<char>, Scalar)>>),
}

pub open spec fn scalar_text(s: Scalar) -> Seq<char> {
    match s {
        Scalar::Text(t) => json_string(t),
        Scalar::Number(n) => decimal(n as nat),
    }
}

pub open spec fn member_texts(record: Seq<(Seq<char>, Scalar)>) -> Seq<Seq<char>> {
    record.map_values(|m: (Seq<char>, Scalar)| json_string(m.0) + ":"@ + scalar_text(m.1))
}

/// A record as JSON without any space.
pub open spec fn record_text(record: Seq<(Seq<char>, Scalar)>) -> Seq<char> {
    "{"@ + join(member_texts(record), ","@) + "}"@
}

pub open spec fn record_texts(records: Seq<Seq<(Seq<char>, Scalar)>>) -> Seq<Seq<char>> {
    records.map_values(|r: Seq<(Seq<char>, Scalar)>| record_text(r))
}

/// A list of records as JSON without any space.
pub open spec fn records_text(records: Seq<Seq<(Seq<char>, Scalar)>>) -> Seq<char> {
    "["@ + join(record_texts(records), ","@) + "]"@
}

/// A document as JSON without any space.
pub open spec fn written_text(w: Written) -> Seq<char> {
    match w {
        Written::Record(record) => record_text(record),
        Written::Records(name, records) => "{"@ + json_string(name) + ":"@ + records_text(records)
            + "}"@,
    }
}

pub open spec fn scalar_json(s: Scalar) -> Json {
    match s {
        Scalar::Text(t) => Json::Text(t),
        Scalar::Number(n) => Json::Number(Some(n as nat)),
    }
}

/// The members of a record by their names.
pub open spec fn members(record: Seq<(Seq<char>, Scalar)>) -> Map<Seq<char>, Json>
    decreases record.len(),
{
    if record.len() == 0 {
        Map::empty()
    } else {
        members(record.drop_last()).insert(record.last().0, scalar_json(record.last().1))
    }
}

/// What a document is.
pub open spec fn written_json(w: Written) -> Json {
    match w {
        Written::Record(record) => Json::Object(members(record)),
        Written::Records(name, records) => Json::Object(
            map![
                name => Json::Array(
                    records.map_values(|r: Seq<(Seq<char>, Scalar)>| Json::Object(members(r))),
                )
            ],
        ),
    }
}

/// Every name in the record stands in JSON as it is.
pub open spec fn has_plain_names(record: Seq<(Seq<char>, Scalar)>) -> bool {
    forall|i: int| 0 <= i < record.len() ==> is_plain_name((#[trigger] record[i]).0)
}

/// Every name in the document stands in JSON as it is.
pub open spec fn is_plain(w: Written) -> bool {
    match w {
        Written::Record(record) => has_plain_names(record),
        Written::Records(name, records) => is_plain_name(name) && forall|i: int|
            0 <= i < records.len() ==> has_plain_names(#[trigger] records[i]),
    }
}

/// `text` is a document that this program writes.
pub open spec fn is_written(text: Seq<char>) -> bool {
    exists|w: Written| is_plain(w) && text == #[trigger] written_text(w)
}

/// If `text` is a document that this program writes, `json` is what it is.
pub open spec fn holds_written(text: Seq<char>, json: Json) -> bool {
    forall|w: Written|
        is_plain(w) && text == #[trigger] written_text(w) ==> json == written_json(w)
}

/// `serde_json::from_str::<serde_json::Value>` reads a document, or fails
/// where the text is not one. What is claimed of the result is that reading
/// gives back what was written, for the documents of a [`Written`]: objects
/// and arrays without any space, names of small letters and underscores,
/// strings as `serde_json` writes them, and whole numbers that a `u64` holds
/// in decimal.
#[verifier::external_body]
pub(crate) fn read_json(text: &str) -> (r: Result<serde_json::Value, serde_json::Error>)
    ensures
        match r {
            Ok(v) => json_document(text@) == Some(json_of(v)),
            Err(_) => json_document(text@) is None,
        },
        r is Err ==> !is_written(text@),
        r matches Ok(v) ==> holds_written(text@, json_of(v)),
{
    serde_json::from_str::<serde_json::Value>(text)
}

/// `serde_json::from_slice::<serde_json::Value>` reads a document, or fails
/// where the bytes are not one. What it reads depends on the bytes alone.
#[verifier::external_body]
pub(crate) fn read_json_bytes(bytes: &[u8]) -> (r: Result<serde_json::Value, serde_json::Error>)
    ensures
        match r {
            Ok(v) => json_in_bytes(bytes@) == Some(json_of(v)),
            Err(_) => json_in_bytes(bytes@) is None,
        },
{
    serde_json::from_slice::<serde_json::Value>(bytes)
}

/// The words in which `serde_json::Error` describes itself. Nothing is
/// claimed of them: they are for the user to read.
#[verifier::external_body]
pub(crate) fn describe(e: &serde_json::Error) -> (r: String) {
    e.to_string()
}

/// `serde_json::Value::get` with a name: the member of that name, where the
/// value is an object that has one.
#[verifier::external_body]
pub(crate) fn member<'a>(v: &'a serde_json::Value, name: &str) -> (r: Option<&'a serde_json::Value>)
    ensures
        match r {
            Some(m) => json_of(*v) matches Json::Object(members) && members.contains_key(name@)
                && members[name@] == json_of(*m),
            None => json_of(*v) matches Json::Object(members) ==> !members.contains_key(name@),
        },
{
    v.get(name)
}

/// `serde_json::Value::as_object` and `len`: how many members the value has,
/// where it is an object.
#[verifier::external_body]
pub(crate) fn member_count(v: &serde_json::Value) -> (r: Option<usize>)
    ensures
        match r {
            Some(n) => json_of(*v) matches Json::Object(members) && members.dom().finite()
                && members.dom().len() == n,
            None => !(json_of(*v) is Object),
        },
{
    match v.as_object() {
        Some(members) => Some(members.len()),
        None => None,
    }
}

/// `serde_json::Value::as_array`: the items, where the value is an array.
#[verifier::external_body]
pub(crate) fn items(v: &serde_json::Value) -> (r: Option<&Vec<serde_json::Value>>)
    ensures
        match r {
            Some(values) => json_of(*v) == Json::Array(json_items(values@)),
            None => !(json_of(*v) is Array),
        },
{
    v.as_array()
}

/// `serde_json::Value::as_str`: the text, where the value is a string.
#[verifier::external_body]
pub(crate) fn string(v: &serde_json::Value) -> (r: Option<&str>)
    ensures
        match r {
            Some(s) => json_of(*v) == Json::Text(s@),
            None => !(json_of(*v) is Text),
        },
{
    v.as_str()
}

/// `serde_json::Value::as_u64`: the number, where the value is written as an
/// integer that a `u64` holds.
#[verifier::external_body]
pub(crate) fn whole_number(v: &serde_json::Value) -> (r: Option<u64>)
    ensures
        match r {
            Some(n) => json_of(*v) == Json::Number(Some(n as nat)),
            None => !(json_of(*v) matches Json::Number(Some(_))),
        },
{
    v.as_u64()
}

/// `serde_json::Value::is_null`: whether the value is `null`.
#[verifier::external_body]
pub(crate) fn is_null(v: &serde_json::Value) -> (r: bool)
    ensures
        r == (json_of(*v) is Null),
{
    v.is_null()
}

/// The hexadecimal digit for `d`.
pub open spec fn hex_digit(d: nat) -> char {
    if d < 10 {
        (48 + d) as char
    } else {
        (87 + d) as char
    }
}

/// A character as it stands in a JSON string.
pub open spec fn json_char(c: char) -> Seq<char> {
    if c == '"' || c == '\\' {
        seq!['\\', c]
    } else if c == '\n' {
        seq!['\\', 'n']
    } else if c == '\r' {
        seq!['\\', 'r']
    } else if c == '\t' {
        seq!['\\', 't']
    } else if c as u32 == 8 {
        seq!['\\', 'b']
    } else if c as u32 == 12 {
        seq!['\\', 'f']
    } else if (c as u32) < 32 {
        seq!['\\', 'u', '0', '0', hex_digit(c as nat / 16), hex_digit(c as nat % 16)]
    } else {
        seq![c]
    }
}

/// The characters of a text as they stand in a JSON string.
pub open spec fn json_chars(s: Seq<char>) -> Seq<char>
    decreases s.len(),
{
    if s.len() == 0 {
        Seq::empty()
    } else {
        json_chars(s.drop_last()) + json_char(s.last())
    }
}

/// A text as a JSON string.
pub open spec fn json_string(s: Seq<char>) -> Seq<char> {
    seq!['"'] + json_chars(s) + seq!['"']
}

/// `serde_json::to_string` of a text: quotes around it, and in it a backslash
/// before quotes and backslashes, and the escapes for control characters. It
/// fails only where the type's own serialization does, which for a text it
/// does not.
#[verifier::external_body]
pub(crate) fn write_string(s: &str) -> (r: String)
    ensures
        r@ == json_string(s@),
{
    serde_json::to_string(s).expect("a string always serializes")
}

/// A name that holds nothing to escape stands between its quotes as it is.
pub(crate) proof fn lemma_plain_name(s: Seq<char>)
    requires
        is_plain_name(s),
    ensures
        json_chars(s) == s,
        json_string(s) == seq!['"'] + s + seq!['"'],
    decreases s.len(),
{
    if s.len() > 0 {
        assert(is_plain_name(s.drop_last())) by {
            assert forall|i: int| 0 <= i < s.drop_last().len() implies {
                let c = #[trigger] s.drop_last()[i];
                ('a' <= c && c <= 'z') || c == '_'
            } by {
                assert(s.drop_last()[i] == s[i]);
            }
        }
        lemma_plain_name(s.drop_last());
        let c = s[s.len() - 1];
        assert(json_char(c) == seq![c]);
        assert(json_chars(s) == s.drop_last() + seq![c]);
    }
}

} // verus!
