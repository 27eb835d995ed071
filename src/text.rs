use vstd::prelude::*;
use vstd::string::StrSliceExecFns;
use crate::codec::{DecodeError, encodes, envelope_of, from_json, to_json};
use crate::json::Json;
use crate::message::Envelope;

verus! {

#[verifier::external_type_specification]
#[verifier::external_body]
pub struct ExValue(serde_json::Value);

/// One level of a `serde_json::Value`: its kind, with the values below it
/// still in serde_json's form.
pub enum Layer {
    Null,
    Bool(bool),
    /// A number: as an unsigned 64-bit integer where it is one, and as its text.
    Num(Option<u64>, String),
    Str(String),
    Arr(Vec<serde_json::Value>),
    Obj(Vec<(String, serde_json::Value)>),
}

/// What serde_json reads a line as, in the protocol's terms: `None` where
/// serde_json rejects the line.
pub uninterp spec fn json_of_text(line: Seq<char>) -> Option<Json>;

/// The compact text that serde_json writes for a value.
pub uninterp spec fn json_text(j: Json) -> Seq<char>;

/// Relies on `serde_json::from_str`, whose reading depends on the text
/// alone; the value read is taken apart by `json_from_value`.
#[verifier::external_body]
fn parse_json(line: &str) -> (r: Option<Json>)
    ensures
        r == json_of_text(line@),
{
    serde_json::from_str::<serde_json::Value>(line).ok().and_then(|v| json_from_value(v, MAX_DEPTH))
}

/// Relies on the `Display` of `serde_json::Value` (compact JSON on one line),
/// which depends on the value alone; the value is built by `value_from_json`.
#[verifier::external_body]
fn render_json(j: &Json) -> (r: String)
    ensures
        r@ == json_text(*j),
{
    value_from_json(j).to_string()
}

/// Relies on the variants of `serde_json::Value`, on
/// `serde_json::Number::as_u64`, which is `Some` exactly for the unsigned
/// 64-bit integers, and on the `Display` of `serde_json::Number`.
#[verifier::external_body]
fn open_value(v: serde_json::Value) -> (r: Layer) {
    match v {
        serde_json::Value::Null => Layer::Null,
        serde_json::Value::Bool(b) => Layer::Bool(b),
        serde_json::Value::Number(n) => Layer::Num(n.as_u64(), n.to_string()),
        serde_json::Value::String(s) => Layer::Str(s),
        serde_json::Value::Array(a) => Layer::Arr(a),
        serde_json::Value::Object(m) => Layer::Obj(m.into_iter().collect()),
    }
}

/// Relies on the variants of `serde_json::Value` and on its `From<Option<u64>>`,
/// which gives `null` for `None` (the text of a number is not read here).
#[verifier::external_body]
fn close_value(l: Layer) -> (r: serde_json::Value) {
    match l {
        Layer::Null => serde_json::Value::Null,
        Layer::Bool(b) => serde_json::Value::Bool(b),
        Layer::Num(n, _) => serde_json::Value::from(n),
        Layer::Str(s) => serde_json::Value::String(s),
        Layer::Arr(a) => serde_json::Value::Array(a),
        Layer::Obj(m) => serde_json::Value::Object(m.into_iter().collect()),
    }
}

/// Relies on the `FromStr` of `serde_json::Number`; text that is no JSON
/// number is kept as a string.
#[verifier::external_body]
fn real_value(text: String) -> (r: serde_json::Value) {
    match text.parse::<serde_json::Number>() {
        Ok(n) => serde_json::Value::Number(n),
        Err(_) => serde_json::Value::String(text),
    }
}

/// Nesting deeper than this is refused; serde_json's reader stops earlier.
pub const MAX_DEPTH: u64 = 256;

/// The protocol's view of a serde_json value: `None` where the nesting is
/// deeper than `depth`.
pub fn json_from_value(v: serde_json::Value, depth: u64) -> (r: Option<Json>)
    decreases depth,
{
    match open_value(v) {
        Layer::Null => Some(Json::Null),
        Layer::Bool(b) => Some(Json::Bool(b)),
        Layer::Num(Some(n), _) => Some(Json::Num(n)),
        Layer::Num(None, text) => Some(Json::Real(text)),
        Layer::Str(s) => Some(Json::Str(s)),
        Layer::Arr(items) => {
            if depth == 0 {
                return None;
            }
            let mut items = items;
            let mut out: Vec<Json> = Vec::new();
            while items.len() > 0
                invariant
                    depth > 0,
                decreases items@.len(),
            {
                let item = items.remove(0);
                match json_from_value(item, depth - 1) {
                    Some(j) => out.push(j),
                    None => return None,
                }
            }
            Some(Json::Arr(out))
        },
        Layer::Obj(members) => {
            if depth == 0 {
                return None;
            }
            let mut members = members;
            let mut out: Vec<(String, Json)> = Vec::new();
            while members.len() > 0
                invariant
                    depth > 0,
                decreases members@.len(),
            {
                let (k, item) = members.remove(0);
                match json_from_value(item, depth - 1) {
                    Some(j) => out.push((k, j)),
                    None => return None,
                }
            }
            Some(Json::Obj(out))
        },
    }
}

/// The serde_json form of a protocol value.
pub fn value_from_json(j: &Json) -> (r: serde_json::Value)
    decreases j,
{
    match j {
        Json::Null => close_value(Layer::Null),
        Json::Bool(b) => close_value(Layer::Bool(*b)),
        Json::Num(n) => close_value(Layer::Num(Some(*n), String::new())),
        Json::Real(text) => real_value(text.clone()),
        Json::Str(s) => close_value(Layer::Str(s.clone())),
        Json::Arr(items) => {
            let mut out: Vec<serde_json::Value> = Vec::new();
            let mut i: usize = 0;
            while i < items.len()
                invariant
                    i <= items@.len(),
                    *j == Json::Arr(*items),
                decreases items@.len() - i,
            {
                proof {
                    vstd::std_specs::vec::axiom_vec_index_decreases(*items, i as int);
                    assert(decreases_to!(*j => (*j)->Arr_0));
                }
                out.push(value_from_json(&items[i]));
                i = i + 1;
            }
            close_value(Layer::Arr(out))
        },
        Json::Obj(members) => {
            let mut out: Vec<(String, serde_json::Value)> = Vec::new();
            let mut i: usize = 0;
            while i < members.len()
                invariant
                    i <= members@.len(),
                    *j == Json::Obj(*members),
                decreases members@.len() - i,
            {
                proof {
                    vstd::std_specs::vec::axiom_vec_index_decreases(*members, i as int);
                    assert(decreases_to!(*j => (*j)->Obj_0));
                    assert(decreases_to!(members[i as int] => members[i as int].1));
                }
                out.push((members[i].0.clone(), value_from_json(&members[i].1)));
                i = i + 1;
            }
            close_value(Layer::Obj(out))
        },
    }
}

pub open spec fn is_json_space(c: char) -> bool {
    c == ' ' || c == '\t' || c == '\n' || c == '\r'
}

/// A line of nothing but whitespace.
pub open spec fn blank(s: Seq<char>) -> bool {
    forall|i: int| 0 <= i < s.len() ==> is_json_space(#[trigger] s[i])
}

pub fn is_blank(line: &str) -> (r: bool)
    ensures
        r == blank(line@),
{
    let n = line.unicode_len();
    let mut i: usize = 0;
    while i < n
        invariant
            n == line@.len(),
            i <= n,
            forall|j: int| 0 <= j < i ==> is_json_space(#[trigger] line@[j]),
        decreases n - i,
    {
        let c = line.get_char(i);
        if !(c == ' ' || c == '\t' || c == '\n' || c == '\r') {
            return false;
        }
        i = i + 1;
    }
    true
}

/// Reads one input line: `Ok(None)` for a blank line, else the envelope
/// that the line's JSON value stands for.
pub fn decode(line: &str) -> (r: Result<Option<Envelope>, DecodeError>)
    ensures
        blank(line@) ==> r == Ok::<Option<Envelope>, DecodeError>(None),
        !blank(line@) ==> match json_of_text(line@) {
            None => r == Err::<Option<Envelope>, DecodeError>(DecodeError::Syntax),
            Some(j) => match envelope_of(j) {
                Ok(m) => r matches Ok(Some(e)) && e@ == m,
                Err(x) => r == Err::<Option<Envelope>, DecodeError>(x),
            },
        },
{
    if is_blank(line) {
        return Ok(None);
    }
    let j = match parse_json(line) {
        Some(j) => j,
        None => return Err(DecodeError::Syntax),
    };
    match from_json(j) {
        Ok(e) => Ok(Some(e)),
        Err(x) => Err(x),
    }
}

/// Writes an envelope as one line of JSON (without the line break): the
/// text of its wire form.
pub fn encode(e: Envelope) -> (r: String)
    ensures
        exists|j: Json| encodes(j, e@) && r@ == json_text(j),
{
    let j = to_json(e);
    render_json(&j)
}

} // verus!
