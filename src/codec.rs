use vstd::prelude::*;
use crate::json::{Json, lookup, without, take_members, find_last};
use crate::json::{has_key, lemma_lookup_append, lemma_without_append, lemma_without_excludes, lemma_without_none};
use crate::message::{Body, Envelope, EnvelopeModel, Payload, PayloadModel, kind_of, strings_view};

verus! {

/// Why a line is not an envelope.
#[derive(Clone, Copy, PartialEq, Eq, Debug)]
pub enum DecodeError {
    /// Not JSON.
    Syntax,
    /// Not an object with string `src` and `dest` and an object `body`.
    BadEnvelope,
    /// The body has no `type`.
    MissingType,
    /// The body's `type` is not a string.
    BadType,
    /// `msg_id`, `in_reply_to` or a field of a built-in payload has the wrong shape.
    BadField,
}

/// The body members that are not payload fields.
pub open spec fn header_names() -> Seq<Seq<char>> {
    seq!["type"@, "msg_id"@, "in_reply_to"@]
}

/// An optional message id: absent or `null` is none.
pub open spec fn id_of(m: Option<Json>) -> Result<Option<u64>, DecodeError> {
    match m {
        None => Ok(None),
        Some(Json::Null) => Ok(None),
        Some(Json::Num(n)) => Ok(Some(n)),
        _ => Err(DecodeError::BadField),
    }
}

pub open spec fn all_strings(items: Seq<Json>) -> bool {
    forall|i: int| 0 <= i < items.len() ==> #[trigger] items[i] is Str
}

pub open spec fn strings_of(items: Seq<Json>) -> Seq<Seq<char>> {
    items.map_values(|j: Json| j->Str_0@)
}

/// The payload of discriminator `kind` with the fields `rest`.
pub open spec fn payload_of(kind: Seq<char>, rest: Seq<(String, Json)>) -> Result<PayloadModel, DecodeError> {
    if kind == "init"@ {
        match (lookup(rest, "node_id"@), lookup(rest, "node_ids"@)) {
            (Some(Json::Str(id)), Some(Json::Arr(ids))) => if all_strings(ids@) {
                Ok(PayloadModel::Init { node_id: id@, node_ids: strings_of(ids@) })
            } else {
                Err(DecodeError::BadField)
            },
            _ => Err(DecodeError::BadField),
        }
    } else if kind == "init_ok"@ {
        Ok(PayloadModel::InitOk)
    } else if kind == "error"@ {
        match (lookup(rest, "code"@), lookup(rest, "text"@)) {
            (Some(Json::Num(code)), Some(Json::Str(text))) => Ok(PayloadModel::Error { code, text: text@ }),
            _ => Err(DecodeError::BadField),
        }
    } else {
        Ok(PayloadModel::App { kind, fields: rest })
    }
}

/// The envelope that a body with members `b` makes, sent from `src` to `dest`.
pub open spec fn body_of(src: Seq<char>, dest: Seq<char>, b: Seq<(String, Json)>) -> Result<EnvelopeModel, DecodeError> {
    match lookup(b, "type"@) {
        None => Err(DecodeError::MissingType),
        Some(Json::Str(kind)) => match (id_of(lookup(b, "msg_id"@)), id_of(lookup(b, "in_reply_to"@))) {
            (Ok(msg_id), Ok(in_reply_to)) => match payload_of(kind@, without(b, header_names())) {
                Ok(payload) => Ok(EnvelopeModel { src, dest, msg_id, in_reply_to, payload }),
                Err(e) => Err(e),
            },
            _ => Err(DecodeError::BadField),
        },
        Some(_) => Err(DecodeError::BadType),
    }
}

/// The envelope that the JSON value `j` stands for. The `type` is read
/// first, and the remaining members are read as it says.
pub open spec fn envelope_of(j: Json) -> Result<EnvelopeModel, DecodeError> {
    match j {
        Json::Obj(top) => match (lookup(top@, "src"@), lookup(top@, "dest"@), lookup(top@, "body"@)) {
            (Some(Json::Str(src)), Some(Json::Str(dest)), Some(Json::Obj(b))) => body_of(src@, dest@, b@),
            _ => Err(DecodeError::BadEnvelope),
        },
        _ => Err(DecodeError::BadEnvelope),
    }
}

/// The member names of the wire format are pairwise distinct.
pub proof fn lemma_names_distinct()
    ensures
        "src"@ != "dest"@,
        "src"@ != "body"@,
        "dest"@ != "body"@,
        "type"@ != "msg_id"@,
        "type"@ != "in_reply_to"@,
        "msg_id"@ != "in_reply_to"@,
        "node_id"@ != "node_ids"@,
        "code"@ != "text"@,
        !header_names().contains("node_id"@),
        !header_names().contains("node_ids"@),
        !header_names().contains("code"@),
        !header_names().contains("text"@),
{
    reveal_strlit("src");
    reveal_strlit("dest");
    reveal_strlit("body");
    reveal_strlit("type");
    reveal_strlit("msg_id");
    reveal_strlit("in_reply_to");
    reveal_strlit("node_id");
    reveal_strlit("node_ids");
    reveal_strlit("code");
    reveal_strlit("text");
    assert("msg_id"@.len() == 6);
    assert("in_reply_to"@.len() == 11);
    assert("node_id"@.len() == 7);
    assert("node_ids"@.len() == 8);
    assert("dest"@[0] != "body"@[0]);
    assert("type"@[0] != "code"@[0]);
    assert("type"@[1] != "text"@[1]);
    assert("code"@[0] != "text"@[0]);
    assert(header_names()[0] == "type"@);
    assert(header_names()[1] == "msg_id"@);
    assert(header_names()[2] == "in_reply_to"@);
}

/// Whether `a` and `b` hold the same text.
fn same_text(a: &String, b: &str) -> (r: bool)
    ensures
        r == (a@ == b@),
{
    *a == b.to_owned()
}

fn read_id(m: Option<Json>) -> (r: Result<Option<u64>, DecodeError>)
    ensures
        r == id_of(m),
{
    match m {
        None => Ok(None),
        Some(Json::Null) => Ok(None),
        Some(Json::Num(n)) => Ok(Some(n)),
        _ => Err(DecodeError::BadField),
    }
}

/// The strings of `items`, if every item is one.
fn read_strings(items: &Vec<Json>) -> (r: Option<Vec<String>>)
    ensures
        r is Some == all_strings(items@),
        r matches Some(v) ==> crate::message::strings_view(v@) == strings_of(items@),
{
    let mut out: Vec<String> = Vec::new();
    let mut i: usize = 0;
    while i < items.len()
        invariant
            i <= items@.len(),
            out@.len() == i,
            forall|j: int| 0 <= j < i ==> #[trigger] items@[j] is Str,
            forall|j: int| 0 <= j < i ==> #[trigger] out@[j]@ == items@[j]->Str_0@,
        decreases items@.len() - i,
    {
        match &items[i] {
            Json::Str(s) => out.push(s.clone()),
            _ => return None,
        }
        i = i + 1;
    }
    proof {
        assert(crate::message::strings_view(out@) =~= strings_of(items@));
    }
    Some(out)
}

fn read_payload(kind: String, rest: Vec<(String, Json)>) -> (r: Result<Payload, DecodeError>)
    ensures
        match r {
            Ok(p) => payload_of(kind@, rest@) == Ok::<PayloadModel, DecodeError>(p@),
            Err(e) => payload_of(kind@, rest@) == Err::<PayloadModel, DecodeError>(e),
        },
{
    if same_text(&kind, "init") {
        let id = match find_last(&rest, "node_id") {
            Some(i) => match &rest[i].1 {
                Json::Str(s) => s.clone(),
                _ => return Err(DecodeError::BadField),
            },
            None => return Err(DecodeError::BadField),
        };
        let ids = match find_last(&rest, "node_ids") {
            Some(i) => match &rest[i].1 {
                Json::Arr(items) => match read_strings(items) {
                    Some(v) => v,
                    None => return Err(DecodeError::BadField),
                },
                _ => return Err(DecodeError::BadField),
            },
            None => return Err(DecodeError::BadField),
        };
        Ok(Payload::Init { node_id: id, node_ids: ids })
    } else if same_text(&kind, "init_ok") {
        Ok(Payload::InitOk)
    } else if same_text(&kind, "error") {
        let code = match find_last(&rest, "code") {
            Some(i) => match &rest[i].1 {
                Json::Num(n) => *n,
                _ => return Err(DecodeError::BadField),
            },
            None => return Err(DecodeError::BadField),
        };
        let text = match find_last(&rest, "text") {
            Some(i) => match &rest[i].1 {
                Json::Str(s) => s.clone(),
                _ => return Err(DecodeError::BadField),
            },
            None => return Err(DecodeError::BadField),
        };
        Ok(Payload::Error { code, text })
    } else {
        Ok(Payload::App { kind, fields: rest })
    }
}

/// Reads an envelope out of a JSON value.
pub fn from_json(j: Json) -> (r: Result<Envelope, DecodeError>)
    ensures
        match r {
            Ok(e) => envelope_of(j) == Ok::<EnvelopeModel, DecodeError>(e@),
            Err(x) => envelope_of(j) == Err::<EnvelopeModel, DecodeError>(x),
        },
{
    let top = match j {
        Json::Obj(top) => top,
        _ => return Err(DecodeError::BadEnvelope),
    };
    proof {
        lemma_names_distinct();
    }
    let (src, dest, body, _) = take_members(top, "src", "dest", "body");
    let (src, dest, b) = match (src, dest, body) {
        (Some(Json::Str(src)), Some(Json::Str(dest)), Some(Json::Obj(b))) => (src, dest, b),
        _ => return Err(DecodeError::BadEnvelope),
    };
    let (ty, msg_id, in_reply_to, rest) = take_members(b, "type", "msg_id", "in_reply_to");
    let kind = match ty {
        None => return Err(DecodeError::MissingType),
        Some(Json::Str(kind)) => kind,
        Some(_) => return Err(DecodeError::BadType),
    };
    let msg_id = match read_id(msg_id) {
        Ok(m) => m,
        Err(_) => return Err(DecodeError::BadField),
    };
    let in_reply_to = match read_id(in_reply_to) {
        Ok(m) => m,
        Err(_) => return Err(DecodeError::BadField),
    };
    let payload = read_payload(kind, rest)?;
    Ok(Envelope { src, dest, body: Body { msg_id, in_reply_to, payload } })
}

/// `j` is a string holding `x`.
pub open spec fn is_str(j: Json, x: Seq<char>) -> bool {
    j matches Json::Str(s) && s@ == x
}

/// How many header members the body of `e` has: `type`, then `msg_id`
/// and `in_reply_to` where they are set.
pub open spec fn header_len(e: EnvelopeModel) -> int {
    1 + (if e.msg_id is Some { 1int } else { 0 }) + (if e.in_reply_to is Some { 1int } else { 0 })
}

pub open spec fn header_encodes(h: Seq<(String, Json)>, e: EnvelopeModel) -> bool {
    &&& h.len() == header_len(e)
    &&& h[0].0@ == "type"@
    &&& is_str(h[0].1, kind_of(e.payload))
    &&& e.msg_id matches Some(n) ==> h[1].0@ == "msg_id"@ && h[1].1 == Json::Num(n)
    &&& e.in_reply_to matches Some(n) ==> h[h.len() - 1].0@ == "in_reply_to"@ && h[h.len() - 1].1 == Json::Num(n)
}

/// The payload's own members: `node_id` and `node_ids` for `init`, none
/// for `init_ok`, `code` and `text` for `error`, the fields as they are
/// for any other payload.
pub open spec fn payload_encodes(m: Seq<(String, Json)>, p: PayloadModel) -> bool {
    match p {
        PayloadModel::Init { node_id, node_ids } => {
            &&& m.len() == 2
            &&& m[0].0@ == "node_id"@
            &&& is_str(m[0].1, node_id)
            &&& m[1].0@ == "node_ids"@
            &&& m[1].1 matches Json::Arr(items)
            &&& all_strings(items@)
            &&& strings_of(items@) == node_ids
        },
        PayloadModel::InitOk => m.len() == 0,
        PayloadModel::Error { code, text } => {
            &&& m.len() == 2
            &&& m[0].0@ == "code"@
            &&& m[0].1 == Json::Num(code)
            &&& m[1].0@ == "text"@
            &&& is_str(m[1].1, text)
        },
        PayloadModel::App { fields, .. } => m == fields,
    }
}

/// `j` is the wire form of `e`: an object of `src`, `dest` and `body`, in
/// that order, whose body holds the header and then the payload's members.
pub open spec fn encodes(j: Json, e: EnvelopeModel) -> bool {
    &&& j matches Json::Obj(top)
    &&& top@.len() == 3
    &&& top@[0].0@ == "src"@
    &&& is_str(top@[0].1, e.src)
    &&& top@[1].0@ == "dest"@
    &&& is_str(top@[1].1, e.dest)
    &&& top@[2].0@ == "body"@
    &&& top@[2].1 matches Json::Obj(b)
    &&& b@.len() >= header_len(e)
    &&& header_encodes(b@.subrange(0, header_len(e)), e)
    &&& payload_encodes(b@.subrange(header_len(e), b@.len() as int), e.payload)
}

/// An envelope that reads back as itself: an application payload does
/// not take a built-in discriminator, nor a header name for a field.
pub open spec fn encodable(e: EnvelopeModel) -> bool {
    e.payload matches PayloadModel::App { kind, fields } ==> {
        &&& kind != "init"@
        &&& kind != "init_ok"@
        &&& kind != "error"@
        &&& forall|i: int| 0 <= i < fields.len() ==> !header_names().contains(#[trigger] fields[i].0@)
    }
}

proof fn lemma_header_reads(h: Seq<(String, Json)>, e: EnvelopeModel)
    requires
        header_encodes(h, e),
    ensures
        lookup(h, "type"@) == Some(h[0].1),
        id_of(lookup(h, "msg_id"@)) == Ok::<Option<u64>, DecodeError>(e.msg_id),
        id_of(lookup(h, "in_reply_to"@)) == Ok::<Option<u64>, DecodeError>(e.in_reply_to),
        without(h, header_names()) == Seq::<(String, Json)>::empty(),
        forall|i: int| 0 <= i < h.len() ==> header_names().contains(#[trigger] h[i].0@),
{
    lemma_names_distinct();
    reveal_with_fuel(lookup, 4);
    reveal_with_fuel(without, 4);
    assert(header_names()[0] == "type"@);
    assert(header_names()[1] == "msg_id"@);
    assert(header_names()[2] == "in_reply_to"@);
    let n = h.len();
    if n >= 2 {
        assert(h.drop_last().len() == n - 1);
        assert(h.drop_last()[0] == h[0]);
        if n == 3 {
            assert(h.drop_last().drop_last().len() == 1);
            assert(h.drop_last().drop_last()[0] == h[0]);
            assert(h.drop_last()[1] == h[1]);
        }
    }
    assert(h.last() == h[n - 1]);
}

proof fn lemma_payload_reads(m: Seq<(String, Json)>, e: EnvelopeModel)
    requires
        payload_encodes(m, e.payload),
        encodable(e),
    ensures
        payload_of(kind_of(e.payload), m) == Ok::<PayloadModel, DecodeError>(e.payload),
        forall|i: int| 0 <= i < m.len() ==> !header_names().contains(#[trigger] m[i].0@),
{
    lemma_names_distinct();
    reveal_with_fuel(lookup, 3);
    reveal_strlit("init");
    reveal_strlit("init_ok");
    reveal_strlit("error");
    assert("init"@.len() == 4);
    assert("init_ok"@.len() == 7);
    assert("error"@.len() == 5);
    if m.len() == 2 {
        assert(m.drop_last().len() == 1);
        assert(m.drop_last()[0] == m[0]);
        assert(m.last() == m[1]);
    }
}

/// Reading back the wire form of an envelope gives the envelope.
pub proof fn lemma_round_trip(j: Json, e: EnvelopeModel)
    requires
        encodes(j, e),
        encodable(e),
    ensures
        envelope_of(j) == Ok::<EnvelopeModel, DecodeError>(e),
{
    lemma_names_distinct();
    reveal_with_fuel(lookup, 4);
    let top = j->Obj_0@;
    assert(top.drop_last().len() == 2);
    assert(top.drop_last()[0] == top[0]);
    assert(top.drop_last()[1] == top[1]);
    assert(top.drop_last().drop_last()[0] == top[0]);
    assert(top.last() == top[2]);
    let b = top[2].1->Obj_0@;
    let hl = header_len(e);
    let h = b.subrange(0, hl);
    let m = b.subrange(hl, b.len() as int);
    assert(b =~= h + m);
    lemma_header_reads(h, e);
    lemma_payload_reads(m, e);
    assert forall|k: Seq<char>| header_names().contains(k) implies !has_key(m, k) by {
        if has_key(m, k) {
            let i = choose|i: int| 0 <= i < m.len() && #[trigger] m[i].0@ == k;
            assert(!header_names().contains(m[i].0@));
        }
    }
    assert(header_names()[0] == "type"@);
    assert(header_names()[1] == "msg_id"@);
    assert(header_names()[2] == "in_reply_to"@);
    lemma_lookup_append(h, m, "type"@);
    lemma_lookup_append(h, m, "msg_id"@);
    lemma_lookup_append(h, m, "in_reply_to"@);
    lemma_without_append(h, m, header_names());
    lemma_without_none(m, header_names());
    assert(Seq::<(String, Json)>::empty() + m =~= m);
}

fn strings_to_json(v: &Vec<String>) -> (r: Vec<Json>)
    ensures
        all_strings(r@),
        strings_of(r@) == strings_view(v@),
{
    let mut out: Vec<Json> = Vec::new();
    let mut i: usize = 0;
    while i < v.len()
        invariant
            i <= v@.len(),
            out@.len() == i,
            forall|j: int| 0 <= j < i ==> is_str(#[trigger] out@[j], v@[j]@),
        decreases v@.len() - i,
    {
        out.push(Json::Str(v[i].clone()));
        i = i + 1;
    }
    proof {
        assert forall|j: int| 0 <= j < out@.len() implies #[trigger] out@[j] is Str by {
            assert(is_str(out@[j], v@[j]@));
        }
        assert forall|j: int| 0 <= j < out@.len() implies strings_of(out@)[j] == strings_view(v@)[j] by {
            assert(is_str(out@[j], v@[j]@));
        }
        assert(strings_of(out@) =~= strings_view(v@));
    }
    out
}

/// The wire form of an envelope.
pub fn to_json(e: Envelope) -> (r: Json)
    ensures
        encodes(r, e@),
{
    let ghost model = e@;
    let Envelope { src, dest, body } = e;
    let Body { msg_id, in_reply_to, payload } = body;
    let mut b: Vec<(String, Json)> = Vec::new();
    b.push(("type".to_owned(), Json::Str(payload.kind())));
    match msg_id {
        Some(n) => b.push(("msg_id".to_owned(), Json::Num(n))),
        None => {},
    }
    match in_reply_to {
        Some(n) => b.push(("in_reply_to".to_owned(), Json::Num(n))),
        None => {},
    }
    let ghost h = b@;
    proof {
        assert(h.len() == header_len(model));
        assert(header_encodes(h, model));
    }
    match payload {
        Payload::Init { node_id, node_ids } => {
            let items = strings_to_json(&node_ids);
            b.push(("node_id".to_owned(), Json::Str(node_id)));
            b.push(("node_ids".to_owned(), Json::Arr(items)));
            proof {
                let m = b@.subrange(h.len() as int, b@.len() as int);
                assert(m.len() == 2);
                assert(m[0] == b@[h.len() as int]);
                assert(m[1] == b@[h.len() as int + 1]);
                assert(payload_encodes(m, model.payload));
            }
        },
        Payload::InitOk => {
            proof {
                assert(b@.subrange(h.len() as int, b@.len() as int).len() == 0);
            }
        },
        Payload::Error { code, text } => {
            b.push(("code".to_owned(), Json::Num(code)));
            b.push(("text".to_owned(), Json::Str(text)));
            proof {
                let m = b@.subrange(h.len() as int, b@.len() as int);
                assert(m.len() == 2);
                assert(m[0] == b@[h.len() as int]);
                assert(m[1] == b@[h.len() as int + 1]);
                assert(payload_encodes(m, model.payload));
            }
        },
        Payload::App { kind, fields } => {
            let mut fields = fields;
            let ghost f = fields@;
            b.append(&mut fields);
            proof {
                assert(b@.subrange(h.len() as int, b@.len() as int) =~= f);
            }
        },
    }
    proof {
        assert(b@.subrange(0, header_len(model)) =~= h);
    }
    let mut top: Vec<(String, Json)> = Vec::new();
    top.push(("src".to_owned(), Json::Str(src)));
    top.push(("dest".to_owned(), Json::Str(dest)));
    top.push(("body".to_owned(), Json::Obj(b)));
    Json::Obj(top)
}

/// Every envelope that a JSON value reads as can be written back.
pub proof fn lemma_decoded_encodable(j: Json, e: EnvelopeModel)
    requires
        envelope_of(j) == Ok::<EnvelopeModel, DecodeError>(e),
    ensures
        encodable(e),
{
    let top = j->Obj_0@;
    let body = lookup(top, "body"@)->Some_0->Obj_0@;
    lemma_without_excludes(body, header_names());
}

/// Decoding, then writing the envelope out, then decoding again gives the
/// same envelope, field for field.
pub proof fn lemma_decode_encode(j: Json, e: EnvelopeModel, written: Json)
    requires
        envelope_of(j) == Ok::<EnvelopeModel, DecodeError>(e),
        encodes(written, e),
    ensures
        envelope_of(written) == Ok::<EnvelopeModel, DecodeError>(e),
{
    lemma_decoded_encodable(j, e);
    lemma_round_trip(written, e);
}

} // verus!
