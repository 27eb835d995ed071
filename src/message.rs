use vstd::prelude::*;
use crate::json::Json;

verus! {

/// Error code of a request that no handler takes.
pub const NOT_SUPPORTED: u64 = 10;

/// Error code of a request whose fields do not have the expected shape.
pub const MALFORMED_REQUEST: u64 = 12;

/// Error code of a request that the node's state does not allow
/// (anything before the handshake, a second handshake).
pub const PRECONDITION_FAILED: u64 = 22;

/// What a message carries, told apart by its `type` field.
#[derive(Debug, PartialEq, Eq)]
pub enum Payload {
    Init { node_id: String, node_ids: Vec<String> },
    InitOk,
    Error { code: u64, text: String },
    /// Any other `type`, with the body's remaining fields as they came.
    App { kind: String, fields: Vec<(String, Json)> },
}

#[derive(Debug, PartialEq, Eq)]
pub struct Body {
    pub msg_id: Option<u64>,
    pub in_reply_to: Option<u64>,
    pub payload: Payload,
}

#[derive(Debug, PartialEq, Eq)]
pub struct Envelope {
    pub src: String,
    pub dest: String,
    pub body: Body,
}

pub enum PayloadModel {
    Init { node_id: Seq<char>, node_ids: Seq<Seq<char>> },
    InitOk,
    Error { code: u64, text: Seq<char> },
    App { kind: Seq<char>, fields: Seq<(String, Json)> },
}

pub struct EnvelopeModel {
    pub src: Seq<char>,
    pub dest: Seq<char>,
    pub msg_id: Option<u64>,
    pub in_reply_to: Option<u64>,
    pub payload: PayloadModel,
}

pub open spec fn strings_view(v: Seq<String>) -> Seq<Seq<char>> {
    v.map_values(|s: String| s@)
}

impl View for Payload {
    type V = PayloadModel;

    open spec fn view(&self) -> PayloadModel {
        match self {
            Payload::Init { node_id, node_ids } => PayloadModel::Init {
                node_id: node_id@,
                node_ids: strings_view(node_ids@),
            },
            Payload::InitOk => PayloadModel::InitOk,
            Payload::Error { code, text } => PayloadModel::Error { code: *code, text: text@ },
            Payload::App { kind, fields } => PayloadModel::App { kind: kind@, fields: fields@ },
        }
    }
}

impl View for Envelope {
    type V = EnvelopeModel;

    open spec fn view(&self) -> EnvelopeModel {
        EnvelopeModel {
            src: self.src@,
            dest: self.dest@,
            msg_id: self.body.msg_id,
            in_reply_to: self.body.in_reply_to,
            payload: self.body.payload@,
        }
    }
}

/// The `type` discriminator of a payload.
pub open spec fn kind_of(p: PayloadModel) -> Seq<char> {
    match p {
        PayloadModel::Init { .. } => "init"@,
        PayloadModel::InitOk => "init_ok"@,
        PayloadModel::Error { .. } => "error"@,
        PayloadModel::App { kind, .. } => kind,
    }
}

impl Payload {
    pub fn is_init(&self) -> (r: bool)
        ensures
            r == self is Init,
    {
        match self {
            Payload::Init { .. } => true,
            _ => false,
        }
    }

    /// The `type` discriminator.
    pub fn kind(&self) -> (r: String)
        ensures
            r@ == kind_of(self@),
    {
        match self {
            Payload::Init { .. } => "init".to_owned(),
            Payload::InitOk => "init_ok".to_owned(),
            Payload::Error { .. } => "error".to_owned(),
            Payload::App { kind, .. } => kind.clone(),
        }
    }
}

} // verus!
