use echo_node::codec::{from_json, to_json, DecodeError};
use echo_node::json::Json;
use echo_node::message::{
    Body, Envelope, Payload, MALFORMED_REQUEST, NOT_SUPPORTED, PRECONDITION_FAILED,
};
use echo_node::node::{Handler, Outcome, ProtocolError, Server};
use echo_node::text::{decode, encode, is_blank};

fn standard_node() -> Server {
    let mut node = Server::unbound();
    node.register("echo".to_string(), Handler::Echo);
    node.register("generate".to_string(), Handler::Generate);
    node.register("broadcast".to_string(), Handler::Broadcast);
    node.register("read".to_string(), Handler::Read);
    node.register("topology".to_string(), Handler::Topology);
    node
}

fn line_in(node: &mut Server, line: &str) -> Outcome {
    let env = decode(line).unwrap().unwrap();
    node.handle(env)
}

fn sent_line(o: Outcome) -> String {
    match o {
        Outcome::Send(e) => encode(e),
        _ => panic!("expected an envelope to send"),
    }
}

fn sent(o: Outcome) -> Envelope {
    match o {
        Outcome::Send(e) => e,
        _ => panic!("expected an envelope to send"),
    }
}

const INIT: &str = r#"{"src":"c1","dest":"n1","body":{"type":"init","msg_id":1,"node_id":"n1","node_ids":["n1","n2"]}}"#;

fn bound_node() -> Server {
    let mut node = standard_node();
    let _ = line_in(&mut node, INIT);
    node
}

fn app(kind: &str, fields: Vec<(String, Json)>) -> Payload {
    Payload::App { kind: kind.to_string(), fields }
}

fn request(src: &str, msg_id: Option<u64>, in_reply_to: Option<u64>, payload: Payload) -> Envelope {
    Envelope {
        src: src.to_string(),
        dest: "n1".to_string(),
        body: Body { msg_id, in_reply_to, payload },
    }
}

#[test]
fn init_then_echo_scenario() {
    let mut node = standard_node();
    let first = sent_line(line_in(
        &mut node,
        r#"{"src":"c1","dest":"n1","body":{"type":"init","msg_id":1,"node_id":"n1","node_ids":["n1"]}}"#,
    ));
    assert_eq!(first, r#"{"body":{"in_reply_to":1,"msg_id":0,"type":"init_ok"},"dest":"c1","src":"n1"}"#);
    let second = sent_line(line_in(
        &mut node,
        r#"{"src":"c1","dest":"n1","body":{"type":"echo","msg_id":2,"echo":"hi"}}"#,
    ));
    assert_eq!(
        second,
        r#"{"body":{"echo":"hi","in_reply_to":2,"msg_id":1,"type":"echo_ok"},"dest":"c1","src":"n1"}"#
    );
}

#[test]
fn message_ids_are_consecutive_over_a_batch() {
    let mut node = bound_node();
    let start = node.peek_next_id();
    let envs = vec![
        request("c1", Some(5), None, app("echo", vec![])),
        request("c1", Some(6), Some(999), app("echo_ok", vec![])),
        request("c1", Some(7), None, app("generate", vec![])),
        request("c1", Some(8), None, app("nonsense", vec![])),
    ];
    let outs = node.handle_all(envs);
    let ids: Vec<u64> = outs
        .iter()
        .filter_map(|o| match o {
            Outcome::Send(e) => e.body.msg_id,
            _ => None,
        })
        .collect();
    assert_eq!(ids, vec![start, start + 1, start + 2]);
    assert!(matches!(outs[1], Outcome::Dropped));
    assert_eq!(node.peek_next_id(), start + 3);
}

fn sample_payload(i: usize) -> Payload {
    match i {
        0 => Payload::Init { node_id: "n3".to_string(), node_ids: vec!["n1".to_string(), "n3".to_string()] },
        1 => Payload::InitOk,
        2 => Payload::Error { code: 11, text: "busy".to_string() },
        _ => app("echo", vec![("echo".to_string(), Json::Str("x".to_string()))]),
    }
}

#[test]
fn round_trip_of_built_in_payloads() {
    for i in 0..4 {
        let original = request("c9", Some(4), Some(3), sample_payload(i));
        let back = from_json(to_json(request("c9", Some(4), Some(3), sample_payload(i)))).unwrap();
        assert_eq!(back, original);
        let bare = from_json(to_json(request("c9", None, None, sample_payload(i)))).unwrap();
        assert_eq!(bare, request("c9", None, None, sample_payload(i)));
        let line = encode(request("c9", Some(4), Some(3), sample_payload(i)));
        assert_eq!(decode(&line).unwrap().unwrap(), original);
    }
}

#[test]
fn init_ok_and_error_field_presence() {
    let ok = encode(request("c9", Some(4), None, Payload::InitOk));
    assert_eq!(ok, r#"{"body":{"msg_id":4,"type":"init_ok"},"dest":"n1","src":"c9"}"#);
    let err = encode(request("c9", None, Some(2), Payload::Error { code: 10, text: "no".to_string() }));
    assert_eq!(err, r#"{"body":{"code":10,"in_reply_to":2,"text":"no","type":"error"},"dest":"n1","src":"c9"}"#);
}

#[test]
fn server_new_is_bound() {
    let mut server = Server::new("n7".to_string(), vec!["n7".to_string(), "n8".to_string()]);
    assert_eq!(server.node_id().unwrap(), "n7");
    assert_eq!(server.peers().unwrap().len(), 2);
    assert_eq!(server.peek_next_id(), 0);
    assert_eq!(server.generate_id(), 0);
    assert_eq!(server.generate_id(), 1);
    assert_eq!(server.peek_generated(), 2);
    assert_eq!(server.next_message_id(), 0);
    assert_eq!(server.next_message_id(), 1);
}

#[test]
fn init_fields_survive_decoding() {
    let env = decode(INIT).unwrap().unwrap();
    match env.body.payload {
        Payload::Init { node_id, node_ids } => {
            assert_eq!(node_id, "n1");
            assert_eq!(node_ids, vec!["n1".to_string(), "n2".to_string()]);
        },
        _ => panic!("expected init"),
    }
}

#[test]
fn handshake_required_before_init() {
    let mut node = standard_node();
    let e = sent(line_in(&mut node, r#"{"src":"c1","dest":"n1","body":{"type":"echo","msg_id":7,"echo":"a"}}"#));
    assert_eq!(e.src, "n1");
    assert_eq!(e.dest, "c1");
    assert_eq!(e.body.in_reply_to, Some(7));
    assert!(matches!(e.body.payload, Payload::Error { code: PRECONDITION_FAILED, .. }));
    assert_eq!(node.node_id(), Err(ProtocolError::HandshakeRequired));
    assert!(node.peers().is_err());
    let ok = sent(line_in(&mut node, INIT));
    assert!(matches!(ok.body.payload, Payload::InitOk));
    assert_eq!(node.node_id().unwrap(), "n1");
    assert_eq!(node.peers().unwrap().len(), 2);
}

#[test]
fn second_init_is_rejected() {
    let mut node = bound_node();
    let e = sent(line_in(
        &mut node,
        r#"{"src":"c2","dest":"n1","body":{"type":"init","msg_id":3,"node_id":"zz","node_ids":["zz"]}}"#,
    ));
    assert!(matches!(e.body.payload, Payload::Error { code: PRECONDITION_FAILED, .. }));
    assert_eq!(e.src, "n1");
    assert_eq!(node.node_id().unwrap(), "n1");
    assert_eq!(node.peers().unwrap(), &vec!["n1".to_string(), "n2".to_string()]);
    assert_eq!(node.bind("zz".to_string(), vec![]), Err(ProtocolError::AlreadyBound));
}

#[test]
fn bind_once() {
    let mut node = Server::unbound();
    assert_eq!(node.bind("a".to_string(), vec!["a".to_string()]), Ok(()));
    assert_eq!(node.node_id().unwrap(), "a");
}

#[test]
fn request_resolves_on_matching_reply() {
    let mut node = bound_node();
    let req = node.send_request("n2".to_string(), app("read", vec![]), 100, 50);
    let id = req.body.msg_id.unwrap();
    assert_eq!(req.src, "n1");
    assert_eq!(req.dest, "n2");
    assert!(node.is_awaiting(id));
    let reply = request("n2", Some(40), Some(id), app("read_ok", vec![]));
    match node.handle(reply) {
        Outcome::Resolved { request, payload } => {
            assert_eq!(request, id);
            assert!(matches!(payload, Payload::App { ref kind, .. } if kind == "read_ok"));
        },
        _ => panic!("expected the request to resolve"),
    }
    assert!(!node.is_awaiting(id));
}

#[test]
fn request_times_out() {
    let mut node = bound_node();
    let a = node.send_request("n2".to_string(), app("read", vec![]), 100, 50).body.msg_id.unwrap();
    let b = node.send_request("n2".to_string(), app("read", vec![]), 100, 500).body.msg_id.unwrap();
    assert_eq!(node.expire(149), Vec::<u64>::new());
    assert_eq!(node.expire(150), vec![a]);
    assert!(!node.is_awaiting(a));
    assert!(node.is_awaiting(b));
    let late = request("n2", None, Some(a), app("read_ok", vec![]));
    assert!(matches!(node.handle(late), Outcome::Dropped));
    assert!(node.is_awaiting(b));
}

#[test]
fn deadline_saturates() {
    let mut node = bound_node();
    let a = node.send_request("n2".to_string(), Payload::InitOk, u64::MAX - 1, 10).body.msg_id.unwrap();
    assert_eq!(node.expire(u64::MAX - 1), Vec::<u64>::new());
    assert_eq!(node.expire(u64::MAX), vec![a]);
}

#[test]
fn unmatched_reply_is_dropped() {
    let mut node = bound_node();
    let a = node.send_request("n2".to_string(), app("read", vec![]), 0, 10).body.msg_id.unwrap();
    let before = node.peek_next_id();
    let stray = request("n2", Some(1), Some(a + 100), app("read_ok", vec![]));
    assert!(matches!(node.handle(stray), Outcome::Dropped));
    assert!(node.is_awaiting(a));
    assert_eq!(node.peek_next_id(), before);
}

#[test]
fn unknown_type_is_not_supported() {
    let mut node = bound_node();
    let before = node.peek_next_id();
    let e = sent(line_in(&mut node, r#"{"src":"c1","dest":"n1","body":{"type":"frobnicate","msg_id":9}}"#));
    assert!(matches!(e.body.payload, Payload::Error { code: NOT_SUPPORTED, .. }));
    assert_eq!(e.body.in_reply_to, Some(9));
    assert_eq!(e.body.msg_id, Some(before));
    assert_eq!(node.peek_next_id(), before + 1);
}

#[test]
fn generate_broadcast_read_topology() {
    let mut node = bound_node();
    for expected in [0u64, 1] {
        let g = sent(node.handle(request("c1", Some(2), None, app("generate", vec![]))));
        match g.body.payload {
            Payload::App { kind, fields } => {
                assert_eq!(kind, "generate_ok");
                assert_eq!(fields, vec![("id".to_string(), Json::Num(expected))]);
            },
            _ => panic!("expected generate_ok"),
        }
    }
    for m in [5u64, 7] {
        let b = sent(node.handle(request("c1", Some(3), None, app("broadcast", vec![("message".to_string(), Json::Num(m))]))));
        assert!(matches!(b.body.payload, Payload::App { ref kind, ref fields } if kind == "broadcast_ok" && fields.is_empty()));
    }
    let bad = sent(node.handle(request("c1", Some(4), None, app("broadcast", vec![("message".to_string(), Json::Str("x".to_string()))]))));
    assert!(matches!(bad.body.payload, Payload::Error { code: MALFORMED_REQUEST, .. }));
    let r = sent_line(node.handle(request("c1", Some(5), None, app("read", vec![])))); 
    assert!(r.contains(r#""messages":[5,7]"#));
    assert!(r.contains(r#""type":"read_ok""#));
    let t = sent_line(line_in(&mut node, r#"{"src":"c1","dest":"n1","body":{"type":"topology","msg_id":6,"topology":{"n1":["n2"]}}}"#));
    assert!(t.contains(r#""type":"topology_ok""#));
}

#[test]
fn last_registration_wins() {
    let mut node = bound_node();
    node.register("echo".to_string(), Handler::Topology);
    let e = sent(node.handle(request("c1", Some(2), None, app("echo", vec![]))));
    assert!(matches!(e.body.payload, Payload::App { ref kind, .. } if kind == "topology_ok"));
}

#[test]
fn decode_errors() {
    assert_eq!(decode("{not json").err(), Some(DecodeError::Syntax));
    assert_eq!(decode("[1,2]").err(), Some(DecodeError::BadEnvelope));
    assert_eq!(decode(r#"{"src":"a","dest":"b"}"#).err(), Some(DecodeError::BadEnvelope));
    assert_eq!(decode(r#"{"src":"a","dest":"b","body":{"msg_id":1}}"#).err(), Some(DecodeError::MissingType));
    assert_eq!(decode(r#"{"src":"a","dest":"b","body":{"type":7}}"#).err(), Some(DecodeError::BadType));
    assert_eq!(decode(r#"{"src":"a","dest":"b","body":{"type":"x","msg_id":"one"}}"#).err(), Some(DecodeError::BadField));
    assert_eq!(decode(r#"{"src":"a","dest":"b","body":{"type":"init","node_id":"n1"}}"#).err(), Some(DecodeError::BadField));
    assert_eq!(decode(r#"{"src":"a","dest":"b","body":{"type":"x","msg_id":-1}}"#).err(), Some(DecodeError::BadField));
}

#[test]
fn unknown_type_decodes() {
    let env = decode(r#"  {"src":"a","dest":"b","body":{"type":"x","msg_id":null,"k":[true,null]}}  "#).unwrap().unwrap();
    assert_eq!(env.body.msg_id, None);
    match env.body.payload {
        Payload::App { kind, fields } => {
            assert_eq!(kind, "x");
            assert_eq!(fields, vec![("k".to_string(), Json::Arr(vec![Json::Bool(true), Json::Null]))]);
        },
        _ => panic!("expected an application payload"),
    }
}

#[test]
fn blank_lines_are_skipped() {
    assert!(matches!(decode(""), Ok(None)));
    assert!(matches!(decode(" \t\r\n"), Ok(None)));
    assert!(is_blank("  "));
    assert!(!is_blank(" x "));
}

#[test]
fn other_numbers_are_kept() {
    let line = r#"{"src":"a","dest":"b","body":{"type":"x","v":-1,"w":2.5}}"#;
    let env = decode(line).unwrap().unwrap();
    match &env.body.payload {
        Payload::App { fields, .. } => {
            assert_eq!(
                fields,
                &vec![
                    ("v".to_string(), Json::Real("-1".to_string())),
                    ("w".to_string(), Json::Real("2.5".to_string())),
                ]
            );
        },
        _ => panic!("expected an application payload"),
    }
    let text = encode(env);
    assert!(text.contains(r#""v":-1"#));
    assert!(text.contains(r#""w":2.5"#));
}

#[test]
fn resolving_keeps_other_requests() {
    let mut node = bound_node();
    let a = node.send_request("n2".to_string(), app("read", vec![]), 0, 10).body.msg_id.unwrap();
    let b = node.send_request("n2".to_string(), app("read", vec![]), 0, 20).body.msg_id.unwrap();
    assert!(node.take_pending(a));
    assert!(!node.take_pending(a));
    assert!(node.is_awaiting(b));
    assert_eq!(node.expire(19), Vec::<u64>::new());
    assert_eq!(node.expire(20), vec![b]);
}
