use vstd::prelude::*;
use crate::json::{Json, lookup, find_last};
use crate::message::{
    Body, Envelope, Payload, PayloadModel, strings_view, MALFORMED_REQUEST,
    NOT_SUPPORTED, PRECONDITION_FAILED,
};

verus! {

/// The application behaviours that a discriminator can be bound to.
#[derive(Clone, Copy, PartialEq, Eq, Debug)]
pub enum Handler {
    /// Replies `echo_ok` carrying the request's `echo` field.
    Echo,
    /// Replies `generate_ok` with an `id` unique to this node.
    Generate,
    /// Records the `message` number and replies `broadcast_ok`.
    Broadcast,
    /// Replies `read_ok` with every recorded number, in arrival order.
    Read,
    /// Replies `topology_ok`.
    Topology,
}

/// Who this node is, fixed by the handshake.
pub struct Identity {
    pub self_id: String,
    pub peers: Vec<String>,
}

/// An outstanding request: its message id and the time at which it is given up.
#[derive(Clone, Copy, PartialEq, Eq, Debug)]
pub struct PendingRequest {
    pub message_id: u64,
    pub deadline: u64,
}

/// Errors of the handshake.
#[derive(Clone, Copy, PartialEq, Eq, Debug)]
pub enum ProtocolError {
    HandshakeRequired,
    AlreadyBound,
}

/// What handling one inbound envelope comes to.
pub enum Outcome {
    /// An envelope to write out.
    Send(Envelope),
    /// The reply to the pending request `request` arrived.
    Resolved { request: u64, payload: Payload },
    /// A reply that no pending request waits for.
    Dropped,
}

/// The protocol engine of one node: identity, sequencer, correlator and
/// dispatch table.
pub struct Server {
    identity: Option<Identity>,
    next_id: u64,
    handlers: Vec<(String, Handler)>,
    pending: Vec<PendingRequest>,
    unique_id: usize,
    broadcasts: Vec<u64>,
}

/// `r` is an envelope from `from` to `to` with message id `id`, answering `in_reply_to`.
pub open spec fn addressed(r: Envelope, from: Seq<char>, to: Seq<char>, id: u64, in_reply_to: Option<u64>) -> bool {
    &&& r.src@ == from
    &&& r.dest@ == to
    &&& r.body.msg_id == Some(id)
    &&& r.body.in_reply_to == in_reply_to
}

pub open spec fn is_error(p: PayloadModel, code: u64) -> bool {
    p matches PayloadModel::Error { code: c, .. } && c == code
}

/// `p` is the application payload `kind` with exactly the members `fields`.
pub open spec fn is_app(p: PayloadModel, kind: Seq<char>, fields: Seq<(Seq<char>, Json)>) -> bool {
    &&& p matches PayloadModel::App { kind: k, fields: f }
    &&& k == kind
    &&& f.len() == fields.len()
    &&& forall|i: int| 0 <= i < f.len() ==> (#[trigger] f[i]).0@ == fields[i].0 && f[i].1 == fields[i].1
}

/// `j` is the array of the numbers `s`.
pub open spec fn is_num_array(j: Json, s: Seq<u64>) -> bool {
    &&& j matches Json::Arr(a)
    &&& a@.len() == s.len()
    &&& forall|i: int| 0 <= i < s.len() ==> #[trigger] a@[i] == Json::Num(s[i])
}

/// The reply payload of handler `h` to a request with members `fields`, when
/// the recorded numbers go from `before` to `after` and the generated ids
/// counter from `uid` to `uid_after`.
pub open spec fn handler_reply(
    h: Handler,
    fields: Seq<(String, Json)>,
    before: Seq<u64>,
    uid: usize,
    out: PayloadModel,
    after: Seq<u64>,
    uid_after: usize,
) -> bool {
    &&& (h == Handler::Generate ==> uid_after == uid + 1)
    &&& (h != Handler::Generate ==> uid_after == uid)
    &&& handler_payload(h, fields, before, uid, out, after)
}

/// The reply payload and recorded numbers of handler `h`, as `handler_reply` describes.
pub open spec fn handler_payload(
    h: Handler,
    fields: Seq<(String, Json)>,
    before: Seq<u64>,
    uid: usize,
    out: PayloadModel,
    after: Seq<u64>,
) -> bool {
    match h {
        Handler::Echo => after == before && match lookup(fields, "echo"@) {
            Some(v) => is_app(out, "echo_ok"@, seq![("echo"@, v)]),
            None => is_app(out, "echo_ok"@, seq![]),
        },
        Handler::Generate => after == before && is_app(out, "generate_ok"@, seq![("id"@, Json::Num(uid as u64))]),
        Handler::Broadcast => match lookup(fields, "message"@) {
            Some(Json::Num(m)) => after == before.push(m) && is_app(out, "broadcast_ok"@, seq![]),
            _ => after == before && is_error(out, MALFORMED_REQUEST),
        },
        Handler::Read => {
            &&& after == before
            &&& out matches PayloadModel::App { kind, fields: f }
            &&& kind == "read_ok"@
            &&& f.len() == 1
            &&& f[0].0@ == "messages"@
            &&& is_num_array(f[0].1, before)
        },
        Handler::Topology => after == before && is_app(out, "topology_ok"@, seq![]),
    }
}

/// A request still awaited at time `now`.
pub open spec fn waiting_at(now: u64) -> spec_fn(PendingRequest) -> bool {
    |p: PendingRequest| p.deadline > now
}

/// A request given up at time `now`.
pub open spec fn expired_at(now: u64) -> spec_fn(PendingRequest) -> bool {
    |p: PendingRequest| p.deadline <= now
}

/// One step of `handle`: from `pre`, handling `env` gives `r` and leaves `post`.
pub open spec fn handle_step(pre: Server, env: Envelope, post: Server, r: Outcome) -> bool {
    &&& (post.handler_table() == pre.handler_table())
    &&& (r matches Outcome::Send(e) ==> {
            &&& post.counter() == pre.counter() + 1
            &&& e.body.msg_id == Some(pre.counter())
            &&& e.dest@ == env.src@
            &&& e.body.in_reply_to == env.body.msg_id
    })
    &&& (!(r is Send) ==> post.counter() == pre.counter())
    // before the handshake
    &&& (!pre.bound() ==> post.outstanding() == pre.outstanding()
            && post.recorded() == pre.recorded() && post.generated() == pre.generated())
    &&& (!pre.bound() ==> match env.body.payload@ {
            PayloadModel::Init { node_id, node_ids } => {
                &&& post.bound()
                &&& post.own_id() == node_id
                &&& post.peer_ids() == node_ids
                &&& r matches Outcome::Send(e)
                &&& e.src@ == node_id
                &&& e.body.payload@ == PayloadModel::InitOk
            },
            _ => {
                &&& !post.bound()
                &&& r matches Outcome::Send(e)
                &&& e.src@ == env.dest@
                &&& is_error(e.body.payload@, PRECONDITION_FAILED)
            },
        })
    // after the handshake
    &&& (pre.bound() ==> post.bound() && post.own_id() == pre.own_id()
            && post.peer_ids() == pre.peer_ids())
    &&& (pre.bound() && env.body.payload is Init ==> {
            &&& r matches Outcome::Send(e)
            &&& e.src@ == pre.own_id()
            &&& is_error(e.body.payload@, PRECONDITION_FAILED)
            &&& post.outstanding() == pre.outstanding()
            &&& post.recorded() == pre.recorded()
            &&& post.generated() == pre.generated()
    })
    &&& (pre.bound() && !(env.body.payload is Init) && env.body.in_reply_to is Some ==> {
            let k = env.body.in_reply_to->Some_0;
            &&& post.recorded() == pre.recorded()
            &&& post.generated() == pre.generated()
            &&& !post.is_pending(k)
            &&& forall|j: u64| j != k ==> post.is_pending(j) == pre.is_pending(j)
            &&& post.outstanding() == pre.outstanding().filter(other_than(k))
            &&& pre.is_pending(k) ==> r == Outcome::Resolved { request: k, payload: env.body.payload }
            &&& !pre.is_pending(k) ==> r is Dropped && post.outstanding() == pre.outstanding()
    })
    &&& (pre.bound() && !(env.body.payload is Init) && env.body.in_reply_to is None ==> {
            &&& post.outstanding() == pre.outstanding()
            &&& r matches Outcome::Send(e)
            &&& e.src@ == pre.own_id()
            &&& match env.body.payload@ {
                PayloadModel::App { kind, fields } => match lookup(pre.handler_table(), kind) {
                    Some(h) => handler_reply(h, fields, pre.recorded(), pre.generated(),
                        e.body.payload@, post.recorded(), post.generated()),
                    None => is_error(e.body.payload@, NOT_SUPPORTED)
                        && post.recorded() == pre.recorded() && post.generated() == pre.generated(),
                },
                _ => is_error(e.body.payload@, NOT_SUPPORTED) && post.recorded() == pre.recorded() && post.generated() == pre.generated(),
            }
    })
}

/// The message ids of the envelopes sent among `outs`, in order.
pub open spec fn sent_ids(outs: Seq<Outcome>) -> Seq<u64>
    decreases outs.len(),
{
    if outs.len() == 0 {
        Seq::empty()
    } else {
        match outs.last() {
            Outcome::Send(e) => sent_ids(outs.drop_last()).push(e.body.msg_id->Some_0),
            _ => sent_ids(outs.drop_last()),
        }
    }
}

/// The requests other than `id`.
pub open spec fn other_than(id: u64) -> spec_fn(PendingRequest) -> bool {
    |p: PendingRequest| p.message_id != id
}

/// Filtering keeps a sequence whose members all pass.
proof fn lemma_filter_keeps_all(s: Seq<PendingRequest>, pred: spec_fn(PendingRequest) -> bool)
    requires
        forall|i: int| 0 <= i < s.len() ==> pred(#[trigger] s[i]),
    ensures
        s.filter(pred) == s,
    decreases s.len(),
{
    reveal(Seq::filter);
    if s.len() > 0 {
        assert forall|i: int| 0 <= i < s.drop_last().len() implies pred(#[trigger] s.drop_last()[i]) by {
            assert(s.drop_last()[i] == s[i]);
        }
        lemma_filter_keeps_all(s.drop_last(), pred);
        assert(pred(s[s.len() - 1]));
        assert(s.drop_last().push(s.last()) =~= s);
    }
}

impl Server {
    pub closed spec fn bound(&self) -> bool {
        self.identity is Some
    }

    pub closed spec fn own_id(&self) -> Seq<char> {
        self.identity->Some_0.self_id@
    }

    pub closed spec fn peer_ids(&self) -> Seq<Seq<char>> {
        strings_view(self.identity->Some_0.peers@)
    }

    /// The message id that the sequencer hands out next.
    pub closed spec fn counter(&self) -> u64 {
        self.next_id
    }

    /// The dispatch table in registration order; a later entry for a
    /// discriminator replaces an earlier one.
    pub closed spec fn handler_table(&self) -> Seq<(String, Handler)> {
        self.handlers@
    }

    pub closed spec fn outstanding(&self) -> Seq<PendingRequest> {
        self.pending@
    }

    /// The id that `generate_id` hands out next.
    pub closed spec fn generated(&self) -> usize {
        self.unique_id
    }

    /// The numbers recorded by the broadcast handler.
    pub closed spec fn recorded(&self) -> Seq<u64> {
        self.broadcasts@
    }

    pub open spec fn is_pending(&self, id: u64) -> bool {
        exists|i: int| 0 <= i < self.outstanding().len() && #[trigger] self.outstanding()[i].message_id == id
    }

    /// Every pending id was issued by the sequencer, and the table is kept in
    /// issuing order, so no id is pending twice.
    pub closed spec fn wf(&self) -> bool {
        &&& forall|i: int| 0 <= i < self.pending@.len() ==> #[trigger] self.pending@[i].message_id < self.next_id
        &&& forall|i: int, j: int| 0 <= i < j < self.pending@.len() ==>
            #[trigger] self.pending@[i].message_id < #[trigger] self.pending@[j].message_id
    }

    /// A server bound to `id` with the cluster `nodes`, as the handshake leaves it.
    pub fn new(id: String, nodes: Vec<String>) -> (r: Server)
        ensures
            r.wf(),
            r.bound(),
            r.own_id() == id@,
            r.peer_ids() == strings_view(nodes@),
            r.counter() == 0,
            r.generated() == 0,
            r.handler_table().len() == 0,
            r.outstanding().len() == 0,
            r.recorded().len() == 0,
    {
        Server {
            identity: Some(Identity { self_id: id, peers: nodes }),
            next_id: 0,
            handlers: Vec::new(),
            pending: Vec::new(),
            unique_id: 0,
            broadcasts: Vec::new(),
        }
    }

    /// Hands out an id unique to this server: 0, 1, 2, ...
    pub fn generate_id(&mut self) -> (r: usize)
        requires
            old(self).wf(),
            old(self).generated() < usize::MAX,
        ensures
            final(self).wf(),
            r == old(self).generated(),
            final(self).generated() == r + 1,
            final(self).counter() == old(self).counter(),
            final(self).bound() == old(self).bound(),
            final(self).own_id() == old(self).own_id(),
            final(self).peer_ids() == old(self).peer_ids(),
            final(self).handler_table() == old(self).handler_table(),
            final(self).outstanding() == old(self).outstanding(),
            final(self).recorded() == old(self).recorded(),
    {
        let id = self.unique_id;
        self.unique_id = id + 1;
        id
    }

    /// A server that awaits its handshake.
    pub fn unbound() -> (r: Server)
        ensures
            r.wf(),
            !r.bound(),
            r.counter() == 0,
            r.generated() == 0,
            r.handler_table().len() == 0,
            r.outstanding().len() == 0,
            r.recorded().len() == 0,
    {
        Server {
            identity: None,
            next_id: 0,
            handlers: Vec::new(),
            pending: Vec::new(),
            unique_id: 0,
            broadcasts: Vec::new(),
        }
    }

    /// Binds `kind` to `handler`, replacing an earlier binding of `kind`.
    pub fn register(&mut self, kind: String, handler: Handler)
        requires
            old(self).wf(),
        ensures
            final(self).wf(),
            final(self).handler_table() == old(self).handler_table().push((kind, handler)),
            lookup(final(self).handler_table(), kind@) == Some(handler),
            final(self).bound() == old(self).bound(),
            final(self).own_id() == old(self).own_id(),
            final(self).peer_ids() == old(self).peer_ids(),
            final(self).counter() == old(self).counter(),
            final(self).outstanding() == old(self).outstanding(),
            final(self).recorded() == old(self).recorded(),
            final(self).generated() == old(self).generated(),
    {
        self.handlers.push((kind, handler));
        proof {
            assert(self.handlers@.drop_last() =~= old(self).handlers@);
        }
    }

    /// Hands out the next message id: ids go 0, 1, 2, ... and never repeat.
    pub fn next_message_id(&mut self) -> (r: u64)
        requires
            old(self).wf(),
            old(self).counter() < u64::MAX,
        ensures
            final(self).wf(),
            r == old(self).counter(),
            final(self).counter() == r + 1,
            final(self).bound() == old(self).bound(),
            final(self).own_id() == old(self).own_id(),
            final(self).peer_ids() == old(self).peer_ids(),
            final(self).handler_table() == old(self).handler_table(),
            final(self).outstanding() == old(self).outstanding(),
            final(self).recorded() == old(self).recorded(),
            final(self).generated() == old(self).generated(),
    {
        let id = self.next_id;
        self.next_id = id + 1;
        id
    }

    /// The id that the sequencer hands out next.
    pub fn peek_next_id(&self) -> (r: u64)
        ensures
            r == self.counter(),
    {
        self.next_id
    }

    /// The id that `generate_id` hands out next.
    pub fn peek_generated(&self) -> (r: usize)
        ensures
            r == self.generated(),
    {
        self.unique_id
    }

    /// Whether request `id` still awaits its reply.
    pub fn is_awaiting(&self, id: u64) -> (r: bool)
        ensures
            r == self.is_pending(id),
    {
        let mut i: usize = 0;
        while i < self.pending.len()
            invariant
                i <= self.pending@.len(),
                forall|j: int| 0 <= j < i ==> #[trigger] self.pending@[j].message_id != id,
            decreases self.pending@.len() - i,
        {
            if self.pending[i].message_id == id {
                proof {
                    assert(self.outstanding()[i as int].message_id == id);
                }
                return true;
            }
            i = i + 1;
        }
        false
    }

    /// Fixes the node's identity; only the first call succeeds.
    pub fn bind(&mut self, node_id: String, peers: Vec<String>) -> (r: Result<(), ProtocolError>)
        requires
            old(self).wf(),
        ensures
            final(self).wf(),
            old(self).bound() ==> r == Err::<(), ProtocolError>(ProtocolError::AlreadyBound)
                && final(self).own_id() == old(self).own_id()
                && final(self).peer_ids() == old(self).peer_ids(),
            !old(self).bound() ==> r is Ok && final(self).own_id() == node_id@
                && final(self).peer_ids() == strings_view(peers@),
            final(self).bound(),
            final(self).counter() == old(self).counter(),
            final(self).handler_table() == old(self).handler_table(),
            final(self).outstanding() == old(self).outstanding(),
            final(self).recorded() == old(self).recorded(),
            final(self).generated() == old(self).generated(),
    {
        if self.identity.is_some() {
            return Err(ProtocolError::AlreadyBound);
        }
        self.identity = Some(Identity { self_id: node_id, peers });
        Ok(())
    }

    /// The node's own id; before the handshake, `HandshakeRequired`.
    pub fn node_id(&self) -> (r: Result<&String, ProtocolError>)
        ensures
            r is Ok == self.bound(),
            r matches Ok(s) ==> s@ == self.own_id(),
            r matches Err(x) ==> x == ProtocolError::HandshakeRequired,
    {
        match &self.identity {
            Some(id) => Ok(&id.self_id),
            None => Err(ProtocolError::HandshakeRequired),
        }
    }

    /// Every node of the cluster; before the handshake, `HandshakeRequired`.
    pub fn peers(&self) -> (r: Result<&Vec<String>, ProtocolError>)
        ensures
            r is Ok == self.bound(),
            r matches Ok(p) ==> strings_view(p@) == self.peer_ids(),
            r matches Err(x) ==> x == ProtocolError::HandshakeRequired,
    {
        match &self.identity {
            Some(id) => Ok(&id.peers),
            None => Err(ProtocolError::HandshakeRequired),
        }
    }

    /// Issues a request to `dest`: a fresh id, registered as pending until
    /// `now + timeout` (saturating), carried by the returned envelope.
    pub fn send_request(&mut self, dest: String, payload: Payload, now: u64, timeout: u64) -> (r: Envelope)
        requires
            old(self).wf(),
            old(self).bound(),
            old(self).counter() < u64::MAX,
        ensures
            final(self).wf(),
            addressed(r, old(self).own_id(), dest@, old(self).counter(), None),
            r.body.payload == payload,
            final(self).outstanding() == old(self).outstanding().push(PendingRequest {
                message_id: old(self).counter(),
                deadline: if now as int + timeout as int <= u64::MAX { (now + timeout) as u64 } else { u64::MAX },
            }),
            final(self).is_pending(old(self).counter()),
            final(self).counter() == old(self).counter() + 1,
            final(self).bound(),
            final(self).own_id() == old(self).own_id(),
            final(self).peer_ids() == old(self).peer_ids(),
            final(self).handler_table() == old(self).handler_table(),
            final(self).recorded() == old(self).recorded(),
            final(self).generated() == old(self).generated(),
    {
        let deadline = if timeout <= u64::MAX - now { now + timeout } else { u64::MAX };
        let from = match &self.identity {
            Some(id) => id.self_id.clone(),
            None => String::new(),
        };
        let r = self.reply(from, dest, None, payload);
        let id = self.next_id - 1;
        self.pending.push(PendingRequest { message_id: id, deadline });
        proof {
            let n = self.pending@.len() - 1;
            assert(self.outstanding()[n].message_id == id);
            assert(id == old(self).counter());
        }
        r
    }

    /// Removes the pending request `id`, if there is one, and says whether there was.
    pub fn take_pending(&mut self, id: u64) -> (r: bool)
        requires
            old(self).wf(),
        ensures
            final(self).wf(),
            r == old(self).is_pending(id),
            !final(self).is_pending(id),
            !r ==> final(self).outstanding() == old(self).outstanding(),
            final(self).outstanding() == old(self).outstanding().filter(other_than(id)),
            forall|k: u64| k != id ==> final(self).is_pending(k) == old(self).is_pending(k),
            final(self).counter() == old(self).counter(),
            final(self).bound() == old(self).bound(),
            final(self).own_id() == old(self).own_id(),
            final(self).peer_ids() == old(self).peer_ids(),
            final(self).handler_table() == old(self).handler_table(),
            final(self).recorded() == old(self).recorded(),
            final(self).generated() == old(self).generated(),
    {
        let mut i: usize = 0;
        while i < self.pending.len()
            invariant
                *self == *old(self),
                self.wf(),
                i <= self.pending@.len(),
                forall|j: int| 0 <= j < i ==> #[trigger] self.pending@[j].message_id != id,
            decreases self.pending@.len() - i,
        {
            if self.pending[i].message_id == id {
                let ghost before = self.pending@;
                assert(old(self).outstanding()[i as int].message_id == id);
                self.pending.remove(i);
                proof {
                    let after = self.pending@;
                    assert(after =~= before.remove(i as int));
                    assert forall|j: int| 0 <= j < after.len() implies after[j].message_id != id by {
                        if j >= i {
                            assert(after[j] == before[j + 1]);
                            assert(before[i as int].message_id < before[j + 1].message_id);
                        } else {
                            assert(after[j] == before[j]);
                        }
                    }
                    assert forall|k: u64| k != id implies self.is_pending(k) == old(self).is_pending(k) by {
                        if old(self).is_pending(k) {
                            let j = choose|j: int| 0 <= j < before.len() && #[trigger] before[j].message_id == k;
                            assert(j != i);
                            if j < i {
                                assert(after[j] == before[j]);
                                assert(self.outstanding()[j].message_id == k);
                            } else {
                                assert(after[j - 1] == before[j]);
                                assert(self.outstanding()[j - 1].message_id == k);
                            }
                        }
                        if self.is_pending(k) {
                            let j = choose|j: int| 0 <= j < after.len() && #[trigger] after[j].message_id == k;
                            if j < i {
                                assert(after[j] == before[j]);
                                assert(old(self).outstanding()[j].message_id == k);
                            } else {
                                assert(after[j] == before[j + 1]);
                                assert(old(self).outstanding()[j + 1].message_id == k);
                            }
                        }
                    }
                    let front = before.subrange(0, i as int);
                    let back = before.subrange(i + 1, before.len() as int);
                    assert(before =~= front + seq![before[i as int]] + back);
                    assert(after =~= front + back);
                    assert forall|m: int| 0 <= m < front.len() implies other_than(id)(#[trigger] front[m]) by {
                        assert(front[m] == before[m]);
                    }
                    assert forall|m: int| 0 <= m < back.len() implies other_than(id)(#[trigger] back[m]) by {
                        assert(back[m] == before[m + i + 1]);
                        assert(before[i as int].message_id < before[m + i + 1].message_id);
                    }
                    lemma_filter_keeps_all(front, other_than(id));
                    lemma_filter_keeps_all(back, other_than(id));
                    Seq::filter_distributes_over_add(front + seq![before[i as int]], back, other_than(id));
                    Seq::filter_distributes_over_add(front, seq![before[i as int]], other_than(id));
                    reveal_with_fuel(Seq::filter, 2);
                    assert(seq![before[i as int]].filter(other_than(id)) =~= Seq::<PendingRequest>::empty()) by {
                        assert(seq![before[i as int]].drop_last() =~= Seq::<PendingRequest>::empty());
                    }
                    assert((front + seq![before[i as int]] + back).filter(other_than(id)) == front + back);
                    assert forall|a: int, b: int| 0 <= a < b < after.len() implies
                        #[trigger] after[a].message_id < #[trigger] after[b].message_id by {
                        let a0 = if a < i { a } else { a + 1 };
                        let b0 = if b < i { b } else { b + 1 };
                        assert(after[a] == before[a0]);
                        assert(after[b] == before[b0]);
                    }
                }
                return true;
            }
            i = i + 1;
        }
        proof {
            assert forall|m: int| 0 <= m < self.pending@.len() implies other_than(id)(#[trigger] self.pending@[m]) by {}
            lemma_filter_keeps_all(self.pending@, other_than(id));
            assert(self.outstanding() == old(self).outstanding());
        }
        false
    }

    /// Gives up every pending request whose deadline is at or before `now`,
    /// returning their ids in issuing order.
    pub fn expire(&mut self, now: u64) -> (r: Vec<u64>)
        requires
            old(self).wf(),
        ensures
            final(self).wf(),
            final(self).outstanding() == old(self).outstanding().filter(waiting_at(now)),
            r@ == old(self).outstanding().filter(expired_at(now)).map_values(
                |p: PendingRequest| p.message_id,
            ),
            forall|i: int| 0 <= i < old(self).outstanding().len() ==>
                final(self).is_pending(#[trigger] old(self).outstanding()[i].message_id)
                    == (old(self).outstanding()[i].deadline > now),
            final(self).counter() == old(self).counter(),
            final(self).bound() == old(self).bound(),
            final(self).own_id() == old(self).own_id(),
            final(self).peer_ids() == old(self).peer_ids(),
            final(self).handler_table() == old(self).handler_table(),
            final(self).recorded() == old(self).recorded(),
            final(self).generated() == old(self).generated(),
    {
        let ghost all = self.pending@;
        let mut kept: Vec<PendingRequest> = Vec::new();
        let mut gone: Vec<PendingRequest> = Vec::new();
        let mut i: usize = 0;
        while i < self.pending.len()
            invariant
                self.pending@ == all,
                self.wf(),
                i <= all.len(),
                kept@ == all.subrange(0, i as int).filter(waiting_at(now)),
                gone@ == all.subrange(0, i as int).filter(expired_at(now)),
                forall|m: int| 0 <= m < kept@.len() ==> #[trigger] kept@[m].message_id < self.next_id,
                forall|m: int, j: int| 0 <= m < kept@.len() && i <= j < all.len() ==>
                    #[trigger] kept@[m].message_id < #[trigger] all[j].message_id,
                forall|a: int, b: int| 0 <= a < b < kept@.len() ==>
                    #[trigger] kept@[a].message_id < #[trigger] kept@[b].message_id,
            decreases all.len() - i,
        {
            let p = self.pending[i];
            let ghost kept0 = kept@;
            let ghost gone0 = gone@;
            if p.deadline > now {
                kept.push(p);
            } else {
                gone.push(p);
            }
            proof {
                reveal(Seq::filter);
                let s1 = all.subrange(0, i + 1);
                assert(s1.drop_last() =~= all.subrange(0, i as int));
                assert(s1.last() == p);
                assert(s1.filter(waiting_at(now)) == if waiting_at(now)(p) { kept0.push(p) } else { kept0 });
                assert(s1.filter(expired_at(now)) == if expired_at(now)(p) { gone0.push(p) } else { gone0 });
                assert(waiting_at(now)(p) == (p.deadline > now));
                assert(expired_at(now)(p) == (p.deadline <= now));
            }
            i = i + 1;
        }
        proof {
            assert(all.subrange(0, all.len() as int) =~= all);
        }
        self.pending = kept;
        proof {
            let live = all.filter(waiting_at(now));
            assert forall|i: int| 0 <= i < all.len() implies
                self.is_pending(#[trigger] all[i].message_id) == (all[i].deadline > now) by {
                if all[i].deadline > now {
                    all.lemma_filter_contains(waiting_at(now), i);
                    let j = choose|j: int| 0 <= j < live.len() && live[j] == all[i];
                    assert(self.outstanding()[j].message_id == all[i].message_id);
                } else if self.is_pending(all[i].message_id) {
                    let j = choose|j: int| 0 <= j < live.len() && #[trigger] self.outstanding()[j].message_id
                        == all[i].message_id;
                    all.lemma_filter_pred(waiting_at(now), j);
                    all.lemma_filter_contains_rev(waiting_at(now), live[j]);
                    let m = choose|m: int| 0 <= m < all.len() && all[m] == live[j];
                    assert(all[m].message_id == all[i].message_id);
                    if m < i {
                        assert(all[m].message_id < all[i].message_id);
                    } else if i < m {
                        assert(all[i].message_id < all[m].message_id);
                    }
                }
            }
        }
        let mut ids: Vec<u64> = Vec::new();
        let mut k: usize = 0;
        while k < gone.len()
            invariant
                k <= gone@.len(),
                ids@ == gone@.subrange(0, k as int).map_values(|p: PendingRequest| p.message_id),
            decreases gone@.len() - k,
        {
            proof {
                assert(gone@.subrange(0, k + 1).map_values(|p: PendingRequest| p.message_id) =~=
                    gone@.subrange(0, k as int).map_values(|p: PendingRequest| p.message_id).push(gone@[k as int].message_id));
            }
            ids.push(gone[k].message_id);
            k = k + 1;
        }
        proof {
            assert(gone@.subrange(0, gone@.len() as int) =~= gone@);
        }
        ids
    }

    /// Handles one inbound envelope: the handshake before anything else,
    /// replies to the correlator, every other request to its handler.
    pub fn handle(&mut self, env: Envelope) -> (r: Outcome)
        requires
            old(self).wf(),
            old(self).counter() < u64::MAX,
            old(self).generated() < usize::MAX,
        ensures
            final(self).wf(),
            handle_step(*old(self), env, *final(self), r),
    {
        let Envelope { src, dest, body } = env;
        let Body { msg_id, in_reply_to, payload } = body;
        if self.identity.is_none() {
            match payload {
                Payload::Init { node_id, node_ids } => {
                    let from = node_id.clone();
                    self.identity = Some(Identity { self_id: node_id, peers: node_ids });
                    Outcome::Send(self.reply(from, src, msg_id, Payload::InitOk))
                },
                _ => {
                    let p = error_payload(PRECONDITION_FAILED, "handshake required");
                    Outcome::Send(self.reply(dest, src, msg_id, p))
                },
            }
        } else {
            let me = match &self.identity {
                Some(id) => id.self_id.clone(),
                None => String::new(),
            };
            if payload.is_init() {
                let p = error_payload(PRECONDITION_FAILED, "already bound");
                return Outcome::Send(self.reply(me, src, msg_id, p));
            }
            match in_reply_to {
                Some(k) => {
                    if self.take_pending(k) {
                        Outcome::Resolved { request: k, payload }
                    } else {
                        Outcome::Dropped
                    }
                },
                None => {
                    let out = match payload {
                        Payload::App { kind, fields } => match self.handler_for(&kind) {
                            Some(h) => self.run_handler(h, fields),
                            None => error_payload(NOT_SUPPORTED, "not supported"),
                        },
                        _ => error_payload(NOT_SUPPORTED, "not supported"),
                    };
                    Outcome::Send(self.reply(me, src, msg_id, out))
                },
            }
        }
    }

    /// Handles `envs` in order. The envelopes sent carry the ids
    /// `counter, counter + 1, ...`: strictly increasing, with no gap and no repeat.
    pub fn handle_all(&mut self, envs: Vec<Envelope>) -> (r: Vec<Outcome>)
        requires
            old(self).wf(),
            old(self).counter() + envs@.len() <= u64::MAX,
            old(self).generated() + envs@.len() <= usize::MAX,
        ensures
            final(self).wf(),
            r@.len() == envs@.len(),
            final(self).counter() == old(self).counter() + sent_ids(r@).len(),
            forall|i: int| 0 <= i < sent_ids(r@).len() ==> #[trigger] sent_ids(r@)[i] == old(self).counter() + i,
            forall|i: int, j: int| 0 <= i < j < sent_ids(r@).len() ==>
                #[trigger] sent_ids(r@)[i] < #[trigger] sent_ids(r@)[j],
            exists|states: Seq<Server>| {
                &&& states.len() == envs@.len() + 1
                &&& states[0] == *old(self)
                &&& states[envs@.len() as int] == *final(self)
                &&& forall|i: int| 0 <= i < envs@.len() ==>
                    handle_step(#[trigger] states[i], envs@[i], states[i + 1], r@[i])
            },
    {
        let ghost n = envs@.len();
        let ghost all = envs@;
        let ghost mut states: Seq<Server> = seq![*self];
        let mut envs = envs;
        let mut out: Vec<Outcome> = Vec::new();
        while envs.len() > 0
            invariant
                self.wf(),
                out@.len() + envs@.len() == n,
                self.counter() == old(self).counter() + sent_ids(out@).len(),
                sent_ids(out@).len() <= out@.len(),
                old(self).counter() + n <= u64::MAX,
                old(self).generated() + n <= usize::MAX,
                self.generated() <= old(self).generated() + out@.len(),
                forall|i: int| 0 <= i < sent_ids(out@).len() ==> #[trigger] sent_ids(out@)[i] == old(self).counter() + i,
                n == all.len(),
                envs@ == all.subrange(out@.len() as int, n as int),
                states.len() == out@.len() + 1,
                states[0] == *old(self),
                states[out@.len() as int] == *self,
                forall|i: int| 0 <= i < out@.len() ==>
                    handle_step(#[trigger] states[i], all[i], states[i + 1], out@[i]),
            decreases envs@.len(),
        {
            let ghost k = out@.len();
            let env = envs.remove(0);
            assert(env == all[k as int]);
            let ghost before = out@;
            let ghost c = self.counter();
            let ghost pre = *self;
            let o = self.handle(env);
            out.push(o);
            proof {
                states = states.push(*self);
                assert(envs@ =~= all.subrange(out@.len() as int, n as int));
                assert(handle_step(states[k as int], all[k as int], states[k as int + 1], out@[k as int]));
                assert forall|i: int| 0 <= i < out@.len() implies
                    handle_step(#[trigger] states[i], all[i], states[i + 1], out@[i]) by {
                    if i < k {
                        assert(out@[i] == before[i]);
                    }
                }
                assert(out@.drop_last() =~= before);
                if out@.last() is Send {
                    assert(sent_ids(out@) == sent_ids(before).push(c));
                }
            }
        }
        assert(all.subrange(0, n as int) =~= all);
        out
    }

    /// An envelope from `from` to `to` answering `in_reply_to`, with a fresh id.
    fn reply(&mut self, from: String, to: String, in_reply_to: Option<u64>, payload: Payload) -> (r: Envelope)
        requires
            old(self).wf(),
            old(self).counter() < u64::MAX,
        ensures
            final(self).wf(),
            addressed(r, from@, to@, old(self).counter(), in_reply_to),
            r.body.payload == payload,
            final(self).counter() == old(self).counter() + 1,
            final(self).bound() == old(self).bound(),
            final(self).own_id() == old(self).own_id(),
            final(self).peer_ids() == old(self).peer_ids(),
            final(self).handler_table() == old(self).handler_table(),
            final(self).outstanding() == old(self).outstanding(),
            final(self).recorded() == old(self).recorded(),
            final(self).generated() == old(self).generated(),
    {
        let id = self.next_message_id();
        Envelope { src: from, dest: to, body: Body { msg_id: Some(id), in_reply_to, payload } }
    }

    /// The handler bound to `kind`, the last registration winning.
    fn handler_for(&self, kind: &String) -> (r: Option<Handler>)
        ensures
            r == lookup(self.handler_table(), kind@),
    {
        match find_last(&self.handlers, kind.as_str()) {
            Some(i) => Some(self.handlers[i].1),
            None => None,
        }
    }

    /// Runs `handler` on a request with members `fields`.
    fn run_handler(&mut self, handler: Handler, fields: Vec<(String, Json)>) -> (r: Payload)
        requires
            old(self).wf(),
            old(self).generated() < usize::MAX,
        ensures
            final(self).wf(),
            handler_reply(handler, fields@, old(self).recorded(), old(self).generated(), r@,
                final(self).recorded(), final(self).generated()),
            final(self).counter() == old(self).counter(),
            final(self).bound() == old(self).bound(),
            final(self).own_id() == old(self).own_id(),
            final(self).peer_ids() == old(self).peer_ids(),
            final(self).handler_table() == old(self).handler_table(),
            final(self).outstanding() == old(self).outstanding(),
    {
        match handler {
            Handler::Echo => {
                let mut fields = fields;
                let mut out: Vec<(String, Json)> = Vec::new();
                match find_last(&fields, "echo") {
                    Some(i) => {
                        let member = fields.remove(i);
                        out.push(member);
                    },
                    None => {},
                }
                Payload::App { kind: "echo_ok".to_owned(), fields: out }
            },
            Handler::Generate => {
                let id = self.generate_id();
                let mut out: Vec<(String, Json)> = Vec::new();
                out.push(("id".to_owned(), Json::Num(id as u64)));
                Payload::App { kind: "generate_ok".to_owned(), fields: out }
            },
            Handler::Broadcast => {
                let found = find_last(&fields, "message");
                match found {
                    Some(i) => match &fields[i].1 {
                        Json::Num(m) => {
                            self.broadcasts.push(*m);
                            Payload::App { kind: "broadcast_ok".to_owned(), fields: Vec::new() }
                        },
                        _ => error_payload(MALFORMED_REQUEST, "message must be a number"),
                    },
                    None => error_payload(MALFORMED_REQUEST, "message must be a number"),
                }
            },
            Handler::Read => {
                let mut items: Vec<Json> = Vec::new();
                let mut i: usize = 0;
                while i < self.broadcasts.len()
                    invariant
                        i <= self.broadcasts@.len(),
                        items@.len() == i,
                        forall|j: int| 0 <= j < i ==> #[trigger] items@[j] == Json::Num(self.broadcasts@[j]),
                    decreases self.broadcasts@.len() - i,
                {
                    items.push(Json::Num(self.broadcasts[i]));
                    i = i + 1;
                }
                let mut out: Vec<(String, Json)> = Vec::new();
                out.push(("messages".to_owned(), Json::Arr(items)));
                Payload::App { kind: "read_ok".to_owned(), fields: out }
            },
            Handler::Topology => Payload::App { kind: "topology_ok".to_owned(), fields: Vec::new() },
        }
    }
}

/// An `error` payload with the given code.
pub fn error_payload(code: u64, text: &str) -> (r: Payload)
    ensures
        r@ == (PayloadModel::Error { code, text: text@ }),
{
    Payload::Error { code, text: text.to_owned() }
}

} // verus!
