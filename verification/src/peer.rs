//! The client-facing peer: the capability-negotiating handshake and
//! the operations built on request/response correlation. The peer is a
//! state machine from incoming messages to state and outgoing
//! messages; the medium itself lives outside.

use vstd::prelude::*;
use crate::value::Val;
use crate::value::Value;
use crate::value::val_view;
use crate::value::fields_view;
use crate::value::lemma_fields_view;
use crate::value::copy_bytes;
use crate::value::clone_value;
use crate::codec::bytes_eq;
use crate::correlator::Correlator;
use crate::correlator::timed_out;
use crate::errors::ProtocolError;
use crate::errors::RpcError;
use crate::errors::TransportError;
use crate::message::Message;
use crate::message::MsgVal;
use crate::message::Outcome;
use crate::message::OutcomeVal;
use crate::message::msg_view;
use crate::message::method_initialize;
use crate::message::method_initialize_vec;
use crate::message::method_tools_list;
use crate::message::method_tools_list_vec;
use crate::message::method_tools_call;
use crate::message::method_tools_call_vec;
use crate::message::key_name;
use crate::message::key_name_vec;
use crate::message::key_arguments;
use crate::message::key_arguments_vec;
use crate::message::key_protocol_version;
use crate::message::key_protocol_version_vec;
use crate::message::key_capabilities;
use crate::message::key_capabilities_vec;
use crate::message::key_version;
use crate::message::key_version_vec;
use crate::router::obj_lookup;
use crate::router::lookup_field;

verus! {

/// Where a connection stands in its life: before the handshake, with
/// the handshake on the wire, negotiated, or unusable.
pub enum PeerPhase {
    Idle,
    AwaitingInit { init_id: u64 },
    Ready,
    Failed,
}

/// What handling one incoming message meant for the caller.
#[derive(Debug, PartialEq, Eq)]
pub enum PeerEvent {
    /// A response that matched no outstanding request; dropped.
    Orphan,
    /// The handshake completed and the connection is usable.
    HandshakeComplete,
    /// The handshake failed; the connection is not usable.
    HandshakeFailed(ProtocolError),
    /// An ordinary outstanding request resolved.
    Resolved { id: u64, outcome: Outcome },
    /// A message this side does not act on.
    Ignored,
}

pub open spec fn acc_view(a: Vec<Vec<u8>>) -> Seq<Seq<u8>> {
    Seq::new(a@.len(), |i: int| a@[i]@)
}

/// Whether a protocol version is one this peer agreed to speak.
pub open spec fn accepted_version(acc: Seq<Seq<u8>>, v: Seq<u8>) -> bool {
    exists|k: int| 0 <= k < acc.len() && acc[k] == v
}

/// The capabilities both sides offered: the client's entries whose
/// name the server offered too, in the client's order.
pub open spec fn intersect_caps(
    client: Seq<(Seq<u8>, Val)>,
    server: Seq<(Seq<u8>, Val)>,
) -> Seq<(Seq<u8>, Val)>
    decreases client.len(),
{
    if client.len() == 0 {
        Seq::empty()
    } else {
        let front = intersect_caps(client.drop_last(), server);
        if obj_lookup(server, client.last().0) is Some {
            front.push(client.last())
        } else {
            front
        }
    }
}

/// The handshake parameters this peer sends.
pub open spec fn init_params_val(
    protocol_version: Seq<u8>,
    caps: Seq<(Seq<u8>, Val)>,
    name: Seq<u8>,
    version: Seq<u8>,
) -> Val {
    Val::Obj(
        seq![
            (key_protocol_version(), Val::Str(protocol_version)),
            (key_capabilities(), Val::Obj(caps)),
            (key_name(), Val::Str(name)),
            (key_version(), Val::Str(version)),
        ],
    )
}

/// How the handshake response decides the connection's fate: a
/// malformed payload or an error outcome fails it, a protocol version
/// outside the accepted set fails it with `VersionMismatch`, and
/// otherwise the server's capability record is adopted.
pub open spec fn init_check(acc: Seq<Seq<u8>>, outcome: OutcomeVal) -> Result<
    Seq<(Seq<u8>, Val)>,
    ProtocolError,
> {
    match outcome {
        OutcomeVal::Failure(_) => Err(ProtocolError::MalformedMessage),
        OutcomeVal::Success(v) => if !(v is Obj) {
            Err(ProtocolError::MalformedMessage)
        } else {
            let pv = obj_lookup(v->Obj_0, key_protocol_version());
            if !(pv is Some && pv->0 is Str) {
                Err(ProtocolError::MalformedMessage)
            } else if !accepted_version(acc, pv->0->Str_0) {
                Err(ProtocolError::VersionMismatch)
            } else {
                Ok(
                    match obj_lookup(v->Obj_0, key_capabilities()) {
                        Option::Some(c) => if c is Obj {
                            c->Obj_0
                        } else {
                            Seq::empty()
                        },
                        Option::None => Seq::empty(),
                    },
                )
            }
        },
    }
}

/// The parameters of a tool call request.
pub open spec fn call_params_val(name: Seq<u8>, args: Val) -> Val {
    Val::Obj(seq![(key_name(), Val::Str(name)), (key_arguments(), args)])
}

/// One endpoint of a connection in the client role.
pub struct Peer {
    phase: PeerPhase,
    correlator: Correlator,
    protocol_version: Vec<u8>,
    name: Vec<u8>,
    version: Vec<u8>,
    capabilities: Vec<(Vec<u8>, Value)>,
    accepted: Vec<Vec<u8>>,
    negotiated: Vec<(Vec<u8>, Value)>,
}

impl Peer {
    pub closed spec fn wf(&self) -> bool {
        self.correlator.wf()
    }

    pub closed spec fn phase(&self) -> PeerPhase {
        self.phase
    }

    /// The table of outstanding requests.
    pub closed spec fn pending(&self) -> Map<u64, Option<u64>> {
        self.correlator@
    }

    pub closed spec fn exhausted(&self) -> bool {
        self.correlator.exhausted()
    }

    /// How many requests are outstanding.
    pub closed spec fn outstanding(&self) -> nat {
        self.correlator.outstanding()
    }

    /// The versions this peer accepts.
    pub closed spec fn accepted_set(&self) -> Seq<Seq<u8>> {
        acc_view(self.accepted)
    }

    pub closed spec fn client_caps(&self) -> Seq<(Seq<u8>, Val)> {
        fields_view(self.capabilities, 0)
    }

    /// The capabilities both sides agreed on; empty before the
    /// handshake completes.
    pub closed spec fn negotiated_caps(&self) -> Seq<(Seq<u8>, Val)> {
        fields_view(self.negotiated, 0)
    }

    pub closed spec fn identity(&self) -> (Seq<u8>, Seq<u8>, Seq<u8>) {
        (self.protocol_version@, self.name@, self.version@)
    }

    pub fn new(
        protocol_version: Vec<u8>,
        name: Vec<u8>,
        version: Vec<u8>,
        capabilities: Vec<(Vec<u8>, Value)>,
        accepted: Vec<Vec<u8>>,
    ) -> (r: Peer)
        ensures
            r.wf(),
            r.phase() is Idle,
            r.pending() == Map::<u64, Option<u64>>::empty(),
            !r.exhausted(),
            r.accepted_set() == acc_view(accepted),
            r.client_caps() == fields_view(capabilities, 0),
            r.identity() == (protocol_version@, name@, version@),
    {
        let r = Peer {
            phase: PeerPhase::Idle,
            correlator: Correlator::new(),
            protocol_version,
            name,
            version,
            capabilities,
            accepted,
            negotiated: Vec::new(),
        };
        r
    }

    /// Opens the handshake: the one request that must precede every
    /// other operation. Owed success whenever the peer is idle and has
    /// identifiers left.
    pub fn start_initialize(&mut self, deadline: Option<u64>) -> (r: Result<
        (u64, Message),
        ProtocolError,
    >)
        requires
            old(self).wf(),
        ensures
            final(self).wf(),
            !(old(self).phase() is Idle) ==> r == Err::<(u64, Message), ProtocolError>(
                ProtocolError::NotInitialized,
            ) && *final(self) == *old(self),
            old(self).phase() is Idle && old(self).exhausted() ==> r is Err,
            r is Err ==> final(self).phase() == old(self).phase(),
            r is Err ==> final(self).pending() == old(self).pending(),
            r is Err ==> final(self).negotiated_caps() == old(self).negotiated_caps(),
            old(self).phase() is Idle && !old(self).exhausted() ==> match r {
                Ok((id, msg)) => {
                    &&& final(self).phase() == (PeerPhase::AwaitingInit { init_id: id })
                    &&& !old(self).pending().contains_key(id)
                    &&& final(self).pending() == old(self).pending().insert(id, deadline)
                    &&& msg_view(msg) == (MsgVal::Request {
                        id: id as int,
                        method: method_initialize(),
                        params: init_params_val(
                            old(self).identity().0,
                            old(self).client_caps(),
                            old(self).identity().1,
                            old(self).identity().2,
                        ),
                    })
                },
                Err(_) => false,
            },
            final(self).accepted_set() == old(self).accepted_set(),
            final(self).client_caps() == old(self).client_caps(),
            final(self).identity() == old(self).identity(),
    {
        match self.phase {
            PeerPhase::Idle => {},
            _ => {
                return Err(ProtocolError::NotInitialized);
            },
        }
        let issued = self.correlator.begin_request(deadline);
        match issued {
            None => Err(ProtocolError::NotInitialized),
            Some(id) => {
                self.phase = PeerPhase::AwaitingInit { init_id: id };
                let mut caps: Vec<(Vec<u8>, Value)> = Vec::new();
                let mut k: usize = 0;
                while k < self.capabilities.len()
                    invariant
                        k <= self.capabilities@.len(),
                        caps@.len() == k,
                        forall|m: int|
                            0 <= m < k ==> (#[trigger] caps@[m]).0@ == self.capabilities@[m].0@
                                && val_view(caps@[m].1) == val_view(self.capabilities@[m].1),
                    decreases self.capabilities@.len() - k,
                {
                    let nm = copy_bytes(&self.capabilities[k].0);
                    let cv = clone_value(&self.capabilities[k].1);
                    caps.push((nm, cv));
                    k = k + 1;
                }
                proof {
                    lemma_fields_view(caps, 0);
                    lemma_fields_view(self.capabilities, 0);
                    assert(fields_view(caps, 0) =~= fields_view(self.capabilities, 0));
                }
                let mut fields: Vec<(Vec<u8>, Value)> = Vec::new();
                fields.push(
                    (key_protocol_version_vec(), Value::Str(copy_bytes(&self.protocol_version))),
                );
                fields.push((key_capabilities_vec(), Value::Obj(caps)));
                fields.push((key_name_vec(), Value::Str(copy_bytes(&self.name))));
                fields.push((key_version_vec(), Value::Str(copy_bytes(&self.version))));
                proof {
                    lemma_fields_view(fields, 0);
                    assert(fields_view(fields, 0) =~= init_params_val(
                        self.protocol_version@,
                        fields_view(self.capabilities, 0),
                        self.name@,
                        self.version@,
                    )->Obj_0);
                }
                let msg = Message::Request {
                    id,
                    method: method_initialize_vec(),
                    params: Value::Obj(fields),
                };
                Ok((id, msg))
            },
        }
    }

    fn version_ok(&self, v: &Vec<u8>) -> (r: bool)
        ensures
            r == accepted_version(self.accepted_set(), v@),
    {
        let mut k: usize = 0;
        while k < self.accepted.len()
            invariant
                k <= self.accepted@.len(),
                forall|m: int| 0 <= m < k ==> acc_view(self.accepted)[m] != v@,
            decreases self.accepted@.len() - k,
        {
            if bytes_eq(self.accepted[k].as_slice(), v.as_slice()) {
                proof {
                    assert(acc_view(self.accepted)[k as int] == v@);
                }
                return true;
            }
            k = k + 1;
        }
        proof {
            if accepted_version(self.accepted_set(), v@) {
                let m = choose|m: int|
                    0 <= m < acc_view(self.accepted).len() && acc_view(self.accepted)[m] == v@;
                assert(false);
            }
        }
        false
    }

    /// Computes the agreed capability record from the server's.
    #[verifier::rlimit(60)]
    fn intersect(&self, server: &Vec<(Vec<u8>, Value)>) -> (r: Vec<(Vec<u8>, Value)>)
        ensures
            fields_view(r, 0) == intersect_caps(self.client_caps(), fields_view(*server, 0)),
    {
        let mut out: Vec<(Vec<u8>, Value)> = Vec::new();
        let mut k: usize = 0;
        proof {
            lemma_fields_view(self.capabilities, 0);
            assert(fields_view(self.capabilities, 0).take(0) =~= Seq::<(Seq<u8>, Val)>::empty());
            assert(fields_view(out, 0) =~= intersect_caps(
                fields_view(self.capabilities, 0).take(0),
                fields_view(*server, 0),
            ));
        }
        while k < self.capabilities.len()
            invariant
                k <= self.capabilities@.len(),
                fields_view(self.capabilities, 0).len() == self.capabilities@.len(),
                forall|m: int|
                    0 <= m < self.capabilities@.len() ==> #[trigger] fields_view(
                        self.capabilities,
                        0,
                    )[m] == (self.capabilities@[m].0@, val_view(self.capabilities@[m].1)),
                fields_view(out, 0) == intersect_caps(
                    fields_view(self.capabilities, 0).take(k as int),
                    fields_view(*server, 0),
                ),
            decreases self.capabilities@.len() - k,
        {
            let ghost cview = fields_view(self.capabilities, 0);
            proof {
                assert(cview.take(k + 1).drop_last() =~= cview.take(k as int));
                assert(cview.take(k + 1).last() == cview[k as int]);
            }
            let found = lookup_field(server, self.capabilities[k].0.as_slice());
            let ghost before_out = out;
            if found.is_some() {
                let nm = copy_bytes(&self.capabilities[k].0);
                let cv = clone_value(&self.capabilities[k].1);
                out.push((nm, cv));
                proof {
                    lemma_fields_view(out, 0);
                    lemma_fields_view(before_out, 0);
                    assert(fields_view(out, 0) =~= fields_view(before_out, 0).push(
                        cview[k as int],
                    ));
                }
            }
            k = k + 1;
        }
        proof {
            assert(fields_view(self.capabilities, 0).take(self.capabilities@.len() as int)
                =~= fields_view(self.capabilities, 0));
        }
        out
    }

    /// Feeds one incoming message through the peer: responses resolve
    /// exactly the request they name, the handshake response decides
    /// the connection's fate, an unmatched response is dropped as an
    /// orphan, and anything else is ignored.
    pub fn handle_message(&mut self, m: Message) -> (ev: PeerEvent)
        requires
            old(self).wf(),
        ensures
            final(self).wf(),
            final(self).accepted_set() == old(self).accepted_set(),
            final(self).client_caps() == old(self).client_caps(),
            final(self).identity() == old(self).identity(),
            match msg_view(m) {
                MsgVal::Response { id, outcome } => {
                    let idu = id as u64;
                    if !old(self).pending().contains_key(idu) {
                        ev == PeerEvent::Orphan && final(self).phase() == old(self).phase()
                            && final(self).pending() == old(self).pending()
                            && final(self).negotiated_caps() == old(self).negotiated_caps()
                    } else {
                        &&& final(self).pending() == old(self).pending().remove(idu)
                        &&& ({
                            let was_init = (old(self).phase() matches PeerPhase::AwaitingInit {
                                init_id,
                            } && init_id == idu);
                            if was_init {
                                match init_check(old(self).accepted_set(), outcome) {
                                    Ok(server_caps) => {
                                        &&& ev == PeerEvent::HandshakeComplete
                                        &&& final(self).phase() is Ready
                                        &&& final(self).negotiated_caps() == intersect_caps(
                                            old(self).client_caps(),
                                            server_caps,
                                        )
                                    },
                                    Err(e) => {
                                        &&& ev == PeerEvent::HandshakeFailed(e)
                                        &&& final(self).phase() is Failed
                                    },
                                }
                            } else {
                                &&& (ev matches PeerEvent::Resolved { id: rid, outcome: ro }
                                    && rid == idu && outcome_matches(ro, outcome))
                                &&& final(self).phase() == old(self).phase()
                                &&& final(self).negotiated_caps() == old(self).negotiated_caps()
                            }
                        })
                    }
                },
                _ => ev == PeerEvent::Ignored && *final(self) == *old(self),
            },
    {
        match m {
            Message::Response { id, outcome } => {
                let matched = self.correlator.resolve(id);
                if !matched {
                    return PeerEvent::Orphan;
                }
                let is_init = match self.phase {
                    PeerPhase::AwaitingInit { init_id } => init_id == id,
                    _ => false,
                };
                if !is_init {
                    return PeerEvent::Resolved { id, outcome };
                }
                match outcome {
                    Outcome::Failure(_) => {
                        self.phase = PeerPhase::Failed;
                        PeerEvent::HandshakeFailed(ProtocolError::MalformedMessage)
                    },
                    Outcome::Success(v) => {
                        match &v {
                            Value::Obj(fields) => {
                                let pv = lookup_field(fields, key_protocol_version_vec().as_slice());
                                let version_good: bool = match pv {
                                    Some(pvv) => match pvv {
                                        Value::Str(s) => self.version_ok(s),
                                        _ => {
                                            self.phase = PeerPhase::Failed;
                                            return PeerEvent::HandshakeFailed(
                                                ProtocolError::MalformedMessage,
                                            );
                                        },
                                    },
                                    None => {
                                        self.phase = PeerPhase::Failed;
                                        return PeerEvent::HandshakeFailed(
                                            ProtocolError::MalformedMessage,
                                        );
                                    },
                                };
                                if !version_good {
                                    self.phase = PeerPhase::Failed;
                                    return PeerEvent::HandshakeFailed(
                                        ProtocolError::VersionMismatch,
                                    );
                                }
                                let caps = lookup_field(fields, key_capabilities_vec().as_slice());
                                let negotiated = match caps {
                                    Some(cv) => match cv {
                                        Value::Obj(sfields) => self.intersect(sfields),
                                        _ => {
                                            let empty: Vec<(Vec<u8>, Value)> = Vec::new();
                                            proof {
                                                assert(fields_view(empty, 0) =~= Seq::<
                                                    (Seq<u8>, Val),
                                                >::empty());
                                                lemma_intersect_empty(self.client_caps());
                                            }
                                            self.intersect(&empty)
                                        },
                                    },
                                    None => {
                                        let empty: Vec<(Vec<u8>, Value)> = Vec::new();
                                        proof {
                                            assert(fields_view(empty, 0) =~= Seq::<
                                                (Seq<u8>, Val),
                                            >::empty());
                                        }
                                        self.intersect(&empty)
                                    },
                                };
                                self.negotiated = negotiated;
                                self.phase = PeerPhase::Ready;
                                PeerEvent::HandshakeComplete
                            },
                            _ => {
                                self.phase = PeerPhase::Failed;
                                PeerEvent::HandshakeFailed(ProtocolError::MalformedMessage)
                            },
                        }
                    },
                }
            },
            _ => PeerEvent::Ignored,
        }
    }

    /// Builds one request with a caller-chosen method and parameters,
    /// registering it as outstanding until its response, timeout or
    /// cancellation; the listing and call operations are this with a
    /// fixed method. Fails with `NotInitialized` until the handshake
    /// has completed, and forever after a failed one.
    pub fn send_request(&mut self, method: Vec<u8>, params: Value, deadline: Option<u64>) -> (r:
        Result<(u64, Message), ProtocolError>)
        requires
            old(self).wf(),
        ensures
            final(self).wf(),
            final(self).phase() == old(self).phase(),
            !(old(self).phase() is Ready) ==> r == Err::<(u64, Message), ProtocolError>(
                ProtocolError::NotInitialized,
            ) && *final(self) == *old(self),
            old(self).phase() is Ready && !old(self).exhausted() ==> match r {
                Ok((id, msg)) => {
                    &&& !old(self).pending().contains_key(id)
                    &&& final(self).pending() == old(self).pending().insert(id, deadline)
                    &&& msg_view(msg) == (MsgVal::Request {
                        id: id as int,
                        method: method@,
                        params: val_view(params),
                    })
                },
                Err(_) => false,
            },
            r is Err ==> final(self).pending() == old(self).pending(),
            r is Err ==> final(self).negotiated_caps() == old(self).negotiated_caps(),
    {
        match self.phase {
            PeerPhase::Ready => {},
            _ => {
                return Err(ProtocolError::NotInitialized);
            },
        }
        let issued = self.correlator.begin_request(deadline);
        match issued {
            None => Err(ProtocolError::NotInitialized),
            Some(id) => {
                let msg = Message::Request { id, method, params };
                Ok((id, msg))
            },
        }
    }

    /// Fires a notification: no table entry, no reply awaited.
    pub fn send_notification(&self, method: Vec<u8>, params: Value) -> (msg: Message)
        ensures
            msg_view(msg) == (MsgVal::Notification { method: method@, params: val_view(params) }),
    {
        Message::Notification { method, params }
    }

    /// Builds the listing request; fails with `NotInitialized` until
    /// the handshake has completed, and forever after a failed one.
    pub fn list_tools_request(&mut self, deadline: Option<u64>) -> (r: Result<
        (u64, Message),
        ProtocolError,
    >)
        requires
            old(self).wf(),
        ensures
            final(self).wf(),
            final(self).phase() == old(self).phase(),
            !(old(self).phase() is Ready) ==> r == Err::<(u64, Message), ProtocolError>(
                ProtocolError::NotInitialized,
            ) && *final(self) == *old(self),
            old(self).phase() is Ready && !old(self).exhausted() ==> match r {
                Ok((id, msg)) => {
                    &&& !old(self).pending().contains_key(id)
                    &&& final(self).pending() == old(self).pending().insert(id, deadline)
                    &&& msg_view(msg) == (MsgVal::Request {
                        id: id as int,
                        method: method_tools_list(),
                        params: Val::Obj(Seq::empty()),
                    })
                },
                Err(_) => false,
            },
            r is Err ==> final(self).pending() == old(self).pending(),
            r is Err ==> final(self).negotiated_caps() == old(self).negotiated_caps(),
    {
        match self.phase {
            PeerPhase::Ready => {},
            _ => {
                return Err(ProtocolError::NotInitialized);
            },
        }
        let issued = self.correlator.begin_request(deadline);
        match issued {
            None => Err(ProtocolError::NotInitialized),
            Some(id) => {
                let fields: Vec<(Vec<u8>, Value)> = Vec::new();
                proof {
                    assert(fields_view(fields, 0) =~= Seq::<(Seq<u8>, Val)>::empty());
                }
                let msg = Message::Request {
                    id,
                    method: method_tools_list_vec(),
                    params: Value::Obj(fields),
                };
                Ok((id, msg))
            },
        }
    }

    /// Builds a tool call request; fails with `NotInitialized` until
    /// the handshake has completed, and forever after a failed one.
    pub fn call_tool_request(&mut self, name: Vec<u8>, args: Value, deadline: Option<u64>) -> (r:
        Result<(u64, Message), ProtocolError>)
        requires
            old(self).wf(),
        ensures
            final(self).wf(),
            final(self).phase() == old(self).phase(),
            !(old(self).phase() is Ready) ==> r == Err::<(u64, Message), ProtocolError>(
                ProtocolError::NotInitialized,
            ) && *final(self) == *old(self),
            old(self).phase() is Ready && !old(self).exhausted() ==> match r {
                Ok((id, msg)) => {
                    &&& !old(self).pending().contains_key(id)
                    &&& final(self).pending() == old(self).pending().insert(id, deadline)
                    &&& msg_view(msg) == (MsgVal::Request {
                        id: id as int,
                        method: method_tools_call(),
                        params: call_params_val(name@, val_view(args)),
                    })
                },
                Err(_) => false,
            },
            r is Err ==> final(self).pending() == old(self).pending(),
            r is Err ==> final(self).negotiated_caps() == old(self).negotiated_caps(),
    {
        match self.phase {
            PeerPhase::Ready => {},
            _ => {
                return Err(ProtocolError::NotInitialized);
            },
        }
        let issued = self.correlator.begin_request(deadline);
        match issued {
            None => Err(ProtocolError::NotInitialized),
            Some(id) => {
                let ghost gname = name@;
                let ghost gargs = val_view(args);
                let mut fields: Vec<(Vec<u8>, Value)> = Vec::new();
                fields.push((key_name_vec(), Value::Str(name)));
                fields.push((key_arguments_vec(), args));
                proof {
                    lemma_fields_view(fields, 0);
                    assert(fields_view(fields, 0) =~= call_params_val(gname, gargs)->Obj_0);
                }
                let msg = Message::Request {
                    id,
                    method: method_tools_call_vec(),
                    params: Value::Obj(fields),
                };
                Ok((id, msg))
            },
        }
    }

    /// Cancels every outstanding request because the transport
    /// disconnected, pairing each with the error it resolves to, and
    /// leaves the connection unusable.
    pub fn on_disconnect(&mut self) -> (failed: Vec<(u64, RpcError)>)
        requires
            old(self).wf(),
        ensures
            final(self).wf(),
            final(self).phase() is Failed,
            final(self).pending() == Map::<u64, Option<u64>>::empty(),
            failed@.len() == old(self).outstanding(),
            forall|k1: int, k2: int|
                0 <= k1 < k2 < failed@.len() ==> failed@[k1].0 != failed@[k2].0,
            forall|k: int|
                0 <= k < failed@.len() ==> old(self).pending().contains_key(
                    (#[trigger] failed@[k]).0,
                ) && failed@[k].1 == RpcError::Transport(TransportError::Disconnected),
            forall|id: u64|
                old(self).pending().contains_key(id) ==> exists|k: int|
                    0 <= k < failed@.len() && (#[trigger] failed@[k]).0 == id,
    {
        let ids = self.correlator.fail_all();
        self.phase = PeerPhase::Failed;
        let mut failed: Vec<(u64, RpcError)> = Vec::new();
        let mut k: usize = 0;
        while k < ids.len()
            invariant
                k <= ids@.len(),
                failed@.len() == k,
                forall|m: int|
                    0 <= m < k ==> (#[trigger] failed@[m]).0 == ids@[m] && failed@[m].1
                        == RpcError::Transport(TransportError::Disconnected),
            decreases ids@.len() - k,
        {
            failed.push((ids[k], RpcError::Transport(TransportError::Disconnected)));
            k = k + 1;
        }
        proof {
            assert forall|id: u64| old(self).pending().contains_key(id) implies exists|m: int|
                0 <= m < failed@.len() && (#[trigger] failed@[m]).0 == id by {
                assert(ids@.contains(id));
                let m = choose|m: int| 0 <= m < ids@.len() && ids@[m] == id;
                assert(failed@[m].0 == id);
            }
        }
        failed
    }

    /// Resolves every outstanding request whose deadline has passed
    /// with a timeout, pairing each with its error; every other
    /// request, and the connection itself, is untouched.
    pub fn expire_requests(&mut self, now: u64) -> (timed: Vec<(u64, RpcError)>)
        requires
            old(self).wf(),
        ensures
            final(self).wf(),
            final(self).phase() == old(self).phase(),
            forall|id: u64|
                #[trigger] final(self).pending().contains_key(id) == (old(
                    self,
                ).pending().contains_key(id) && !timed_out(old(self).pending()[id], now)),
            forall|id: u64|
                final(self).pending().contains_key(id) ==> final(self).pending()[id] == old(
                    self,
                ).pending()[id],
            forall|k1: int, k2: int|
                0 <= k1 < k2 < timed@.len() ==> timed@[k1].0 != timed@[k2].0,
            forall|k: int|
                0 <= k < timed@.len() ==> old(self).pending().contains_key(
                    (#[trigger] timed@[k]).0,
                ) && timed_out(old(self).pending()[timed@[k].0], now) && timed@[k].1
                    == RpcError::Transport(TransportError::Timeout),
            forall|id: u64|
                old(self).pending().contains_key(id) && timed_out(old(self).pending()[id], now)
                    ==> exists|k: int| 0 <= k < timed@.len() && (#[trigger] timed@[k]).0 == id,
    {
        let ids = self.correlator.expire(now);
        let mut timed: Vec<(u64, RpcError)> = Vec::new();
        let mut k: usize = 0;
        while k < ids.len()
            invariant
                k <= ids@.len(),
                timed@.len() == k,
                forall|m: int|
                    0 <= m < k ==> (#[trigger] timed@[m]).0 == ids@[m] && timed@[m].1
                        == RpcError::Transport(TransportError::Timeout),
            decreases ids@.len() - k,
        {
            timed.push((ids[k], RpcError::Transport(TransportError::Timeout)));
            k = k + 1;
        }
        proof {
            assert forall|m: int| 0 <= m < timed@.len() implies old(
                self,
            ).pending().contains_key((#[trigger] timed@[m]).0) && timed_out(
                old(self).pending()[timed@[m].0],
                now,
            ) by {
                assert(ids@.contains(ids@[m]));
            }
            assert forall|id: u64|
                old(self).pending().contains_key(id) && timed_out(
                    old(self).pending()[id],
                    now,
                ) implies exists|k2: int| 0 <= k2 < timed@.len() && (#[trigger] timed@[k2]).0
                == id by {
                assert(ids@.contains(id));
                let m = choose|m: int| 0 <= m < ids@.len() && ids@[m] == id;
                assert(timed@[m].0 == id);
            }
        }
        timed
    }

    /// Closes the peer: cancels every outstanding request and leaves
    /// the connection unusable for further calls.
    pub fn close(&mut self) -> (cancelled: Vec<(u64, RpcError)>)
        requires
            old(self).wf(),
        ensures
            final(self).wf(),
            final(self).phase() is Failed,
            final(self).pending() == Map::<u64, Option<u64>>::empty(),
            cancelled@.len() == old(self).outstanding(),
            forall|k1: int, k2: int|
                0 <= k1 < k2 < cancelled@.len() ==> cancelled@[k1].0 != cancelled@[k2].0,
            forall|k: int|
                0 <= k < cancelled@.len() ==> old(self).pending().contains_key(
                    (#[trigger] cancelled@[k]).0,
                ) && cancelled@[k].1 == RpcError::Transport(TransportError::Disconnected),
            forall|id: u64|
                old(self).pending().contains_key(id) ==> exists|k: int|
                    0 <= k < cancelled@.len() && (#[trigger] cancelled@[k]).0 == id,
    {
        self.on_disconnect()
    }
}

/// Whether an event's outcome is the one the response carried.
pub open spec fn outcome_matches(a: Outcome, b: OutcomeVal) -> bool {
    crate::message::outcome_view(a) == b
}

/// Nothing intersects with an empty capability record.
pub proof fn lemma_intersect_empty(client: Seq<(Seq<u8>, Val)>)
    ensures
        intersect_caps(client, Seq::empty()) == Seq::<(Seq<u8>, Val)>::empty(),
    decreases client.len(),
{
    if client.len() > 0 {
        lemma_intersect_empty(client.drop_last());
    }
}

} // verus!
