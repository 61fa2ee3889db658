//! Server-side session management for the streaming transport: one
//! isolated conversation per session identifier, dispatch of incoming
//! messages to the right session, and idle eviction.
//!
//! The tool registry and the server's identity are shared, read-only,
//! across sessions; each session owns its correlation table.

use vstd::prelude::*;
use vstd::string::StringSliceAdditionalSpecFns;
use vstd::string::StrSliceExecFns;
use crate::value::Val;
use crate::value::Value;
use crate::value::val_view;
use crate::value::fields_view;
use crate::value::lemma_fields_view;
use crate::value::lemma_vals_view;
use crate::value::vals_view;
use crate::value::copy_bytes;
use crate::value::clone_value;
use crate::codec::bytes_eq;
use crate::correlator::Correlator;
use crate::errors::ProtocolError;
use crate::errors::RpcError;
use crate::errors::TransportError;
use crate::message::Message;
use crate::message::MsgVal;
use crate::message::Outcome;
use crate::message::OutcomeVal;
use crate::message::ErrorDescriptor;
use crate::message::ErrVal;
use crate::message::msg_view;
use crate::message::method_initialize;
use crate::message::method_initialize_vec;
use crate::message::method_tools_list;
use crate::message::method_tools_list_vec;
use crate::message::method_tools_call;
use crate::message::method_tools_call_vec;
use crate::message::key_name;
use crate::message::key_name_vec;
use crate::message::key_arguments;
use crate::message::key_arguments_vec;
use crate::message::key_content;
use crate::message::key_content_vec;
use crate::message::key_is_error;
use crate::message::key_is_error_vec;
use crate::message::key_type;
use crate::message::key_type_vec;
use crate::message::key_text;
use crate::message::key_text_vec;
use crate::message::key_tools;
use crate::message::key_tools_vec;
use crate::message::key_description;
use crate::message::key_description_vec;
use crate::message::key_protocol_version;
use crate::message::key_protocol_version_vec;
use crate::message::key_capabilities;
use crate::message::key_capabilities_vec;
use crate::message::key_version;
use crate::message::key_version_vec;
use crate::message::key_instructions;
use crate::message::key_instructions_vec;
use crate::router::ToolRouter;
use crate::router::ToolVal;
use crate::router::ToolResult;
use crate::router::ToolResultVal;
use crate::router::ContentItem;
use crate::router::result_view;
use crate::router::content_view;
use crate::router::spec_call_tool;
use crate::router::obj_lookup;
use crate::router::lookup_field;

verus! {

pub const CODE_METHOD_NOT_FOUND: i64 = -32601;
pub const CODE_INVALID_PARAMS: i64 = -32602;
pub const CODE_NOT_INITIALIZED: i64 = -32002;

pub open spec fn text_method_not_found() -> Seq<u8> {
    "method not found".spec_bytes()
}

pub open spec fn text_invalid_params() -> Seq<u8> {
    "invalid params".spec_bytes()
}

pub open spec fn text_not_initialized() -> Seq<u8> {
    "not initialized".spec_bytes()
}

/// What the server says about itself during the handshake.
pub struct ServerConfig {
    pub protocol_version: Vec<u8>,
    pub name: Vec<u8>,
    pub version: Vec<u8>,
    pub instructions: Vec<u8>,
    pub capabilities: Vec<(Vec<u8>, Value)>,
}

/// Model of the server's handshake identity.
pub struct ConfigVal {
    pub protocol_version: Seq<u8>,
    pub name: Seq<u8>,
    pub version: Seq<u8>,
    pub instructions: Seq<u8>,
    pub capabilities: Seq<(Seq<u8>, Val)>,
}

pub open spec fn config_view(c: ServerConfig) -> ConfigVal {
    ConfigVal {
        protocol_version: c.protocol_version@,
        name: c.name@,
        version: c.version@,
        instructions: c.instructions@,
        capabilities: fields_view(c.capabilities, 0),
    }
}

/// One content item of a tool result on the wire: a text record.
pub open spec fn content_item_val(t: Seq<u8>) -> Val {
    Val::Obj(seq![(key_type(), Val::Str(key_text())), (key_text(), Val::Str(t))])
}

/// A tool result on the wire: its content items and the error flag.
pub open spec fn result_to_val(r: ToolResultVal) -> Val {
    Val::Obj(
        seq![
            (key_content(), Val::Arr(Seq::new(r.content.len(), |i: int| content_item_val(r.content[i])))),
            (key_is_error(), Val::Bool(r.is_error)),
        ],
    )
}

/// One listed tool on the wire: its name and description.
pub open spec fn tool_summary_val(t: ToolVal) -> Val {
    Val::Obj(seq![(key_name(), Val::Str(t.name)), (key_description(), Val::Str(t.description))])
}

/// The tool listing on the wire, in registration order.
pub open spec fn tools_list_val(rv: Seq<ToolVal>) -> Val {
    Val::Obj(
        seq![(key_tools(), Val::Arr(Seq::new(rv.len(), |i: int| tool_summary_val(rv[i]))))],
    )
}

/// The handshake result on the wire.
pub open spec fn init_result_val(cfg: ConfigVal) -> Val {
    Val::Obj(
        seq![
            (key_protocol_version(), Val::Str(cfg.protocol_version)),
            (key_capabilities(), Val::Obj(cfg.capabilities)),
            (key_name(), Val::Str(cfg.name)),
            (key_version(), Val::Str(cfg.version)),
            (key_instructions(), Val::Str(cfg.instructions)),
        ],
    )
}

/// The reply, if any, a server session owes an incoming message: the
/// handshake result; before the handshake, every other request is
/// refused with a not-initialized error; afterwards the tool listing,
/// a tool result, or an error response for an unknown method or bad
/// call parameters; none for a notification or a response.
pub open spec fn spec_reply(rv: Seq<ToolVal>, cfg: ConfigVal, initialized: bool, gm: MsgVal) -> Option<MsgVal> {
    match gm {
        MsgVal::Request { id, method, params } => if method == method_initialize() {
            Option::Some(
                MsgVal::Response { id, outcome: OutcomeVal::Success(init_result_val(cfg)) },
            )
        } else if !initialized {
            Option::Some(
                MsgVal::Response {
                    id,
                    outcome: OutcomeVal::Failure(
                        ErrVal {
                            code: CODE_NOT_INITIALIZED as int,
                            message: text_not_initialized(),
                        },
                    ),
                },
            )
        } else if method == method_tools_list() {
            Option::Some(
                MsgVal::Response { id, outcome: OutcomeVal::Success(tools_list_val(rv)) },
            )
        } else if method == method_tools_call() {
            if params is Obj && obj_lookup(params->Obj_0, key_name()) is Some && obj_lookup(
                params->Obj_0,
                key_name(),
            )->0 is Str {
                let name = obj_lookup(params->Obj_0, key_name())->0->Str_0;
                let args = match obj_lookup(params->Obj_0, key_arguments()) {
                    Option::Some(a) => a,
                    Option::None => Val::Obj(Seq::empty()),
                };
                Option::Some(
                    MsgVal::Response {
                        id,
                        outcome: OutcomeVal::Success(result_to_val(spec_call_tool(rv, name, args))),
                    },
                )
            } else {
                Option::Some(
                    MsgVal::Response {
                        id,
                        outcome: OutcomeVal::Failure(
                            ErrVal {
                                code: CODE_INVALID_PARAMS as int,
                                message: text_invalid_params(),
                            },
                        ),
                    },
                )
            }
        } else {
            Option::Some(
                MsgVal::Response {
                    id,
                    outcome: OutcomeVal::Failure(
                        ErrVal {
                            code: CODE_METHOD_NOT_FOUND as int,
                            message: text_method_not_found(),
                        },
                    ),
                },
            )
        },
        MsgVal::Notification { method, params } => Option::None,
        MsgVal::Response { id, outcome } => Option::None,
    }
}

fn content_item_value(t: Vec<u8>) -> (v: Value)
    ensures
        val_view(v) == content_item_val(t@),
{
    let ghost gt = t@;
    let mut fields: Vec<(Vec<u8>, Value)> = Vec::new();
    fields.push((key_type_vec(), Value::Str(key_text_vec())));
    fields.push((key_text_vec(), Value::Str(t)));
    proof {
        lemma_fields_view(fields, 0);
        assert(fields_view(fields, 0) =~= content_item_val(gt)->Obj_0);
    }
    Value::Obj(fields)
}

/// Builds the wire value of a tool result.
fn build_result_value(r: ToolResult) -> (v: Value)
    ensures
        val_view(v) == result_to_val(result_view(r)),
{
    let ghost gr = result_view(r);
    let is_error = r.is_error;
    let mut items: Vec<Value> = Vec::new();
    let mut content = r.content;
    let ghost gcontent = content;
    proof {
        crate::router::lemma_content_view(gcontent, 0);
    }
    let n = content.len();
    let mut k: usize = 0;
    // consume the items front to back
    while k < n
        invariant
            k <= n,
            n == gcontent@.len(),
            content@ == gcontent@.subrange(k as int, n as int),
            items@.len() == k,
            forall|m: int|
                0 <= m < k ==> val_view(#[trigger] items@[m]) == content_item_val(
                    content_view(gcontent, 0)[m],
                ),
            content_view(gcontent, 0).len() == n,
            forall|m: int|
                0 <= m < n ==> #[trigger] content_view(gcontent, 0)[m] == (match gcontent@[m] {
                    ContentItem::Text(t) => t@,
                }),
        decreases n - k,
    {
        let item = content.remove(0);
        proof {
            assert(gcontent@.subrange(k as int, n as int)[0] == gcontent@[k as int]);
            assert(content@ =~= gcontent@.subrange(k + 1, n as int));
        }
        match item {
            ContentItem::Text(t) => {
                items.push(content_item_value(t));
            },
        }
        k = k + 1;
    }
    let ghost gitems = items;
    let mut fields: Vec<(Vec<u8>, Value)> = Vec::new();
    fields.push((key_content_vec(), Value::Arr(items)));
    fields.push((key_is_error_vec(), Value::Bool(is_error)));
    proof {
        lemma_vals_view(gitems, 0);
        assert(vals_view(gitems, 0) =~= Seq::new(
            gr.content.len(),
            |i: int| content_item_val(gr.content[i]),
        ));
        lemma_fields_view(fields, 0);
        assert(fields_view(fields, 0) =~= result_to_val(gr)->Obj_0);
    }
    Value::Obj(fields)
}

/// Builds the handshake result from the server's identity.
fn build_init_value(cfg: &ServerConfig) -> (v: Value)
    ensures
        val_view(v) == init_result_val(config_view(*cfg)),
{
    let mut caps: Vec<(Vec<u8>, Value)> = Vec::new();
    let mut k: usize = 0;
    proof {
        lemma_fields_view(cfg.capabilities, 0);
    }
    while k < cfg.capabilities.len()
        invariant
            k <= cfg.capabilities@.len(),
            caps@.len() == k,
            forall|m: int|
                0 <= m < k ==> (#[trigger] caps@[m]).0@ == cfg.capabilities@[m].0@ && val_view(
                    caps@[m].1,
                ) == val_view(cfg.capabilities@[m].1),
        decreases cfg.capabilities@.len() - k,
    {
        let name = copy_bytes(&cfg.capabilities[k].0);
        let cv = clone_value(&cfg.capabilities[k].1);
        caps.push((name, cv));
        k = k + 1;
    }
    proof {
        lemma_fields_view(caps, 0);
        lemma_fields_view(cfg.capabilities, 0);
        assert(fields_view(caps, 0) =~= fields_view(cfg.capabilities, 0));
    }
    let mut fields: Vec<(Vec<u8>, Value)> = Vec::new();
    fields.push((key_protocol_version_vec(), Value::Str(copy_bytes(&cfg.protocol_version))));
    fields.push((key_capabilities_vec(), Value::Obj(caps)));
    fields.push((key_name_vec(), Value::Str(copy_bytes(&cfg.name))));
    fields.push((key_version_vec(), Value::Str(copy_bytes(&cfg.version))));
    fields.push((key_instructions_vec(), Value::Str(copy_bytes(&cfg.instructions))));
    proof {
        lemma_fields_view(fields, 0);
        assert(fields_view(fields, 0) =~= init_result_val(config_view(*cfg))->Obj_0);
    }
    Value::Obj(fields)
}


/// One logical conversation's server-side state.
pub struct Session {
    pub id: u64,
    pub last_activity: u64,
    pub initialized: bool,
    pub correlator: Correlator,
}

/// Model of a session: when it was last active, whether it has shaken
/// hands, its own table of outstanding requests, and whether its
/// identifier space has run out.
pub struct SessionVal {
    pub last_activity: u64,
    pub initialized: bool,
    pub pending: Map<u64, Option<u64>>,
    pub exhausted: bool,
}

pub open spec fn session_view(s: Session) -> SessionVal {
    SessionVal {
        last_activity: s.last_activity,
        initialized: s.initialized,
        pending: s.correlator@,
        exhausted: s.correlator.exhausted(),
    }
}

/// The map a session run stands for.
pub open spec fn smap(s: Seq<Session>) -> Map<u64, SessionVal>
    decreases s.len(),
{
    if s.len() == 0 {
        Map::empty()
    } else {
        smap(s.drop_last()).insert(s.last().id, session_view(s.last()))
    }
}

pub open spec fn sids_distinct(s: Seq<Session>) -> bool {
    forall|k1: int, k2: int| 0 <= k1 < k2 < s.len() ==> s[k1].id != s[k2].id
}

/// With distinct identifiers, the map holds exactly the sessions of
/// the run.
pub proof fn lemma_smap(s: Seq<Session>)
    requires
        sids_distinct(s),
    ensures
        forall|id: u64|
            smap(s).contains_key(id) == exists|k: int| 0 <= k < s.len() && #[trigger] s[k].id
                == id,
        forall|k: int|
            0 <= k < s.len() ==> smap(s).contains_key(#[trigger] s[k].id) && smap(s)[s[k].id]
                == session_view(s[k]),
    decreases s.len(),
{
    if s.len() > 0 {
        let front = s.drop_last();
        assert(sids_distinct(front));
        lemma_smap(front);
        assert(forall|k: int| 0 <= k < front.len() ==> front[k] == s[k]);
        assert(forall|k: int| 0 <= k < s.len() - 1 ==> s[k].id != s.last().id);
        assert forall|id: u64| smap(s).contains_key(id) implies exists|k: int|
            0 <= k < s.len() && #[trigger] s[k].id == id by {
            if id == s.last().id {
                assert(s[s.len() - 1].id == id);
            } else {
                assert(smap(front).contains_key(id));
                assert(exists|k: int| 0 <= k < front.len() && #[trigger] front[k].id == id);
                let k = choose|k: int| 0 <= k < front.len() && #[trigger] front[k].id == id;
                assert(s[k].id == id);
            }
        }
        assert forall|id: u64|
            (exists|k: int| 0 <= k < s.len() && #[trigger] s[k].id == id) implies smap(
            s,
        ).contains_key(id) by {
            let k = choose|k: int| 0 <= k < s.len() && #[trigger] s[k].id == id;
            if k < s.len() - 1 {
                assert(front[k].id == id);
            }
        }
    }
}

/// Taking one session out of a run and putting its new state back
/// changes the map at that identifier alone.
pub proof fn lemma_smap_replace(before: Seq<Session>, after: Seq<Session>, k: int, gsess: Session)
    requires
        sids_distinct(before),
        0 <= k < before.len(),
        gsess.id == before[k].id,
        after == before.remove(k).push(gsess),
    ensures
        sids_distinct(after),
        smap(after) == smap(before).insert(gsess.id, session_view(gsess)),
{
    let sid = gsess.id;
    before.remove_ensures(k);
    lemma_smap(before);
    assert(after.len() == before.len());
    assert forall|p: int| 0 <= p < after.len() - 1 implies after[p] == (if p < k {
        before[p]
    } else {
        before[p + 1]
    }) by {
        assert(after[p] == before.remove(k)[p]);
    }
    assert(after[after.len() - 1] == gsess);
    assert(sids_distinct(after)) by {
        assert forall|m1: int, m2: int|
            0 <= m1 < m2 < after.len() implies after[m1].id != after[m2].id by {
            if m2 < after.len() - 1 {
                let a1: int = if m1 < k {
                    m1
                } else {
                    m1 + 1
                };
                let a2: int = if m2 < k {
                    m2
                } else {
                    m2 + 1
                };
                assert(after[m1] == before[a1]);
                assert(after[m2] == before[a2]);
            } else {
                let a1: int = if m1 < k {
                    m1
                } else {
                    m1 + 1
                };
                assert(after[m1] == before[a1]);
                assert(after[m2] == gsess);
                assert(before[a1].id != before[k].id);
            }
        }
    }
    lemma_smap(after);
    let target = smap(before).insert(sid, session_view(gsess));
    assert forall|x: u64| smap(after).contains_key(x) implies target.contains_key(x) && smap(
        after,
    )[x] == target[x] by {
        let p = choose|p: int| 0 <= p < after.len() && #[trigger] after[p].id == x;
        if p == after.len() - 1 {
            assert(smap(after)[x] == session_view(gsess));
        } else {
            let a: int = if p < k {
                p
            } else {
                p + 1
            };
            assert(after[p] == before[a]);
            assert(before[a].id != sid);
        }
    }
    assert forall|x: u64| target.contains_key(x) implies smap(after).contains_key(x) by {
        if x == sid {
            assert(after[after.len() - 1].id == sid);
        } else {
            let a = choose|a: int| 0 <= a < before.len() && #[trigger] before[a].id == x;
            let p: int = if a < k {
                a
            } else {
                a - 1
            };
            assert(after[p].id == x);
        }
    }
    assert(smap(after) =~= target);
}

/// How one incoming message changes a session's own state: activity
/// is stamped, the handshake marks it initialized, and a response
/// resolves its correlation entry.
pub open spec fn session_step(sv: SessionVal, gm: MsgVal, now: u64) -> SessionVal {
    SessionVal {
        last_activity: now,
        initialized: sv.initialized || (gm matches MsgVal::Request { id, method, params }
            && method == method_initialize()),
        pending: match gm {
            MsgVal::Response { id, outcome } => if 0 <= id <= u64::MAX {
                sv.pending.remove(id as u64)
            } else {
                sv.pending
            },
            _ => sv.pending,
        },
        exhausted: sv.exhausted,
    }
}

/// Whether a session has sat idle past the threshold at instant `now`.
pub open spec fn idle(last_activity: u64, threshold: u64, now: u64) -> bool {
    now > last_activity && now - last_activity > threshold
}

/// The sessions of `s` still active at `now`, in order.
pub open spec fn live_filter(s: Seq<Session>, threshold: u64, now: u64) -> Seq<Session>
    decreases s.len(),
{
    if s.len() == 0 {
        Seq::empty()
    } else {
        let front = live_filter(s.drop_last(), threshold, now);
        if idle(s.last().last_activity, threshold, now) {
            front
        } else {
            front.push(s.last())
        }
    }
}

/// Eviction keeps exactly the sessions that are not idle, unchanged.
pub proof fn lemma_live_filter(s: Seq<Session>, threshold: u64, now: u64)
    requires
        sids_distinct(s),
    ensures
        sids_distinct(live_filter(s, threshold, now)),
        forall|m: int|
            0 <= m < live_filter(s, threshold, now).len() ==> s.contains(
                #[trigger] live_filter(s, threshold, now)[m],
            ),
        forall|id: u64|
            #[trigger] smap(live_filter(s, threshold, now)).contains_key(id) == (smap(
                s,
            ).contains_key(id) && !idle(smap(s)[id].last_activity, threshold, now)),
        forall|id: u64|
            smap(live_filter(s, threshold, now)).contains_key(id) ==> smap(
                live_filter(s, threshold, now),
            )[id] == smap(s)[id],
    decreases s.len(),
{
    if s.len() > 0 {
        let front = s.drop_last();
        let e = s.last();
        assert(sids_distinct(front));
        lemma_live_filter(front, threshold, now);
        lemma_smap(front);
        lemma_smap(s);
        assert(forall|m: int| 0 <= m < front.len() ==> front[m] == s[m]);
        assert(forall|k: int| 0 <= k < s.len() - 1 ==> s[k].id != e.id);
        assert(!smap(front).contains_key(e.id));
        let kf = live_filter(s, threshold, now);
        let ff = live_filter(front, threshold, now);
        assert forall|m: int| 0 <= m < kf.len() implies s.contains(#[trigger] kf[m]) by {
            if idle(e.last_activity, threshold, now) {
                assert(front.contains(kf[m]));
                let p = choose|p: int| 0 <= p < front.len() && front[p] == kf[m];
                assert(s[p] == kf[m]);
            } else {
                if m < ff.len() {
                    assert(front.contains(ff[m]));
                    let p = choose|p: int| 0 <= p < front.len() && front[p] == ff[m];
                    assert(s[p] == kf[m]);
                } else {
                    assert(kf[m] == e);
                    assert(s[s.len() - 1] == e);
                }
            }
        }
        if !idle(e.last_activity, threshold, now) {
            assert forall|m: int| 0 <= m < ff.len() implies (#[trigger] ff[m].id) != e.id by {
                assert(front.contains(ff[m]));
                let p = choose|p: int| 0 <= p < front.len() && front[p] == ff[m];
            }
            assert(sids_distinct(kf));
            assert(kf.drop_last() =~= ff);
            assert(smap(kf) == smap(ff).insert(e.id, session_view(e)));
            lemma_smap(kf);
        }
    }
}

/// Putting one session's new state in place touches no other session:
/// every other identifier keeps exactly the state it had.
pub proof fn lemma_dispatch_isolated(
    before: Map<u64, SessionVal>,
    sid: u64,
    updated: SessionVal,
    other: u64,
)
    requires
        sid != other,
    ensures
        before.insert(sid, updated).contains_key(other) == before.contains_key(other),
        before.contains_key(other) ==> before.insert(sid, updated)[other] == before[other],
{
}

/// The server-side session table: shared tool registry and identity,
/// one isolated session per identifier.
pub struct SessionManager {
    next_sid: u64,
    sessions: Vec<Session>,
    router: ToolRouter,
    config: ServerConfig,
}

impl SessionManager {
    /// The map from live session identifier to that session's state.
    pub closed spec fn view(&self) -> Map<u64, SessionVal> {
        smap(self.sessions@)
    }

    pub closed spec fn wf(&self) -> bool {
        &&& sids_distinct(self.sessions@)
        &&& forall|k: int|
            0 <= k < self.sessions@.len() ==> (#[trigger] self.sessions@[k].id) < self.next_sid
        &&& forall|k: int|
            0 <= k < self.sessions@.len() ==> (#[trigger] self.sessions@[k]).correlator.wf()
    }

    /// The shared, read-only tool registry.
    pub closed spec fn tools(&self) -> Seq<ToolVal> {
        self.router@
    }

    /// The server identity offered at handshake.
    pub closed spec fn identity(&self) -> ConfigVal {
        config_view(self.config)
    }

    /// Whether the session identifier space has run out.
    pub closed spec fn exhausted(&self) -> bool {
        self.next_sid == u64::MAX
    }

    pub fn new(router: ToolRouter, config: ServerConfig) -> (r: SessionManager)
        ensures
            r.wf(),
            r@ == Map::<u64, SessionVal>::empty(),
            !r.exhausted(),
            r.tools() == router@,
            r.identity() == config_view(config),
    {
        let r = SessionManager { next_sid: 1, sessions: Vec::new(), router, config };
        proof {
            assert(smap(r.sessions@) =~= Map::<u64, SessionVal>::empty());
        }
        r
    }

    /// Opens a fresh session on first contact, owed whenever the
    /// identifier space has not run out; `None` exactly when it has.
    pub fn create_session(&mut self, now: u64) -> (r: Option<u64>)
        requires
            old(self).wf(),
        ensures
            final(self).wf(),
            final(self).tools() == old(self).tools(),
            final(self).identity() == old(self).identity(),
            (r is None) == old(self).exhausted(),
            match r {
                Some(sid) => {
                    &&& !old(self)@.contains_key(sid)
                    &&& final(self)@ == old(self)@.insert(
                        sid,
                        SessionVal {
                            last_activity: now,
                            initialized: false,
                            pending: Map::empty(),
                            exhausted: false,
                        },
                    )
                },
                None => final(self)@ == old(self)@,
            },
    {
        if self.next_sid == u64::MAX {
            return None;
        }
        let sid = self.next_sid;
        proof {
            lemma_smap(self.sessions@);
        }
        self.next_sid = self.next_sid + 1;
        let sess = Session { id: sid, last_activity: now, initialized: false, correlator: Correlator::new() };
        self.sessions.push(sess);
        proof {
            assert(self.sessions@.drop_last() =~= old(self).sessions@);
            assert(sids_distinct(self.sessions@));
        }
        Some(sid)
    }

    /// Routes one incoming message to the session it names: stamps the
    /// session's activity, performs the handshake, answers listing and
    /// call requests against the shared registry, resolves responses
    /// against that session's own table, and drops notifications. A
    /// session no lookup knows yields `UnknownSession`, and no other
    /// session's state is touched.
    pub fn dispatch(&mut self, sid: u64, m: Message, now: u64) -> (r: Result<
        Option<Message>,
        ProtocolError,
    >)
        requires
            old(self).wf(),
        ensures
            final(self).wf(),
            final(self).tools() == old(self).tools(),
            final(self).identity() == old(self).identity(),
            final(self).exhausted() == old(self).exhausted(),
            !old(self)@.contains_key(sid) ==> r == Err::<Option<Message>, ProtocolError>(
                ProtocolError::UnknownSession,
            ) && final(self)@ == old(self)@,
            old(self)@.contains_key(sid) ==> final(self)@ == old(self)@.insert(
                sid,
                session_step(old(self)@[sid], msg_view(m), now),
            ),
            old(self)@.contains_key(sid) ==> match r {
                Ok(reply) => match reply {
                    Some(rm) => spec_reply(
                        old(self).tools(),
                        old(self).identity(),
                        old(self)@[sid].initialized,
                        msg_view(m),
                    ) == Option::Some(msg_view(rm)),
                    None => spec_reply(
                        old(self).tools(),
                        old(self).identity(),
                        old(self)@[sid].initialized,
                        msg_view(m),
                    ) is None,
                },
                Err(_) => false,
            },
    {
        proof {
            lemma_smap(self.sessions@);
        }
        let n = self.sessions.len();
        let mut k: usize = 0;
        while k < n
            invariant
                k <= n,
                old(self).wf(),
                self == old(self),
                n == self.sessions@.len(),
                forall|p: int| 0 <= p < k ==> (#[trigger] self.sessions@[p].id) != sid,
            decreases n - k,
        {
            if self.sessions[k].id == sid {
                let ghost before = self.sessions@;
                let mut sess = self.sessions.remove(k);
                proof {
                    before.remove_ensures(k as int);
                    lemma_smap(before);
                }
                sess.last_activity = now;
                let was_initialized = sess.initialized;
                let reply: Option<Message> = match m {
                    Message::Request { id, method, params } => {
                        if bytes_eq(method.as_slice(), method_initialize_vec().as_slice()) {
                            sess.initialized = true;
                        }
                        Some(
                            compute_reply(
                                &self.router,
                                &self.config,
                                was_initialized,
                                id,
                                &method,
                                &params,
                            ),
                        )
                    },
                    Message::Notification { method, params } => None,
                    Message::Response { id, outcome } => {
                        let ghost pend = sess.correlator@;
                        let matched = sess.correlator.resolve(id);
                        proof {
                            if !matched {
                                assert(sess.correlator@ =~= pend.remove(id));
                            }
                        }
                        None
                    },
                };
                let ghost gsess = sess;
                self.sessions.push(sess);
                proof {
                    lemma_smap_replace(before, self.sessions@, k as int, gsess);
                    assert(session_view(gsess) == session_step(
                        smap(before)[sid],
                        msg_view(m),
                        now,
                    ));
                }
                return Ok(reply);
            }
            k = k + 1;
        }
        proof {
            lemma_smap(self.sessions@);
            if old(self)@.contains_key(sid) {
                let p = choose|p: int|
                    0 <= p < self.sessions@.len() && #[trigger] self.sessions@[p].id == sid;
                assert(false);
            }
        }
        Err(ProtocolError::UnknownSession)
    }

    /// Issues an identifier from one session's own table for a
    /// server-initiated request, and hands back the request to send.
    /// For a known session success is owed unless that session's
    /// identifier space has run out; no other session's state is
    /// touched.
    pub fn begin_session_request(
        &mut self,
        sid: u64,
        method: Vec<u8>,
        params: Value,
        deadline: Option<u64>,
        now: u64,
    ) -> (r: Result<(u64, Message), RpcError>)
        requires
            old(self).wf(),
        ensures
            final(self).wf(),
            final(self).tools() == old(self).tools(),
            final(self).identity() == old(self).identity(),
            final(self).exhausted() == old(self).exhausted(),
            !old(self)@.contains_key(sid) ==> r == Err::<(u64, Message), RpcError>(
                RpcError::Protocol(ProtocolError::UnknownSession),
            ) && final(self)@ == old(self)@,
            old(self)@.contains_key(sid) ==> (r is Err) == old(self)@[sid].exhausted,
            old(self)@.contains_key(sid) ==> match r {
                Ok((id, msg)) => {
                    &&& !old(self)@[sid].pending.contains_key(id)
                    &&& final(self)@ == old(self)@.insert(
                        sid,
                        SessionVal {
                            last_activity: now,
                            initialized: old(self)@[sid].initialized,
                            pending: old(self)@[sid].pending.insert(id, deadline),
                            exhausted: id == 0x7fff_ffff_ffff_ffffu64,
                        },
                    )
                    &&& msg_view(msg) == (MsgVal::Request {
                        id: id as int,
                        method: method@,
                        params: val_view(params),
                    })
                },
                Err(e) => {
                    &&& e == RpcError::Transport(TransportError::Unavailable)
                    &&& final(self)@ == old(self)@.insert(
                        sid,
                        SessionVal {
                            last_activity: now,
                            initialized: old(self)@[sid].initialized,
                            pending: old(self)@[sid].pending,
                            exhausted: true,
                        },
                    )
                },
            },
    {
        proof {
            lemma_smap(self.sessions@);
        }
        let n = self.sessions.len();
        let mut k: usize = 0;
        while k < n
            invariant
                k <= n,
                old(self).wf(),
                self == old(self),
                n == self.sessions@.len(),
                forall|p: int| 0 <= p < k ==> (#[trigger] self.sessions@[p].id) != sid,
            decreases n - k,
        {
            if self.sessions[k].id == sid {
                let ghost before = self.sessions@;
                let mut sess = self.sessions.remove(k);
                proof {
                    before.remove_ensures(k as int);
                    lemma_smap(before);
                }
                sess.last_activity = now;
                let issued = sess.correlator.begin_request(deadline);
                let out: Result<(u64, Message), RpcError> = match issued {
                    Some(id) => Ok((id, Message::Request { id, method, params })),
                    None => Err(RpcError::Transport(TransportError::Unavailable)),
                };
                let ghost gsess = sess;
                self.sessions.push(sess);
                proof {
                    lemma_smap_replace(before, self.sessions@, k as int, gsess);
                }
                return out;
            }
            k = k + 1;
        }
        proof {
            lemma_smap(self.sessions@);
            if old(self)@.contains_key(sid) {
                let p = choose|p: int|
                    0 <= p < self.sessions@.len() && #[trigger] self.sessions@[p].id == sid;
                assert(false);
            }
        }
        Err(RpcError::Protocol(ProtocolError::UnknownSession))
    }

    /// Removes every session idle past the threshold; an evicted
    /// identifier is absent from later lookups, everything else keeps
    /// its state untouched.
    pub fn evict_idle(&mut self, threshold: u64, now: u64)
        requires
            old(self).wf(),
        ensures
            final(self).wf(),
            final(self).tools() == old(self).tools(),
            final(self).identity() == old(self).identity(),
            final(self).exhausted() == old(self).exhausted(),
            forall|sid: u64|
                #[trigger] final(self)@.contains_key(sid) == (old(self)@.contains_key(sid)
                    && !idle(old(self)@[sid].last_activity, threshold, now)),
            forall|sid: u64|
                final(self)@.contains_key(sid) ==> final(self)@[sid] == old(self)@[sid],
    {
        let ghost orig = self.sessions@;
        let n = self.sessions.len();
        let mut kept: Vec<Session> = Vec::new();
        let mut processed: usize = 0;
        while processed < n
            invariant
                processed <= n,
                old(self).wf(),
                n == orig.len(),
                orig == old(self).sessions@,
                self.next_sid == old(self).next_sid,
                self.router == old(self).router,
                self.config == old(self).config,
                self.sessions@ == orig.subrange(processed as int, n as int),
                kept@ == live_filter(orig.take(processed as int), threshold, now),
            decreases n - processed,
        {
            let e = self.sessions.remove(0);
            proof {
                assert(orig.subrange(processed as int, n as int)[0] == orig[processed as int]);
                assert(self.sessions@ =~= orig.subrange(processed + 1, n as int));
                assert(orig.take(processed + 1).drop_last() =~= orig.take(processed as int));
                assert(orig.take(processed + 1).last() == orig[processed as int]);
            }
            let expired = now > e.last_activity && now - e.last_activity > threshold;
            if !expired {
                kept.push(e);
            }
            processed = processed + 1;
        }
        self.sessions = kept;
        proof {
            let before = orig;
            assert(before.take(before.len() as int) =~= before);
            lemma_live_filter(before, threshold, now);
            lemma_smap(before);
            assert forall|m: int|
                0 <= m < self.sessions@.len() implies (#[trigger] self.sessions@[m]).id
                < old(self).next_sid && self.sessions@[m].correlator.wf() by {
                assert(before.contains(self.sessions@[m]));
                let p = choose|p: int| 0 <= p < before.len() && before[p] == self.sessions@[m];
            }
        }
    }
}


/// Builds the tool-listing value from the registry.
fn build_tools_value(router: &ToolRouter) -> (v: Value)
    ensures
        val_view(v) == tools_list_val(router@),
{
    let ghost rv = router@;
    let mut list = router.list_tools();
    let ghost glist = list;
    let n = list.len();
    let mut items: Vec<Value> = Vec::new();
    let mut k: usize = 0;
    while k < n
        invariant
            k <= n,
            n == glist@.len(),
            glist@.len() == rv.len(),
            list@ == glist@.subrange(k as int, n as int),
            items@.len() == k,
            forall|m: int|
                0 <= m < n ==> (#[trigger] glist@[m]).name@ == rv[m].name
                    && glist@[m].description@ == rv[m].description,
            forall|m: int|
                0 <= m < k ==> val_view(#[trigger] items@[m]) == tool_summary_val(rv[m]),
        decreases n - k,
    {
        let d = list.remove(0);
        proof {
            assert(glist@.subrange(k as int, n as int)[0] == glist@[k as int]);
            assert(list@ =~= glist@.subrange(k + 1, n as int));
        }
        let mut fields: Vec<(Vec<u8>, Value)> = Vec::new();
        fields.push((key_name_vec(), Value::Str(d.name)));
        fields.push((key_description_vec(), Value::Str(d.description)));
        proof {
            lemma_fields_view(fields, 0);
            assert(fields_view(fields, 0) =~= tool_summary_val(rv[k as int])->Obj_0);
        }
        items.push(Value::Obj(fields));
        k = k + 1;
    }
    let ghost gitems = items;
    let mut fields: Vec<(Vec<u8>, Value)> = Vec::new();
    fields.push((key_tools_vec(), Value::Arr(items)));
    proof {
        lemma_vals_view(gitems, 0);
        assert(vals_view(gitems, 0) =~= Seq::new(rv.len(), |i: int| tool_summary_val(rv[i])));
        lemma_fields_view(fields, 0);
        assert(fields_view(fields, 0) =~= tools_list_val(rv)->Obj_0);
    }
    Value::Obj(fields)
}

fn method_not_found_reply(id: u64) -> (r: Message)
    ensures
        msg_view(r) == (MsgVal::Response {
            id: id as int,
            outcome: OutcomeVal::Failure(
                ErrVal { code: CODE_METHOD_NOT_FOUND as int, message: text_method_not_found() },
            ),
        }),
{
    Message::Response {
        id,
        outcome: Outcome::Failure(
            ErrorDescriptor {
                code: CODE_METHOD_NOT_FOUND,
                message: "method not found".as_bytes_vec(),
            },
        ),
    }
}

fn not_initialized_reply(id: u64) -> (r: Message)
    ensures
        msg_view(r) == (MsgVal::Response {
            id: id as int,
            outcome: OutcomeVal::Failure(
                ErrVal { code: CODE_NOT_INITIALIZED as int, message: text_not_initialized() },
            ),
        }),
{
    Message::Response {
        id,
        outcome: Outcome::Failure(
            ErrorDescriptor {
                code: CODE_NOT_INITIALIZED,
                message: "not initialized".as_bytes_vec(),
            },
        ),
    }
}

fn invalid_params_reply(id: u64) -> (r: Message)
    ensures
        msg_view(r) == (MsgVal::Response {
            id: id as int,
            outcome: OutcomeVal::Failure(
                ErrVal { code: CODE_INVALID_PARAMS as int, message: text_invalid_params() },
            ),
        }),
{
    Message::Response {
        id,
        outcome: Outcome::Failure(
            ErrorDescriptor { code: CODE_INVALID_PARAMS, message: "invalid params".as_bytes_vec() },
        ),
    }
}

/// The reply a server owes one request, computed against the shared
/// registry and identity.
fn compute_reply(router: &ToolRouter, config: &ServerConfig, initialized: bool, id: u64, method: &Vec<u8>, params: &Value) -> (r: Message)
    ensures
        spec_reply(router@, config_view(*config), initialized, MsgVal::Request {
            id: id as int,
            method: method@,
            params: val_view(*params),
        }) == Option::Some(msg_view(r)),
{
    if bytes_eq(method.as_slice(), method_initialize_vec().as_slice()) {
        let v = build_init_value(config);
        Message::Response { id, outcome: Outcome::Success(v) }
    } else if !initialized {
        not_initialized_reply(id)
    } else if bytes_eq(method.as_slice(), method_tools_list_vec().as_slice()) {
        let v = build_tools_value(router);
        Message::Response { id, outcome: Outcome::Success(v) }
    } else if bytes_eq(method.as_slice(), method_tools_call_vec().as_slice()) {
        match params {
            Value::Obj(fields) => {
                let nm = lookup_field(fields, key_name_vec().as_slice());
                match nm {
                    Some(nv) => match nv {
                        Value::Str(nmb) => {
                            let name = copy_bytes(nmb);
                            let argref = lookup_field(fields, key_arguments_vec().as_slice());
                            let result = match argref {
                                Some(a) => router.call_tool(name.as_slice(), a),
                                None => {
                                    let inner: Vec<(Vec<u8>, Value)> = Vec::new();
                                    proof {
                                        assert(fields_view(inner, 0) =~= Seq::<
                                            (Seq<u8>, Val),
                                        >::empty());
                                    }
                                    let empty = Value::Obj(inner);
                                    router.call_tool(name.as_slice(), &empty)
                                },
                            };
                            let v = build_result_value(result);
                            Message::Response { id, outcome: Outcome::Success(v) }
                        },
                        _ => invalid_params_reply(id),
                    },
                    None => invalid_params_reply(id),
                }
            },
            _ => invalid_params_reply(id),
        }
    } else {
        method_not_found_reply(id)
    }
}

} // verus!
