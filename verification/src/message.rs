//! The message envelope: requests, responses and notifications, their
//! ghost model, and the mapping onto the structured value that travels
//! on the wire.
//!
//! A record with an identifier and a method is a request; a method
//! without an identifier is a notification; an identifier without a
//! method is a response carrying either a result or an error.

use vstd::prelude::*;
use vstd::string::StringSliceAdditionalSpecFns;
use vstd::string::StrSliceExecFns;
use crate::value::Val;
use crate::value::Value;
use crate::value::val_view;
use crate::codec::in_i64_range;
use crate::codec::wf_str;
use crate::codec::wf_val;
use crate::codec::wf_fields;
use crate::codec::enc_val;
use crate::codec::bytes_eq;
use crate::codec::encode_value;
use crate::codec::parse_value;
use crate::codec::parses_to;
use crate::codec::val_result_is;
use crate::codec::DecodeError;
use crate::value::fields_view;
use crate::value::lemma_fields_view;

verus! {

/// The error descriptor a response may carry: a numeric code and a
/// human-readable message.
#[derive(Debug, PartialEq, Eq)]
pub struct ErrorDescriptor {
    pub code: i64,
    pub message: Vec<u8>,
}

/// What a response resolves to: a result value or an error descriptor,
/// mutually exclusive.
#[derive(Debug, PartialEq, Eq)]
pub enum Outcome {
    Success(Value),
    Failure(ErrorDescriptor),
}

/// One protocol message.
#[derive(Debug, PartialEq, Eq)]
pub enum Message {
    Request { id: u64, method: Vec<u8>, params: Value },
    Notification { method: Vec<u8>, params: Value },
    Response { id: u64, outcome: Outcome },
}

/// Model of an error descriptor.
pub struct ErrVal {
    pub code: int,
    pub message: Seq<u8>,
}

/// Model of an outcome.
pub enum OutcomeVal {
    Success(Val),
    Failure(ErrVal),
}

/// Model of a message.
pub enum MsgVal {
    Request { id: int, method: Seq<u8>, params: Val },
    Notification { method: Seq<u8>, params: Val },
    Response { id: int, outcome: OutcomeVal },
}

pub open spec fn outcome_view(o: Outcome) -> OutcomeVal {
    match o {
        Outcome::Success(v) => OutcomeVal::Success(val_view(v)),
        Outcome::Failure(e) => OutcomeVal::Failure(ErrVal { code: e.code as int, message: e.message@ }),
    }
}

pub open spec fn msg_view(m: Message) -> MsgVal {
    match m {
        Message::Request { id, method, params } => MsgVal::Request {
            id: id as int,
            method: method@,
            params: val_view(params),
        },
        Message::Notification { method, params } => MsgVal::Notification {
            method: method@,
            params: val_view(params),
        },
        Message::Response { id, outcome } => MsgVal::Response {
            id: id as int,
            outcome: outcome_view(outcome),
        },
    }
}

impl View for Message {
    type V = MsgVal;

    open spec fn view(&self) -> MsgVal {
        msg_view(*self)
    }
}

/// A message the codec can carry: the identifier fits the wire integer
/// type, the method is a wire string, and every value is well formed.
pub open spec fn wf_msg(gm: MsgVal) -> bool {
    match gm {
        MsgVal::Request { id, method, params } => 0 <= id <= i64::MAX && wf_str(method)
            && wf_val(params),
        MsgVal::Notification { method, params } => wf_str(method) && wf_val(params),
        MsgVal::Response { id, outcome } => 0 <= id <= i64::MAX && match outcome {
            OutcomeVal::Success(v) => wf_val(v),
            OutcomeVal::Failure(e) => in_i64_range(e.code) && wf_str(e.message),
        },
    }
}

pub open spec fn key_id() -> Seq<u8> {
    seq![0x69u8, 0x64u8]
}

pub open spec fn key_method() -> Seq<u8> {
    seq![0x6du8, 0x65u8, 0x74u8, 0x68u8, 0x6fu8, 0x64u8]
}

pub open spec fn key_params() -> Seq<u8> {
    seq![0x70u8, 0x61u8, 0x72u8, 0x61u8, 0x6du8, 0x73u8]
}

pub open spec fn key_result() -> Seq<u8> {
    seq![0x72u8, 0x65u8, 0x73u8, 0x75u8, 0x6cu8, 0x74u8]
}

pub open spec fn key_error() -> Seq<u8> {
    seq![0x65u8, 0x72u8, 0x72u8, 0x6fu8, 0x72u8]
}

pub open spec fn key_code() -> Seq<u8> {
    seq![0x63u8, 0x6fu8, 0x64u8, 0x65u8]
}

pub open spec fn key_message() -> Seq<u8> {
    seq![0x6du8, 0x65u8, 0x73u8, 0x73u8, 0x61u8, 0x67u8, 0x65u8]
}

/// The canonical envelope of a message, as a structured value.
pub open spec fn msg_to_val(gm: MsgVal) -> Val {
    match gm {
        MsgVal::Request { id, method, params } => Val::Obj(
            seq![
                (key_id(), Val::Int(id)),
                (key_method(), Val::Str(method)),
                (key_params(), params),
            ],
        ),
        MsgVal::Notification { method, params } => Val::Obj(
            seq![(key_method(), Val::Str(method)), (key_params(), params)],
        ),
        MsgVal::Response { id, outcome } => match outcome {
            OutcomeVal::Success(v) => Val::Obj(seq![(key_id(), Val::Int(id)), (key_result(), v)]),
            OutcomeVal::Failure(e) => Val::Obj(
                seq![
                    (key_id(), Val::Int(id)),
                    (
                        key_error(),
                        Val::Obj(
                            seq![(key_code(), Val::Int(e.code)), (key_message(), Val::Str(e.message))],
                        ),
                    ),
                ],
            ),
        },
    }
}

/// The byte encoding of a message.
pub open spec fn enc_msg(gm: MsgVal) -> Seq<u8> {
    enc_val(msg_to_val(gm))
}

/// The partial inverse of `msg_to_val`: which message, if any, a
/// structured value is the canonical envelope of.
pub open spec fn val_to_msg(gv: Val) -> Option<MsgVal> {
    if !(gv is Obj) {
        Option::None
    } else {
        let f = gv->Obj_0;
        if f.len() == 3 && f[0].0 == key_id() && f[0].1 is Int && 0 <= f[0].1->Int_0 <= i64::MAX
            && f[1].0 == key_method() && f[1].1 is Str && f[2].0 == key_params() {
            Option::Some(
                MsgVal::Request { id: f[0].1->Int_0, method: f[1].1->Str_0, params: f[2].1 },
            )
        } else if f.len() == 2 && f[0].0 == key_method() && f[0].1 is Str && f[1].0
            == key_params() {
            Option::Some(MsgVal::Notification { method: f[0].1->Str_0, params: f[1].1 })
        } else if f.len() == 2 && f[0].0 == key_id() && f[0].1 is Int && 0 <= f[0].1->Int_0
            <= i64::MAX && f[1].0 == key_result() {
            Option::Some(
                MsgVal::Response { id: f[0].1->Int_0, outcome: OutcomeVal::Success(f[1].1) },
            )
        } else if f.len() == 2 && f[0].0 == key_id() && f[0].1 is Int && 0 <= f[0].1->Int_0
            <= i64::MAX && f[1].0 == key_error() && f[1].1 is Obj && ({
            let e = f[1].1->Obj_0;
            e.len() == 2 && e[0].0 == key_code() && e[0].1 is Int && e[1].0 == key_message()
                && e[1].1 is Str
        }) {
            let e = f[1].1->Obj_0;
            Option::Some(
                MsgVal::Response {
                    id: f[0].1->Int_0,
                    outcome: OutcomeVal::Failure(
                        ErrVal { code: e[0].1->Int_0, message: e[1].1->Str_0 },
                    ),
                },
            )
        } else {
            Option::None
        }
    }
}

/// The envelope of a well-formed message is a well-formed value, and
/// reading the envelope back yields the message: the model-level
/// round trip.
pub proof fn lemma_msg_round_trip(gm: MsgVal)
    requires
        wf_msg(gm),
    ensures
        wf_val(msg_to_val(gm)),
        val_to_msg(msg_to_val(gm)) == Option::Some(gm),
{
    let gv = msg_to_val(gm);
    let f = gv->Obj_0;
    assert(wf_str(key_id()));
    assert(wf_str(key_method()));
    assert(wf_str(key_params()));
    assert(wf_str(key_result()));
    assert(wf_str(key_error()));
    assert(wf_str(key_code()));
    assert(wf_str(key_message()));
    match gm {
        MsgVal::Request { id, method, params } => {
            assert(wf_val(Val::Int(id)));
            assert(wf_val(Val::Str(method)));
            assert(wf_fields(f, 3));
            assert(wf_fields(f, 2));
            assert(wf_fields(f, 1));
            assert(wf_fields(f, 0));
        },
        MsgVal::Notification { method, params } => {
            assert(wf_val(Val::Str(method)));
            assert(wf_fields(f, 2));
            assert(wf_fields(f, 1));
            assert(wf_fields(f, 0));
        },
        MsgVal::Response { id, outcome } => {
            match outcome {
                OutcomeVal::Success(v) => {
                    assert(wf_val(Val::Int(id)));
                    assert(wf_fields(f, 2));
                    assert(wf_fields(f, 1));
                    assert(wf_fields(f, 0));
                },
                OutcomeVal::Failure(e) => {
                    let ef = f[1].1->Obj_0;
                    assert(wf_val(Val::Int(id)));
                    assert(wf_val(Val::Int(e.code)));
                    assert(wf_val(Val::Str(e.message)));
                    assert(wf_fields(ef, 2));
                    assert(wf_fields(ef, 1));
                    assert(wf_fields(ef, 0));
                    assert(wf_val(f[1].1));
                    assert(wf_fields(f, 2));
                    assert(wf_fields(f, 1));
                    assert(wf_fields(f, 0));
                },
            }
        },
    }
}

/// A well-formed value that reads back as a message is that message's
/// canonical envelope, and the message is well formed.
pub proof fn lemma_val_to_msg_inverse(gv: Val, gm: MsgVal)
    requires
        wf_val(gv),
        val_to_msg(gv) == Option::Some(gm),
    ensures
        wf_msg(gm),
        msg_to_val(gm) == gv,
{
    let f = gv->Obj_0;
    assert(wf_fields(f, 0));
    assert(wf_fields(f, 1));
    assert(wf_fields(f, 2));
    assert(wf_val(f[0].1));
    assert(wf_val(f[1].1));
    if f.len() == 3 {
        assert(wf_val(f[2].1));
        assert(f =~= seq![
            (key_id(), f[0].1),
            (key_method(), f[1].1),
            (key_params(), f[2].1),
        ]);
        assert(msg_to_val(gm)->Obj_0 =~= f);
    } else if f[1].0 == key_error() {
        let e = f[1].1->Obj_0;
        assert(wf_fields(e, 0));
        assert(wf_fields(e, 1));
        assert(wf_fields(e, 2));
        assert(wf_val(e[0].1));
        assert(wf_val(e[1].1));
        assert(msg_to_val(gm)->Obj_0[1].1->Obj_0 =~= e);
        assert(msg_to_val(gm)->Obj_0[1].1 == f[1].1);
        assert(msg_to_val(gm)->Obj_0 =~= f);
    } else {
        assert(msg_to_val(gm)->Obj_0 =~= f);
    }
}


fn key_id_vec() -> (r: Vec<u8>)
    ensures
        r@ == key_id(),
{
    let mut v: Vec<u8> = Vec::new();
    v.push(0x69);
    v.push(0x64);
    proof {
        assert(v@ =~= key_id());
    }
    v
}

fn key_method_vec() -> (r: Vec<u8>)
    ensures
        r@ == key_method(),
{
    let mut v: Vec<u8> = Vec::new();
    v.push(0x6d);
    v.push(0x65);
    v.push(0x74);
    v.push(0x68);
    v.push(0x6f);
    v.push(0x64);
    proof {
        assert(v@ =~= key_method());
    }
    v
}

fn key_params_vec() -> (r: Vec<u8>)
    ensures
        r@ == key_params(),
{
    let mut v: Vec<u8> = Vec::new();
    v.push(0x70);
    v.push(0x61);
    v.push(0x72);
    v.push(0x61);
    v.push(0x6d);
    v.push(0x73);
    proof {
        assert(v@ =~= key_params());
    }
    v
}

fn key_result_vec() -> (r: Vec<u8>)
    ensures
        r@ == key_result(),
{
    let mut v: Vec<u8> = Vec::new();
    v.push(0x72);
    v.push(0x65);
    v.push(0x73);
    v.push(0x75);
    v.push(0x6c);
    v.push(0x74);
    proof {
        assert(v@ =~= key_result());
    }
    v
}

fn key_error_vec() -> (r: Vec<u8>)
    ensures
        r@ == key_error(),
{
    let mut v: Vec<u8> = Vec::new();
    v.push(0x65);
    v.push(0x72);
    v.push(0x72);
    v.push(0x6f);
    v.push(0x72);
    proof {
        assert(v@ =~= key_error());
    }
    v
}

fn key_code_vec() -> (r: Vec<u8>)
    ensures
        r@ == key_code(),
{
    let mut v: Vec<u8> = Vec::new();
    v.push(0x63);
    v.push(0x6f);
    v.push(0x64);
    v.push(0x65);
    proof {
        assert(v@ =~= key_code());
    }
    v
}

fn key_message_vec() -> (r: Vec<u8>)
    ensures
        r@ == key_message(),
{
    let mut v: Vec<u8> = Vec::new();
    v.push(0x6d);
    v.push(0x65);
    v.push(0x73);
    v.push(0x73);
    v.push(0x61);
    v.push(0x67);
    v.push(0x65);
    proof {
        assert(v@ =~= key_message());
    }
    v
}

/// Writes the wire record of a well-formed message: its canonical
/// envelope, byte for byte.
pub fn encode_message(m: Message) -> (out: Vec<u8>)
    requires
        wf_msg(msg_view(m)),
    ensures
        out@ == enc_msg(msg_view(m)),
{
    let ghost gm = msg_view(m);
    let env: Value = match m {
        Message::Request { id, method, params } => {
            let mut fields: Vec<(Vec<u8>, Value)> = Vec::new();
            fields.push((key_id_vec(), Value::Int(id as i64)));
            fields.push((key_method_vec(), Value::Str(method)));
            fields.push((key_params_vec(), params));
            proof {
                lemma_fields_view(fields, 0);
                assert(fields_view(fields, 0) =~= msg_to_val(gm)->Obj_0);
            }
            Value::Obj(fields)
        },
        Message::Notification { method, params } => {
            let mut fields: Vec<(Vec<u8>, Value)> = Vec::new();
            fields.push((key_method_vec(), Value::Str(method)));
            fields.push((key_params_vec(), params));
            proof {
                lemma_fields_view(fields, 0);
                assert(fields_view(fields, 0) =~= msg_to_val(gm)->Obj_0);
            }
            Value::Obj(fields)
        },
        Message::Response { id, outcome } => match outcome {
            Outcome::Success(v) => {
                let mut fields: Vec<(Vec<u8>, Value)> = Vec::new();
                fields.push((key_id_vec(), Value::Int(id as i64)));
                fields.push((key_result_vec(), v));
                proof {
                    lemma_fields_view(fields, 0);
                    assert(fields_view(fields, 0) =~= msg_to_val(gm)->Obj_0);
                }
                Value::Obj(fields)
            },
            Outcome::Failure(e) => {
                let mut efields: Vec<(Vec<u8>, Value)> = Vec::new();
                efields.push((key_code_vec(), Value::Int(e.code)));
                efields.push((key_message_vec(), Value::Str(e.message)));
                proof {
                    lemma_fields_view(efields, 0);
                    assert(fields_view(efields, 0) =~= msg_to_val(gm)->Obj_0[1].1->Obj_0);
                }
                let mut fields: Vec<(Vec<u8>, Value)> = Vec::new();
                fields.push((key_id_vec(), Value::Int(id as i64)));
                fields.push((key_error_vec(), Value::Obj(efields)));
                proof {
                    lemma_fields_view(fields, 0);
                    assert(fields_view(fields, 0) =~= msg_to_val(gm)->Obj_0);
                }
                Value::Obj(fields)
            },
        },
    };
    proof {
        assert(val_view(env) == msg_to_val(gm));
    }
    let mut out: Vec<u8> = Vec::new();
    encode_value(&env, &mut out);
    proof {
        assert(out@ =~= enc_msg(gm));
    }
    out
}

/// Reads a structured value back as the message it is the canonical
/// envelope of, if it is one.
fn value_to_message(v: Value) -> (res: Result<Message, DecodeError>)
    ensures
        match res {
            Ok(m) => val_to_msg(val_view(v)) == Option::Some(msg_view(m)),
            Err(_) => val_to_msg(val_view(v)) is None,
        },
{
    let ghost gv = val_view(v);
    match v {
        Value::Obj(fields) => {
            let ghost gfv = fields;
            proof {
                lemma_fields_view(gfv, 0);
            }
            let mut fields = fields;
            let n = fields.len();
            if n == 3 {
                let f2 = fields.pop().unwrap();
                let f1 = fields.pop().unwrap();
                let f0 = fields.pop().unwrap();
                proof {
                    assert(f0 == gfv@[0] && f1 == gfv@[1] && f2 == gfv@[2]);
                }
                let (k0, v0) = f0;
                let (k1, v1) = f1;
                let (k2, v2) = f2;
                let keys_ok = bytes_eq(k0.as_slice(), key_id_vec().as_slice()) && bytes_eq(
                    k1.as_slice(),
                    key_method_vec().as_slice(),
                ) && bytes_eq(k2.as_slice(), key_params_vec().as_slice());
                if keys_ok {
                    if let Value::Int(iv) = v0 {
                        if iv >= 0 {
                            if let Value::Str(ms) = v1 {
                                return Ok(
                                    Message::Request { id: iv as u64, method: ms, params: v2 },
                                );
                            }
                        }
                    }
                }
                return Err(DecodeError::UnknownShape);
            }
            if n == 2 {
                let f1 = fields.pop().unwrap();
                let f0 = fields.pop().unwrap();
                proof {
                    assert(f0 == gfv@[0] && f1 == gfv@[1]);
                }
                let (k0, v0) = f0;
                let (k1, v1) = f1;
                if bytes_eq(k0.as_slice(), key_method_vec().as_slice()) && bytes_eq(
                    k1.as_slice(),
                    key_params_vec().as_slice(),
                ) {
                    if let Value::Str(ms) = v0 {
                        return Ok(Message::Notification { method: ms, params: v1 });
                    }
                    return Err(DecodeError::UnknownShape);
                }
                if bytes_eq(k0.as_slice(), key_id_vec().as_slice()) && bytes_eq(
                    k1.as_slice(),
                    key_result_vec().as_slice(),
                ) {
                    if let Value::Int(iv) = v0 {
                        if iv >= 0 {
                            return Ok(
                                Message::Response {
                                    id: iv as u64,
                                    outcome: Outcome::Success(v1),
                                },
                            );
                        }
                    }
                    return Err(DecodeError::UnknownShape);
                }
                if bytes_eq(k0.as_slice(), key_id_vec().as_slice()) && bytes_eq(
                    k1.as_slice(),
                    key_error_vec().as_slice(),
                ) {
                    if let Value::Int(iv) = v0 {
                        if iv >= 0 {
                            if let Value::Obj(efields) = v1 {
                                let ghost gev = efields;
                                proof {
                                    lemma_fields_view(gev, 0);
                                }
                                let mut efields = efields;
                                if efields.len() == 2 {
                                    let e1 = efields.pop().unwrap();
                                    let e0 = efields.pop().unwrap();
                                    proof {
                                        assert(e0 == gev@[0] && e1 == gev@[1]);
                                    }
                                    let (ck, cv) = e0;
                                    let (mk, mv) = e1;
                                    if bytes_eq(ck.as_slice(), key_code_vec().as_slice())
                                        && bytes_eq(mk.as_slice(), key_message_vec().as_slice()) {
                                        if let Value::Int(code) = cv {
                                            if let Value::Str(emsg) = mv {
                                                return Ok(
                                                    Message::Response {
                                                        id: iv as u64,
                                                        outcome: Outcome::Failure(
                                                            ErrorDescriptor {
                                                                code,
                                                                message: emsg,
                                                            },
                                                        ),
                                                    },
                                                );
                                            }
                                        }
                                    }
                                }
                            }
                        }
                    }
                    return Err(DecodeError::UnknownShape);
                }
                return Err(DecodeError::UnknownShape);
            }
            Err(DecodeError::UnknownShape)
        },
        _ => Err(DecodeError::UnknownShape),
    }
}

pub open spec fn msg_result_is(res: Result<Message, DecodeError>, gm: MsgVal) -> bool {
    match res {
        Ok(m) => msg_view(m) == gm,
        Err(_) => false,
    }
}

/// Reads one complete wire record back as a message.
///
/// Success is owed exactly on the canonical encodings of well-formed
/// messages, and what comes back is that message: together with
/// `encode_message` this is the byte-level round trip.
pub fn decode_message(b: &[u8]) -> (res: Result<Message, DecodeError>)
    ensures
        match res {
            Ok(m) => wf_msg(msg_view(m)) && b@ == enc_msg(msg_view(m)),
            Err(_) => true,
        },
        forall|gm: MsgVal|
            wf_msg(gm) && b@ == #[trigger] enc_msg(gm) ==> msg_result_is(res, gm),
{
    let n = b.len();
    let pres = parse_value(b, 0);
    proof {
        assert forall|gm: MsgVal| wf_msg(gm) && b@ == #[trigger] enc_msg(gm) implies parses_to(
            b@,
            0,
            n as int,
            msg_to_val(gm),
        ) by {
            lemma_msg_round_trip(gm);
            assert(b@.subrange(0, n as int) =~= b@);
        }
    }
    match pres {
        Err(e) => Err(e),
        Ok((v, j)) => {
            proof {
                assert forall|gm: MsgVal| wf_msg(gm) && b@ == #[trigger] enc_msg(gm) implies
                    val_view(v) == msg_to_val(gm) && j == n by {
                    assert(val_result_is(pres, msg_to_val(gm), n as int));
                }
            }
            if j != n {
                return Err(DecodeError::Malformed);
            }
            let ghost gvv = val_view(v);
            let mres = value_to_message(v);
            proof {
                assert(b@.subrange(0, n as int) =~= b@);
                match &mres {
                    Ok(m) => {
                        lemma_val_to_msg_inverse(gvv, msg_view(*m));
                    },
                    Err(_) => {},
                }
                assert forall|gm: MsgVal| wf_msg(gm) && b@ == #[trigger] enc_msg(gm) implies
                    msg_result_is(mres, gm) by {
                    lemma_msg_round_trip(gm);
                    assert(val_to_msg(gvv) == Option::Some(gm));
                }
            }
            mres
        },
    }
}


pub open spec fn method_initialize() -> Seq<u8> {
    "initialize".spec_bytes()
}

pub fn method_initialize_vec() -> (r: Vec<u8>)
    ensures
        r@ == method_initialize(),
{
    "initialize".as_bytes_vec()
}

pub open spec fn method_tools_list() -> Seq<u8> {
    "tools/list".spec_bytes()
}

pub fn method_tools_list_vec() -> (r: Vec<u8>)
    ensures
        r@ == method_tools_list(),
{
    "tools/list".as_bytes_vec()
}

pub open spec fn method_tools_call() -> Seq<u8> {
    "tools/call".spec_bytes()
}

pub fn method_tools_call_vec() -> (r: Vec<u8>)
    ensures
        r@ == method_tools_call(),
{
    "tools/call".as_bytes_vec()
}

pub open spec fn key_name() -> Seq<u8> {
    "name".spec_bytes()
}

pub fn key_name_vec() -> (r: Vec<u8>)
    ensures
        r@ == key_name(),
{
    "name".as_bytes_vec()
}

pub open spec fn key_arguments() -> Seq<u8> {
    "arguments".spec_bytes()
}

pub fn key_arguments_vec() -> (r: Vec<u8>)
    ensures
        r@ == key_arguments(),
{
    "arguments".as_bytes_vec()
}

pub open spec fn key_content() -> Seq<u8> {
    "content".spec_bytes()
}

pub fn key_content_vec() -> (r: Vec<u8>)
    ensures
        r@ == key_content(),
{
    "content".as_bytes_vec()
}

pub open spec fn key_is_error() -> Seq<u8> {
    "isError".spec_bytes()
}

pub fn key_is_error_vec() -> (r: Vec<u8>)
    ensures
        r@ == key_is_error(),
{
    "isError".as_bytes_vec()
}

pub open spec fn key_type() -> Seq<u8> {
    "type".spec_bytes()
}

pub fn key_type_vec() -> (r: Vec<u8>)
    ensures
        r@ == key_type(),
{
    "type".as_bytes_vec()
}

pub open spec fn key_text() -> Seq<u8> {
    "text".spec_bytes()
}

pub fn key_text_vec() -> (r: Vec<u8>)
    ensures
        r@ == key_text(),
{
    "text".as_bytes_vec()
}

pub open spec fn key_tools() -> Seq<u8> {
    "tools".spec_bytes()
}

pub fn key_tools_vec() -> (r: Vec<u8>)
    ensures
        r@ == key_tools(),
{
    "tools".as_bytes_vec()
}

pub open spec fn key_description() -> Seq<u8> {
    "description".spec_bytes()
}

pub fn key_description_vec() -> (r: Vec<u8>)
    ensures
        r@ == key_description(),
{
    "description".as_bytes_vec()
}

pub open spec fn key_protocol_version() -> Seq<u8> {
    "protocolVersion".spec_bytes()
}

pub fn key_protocol_version_vec() -> (r: Vec<u8>)
    ensures
        r@ == key_protocol_version(),
{
    "protocolVersion".as_bytes_vec()
}

pub open spec fn key_capabilities() -> Seq<u8> {
    "capabilities".spec_bytes()
}

pub fn key_capabilities_vec() -> (r: Vec<u8>)
    ensures
        r@ == key_capabilities(),
{
    "capabilities".as_bytes_vec()
}

pub open spec fn key_version() -> Seq<u8> {
    "version".spec_bytes()
}

pub fn key_version_vec() -> (r: Vec<u8>)
    ensures
        r@ == key_version(),
{
    "version".as_bytes_vec()
}

pub open spec fn key_instructions() -> Seq<u8> {
    "instructions".spec_bytes()
}

pub fn key_instructions_vec() -> (r: Vec<u8>)
    ensures
        r@ == key_instructions(),
{
    "instructions".as_bytes_vec()
}

/// Every wire name above is a well-formed wire string.
pub proof fn lemma_wire_names_wf()
    ensures
        wf_str(method_initialize()),
        wf_str(method_tools_list()),
        wf_str(method_tools_call()),
        wf_str(key_name()),
        wf_str(key_arguments()),
        wf_str(key_content()),
        wf_str(key_is_error()),
        wf_str(key_type()),
        wf_str(key_text()),
        wf_str(key_tools()),
        wf_str(key_description()),
        wf_str(key_protocol_version()),
        wf_str(key_capabilities()),
        wf_str(key_version()),
        wf_str(key_instructions()),
{
    broadcast use vstd::string::is_ascii_spec_bytes;

    reveal_strlit("initialize");
    assert(vstd::string::is_ascii("initialize"));
    assert(wf_str(method_initialize()));
    reveal_strlit("tools/list");
    assert(vstd::string::is_ascii("tools/list"));
    assert(wf_str(method_tools_list()));
    reveal_strlit("tools/call");
    assert(vstd::string::is_ascii("tools/call"));
    assert(wf_str(method_tools_call()));
    reveal_strlit("name");
    assert(vstd::string::is_ascii("name"));
    assert(wf_str(key_name()));
    reveal_strlit("arguments");
    assert(vstd::string::is_ascii("arguments"));
    assert(wf_str(key_arguments()));
    reveal_strlit("content");
    assert(vstd::string::is_ascii("content"));
    assert(wf_str(key_content()));
    reveal_strlit("isError");
    assert(vstd::string::is_ascii("isError"));
    assert(wf_str(key_is_error()));
    reveal_strlit("type");
    assert(vstd::string::is_ascii("type"));
    assert(wf_str(key_type()));
    reveal_strlit("text");
    assert(vstd::string::is_ascii("text"));
    assert(wf_str(key_text()));
    reveal_strlit("tools");
    assert(vstd::string::is_ascii("tools"));
    assert(wf_str(key_tools()));
    reveal_strlit("description");
    assert(vstd::string::is_ascii("description"));
    assert(wf_str(key_description()));
    reveal_strlit("protocolVersion");
    assert(vstd::string::is_ascii("protocolVersion"));
    assert(wf_str(key_protocol_version()));
    reveal_strlit("capabilities");
    assert(vstd::string::is_ascii("capabilities"));
    assert(wf_str(key_capabilities()));
    reveal_strlit("version");
    assert(vstd::string::is_ascii("version"));
    assert(wf_str(key_version()));
    reveal_strlit("instructions");
    assert(vstd::string::is_ascii("instructions"));
    assert(wf_str(key_instructions()));
}


} // verus!
