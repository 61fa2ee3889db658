//! The tool registry and dispatch engine: named tools with argument
//! schemas, looked up and invoked by incoming call requests.
//!
//! Handlers are a closed set of tagged variants, so dispatch is one
//! lookup and one match, and an unknown tool or a bad argument shape is
//! an error-flagged result, never a protocol failure.

use vstd::prelude::*;
use crate::value::Val;
use crate::value::Value;
use crate::value::val_view;
use crate::codec::bytes_eq;
use crate::codec::enc_int;
use crate::codec::int_text_wide;

verus! {

/// The shape an argument field must have.
#[derive(Clone, Copy, Debug, PartialEq, Eq, Structural)]
pub enum ValueKind {
    Null,
    Bool,
    Int,
    Str,
    Arr,
    Obj,
}

pub open spec fn kind_of(gv: Val) -> ValueKind {
    match gv {
        Val::Null => ValueKind::Null,
        Val::Bool(_) => ValueKind::Bool,
        Val::Int(_) => ValueKind::Int,
        Val::Str(_) => ValueKind::Str,
        Val::Arr(_) => ValueKind::Arr,
        Val::Obj(_) => ValueKind::Obj,
    }
}

/// One required argument field of a tool.
#[derive(Debug)]
pub struct ParamField {
    pub name: Vec<u8>,
    pub kind: ValueKind,
}

/// The structural description of the arguments a tool accepts.
#[derive(Debug)]
pub struct ParamSchema {
    pub required: Vec<ParamField>,
}

/// A registered tool as callers see it.
#[derive(Debug)]
pub struct ToolDescriptor {
    pub name: Vec<u8>,
    pub description: Vec<u8>,
    pub schema: ParamSchema,
}

/// The closed set of handler behaviours this registry dispatches to.
#[derive(Clone, Copy, Debug, PartialEq, Eq, Structural)]
pub enum Handler {
    Add,
}

/// One item of a tool result.
#[derive(Debug, PartialEq, Eq)]
pub enum ContentItem {
    Text(Vec<u8>),
}

/// What a tool call returns: ordered content and an error flag.
/// Application-level failure sets the flag; it never becomes a
/// transport or protocol failure.
#[derive(Debug, PartialEq, Eq)]
pub struct ToolResult {
    pub content: Vec<ContentItem>,
    pub is_error: bool,
}

/// Model of a schema field.
pub struct FieldVal {
    pub name: Seq<u8>,
    pub kind: ValueKind,
}

/// Model of a registered tool.
pub struct ToolVal {
    pub name: Seq<u8>,
    pub description: Seq<u8>,
    pub required: Seq<FieldVal>,
    pub handler: Handler,
}

/// Model of a tool result: the text of each content item, in order,
/// and the error flag.
pub struct ToolResultVal {
    pub content: Seq<Seq<u8>>,
    pub is_error: bool,
}

/// Model of the schema fields of `v[i..]`.
pub open spec fn req_view(v: Vec<ParamField>, i: int) -> Seq<FieldVal>
    decreases v, v@.len() - i, 0int,
{
    if i < 0 || i >= v@.len() {
        Seq::empty()
    } else {
        seq![FieldVal { name: v@[i].name@, kind: v@[i].kind }] + req_view(v, i + 1)
    }
}

pub proof fn lemma_req_view(v: Vec<ParamField>, i: int)
    requires
        0 <= i <= v@.len(),
    ensures
        req_view(v, i).len() == v@.len() - i,
        forall|k: int|
            0 <= k < v@.len() - i ==> #[trigger] req_view(v, i)[k] == (FieldVal {
                name: v@[i + k].name@,
                kind: v@[i + k].kind,
            }),
    decreases v@.len() - i,
{
    if i < v@.len() {
        lemma_req_view(v, i + 1);
    }
}

/// Model of the content items of `v[i..]`.
pub open spec fn content_view(v: Vec<ContentItem>, i: int) -> Seq<Seq<u8>>
    decreases v, v@.len() - i, 0int,
{
    if i < 0 || i >= v@.len() {
        Seq::empty()
    } else {
        (match v@[i] {
            ContentItem::Text(t) => seq![t@],
        }) + content_view(v, i + 1)
    }
}


pub proof fn lemma_content_view(v: Vec<ContentItem>, i: int)
    requires
        0 <= i <= v@.len(),
    ensures
        content_view(v, i).len() == v@.len() - i,
        forall|k: int|
            0 <= k < v@.len() - i ==> #[trigger] content_view(v, i)[k] == (match v@[i + k] {
                ContentItem::Text(t) => t@,
            }),
    decreases v@.len() - i,
{
    if i < v@.len() {
        lemma_content_view(v, i + 1);
    }
}

pub open spec fn result_view(r: ToolResult) -> ToolResultVal {
    ToolResultVal { content: content_view(r.content, 0), is_error: r.is_error }
}

/// One registry entry.
pub struct ToolEntry {
    pub descriptor: ToolDescriptor,
    pub handler: Handler,
}

pub open spec fn entry_view(e: ToolEntry) -> ToolVal {
    ToolVal {
        name: e.descriptor.name@,
        description: e.descriptor.description@,
        required: req_view(e.descriptor.schema.required, 0),
        handler: e.handler,
    }
}

/// Model of the registry entries `v[i..]`, in registration order.
pub open spec fn reg_view(v: Vec<ToolEntry>, i: int) -> Seq<ToolVal>
    decreases v, v@.len() - i, 0int,
{
    if i < 0 || i >= v@.len() {
        Seq::empty()
    } else {
        seq![entry_view(v@[i])] + reg_view(v, i + 1)
    }
}

pub proof fn lemma_reg_view(v: Vec<ToolEntry>, i: int)
    requires
        0 <= i <= v@.len(),
    ensures
        reg_view(v, i).len() == v@.len() - i,
        forall|k: int|
            0 <= k < v@.len() - i ==> #[trigger] reg_view(v, i)[k] == entry_view(v@[i + k]),
    decreases v@.len() - i,
{
    if i < v@.len() {
        lemma_reg_view(v, i + 1);
    }
}

/// The first registered tool of a given name.
pub open spec fn find_tool(rv: Seq<ToolVal>, name: Seq<u8>) -> Option<ToolVal>
    decreases rv.len(),
{
    if rv.len() == 0 {
        Option::None
    } else if rv[0].name == name {
        Option::Some(rv[0])
    } else {
        find_tool(rv.drop_first(), name)
    }
}

/// The value of the first field of a given name in an argument record.
pub open spec fn obj_lookup(fields: Seq<(Seq<u8>, Val)>, name: Seq<u8>) -> Option<Val>
    decreases fields.len(),
{
    if fields.len() == 0 {
        Option::None
    } else if fields[0].0 == name {
        Option::Some(fields[0].1)
    } else {
        obj_lookup(fields.drop_first(), name)
    }
}

/// Whether an argument value is a record holding every required field
/// with the required shape.
pub open spec fn args_valid(required: Seq<FieldVal>, gargs: Val) -> bool {
    &&& gargs is Obj
    &&& forall|k: int|
        0 <= k < required.len() ==> match obj_lookup(gargs->Obj_0, (#[trigger] required[k]).name) {
            Option::Some(v) => kind_of(v) == required[k].kind,
            Option::None => false,
        }
}

pub open spec fn text_unknown_tool() -> Seq<u8> {
    seq![
        0x75u8, 0x6eu8, 0x6bu8, 0x6eu8, 0x6fu8, 0x77u8, 0x6eu8, 0x20u8, 0x74u8, 0x6fu8, 0x6fu8,
        0x6cu8,
    ]
}

pub open spec fn text_invalid_args() -> Seq<u8> {
    seq![
        0x69u8, 0x6eu8, 0x76u8, 0x61u8, 0x6cu8, 0x69u8, 0x64u8, 0x20u8, 0x61u8, 0x72u8, 0x67u8,
        0x75u8, 0x6du8, 0x65u8, 0x6eu8, 0x74u8, 0x73u8,
    ]
}

pub open spec fn error_result(text: Seq<u8>) -> ToolResultVal {
    ToolResultVal { content: seq![text], is_error: true }
}

pub open spec fn key_a() -> Seq<u8> {
    seq![0x61u8]
}

pub open spec fn key_b() -> Seq<u8> {
    seq![0x62u8]
}

/// What the addition handler returns: the exact decimal text of the
/// sum of the integer fields `a` and `b` — never an error once its
/// schema admitted the arguments — or an error-flagged result when a
/// field is missing or has another shape.
pub open spec fn add_result(gargs: Val) -> ToolResultVal {
    if gargs is Obj {
        let fa = obj_lookup(gargs->Obj_0, key_a());
        let fb = obj_lookup(gargs->Obj_0, key_b());
        if fa is Some && fa->0 is Int && fb is Some && fb->0 is Int {
            ToolResultVal {
                content: seq![enc_int(fa->0->Int_0 + fb->0->Int_0)],
                is_error: false,
            }
        } else {
            error_result(text_invalid_args())
        }
    } else {
        error_result(text_invalid_args())
    }
}

pub open spec fn run_handler(h: Handler, gargs: Val) -> ToolResultVal {
    match h {
        Handler::Add => add_result(gargs),
    }
}

/// The full contract of dispatch: an unregistered name gives an
/// error-flagged result; a registered one validates the arguments
/// against its schema and runs its handler.
pub open spec fn spec_call_tool(rv: Seq<ToolVal>, name: Seq<u8>, gargs: Val) -> ToolResultVal {
    match find_tool(rv, name) {
        Option::None => error_result(text_unknown_tool()),
        Option::Some(t) => if args_valid(t.required, gargs) {
            run_handler(t.handler, gargs)
        } else {
            error_result(text_invalid_args())
        },
    }
}


/// A name is absent exactly when no entry carries it.
pub proof fn lemma_find_none(rv: Seq<ToolVal>, name: Seq<u8>)
    ensures
        (find_tool(rv, name) is None) == (forall|k: int|
            0 <= k < rv.len() ==> (#[trigger] rv[k]).name != name),
    decreases rv.len(),
{
    if rv.len() > 0 {
        lemma_find_none(rv.drop_first(), name);
        assert(forall|k: int|
            0 <= k < rv.drop_first().len() ==> #[trigger] rv.drop_first()[k] == rv[k + 1]);
        if rv[0].name != name && (find_tool(rv.drop_first(), name) is None) {
            assert forall|k: int| 0 <= k < rv.len() implies (#[trigger] rv[k]).name != name by {
                if k > 0 {
                    assert(rv.drop_first()[k - 1] == rv[k]);
                }
            }
        }
    }
}

fn copy_bytes(src: &Vec<u8>) -> (r: Vec<u8>)
    ensures
        r@ == src@,
{
    let mut r: Vec<u8> = Vec::new();
    let mut k: usize = 0;
    while k < src.len()
        invariant
            k <= src@.len(),
            r@ == src@.subrange(0, k as int),
        decreases src@.len() - k,
    {
        r.push(src[k]);
        proof {
            assert(r@ =~= src@.subrange(0, k + 1));
        }
        k = k + 1;
    }
    proof {
        assert(src@.subrange(0, src@.len() as int) =~= src@);
    }
    r
}

fn text_unknown_tool_vec() -> (r: Vec<u8>)
    ensures
        r@ == text_unknown_tool(),
{
    let mut v: Vec<u8> = Vec::new();
    v.push(0x75);
    v.push(0x6e);
    v.push(0x6b);
    v.push(0x6e);
    v.push(0x6f);
    v.push(0x77);
    v.push(0x6e);
    v.push(0x20);
    v.push(0x74);
    v.push(0x6f);
    v.push(0x6f);
    v.push(0x6c);
    proof {
        assert(v@ =~= text_unknown_tool());
    }
    v
}

fn text_invalid_args_vec() -> (r: Vec<u8>)
    ensures
        r@ == text_invalid_args(),
{
    let mut v: Vec<u8> = Vec::new();
    v.push(0x69);
    v.push(0x6e);
    v.push(0x76);
    v.push(0x61);
    v.push(0x6c);
    v.push(0x69);
    v.push(0x64);
    v.push(0x20);
    v.push(0x61);
    v.push(0x72);
    v.push(0x67);
    v.push(0x75);
    v.push(0x6d);
    v.push(0x65);
    v.push(0x6e);
    v.push(0x74);
    v.push(0x73);
    proof {
        assert(v@ =~= text_invalid_args());
    }
    v
}

/// An error-flagged result holding one text item.
fn make_error(text: Vec<u8>) -> (r: ToolResult)
    ensures
        result_view(r) == error_result(text@),
{
    let ghost gt = text@;
    let mut content: Vec<ContentItem> = Vec::new();
    content.push(ContentItem::Text(text));
    proof {
        assert(content_view(content, 1) =~= Seq::<Seq<u8>>::empty());
        assert(content_view(content, 0) =~= seq![gt]);
    }
    ToolResult { content, is_error: true }
}

/// A non-error result holding one text item.
fn make_text(text: Vec<u8>) -> (r: ToolResult)
    ensures
        result_view(r) == (ToolResultVal { content: seq![text@], is_error: false }),
{
    let ghost gt = text@;
    let mut content: Vec<ContentItem> = Vec::new();
    content.push(ContentItem::Text(text));
    proof {
        assert(content_view(content, 1) =~= Seq::<Seq<u8>>::empty());
        assert(content_view(content, 0) =~= seq![gt]);
    }
    ToolResult { content, is_error: false }
}

fn kind_of_exec(v: &Value) -> (k: ValueKind)
    ensures
        k == kind_of(val_view(*v)),
{
    match v {
        Value::Null => ValueKind::Null,
        Value::Bool(_) => ValueKind::Bool,
        Value::Int(_) => ValueKind::Int,
        Value::Str(_) => ValueKind::Str,
        Value::Arr(_) => ValueKind::Arr,
        Value::Obj(_) => ValueKind::Obj,
    }
}

/// The first field of a given name in an argument record.
pub fn lookup_field<'a>(fields: &'a Vec<(Vec<u8>, Value)>, name: &[u8]) -> (r: Option<&'a Value>)
    ensures
        match r {
            Some(v) => obj_lookup(crate::value::fields_view(*fields, 0), name@) == Option::Some(
                val_view(*v),
            ),
            None => obj_lookup(crate::value::fields_view(*fields, 0), name@) is None,
        },
{
    let mut k: usize = 0;
    proof {
        crate::value::lemma_fields_view(*fields, 0);
    }
    while k < fields.len()
        invariant
            k <= fields@.len(),
            obj_lookup(crate::value::fields_view(*fields, 0), name@) == obj_lookup(
                crate::value::fields_view(*fields, k as int),
                name@,
            ),
        decreases fields@.len() - k,
    {
        proof {
            crate::value::lemma_fields_view(*fields, k as int);
            crate::value::lemma_fields_view(*fields, k + 1);
            assert(crate::value::fields_view(*fields, k as int).drop_first() =~= crate::value::fields_view(
                *fields,
                k + 1,
            ));
        }
        if bytes_eq(fields[k].0.as_slice(), name) {
            return Some(&fields[k].1);
        }
        k = k + 1;
    }
    proof {
        crate::value::lemma_fields_view(*fields, k as int);
    }
    None
}

/// Checks an argument value against a schema: every required field
/// present with the required shape.
fn validate_args(required: &Vec<ParamField>, args: &Value) -> (ok: bool)
    ensures
        ok == args_valid(req_view(*required, 0), val_view(*args)),
{
    proof {
        lemma_req_view(*required, 0);
    }
    match args {
        Value::Obj(fields) => {
            let mut k: usize = 0;
            while k < required.len()
                invariant
                    k <= required@.len(),
                    args is Obj,
                    val_view(*args) == Val::Obj(crate::value::fields_view(*fields, 0)),
                    forall|m: int|
                        0 <= m < k ==> match obj_lookup(
                            crate::value::fields_view(*fields, 0),
                            (#[trigger] req_view(*required, 0)[m]).name,
                        ) {
                            Option::Some(v) => kind_of(v) == req_view(*required, 0)[m].kind,
                            Option::None => false,
                        },
                decreases required@.len() - k,
            {
                proof {
                    lemma_req_view(*required, 0);
                }
                let field = lookup_field(fields, required[k].name.as_slice());
                proof {
                    assert(req_view(*required, 0)[k as int] == (FieldVal {
                        name: required@[k as int].name@,
                        kind: required@[k as int].kind,
                    }));
                }
                match field {
                    Some(v) => {
                        let got = kind_of_exec(v);
                        if !(got == required[k].kind) {
                            proof {
                                assert(!args_valid(req_view(*required, 0), val_view(*args)));
                            }
                            return false;
                        }
                    },
                    None => {
                        proof {
                            assert(!args_valid(req_view(*required, 0), val_view(*args)));
                        }
                        return false;
                    },
                }
                k = k + 1;
            }
            proof {
                lemma_req_view(*required, 0);
            }
            true
        },
        _ => false,
    }
}

/// Runs the addition handler.
fn run_add(args: &Value) -> (r: ToolResult)
    ensures
        result_view(r) == add_result(val_view(*args)),
{
    match args {
        Value::Obj(fields) => {
            let mut aname: Vec<u8> = Vec::new();
            aname.push(0x61);
            let mut bname: Vec<u8> = Vec::new();
            bname.push(0x62);
            proof {
                assert(aname@ =~= key_a());
                assert(bname@ =~= key_b());
            }
            let fa = lookup_field(fields, aname.as_slice());
            let fb = lookup_field(fields, bname.as_slice());
            match (fa, fb) {
                (Some(va), Some(vb)) => {
                    match (va, vb) {
                        (Value::Int(x), Value::Int(y)) => {
                            let wide: i128 = (*x as i128) + (*y as i128);
                            make_text(int_text_wide(wide))
                        },
                        _ => make_error(text_invalid_args_vec()),
                    }
                },
                _ => make_error(text_invalid_args_vec()),
            }
        },
        _ => make_error(text_invalid_args_vec()),
    }
}

/// The registry of invocable tools, immutable once a server starts.
pub struct ToolRouter {
    entries: Vec<ToolEntry>,
}

impl ToolRouter {
    /// Registration order, with each tool's model.
    pub closed spec fn view(&self) -> Seq<ToolVal> {
        reg_view(self.entries, 0)
    }

    pub fn new() -> (r: ToolRouter)
        ensures
            r@ == Seq::<ToolVal>::empty(),
    {
        let r = ToolRouter { entries: Vec::new() };
        proof {
            assert(reg_view(r.entries, 0) =~= Seq::<ToolVal>::empty());
        }
        r
    }

    /// Adds a tool under a name not yet taken; a duplicate name is
    /// refused and leaves the registry unchanged.
    pub fn register(&mut self, descriptor: ToolDescriptor, handler: Handler) -> (ok: bool)
        ensures
            ok == (find_tool(old(self)@, descriptor.name@) is None),
            ok ==> final(self)@ == old(self)@.push(
                entry_view(ToolEntry { descriptor, handler }),
            ),
            !ok ==> final(self)@ == old(self)@,
    {
        let fresh = self.lookup(descriptor.name.as_slice());
        match fresh {
            Some(_) => false,
            None => {
                let ghost oldv = self.entries;
                self.entries.push(ToolEntry { descriptor, handler });
                proof {
                    lemma_reg_view(self.entries, 0);
                    lemma_reg_view(oldv, 0);
                    assert(reg_view(self.entries, 0) =~= reg_view(oldv, 0).push(
                        entry_view(self.entries@.last()),
                    ));
                }
                true
            },
        }
    }

    /// The index of the first tool of a given name.
    fn lookup(&self, name: &[u8]) -> (r: Option<usize>)
        ensures
            match r {
                Some(k) => k < self.entries@.len() && find_tool(self@, name@) == Option::Some(
                    entry_view(self.entries@[k as int]),
                ),
                None => find_tool(self@, name@) is None,
            },
    {
        let mut k: usize = 0;
        while k < self.entries.len()
            invariant
                k <= self.entries@.len(),
                find_tool(reg_view(self.entries, 0), name@) == find_tool(
                    reg_view(self.entries, k as int),
                    name@,
                ),
            decreases self.entries@.len() - k,
        {
            proof {
                lemma_reg_view(self.entries, k as int);
                lemma_reg_view(self.entries, k + 1);
                assert(reg_view(self.entries, k as int).drop_first() =~= reg_view(
                    self.entries,
                    k + 1,
                ));
            }
            if bytes_eq(self.entries[k].descriptor.name.as_slice(), name) {
                return Some(k);
            }
            k = k + 1;
        }
        None
    }

    /// The registered tools, in registration order.
    pub fn list_tools(&self) -> (r: Vec<ToolDescriptor>)
        ensures
            r@.len() == self@.len(),
            forall|k: int|
                0 <= k < r@.len() ==> (#[trigger] r@[k]).name@ == self@[k].name && r@[k].description@
                    == self@[k].description && req_view(r@[k].schema.required, 0)
                    == self@[k].required,
    {
        proof {
            lemma_reg_view(self.entries, 0);
        }
        let mut r: Vec<ToolDescriptor> = Vec::new();
        let mut k: usize = 0;
        while k < self.entries.len()
            invariant
                k <= self.entries@.len(),
                r@.len() == k,
                forall|m: int|
                    0 <= m < k ==> (#[trigger] r@[m]).name@ == reg_view(self.entries, 0)[m].name
                        && r@[m].description@ == reg_view(self.entries, 0)[m].description
                        && req_view(r@[m].schema.required, 0) == reg_view(self.entries, 0)[m].required,
                reg_view(self.entries, 0).len() == self.entries@.len(),
                forall|m: int|
                    0 <= m < self.entries@.len() ==> #[trigger] reg_view(self.entries, 0)[m]
                        == entry_view(self.entries@[m]),
            decreases self.entries@.len() - k,
        {
            let e = &self.entries[k];
            let mut required: Vec<ParamField> = Vec::new();
            let mut m: usize = 0;
            while m < e.descriptor.schema.required.len()
                invariant
                    m <= e.descriptor.schema.required@.len(),
                    required@.len() == m,
                    forall|p: int|
                        0 <= p < m ==> (#[trigger] required@[p]).name@
                            == e.descriptor.schema.required@[p].name@ && required@[p].kind
                            == e.descriptor.schema.required@[p].kind,
                decreases e.descriptor.schema.required@.len() - m,
            {
                let f = &e.descriptor.schema.required[m];
                required.push(ParamField { name: copy_bytes(&f.name), kind: f.kind });
                m = m + 1;
            }
            let d = ToolDescriptor {
                name: copy_bytes(&e.descriptor.name),
                description: copy_bytes(&e.descriptor.description),
                schema: ParamSchema { required },
            };
            proof {
                lemma_req_view(d.schema.required, 0);
                lemma_req_view(e.descriptor.schema.required, 0);
                assert(req_view(d.schema.required, 0) =~= req_view(
                    e.descriptor.schema.required,
                    0,
                ));
            }
            r.push(d);
            k = k + 1;
        }
        r
    }

    /// Dispatches one call: looks the tool up, validates the arguments
    /// against its schema, and runs its handler. An unknown name or a
    /// bad argument shape is an error-flagged result, never a failure
    /// that could tear the connection down.
    pub fn call_tool(&self, name: &[u8], args: &Value) -> (r: ToolResult)
        ensures
            result_view(r) == spec_call_tool(self@, name@, val_view(*args)),
            (find_tool(self@, name@) is None) ==> r.is_error,
    {
        let found = self.lookup(name);
        match found {
            None => make_error(text_unknown_tool_vec()),
            Some(k) => {
                let entry = &self.entries[k];
                let ok = validate_args(&entry.descriptor.schema.required, args);
                if !ok {
                    make_error(text_invalid_args_vec())
                } else {
                    match entry.handler {
                        Handler::Add => run_add(args),
                    }
                }
            },
        }
    }
}

} // verus!
