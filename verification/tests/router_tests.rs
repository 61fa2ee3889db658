use mcp_core::router::{
    ContentItem, Handler, ParamField, ParamSchema, ToolDescriptor, ToolRouter, ValueKind,
};
use mcp_core::value::Value;

fn add_descriptor() -> ToolDescriptor {
    ToolDescriptor {
        name: b"add".to_vec(),
        description: b"Adds a and b".to_vec(),
        schema: ParamSchema {
            required: vec![
                ParamField {
                    name: b"a".to_vec(),
                    kind: ValueKind::Int,
                },
                ParamField {
                    name: b"b".to_vec(),
                    kind: ValueKind::Int,
                },
            ],
        },
    }
}

fn add_router() -> ToolRouter {
    let mut r = ToolRouter::new();
    assert!(r.register(add_descriptor(), Handler::Add));
    r
}

fn args(a: i64, b: i64) -> Value {
    Value::Obj(vec![
        (b"a".to_vec(), Value::Int(a)),
        (b"b".to_vec(), Value::Int(b)),
    ])
}

#[test]
fn unknown_tool_is_error_flagged_result() {
    let r = add_router();
    let res = r.call_tool(b"subtract", &args(3, 2));
    assert!(res.is_error);
    assert_eq!(res.content, vec![ContentItem::Text(b"unknown tool".to_vec())]);
}

#[test]
fn add_three_and_two_is_five() {
    let r = add_router();
    let res = r.call_tool(b"add", &args(3, 2));
    assert!(!res.is_error);
    assert_eq!(res.content, vec![ContentItem::Text(b"5".to_vec())]);
}

#[test]
fn add_handles_negative_numbers() {
    let r = add_router();
    let res = r.call_tool(b"add", &args(-7, 3));
    assert!(!res.is_error);
    assert_eq!(res.content, vec![ContentItem::Text(b"-4".to_vec())]);
}

#[test]
fn missing_field_is_error_flagged() {
    let r = add_router();
    let res = r.call_tool(
        b"add",
        &Value::Obj(vec![(b"a".to_vec(), Value::Int(3))]),
    );
    assert!(res.is_error);
    assert_eq!(
        res.content,
        vec![ContentItem::Text(b"invalid arguments".to_vec())]
    );
}

#[test]
fn wrong_field_shape_is_error_flagged() {
    let r = add_router();
    let res = r.call_tool(
        b"add",
        &Value::Obj(vec![
            (b"a".to_vec(), Value::Str(b"3".to_vec())),
            (b"b".to_vec(), Value::Int(2)),
        ]),
    );
    assert!(res.is_error);
}

#[test]
fn sums_beyond_the_wire_range_are_exact() {
    let r = add_router();
    let res = r.call_tool(b"add", &args(i64::MAX, 1));
    assert!(!res.is_error);
    assert_eq!(
        res.content,
        vec![ContentItem::Text(b"9223372036854775808".to_vec())]
    );
    let res = r.call_tool(b"add", &args(i64::MIN, i64::MIN));
    assert!(!res.is_error);
    assert_eq!(
        res.content,
        vec![ContentItem::Text(b"-18446744073709551616".to_vec())]
    );
}

#[test]
fn duplicate_registration_is_refused() {
    let mut r = add_router();
    assert!(!r.register(add_descriptor(), Handler::Add));
}

#[test]
fn list_tools_keeps_registration_order() {
    let mut r = ToolRouter::new();
    assert!(r.register(add_descriptor(), Handler::Add));
    let mut second = add_descriptor();
    second.name = b"add2".to_vec();
    assert!(r.register(second, Handler::Add));
    let tools = r.list_tools();
    assert_eq!(tools.len(), 2);
    assert_eq!(tools[0].name, b"add".to_vec());
    assert_eq!(tools[1].name, b"add2".to_vec());
    assert_eq!(tools[0].description, b"Adds a and b".to_vec());
}
