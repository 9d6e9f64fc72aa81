use serde_json::Value;
use strata::message::{message_text, to_json, Msg};

fn json(s: &str) -> Value {
    serde_json::from_str(s).unwrap()
}

#[test]
fn content_is_read_whatever_its_shape() {
    assert_eq!(message_text(&json(r#""hi""#)), "hi");
    assert_eq!(message_text(&json("null")), "");
    assert_eq!(message_text(&json("7")), "");
    assert_eq!(
        message_text(&json(r#"[{"type":"text","text":"a"},{"type":"image"},{"text":"b"},{"text":3}]"#)),
        "ab"
    );
}

#[test]
fn a_message_keeps_what_it_does_not_read() {
    let mut m = Msg::new("tool", "42");
    m.extra.insert("tool_call_id".to_string(), json(r#""x""#));
    assert_eq!(m.to_json(), json(r#"{"role":"tool","content":"42","tool_call_id":"x"}"#));
    assert_eq!(to_json(&[m.clone()]), json(r#"[{"role":"tool","content":"42","tool_call_id":"x"}]"#));
    assert_eq!(m.text(), "42");
    let d = Msg::default();
    assert_eq!((d.role.as_str(), d.content.as_str(), d.extra.len()), ("", "", 0));
}

#[test]
fn a_tool_call_stands_in_for_its_turn() {
    let mut m = Msg::new("assistant", "");
    m.extra.insert("tool_calls".to_string(), json(r#"[ {"id" : 1} ]"#));
    assert_eq!(m.text(), r#"[{"id":1}]"#);
    m.content = "calling".to_string();
    assert_eq!(m.text(), "calling\n[{\"id\":1}]");
}
