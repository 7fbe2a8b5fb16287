//! The unbounded rendering agrees with serde_json's pretty printer on the
//! same document.
use json_view::event::{Event, Line};
use json_view::ser::identity;
use serde_json::Value;

fn push_events(v: &Value, out: &mut Vec<Event>) {
    match v {
        Value::Array(items) => {
            out.push(Event::BeginArray);
            for item in items {
                push_events(item, out);
            }
            out.push(Event::EndArray);
        }
        Value::Object(members) => {
            out.push(Event::BeginObject);
            for (k, val) in members {
                let key_token = serde_json::to_string(k).unwrap();
                out.push(Event::Key(key_token));
                push_events(val, out);
            }
            out.push(Event::EndObject);
        }
        scalar => {
            out.push(Event::Scalar(serde_json::to_string(scalar).unwrap()));
        }
    }
}

fn text(lines: &[Line]) -> String {
    let rendered: Vec<String> = lines
        .iter()
        .map(|l| format!("{}{}", "  ".repeat(l.indent), l.text))
        .collect();
    rendered.join("\n")
}

fn check_roundtrip(source: &str) {
    let value: Value = serde_json::from_str(source).unwrap();
    let mut events = Vec::new();
    push_events(&value, &mut events);
    let lines = identity(&events).unwrap();
    let expected = serde_json::to_string_pretty(&value).unwrap();
    assert_eq!(text(&lines), expected);
}

#[test]
fn pretty_output_matches_serde_json_on_nested_document() {
    check_roundtrip("{\"a\":[1,2,3],\"b\":{\"c\":1}}");
}

#[test]
fn pretty_output_matches_serde_json_on_scalars_and_empties() {
    check_roundtrip("{\"s\":\"text\",\"n\":null,\"t\":true,\"f\":-1.5,\"e\":[],\"o\":{}}");
}

#[test]
fn pretty_output_matches_serde_json_on_deep_arrays() {
    check_roundtrip("[[[[1],[]],2],3,{\"k\":[{\"q\":[null]}]}]");
}

#[test]
fn pretty_output_matches_serde_json_on_root_scalar() {
    check_roundtrip("42");
}
