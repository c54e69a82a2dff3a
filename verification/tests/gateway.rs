use formwork::blueprint::{Gate, McpPolicy, Visibility};
use formwork::gateway::{error_frame, filter_list, push_json_string, Action, Frame, FrameReader, Gateway, ListKind, Outgoing, ReadStep};
use formwork::names::NameMap;
use serde_json::Value;

fn policy_with_tools(names: &[&str]) -> McpPolicy {
    McpPolicy { tools: Visibility::Allow(names.iter().map(|s| s.to_string()).collect()), ..Default::default() }
}

/// Every frame of `input` fed as one chunk, then the trailing partial; an oversize frame is
/// an error.
fn frames(input: &[u8], max: usize) -> Result<Vec<Vec<u8>>, ()> {
    let mut reader = FrameReader::new(max);
    let mut out = Vec::new();
    let mut rest = input;
    while !rest.is_empty() {
        let (n, step) = reader.feed(rest);
        rest = &rest[n..];
        match step {
            ReadStep::Frame(f) => out.push(f),
            ReadStep::More => {}
            ReadStep::Oversize => return Err(()),
        }
    }
    if let Some(f) = reader.finish() {
        out.push(f);
    }
    Ok(out)
}

#[test]
fn read_frame_splits_on_newlines_and_returns_trailing_partial() {
    assert_eq!(frames(b"hi\nthere\n", 1024).unwrap(), vec![b"hi".to_vec(), b"there".to_vec()]);
    assert_eq!(frames(b"a\nb", 1024).unwrap(), vec![b"a".to_vec(), b"b".to_vec()]);
    assert!(frames(b"", 1024).unwrap().is_empty());
}

#[test]
fn read_frame_fails_closed_on_oversize() {
    assert!(frames(b"aaaaaaaaaaaa", 8).is_err());
}

#[test]
fn frame_reader_joins_a_frame_split_across_chunks() {
    let mut reader = FrameReader::new(64);
    let (n, step) = reader.feed(b"{\"id\":");
    assert_eq!(n, 6);
    assert!(matches!(step, ReadStep::More));
    let (n, step) = reader.feed(b"1}\nnext");
    assert_eq!(n, 3);
    assert!(matches!(step, ReadStep::Frame(f) if f == b"{\"id\":1}".to_vec()));
    assert_eq!(reader.finish(), None);
}

#[test]
fn filter_list_hides_ungranted_and_keeps_granted() {
    let policy = policy_with_tools(&["keep"]);
    let resp = r#"{"jsonrpc":"2.0","id":1,"result":{"tools":[{"name":"keep"},{"name":"drop"},{"no_id":true}]}}"#;
    let out = filter_list(resp.as_bytes(), ListKind::Tools, &policy).unwrap();
    let parsed: Value = serde_json::from_str(&out).unwrap();
    let kept: Vec<&str> =
        parsed["result"]["tools"].as_array().unwrap().iter().map(|t| t["name"].as_str().unwrap_or("")).collect();
    assert_eq!(kept, vec!["keep"]);
}

#[test]
fn filter_list_leaves_other_shapes_alone() {
    let policy = policy_with_tools(&["keep"]);
    assert_eq!(filter_list(br#"{"id":1,"result":{}}"#, ListKind::Tools, &policy), None);
    assert_eq!(filter_list(b"not json", ListKind::Tools, &policy), None);
    let templates = r#"{"id":2,"result":{"resourceTemplates":[{"uriTemplate":"file:///{p}"},{"uriTemplate":"db://{t}"}]}}"#;
    let policy = McpPolicy { resources: Visibility::Allow(vec!["db://{t}".to_string()]), ..Default::default() };
    let out = filter_list(templates.as_bytes(), ListKind::ResourceTemplates, &policy).unwrap();
    let parsed: Value = serde_json::from_str(&out).unwrap();
    assert_eq!(parsed["result"]["resourceTemplates"].as_array().unwrap().len(), 1);
    assert_eq!(parsed["result"]["resourceTemplates"][0]["uriTemplate"], "db://{t}");
    assert_eq!(parsed["id"], 2);
}

#[test]
fn frame_parse_classifies_by_method_and_id() {
    let call = Frame::parse(br#"{"id":1,"method":"tools/call","params":{"name":"x"}}"#.to_vec());
    assert!(matches!(call, Frame::ToolCall { target, .. } if target == "x"));

    let list = Frame::parse(br#"{"id":2,"method":"resources/templates/list"}"#.to_vec());
    assert!(matches!(list, Frame::ListRequest { kind: ListKind::ResourceTemplates, .. }));

    let resp = Frame::parse(br#"{"id":3,"result":{}}"#.to_vec());
    assert!(matches!(resp, Frame::Response { .. }));

    assert!(matches!(Frame::parse(br#"{"method":"notifications/x"}"#.to_vec()), Frame::Passthrough(_)));
    assert!(matches!(Frame::parse(b"not json".to_vec()), Frame::Passthrough(_)));
}

#[test]
fn frame_ids_keep_their_json_text_and_raw_bytes_survive() {
    let raw = br#"{"id":"a-1","method":"prompts/get","params":{"name":"p"}}"#.to_vec();
    match Frame::parse(raw.clone()) {
        Frame::PromptGet { id, target, raw: kept } => {
            assert_eq!(id, "\"a-1\"");
            assert_eq!(target, "p");
            assert_eq!(kept, raw);
        }
        other => panic!("unexpected {other:?}"),
    }
    assert!(matches!(Frame::parse(br#"{"id":null,"method":"tools/call"}"#.to_vec()), Frame::Passthrough(_)));
    assert_eq!(Frame::parse(raw.clone()).into_raw(), raw);
}

#[test]
fn error_frames_escape_the_message() {
    assert_eq!(
        error_frame("7", -32602, "Unknown tool: a\"b"),
        r#"{"error":{"code":-32602,"message":"Unknown tool: a\"b"},"id":7,"jsonrpc":"2.0"}"#
    );
    let mut s = String::new();
    push_json_string(&mut s, "tab\there\n\u{1}");
    assert_eq!(s, "\"tab\\there\\n\\u0001\"");
    let v: Value = serde_json::from_str(&s).unwrap();
    assert_eq!(v, "tab\there\n\u{1}");
}

fn text(a: Action) -> (bool, String) {
    match a {
        Action::ToAgent(Outgoing::Text(t)) => (true, t),
        Action::ToBackend(Outgoing::Text(t)) => (false, t),
        Action::ToAgent(Outgoing::Raw(b)) => (true, String::from_utf8(b).unwrap()),
        Action::ToBackend(Outgoing::Raw(b)) => (false, String::from_utf8(b).unwrap()),
    }
}

#[test]
fn ungranted_calls_are_refused_without_an_oracle() {
    let gw = Gateway::new(policy_with_tools(&["read_file"]));
    let mut pending = NameMap::new();
    let granted = br#"{"jsonrpc":"2.0","id":1,"method":"tools/call","params":{"name":"read_file"}}"#;
    assert_eq!(text(gw.on_agent_frame(&mut pending, granted.to_vec())), (false, String::from_utf8(granted.to_vec()).unwrap()));
    let hidden = br#"{"jsonrpc":"2.0","id":2,"method":"tools/call","params":{"name":"delete_all"}}"#;
    let missing = br#"{"jsonrpc":"2.0","id":2,"method":"tools/call","params":{"name":"no_such"}}"#;
    let (to_agent, a) = text(gw.on_agent_frame(&mut pending, hidden.to_vec()));
    assert!(to_agent);
    assert_eq!(a, r#"{"error":{"code":-32602,"message":"Unknown tool: delete_all"},"id":2,"jsonrpc":"2.0"}"#);
    let (_, b) = text(gw.on_agent_frame(&mut pending, missing.to_vec()));
    assert_eq!(a.replace("delete_all", "no_such"), b);
    assert_eq!(pending.len(), 0);
}

#[test]
fn list_responses_are_filtered_by_the_pending_request() {
    let gw = Gateway::new(policy_with_tools(&["keep"]));
    let mut pending = NameMap::new();
    let req = br#"{"jsonrpc":"2.0","id":5,"method":"tools/list"}"#;
    assert!(matches!(gw.on_agent_frame(&mut pending, req.to_vec()), Action::ToBackend(Outgoing::Raw(_))));
    assert_eq!(pending.get("5"), Some(&ListKind::Tools));
    let resp = br#"{"jsonrpc":"2.0","id":5,"result":{"tools":[{"name":"drop"},{"name":"keep"}]}}"#;
    let (to_agent, t) = text(gw.on_backend_frame(&mut pending, resp.to_vec()));
    assert!(to_agent);
    let v: Value = serde_json::from_str(&t).unwrap();
    assert_eq!(v["result"]["tools"].as_array().unwrap().len(), 1);
    assert_eq!(v["result"]["tools"][0]["name"], "keep");
    assert_eq!(pending.len(), 0);
    // A response nobody asked a list for forwards unchanged.
    let (_, raw) = text(gw.on_backend_frame(&mut pending, resp.to_vec()));
    assert_eq!(raw.as_bytes(), resp);
}

#[test]
fn sampling_is_answered_back_unless_allowed() {
    let req = br#"{"jsonrpc":"2.0","id":9,"method":"sampling/createMessage","params":{}}"#;
    let deny = Gateway::new(McpPolicy::default());
    let mut pending = NameMap::new();
    let (to_agent, t) = text(deny.on_backend_frame(&mut pending, req.to_vec()));
    assert!(!to_agent);
    assert_eq!(t, r#"{"error":{"code":-32601,"message":"sampling/createMessage not supported by client"},"id":9,"jsonrpc":"2.0"}"#);
    let allow = Gateway::new(McpPolicy { sampling: Gate::Allow, ..Default::default() });
    let (to_agent, t) = text(allow.on_backend_frame(&mut pending, req.to_vec()));
    assert!(to_agent);
    assert_eq!(t.as_bytes(), req);
}

#[test]
fn error_frames_carry_any_code() {
    let frame = error_frame("1", i64::MIN, "m");
    let v: Value = serde_json::from_str(&frame).unwrap();
    assert_eq!(v["error"]["code"].as_i64(), Some(i64::MIN));
    assert_eq!(frame, "{\"error\":{\"code\":-9223372036854775808,\"message\":\"m\"},\"id\":1,\"jsonrpc\":\"2.0\"}");
}
