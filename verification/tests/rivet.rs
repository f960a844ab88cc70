//! The actor runtime: its addresses, events and actions.

use cuartel::json::{string, Json, JsonNumber};
use cuartel::rivet::checkpoints::{
    build_create_args, build_restore_args, CreateCheckpointOptions, RestoreCheckpointOptions,
};
use cuartel::rivet::client::{
    action_body, action_url, base_url, create_session_args, id_args, kv_url, kv_value,
    list_actors_query, send_prompt_args, status_error, vm_events_url, GetOrCreateRequest,
};
use cuartel::rivet::event_decode::{
    decode_bytes_envelope, extract_session_update_text, summarize_permission,
};
use cuartel::rivet::events::{
    connect_ws_url, default_channels, handshake, parse_frame, stream_step, subscription_message,
    subscription_messages, Handshake, ParsedFrame, RivetEvent, StreamStep, WsMessage,
    EVENT_PERMISSION_REQUEST, EVENT_SESSION_EVENT, EVENT_VM_BOOTED,
};
use cuartel::rivet::filesystem::{
    build_delete_args, build_mkdir_args, build_move_args, build_read_files_args,
    build_readdir_recursive_args, build_write_args, build_write_files_args, BatchWriteEntry,
    DeleteOptions, FileBytes, FileBytesError, MkdirOptions, ReaddirRecursiveOptions,
};
use cuartel::rivet::network::{
    build_add_port_forward_args, build_vm_fetch_args, PortForwardConfig, PortForwardDirection,
    VmFetchOptions,
};
use cuartel::rivet::sidecar::{install_error, start_step, StartStep};
use cuartel::rivet::workflow::{
    build_list_args, build_signal_args, build_start_args, StartWorkflowRequest, WorkflowSignal,
};
use serde_json::Value;

fn of_value(v: Value) -> Json {
    match v {
        Value::Null => Json::Null,
        Value::Bool(b) => Json::Bool(b),
        Value::Number(n) => Json::Number(match (n.as_u64(), n.as_i64()) {
            (Some(k), _) => JsonNumber::Unsigned(k),
            (_, Some(k)) => JsonNumber::Negative(k),
            _ => JsonNumber::Float(n.to_string()),
        }),
        Value::String(s) => Json::Str(s),
        Value::Array(a) => Json::Array(a.into_iter().map(of_value).collect()),
        Value::Object(o) => Json::Object(o.into_iter().map(|(k, v)| (k, of_value(v))).collect()),
    }
}

/// A value by its text.
fn j(text: &str) -> Json {
    of_value(serde_json::from_str(text).unwrap())
}

/// A value with the members of its objects in order of their keys.
fn sorted(v: &Json) -> Json {
    match v {
        Json::Array(a) => Json::Array(a.iter().map(sorted).collect()),
        Json::Object(o) => {
            let mut m: Vec<(String, Json)> =
                o.iter().map(|(k, v)| (k.clone(), sorted(v))).collect();
            m.sort_by(|a, b| a.0.cmp(&b.0));
            Json::Object(m)
        }
        other => other.clone(),
    }
}

fn same(args: Vec<Json>, text: &str) {
    assert_eq!(sorted(&Json::Array(args)), j(text));
}

#[test]
fn action_url_uses_gateway_prefix() {
    assert_eq!(
        action_url("http://127.0.0.1:6420", "actor-123", "createSession"),
        "http://127.0.0.1:6420/gateway/actor-123/action/createSession"
    );
}

#[test]
fn action_url_trims_trailing_slash() {
    assert_eq!(
        action_url("http://localhost:6420/", "abc", "sendPrompt"),
        "http://localhost:6420/gateway/abc/action/sendPrompt"
    );
}

#[test]
fn action_url_works_with_remote_tailscale_ip() {
    assert_eq!(
        action_url("http://100.67.106.62:6420", "actor-xyz", "createSession"),
        "http://100.67.106.62:6420/gateway/actor-xyz/action/createSession"
    );
}

#[test]
fn client_preserves_base_url() {
    assert_eq!(base_url("http://100.67.106.62:6420/"), "http://100.67.106.62:6420");
}

#[test]
fn action_body_wraps_args_array() {
    let body = action_body(vec![string("pi"), j(r#"{"cwd":"/workspace"}"#)]);
    assert_eq!(body, j(r#"{"args":["pi",{"cwd":"/workspace"}]}"#));
}

#[test]
fn action_body_empty_args_is_empty_array() {
    assert_eq!(action_body(vec![]), j(r#"{"args":[]}"#));
}

#[test]
fn requests_have_their_shapes() {
    assert_eq!(kv_url("http://h", "a", "k"), "http://h/actors/a/kv/keys/k");
    assert_eq!(kv_value(&j(r#"{"value":[1]}"#)), j("[1]"));
    assert_eq!(kv_value(&j("{}")), Json::Null);
    assert_eq!(vm_events_url("https://h", "v1"), "wss://h/vm/v1/events");
    assert_eq!(vm_events_url("http://h", "v1"), "ws://h/vm/v1/events");
    let q = list_actors_query("vm", Some("default"));
    assert!(q.contains(&("name".to_string(), "vm".to_string())));
    assert!(q.contains(&("key".to_string(), "default".to_string())));
    assert_eq!(list_actors_query("vm", None).len() + 1, q.len());
    assert_eq!(status_error("GET /x", "500", "no"), "GET /x returned 500: no");
    same(create_session_args("pi", &None), r#"["pi"]"#);
    same(create_session_args("pi", &Some(j(r#"{"cwd":"/w"}"#))), r#"["pi",{"cwd":"/w"}]"#);
    same(send_prompt_args("s", "p"), r#"["s","p"]"#);
    same(id_args("s"), r#"["s"]"#);
    assert_eq!(GetOrCreateRequest::default().crash_policy.is_empty(), false);
}

#[test]
fn connect_ws_url_maps_http_to_ws() {
    assert_eq!(
        connect_ws_url("http://127.0.0.1:6420", "actor-1"),
        "ws://127.0.0.1:6420/gateway/actor-1/connect"
    );
}

#[test]
fn connect_ws_url_maps_https_to_wss() {
    assert_eq!(
        connect_ws_url("https://rivet.example.com/", "abc"),
        "wss://rivet.example.com/gateway/abc/connect"
    );
}

#[test]
fn subscription_message_shape_matches_zod_schema() {
    let msg = subscription_message(EVENT_SESSION_EVENT, true);
    let v: Value = serde_json::from_str(&msg).unwrap();
    assert_eq!(v["body"]["tag"], "SubscriptionRequest");
    assert_eq!(v["body"]["val"]["eventName"], "sessionEvent");
    assert_eq!(v["body"]["val"]["subscribe"], true);
}

#[test]
fn parse_frame_init_returns_actor_and_connection_ids() {
    let raw = r#"{"body":{"tag":"Init","val":{"actorId":"actor-1","connectionId":"conn-9"}}}"#;
    match parse_frame(raw).unwrap() {
        ParsedFrame::Init { actor_id, connection_id } => {
            assert_eq!(actor_id, "actor-1");
            assert_eq!(connection_id, "conn-9");
        }
        other => panic!("expected Init, got {other:?}"),
    }
}

#[test]
fn parse_frame_session_event_dispatches_to_typed_variant() {
    let raw = r#"{
        "body": {
            "tag": "Event",
            "val": {
                "name": "sessionEvent",
                "args": {
                    "sessionId": "sess_1",
                    "event": {
                        "jsonrpc": "2.0",
                        "method": "session/update",
                        "params": { "delta": "hello" }
                    }
                }
            }
        }
    }"#;
    let ParsedFrame::Event(RivetEvent::SessionEvent(p)) = parse_frame(raw).unwrap() else {
        panic!("expected session event");
    };
    assert_eq!(p.session_id, "sess_1");
    assert_eq!(p.event.method, "session/update");
    assert_eq!(p.event.params, j(r#"{ "delta": "hello" }"#));
}

#[test]
fn parse_frame_vm_booted_is_unit_variant() {
    let raw = r#"{"body":{"tag":"Event","val":{"name":"vmBooted","args":{}}}}"#;
    let ParsedFrame::Event(RivetEvent::VmBooted) = parse_frame(raw).unwrap() else {
        panic!("expected VmBooted");
    };
}

#[test]
fn parse_frame_vm_shutdown_carries_reason() {
    let raw = r#"{"body":{"tag":"Event","val":{"name":"vmShutdown","args":{"reason":"sleep"}}}}"#;
    let ParsedFrame::Event(RivetEvent::VmShutdown(p)) = parse_frame(raw).unwrap() else {
        panic!("expected VmShutdown");
    };
    assert_eq!(p.reason, "sleep");
}

#[test]
fn parse_frame_process_exit_parses_numeric_fields() {
    let raw = r#"{"body":{"tag":"Event","val":{"name":"processExit","args":{"pid":1234,"exitCode":0}}}}"#;
    let ParsedFrame::Event(RivetEvent::ProcessExit(p)) = parse_frame(raw).unwrap() else {
        panic!("expected ProcessExit");
    };
    assert_eq!(p.pid, 1234);
    assert_eq!(p.exit_code, 0);
}

#[test]
fn parse_frame_unknown_event_name_falls_back_to_other() {
    let raw = r#"{"body":{"tag":"Event","val":{"name":"mystery","args":{"x":1}}}}"#;
    let ParsedFrame::Event(RivetEvent::Other { name, args }) = parse_frame(raw).unwrap() else {
        panic!("expected Other");
    };
    assert_eq!(name, "mystery");
    assert_eq!(args, j(r#"{ "x": 1 }"#));
}

#[test]
fn parse_frame_error_surfaces_as_error_variant() {
    let raw = r#"{"body":{"tag":"Error","val":{"group":"actor","code":"not_found","message":"nope","actionId":null}}}"#;
    let ParsedFrame::Event(RivetEvent::Error { group, code, message }) = parse_frame(raw).unwrap()
    else {
        panic!("expected Error");
    };
    assert_eq!(group, "actor");
    assert_eq!(code, "not_found");
    assert_eq!(message, "nope");
}

#[test]
fn parse_frame_action_response_is_ignored() {
    let raw = r#"{"body":{"tag":"ActionResponse","val":{"id":["$BigInt","1"],"output":null}}}"#;
    assert!(matches!(parse_frame(raw).unwrap(), ParsedFrame::Ignored));
}

#[test]
fn default_channels_cover_agent_os_events() {
    let channels = default_channels();
    assert!(channels.iter().any(|c| c == EVENT_SESSION_EVENT));
    assert!(channels.iter().any(|c| c == EVENT_PERMISSION_REQUEST));
    assert!(channels.iter().any(|c| c == EVENT_VM_BOOTED));
    assert_eq!(subscription_messages(&channels).len(), channels.len());
}

#[test]
fn frames_that_do_not_fit_are_refused() {
    assert!(parse_frame("nonsense").is_err());
    assert!(parse_frame("{}").is_err());
}

#[test]
fn streams_are_opened_and_read() {
    let init = r#"{"body":{"tag":"Init","val":{"actorId":"a","connectionId":"c"}}}"#;
    let booted = r#"{"body":{"tag":"Event","val":{"name":"vmBooted","args":{}}}}"#;
    let text = |s: &str| Some(Ok(WsMessage::Text(s.into())));
    assert_eq!(handshake(&text(init)), Handshake::Ready);
    assert_eq!(handshake(&Some(Ok(WsMessage::Ping))), Handshake::Wait);
    assert_eq!(handshake(&None), Handshake::Fail("ws closed before Init".into()));
    assert_eq!(stream_step(&text(booted)), StreamStep::Deliver(RivetEvent::VmBooted));
    assert_eq!(stream_step(&Some(Ok(WsMessage::Pong))), StreamStep::Skip);
    assert_eq!(stream_step(&Some(Ok(WsMessage::Close))), StreamStep::Stop);
    assert_eq!(stream_step(&None), StreamStep::Stop);
    assert_eq!(stream_step(&Some(Err("reset".into()))), StreamStep::Stop);
}

#[test]
fn decodes_uint8_array_envelope() {
    let v = j(r#"["$Uint8Array", "aGVsbG8="]"#);
    assert_eq!(decode_bytes_envelope(&v).unwrap(), b"hello");
}

#[test]
fn decodes_plain_string_as_bytes() {
    let v = j(r#""hi there""#);
    assert_eq!(decode_bytes_envelope(&v).unwrap(), b"hi there");
}

#[test]
fn decodes_object_with_data_base64() {
    let v = j(r#"{ "data": "aGVsbG8=" }"#);
    assert_eq!(decode_bytes_envelope(&v).unwrap(), b"hello");
}

#[test]
fn decodes_object_with_bytes_base64_alias() {
    let v = j(r#"{ "bytes": "aGVsbG8=" }"#);
    assert_eq!(decode_bytes_envelope(&v).unwrap(), b"hello");
}

#[test]
fn decodes_object_with_text_field() {
    let v = j(r#"{ "text": "hi" }"#);
    assert_eq!(decode_bytes_envelope(&v).unwrap(), b"hi");
}

#[test]
fn rejects_unknown_shape() {
    let v = j(r#"{ "foo": "bar" }"#);
    assert!(decode_bytes_envelope(&v).is_none());
}

#[test]
fn rejects_wrong_tag_in_two_element_array() {
    let v = j(r#"["$Other", "aGVsbG8="]"#);
    assert!(decode_bytes_envelope(&v).is_none());
}

#[test]
fn extracts_text_from_acp_agent_message_chunk() {
    let params = j(r#"{"update":{"content":{"type":"text","text":"hello world"}}}"#);
    assert_eq!(extract_session_update_text("session/update", &params), "hello world\n");
}

#[test]
fn extracts_text_from_content_block_array() {
    let params = j(
        r#"{"update":{"content":[{"type":"text","text":"part 1 "},{"type":"text","text":"part 2"}]}}"#,
    );
    assert_eq!(extract_session_update_text("session/update", &params), "part 1 part 2\n");
}

#[test]
fn extracts_direct_text_field_at_params_root() {
    let params = j(r#"{ "text": "direct" }"#);
    assert_eq!(extract_session_update_text("session/message", &params), "direct\n");
}

#[test]
fn extracts_tool_title_when_no_text_content() {
    let params = j(r#"{ "update": { "title": "Run tests" } }"#);
    assert_eq!(extract_session_update_text("session/update", &params), "[tool] Run tests\n");
}

#[test]
fn falls_back_to_bracketed_method_when_no_text() {
    let params = j(r#"{ "update": { "kind": "thinking" } }"#);
    assert_eq!(extract_session_update_text("session/update", &params), "[session/update]\n");
}

#[test]
fn summarizes_tool_call_shape() {
    let request = j(
        r#"{"id":"req-1","toolCall":{"title":"Run shell command","kind":"execute","toolCallId":"tc-1"}}"#,
    );
    let s = summarize_permission(&request);
    assert_eq!(s.id, "req-1");
    assert_eq!(s.tool_name, "Run shell command");
}

#[test]
fn summarizes_tool_input_shape() {
    let request = j(r#"{"requestId":"r2","tool":{"name":"bash","input":{"command":"ls"}}}"#);
    let s = summarize_permission(&request);
    assert_eq!(s.id, "r2");
    assert_eq!(s.tool_name, "bash");
    assert_eq!(s.input, j(r#"{ "command": "ls" }"#));
}

#[test]
fn summarizes_missing_id_as_empty_so_caller_synthesizes() {
    let request = j(r#"{ "toolCall": { "title": "x" } }"#);
    let s = summarize_permission(&request);
    assert_eq!(s.id, "");
    assert_eq!(s.tool_name, "x");
}

#[test]
fn summarizes_completely_unknown_payload_as_permission_fallback() {
    let request = j(r#"{ "foo": 1 }"#);
    let s = summarize_permission(&request);
    assert_eq!(s.tool_name, "permission");
    assert_eq!(s.input, j(r#"{ "foo": 1 }"#));
}

#[test]
fn file_bytes_serializes_as_uint8_array_tag() {
    let bytes = FileBytes::new(b"hello".to_vec());
    assert_eq!(bytes.to_json(), j(r#"["$Uint8Array", "aGVsbG8="]"#));
}

#[test]
fn file_bytes_round_trips_through_json() {
    let original = FileBytes::new(vec![0u8, 1, 2, 3, 0xff, 0xfe]);
    let encoded = original.to_json();
    let decoded = FileBytes::from_json(&encoded).unwrap();
    assert_eq!(decoded, original);
}

#[test]
fn file_bytes_deserializes_empty_payload() {
    let bytes = FileBytes::from_json(&j(r#"["$Uint8Array", ""]"#)).unwrap();
    assert!(bytes.0.is_empty());
}

#[test]
fn file_bytes_accepts_array_buffer_tag() {
    let bytes = FileBytes::from_json(&j(r#"["$ArrayBuffer", "aGVsbG8="]"#)).unwrap();
    assert_eq!(bytes.0, b"hello");
}

#[test]
fn file_bytes_rejects_unknown_tag() {
    let err = FileBytes::from_json(&j(r#"["$BigInt", "123"]"#)).unwrap_err();
    assert_eq!(err, FileBytesError::Tag("$BigInt".into()));
}

#[test]
fn file_bytes_rejects_invalid_base64() {
    assert!(FileBytes::from_json(&j(r#"["$Uint8Array", "not base64!!"]"#)).is_err());
    assert_eq!(
        FileBytes::from_json(&j(r#"["$ArrayBuffer", "a!=="]"#)).unwrap_err(),
        FileBytesError::Base64 {
            tag: "$ArrayBuffer".into(),
            reason: "Invalid symbol 33, offset 1.".into()
        }
    );
    assert_eq!(FileBytes::from_json(&j("[1,2]")).unwrap_err(), FileBytesError::Shape);
    assert_eq!(FileBytes::from_json(&j("[]")).unwrap_err(), FileBytesError::Shape);
    assert_eq!(FileBytes::from_json(&j(r#"["$Uint8Array"]"#)).unwrap_err(), FileBytesError::Shape);
    assert_eq!(
        FileBytes::from_json(&j(r#"["$Uint8Array", "aGk=", 1]"#)).unwrap_err(),
        FileBytesError::Shape
    );
    assert_eq!(
        FileBytes::from_json(&j(r#"["$BigInt", "1", "2"]"#)).unwrap_err(),
        FileBytesError::Tag("$BigInt".into())
    );
}

#[test]
fn batch_write_entry_serializes_with_nested_file_bytes() {
    let entry = BatchWriteEntry::new("/workspace/readme.md".into(), FileBytes::from_text("hi"));
    assert_eq!(
        sorted(&entry.to_json()),
        j(r#"{"path":"/workspace/readme.md","content":["$Uint8Array","aGk="]}"#)
    );
}

#[test]
fn readdir_recursive_args_omit_options_when_empty() {
    same(
        build_readdir_recursive_args("/workspace", &ReaddirRecursiveOptions::default()),
        r#"["/workspace"]"#,
    );
}

#[test]
fn readdir_recursive_args_treat_empty_exclude_as_empty() {
    let opts = ReaddirRecursiveOptions { max_depth: None, exclude: Some(vec![]) };
    let args = build_readdir_recursive_args("/workspace", &opts);
    assert_eq!(args.len(), 1);
}

#[test]
fn readdir_recursive_args_include_max_depth_and_exclude() {
    let opts = ReaddirRecursiveOptions {
        max_depth: Some(3),
        exclude: Some(vec!["node_modules".into(), "target".into()]),
    };
    same(
        build_readdir_recursive_args("/workspace", &opts),
        r#"["/workspace",{"maxDepth":3,"exclude":["node_modules","target"]}]"#,
    );
}

#[test]
fn mkdir_args_omit_options_when_empty() {
    same(build_mkdir_args("/workspace/new", &MkdirOptions::default()), r#"["/workspace/new"]"#);
}

#[test]
fn mkdir_args_include_recursive_flag() {
    same(
        build_mkdir_args("/workspace/a/b/c", &MkdirOptions::recursive()),
        r#"["/workspace/a/b/c",{"recursive":true}]"#,
    );
}

#[test]
fn delete_args_omit_options_when_empty() {
    same(build_delete_args("/workspace/tmp", &DeleteOptions::default()), r#"["/workspace/tmp"]"#);
}

#[test]
fn delete_args_include_recursive_flag() {
    same(
        build_delete_args("/workspace/tmp", &DeleteOptions::recursive()),
        r#"["/workspace/tmp",{"recursive":true}]"#,
    );
}

#[test]
fn filesystem_empty_options_are_empty() {
    assert!(ReaddirRecursiveOptions::default().is_empty());
    assert!(MkdirOptions::default().is_empty());
    assert!(DeleteOptions::default().is_empty());
}

#[test]
fn file_actions_have_their_arguments() {
    let hi = FileBytes::from_text("hi");
    assert_eq!(hi.as_slice(), b"hi");
    same(build_write_args("/f", &hi), r#"["/f",["$Uint8Array","aGk="]]"#);
    same(build_read_files_args(&vec!["/a".into(), "/b".into()]), r#"[["/a","/b"]]"#);
    same(build_move_args("/a", "/b"), r#"["/a","/b"]"#);
    same(
        build_write_files_args(&vec![BatchWriteEntry::new("/f".into(), hi)]),
        r#"[[{"path":"/f","content":["$Uint8Array","aGk="]}]]"#,
    );
}

#[test]
fn create_args_omit_options_when_empty() {
    same(build_create_args("sess_42", &CreateCheckpointOptions::default()), r#"["sess_42"]"#);
}

#[test]
fn create_args_include_label_only() {
    same(
        build_create_args("sess_42", &CreateCheckpointOptions::with_label("before fix".into())),
        r#"["sess_42",{"label":"before fix"}]"#,
    );
}

#[test]
fn create_args_include_metadata() {
    let opts = CreateCheckpointOptions {
        label: Some("turn 3".into()),
        metadata: Some(j(r#"{ "tokens": 1234 }"#)),
    };
    same(
        build_create_args("s", &opts),
        r#"["s",{"label":"turn 3","metadata":{"tokens":1234}}]"#,
    );
}

#[test]
fn restore_args_omit_options_when_empty() {
    same(build_restore_args("cp_1", &RestoreCheckpointOptions::default()), r#"["cp_1"]"#);
}

#[test]
fn restore_args_include_fork_flag() {
    same(
        build_restore_args("cp_1", &RestoreCheckpointOptions { fork: Some(true) }),
        r#"["cp_1",{"fork":true}]"#,
    );
}

#[test]
fn create_checkpoint_options_with_label_helper() {
    let opts = CreateCheckpointOptions::with_label("hello".into());
    assert_eq!(opts.label.as_deref(), Some("hello"));
    assert!(opts.metadata.is_none());
    assert!(!opts.is_empty());
}

#[test]
fn checkpoints_empty_options_are_empty() {
    assert!(CreateCheckpointOptions::default().is_empty());
    assert!(RestoreCheckpointOptions::default().is_empty());
}

#[test]
fn direction_serializes_as_snake_case() {
    assert_eq!(PortForwardDirection::SandboxToHost.wire(), "sandbox_to_host");
    assert_eq!(PortForwardDirection::HostToSandbox.wire(), "host_to_sandbox");
}

#[test]
fn direction_display() {
    assert_eq!(PortForwardDirection::SandboxToHost.to_string(), "sandbox \u{2192} host");
    assert_eq!(PortForwardDirection::HostToSandbox.to_string(), "host \u{2192} sandbox");
}

#[test]
fn port_forward_config_serializes_camel_case() {
    let config = PortForwardConfig {
        direction: PortForwardDirection::HostToSandbox,
        sandbox_port: 3000,
        host_port: 8080,
    };
    same(
        build_add_port_forward_args(&config),
        r#"[{"direction":"host_to_sandbox","sandboxPort":3000,"hostPort":8080}]"#,
    );
}

#[test]
fn vm_fetch_args_url_only() {
    same(
        build_vm_fetch_args("http://localhost:3000/api", &VmFetchOptions::default()),
        r#"["http://localhost:3000/api"]"#,
    );
}

#[test]
fn vm_fetch_args_with_method_and_headers() {
    let opts = VmFetchOptions {
        method: Some("POST".into()),
        headers: Some(vec![("Content-Type".into(), "application/json".into())]),
        body: Some(r#"{"key": "value"}"#.into()),
    };
    let args = build_vm_fetch_args("http://localhost:3000/api", &opts);
    assert_eq!(args.len(), 2);
    assert_eq!(args[0], string("http://localhost:3000/api"));
    assert_eq!(args[1].get_str("method"), Some("POST"));
    assert_eq!(
        args[1].get("headers").unwrap().get_str("Content-Type"),
        Some("application/json")
    );
}

#[test]
fn a_header_takes_the_place_of_one_of_its_name() {
    let mut opts = VmFetchOptions::default();
    opts.set_header("A", "1".into());
    opts.set_header("B", "2".into());
    opts.set_header("A", "3".into());
    assert_eq!(opts.headers, Some(vec![("A".into(), "3".into()), ("B".into(), "2".into())]));
    assert_eq!((opts.method, opts.body), (None, None));
}

#[test]
fn vm_fetch_options_omit_none_fields() {
    let opts = VmFetchOptions { method: Some("GET".into()), headers: None, body: None };
    let value = &build_vm_fetch_args("u", &opts)[1];
    assert!(value.get("headers").is_none());
    assert!(value.get("body").is_none());
    assert_eq!(value.get_str("method"), Some("GET"));
}

#[test]
fn workflow_actions_have_their_arguments() {
    let mut req = StartWorkflowRequest {
        workflow_name: "deploy".into(),
        input: j(r#"{ "branch": "main" }"#),
        tags: None,
    };
    same(build_start_args(&req), r#"["deploy",{"branch":"main"}]"#);
    req.tags = Some(j(r#"["x"]"#));
    same(build_start_args(&req), r#"["deploy",{"branch":"main"},["x"]]"#);
    let sig =
        WorkflowSignal { name: "approve".into(), payload: j(r#"{ "by": "alice" }"#) };
    same(build_signal_args("wf-1", &sig), r#"["wf-1","approve",{"by":"alice"}]"#);
    same(build_list_args(None), "[]");
    same(build_list_args(Some("deploy")), r#"[{"workflowName":"deploy"}]"#);
}

#[test]
fn the_runtime_is_tried_ten_times() {
    assert_eq!(start_step(0, &Ok(())), StartStep::Ready);
    assert_eq!(start_step(8, &Err("refused".into())), StartStep::Retry);
    assert_eq!(
        start_step(9, &Err("refused".into())),
        StartStep::Fail("rivet sidecar failed to start: refused".into())
    );
    assert_eq!(
        install_error(Some(1), "a\nb\nc\nd\n"),
        "npm install failed (exit Some(1)): b | c | d"
    );
    assert_eq!(install_error(None, "x"), "npm install failed (exit None): x");
}
