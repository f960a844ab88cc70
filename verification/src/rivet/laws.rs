//! What holds of the messages to and from the actor runtime.

use vstd::prelude::*;
use vstd::utf8::encode_utf8;
use crate::json;
use crate::json::{JsonView, NumberView};
use crate::review;
use crate::rivet::base64;
use crate::rivet::checkpoints;
use crate::rivet::checkpoints::CreateCheckpointOptions;
use crate::rivet::event_decode as decode;
use crate::rivet::events;
use crate::rivet::events::{EventView, FrameView, Handshake, StreamStep, WsMessage};
use crate::rivet::filesystem;
use crate::rivet::network;
use crate::rivet::network::{PortForwardConfig, PortForwardDirection, VmFetchOptions};
use crate::rivet::sidecar;

verus! {

/// The member of an object under a key is its first of that key; nothing else has
/// members.
pub proof fn law_members(o: Seq<(Seq<char>, JsonView)>, key: Seq<char>, i: int)
    requires
        0 <= i <= o.len(),
        forall|j: int| 0 <= j < i ==> (#[trigger] o[j]).0 != key,
        i < o.len() ==> o[i].0 == key,
    ensures
        json::member(JsonView::Object(o), key) == if i < o.len() {
            Some(o[i].1)
        } else {
            None
        },
        json::member(JsonView::Null, key) is None,
        json::member(JsonView::Str(key), key) is None,
{
    json::lemma_member_index(o, key, i);
}

/// A field of a record is the member of its name, or the value at its place where
/// the record is written as an array.
pub proof fn law_fields(
    o: Seq<(Seq<char>, JsonView)>,
    a: Seq<JsonView>,
    name: Seq<char>,
    place: int,
)
    ensures
        events::field(JsonView::Object(o), name, place) == json::member(JsonView::Object(o), name),
        0 <= place < a.len() ==> events::field(JsonView::Array(a), name, place) == Some(a[place]),
        place >= a.len() ==> events::field(JsonView::Array(a), name, place) is None,
        events::is_record(JsonView::Object(o), 0),
        place >= 0 ==> (events::is_record(JsonView::Array(a), place as nat) <==> a.len() <= place),
        !events::is_record(JsonView::Null, 5),
        !events::is_record(JsonView::Str(name), 5),
{
}

proof fn lemma_channels()
    ensures
        events::EVENT_SESSION_EVENT@.len() == 12,
        events::EVENT_PERMISSION_REQUEST@.len() == 17,
        events::EVENT_VM_BOOTED@.len() == 8,
        events::EVENT_VM_SHUTDOWN@.len() == 10,
        events::EVENT_PROCESS_OUTPUT@.len() == 13,
        events::EVENT_PROCESS_EXIT@.len() == 11,
        events::EVENT_SHELL_DATA@.len() == 9,
        events::EVENT_CRON_EVENT@.len() == 9,
        events::EVENT_SHELL_DATA@[0] == 's',
        events::EVENT_CRON_EVENT@[0] == 'c',
{
    reveal_strlit("sessionEvent");
    reveal_strlit("permissionRequest");
    reveal_strlit("vmBooted");
    reveal_strlit("vmShutdown");
    reveal_strlit("processOutput");
    reveal_strlit("processExit");
    reveal_strlit("shellData");
    reveal_strlit("cronEvent");
}

/// A notification of an agent is delivered with its session and its method; its
/// parameters are null where it has none.
pub proof fn law_session_events(
    args: JsonView,
    session: Seq<char>,
    event: JsonView,
    method: Seq<char>,
)
    requires
        args is Object,
        event is Object,
        json::member(args, "sessionId"@) == Some(JsonView::Str(session)),
        json::member(args, "event"@) == Some(event),
        json::member(event, "method"@) == Some(JsonView::Str(method)),
        json::member(event, "jsonrpc"@) is None,
    ensures
        events::broadcast("sessionEvent"@, args) matches EventView::SessionEvent {
            session_id,
            event: e,
        } && session_id == session && e.method == method && e.params == (match json::member(
            event,
            "params"@,
        ) {
            Some(p) => p,
            None => JsonView::Null,
        }),
{
    lemma_channels();
}

/// What the other channels carry: requests with their session, the reason of a
/// shutdown, the process and the code of an exit, and payloads as they are. What
/// does not fit its channel, or has none, is handed on with its name.
pub proof fn law_other_events(
    name: Seq<char>,
    args: JsonView,
    session: Seq<char>,
    request: JsonView,
    reason: Seq<char>,
    pid: u64,
    code: i64,
)
    requires
        args is Object,
        i32::MIN <= code < 0,
    ensures
        json::member(args, "sessionId"@) == Some(JsonView::Str(session)) && json::member(
            args,
            "request"@,
        ) == Some(request) ==> events::broadcast("permissionRequest"@, args) == (
        EventView::PermissionRequest { session_id: session, request }),
        json::member(args, "sessionId"@) is None ==> events::broadcast("permissionRequest"@, args)
            == (EventView::Other { name: "permissionRequest"@, args }),
        json::member(args, "sessionId"@) is None ==> events::broadcast("sessionEvent"@, args) == (
        EventView::Other { name: "sessionEvent"@, args }),
        events::broadcast("vmBooted"@, args) == EventView::VmBooted,
        json::member(args, "reason"@) == Some(JsonView::Str(reason)) ==> events::broadcast(
            "vmShutdown"@,
            args,
        ) == (EventView::VmShutdown { reason }),
        json::member(args, "reason"@) is None ==> events::broadcast("vmShutdown"@, args) == (
        EventView::Other { name: "vmShutdown"@, args }),
        events::broadcast("processOutput"@, args) == EventView::ProcessOutput(args),
        events::broadcast("shellData"@, args) == EventView::ShellData(args),
        events::broadcast("cronEvent"@, args) == EventView::CronEvent(args),
        json::member(args, "pid"@) == Some(JsonView::Number(NumberView::Unsigned(pid)))
            && json::member(args, "exitCode"@) == Some(
            JsonView::Number(NumberView::Negative(code)),
        ) ==> events::broadcast("processExit"@, args) == (EventView::ProcessExit {
            pid,
            exit_code: code as i32,
        }),
        json::member(args, "pid"@) == Some(JsonView::Number(NumberView::Unsigned(pid)))
            && json::member(args, "exitCode"@) == Some(
            JsonView::Number(NumberView::Unsigned(0)),
        ) ==> events::broadcast("processExit"@, args) == (EventView::ProcessExit {
            pid,
            exit_code: 0,
        }),
        name.len() > 17 ==> events::broadcast(name, args) == (EventView::Other { name, args }),
{
    lemma_channels();
}

/// A frame is told by its tag: the start of a connection with the ids that it
/// names, a broadcast with its name and payload, or an error; answers to actions
/// are ignored, and any other tag is refused.
pub proof fn law_frames(v: JsonView, source: Seq<char>, body: JsonView, val: JsonView, name: Seq<char>)
    requires
        json::member(v, "body"@) == Some(body),
        json::member(body, "val"@) == Some(val),
    ensures
        json::member(body, "tag"@) == Some(JsonView::Str("Init"@)) ==> events::frame(v, source)
            == Ok::<FrameView, Seq<char>>(
            FrameView::Init {
                actor_id: events::text_or_empty(val, "actorId"@),
                connection_id: events::text_or_empty(val, "connectionId"@),
            },
        ),
        json::member(body, "tag"@) == Some(JsonView::Str("Event"@)) && json::member(val, "name"@)
            == Some(JsonView::Str(name)) ==> events::frame(v, source) == Ok::<FrameView, Seq<char>>(
            FrameView::Event(
                events::broadcast(
                    name,
                    match json::member(val, "args"@) {
                        Some(args) => args,
                        None => JsonView::Null,
                    },
                ),
            ),
        ),
        json::member(body, "tag"@) == Some(JsonView::Str("Event"@)) && json::member(
            val,
            "name"@,
        ) is None ==> events::frame(v, source) is Err,
        json::member(body, "tag"@) == Some(JsonView::Str("ActionResponse"@)) ==> events::frame(
            v,
            source,
        ) == Ok::<FrameView, Seq<char>>(FrameView::Ignored),
        json::member(body, "tag"@) == Some(JsonView::Str("Error"@)) ==> events::frame(v, source)
            == Ok::<FrameView, Seq<char>>(
            FrameView::Event(
                EventView::Error {
                    group: events::text_or_empty(val, "group"@),
                    code: events::text_or_empty(val, "code"@),
                    message: events::text_or_empty(val, "message"@),
                },
            ),
        ),
        name.len() > 14 && json::member(body, "tag"@) == Some(JsonView::Str(name))
            ==> events::frame(v, source) is Err,
{
    reveal_strlit("Init");
    reveal_strlit("Event");
    reveal_strlit("Error");
    reveal_strlit("ActionResponse");
    assert("Init"@.len() == 4 && "Event"@.len() == 5 && "Error"@.len() == 5
        && "ActionResponse"@.len() == 14);
    assert("Event"@[1] == 'v');
    assert("Error"@[1] == 'r');
}

/// A frame without a body, a tag or a value is refused.
pub proof fn law_broken_frames(v: JsonView, source: Seq<char>)
    ensures
        json::member(v, "body"@) is None ==> events::frame(v, source) is Err,
        json::member(v, "body"@) is Some && json::member(
            json::member(v, "body"@)->0,
            "tag"@,
        ) is None ==> events::frame(v, source) is Err,
        json::member(v, "body"@) is Some && json::member(
            json::member(v, "body"@)->0,
            "val"@,
        ) is None ==> events::frame(v, source) is Err,
{
}

/// The stream of events is reached where the runtime is, by web sockets: `ws`
/// stands for `http`, `wss` for `https`, and any other address stays.
pub proof fn law_stream_address(rest: Seq<char>)
    ensures
        events::ws_base("http://"@ + rest) == "ws://"@ + rest,
        events::ws_base("https://"@ + rest) == "wss://"@ + rest,
        events::ws_base("ws://"@ + rest) == "ws://"@ + rest,
{
    reveal_strlit("http://");
    reveal_strlit("https://");
    reveal_strlit("ws://");
    assert(("http://"@ + rest).take(7) =~= "http://"@);
    assert(("http://"@ + rest).skip(7) =~= rest);
    assert(("https://"@ + rest).take(8) =~= "https://"@);
    assert(("https://"@ + rest).skip(8) =~= rest);
    assert(("https://"@ + rest)[4] == 's');
    if ("https://"@ + rest).len() >= 7 {
        assert(("https://"@ + rest).take(7)[4] == 's');
    }
    let s = "ws://"@ + rest;
    if s.len() >= 7 {
        assert(s.take(7)[0] == 'w');
        assert("http://"@[0] == 'h');
    }
    if s.len() >= 8 {
        assert(s.take(8)[0] == 'w');
        assert("https://"@[0] == 'h');
    }
}

/// Before the actor is ready only its first frame makes it so: other frames are
/// waited over, and what ends the stream, or cannot be read, fails.
pub proof fn law_handshake(msg: Option<Result<WsMessage, String>>, r: Handshake)
    requires
        events::shakes(msg, r),
    ensures
        msg is None ==> r is Fail,
        msg matches Some(Err(_)) ==> r is Fail,
        msg matches Some(Ok(WsMessage::Close)) ==> r is Fail,
        msg matches Some(Ok(WsMessage::Binary)) ==> r is Fail,
        msg matches Some(Ok(WsMessage::Text(t))) ==> {
            &&& (r is Ready <==> (events::text_frame(t@) matches Ok(FrameView::Init { .. })))
            &&& (r is Fail <==> events::text_frame(t@) is Err)
        },
{
}

/// An open stream ends with the connection; of its messages, events are
/// delivered and all else is passed over.
pub proof fn law_stream(msg: Option<Result<WsMessage, String>>, r: StreamStep)
    requires
        events::streams(msg, r),
    ensures
        r is Stop <==> (msg is None || (msg matches Some(Err(_))) || (msg matches Some(
            Ok(WsMessage::Close),
        ))),
        r is Deliver <==> (msg matches Some(Ok(WsMessage::Text(t))) && (events::text_frame(
            t@,
        ) matches Ok(FrameView::Event(_)))),
        msg matches Some(Ok(WsMessage::Text(t))) ==> (events::text_frame(t@) matches Ok(
            FrameView::Event(e),
        ) ==> r->Deliver_0@ == e),
{
}

/// The bytes of a value: those of a text; those that a pair names in Base64; those
/// that an object names in Base64 under `data`, or under `bytes`, or else its
/// `text`.
pub proof fn law_bytes_of_a_value(s: Seq<char>, b64: Seq<char>, v: JsonView)
    ensures
        decode::envelope_bytes(JsonView::Str(s)) == Some(encode_utf8(s)),
        decode::envelope_bytes(
            JsonView::Array(seq![JsonView::Str("$Uint8Array"@), JsonView::Str(b64)]),
        ) == base64::decoded_bytes(b64),
        v is Object && json::member(v, "data"@) == Some(JsonView::Str(b64))
            && base64::decoded_bytes(b64) is Some ==> decode::envelope_bytes(v)
            == base64::decoded_bytes(b64),
        v is Object && json::member(v, "data"@) is None && json::member(v, "bytes"@) == Some(
            JsonView::Str(b64),
        ) && base64::decoded_bytes(b64) is Some ==> decode::envelope_bytes(v)
            == base64::decoded_bytes(b64),
        v is Object && json::member(v, "data"@) is None && json::member(v, "bytes"@) is None
            && json::member(v, "text"@) == Some(JsonView::Str(s)) ==> decode::envelope_bytes(v)
            == Some(encode_utf8(s)),
        decode::envelope_bytes(JsonView::Null) is None,
{
    let pair = seq![JsonView::Str("$Uint8Array"@), JsonView::Str(b64)];
    assert(pair[0] == JsonView::Str("$Uint8Array"@) && pair[1] == JsonView::Str(b64));
}

/// The texts of blocks stand one behind the other; a block without a text adds
/// none.
pub proof fn law_texts_of_blocks(a: Seq<JsonView>, block: JsonView, t: Seq<char>)
    ensures
        json::member(block, "text"@) == Some(JsonView::Str(t)) ==> decode::block_texts(
            a.push(block),
        ) == decode::block_texts(a) + t,
        json::member(block, "text"@) is None ==> decode::block_texts(a.push(block))
            == decode::block_texts(a),
        decode::block_texts(Seq::empty()) == Seq::<char>::empty(),
{
    assert(a.push(block).drop_last() =~= a);
}

/// The text of a notification: its own; else that of the content of its update,
/// whole or in blocks; else the title of the tool; else its method.
pub proof fn law_text_of_a_notification(
    method: Seq<char>,
    params: JsonView,
    update: JsonView,
    content: JsonView,
    t: Seq<char>,
)
    ensures
        json::member(params, "text"@) == Some(JsonView::Str(t)) ==> decode::update_text(
            method,
            params,
        ) == t + "\n"@,
        json::member(params, "text"@) is None && json::member(params, "update"@) == Some(update)
            && json::member(update, "content"@) == Some(content) && json::member(content, "text"@)
            == Some(JsonView::Str(t)) ==> decode::update_text(method, params) == t + "\n"@,
        json::member(params, "text"@) is None && json::member(params, "update"@) is None
            && json::member(params, "content"@) == Some(content) && json::member(
            content,
            "text"@,
        ) == Some(JsonView::Str(t)) ==> decode::update_text(method, params) == t + "\n"@,
        json::member(params, "text"@) is None && json::member(params, "update"@) == Some(update)
            && json::member(update, "content"@) is None && json::member(update, "title"@) == Some(
            JsonView::Str(t),
        ) ==> decode::update_text(method, params) == "[tool] "@ + t + "\n"@,
        json::member(params, "text"@) is None && json::member(params, "update"@) == Some(update)
            && json::member(update, "content"@) is None && json::member(update, "title"@) is None
            ==> decode::update_text(method, params) == "["@ + method + "]\n"@,
        (json::member(params, "text"@) is None && json::member(params, "update"@) == Some(update)
            && json::member(update, "content"@) == Some(content) && content is Array
            && decode::block_texts(content->Array_0).len() > 0) ==> decode::update_text(
            method,
            params,
        ) == decode::block_texts(content->Array_0) + "\n"@,
        (json::member(params, "text"@) is None && json::member(params, "update"@) == Some(update)
            && json::member(update, "content"@) == Some(content) && content is Array
            && decode::block_texts(content->Array_0).len() == 0 && json::member(update, "title"@)
            == Some(JsonView::Str(t))) ==> decode::update_text(method, params) == "[tool] "@ + t
            + "\n"@,
{
}

/// A request for permission is known by the first of its ids, and names the tool
/// that it calls by its title or kind, or else by the name of its tool.
pub proof fn law_requests_for_permission(
    request: JsonView,
    call: JsonView,
    tool: JsonView,
    id: Seq<char>,
    name: Seq<char>,
)
    ensures
        json::member(request, "id"@) == Some(JsonView::Str(id)) ==> decode::permission(request).0
            == id,
        json::member(request, "id"@) is None && json::member(request, "requestId"@) == Some(
            JsonView::Str(id),
        ) ==> decode::permission(request).0 == id,
        json::member(request, "id"@) is None && json::member(request, "requestId"@) is None
            && json::member(request, "permissionId"@) == Some(JsonView::Str(id))
            ==> decode::permission(request).0 == id,
        json::member(request, "toolCall"@) == Some(call) ==> decode::permission(request).2 == call,
        json::member(request, "toolCall"@) == Some(call) && json::member(call, "title"@) == Some(
            JsonView::Str(name),
        ) ==> decode::permission(request).1 == name,
        json::member(request, "toolCall"@) == Some(call) && json::member(call, "title"@) is None
            && json::member(call, "kind"@) == Some(JsonView::Str(name)) ==> decode::permission(
            request,
        ).1 == name,
        json::member(request, "toolCall"@) is None && json::member(request, "tool"@) == Some(tool)
            && json::member(tool, "name"@) == Some(JsonView::Str(name)) ==> decode::permission(
            request,
        ).1 == name,
        json::member(request, "toolCall"@) is None && json::member(request, "tool"@) == Some(tool)
            && json::member(tool, "input"@) == Some(call) ==> decode::permission(request).2
            == call,
        json::member(request, "toolCall"@) is None && json::member(request, "tool"@) == Some(tool)
            && json::member(tool, "input"@) is None ==> decode::permission(request).2 == tool,
        json::member(request, "toolCall"@) is None && json::member(request, "tool"@) is None
            ==> decode::permission(request).1 == "permission"@ && decode::permission(request).2
            == request,
{
}

/// File contents are a pair of one of two tags and Base64; a pair of another tag,
/// or anything else, holds none.
pub proof fn law_file_contents(tag: Seq<char>, b64: Seq<char>, more: JsonView)
    ensures
        filesystem::json_bytes(
            JsonView::Array(seq![JsonView::Str("$Uint8Array"@), JsonView::Str(b64)]),
        ) == base64::decoded_bytes(b64),
        filesystem::json_bytes(
            JsonView::Array(seq![JsonView::Str("$ArrayBuffer"@), JsonView::Str(b64)]),
        ) == base64::decoded_bytes(b64),
        tag != "$Uint8Array"@ && tag != "$ArrayBuffer"@ ==> filesystem::json_bytes(
            JsonView::Array(seq![JsonView::Str(tag), JsonView::Str(b64)]),
        ) is None,
        filesystem::json_bytes(
            JsonView::Array(seq![JsonView::Str("$Uint8Array"@), JsonView::Str(b64), more]),
        ) is None,
        filesystem::json_bytes(JsonView::Str(b64)) is None,
{
    let a = seq![JsonView::Str("$Uint8Array"@), JsonView::Str(b64)];
    let b = seq![JsonView::Str("$ArrayBuffer"@), JsonView::Str(b64)];
    let c = seq![JsonView::Str(tag), JsonView::Str(b64)];
    assert(a[0] == JsonView::Str("$Uint8Array"@) && a[1] == JsonView::Str(b64));
    assert(b[0] == JsonView::Str("$ArrayBuffer"@) && b[1] == JsonView::Str(b64));
    assert(c[0] == JsonView::Str(tag) && c[1] == JsonView::Str(b64));
}

/// Options that are not set are not sent: a directory is walked by its path alone
/// where nothing limits the walk, else with the limits that are set.
pub proof fn law_walk_of_a_directory(path: Seq<char>, depth: u32, names: Seq<Seq<char>>)
    ensures
        filesystem::readdir_args(path, None, None) == seq![JsonView::Str(path)],
        filesystem::readdir_args(path, None, Some(Seq::empty())) == seq![JsonView::Str(path)],
        filesystem::readdir_args(path, Some(depth), None) == seq![
            JsonView::Str(path),
            JsonView::Object(
                seq![("maxDepth"@, JsonView::Number(NumberView::Unsigned(depth as u64)))],
            ),
        ],
        names.len() > 0 ==> filesystem::readdir_args(path, None, Some(names)) == seq![
            JsonView::Str(path),
            JsonView::Object(
                seq![
                    (
                        "exclude"@,
                        JsonView::Array(Seq::new(names.len(), |i: int| JsonView::Str(names[i]))),
                    ),
                ],
            ),
        ],
        filesystem::readdir_args(path, Some(depth), Some(names)) == seq![
            JsonView::Str(path),
            JsonView::Object(
                seq![
                    ("maxDepth"@, JsonView::Number(NumberView::Unsigned(depth as u64))),
                    (
                        "exclude"@,
                        JsonView::Array(Seq::new(names.len(), |i: int| JsonView::Str(names[i]))),
                    ),
                ],
            ),
        ],
{
    let list = json::string_array(names);
    assert(filesystem::readdir_members(None, Some(names)) =~= seq![("exclude"@, list)]);
    assert(filesystem::readdir_members(Some(depth), Some(names)) =~= seq![
        ("maxDepth"@, JsonView::Number(NumberView::Unsigned(depth as u64))),
        ("exclude"@, list),
    ]);
    assert(list == JsonView::Array(Seq::new(names.len(), |i: int| JsonView::Str(names[i]))));
}

/// A port forward is sent with its direction and both its ports.
pub proof fn law_port_forward_message(c: PortForwardConfig)
    ensures
        ({
            let v = network::forward_json(c);
            &&& json::member(v, "direction"@) == Some(
                JsonView::Str(
                    if c.direction == PortForwardDirection::SandboxToHost {
                        "sandbox_to_host"@
                    } else {
                        "host_to_sandbox"@
                    },
                ),
            )
            &&& json::member(v, "sandboxPort"@) == Some(
                JsonView::Number(NumberView::Unsigned(c.sandbox_port as u64)),
            )
            &&& json::member(v, "hostPort"@) == Some(
                JsonView::Number(NumberView::Unsigned(c.host_port as u64)),
            )
        }),
{
    reveal_strlit("direction");
    reveal_strlit("sandboxPort");
    reveal_strlit("hostPort");
    let o = network::forward_json(c)->Object_0;
    assert("direction"@.len() == 9 && "sandboxPort"@.len() == 11 && "hostPort"@.len() == 8);
    law_members(o, "direction"@, 0);
    law_members(o, "sandboxPort"@, 1);
    law_members(o, "hostPort"@, 2);
}

/// A request from a machine is sent by its address alone where no option is set,
/// else with the options that are set.
pub proof fn law_fetch_message(url: Seq<char>, o: VmFetchOptions)
    ensures
        o.method is None && o.headers is None && o.body is None ==> network::fetch_args(url, o)
            == seq![JsonView::Str(url)],
        !(o.method is None && o.headers is None && o.body is None) ==> {
            let a = network::fetch_args(url, o);
            &&& a.len() == 2
            &&& a[0] == JsonView::Str(url)
            &&& json::member(a[1], "method"@) == match o.method {
                Some(m) => Some(JsonView::Str(m@)),
                None => None,
            }
            &&& json::member(a[1], "body"@) == match o.body {
                Some(b) => Some(JsonView::Str(b@)),
                None => None,
            }
            &&& json::member(a[1], "headers"@) is Some <==> o.headers is Some
        },
{
    reveal_strlit("method");
    reveal_strlit("headers");
    reveal_strlit("body");
    assert("method"@.len() == 6 && "headers"@.len() == 7 && "body"@.len() == 4);
    let m = network::fetch_members(o);
    let n = if o.method is Some {
        1int
    } else {
        0int
    };
    let k = if o.headers is Some {
        n + 1
    } else {
        n
    };
    if o.method is Some {
        assert(m[0].0 == "method"@);
        law_members(m, "method"@, 0);
    } else {
        law_members(m, "method"@, m.len() as int);
    }
    if o.headers is Some {
        assert(m[n].0 == "headers"@);
        law_members(m, "headers"@, n);
    } else {
        law_members(m, "headers"@, m.len() as int);
    }
    if o.body is Some {
        assert(m[k].0 == "body"@);
        law_members(m, "body"@, k);
    } else {
        law_members(m, "body"@, m.len() as int);
    }
}

/// A checkpoint is asked for by its session alone, or with the label and the
/// metadata that are set.
pub proof fn law_checkpoint_message(session: Seq<char>, o: CreateCheckpointOptions)
    ensures
        checkpoints::create_args(session, o)[0] == JsonView::Str(session),
        o.label is None && o.metadata is None ==> checkpoints::create_args(session, o).len() == 1,
        !(o.label is None && o.metadata is None) ==> {
            let a = checkpoints::create_args(session, o);
            &&& a.len() == 2
            &&& json::member(a[1], "label"@) == match o.label {
                Some(l) => Some(JsonView::Str(l@)),
                None => None,
            }
            &&& json::member(a[1], "metadata"@) == match o.metadata {
                Some(m) => Some(m@),
                None => None,
            }
        },
{
    reveal_strlit("label");
    reveal_strlit("metadata");
    assert("label"@.len() == 5 && "metadata"@.len() == 8);
    if !(o.label is None && o.metadata is None) {
        let m = checkpoints::create_args(session, o)[1]->Object_0;
        if o.label is Some {
            law_members(m, "label"@, 0);
            law_members(m, "metadata"@, 1);
        } else {
            law_members(m, "label"@, m.len() as int);
            law_members(m, "metadata"@, 0);
        }
    }
}

/// The last three lines of a text are its end, or all of it where it has fewer.
pub proof fn law_last_three(lines: Seq<Seq<char>>, a: Seq<char>, b: Seq<char>, c: Seq<char>)
    ensures
        sidecar::last_three(lines.push(a).push(b).push(c)) == seq![a, b, c],
        lines.len() <= 3 ==> sidecar::last_three(lines) == lines,
{
    assert(sidecar::last_three(lines.push(a).push(b).push(c)) =~= seq![a, b, c]);
}

/// The lines of a text are what stands between its line feeds, without the
/// carriage return before one; an empty last line does not count.
pub proof fn law_lines_of_a_text(line: Seq<char>, rest: Seq<char>)
    requires
        !line.contains('\n'),
        line.len() == 0 || line.last() != '\r',
    ensures
        review::text_lines(line.push('\n') + rest) == seq![line] + review::text_lines(rest),
        review::text_lines(line.push('\r').push('\n') + rest) == seq![line] + review::text_lines(
            rest,
        ),
        line.len() > 0 ==> review::text_lines(line) == seq![line],
        review::text_lines(Seq::empty()) == Seq::<Seq<char>>::empty(),
{
    let s = line.push('\n') + rest;
    let t = line.push('\r').push('\n') + rest;
    assert(s.take(line.len() as int) =~= line);
    lemma_first_line_feed(line, s);
    assert(s.take(line.len() as int + 1) =~= line.push('\n'));
    assert(s.skip(line.len() as int + 1) =~= rest);
    assert(crate::overlay::without_newline(line.push('\n')) =~= line);
    let with = line.push('\r');
    assert(!with.contains('\n')) by {
        if with.contains('\n') {
            let k = choose|k: int| 0 <= k < with.len() && with[k] == '\n';
            assert(line[k] == '\n');
        }
    }
    assert(t.take(with.len() as int) =~= with);
    lemma_first_line_feed(with, t);
    assert(t.take(with.len() as int + 1) =~= with.push('\n'));
    assert(t.skip(with.len() as int + 1) =~= rest);
    assert(crate::overlay::without_newline(with.push('\n')) =~= line);
    if line.len() > 0 {
        crate::text::lemma_first_of(line, '\n');
        let n = crate::text::first_of(line, '\n');
        if n < line.len() {
            assert(line[n] == '\n');
        }
        assert(line.take(line.len() as int) =~= line);
        assert(line.skip(line.len() as int) =~= Seq::empty());
        assert(crate::overlay::without_newline(line) =~= line);
        assert(review::text_lines(line.skip(line.len() as int)) =~= Seq::empty());
        assert(review::text_lines(line) =~= seq![line]);
    }
}

proof fn lemma_first_line_feed(line: Seq<char>, s: Seq<char>)
    requires
        !line.contains('\n'),
        s.len() > line.len(),
        s.take(line.len() as int) == line,
        s[line.len() as int] == '\n',
    ensures
        review::first_line_len(s) == line.len() + 1,
{
    crate::text::lemma_first_of(s, '\n');
    let n = crate::text::first_of(s, '\n');
    if n < line.len() {
        assert(s.take(line.len() as int)[n] == s[n]);
    }
}

/// A notification has its method and parameters as they are given; its version is
/// `2.0`, and its parameters null, where they are not. Without a method it is
/// none.
pub proof fn law_notifications(
    o: Seq<(Seq<char>, JsonView)>,
    method: Seq<char>,
    version: Seq<char>,
    params: JsonView,
)
    ensures
        ({
            let v = JsonView::Object(o);
            let n = events::notification_of(v);
            let (r, m, p) = (
                json::member(v, "jsonrpc"@),
                json::member(v, "method"@),
                json::member(v, "params"@),
            );
            &&& m is None ==> n is None
            &&& m == Some(JsonView::Str(method)) && (r is None || r == Some(
                JsonView::Str(version),
            )) ==> {
                &&& n is Some
                &&& (n->0).method == method
                &&& (n->0).jsonrpc == (if r is None {
                    "2.0"@
                } else {
                    version
                })
                &&& p is None ==> (n->0).params == JsonView::Null
                &&& p == Some(params) ==> (n->0).params == params
            }
        }),
{
}

/// A payload that is written as an array holds its values in the order of their
/// names: the session first, then the notification or the request; the process
/// first, then its code. A value too many does not fit.
pub proof fn law_events_of_arrays(
    session: Seq<char>,
    request: JsonView,
    reason: Seq<char>,
    pid: u64,
    code: u64,
)
    ensures
        events::broadcast(
            "permissionRequest"@,
            JsonView::Array(seq![JsonView::Str(session), request]),
        ) == (EventView::PermissionRequest { session_id: session, request }),
        events::broadcast(
            "permissionRequest"@,
            JsonView::Array(seq![JsonView::Str(session), request, request]),
        ) is Other,
        events::broadcast("vmShutdown"@, JsonView::Array(seq![JsonView::Str(reason)])) == (
        EventView::VmShutdown { reason }),
        events::broadcast(
            "processExit"@,
            JsonView::Array(
                seq![
                    JsonView::Number(NumberView::Unsigned(pid)),
                    JsonView::Number(NumberView::Unsigned(code)),
                ],
            ),
        ) == (if code <= 0x7fff_ffff {
            EventView::ProcessExit { pid, exit_code: code as i32 }
        } else {
            EventView::Other {
                name: "processExit"@,
                args: JsonView::Array(
                    seq![
                        JsonView::Number(NumberView::Unsigned(pid)),
                        JsonView::Number(NumberView::Unsigned(code)),
                    ],
                ),
            }
        }),
{
    lemma_channels();
    let a = seq![JsonView::Str(session), request];
    assert(a[0] == JsonView::Str(session) && a[1] == request);
    let b = seq![JsonView::Str(session), request, request];
    assert(b.len() == 3);
    let c = seq![JsonView::Str(reason)];
    assert(c[0] == JsonView::Str(reason));
    let d = seq![
        JsonView::Number(NumberView::Unsigned(pid)),
        JsonView::Number(NumberView::Unsigned(code)),
    ];
    assert(d[0] == JsonView::Number(NumberView::Unsigned(pid)));
    assert(d[1] == JsonView::Number(NumberView::Unsigned(code)));
}

} // verus!
