//! The event stream of an actor.
//!
//! Frames from the actor are JSON envelopes `{ body: { tag, val } }`. An
//! `Init` frame says that the actor is ready, an `Event` frame carries a
//! broadcast, an `Error` frame an error of the actor.

use vstd::prelude::*;
use vstd::string::*;
use crate::json;
use crate::json::{Json, JsonNumber, JsonView, NumberView};
use crate::text;

verus! {

/// The channel of agents' notifications.
pub const EVENT_SESSION_EVENT: &'static str = "sessionEvent";

/// The channel of agents' requests for permission.
pub const EVENT_PERMISSION_REQUEST: &'static str = "permissionRequest";

/// The channel of started machines.
pub const EVENT_VM_BOOTED: &'static str = "vmBooted";

/// The channel of stopped machines.
pub const EVENT_VM_SHUTDOWN: &'static str = "vmShutdown";

/// The channel of processes' output.
pub const EVENT_PROCESS_OUTPUT: &'static str = "processOutput";

/// The channel of ended processes.
pub const EVENT_PROCESS_EXIT: &'static str = "processExit";

/// The channel of shells' output.
pub const EVENT_SHELL_DATA: &'static str = "shellData";

/// The channel of scheduled work.
pub const EVENT_CRON_EVENT: &'static str = "cronEvent";

/// The channels that are subscribed to where none are named.
pub open spec fn default_names() -> Seq<Seq<char>> {
    seq![
        EVENT_SESSION_EVENT@,
        EVENT_PERMISSION_REQUEST@,
        EVENT_VM_BOOTED@,
        EVENT_VM_SHUTDOWN@,
        EVENT_PROCESS_OUTPUT@,
        EVENT_PROCESS_EXIT@,
    ]
}

/// The channels that are subscribed to where none are named.
pub fn default_channels() -> (r: Vec<String>)
    ensures
        text::views(r@) == default_names(),
{
    let mut v: Vec<String> = Vec::new();
    v.push(EVENT_SESSION_EVENT.to_owned());
    v.push(EVENT_PERMISSION_REQUEST.to_owned());
    v.push(EVENT_VM_BOOTED.to_owned());
    v.push(EVENT_VM_SHUTDOWN.to_owned());
    v.push(EVENT_PROCESS_OUTPUT.to_owned());
    v.push(EVENT_PROCESS_EXIT.to_owned());
    proof {
        assert(text::views(v@) =~= default_names());
    }
    v
}

/// A notification of an agent.
#[derive(Clone, PartialEq, Eq, Debug)]
pub struct JsonRpcNotification {
    pub jsonrpc: String,
    pub method: String,
    pub params: Json,
}

/// What a `sessionEvent` carries.
#[derive(Clone, PartialEq, Eq, Debug)]
pub struct SessionEventPayload {
    pub session_id: String,
    pub event: JsonRpcNotification,
}

/// What a `permissionRequest` carries.
#[derive(Clone, PartialEq, Eq, Debug)]
pub struct PermissionRequestPayload {
    pub session_id: String,
    pub request: Json,
}

/// What a `vmShutdown` carries.
#[derive(Clone, PartialEq, Eq, Debug)]
pub struct VmShutdownPayload {
    pub reason: String,
}

/// What a `processExit` carries.
#[derive(Clone, PartialEq, Eq, Debug)]
pub struct ProcessExitPayload {
    pub pid: u64,
    pub exit_code: i32,
}

/// A broadcast of an actor.
#[derive(Clone, PartialEq, Eq, Debug)]
pub enum RivetEvent {
    SessionEvent(SessionEventPayload),
    PermissionRequest(PermissionRequestPayload),
    VmBooted,
    VmShutdown(VmShutdownPayload),
    ProcessOutput(Json),
    ProcessExit(ProcessExitPayload),
    ShellData(Json),
    CronEvent(Json),
    /// A broadcast on another channel, or one whose payload does not fit.
    Other { name: String, args: Json },
    /// An error of the actor. The stream stays open.
    Error { group: String, code: String, message: String },
}

/// The model of [`JsonRpcNotification`].
#[verifier::ext_equal]
pub struct NotificationView {
    pub jsonrpc: Seq<char>,
    pub method: Seq<char>,
    pub params: JsonView,
}

/// The model of [`RivetEvent`].
#[verifier::ext_equal]
pub enum EventView {
    SessionEvent { session_id: Seq<char>, event: NotificationView },
    PermissionRequest { session_id: Seq<char>, request: JsonView },
    VmBooted,
    VmShutdown { reason: Seq<char> },
    ProcessOutput(JsonView),
    ProcessExit { pid: u64, exit_code: i32 },
    ShellData(JsonView),
    CronEvent(JsonView),
    Other { name: Seq<char>, args: JsonView },
    Error { group: Seq<char>, code: Seq<char>, message: Seq<char> },
}

impl View for JsonRpcNotification {
    type V = NotificationView;

    open spec fn view(&self) -> NotificationView {
        NotificationView { jsonrpc: self.jsonrpc@, method: self.method@, params: self.params@ }
    }
}

impl View for RivetEvent {
    type V = EventView;

    open spec fn view(&self) -> EventView {
        match *self {
            RivetEvent::SessionEvent(p) => EventView::SessionEvent {
                session_id: p.session_id@,
                event: p.event@,
            },
            RivetEvent::PermissionRequest(p) => EventView::PermissionRequest {
                session_id: p.session_id@,
                request: p.request@,
            },
            RivetEvent::VmBooted => EventView::VmBooted,
            RivetEvent::VmShutdown(p) => EventView::VmShutdown { reason: p.reason@ },
            RivetEvent::ProcessOutput(v) => EventView::ProcessOutput(v@),
            RivetEvent::ProcessExit(p) => EventView::ProcessExit {
                pid: p.pid,
                exit_code: p.exit_code,
            },
            RivetEvent::ShellData(v) => EventView::ShellData(v@),
            RivetEvent::CronEvent(v) => EventView::CronEvent(v@),
            RivetEvent::Other { name, args } => EventView::Other { name: name@, args: args@ },
            RivetEvent::Error { group, code, message } => EventView::Error {
                group: group@,
                code: code@,
                message: message@,
            },
        }
    }
}

/// Whether a value can be read as a record of `count` fields: an object, or an
/// array of at most that many values.
pub open spec fn is_record(v: JsonView, count: nat) -> bool {
    match v {
        JsonView::Object(_) => true,
        JsonView::Array(a) => a.len() <= count,
        _ => false,
    }
}

/// The field of a record: the member with its name, or the value at its place.
pub open spec fn field(v: JsonView, name: Seq<char>, place: int) -> Option<JsonView> {
    match v {
        JsonView::Array(a) => if 0 <= place < a.len() {
            Some(a[place])
        } else {
            None
        },
        _ => json::member(v, name),
    }
}

pub(crate) fn get_field<'a>(v: &'a Json, name: &str, place: usize) -> (r: Option<&'a Json>)
    ensures
        json::opt_json_view(r) == field(v@, name@, place as int),
{
    match v {
        Json::Array(a) => {
            proof {
                json::lemma_json_views(a@);
            }
            if place < a.len() {
                Some(&a[place])
            } else {
                None
            }
        },
        _ => v.get(name),
    }
}

pub(crate) fn fits(v: &Json, count: usize) -> (r: bool)
    ensures
        r == is_record(v@, count as nat),
{
    match v {
        Json::Object(_) => true,
        Json::Array(a) => {
            proof {
                json::lemma_json_views(a@);
            }
            a.len() <= count
        },
        _ => false,
    }
}

/// The notification that a value holds. Its version is `2.0` and its
/// parameters null where they are not there.
pub open spec fn notification_of(v: JsonView) -> Option<NotificationView> {
    let version = match field(v, "jsonrpc"@, 0) {
        None => Some("2.0"@),
        Some(x) => json::str_of(Some(x)),
    };
    let params = match field(v, "params"@, 2) {
        None => JsonView::Null,
        Some(x) => x,
    };
    match (version, json::str_of(field(v, "method"@, 1))) {
        (Some(jsonrpc), Some(method)) => if is_record(v, 3) {
            Some(NotificationView { jsonrpc, method, params })
        } else {
            None
        },
        _ => None,
    }
}

/// The unsigned number that a value holds.
pub open spec fn unsigned_of(v: Option<JsonView>) -> Option<u64> {
    match v {
        Some(JsonView::Number(NumberView::Unsigned(n))) => Some(n),
        _ => None,
    }
}

/// The number that a value holds, where it fits in 32 bits with a sign.
pub open spec fn int_of(v: Option<JsonView>) -> Option<i32> {
    match v {
        Some(JsonView::Number(NumberView::Unsigned(n))) => if n <= i32::MAX {
            Some(n as i32)
        } else {
            None
        },
        Some(JsonView::Number(NumberView::Negative(n))) => if i32::MIN <= n <= i32::MAX {
            Some(n as i32)
        } else {
            None
        },
        _ => None,
    }
}

/// What a broadcast means. One whose payload does not fit its channel is
/// handed on as it is.
pub open spec fn broadcast(name: Seq<char>, args: JsonView) -> EventView {
    let other = EventView::Other { name, args };
    let session_id = json::str_of(field(args, "sessionId"@, 0));
    if name == EVENT_SESSION_EVENT@ {
        let event = match field(args, "event"@, 1) {
            Some(e) => notification_of(e),
            None => None,
        };
        match (session_id, event) {
            (Some(session_id), Some(event)) => if is_record(args, 2) {
                EventView::SessionEvent { session_id, event }
            } else {
                other
            },
            _ => other,
        }
    } else if name == EVENT_PERMISSION_REQUEST@ {
        match (session_id, field(args, "request"@, 1)) {
            (Some(session_id), Some(request)) => if is_record(args, 2) {
                EventView::PermissionRequest { session_id, request }
            } else {
                other
            },
            _ => other,
        }
    } else if name == EVENT_VM_BOOTED@ {
        EventView::VmBooted
    } else if name == EVENT_VM_SHUTDOWN@ {
        match json::str_of(field(args, "reason"@, 0)) {
            Some(reason) => if is_record(args, 1) {
                EventView::VmShutdown { reason }
            } else {
                other
            },
            None => other,
        }
    } else if name == EVENT_PROCESS_OUTPUT@ {
        EventView::ProcessOutput(args)
    } else if name == EVENT_PROCESS_EXIT@ {
        match (unsigned_of(field(args, "pid"@, 0)), int_of(field(args, "exitCode"@, 1))) {
            (Some(pid), Some(exit_code)) => if is_record(args, 2) {
                EventView::ProcessExit { pid, exit_code }
            } else {
                other
            },
            _ => other,
        }
    } else if name == EVENT_SHELL_DATA@ {
        EventView::ShellData(args)
    } else if name == EVENT_CRON_EVENT@ {
        EventView::CronEvent(args)
    } else {
        other
    }
}

fn opt_text(v: Option<&Json>) -> (r: Option<String>)
    ensures
        text::opt_view(r) == json::str_of(json::opt_json_view(v)),
{
    match v {
        Some(Json::Str(s)) => Some(s.clone()),
        _ => None,
    }
}

fn opt_unsigned(v: Option<&Json>) -> (r: Option<u64>)
    ensures
        r == unsigned_of(json::opt_json_view(v)),
{
    match v {
        Some(Json::Number(JsonNumber::Unsigned(n))) => Some(*n),
        _ => None,
    }
}

fn opt_int(v: Option<&Json>) -> (r: Option<i32>)
    ensures
        r == int_of(json::opt_json_view(v)),
{
    match v {
        Some(Json::Number(JsonNumber::Unsigned(n))) => {
            if *n <= i32::MAX as u64 {
                Some(*n as i32)
            } else {
                None
            }
        },
        Some(Json::Number(JsonNumber::Negative(n))) => {
            if i32::MIN as i64 <= *n && *n <= i32::MAX as i64 {
                Some(*n as i32)
            } else {
                None
            }
        },
        _ => None,
    }
}

fn read_notification(v: &Json) -> (r: Option<JsonRpcNotification>)
    ensures
        match r {
            Some(n) => notification_of(v@) == Some(n@),
            None => notification_of(v@) is None,
        },
{
    if !fits(v, 3) {
        return None;
    }
    let jsonrpc = match get_field(v, "jsonrpc", 0) {
        None => "2.0".to_owned(),
        Some(x) => match opt_text(Some(x)) {
            Some(s) => s,
            None => {
                return None;
            },
        },
    };
    let method = match opt_text(get_field(v, "method", 1)) {
        Some(s) => s,
        None => {
            return None;
        },
    };
    let params = match get_field(v, "params", 2) {
        Some(x) => x.clone(),
        None => Json::Null,
    };
    Some(JsonRpcNotification { jsonrpc, method, params })
}

impl RivetEvent {
    fn other(name: &str, args: Json) -> (r: Self)
        ensures
            r@ == (EventView::Other { name: name@, args: args@ }),
    {
        RivetEvent::Other { name: name.to_owned(), args }
    }

    /// What a broadcast means.
    pub fn from_broadcast(name: &str, args: Json) -> (r: Self)
        ensures
            r@ == broadcast(name@, args@),
    {
        proof {
            reveal_strlit("sessionEvent");
            reveal_strlit("permissionRequest");
            reveal_strlit("vmBooted");
            reveal_strlit("vmShutdown");
            reveal_strlit("processOutput");
            reveal_strlit("processExit");
            reveal_strlit("shellData");
            reveal_strlit("cronEvent");
        }
        if text::str_eq(name, EVENT_SESSION_EVENT) {
            let session_id = opt_text(get_field(&args, "sessionId", 0));
            let event = match get_field(&args, "event", 1) {
                Some(e) => read_notification(e),
                None => None,
            };
            match (session_id, event, fits(&args, 2)) {
                (Some(session_id), Some(event), true) => RivetEvent::SessionEvent(
                    SessionEventPayload { session_id, event },
                ),
                _ => Self::other(name, args),
            }
        } else if text::str_eq(name, EVENT_PERMISSION_REQUEST) {
            let session_id = opt_text(get_field(&args, "sessionId", 0));
            let request = match get_field(&args, "request", 1) {
                Some(x) => Some(x.clone()),
                None => None,
            };
            match (session_id, request, fits(&args, 2)) {
                (Some(session_id), Some(request), true) => RivetEvent::PermissionRequest(
                    PermissionRequestPayload { session_id, request },
                ),
                _ => Self::other(name, args),
            }
        } else if text::str_eq(name, EVENT_VM_BOOTED) {
            RivetEvent::VmBooted
        } else if text::str_eq(name, EVENT_VM_SHUTDOWN) {
            let reason = opt_text(get_field(&args, "reason", 0));
            match (reason, fits(&args, 1)) {
                (Some(reason), true) => RivetEvent::VmShutdown(VmShutdownPayload { reason }),
                _ => Self::other(name, args),
            }
        } else if text::str_eq(name, EVENT_PROCESS_OUTPUT) {
            RivetEvent::ProcessOutput(args)
        } else if text::str_eq(name, EVENT_PROCESS_EXIT) {
            let pid = opt_unsigned(get_field(&args, "pid", 0));
            let exit_code = opt_int(get_field(&args, "exitCode", 1));
            match (pid, exit_code, fits(&args, 2)) {
                (Some(pid), Some(exit_code), true) => RivetEvent::ProcessExit(
                    ProcessExitPayload { pid, exit_code },
                ),
                _ => Self::other(name, args),
            }
        } else if text::str_eq(name, EVENT_SHELL_DATA) {
            RivetEvent::ShellData(args)
        } else if text::str_eq(name, EVENT_CRON_EVENT) {
            RivetEvent::CronEvent(args)
        } else {
            Self::other(name, args)
        }
    }

    /// The text of the event, for a log.
    pub fn to_string(&self) -> (r: String)
        ensures
            r@ == shown(self@),
    {
        match self {
            RivetEvent::SessionEvent(p) => text::concat5(
                "sessionEvent(",
                p.session_id.as_str(),
                ", ",
                p.event.method.as_str(),
                ")",
            ),
            RivetEvent::PermissionRequest(p) => text::concat3(
                "permissionRequest(",
                p.session_id.as_str(),
                ")",
            ),
            RivetEvent::VmBooted => "vmBooted".to_owned(),
            RivetEvent::VmShutdown(p) => text::concat3("vmShutdown(", p.reason.as_str(), ")"),
            RivetEvent::ProcessOutput(_) => "processOutput".to_owned(),
            RivetEvent::ProcessExit(p) => {
                let pid = text::u64_to_string(p.pid);
                let code = text::i64_to_string(p.exit_code as i64);
                text::concat5("processExit(pid=", pid.as_str(), ", code=", code.as_str(), ")")
            },
            RivetEvent::ShellData(_) => "shellData".to_owned(),
            RivetEvent::CronEvent(_) => "cronEvent".to_owned(),
            RivetEvent::Other { name, .. } => text::concat3("other(", name.as_str(), ")"),
            RivetEvent::Error { group, code, message } => {
                let mut s = text::concat5("error(", group.as_str(), ".", code.as_str(), ": ");
                s.append(message.as_str());
                s.append(")");
                s
            },
        }
    }
}

/// The text of an event, for a log.
pub open spec fn shown(e: EventView) -> Seq<char> {
    match e {
        EventView::SessionEvent { session_id, event } => "sessionEvent("@ + session_id + ", "@
            + event.method + ")"@,
        EventView::PermissionRequest { session_id, .. } => "permissionRequest("@ + session_id
            + ")"@,
        EventView::VmBooted => "vmBooted"@,
        EventView::VmShutdown { reason } => "vmShutdown("@ + reason + ")"@,
        EventView::ProcessOutput(_) => "processOutput"@,
        EventView::ProcessExit { pid, exit_code } => "processExit(pid="@ + text::decimal(
            pid as nat,
        ) + ", code="@ + text::decimal_int(exit_code as int) + ")"@,
        EventView::ShellData(_) => "shellData"@,
        EventView::CronEvent(_) => "cronEvent"@,
        EventView::Other { name, .. } => "other("@ + name + ")"@,
        EventView::Error { group, code, message } => "error("@ + group + "."@ + code + ": "@
            + message + ")"@,
    }
}

/// A frame from the actor.
#[derive(PartialEq, Eq, Debug)]
pub enum ParsedFrame {
    /// The actor is ready.
    Init { actor_id: String, connection_id: String },
    Event(RivetEvent),
    /// A frame that a subscriber does not need.
    Ignored,
}

/// The model of [`ParsedFrame`].
#[verifier::ext_equal]
pub enum FrameView {
    Init { actor_id: Seq<char>, connection_id: Seq<char> },
    Event(EventView),
    Ignored,
}

impl View for ParsedFrame {
    type V = FrameView;

    open spec fn view(&self) -> FrameView {
        match *self {
            ParsedFrame::Init { actor_id, connection_id } => FrameView::Init {
                actor_id: actor_id@,
                connection_id: connection_id@,
            },
            ParsedFrame::Event(e) => FrameView::Event(e@),
            ParsedFrame::Ignored => FrameView::Ignored,
        }
    }
}

/// The text of a member, or no characters.
pub open spec fn text_or_empty(v: JsonView, key: Seq<char>) -> Seq<char> {
    match json::str_of(json::member(v, key)) {
        Some(s) => s,
        None => Seq::empty(),
    }
}

fn get_text_or_empty(v: &Json, key: &str) -> (r: String)
    ensures
        r@ == text_or_empty(v@, key@),
{
    match v.get_str(key) {
        Some(s) => s.to_owned(),
        None => String::new(),
    }
}

/// The frame with this tag and value.
pub open spec fn tagged_frame(tag: Seq<char>, val: JsonView) -> Result<FrameView, Seq<char>> {
    if tag == "Init"@ {
        Ok(
            FrameView::Init {
                actor_id: text_or_empty(val, "actorId"@),
                connection_id: text_or_empty(val, "connectionId"@),
            },
        )
    } else if tag == "Event"@ {
        match json::str_of(json::member(val, "name"@)) {
            None => Err("Event missing name"@),
            Some(name) => Ok(
                FrameView::Event(
                    broadcast(
                        name,
                        match json::member(val, "args"@) {
                            Some(args) => args,
                            None => JsonView::Null,
                        },
                    ),
                ),
            ),
        }
    } else if tag == "Error"@ {
        Ok(
            FrameView::Event(
                EventView::Error {
                    group: text_or_empty(val, "group"@),
                    code: text_or_empty(val, "code"@),
                    message: text_or_empty(val, "message"@),
                },
            ),
        )
    } else if tag == "ActionResponse"@ {
        Ok(FrameView::Ignored)
    } else {
        Err("unknown ToClient tag: "@ + tag)
    }
}

/// The frame that an envelope holds; `source` is its text, for the error.
pub open spec fn frame(v: JsonView, source: Seq<char>) -> Result<FrameView, Seq<char>> {
    match json::member(v, "body"@) {
        None => Err("ToClient frame missing body: "@ + source),
        Some(body) => match json::str_of(json::member(body, "tag"@)) {
            None => Err("ToClient body missing tag: "@ + source),
            Some(tag) => match json::member(body, "val"@) {
                None => Err("ToClient body missing val: "@ + source),
                Some(val) => tagged_frame(tag, val),
            },
        },
    }
}

/// The model of a frame, or of what is wrong with it.
pub open spec fn frame_view(r: Result<ParsedFrame, String>) -> Result<FrameView, Seq<char>> {
    match r {
        Ok(f) => Ok(f@),
        Err(e) => Err(e@),
    }
}

fn read_tagged(tag: &str, val: &Json) -> (r: Result<ParsedFrame, String>)
    ensures
        frame_view(r) == tagged_frame(tag@, val@),
{
    proof {
        reveal_strlit("Init");
        reveal_strlit("Event");
        reveal_strlit("Error");
        reveal_strlit("ActionResponse");
    }
    if text::str_eq(tag, "Init") {
        let actor_id = get_text_or_empty(val, "actorId");
        let connection_id = get_text_or_empty(val, "connectionId");
        Ok(ParsedFrame::Init { actor_id, connection_id })
    } else if text::str_eq(tag, "Event") {
        let name = match val.get_str("name") {
            Some(n) => n,
            None => {
                return Err("Event missing name".to_owned());
            },
        };
        let args = match val.get("args") {
            Some(a) => a.clone(),
            None => Json::Null,
        };
        Ok(ParsedFrame::Event(RivetEvent::from_broadcast(name, args)))
    } else if text::str_eq(tag, "Error") {
        let group = get_text_or_empty(val, "group");
        let code = get_text_or_empty(val, "code");
        let message = get_text_or_empty(val, "message");
        Ok(ParsedFrame::Event(RivetEvent::Error { group, code, message }))
    } else if text::str_eq(tag, "ActionResponse") {
        Ok(ParsedFrame::Ignored)
    } else {
        Err(text::concat2("unknown ToClient tag: ", tag))
    }
}

/// The frame that an envelope holds; `source` is its text, for the error.
pub fn read_frame(value: &Json, source: &str) -> (r: Result<ParsedFrame, String>)
    ensures
        frame_view(r) == frame(value@, source@),
{
    let body = match value.get("body") {
        Some(b) => b,
        None => {
            return Err(text::concat2("ToClient frame missing body: ", source));
        },
    };
    let tag = match body.get_str("tag") {
        Some(t) => t,
        None => {
            return Err(text::concat2("ToClient body missing tag: ", source));
        },
    };
    let val = match body.get("val") {
        Some(v) => v,
        None => {
            return Err(text::concat2("ToClient body missing val: ", source));
        },
    };
    read_tagged(tag, val)
}

/// The frame that a text holds.
pub open spec fn text_frame(source: Seq<char>) -> Result<FrameView, Seq<char>> {
    match json::parsed_json(source) {
        Ok(v) => frame(v, source),
        Err(_) => Err("parse ToClient JSON"@),
    }
}

/// Reads a frame.
pub fn parse_frame(source: &str) -> (r: Result<ParsedFrame, String>)
    ensures
        frame_view(r) == text_frame(source@),
{
    match json::parse(source) {
        Ok(v) => read_frame(&v, source),
        Err(_) => Err("parse ToClient JSON".to_owned()),
    }
}

/// The request to subscribe to a channel, or to leave it.
pub open spec fn subscription(event_name: Seq<char>, subscribe: bool) -> JsonView {
    JsonView::Object(
        seq![
            (
                "body"@,
                JsonView::Object(
                    seq![
                        ("tag"@, JsonView::Str("SubscriptionRequest"@)),
                        (
                            "val"@,
                            JsonView::Object(
                                seq![
                                    ("eventName"@, JsonView::Str(event_name)),
                                    ("subscribe"@, JsonView::Bool(subscribe)),
                                ],
                            ),
                        ),
                    ],
                ),
            ),
        ],
    )
}

/// The request to subscribe to a channel, or to leave it.
pub fn subscription_request(event_name: &str, subscribe: bool) -> (r: Json)
    ensures
        r@ == subscription(event_name@, subscribe),
{
    let val = json::object2(
        "eventName",
        json::string(event_name),
        "subscribe",
        Json::Bool(subscribe),
    );
    let body = json::object2("tag", json::string("SubscriptionRequest"), "val", val);
    json::object1("body", body)
}

/// The text of the request to subscribe to a channel, or to leave it.
pub fn subscription_message(event_name: &str, subscribe: bool) -> (r: String)
    ensures
        r@ == json::rendered_json(subscription(event_name@, subscribe)),
{
    let request = subscription_request(event_name, subscribe);
    json::render(&request)
}

/// A base address with `ws` in place of `http`, and `wss` in place of `https`.
pub open spec fn ws_base(base: Seq<char>) -> Seq<char> {
    if text::starts_with(base, "http://"@) {
        "ws://"@ + base.skip("http://"@.len() as int)
    } else if text::starts_with(base, "https://"@) {
        "wss://"@ + base.skip("https://"@.len() as int)
    } else {
        base
    }
}

/// The address at which an actor's event stream is reached.
pub fn connect_ws_url(base_url: &str, actor_id: &str) -> (r: String)
    ensures
        r@ == ws_base(text::trim_end_char(base_url@, '/')) + "/gateway/"@ + actor_id@
            + "/connect"@,
{
    let base = text::trim_end_matches(base_url, '/');
    let ws = match text::strip_prefix(base.as_str(), "http://") {
        Some(rest) => text::concat2("ws://", rest.as_str()),
        None => match text::strip_prefix(base.as_str(), "https://") {
            Some(rest) => text::concat2("wss://", rest.as_str()),
            None => base,
        },
    };
    text::concat4(ws.as_str(), "/gateway/", actor_id, "/connect")
}

/// A message of the connection.
#[derive(Clone, PartialEq, Eq, Debug)]
pub enum WsMessage {
    Text(String),
    Binary,
    Ping,
    Pong,
    Close,
    Frame,
}

/// What comes next while the stream is opened.
#[derive(PartialEq, Eq, Debug)]
pub enum Handshake {
    /// The actor is ready for subscriptions.
    Ready,
    /// Wait for another message.
    Wait,
    Fail(String),
}

/// Whether `r` is what follows a message before the actor is ready: `msg` is
/// nothing at the end of the stream, and an error where reading failed.
pub open spec fn shakes(msg: Option<Result<WsMessage, String>>, r: Handshake) -> bool {
    match msg {
        None => r matches Handshake::Fail(e) && e@ == "ws closed before Init"@,
        Some(Err(_)) => r matches Handshake::Fail(e) && e@ == "ws error waiting for Init"@,
        Some(Ok(WsMessage::Text(t))) => match text_frame(t@) {
            Ok(FrameView::Init { .. }) => r is Ready,
            Ok(_) => r is Wait,
            Err(fault) => r matches Handshake::Fail(e) && e@ == fault,
        },
        Some(Ok(WsMessage::Binary)) => r matches Handshake::Fail(e) && e@
            == "unexpected binary frame before Init"@,
        Some(Ok(WsMessage::Close)) => r matches Handshake::Fail(e) && e@
            == "ws closed before Init"@,
        Some(Ok(_)) => r is Wait,
    }
}

/// Decides what follows a message before the actor is ready.
pub fn handshake(msg: &Option<Result<WsMessage, String>>) -> (r: Handshake)
    ensures
        shakes(*msg, r),
{
    match msg {
        None => Handshake::Fail("ws closed before Init".to_owned()),
        Some(m) => match m {
            Err(_) => Handshake::Fail("ws error waiting for Init".to_owned()),
            Ok(m) => match m {
                WsMessage::Text(t) => match parse_frame(t.as_str()) {
                    Ok(f) => match f {
                        ParsedFrame::Init { .. } => Handshake::Ready,
                        ParsedFrame::Ignored => Handshake::Wait,
                        ParsedFrame::Event(_) => Handshake::Wait,
                    },
                    Err(e) => Handshake::Fail(e),
                },
                WsMessage::Binary => Handshake::Fail(
                    "unexpected binary frame before Init".to_owned(),
                ),
                WsMessage::Close => Handshake::Fail("ws closed before Init".to_owned()),
                WsMessage::Ping => Handshake::Wait,
                WsMessage::Pong => Handshake::Wait,
                WsMessage::Frame => Handshake::Wait,
            },
        },
    }
}

/// The requests that are sent once the actor is ready: one for each channel,
/// in order.
pub fn subscription_messages(channels: &Vec<String>) -> (r: Vec<String>)
    ensures
        r@.len() == channels@.len(),
        forall|i: int|
            0 <= i < r@.len() ==> (#[trigger] r@[i])@ == json::rendered_json(
                subscription(channels@[i]@, true),
            ),
{
    let mut out: Vec<String> = Vec::new();
    let mut i: usize = 0;
    while i < channels.len()
        invariant
            i <= channels@.len(),
            out@.len() == i,
            forall|j: int|
                0 <= j < i ==> (#[trigger] out@[j])@ == json::rendered_json(
                    subscription(channels@[j]@, true),
                ),
        decreases channels@.len() - i,
    {
        out.push(subscription_message(channels[i].as_str(), true));
        i += 1;
    }
    out
}

/// What is done with a message of the open stream.
#[derive(PartialEq, Eq, Debug)]
pub enum StreamStep {
    /// Hand the event to the subscriber.
    Deliver(RivetEvent),
    Skip,
    /// The stream is over.
    Stop,
}

/// Whether `r` is what is done with a message of the open stream.
pub open spec fn streams(msg: Option<Result<WsMessage, String>>, r: StreamStep) -> bool {
    match msg {
        None => r is Stop,
        Some(Err(_)) => r is Stop,
        Some(Ok(WsMessage::Close)) => r is Stop,
        Some(Ok(WsMessage::Text(t))) => match text_frame(t@) {
            Ok(FrameView::Event(e)) => r matches StreamStep::Deliver(d) && d@ == e,
            _ => r is Skip,
        },
        Some(Ok(_)) => r is Skip,
    }
}

/// Decides what is done with a message of the open stream. A frame that cannot
/// be read does not end it.
pub fn stream_step(msg: &Option<Result<WsMessage, String>>) -> (r: StreamStep)
    ensures
        streams(*msg, r),
{
    match msg {
        None => StreamStep::Stop,
        Some(m) => match m {
            Err(_) => StreamStep::Stop,
            Ok(m) => match m {
                WsMessage::Text(t) => match parse_frame(t.as_str()) {
                    Ok(f) => match f {
                        ParsedFrame::Event(e) => StreamStep::Deliver(e),
                        ParsedFrame::Init { .. } => StreamStep::Skip,
                        ParsedFrame::Ignored => StreamStep::Skip,
                    },
                    Err(_) => StreamStep::Skip,
                },
                WsMessage::Close => StreamStep::Stop,
                WsMessage::Binary => StreamStep::Skip,
                WsMessage::Ping => StreamStep::Skip,
                WsMessage::Pong => StreamStep::Skip,
                WsMessage::Frame => StreamStep::Skip,
            },
        },
    }
}

/// No broadcast is lost: a frame that names a channel is delivered, whether or
/// not its payload fits the channel.
pub proof fn law_broadcasts_are_delivered(t: String, r: StreamStep, name: Seq<char>, v: JsonView)
    requires
        streams(Some(Ok(WsMessage::Text(t))), r),
        json::parsed_json(t@) == Ok::<JsonView, Seq<char>>(v),
        json::member(v, "body"@) is Some,
        json::str_of(json::member(json::member(v, "body"@)->0, "tag"@)) == Some("Event"@),
        json::member(json::member(v, "body"@)->0, "val"@) is Some,
        json::str_of(
            json::member(json::member(json::member(v, "body"@)->0, "val"@)->0, "name"@),
        ) == Some(name),
    ensures
        r is Deliver,
{
    reveal_strlit("Init");
    reveal_strlit("Event");
    assert("Init"@.len() != "Event"@.len());
}

} // verus!
