//! Requests to the actor runtime's manager.

use vstd::prelude::*;
use vstd::string::*;
use crate::json;
use crate::json::{Json, JsonView};
use crate::text;

verus! {

/// The base address without slashes at its end.
pub fn base_url(url: &str) -> (r: String)
    ensures
        r@ == text::trim_end_char(url@, '/'),
{
    text::trim_end_matches(url, '/')
}

/// The address of an action.
pub fn action_url(base: &str, actor_id: &str, action: &str) -> (r: String)
    ensures
        r@ == text::trim_end_char(base@, '/') + "/gateway/"@ + actor_id@ + "/action/"@ + action@,
{
    let trimmed = text::trim_end_matches(base, '/');
    text::concat5(trimmed.as_str(), "/gateway/", actor_id, "/action/", action)
}

/// The body of an action with these arguments.
pub fn action_body(args: Vec<Json>) -> (r: Json)
    ensures
        r@ == JsonView::Object(seq![("args"@, JsonView::Array(json::json_views(args@)))]),
{
    json::object1("args", Json::Array(args))
}

/// The address of a value that an actor keeps under a key.
pub fn kv_url(base: &str, actor_id: &str, key: &str) -> (r: String)
    ensures
        r@ == base@ + "/actors/"@ + actor_id@ + "/kv/keys/"@ + key@,
{
    text::concat5(base, "/actors/", actor_id, "/kv/keys/", key)
}

/// The value in the answer to a read of a key; null where there is none.
pub fn kv_value(body: &Json) -> (r: Json)
    ensures
        r@ == (match json::member(body@, "value"@) {
            Some(v) => v,
            None => JsonView::Null,
        }),
{
    match body.get("value") {
        Some(v) => v.clone(),
        None => Json::Null,
    }
}

/// An actor as the manager tells of it.
#[derive(Clone, PartialEq, Eq, Debug)]
pub struct Actor {
    pub actor_id: String,
    pub name: String,
    pub key: Option<String>,
    pub namespace_id: String,
    pub runner_name_selector: String,
    pub create_ts: i64,
    pub connectable_ts: Option<i64>,
    pub destroy_ts: Option<i64>,
    pub sleep_ts: Option<i64>,
    pub start_ts: Option<i64>,
}

/// The address of a machine's events: with `ws` in place of `http`, and `wss`
/// in place of `https`.
pub fn vm_events_url(base: &str, vm_id: &str) -> (r: String)
    ensures
        r@ == text::replaced(
            text::replaced(base@, "http://"@, "ws://"@),
            "https://"@,
            "wss://"@,
        ) + "/vm/"@ + vm_id@ + "/events"@,
{
    proof {
        reveal_strlit("http://");
        reveal_strlit("https://");
    }
    let plain = text::replace(base, "http://", "ws://");
    let ws = text::replace(plain.as_str(), "https://", "wss://");
    text::concat4(ws.as_str(), "/vm/", vm_id, "/events")
}

/// What is asked of the manager where an actor is to be there.
#[derive(Clone, PartialEq, Eq, Debug)]
pub struct GetOrCreateRequest<'a> {
    pub name: &'a str,
    pub key: &'a str,
    pub runner_name_selector: &'a str,
    pub crash_policy: &'a str,
}

impl Default for GetOrCreateRequest<'static> {
    fn default() -> (r: Self)
        ensures
            r.name@ == "vm"@,
            r.key@ == "default"@,
            r.runner_name_selector@ == "default"@,
            r.crash_policy@ == "kill"@,
    {
        GetOrCreateRequest {
            name: "vm",
            key: "default",
            runner_name_selector: "default",
            crash_policy: "kill",
        }
    }
}

/// The query with which actors are listed.
pub fn list_actors_query(name: &str, key: Option<&str>) -> (r: Vec<(String, String)>)
    ensures
        r@.len() == (if key is Some {
            2int
        } else {
            1int
        }),
        r@[0].0@ == "name"@ && r@[0].1@ == name@,
        key matches Some(k) ==> r@[1].0@ == "key"@ && r@[1].1@ == k@,
{
    let mut q: Vec<(String, String)> = Vec::new();
    q.push(("name".to_owned(), name.to_owned()));
    match key {
        Some(k) => {
            q.push(("key".to_owned(), k.to_owned()));
        },
        None => {},
    }
    q
}

/// The message of an answer that is no success.
pub fn status_error(request: &str, status: &str, body: &str) -> (r: String)
    ensures
        r@ == request@ + " returned "@ + status@ + ": "@ + body@,
{
    text::concat5(request, " returned ", status, ": ", body)
}

/// The arguments with which a session is made: the options stand behind the
/// agent where there are any.
pub fn create_session_args(agent_type: &str, options: &Option<Json>) -> (r: Vec<Json>)
    ensures
        json::json_views(r@) == (match *options {
            Some(o) => seq![JsonView::Str(agent_type@), o@],
            None => seq![JsonView::Str(agent_type@)],
        }),
{
    match options {
        Some(o) => json::list2(json::string(agent_type), o.clone()),
        None => json::list1(json::string(agent_type)),
    }
}

/// The arguments with which a prompt is sent.
pub fn send_prompt_args(session_id: &str, prompt: &str) -> (r: Vec<Json>)
    ensures
        json::json_views(r@) == seq![JsonView::Str(session_id@), JsonView::Str(prompt@)],
{
    json::list2(json::string(session_id), json::string(prompt))
}

/// The arguments of an action on one thing with an id.
pub fn id_args(id: &str) -> (r: Vec<Json>)
    ensures
        json::json_views(r@) == seq![JsonView::Str(id@)],
{
    json::list1(json::string(id))
}

} // verus!
