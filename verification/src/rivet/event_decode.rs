//! What the payloads of broadcasts hold.

use vstd::prelude::*;
use vstd::string::*;
use vstd::utf8::encode_utf8;
use crate::json;
use crate::json::{Json, JsonView};
use crate::rivet::base64;
use crate::text;

verus! {

/// A request for permission, in short.
#[derive(Clone, PartialEq, Eq, Debug)]
pub struct PermissionSummary {
    pub id: String,
    pub tool_name: String,
    pub input: Json,
}

/// The Base64 text of a tagged pair `["$Uint8Array", base64]`.
pub open spec fn tagged_bytes(v: JsonView) -> Option<Seq<u8>> {
    match v {
        JsonView::Array(a) => if a.len() == 2 && a[0] == JsonView::Str("$Uint8Array"@)
            && json::str_of(Some(a[1])) is Some {
            base64::decoded_bytes(json::str_of(Some(a[1]))->0)
        } else {
            None
        },
        _ => None,
    }
}

/// The member `data`, else the member `bytes`.
pub open spec fn data_member(v: JsonView) -> Option<JsonView> {
    match json::member(v, "data"@) {
        Some(d) => Some(d),
        None => json::member(v, "bytes"@),
    }
}

/// The bytes that a value stands for: a tagged pair, a text, or an object with
/// Base64 `data` or `bytes`, or with `text`.
pub open spec fn envelope_bytes(v: JsonView) -> Option<Seq<u8>> {
    match tagged_bytes(v) {
        Some(b) => Some(b),
        None => match v {
            JsonView::Str(s) => Some(encode_utf8(s)),
            JsonView::Object(_) => {
                let from_data = match json::str_of(data_member(v)) {
                    Some(t) => base64::decoded_bytes(t),
                    None => None,
                };
                match from_data {
                    Some(b) => Some(b),
                    None => match json::str_of(json::member(v, "text"@)) {
                        Some(t) => Some(encode_utf8(t)),
                        None => None,
                    },
                }
            },
            _ => None,
        },
    }
}

/// The view of optional bytes.
pub open spec fn opt_bytes_view(o: Option<Vec<u8>>) -> Option<Seq<u8>> {
    match o {
        Some(b) => Some(b@),
        None => None,
    }
}

/// The bytes that a value stands for.
pub fn decode_bytes_envelope(v: &Json) -> (r: Option<Vec<u8>>)
    ensures
        opt_bytes_view(r) == envelope_bytes(v@),
{
    match v {
        Json::Array(arr) => {
            proof {
                json::lemma_json_views(arr@);
            }
            if arr.len() == 2 {
                match (&arr[0], &arr[1]) {
                    (Json::Str(tag), Json::Str(b64)) => {
                        if text::str_eq(tag.as_str(), "$Uint8Array") {
                            return match base64::decode(b64.as_str()) {
                                Ok(b) => Some(b),
                                Err(_) => None,
                            };
                        }
                    },
                    _ => {},
                }
            }
            None
        },
        Json::Str(s) => Some(s.as_str().as_bytes_vec()),
        Json::Object(_) => {
            let data = match v.get("data") {
                Some(d) => Some(d),
                None => v.get("bytes"),
            };
            match data {
                Some(Json::Str(b64)) => {
                    match base64::decode(b64.as_str()) {
                        Ok(b) => {
                            return Some(b);
                        },
                        Err(_) => {},
                    }
                },
                _ => {},
            }
            match v.get_str("text") {
                Some(t) => Some(t.as_bytes_vec()),
                None => None,
            }
        },
        _ => None,
    }
}

/// The texts of the blocks of an array, one after the other.
pub open spec fn block_texts(blocks: Seq<JsonView>) -> Seq<char>
    decreases blocks.len(),
{
    if blocks.len() == 0 {
        Seq::empty()
    } else {
        let front = block_texts(blocks.drop_last());
        match json::str_of(json::member(blocks.last(), "text"@)) {
            Some(t) => front + t,
            None => front,
        }
    }
}

/// The text of a content: its `text`, or the texts of its blocks where there
/// are any.
pub open spec fn content_text(content: JsonView) -> Option<Seq<char>> {
    match json::str_of(json::member(content, "text"@)) {
        Some(t) => Some(t),
        None => match content {
            JsonView::Array(blocks) => if block_texts(blocks).len() > 0 {
                Some(block_texts(blocks))
            } else {
                None
            },
            _ => None,
        },
    }
}

/// The text of a notification, with a line end: its own, that of its update's
/// content, the title of a tool, or its method.
pub open spec fn update_text(method: Seq<char>, params: JsonView) -> Seq<char> {
    let update = match json::member(params, "update"@) {
        Some(u) => u,
        None => params,
    };
    let from_content = match json::member(update, "content"@) {
        Some(c) => content_text(c),
        None => None,
    };
    match json::str_of(json::member(params, "text"@)) {
        Some(t) => t + "\n"@,
        None => match from_content {
            Some(t) => t + "\n"@,
            None => match json::str_of(json::member(update, "title"@)) {
                Some(title) => "[tool] "@ + title + "\n"@,
                None => "["@ + method + "]\n"@,
            },
        },
    }
}

fn join_blocks(blocks: &Vec<Json>) -> (r: String)
    ensures
        r@ == block_texts(json::json_views(blocks@)),
{
    let ghost all = json::json_views(blocks@);
    let mut out = String::new();
    let mut i: usize = 0;
    proof {
        json::lemma_json_views(blocks@);
        assert(all.take(0) =~= Seq::empty());
    }
    while i < blocks.len()
        invariant
            i <= blocks@.len(),
            all == json::json_views(blocks@),
            all.len() == blocks@.len(),
            forall|j: int| 0 <= j < all.len() ==> #[trigger] all[j] == blocks@[j]@,
            out@ == block_texts(all.take(i as int)),
        decreases blocks@.len() - i,
    {
        proof {
            assert(all.take(i as int + 1).drop_last() =~= all.take(i as int));
            assert(all.take(i as int + 1).last() == blocks@[i as int]@);
        }
        match blocks[i].get_str("text") {
            Some(t) => {
                out.append(t);
            },
            None => {},
        }
        i += 1;
    }
    proof {
        assert(all.take(all.len() as int) =~= all);
    }
    out
}

/// The text of a notification, with a line end.
pub fn extract_session_update_text(method: &str, params: &Json) -> (r: String)
    ensures
        r@ == update_text(method@, params@),
{
    match params.get_str("text") {
        Some(t) => {
            return text::concat2(t, "\n");
        },
        None => {},
    }
    let update = match params.get("update") {
        Some(u) => u,
        None => params,
    };
    match update.get("content") {
        Some(content) => {
            match content.get_str("text") {
                Some(t) => {
                    return text::concat2(t, "\n");
                },
                None => {},
            }
            match content {
                Json::Array(blocks) => {
                    let out = join_blocks(blocks);
                    if out.as_str().unicode_len() > 0 {
                        return text::concat2(out.as_str(), "\n");
                    }
                },
                _ => {},
            }
        },
        None => {},
    }
    match update.get_str("title") {
        Some(title) => text::concat3("[tool] ", title, "\n"),
        None => text::concat3("[", method, "]\n"),
    }
}

/// The first member of the three that is there.
pub open spec fn first_member(
    v: JsonView,
    a: Seq<char>,
    b: Seq<char>,
    c: Seq<char>,
) -> Option<JsonView> {
    match json::member(v, a) {
        Some(x) => Some(x),
        None => match json::member(v, b) {
            Some(x) => Some(x),
            None => json::member(v, c),
        },
    }
}

/// The text of a value, or `default`.
pub open spec fn text_or(v: Option<JsonView>, default: Seq<char>) -> Seq<char> {
    match json::str_of(v) {
        Some(s) => s,
        None => default,
    }
}

/// A request for permission in short: its id, the tool, and the input.
pub open spec fn permission(request: JsonView) -> (Seq<char>, Seq<char>, JsonView) {
    let id = text_or(
        first_member(request, "id"@, "requestId"@, "permissionId"@),
        Seq::empty(),
    );
    match json::member(request, "toolCall"@) {
        Some(call) => {
            let title = match json::member(call, "title"@) {
                Some(t) => Some(t),
                None => json::member(call, "kind"@),
            };
            (id, text_or(title, "tool"@), call)
        },
        None => match json::member(request, "tool"@) {
            Some(tool) => (
                id,
                text_or(json::member(tool, "name"@), "tool"@),
                match json::member(tool, "input"@) {
                    Some(input) => input,
                    None => tool,
                },
            ),
            None => (id, "permission"@, request),
        },
    }
}

fn take_text(v: Option<&Json>, default: &str) -> (r: String)
    ensures
        r@ == text_or(json::opt_json_view(v), default@),
{
    match v {
        Some(Json::Str(s)) => s.clone(),
        _ => default.to_owned(),
    }
}

/// A request for permission in short.
pub fn summarize_permission(request: &Json) -> (r: PermissionSummary)
    ensures
        (r.id@, r.tool_name@, r.input@) == permission(request@),
{
    let given = match request.get("id") {
        Some(x) => Some(x),
        None => match request.get("requestId") {
            Some(x) => Some(x),
            None => request.get("permissionId"),
        },
    };
    proof {
        reveal_strlit("");
        assert(""@ =~= Seq::<char>::empty());
    }
    let id = take_text(given, "");
    match request.get("toolCall") {
        Some(call) => {
            let title = match call.get("title") {
                Some(t) => Some(t),
                None => call.get("kind"),
            };
            PermissionSummary { id, tool_name: take_text(title, "tool"), input: call.clone() }
        },
        None => match request.get("tool") {
            Some(tool) => {
                let tool_name = take_text(tool.get("name"), "tool");
                let input = match tool.get("input") {
                    Some(i) => i.clone(),
                    None => tool.clone(),
                };
                PermissionSummary { id, tool_name, input }
            },
            None => PermissionSummary {
                id,
                tool_name: "permission".to_owned(),
                input: request.clone(),
            },
        },
    }
}

/// The text of a notification ends in a line end, so texts can be put one
/// after the other.
pub proof fn law_update_text_ends_a_line(method: Seq<char>, params: JsonView)
    ensures
        update_text(method, params).len() > 0,
        update_text(method, params).last() == '\n',
{
    reveal_strlit("\n");
    reveal_strlit("]\n");
    assert("\n"@.last() == '\n');
    assert("]\n"@.last() == '\n');
}

} // verus!
