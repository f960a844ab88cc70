//! The actions on a machine's network.

use vstd::prelude::*;
use vstd::string::*;
use crate::credential_store;
use crate::json;
use crate::json::{Json, JsonView, NumberView};
use crate::text;

verus! {

/// Which side of a port forward connects.
#[derive(Clone, Copy, PartialEq, Eq, Structural, Debug)]
pub enum PortForwardDirection {
    /// A process of the machine connects to the host.
    SandboxToHost,
    /// A process of the host connects to the machine.
    HostToSandbox,
}

impl PortForwardDirection {
    /// The name to show.
    pub fn label(&self) -> (r: &'static str)
        ensures
            r@ == (match *self {
                PortForwardDirection::SandboxToHost => "sandbox \u{2192} host"@,
                PortForwardDirection::HostToSandbox => "host \u{2192} sandbox"@,
            }),
    {
        match self {
            PortForwardDirection::SandboxToHost => "sandbox \u{2192} host",
            PortForwardDirection::HostToSandbox => "host \u{2192} sandbox",
        }
    }

    /// The name to show.
    pub fn to_string(&self) -> (r: String)
        ensures
            r@ == (match *self {
                PortForwardDirection::SandboxToHost => "sandbox \u{2192} host"@,
                PortForwardDirection::HostToSandbox => "host \u{2192} sandbox"@,
            }),
    {
        self.label().to_owned()
    }

    /// The name in JSON.
    pub open spec fn wire_name(self) -> Seq<char> {
        match self {
            PortForwardDirection::SandboxToHost => "sandbox_to_host"@,
            PortForwardDirection::HostToSandbox => "host_to_sandbox"@,
        }
    }

    /// The name in JSON.
    pub fn wire(&self) -> (r: &'static str)
        ensures
            r@ == self.wire_name(),
    {
        match self {
            PortForwardDirection::SandboxToHost => "sandbox_to_host",
            PortForwardDirection::HostToSandbox => "host_to_sandbox",
        }
    }
}

/// A port forward to make.
#[derive(Clone, Copy, PartialEq, Eq, Structural, Debug)]
pub struct PortForwardConfig {
    pub direction: PortForwardDirection,
    pub sandbox_port: u16,
    pub host_port: u16,
}

/// The JSON form of a port forward.
pub open spec fn forward_json(c: PortForwardConfig) -> JsonView {
    JsonView::Object(
        seq![
            ("direction"@, JsonView::Str(c.direction.wire_name())),
            ("sandboxPort"@, JsonView::Number(NumberView::Unsigned(c.sandbox_port as u64))),
            ("hostPort"@, JsonView::Number(NumberView::Unsigned(c.host_port as u64))),
        ],
    )
}

/// The arguments with which a port forward is made.
pub fn build_add_port_forward_args(c: &PortForwardConfig) -> (r: Vec<Json>)
    ensures
        json::json_views(r@) == seq![forward_json(*c)],
{
    let mut o: Vec<(String, Json)> = Vec::new();
    json::put(&mut o, "direction", json::string(c.direction.wire()));
    json::put(&mut o, "sandboxPort", json::unsigned(c.sandbox_port as u64));
    json::put(&mut o, "hostPort", json::unsigned(c.host_port as u64));
    proof {
        assert(json::member_views(o@) =~= seq![
            ("direction"@, JsonView::Str(c.direction.wire_name())),
            ("sandboxPort"@, JsonView::Number(NumberView::Unsigned(c.sandbox_port as u64))),
            ("hostPort"@, JsonView::Number(NumberView::Unsigned(c.host_port as u64))),
        ]);
    }
    json::list1(Json::Object(o))
}

/// A port forward that is active.
#[derive(Clone, PartialEq, Eq, Debug)]
pub struct PortForwardEntry {
    pub id: String,
    pub direction: PortForwardDirection,
    pub sandbox_port: u16,
    pub host_port: u16,
    pub active: bool,
}

/// A request that the machine makes.
#[derive(Clone, PartialEq, Eq, Debug)]
pub struct VmFetchOptions {
    pub method: Option<String>,
    /// The headers, each name once: see [`VmFetchOptions::wf`].
    pub headers: Option<Vec<(String, String)>>,
    pub body: Option<String>,
}

impl Default for VmFetchOptions {
    fn default() -> (r: Self)
        ensures
            r.method is None,
            r.headers is None,
            r.body is None,
            r.wf(),
    {
        VmFetchOptions { method: None, headers: None, body: None }
    }
}

/// Whether each name stands once.
pub open spec fn names_differ(h: Seq<(Seq<char>, Seq<char>)>) -> bool {
    forall|i: int, j: int| 0 <= i < j < h.len() ==> (#[trigger] h[i]).0 != (#[trigger] h[j]).0
}

proof fn lemma_name_index(h: Seq<(Seq<char>, Seq<char>)>, name: Seq<char>, i: int)
    requires
        0 <= i <= h.len(),
    ensures
        ({
            let k = credential_store::name_index(h, name, i);
            &&& i <= k <= h.len()
            &&& k < h.len() ==> h[k].0 == name
            &&& forall|j: int| i <= j < k ==> (#[trigger] h[j]).0 != name
        }),
    decreases h.len() - i,
{
    if i < h.len() && h[i].0 != name {
        lemma_name_index(h, name, i + 1);
    }
}

proof fn lemma_names_differ(h: Seq<(Seq<char>, Seq<char>)>, name: Seq<char>, value: Seq<char>)
    requires
        names_differ(h),
    ensures
        names_differ(credential_store::with_value(h, name, value)),
{
    lemma_name_index(h, name, 0);
    let out = credential_store::with_value(h, name, value);
    assert forall|i: int, j: int| 0 <= i < j < out.len() implies (#[trigger] out[i]).0
        != (#[trigger] out[j]).0 by {
        if j < h.len() {
            assert(out[i].0 == h[i].0 && out[j].0 == h[j].0);
        } else {
            assert(out[i] == h[i]);
        }
    }
}

impl VmFetchOptions {
    /// Each header's name stands once.
    pub open spec fn wf(&self) -> bool {
        self.headers matches Some(h) ==> names_differ(credential_store::pair_views(h@))
    }

    /// The headers that are set.
    pub open spec fn header_views(&self) -> Seq<(Seq<char>, Seq<char>)> {
        match self.headers {
            Some(h) => credential_store::pair_views(h@),
            None => Seq::empty(),
        }
    }

    /// Sets a header, in place of the one that was there.
    pub fn set_header(&mut self, name: &str, value: String)
        requires
            old(self).wf(),
        ensures
            final(self).wf(),
            final(self).headers is Some,
            final(self).header_views() == credential_store::with_value(old(self).header_views(), name@, value@),
            final(self).method == old(self).method,
            final(self).body == old(self).body,
    {
        let ghost before = self.header_views();
        let ghost v = value@;
        let mut h: Vec<(String, String)> = Vec::new();
        proof {
            assert(credential_store::pair_views(h@) =~= Seq::empty());
        }
        if let Some(set) = self.headers.take() {
            h = set;
        }
        let mut i: usize = 0;
        while i < h.len() && !text::str_eq(h[i].0.as_str(), name)
            invariant
                i <= h@.len(),
                credential_store::pair_views(h@) == before,
                credential_store::name_index(before, name@, 0) == credential_store::name_index(before, name@, i as int),
            decreases h@.len() - i,
        {
            i += 1;
        }
        proof {
            lemma_names_differ(before, name@, v);
        }
        if i < h.len() {
            h.set(i, (name.to_owned(), value));
            proof {
                assert(credential_store::pair_views(h@) =~= before.update(i as int, (name@, v)));
            }
        } else {
            h.push((name.to_owned(), value));
            proof {
                assert(credential_store::pair_views(h@) =~= before.push((name@, v)));
            }
        }
        self.headers = Some(h);
    }

    /// Whether nothing is set.
    pub fn is_empty(&self) -> (r: bool)
        ensures
            r == (self.method is None && self.headers is None && self.body is None),
    {
        self.method.is_none() && self.headers.is_none() && self.body.is_none()
    }
}

/// The JSON form of headers.
pub open spec fn headers_json(h: Seq<(String, String)>) -> JsonView {
    JsonView::Object(Seq::new(h.len(), |i: int| (h[i].0@, JsonView::Str(h[i].1@))))
}

/// The members of the options: those that are set.
pub open spec fn fetch_members(o: VmFetchOptions) -> Seq<(Seq<char>, JsonView)> {
    let method = match o.method {
        Some(m) => seq![("method"@, JsonView::Str(m@))],
        None => Seq::empty(),
    };
    let headers = match o.headers {
        Some(h) => method.push(("headers"@, headers_json(h@))),
        None => method,
    };
    match o.body {
        Some(b) => headers.push(("body"@, JsonView::Str(b@))),
        None => headers,
    }
}

/// The arguments with which the machine makes a request: the options stand
/// behind the address where any is set.
pub open spec fn fetch_args(url: Seq<char>, o: VmFetchOptions) -> Seq<JsonView> {
    if o.method is None && o.headers is None && o.body is None {
        seq![JsonView::Str(url)]
    } else {
        seq![JsonView::Str(url), JsonView::Object(fetch_members(o))]
    }
}

fn headers_object(h: &Vec<(String, String)>) -> (r: Json)
    ensures
        r@ == headers_json(h@),
{
    let mut o: Vec<(String, Json)> = Vec::new();
    let mut i: usize = 0;
    while i < h.len()
        invariant
            i <= h@.len(),
            json::member_views(o@) == Seq::new(
                i as nat,
                |j: int| (h@[j].0@, JsonView::Str(h@[j].1@)),
            ),
        decreases h@.len() - i,
    {
        json::put(&mut o, h[i].0.as_str(), Json::Str(h[i].1.clone()));
        i += 1;
        proof {
            assert(json::member_views(o@) =~= Seq::new(
                i as nat,
                |j: int| (h@[j].0@, JsonView::Str(h@[j].1@)),
            ));
        }
    }
    Json::Object(o)
}

/// The arguments with which the machine makes a request.
pub fn build_vm_fetch_args(url: &str, options: &VmFetchOptions) -> (r: Vec<Json>)
    requires
        options.wf(),
    ensures
        json::json_views(r@) == fetch_args(url@, *options),
{
    let mut o: Vec<(String, Json)> = Vec::new();
    match &options.method {
        Some(m) => {
            json::put(&mut o, "method", Json::Str(m.clone()));
        },
        None => {},
    }
    match &options.headers {
        Some(h) => {
            json::put(&mut o, "headers", headers_object(h));
        },
        None => {},
    }
    match &options.body {
        Some(b) => {
            json::put(&mut o, "body", Json::Str(b.clone()));
        },
        None => {},
    }
    proof {
        assert(json::member_views(o@) =~= fetch_members(*options));
    }
    if options.is_empty() {
        json::list1(json::string(url))
    } else {
        json::list2(json::string(url), Json::Object(o))
    }
}

} // verus!
