//! JSON values as plain data.

use vstd::prelude::*;
use vstd::string::*;
use crate::text;

verus! {

/// A JSON number: an integer where it is one, else its text.
#[derive(Clone, PartialEq, Eq, Debug)]
pub enum JsonNumber {
    Unsigned(u64),
    Negative(i64),
    Float(String),
}

/// A JSON value. An object that was read holds its members in order of their
/// keys, each key once.
#[derive(PartialEq, Eq, Debug)]
pub enum Json {
    Null,
    Bool(bool),
    Number(JsonNumber),
    Str(String),
    Array(Vec<Json>),
    Object(Vec<(String, Json)>),
}

/// The model of a JSON number.
#[verifier::ext_equal]
pub enum NumberView {
    Unsigned(u64),
    Negative(i64),
    Float(Seq<char>),
}

/// The model of a JSON value.
#[verifier::ext_equal]
pub enum JsonView {
    Null,
    Bool(bool),
    Number(NumberView),
    Str(Seq<char>),
    Array(Seq<JsonView>),
    Object(Seq<(Seq<char>, JsonView)>),
}

impl View for JsonNumber {
    type V = NumberView;

    open spec fn view(&self) -> NumberView {
        match *self {
            JsonNumber::Unsigned(n) => NumberView::Unsigned(n),
            JsonNumber::Negative(n) => NumberView::Negative(n),
            JsonNumber::Float(t) => NumberView::Float(t@),
        }
    }
}

/// The model of a value.
pub open spec fn json_view(v: Json) -> JsonView
    decreases v,
{
    match v {
        Json::Null => JsonView::Null,
        Json::Bool(b) => JsonView::Bool(b),
        Json::Number(n) => JsonView::Number(n@),
        Json::Str(s) => JsonView::Str(s@),
        Json::Array(a) => JsonView::Array(json_views(a@)),
        Json::Object(o) => JsonView::Object(member_views(o@)),
    }
}

/// The models of a list of values.
pub open spec fn json_views(s: Seq<Json>) -> Seq<JsonView>
    decreases s,
{
    if s.len() == 0 {
        Seq::empty()
    } else {
        json_views(s.drop_last()).push(json_view(s.last()))
    }
}

/// The models of an object's members.
pub open spec fn member_views(s: Seq<(String, Json)>) -> Seq<(Seq<char>, JsonView)>
    decreases s,
{
    if s.len() == 0 {
        Seq::empty()
    } else {
        member_views(s.drop_last()).push((s.last().0@, json_view(s.last().1)))
    }
}

impl View for Json {
    type V = JsonView;

    open spec fn view(&self) -> JsonView {
        json_view(*self)
    }
}

pub proof fn lemma_json_views(s: Seq<Json>)
    ensures
        json_views(s).len() == s.len(),
        forall|i: int| 0 <= i < s.len() ==> #[trigger] json_views(s)[i] == s[i]@,
    decreases s.len(),
{
    if s.len() > 0 {
        lemma_json_views(s.drop_last());
        assert forall|i: int| 0 <= i < s.len() implies #[trigger] json_views(s)[i] == s[i]@ by {
            if i < s.len() - 1 {
                assert(s.drop_last()[i] == s[i]);
            }
        }
    }
}

pub proof fn lemma_member_views(s: Seq<(String, Json)>)
    ensures
        member_views(s).len() == s.len(),
        forall|i: int|
            0 <= i < s.len() ==> #[trigger] member_views(s)[i] == (s[i].0@, json_view(s[i].1)),
    decreases s.len(),
{
    if s.len() > 0 {
        lemma_member_views(s.drop_last());
        assert forall|i: int| 0 <= i < s.len() implies #[trigger] member_views(s)[i] == (
            s[i].0@,
            json_view(s[i].1),
        ) by {
            if i < s.len() - 1 {
                assert(s.drop_last()[i] == s[i]);
            }
        }
    }
}

impl Clone for Json {
    fn clone(&self) -> (r: Self)
        ensures
            r@ == self@,
        decreases self,
    {
        match self {
            Json::Null => Json::Null,
            Json::Bool(b) => Json::Bool(*b),
            Json::Number(n) => Json::Number(clone_number(n)),
            Json::Str(s) => Json::Str(s.clone()),
            Json::Array(a) => {
                let mut out: Vec<Json> = Vec::new();
                let mut i: usize = 0;
                while i < a.len()
                    invariant
                        i <= a@.len(),
                        *self == Json::Array(*a),
                        json_views(out@) == json_views(a@.take(i as int)),
                    decreases a@.len() - i,
                {
                    proof {
                        assert(decreases_to!(a@ => a@[i as int]));
                        assert(decreases_to!(*a => a@));
                        assert(decreases_to!(*self => self->Array_0));
                    }
                    let item = a[i].clone();
                    proof {
                        assert(a@.take(i as int + 1).drop_last() =~= a@.take(i as int));
                        assert(out@.push(item).drop_last() =~= out@);
                    }
                    out.push(item);
                    i += 1;
                }
                proof {
                    assert(a@.take(a@.len() as int) =~= a@);
                }
                Json::Array(out)
            },
            Json::Object(o) => {
                let mut out: Vec<(String, Json)> = Vec::new();
                let mut i: usize = 0;
                while i < o.len()
                    invariant
                        i <= o@.len(),
                        *self == Json::Object(*o),
                        member_views(out@) == member_views(o@.take(i as int)),
                    decreases o@.len() - i,
                {
                    proof {
                        assert(decreases_to!(o@ => o@[i as int]));
                        assert(decreases_to!(o@[i as int] => o@[i as int].1));
                        assert(decreases_to!(*o => o@));
                        assert(decreases_to!(*self => self->Object_0));
                    }
                    let item = (o[i].0.clone(), o[i].1.clone());
                    proof {
                        assert(o@.take(i as int + 1).drop_last() =~= o@.take(i as int));
                        assert(out@.push(item).drop_last() =~= out@);
                    }
                    out.push(item);
                    i += 1;
                }
                proof {
                    assert(o@.take(o@.len() as int) =~= o@);
                }
                Json::Object(out)
            },
        }
    }
}

fn clone_number(n: &JsonNumber) -> (r: JsonNumber)
    ensures
        r@ == n@,
{
    match n {
        JsonNumber::Unsigned(k) => JsonNumber::Unsigned(*k),
        JsonNumber::Negative(k) => JsonNumber::Negative(*k),
        JsonNumber::Float(t) => JsonNumber::Float(t.clone()),
    }
}

/// The position of the first member with this key, or the number of members.
pub open spec fn member_index(o: Seq<(Seq<char>, JsonView)>, key: Seq<char>) -> int
    decreases o.len(),
{
    if o.len() == 0 {
        0
    } else if o[0].0 == key {
        0
    } else {
        1 + member_index(o.skip(1), key)
    }
}

/// The member of an object with this key.
pub open spec fn member(v: JsonView, key: Seq<char>) -> Option<JsonView> {
    match v {
        JsonView::Object(o) => if member_index(o, key) < o.len() {
            Some(o[member_index(o, key)].1)
        } else {
            None
        },
        _ => None,
    }
}

pub proof fn lemma_member_index(o: Seq<(Seq<char>, JsonView)>, key: Seq<char>, i: int)
    requires
        0 <= i <= o.len(),
        forall|j: int| 0 <= j < i ==> (#[trigger] o[j]).0 != key,
        i < o.len() ==> o[i].0 == key,
    ensures
        member_index(o, key) == i,
    decreases o.len(),
{
    if i > 0 {
        assert(o[0].0 != key);
        let rest = o.skip(1);
        assert forall|j: int| 0 <= j < i - 1 implies (#[trigger] rest[j]).0 != key by {
            assert(rest[j] == o[j + 1]);
        }
        lemma_member_index(rest, key, i - 1);
    }
}

/// The view of an optional value.
pub open spec fn opt_json_view(o: Option<&Json>) -> Option<JsonView> {
    match o {
        Some(v) => Some(v@),
        None => None,
    }
}

/// The text of a string value.
pub open spec fn str_of(v: Option<JsonView>) -> Option<Seq<char>> {
    match v {
        Some(JsonView::Str(s)) => Some(s),
        _ => None,
    }
}

impl Json {
    /// The member of an object with this key.
    pub fn get(&self, key: &str) -> (r: Option<&Json>)
        ensures
            opt_json_view(r) == member(self@, key@),
            r matches Some(v) ==> decreases_to!(*self => *v),
    {
        match self {
            Json::Object(o) => {
                let ghost mv = member_views(o@);
                proof {
                    lemma_member_views(o@);
                }
                let mut i: usize = 0;
                while i < o.len()
                    invariant
                        i <= o@.len(),
                        *self == Json::Object(*o),
                        mv == member_views(o@),
                        mv.len() == o@.len(),
                        forall|j: int|
                            0 <= j < o@.len() ==> #[trigger] mv[j] == (o@[j].0@, json_view(o@[j].1)),
                        forall|j: int| 0 <= j < i ==> (#[trigger] mv[j]).0 != key@,
                    decreases o@.len() - i,
                {
                    if text::str_eq(o[i].0.as_str(), key) {
                        proof {
                            assert(mv[i as int].0 == key@);
                            lemma_member_index(mv, key@, i as int);
                            assert(decreases_to!(o@ => o@[i as int]));
                            assert(decreases_to!(o@[i as int] => o@[i as int].1));
                            assert(decreases_to!(*self => o@));
                        }
                        return Some(&o[i].1);
                    }
                    proof {
                        assert(mv[i as int].0 != key@);
                    }
                    i += 1;
                }
                proof {
                    lemma_member_index(mv, key@, o@.len() as int);
                }
                None
            },
            _ => None,
        }
    }

    /// The text of a string value.
    pub fn as_str(&self) -> (r: Option<&str>)
        ensures
            text::opt_str_view(r) == str_of(Some(self@)),
    {
        match self {
            Json::Str(s) => Some(s.as_str()),
            _ => None,
        }
    }

    /// The text of the string member with this key.
    pub fn get_str(&self, key: &str) -> (r: Option<&str>)
        ensures
            text::opt_str_view(r) == str_of(member(self@, key@)),
    {
        match self.get(key) {
            Some(v) => v.as_str(),
            None => None,
        }
    }
}

/// A string value.
pub fn string(s: &str) -> (r: Json)
    ensures
        r@ == JsonView::Str(s@),
{
    Json::Str(s.to_owned())
}

/// Puts a member behind the others.
pub fn put(members: &mut Vec<(String, Json)>, key: &str, value: Json)
    ensures
        member_views(final(members)@) == member_views(old(members)@).push((key@, value@)),
{
    members.push((key.to_owned(), value));
    proof {
        assert(members@.drop_last() =~= old(members)@);
    }
}

/// Puts a value behind the others.
pub fn append(values: &mut Vec<Json>, value: Json)
    ensures
        json_views(final(values)@) == json_views(old(values)@).push(value@),
{
    values.push(value);
    proof {
        assert(values@.drop_last() =~= old(values)@);
    }
}

/// An object with one member.
pub fn object1(key: &str, value: Json) -> (r: Json)
    ensures
        r@ == JsonView::Object(seq![(key@, value@)]),
{
    let mut o: Vec<(String, Json)> = Vec::new();
    put(&mut o, key, value);
    proof {
        assert(member_views(o@) =~= seq![(key@, value@)]);
    }
    Json::Object(o)
}

/// An object with two members.
pub fn object2(key1: &str, value1: Json, key2: &str, value2: Json) -> (r: Json)
    ensures
        r@ == JsonView::Object(seq![(key1@, value1@), (key2@, value2@)]),
{
    let mut o: Vec<(String, Json)> = Vec::new();
    put(&mut o, key1, value1);
    put(&mut o, key2, value2);
    proof {
        assert(member_views(o@) =~= seq![(key1@, value1@), (key2@, value2@)]);
    }
    Json::Object(o)
}

/// A list of one value.
pub fn list1(value: Json) -> (r: Vec<Json>)
    ensures
        json_views(r@) == seq![value@],
{
    let mut a: Vec<Json> = Vec::new();
    append(&mut a, value);
    proof {
        assert(json_views(a@) =~= seq![value@]);
    }
    a
}

/// A list of two values.
pub fn list2(value1: Json, value2: Json) -> (r: Vec<Json>)
    ensures
        json_views(r@) == seq![value1@, value2@],
{
    let mut a: Vec<Json> = Vec::new();
    append(&mut a, value1);
    append(&mut a, value2);
    proof {
        assert(json_views(a@) =~= seq![value1@, value2@]);
    }
    a
}

/// An array of texts.
pub open spec fn string_array(v: Seq<Seq<char>>) -> JsonView {
    JsonView::Array(Seq::new(v.len(), |i: int| JsonView::Str(v[i])))
}

/// An array of texts.
pub fn strings(v: &Vec<String>) -> (r: Json)
    ensures
        r@ == string_array(text::views(v@)),
{
    let mut a: Vec<Json> = Vec::new();
    let mut i: usize = 0;
    while i < v.len()
        invariant
            i <= v@.len(),
            json_views(a@) == Seq::new(i as nat, |j: int| JsonView::Str(text::views(v@)[j])),
        decreases v@.len() - i,
    {
        append(&mut a, Json::Str(v[i].clone()));
        i += 1;
        proof {
            assert(json_views(a@) =~= Seq::new(
                i as nat,
                |j: int| JsonView::Str(text::views(v@)[j]),
            ));
        }
    }
    Json::Array(a)
}

/// An unsigned number.
pub fn unsigned(n: u64) -> (r: Json)
    ensures
        r@ == JsonView::Number(NumberView::Unsigned(n)),
{
    Json::Number(JsonNumber::Unsigned(n))
}

/// A value of `serde_json`.
#[verifier::external_type_specification]
#[verifier::external_body]
pub struct ExValue(serde_json::Value);

/// The members and items of a `serde_json` value, one for one.
#[verifier::external_body]
fn from_value(v: serde_json::Value) -> Json {
    match v {
        serde_json::Value::Null => Json::Null,
        serde_json::Value::Bool(b) => Json::Bool(b),
        serde_json::Value::Number(n) => Json::Number(match (n.as_u64(), n.as_i64()) {
            (Some(k), _) => JsonNumber::Unsigned(k),
            (_, Some(k)) => JsonNumber::Negative(k),
            _ => JsonNumber::Float(n.to_string()),
        }),
        serde_json::Value::String(s) => Json::Str(s),
        serde_json::Value::Array(a) => Json::Array(a.into_iter().map(from_value).collect()),
        serde_json::Value::Object(o) => Json::Object(
            o.into_iter().map(|m| (m.0, from_value(m.1))).collect()),
    }
}

/// The `serde_json` value with these members and items, one for one. A number
/// that is no integer goes by its text.
#[verifier::external_body]
fn to_value(v: &Json) -> serde_json::Value {
    match v {
        Json::Null => serde_json::Value::Null,
        Json::Bool(b) => serde_json::Value::Bool(*b),
        Json::Number(JsonNumber::Unsigned(k)) => serde_json::Value::from(*k),
        Json::Number(JsonNumber::Negative(k)) => serde_json::Value::from(*k),
        Json::Number(JsonNumber::Float(t)) => serde_json::from_str(t).unwrap_or_default(),
        Json::Str(s) => serde_json::Value::String(s.clone()),
        Json::Array(a) => serde_json::Value::Array(a.iter().map(to_value).collect()),
        Json::Object(o) => serde_json::Value::Object(
            o.iter().map(|m| (m.0.clone(), to_value(&m.1))).collect()),
    }
}

/// What `serde_json::from_str` makes of a text: the value, or the message of
/// its error.
pub uninterp spec fn parsed_json(text: Seq<char>) -> Result<JsonView, Seq<char>>;

/// `serde_json::from_str` reads a text as a JSON value.
#[verifier::external_body]
pub(crate) fn parse(text: &str) -> (r: Result<Json, String>)
    ensures
        match r {
            Ok(v) => parsed_json(text@) == Ok::<JsonView, Seq<char>>(v@),
            Err(e) => parsed_json(text@) == Err::<JsonView, Seq<char>>(e@),
        },
{
    match serde_json::from_str::<serde_json::Value>(text) {
        Ok(v) => Ok(from_value(v)),
        Err(e) => Err(e.to_string()),
    }
}

/// What `serde_json::from_slice` makes of bytes: the value, or the message of
/// its error.
pub uninterp spec fn parsed_json_bytes(bytes: Seq<u8>) -> Result<JsonView, Seq<char>>;

/// `serde_json::from_slice` reads bytes as a JSON value.
#[verifier::external_body]
pub(crate) fn parse_bytes(bytes: &[u8]) -> (r: Result<Json, String>)
    ensures
        match r {
            Ok(v) => parsed_json_bytes(bytes@) == Ok::<JsonView, Seq<char>>(v@),
            Err(e) => parsed_json_bytes(bytes@) == Err::<JsonView, Seq<char>>(e@),
        },
{
    match serde_json::from_slice::<serde_json::Value>(bytes) {
        Ok(v) => Ok(from_value(v)),
        Err(e) => Err(e.to_string()),
    }
}

/// Whether a value is as a text gives it: its numbers are integers, the members
/// of each object stand in order of their keys, each key once, and it is nested
/// at most `depth` deep.
pub open spec fn plain(v: JsonView, depth: nat) -> bool
    decreases v,
{
    match v {
        JsonView::Number(NumberView::Negative(k)) => k < 0,
        JsonView::Number(NumberView::Float(_)) => false,
        JsonView::Array(items) => depth > 0 && forall|i: int|
            0 <= i < items.len() ==> plain(#[trigger] items[i], (depth - 1) as nat),
        JsonView::Object(members) => depth > 0 && (forall|i: int, j: int|
            0 <= i < j < members.len() ==> text::lex_lt(
                (#[trigger] members[i]).0,
                (#[trigger] members[j]).0,
            )) && forall|i: int|
            0 <= i < members.len() ==> plain((#[trigger] members[i]).1, (depth - 1) as nat),
        _ => true,
    }
}

/// How deep a text may be nested that `serde_json` reads.
pub const MAX_DEPTH: usize = 127;

/// Whether a value is as a text gives it that `serde_json` reads.
pub open spec fn readable(v: JsonView) -> bool {
    plain(v, MAX_DEPTH as nat)
}

/// Whether `serde_json::from_str` makes this value of a text.
pub open spec fn reads_as(text: Seq<char>, v: JsonView) -> bool {
    parsed_json(text) matches Ok(w) && w == v
}

/// The compact JSON text that `serde_json` gives a value.
pub uninterp spec fn rendered_json(v: JsonView) -> Seq<char>;

/// `Value::to_string` of `serde_json` writes a value as compact JSON. Of one
/// that is as a text gives it, `serde_json::from_str` gives the value back.
#[verifier::external_body]
pub(crate) fn render(v: &Json) -> (r: String)
    ensures
        r@ == rendered_json(v@),
        readable(v@) ==> reads_as(r@, v@),
{
    to_value(v).to_string()
}

} // verus!
