//! JSON documents as plain values: each node keeps its kind, its strings and
//! its members, and the compact text `serde_json` writes for it.
use vstd::prelude::*;

verus! {

#[verifier::external_type_specification]
#[verifier::external_body]
pub struct ExJsonValue(serde_json::Value);

/// What a JSON node is.  A number is known by its compact text alone.
#[derive(Debug)]
pub enum Json {
    Null,
    Bool(bool),
    Number,
    Str(String),
    Array(Vec<JsonNode>),
    Object(Vec<JsonMember>),
}

/// One member of a JSON object.
#[derive(Debug)]
pub struct JsonMember {
    pub key: String,
    pub value: JsonNode,
}

/// A JSON node and its compact text.
#[derive(Debug)]
pub struct JsonNode {
    pub json: Json,
    pub compact: String,
}

/// The mathematical value of a JSON node's kind.
pub enum JsonView {
    Null,
    Bool(bool),
    Number,
    Str(Seq<char>),
    Array(Seq<JsonNodeView>),
    Object(Seq<(Seq<char>, JsonNodeView)>),
}

/// The mathematical value of a JSON node.
pub struct JsonNodeView {
    pub json: JsonView,
    pub compact: Seq<char>,
}

impl JsonNode {
    /// The node as plain values.
    pub open spec fn node_view(self) -> JsonNodeView
        decreases self,
    {
        JsonNodeView {
            json: match self.json {
                Json::Null => JsonView::Null,
                Json::Bool(b) => JsonView::Bool(b),
                Json::Number => JsonView::Number,
                Json::Str(s) => JsonView::Str(s@),
                Json::Array(items) => JsonView::Array(
                    Seq::new(
                        items@.len(),
                        |i: int|
                            if 0 <= i < items@.len() {
                                items@[i].node_view()
                            } else {
                                JsonNodeView { json: JsonView::Null, compact: Seq::empty() }
                            },
                    ),
                ),
                Json::Object(members) => JsonView::Object(
                    Seq::new(
                        members@.len(),
                        |i: int|
                            if 0 <= i < members@.len() {
                                (members@[i].key@, members@[i].value.node_view())
                            } else {
                                (Seq::empty(), JsonNodeView { json: JsonView::Null, compact: Seq::empty() })
                            },
                    ),
                ),
            },
            compact: self.compact@,
        }
    }
}

/// A parsed document as plain values.
pub open spec fn json_opt_view(v: Option<JsonNode>) -> Option<JsonNodeView> {
    match v {
        Some(n) => Some(n.node_view()),
        None => None,
    }
}

/// The document `serde_json::from_str::<serde_json::Value>` reads from a
/// text, `None` when the text is not JSON.
pub uninterp spec fn spec_parse_json(text: Seq<char>) -> Option<JsonNodeView>;

/// `serde_json::from_str::<serde_json::Value>`: the contract names the
/// document it reads.
#[verifier::external_body]
pub(crate) fn parse_json(text: &str) -> (r: Option<JsonNode>)
    ensures
        json_opt_view(r) == spec_parse_json(text@),
{
    let value: serde_json::Value = serde_json::from_str(text).ok()?;
    Some(json_node(&value))
}

/// A `serde_json::Value` as a node of plain values, one variant for one
/// variant, each node with its compact text (`Value::to_string`).  Nothing is
/// stated of it: `parse_json` names the document as a whole.
#[verifier::external_body]
fn json_node(value: &serde_json::Value) -> JsonNode {
    let json = match value {
        serde_json::Value::Null => Json::Null,
        serde_json::Value::Bool(b) => Json::Bool(*b),
        serde_json::Value::Number(_) => Json::Number,
        serde_json::Value::String(s) => Json::Str(s.clone()),
        serde_json::Value::Array(items) => Json::Array(items.iter().map(json_node).collect()),
        serde_json::Value::Object(members) => Json::Object(
            members.iter().map(|(k, v)| JsonMember { key: k.clone(), value: json_node(v) }).collect(),
        ),
    };
    JsonNode { json, compact: value.to_string() }
}

/// The value of the first member named `key` among `ms`.
pub open spec fn member_in(ms: Seq<(Seq<char>, JsonNodeView)>, key: Seq<char>) -> Option<JsonNodeView>
    decreases ms.len(),
{
    if ms.len() == 0 {
        None
    } else if ms[0].0 == key {
        Some(ms[0].1)
    } else {
        member_in(ms.drop_first(), key)
    }
}

/// The value of the member named `key` of an object (`Value::get`); `None`
/// for a node that is not an object or has no such member.
pub open spec fn member(v: JsonNodeView, key: Seq<char>) -> Option<JsonNodeView> {
    match v.json {
        JsonView::Object(ms) => member_in(ms, key),
        _ => None,
    }
}

/// The string of a string node (`Value::as_str`).
pub open spec fn as_str(v: JsonNodeView) -> Option<Seq<char>> {
    match v.json {
        JsonView::Str(s) => Some(s),
        _ => None,
    }
}

/// Looks up the first member named `key` of an object node.
pub fn get_member<'a>(v: &'a JsonNode, key: &str) -> (r: Option<&'a JsonNode>)
    ensures
        json_opt_view(match r { Some(n) => Some(*n), None => None }) == member(v.node_view(), key@),
{
    match &v.json {
        Json::Object(members) => {
            let ghost ms = v.node_view().json->Object_0;
            assert(ms.len() == members@.len());
            assert(member(v.node_view(), key@) == member_in(ms, key@));
            let mut i: usize = 0;
            assert(ms.skip(0) =~= ms);
            while i < members.len()
                invariant
                    i <= members.len(),
                    ms.len() == members@.len(),
                    forall|k: int|
                        0 <= k < members@.len() ==> (#[trigger] ms[k]) == (
                            members@[k].key@,
                            members@[k].value.node_view(),
                        ),
                    member_in(ms, key@) == member_in(ms.skip(i as int), key@),
                    member(v.node_view(), key@) == member_in(ms, key@),
                decreases members.len() - i,
            {
                assert(ms.skip(i as int)[0] == ms[i as int]);
                assert(ms.skip(i as int).drop_first() =~= ms.skip(i as int + 1));
                if crate::text::str_eq(members[i].key.as_str(), key) {
                    assert(ms[i as int] == (members@[i as int].key@, members@[i as int].value.node_view()));
                    assert(member_in(ms.skip(i as int), key@) == Some(ms[i as int].1));
                    let found = &members[i].value;
                    assert(json_opt_view(Some(*found)) == Some(ms[i as int].1));
                    return Some(found);
                }
                i = i + 1;
            }
            assert(ms.skip(members.len() as int).len() == 0);
            None
        },
        _ => None,
    }
}

} // verus!
