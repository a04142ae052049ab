//! JSON documents, read with serde_json and held as a `Json` value of this
//! library, whose members the logic looks up with verified accessors.

use vstd::prelude::*;
use crate::text::same_text;

verus! {

#[verifier::external_type_specification]
#[verifier::external_body]
pub struct ExJsonValue(serde_json::Value);

/// A JSON document. A number is kept as the `u64` it is when it is an
/// integer that fits one, and as `None` otherwise; an object keeps its
/// members in the order serde_json's map gives them, each key once.
#[derive(Debug)]
pub enum Json {
    Null,
    Bool(bool),
    Number(Option<u64>),
    Text(String),
    Array(Vec<Json>),
    Object(Vec<(String, Json)>),
}

/// A JSON document as plain values.
pub enum JsonView {
    Null,
    Bool(bool),
    Number(Option<u64>),
    Text(Seq<char>),
    Array(Seq<JsonView>),
    Object(Seq<(Seq<char>, JsonView)>),
}

/// The plain value of a document.
pub open spec fn json_model(j: Json) -> JsonView
    decreases j,
{
    match j {
        Json::Null => JsonView::Null,
        Json::Bool(b) => JsonView::Bool(b),
        Json::Number(n) => JsonView::Number(n),
        Json::Text(s) => JsonView::Text(s@),
        Json::Array(items) => {
            proof {
                assert(decreases_to!(j => items@));
            }
            JsonView::Array(items_model(items@))
        },
        Json::Object(members) => {
            proof {
                assert(decreases_to!(j => members@));
            }
            JsonView::Object(members_model(members@))
        },
    }
}

/// The plain values of the items of an array.
pub open spec fn items_model(items: Seq<Json>) -> Seq<JsonView>
    decreases items,
{
    if items.len() == 0 {
        seq![]
    } else {
        proof {
            assert(decreases_to!(items => items.drop_last()));
            assert(decreases_to!(items => items[items.len() - 1]));
        }
        items_model(items.drop_last()).push(json_model(items[items.len() - 1]))
    }
}

/// The plain values of the members of an object.
pub open spec fn members_model(members: Seq<(String, Json)>) -> Seq<(Seq<char>, JsonView)>
    decreases members,
{
    if members.len() == 0 {
        seq![]
    } else {
        proof {
            assert(decreases_to!(members => members.drop_last()));
            assert(decreases_to!(members => members[members.len() - 1]));
            assert(decreases_to!(members[members.len() - 1] => members[members.len() - 1].1));
        }
        members_model(members.drop_last()).push(
            (members[members.len() - 1].0@, json_model(members[members.len() - 1].1)),
        )
    }
}

/// The plain values of an array's items are those of each item, in order.
pub proof fn lemma_items_model(items: Seq<Json>)
    ensures
        items_model(items).len() == items.len(),
        forall|k: int| 0 <= k < items.len() ==> #[trigger] items_model(items)[k] == json_model(items[k]),
    decreases items.len(),
{
    if items.len() > 0 {
        lemma_items_model(items.drop_last());
        assert forall|k: int| 0 <= k < items.len() implies #[trigger] items_model(items)[k] == json_model(
            items[k],
        ) by {
            if k < items.len() - 1 {
                assert(items.drop_last()[k] == items[k]);
            }
        }
    }
}

/// The plain values of an object's members are those of each member, in
/// order.
pub proof fn lemma_members_model(members: Seq<(String, Json)>)
    ensures
        members_model(members).len() == members.len(),
        forall|k: int|
            0 <= k < members.len() ==> #[trigger] members_model(members)[k] == (
                members[k].0@,
                json_model(members[k].1),
            ),
    decreases members.len(),
{
    if members.len() > 0 {
        lemma_members_model(members.drop_last());
        assert forall|k: int| 0 <= k < members.len() implies #[trigger] members_model(members)[k] == (
            members[k].0@,
            json_model(members[k].1),
        ) by {
            if k < members.len() - 1 {
                assert(members.drop_last()[k] == members[k]);
            }
        }
    }
}

impl View for Json {
    type V = JsonView;

    open spec fn view(&self) -> JsonView {
        json_model(*self)
    }
}

/// The document that `text` holds, as serde_json reads it; none when
/// serde_json refuses the text.
pub uninterp spec fn json_document(text: Seq<char>) -> Option<JsonView>;

/// A serde_json value as a `Json` document: each variant becomes the
/// variant of the same name, numbers through `Number::as_u64`, arrays and
/// objects item by item in their order.
#[verifier::external_body]
fn json_from_value(v: serde_json::Value) -> Json {
    match v {
        serde_json::Value::Null => Json::Null,
        serde_json::Value::Bool(b) => Json::Bool(b),
        serde_json::Value::Number(n) => Json::Number(n.as_u64()),
        serde_json::Value::String(s) => Json::Text(s),
        serde_json::Value::Array(a) => Json::Array(a.into_iter().map(json_from_value).collect()),
        serde_json::Value::Object(m) => Json::Object(
            m.into_iter().map(|(k, x)| (k, json_from_value(x))).collect(),
        ),
    }
}

/// `serde_json::from_str::<serde_json::Value>`: the document that `text`
/// holds, none when serde_json refuses it. Claimed: the result depends on
/// the text alone, under the name `json_document`.
#[verifier::external_body]
pub(crate) fn parse_json(text: &str) -> (r: Option<Json>)
    ensures
        match r {
            Some(j) => json_document(text@) == Some(j@),
            None => json_document(text@) is None,
        },
{
    match serde_json::from_str::<serde_json::Value>(text) {
        Ok(v) => Some(json_from_value(v)),
        Err(_) => None,
    }
}

/// The value of the first member named `key`, when the document is an
/// object that has one.
pub open spec fn member_in(members: Seq<(Seq<char>, JsonView)>, key: Seq<char>) -> Option<JsonView>
    decreases members.len(),
{
    if members.len() == 0 {
        None
    } else if members[0].0 == key {
        Some(members[0].1)
    } else {
        member_in(members.drop_first(), key)
    }
}

/// The member named `key` of a document, when it is an object that has
/// one, as `Value::get` gives it.
pub open spec fn member(doc: JsonView, key: Seq<char>) -> Option<JsonView> {
    match doc {
        JsonView::Object(members) => member_in(members, key),
        _ => None,
    }
}

/// The text of a document that is a string, as `Value::as_str` gives it.
pub open spec fn text_of(doc: Option<JsonView>) -> Option<Seq<char>> {
    match doc {
        Some(JsonView::Text(s)) => Some(s),
        _ => None,
    }
}

/// The number of a document that is an integer fitting a `u64`, as
/// `Value::as_u64` gives it.
pub open spec fn u64_of(doc: Option<JsonView>) -> Option<u64> {
    match doc {
        Some(JsonView::Number(n)) => n,
        _ => None,
    }
}

/// The member named `key`, when the document is an object that has one.
pub fn json_member<'a>(doc: &'a Json, key: &str) -> (r: Option<&'a Json>)
    ensures
        match r {
            Some(v) => member(doc@, key@) == Some(v@),
            None => member(doc@, key@) is None,
        },
{
    match doc {
        Json::Object(members) => {
            let ghost ms = members_model(members@);
            proof {
                lemma_members_model(members@);
            }
            assert(doc@ == JsonView::Object(ms));
            let mut i: usize = 0;
            assert(ms.skip(0) =~= ms);
            while i < members.len()
                invariant
                    i <= members.len(),
                    ms.len() == members.len(),
                    forall|k: int| 0 <= k < ms.len() ==> #[trigger] ms[k] == (members@[k].0@, json_model(members@[k].1)),
                    member_in(ms, key@) == member_in(ms.skip(i as int), key@),
                    doc@ == JsonView::Object(ms),
                decreases members.len() - i,
            {
                let ghost rest = ms.skip(i as int);
                assert(rest[0] == ms[i as int]);
                assert(rest.drop_first() =~= ms.skip(i + 1));
                if same_text(members[i].0.as_str(), key) {
                    assert(member_in(rest, key@) == Some(json_model(members@[i as int].1)));
                    return Some(&members[i].1);
                }
                i = i + 1;
            }
            assert(ms.skip(i as int) =~= Seq::<(Seq<char>, JsonView)>::empty());
            None
        },
        _ => None,
    }
}

/// The text, when the document is a string.
pub fn json_text(doc: &Json) -> (r: Option<String>)
    ensures
        match r {
            Some(s) => text_of(Some(doc@)) == Some(s@),
            None => text_of(Some(doc@)) is None,
        },
{
    match doc {
        Json::Text(s) => Some(s.clone()),
        _ => None,
    }
}

/// The number, when the document is an integer that fits a `u64`.
pub fn json_u64(doc: &Json) -> (r: Option<u64>)
    ensures
        r == u64_of(Some(doc@)),
{
    match doc {
        Json::Number(n) => *n,
        _ => None,
    }
}

/// The items, when the document is an array.
pub fn json_items(doc: &Json) -> (r: Option<&Vec<Json>>)
    ensures
        match r {
            Some(items) => doc@ == JsonView::Array(items_model(items@)),
            None => !(doc@ is Array),
        },
{
    match doc {
        Json::Array(items) => {
            Some(items)
        },
        _ => None,
    }
}

} // verus!
