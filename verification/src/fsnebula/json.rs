//! JSON values. A number that is not whole is carried as it is written.
//! An object is read as a map from keys to values, so that the order of its
//! members does not matter and the last of equal keys counts.

use vstd::prelude::*;
use crate::paths::same_text;

verus! {

/// A JSON value.
#[derive(Debug, PartialEq, Eq)]
pub enum Json {
    Null,
    Bool(bool),
    Int(i64),
    /// A number that is no `i64`, as it is written.
    Decimal(String),
    Text(String),
    List(Vec<Json>),
    Object(Vec<Member>),
}

/// A member of an object.
#[derive(Debug, PartialEq, Eq)]
pub struct Member {
    pub key: String,
    pub value: Json,
}

/// What a JSON value holds.
pub enum JsonView {
    Null,
    Bool(bool),
    Int(i64),
    Decimal(Seq<char>),
    Text(Seq<char>),
    List(Seq<JsonView>),
    Object(Map<Seq<char>, JsonView>),
}

/// What a value holds.
pub open spec fn json_view(json: Json) -> JsonView
    decreases json, 0nat,
{
    match json {
        Json::Null => JsonView::Null,
        Json::Bool(b) => JsonView::Bool(b),
        Json::Int(i) => JsonView::Int(i),
        Json::Decimal(d) => JsonView::Decimal(d@),
        Json::Text(s) => JsonView::Text(s@),
        Json::List(items) => JsonView::List(list_view(items@)),
        Json::Object(members) => JsonView::Object(members_view(members@)),
    }
}

/// What the values of a list hold, in order.
pub open spec fn list_view(items: Seq<Json>) -> Seq<JsonView>
    decreases items, 0nat,
{
    if items.len() == 0 {
        Seq::empty()
    } else {
        list_view(items.drop_last()).push(json_view(items.last()))
    }
}

/// What the members of an object hold: for each key the value of the last
/// member that has it.
pub open spec fn members_view(members: Seq<Member>) -> Map<Seq<char>, JsonView>
    decreases members, 0nat,
{
    if members.len() == 0 {
        Map::empty()
    } else {
        members_view(members.drop_last()).insert(
            members.last().key@,
            json_view(members.last().value),
        )
    }
}

impl View for Json {
    type V = JsonView;

    open spec fn view(&self) -> JsonView {
        json_view(*self)
    }
}

/// The views of a list of values stand at the places of the values.
pub proof fn lemma_list_view_index(items: Seq<Json>)
    ensures
        list_view(items).len() == items.len(),
        forall|i: int| 0 <= i < items.len() ==> #[trigger] list_view(items)[i] == items[i]@,
    decreases items.len(),
{
    if items.len() > 0 {
        lemma_list_view_index(items.drop_last());
    }
}

/// The member `key` of an object, and `Null` where the value is no object
/// or has no such member.
pub open spec fn field(json: JsonView, key: Seq<char>) -> JsonView {
    match json {
        JsonView::Object(members) => if members.dom().contains(key) {
            members[key]
        } else {
            JsonView::Null
        },
        _ => JsonView::Null,
    }
}

/// The items of a list, and none where the value is no list.
pub open spec fn items(json: JsonView) -> Seq<JsonView> {
    match json {
        JsonView::List(items) => items,
        _ => Seq::empty(),
    }
}

/// The text of a value, and the empty text where the value is no text.
pub open spec fn text(json: JsonView) -> Seq<char> {
    match json {
        JsonView::Text(t) => t,
        _ => Seq::empty(),
    }
}

/// The value of the last member called `key`, if there is one.
fn member<'a>(members: &'a Vec<Member>, key: &str) -> (found: Option<&'a Json>)
    ensures
        found is Some <==> members_view(members@).dom().contains(key@),
        found matches Some(value) ==> value@ == members_view(members@)[key@],
{
    let count = members.len();
    let mut upto: usize = count;
    assert(members@.take(count as int) == members@);
    while upto > 0
        invariant
            upto <= count == members@.len(),
            members_view(members@).dom().contains(key@) <==> members_view(
                members@.take(upto as int),
            ).dom().contains(key@),
            members_view(members@).dom().contains(key@) ==> members_view(members@)[key@]
                == members_view(members@.take(upto as int))[key@],
        decreases upto,
    {
        let ghost seen = members@.take(upto as int);
        assert(seen.drop_last() == members@.take(upto - 1));
        assert(seen.last() == members@[upto - 1]);
        if same_text(members[upto - 1].key.as_str(), key) {
            return Some(&members[upto - 1].value);
        }
        upto = upto - 1;
    }
    assert(members@.take(0).len() == 0);
    None
}

impl Json {
    /// The member `key` of this object. `None` where this is no object or
    /// has no such member.
    pub fn get<'a>(&'a self, key: &str) -> (found: Option<&'a Json>)
        ensures
            field(self@, key@) == match found {
                Some(value) => value@,
                None => JsonView::Null,
            },
    {
        match self {
            Json::Object(members) => member(members, key),
            _ => None,
        }
    }

    /// The text that this value is, if it is one.
    pub fn as_text(&self) -> (found: Option<&String>)
        ensures
            found is Some <==> self@ is Text,
            found matches Some(t) ==> t@ == text(self@),
    {
        match self {
            Json::Text(t) => Some(t),
            _ => None,
        }
    }

    /// The truth value that this value is, if it is one.
    pub fn as_bool(&self) -> (found: Option<bool>)
        ensures
            found is Some <==> self@ is Bool,
            found matches Some(b) ==> self@ == JsonView::Bool(b),
    {
        match self {
            Json::Bool(b) => Some(*b),
            _ => None,
        }
    }

    /// The whole number that this value is, if it is one.
    pub fn as_int(&self) -> (found: Option<i64>)
        ensures
            found is Some <==> self@ is Int,
            found matches Some(i) ==> self@ == JsonView::Int(i),
    {
        match self {
            Json::Int(i) => Some(*i),
            _ => None,
        }
    }

    /// The items of this list, if it is one.
    pub fn as_list(&self) -> (found: Option<&Vec<Json>>)
        ensures
            found is Some <==> self@ is List,
            found matches Some(list) ==> list_view(list@) == items(self@),
    {
        match self {
            Json::List(list) => Some(list),
            _ => None,
        }
    }
}

} // verus!
