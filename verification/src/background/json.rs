//! JSON values.

use vstd::prelude::*;

use crate::text::same_text;

verus! {

/// A JSON value. A number is kept as its text; an object is a list of members.
#[derive(Debug)]
pub enum JsonValue {
    Null,
    Bool(bool),
    Number(String),
    Text(String),
    List(Vec<JsonValue>),
    Object(Vec<(String, JsonValue)>),
}

/// What a JSON value holds.
#[verifier::ext_equal]
pub enum JsonView {
    Null,
    Bool(bool),
    Number(Seq<char>),
    Text(Seq<char>),
    List(Seq<JsonView>),
    Object(Seq<(Seq<char>, JsonView)>),
}

/// What a JSON value holds.
pub open spec fn json_view(v: JsonValue) -> JsonView
    decreases v,
{
    match v {
        JsonValue::Null => JsonView::Null,
        JsonValue::Bool(b) => JsonView::Bool(b),
        JsonValue::Number(t) => JsonView::Number(t@),
        JsonValue::Text(t) => JsonView::Text(t@),
        JsonValue::List(items) => JsonView::List(list_view(items@)),
        JsonValue::Object(members) => JsonView::Object(members_view(members@)),
    }
}

/// What the values of a list hold.
pub open spec fn list_view(items: Seq<JsonValue>) -> Seq<JsonView>
    decreases items,
{
    if items.len() == 0 {
        Seq::empty()
    } else {
        list_view(items.drop_last()).push(json_view(items.last()))
    }
}

/// What the members of an object hold.
pub open spec fn members_view(members: Seq<(String, JsonValue)>) -> Seq<(Seq<char>, JsonView)>
    decreases members,
{
    if members.len() == 0 {
        Seq::empty()
    } else {
        members_view(members.drop_last()).push((members.last().0@, json_view(members.last().1)))
    }
}

impl View for JsonValue {
    type V = JsonView;

    open spec fn view(&self) -> JsonView {
        json_view(*self)
    }
}

/// The first member of a list with the given name.
pub open spec fn find_member(members: Seq<(Seq<char>, JsonView)>, name: Seq<char>) -> Option<
    JsonView,
>
    decreases members.len(),
{
    if members.len() == 0 {
        None
    } else if members[0].0 == name {
        Some(members[0].1)
    } else {
        find_member(members.drop_first(), name)
    }
}

/// The member of an object; `None` if there is none, or if the value is no object.
pub open spec fn member(v: JsonView, name: Seq<char>) -> Option<JsonView> {
    match v {
        JsonView::Object(members) => find_member(members, name),
        _ => None,
    }
}

/// The text of a text value.
pub open spec fn text_of(v: Option<JsonView>) -> Option<Seq<char>> {
    match v {
        Some(JsonView::Text(t)) => Some(t),
        _ => None,
    }
}

/// The items of a list value, and none for any other value.
pub open spec fn items_of(v: Option<JsonView>) -> Seq<JsonView> {
    match v {
        Some(JsonView::List(items)) => items,
        _ => Seq::empty(),
    }
}

/// The view of a list, item by item.
pub proof fn lemma_list_view(items: Seq<JsonValue>)
    ensures
        list_view(items).len() == items.len(),
        forall|i: int|
            0 <= i < items.len() ==> #[trigger] list_view(items)[i] == json_view(items[i]),
    decreases items.len(),
{
    if items.len() > 0 {
        let rest = items.drop_last();
        lemma_list_view(rest);
        assert forall|i: int| 0 <= i < items.len() implies #[trigger] list_view(items)[i]
            == json_view(items[i]) by {
            if i < rest.len() {
                assert(list_view(rest)[i] == json_view(rest[i]));
            }
        }
    }
}

/// The view of an object, member by member.
pub proof fn lemma_members_view(members: Seq<(String, JsonValue)>)
    ensures
        members_view(members).len() == members.len(),
        forall|i: int|
            0 <= i < members.len() ==> #[trigger] members_view(members)[i] == (
                members[i].0@,
                json_view(members[i].1),
            ),
    decreases members.len(),
{
    if members.len() > 0 {
        let rest = members.drop_last();
        lemma_members_view(rest);
        assert forall|i: int| 0 <= i < members.len() implies #[trigger] members_view(members)[i]
            == (members[i].0@, json_view(members[i].1)) by {
            if i < rest.len() {
                assert(members_view(rest)[i] == (rest[i].0@, json_view(rest[i].1)));
            }
        }
    }
}

/// The view of two lists in a row.
pub proof fn lemma_list_view_concat(a: Seq<JsonValue>, b: Seq<JsonValue>)
    ensures
        list_view(a + b) == list_view(a) + list_view(b),
{
    lemma_list_view(a);
    lemma_list_view(b);
    lemma_list_view(a + b);
    assert(list_view(a + b) =~= list_view(a) + list_view(b));
}

/// A first match at `i`.
pub proof fn lemma_find_member(members: Seq<(Seq<char>, JsonView)>, name: Seq<char>, i: int)
    requires
        0 <= i <= members.len(),
        forall|k: int| 0 <= k < i ==> (#[trigger] members[k]).0 != name,
        i < members.len() ==> members[i].0 == name,
    ensures
        find_member(members, name) == if i < members.len() {
            Some(members[i].1)
        } else {
            None
        },
    decreases i,
{
    if i > 0 {
        assert(members[0].0 != name);
        let rest = members.drop_first();
        assert forall|k: int| 0 <= k < i - 1 implies (#[trigger] rest[k]).0 != name by {
            assert(rest[k] == members[k + 1]);
        }
        lemma_find_member(rest, name, i - 1);
    }
}

impl JsonValue {
    /// The member of an object.
    pub fn get(&self, name: &str) -> (found: Option<&JsonValue>)
        ensures
            match found {
                Some(v) => member(self@, name@) == Some(v@),
                None => member(self@, name@) is None,
            },
    {
        match self {
            JsonValue::Object(members) => {
                let ghost all = members_view(members@);
                let mut i: usize = 0;
                proof {
                    lemma_members_view(members@);
                }
                while i < members.len()
                    invariant
                        i <= members@.len(),
                        all == members_view(members@),
                        all.len() == members@.len(),
                        forall|k: int|
                            0 <= k < members@.len() ==> #[trigger] all[k] == (
                                members@[k].0@,
                                json_view(members@[k].1),
                            ),
                        forall|k: int| 0 <= k < i ==> (#[trigger] all[k]).0 != name@,
                        self@ == JsonView::Object(all),
                    decreases members@.len() - i,
                {
                    assert(all[i as int] == (
                        members@[i as int].0@,
                        json_view(members@[i as int].1),
                    ));
                    if same_text(members[i].0.as_str(), name) {
                        proof {
                            lemma_find_member(all, name@, i as int);
                        }
                        return Some(&members[i].1);
                    }
                    i = i + 1;
                }
                proof {
                    lemma_find_member(all, name@, i as int);
                }
                None
            },
            _ => None,
        }
    }

    /// The text of a text value.
    pub fn as_str(&self) -> (text: Option<&str>)
        ensures
            match text {
                Some(t) => self@ == JsonView::Text(t@),
                None => !(self@ is Text),
            },
    {
        match self {
            JsonValue::Text(t) => Some(t.as_str()),
            _ => None,
        }
    }

    /// The number of items of a list value; none for any other value.
    pub fn list_len(&self) -> (n: usize)
        ensures
            n == items_of(Some(self@)).len(),
    {
        match self {
            JsonValue::List(items) => {
                proof {
                    lemma_list_view(items@);
                }
                items.len()
            },
            _ => 0,
        }
    }
}

/// A copy of a list of values.
pub fn copy_list(items: &Vec<JsonValue>) -> (copy: Vec<JsonValue>)
    ensures
        list_view(copy@) == list_view(items@),
    decreases items@,
{
    let mut copy: Vec<JsonValue> = Vec::new();
    let mut i: usize = 0;
    while i < items.len()
        invariant
            i <= items@.len(),
            list_view(copy@) == list_view(items@.subrange(0, i as int)),
        decreases items@.len() - i,
    {
        let ghost before = copy@;
        let item: JsonValue = copy_json(&items[i]);
        copy.push(item);
        i = i + 1;
        proof {
            assert(copy@.drop_last() =~= before);
            let seen = items@.subrange(0, i as int);
            assert(seen.drop_last() =~= items@.subrange(0, i - 1));
            assert(seen.last() == items@[i - 1]);
        }
    }
    assert(items@.subrange(0, i as int) =~= items@);
    copy
}

/// A copy of a list of members.
fn copy_members(members: &Vec<(String, JsonValue)>) -> (copy: Vec<(String, JsonValue)>)
    ensures
        members_view(copy@) == members_view(members@),
    decreases members@,
{
    let mut copy: Vec<(String, JsonValue)> = Vec::new();
    let mut i: usize = 0;
    while i < members.len()
        invariant
            i <= members@.len(),
            members_view(copy@) == members_view(members@.subrange(0, i as int)),
        decreases members@.len() - i,
    {
        let ghost before = copy@;
        let value: JsonValue = copy_json(&members[i].1);
        copy.push((members[i].0.clone(), value));
        i = i + 1;
        proof {
            assert(copy@.drop_last() =~= before);
            let seen = members@.subrange(0, i as int);
            assert(seen.drop_last() =~= members@.subrange(0, i - 1));
            assert(seen.last() == members@[i - 1]);
        }
    }
    assert(members@.subrange(0, i as int) =~= members@);
    copy
}

/// A copy of a value.
pub fn copy_json(v: &JsonValue) -> (copy: JsonValue)
    ensures
        copy@ == v@,
    decreases *v,
{
    match v {
        JsonValue::Null => JsonValue::Null,
        JsonValue::Bool(b) => JsonValue::Bool(*b),
        JsonValue::Number(t) => JsonValue::Number(t.clone()),
        JsonValue::Text(t) => JsonValue::Text(t.clone()),
        JsonValue::List(items) => JsonValue::List(copy_list(items)),
        JsonValue::Object(members) => JsonValue::Object(copy_members(members)),
    }
}

/// A text value.
pub fn text_value(text: &str) -> (v: JsonValue)
    ensures
        v@ == JsonView::Text(text@),
{
    JsonValue::Text(text.to_owned())
}

/// Adds a member to a list of members.
pub fn push_member(members: &mut Vec<(String, JsonValue)>, name: &str, value: JsonValue)
    ensures
        members_view(final(members)@) == members_view(old(members)@).push((name@, value@)),
{
    let ghost before = members@;
    members.push((name.to_owned(), value));
    assert(members@.drop_last() =~= before);
}

/// Each value is seen for what it is: a truth value, a number and a text as they stand, a
/// list item by item, and an object member by member, in order.
pub proof fn law_value_is_seen_as_it_is(v: JsonValue)
    ensures
        v is Null <==> json_view(v) is Null,
        v matches JsonValue::Bool(b) ==> json_view(v) == JsonView::Bool(b),
        v matches JsonValue::Number(t) ==> json_view(v) == JsonView::Number(t@),
        v matches JsonValue::Text(t) ==> json_view(v) == JsonView::Text(t@),
        v matches JsonValue::List(items) ==> (json_view(v) matches JsonView::List(seen)
            && seen.len() == items@.len() && forall|i: int|
            0 <= i < items@.len() ==> #[trigger] seen[i] == json_view(items@[i])),
        v matches JsonValue::Object(members) ==> (json_view(v) matches JsonView::Object(seen)
            && seen.len() == members@.len() && forall|i: int|
            0 <= i < members@.len() ==> #[trigger] seen[i] == (
                members@[i].0@,
                json_view(members@[i].1),
            )),
{
    match v {
        JsonValue::List(items) => {
            lemma_list_view(items@);
        },
        JsonValue::Object(members) => {
            lemma_members_view(members@);
        },
        _ => {},
    }
}

/// A member is found exactly where one has the name, and of several the first is. What is
/// no object has no members.
pub proof fn law_first_member_of_a_name_is_found(v: JsonView, name: Seq<char>, i: int)
    ensures
        v matches JsonView::Object(members) ==> {
            &&& 0 <= i < members.len() && members[i].0 == name && (forall|k: int|
                0 <= k < i ==> (#[trigger] members[k]).0 != name) ==> member(v, name) == Some(
                members[i].1,
            )
            &&& (forall|k: int| 0 <= k < members.len() ==> (#[trigger] members[k]).0 != name)
                ==> member(v, name) is None
        },
        !(v is Object) ==> member(v, name) is None,
{
    if let JsonView::Object(members) = v {
        if 0 <= i < members.len() && members[i].0 == name && (forall|k: int|
            0 <= k < i ==> (#[trigger] members[k]).0 != name) {
            lemma_find_member(members, name, i);
        }
        if forall|k: int| 0 <= k < members.len() ==> (#[trigger] members[k]).0 != name {
            lemma_find_member(members, name, members.len() as int);
        }
    }
}

} // verus!
