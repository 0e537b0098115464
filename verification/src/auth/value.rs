//! Reading a JSON document of the `hotaru_core` crate.
use hotaru_core::Value;
use vstd::prelude::*;

verus! {

/// `hotaru_core::Value`, a JSON document.
#[verifier::external_type_specification]
#[verifier::external_body]
pub struct ExValue(Value);

/// The members of a document that is an object; nothing where it is not one.
pub uninterp spec fn dict_of(v: Value) -> Option<Map<Seq<char>, Value>>;

/// The elements of a document that is a list; nothing where it is not one.
pub uninterp spec fn list_of(v: Value) -> Option<Seq<Value>>;

/// The text of a document that is a text; nothing where it is not one.
pub uninterp spec fn text_of(v: Value) -> Option<Seq<char>>;

/// What a text stands for as a document, or why it is none.
pub uninterp spec fn document(text: Seq<char>) -> Result<Value, Seq<char>>;

pub open spec fn opt_value(v: Option<&Value>) -> Option<Value> {
    match v {
        Some(x) => Some(*x),
        None => None,
    }
}

/// The member of an object under a name.
pub open spec fn member(v: Value, name: Seq<char>) -> Option<Value> {
    match dict_of(v) {
        Some(m) => if m.contains_key(name) {
            Some(m[name])
        } else {
            None
        },
        None => None,
    }
}

pub open spec fn document_result(r: Result<Value, String>) -> Result<Value, Seq<char>> {
    match r {
        Ok(v) => Ok(v),
        Err(e) => Err(e@),
    }
}

/// `Value::from_json`: the document, or why the text is none.
#[verifier::external_body]
pub(crate) fn parse_document(text: &str) -> (r: Result<Value, String>)
    ensures
        document_result(r) == document(text@),
{
    Value::from_json(text)
}

/// `Value::Dict` of a new map: an object without members.
#[verifier::external_body]
pub(crate) fn empty_document() -> (r: Value)
    ensures
        dict_of(r) =~= Some(map![]),
{
    Value::Dict(Default::default())
}

/// The map of a `Value::Dict`, by `HashMap::get`: the member under a name.
#[verifier::external_body]
pub(crate) fn get<'a>(v: &'a Value, name: &str) -> (r: Option<&'a Value>)
    ensures
        opt_value(r) == member(*v, name@),
{
    match v {
        Value::Dict(m) => m.get(name),
        _ => None,
    }
}

/// The map of a `Value::Dict`, by `HashMap::iter`: every name with its member, once
/// each, in an order that is left open.
#[verifier::external_body]
pub(crate) fn members<'a>(v: &'a Value) -> (r: Vec<(&'a String, &'a Value)>)
    ensures
        dict_of(*v) is None ==> r@.len() == 0,
        dict_of(*v) matches Some(m) ==> lists_members(r@, m),
{
    match v {
        Value::Dict(m) => m.iter().collect(),
        _ => Vec::new(),
    }
}

/// Whether a list holds every member of an object once.
pub open spec fn lists_members(r: Seq<(&String, &Value)>, m: Map<Seq<char>, Value>) -> bool {
    &&& forall|i: int, j: int| 0 <= i < j < r.len() ==> (#[trigger] r[i]).0@ != (#[trigger] r[j]).0@
    &&& forall|i: int|
        #![trigger r[i]]
        0 <= i < r.len() ==> m.contains_key(r[i].0@) && m[r[i].0@] == *r[i].1
    &&& forall|k: Seq<char>| #[trigger]
        m.contains_key(k) ==> exists|i: int| 0 <= i < r.len() && (#[trigger] r[i]).0@ == k
}

/// The text of a `Value::Str`.
#[verifier::external_body]
pub(crate) fn as_text<'a>(v: &'a Value) -> (r: Option<&'a str>)
    ensures
        opt_text(r) == text_of(*v),
{
    match v {
        Value::Str(s) => Some(s.as_str()),
        _ => None,
    }
}

pub open spec fn opt_text(r: Option<&str>) -> Option<Seq<char>> {
    match r {
        Some(s) => Some(s@),
        None => None,
    }
}

/// The elements of a `Value::List`, in order.
#[verifier::external_body]
pub(crate) fn as_list<'a>(v: &'a Value) -> (r: Option<&'a Vec<Value>>)
    ensures
        opt_list(r) == list_of(*v),
{
    match v {
        Value::List(l) => Some(l),
        _ => None,
    }
}

pub open spec fn opt_list(r: Option<&Vec<Value>>) -> Option<Seq<Value>> {
    match r {
        Some(l) => Some(l@),
        None => None,
    }
}

// ----------------------------------------------------------------------------
// Users
// ----------------------------------------------------------------------------

/// A member of a document that may not be there.
pub open spec fn then_member(v: Option<Value>, name: Seq<char>) -> Option<Value> {
    match v {
        Some(x) => member(x, name),
        None => None,
    }
}

/// The users of a tenant: `users`, or `tenants.<tenant>.users`.
pub open spec fn users_of(v: Value, tenant: Option<Seq<char>>) -> Option<Value> {
    match tenant {
        None => member(v, "users"@),
        Some(t) => then_member(then_member(member(v, "tenants"@), t), "users"@),
    }
}

/// A user of a tenant.
pub open spec fn user_of(v: Value, tenant: Option<Seq<char>>, name: Seq<char>) -> Option<Value> {
    then_member(users_of(v, tenant), name)
}

fn get_in<'a>(v: Option<&'a Value>, name: &str) -> (r: Option<&'a Value>)
    ensures
        opt_value(r) == then_member(opt_value(v), name@),
{
    match v {
        Some(x) => get(x, name),
        None => None,
    }
}

/// The users of a tenant.
pub(crate) fn find_users<'a>(v: &'a Value, tenant: Option<&str>) -> (r: Option<&'a Value>)
    ensures
        opt_value(r) == users_of(*v, opt_text(tenant)),
{
    match tenant {
        None => get(v, "users"),
        Some(t) => get_in(get_in(get(v, "tenants"), t), "users"),
    }
}

/// A user of a tenant.
pub(crate) fn find_user<'a>(v: &'a Value, tenant: Option<&str>, name: &str) -> (r: Option<&'a Value>)
    ensures
        opt_value(r) == user_of(*v, opt_text(tenant), name@),
{
    get_in(find_users(v, tenant), name)
}

} // verus!
