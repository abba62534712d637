//! JSON documents: held by `serde_json`, described by an ordered tree.
//!
//! Verified code works on `serde_json::Value` itself. Its contents are named by [`json`], and each
//! `serde_json` operation that the library calls has a contract over that name. Objects keep the
//! order of their members (the `preserve_order` feature of `serde_json`), so the tree is ordered.
use crate::double::{nearest_double, rounds_to, Double};
use serde_json::{Map as ObjectMap, Value};
use vstd::prelude::*;

verus! {

/// A JSON number: a whole number, or a floating-point number by its IEEE 754 bit pattern.
pub enum Numeral {
    Whole(int),
    Real(u64),
}

/// What a JSON document holds. The members of an object stand in document order.
pub enum Json {
    Null,
    Bool(bool),
    Number(Numeral),
    Str(Seq<char>),
    Array(Seq<Json>),
    Object(Seq<(Seq<char>, Json)>),
}

/// The members of a JSON object, in document order.
pub type Members = Seq<(Seq<char>, Json)>;

/// `k` is the name of a member.
pub open spec fn has_key(e: Members, k: Seq<char>) -> bool {
    exists|i: int| 0 <= i < e.len() && #[trigger] e[i].0 == k
}

/// The place of the member named `k`.
pub open spec fn key_at(e: Members, k: Seq<char>) -> int {
    choose|i: int| 0 <= i < e.len() && #[trigger] e[i].0 == k
}

/// No two members share a name.
pub open spec fn distinct(e: Members) -> bool {
    forall|i: int, j: int| 0 <= i < j < e.len() ==> #[trigger] e[i].0 != #[trigger] e[j].0
}

/// No object in the document, at any depth, has two members of one name.
pub open spec fn well_formed(j: Json) -> bool
    decreases j,
{
    match j {
        Json::Object(e) => distinct(e) && forall|i: int|
            0 <= i < e.len() ==> well_formed((#[trigger] e[i]).1),
        Json::Array(s) => forall|i: int| 0 <= i < s.len() ==> well_formed(#[trigger] s[i]),
        _ => true,
    }
}

/// The value of the member named `k`.
pub open spec fn lookup(e: Members, k: Seq<char>) -> Option<Json> {
    if has_key(e, k) {
        Some(e[key_at(e, k)].1)
    } else {
        None
    }
}

/// The members after `k` was set to `v`: in place where `k` was there, else at the end.
pub open spec fn put(e: Members, k: Seq<char>, v: Json) -> Members {
    if has_key(e, k) {
        e.update(key_at(e, k), (k, v))
    } else {
        e.push((k, v))
    }
}

/// The members after `k` was taken out: the last member moves into the gap.
pub open spec fn without(e: Members, k: Seq<char>) -> Members {
    if has_key(e, k) {
        e.update(key_at(e, k), e.last()).drop_last()
    } else {
        e
    }
}

/// The member `k` of `j`, if `j` is an object that has it.
pub open spec fn member_of(j: Json, k: Seq<char>) -> Option<Json> {
    match j {
        Json::Object(e) => lookup(e, k),
        _ => None,
    }
}

/// The text that `j` holds, if it is a string.
pub open spec fn text_of(j: Option<Json>) -> Option<Seq<char>> {
    match j {
        Some(Json::Str(s)) => Some(s),
        _ => None,
    }
}

/// The double, by its bit pattern, that `j` reads as, if it is a number.
pub open spec fn double_bits_of(j: Option<Json>) -> Option<u64> {
    match j {
        Some(Json::Number(Numeral::Real(b))) => Some(b),
        Some(Json::Number(Numeral::Whole(n))) => Some(nearest_double(n).bits),
        _ => None,
    }
}

/// `serde_json::Value`, a JSON value. Opaque; see [`json`].
#[verifier::external_type_specification]
#[verifier::external_body]
pub struct ExValue(serde_json::Value);

/// `serde_json::Map`, the members of a JSON object. Opaque; see [`members`].
#[verifier::external_type_specification]
#[verifier::external_body]
#[verifier::reject_recursive_types(K)]
#[verifier::reject_recursive_types(V)]
pub struct ExObjectMap<K, V>(serde_json::Map<K, V>);

/// `serde_json::Error`, why a text is not JSON. Opaque, and only carried.
#[verifier::external_type_specification]
#[verifier::external_body]
pub struct ExError(serde_json::Error);

/// What a `serde_json::Value` holds.
pub uninterp spec fn json(v: serde_json::Value) -> Json;

/// What a `serde_json::Map` holds, in the order in which it hands its entries out.
pub uninterp spec fn members(m: serde_json::Map<String, serde_json::Value>) -> Seq<(Seq<char>, Json)>;

/// What `serde_json::from_str` reads from a text; `None` where it refuses the text.
pub uninterp spec fn parsed(text: Seq<char>) -> Option<Json>;

/// `serde_json::Value::as_object`: the members of an object, and `None` for any other value. An
/// object has no two members of one name.
pub assume_specification[ serde_json::Value::as_object ](v: &Value) -> (res: Option<
    &ObjectMap<String, Value>,
>)
    ensures
        match res {
            Some(m) => json(*v) == Json::Object(members(*m)) && distinct(members(*m)),
            None => !(json(*v) is Object),
        },
;

/// `serde_json::Value::as_object_mut`: as `as_object`, for writing. What the members are in the
/// end is what the value holds in the end; a value that is no object stays as it was.
pub assume_specification[ serde_json::Value::as_object_mut ](v: &mut Value) -> (res: Option<
    &mut ObjectMap<String, Value>,
>)
    ensures
        match res {
            Some(m) => {
                &&& json(*old(v)) == Json::Object(members(*m))
                &&& distinct(members(*m))
                &&& json(*final(v)) == Json::Object(members(*final(m)))
            },
            None => !(json(*old(v)) is Object) && json(*final(v)) == json(*old(v)),
        },
;

/// `serde_json::Value::as_str`: the text of a string, and `None` for any other value.
pub assume_specification[ serde_json::Value::as_str ](v: &Value) -> (res: Option<&str>)
    ensures
        match res {
            Some(s) => text_of(Some(json(*v))) == Some(s@),
            None => text_of(Some(json(*v))) is None,
        },
;

/// `serde_json::Map::insert`: sets a member, in place where its name is there already, else at the
/// end, and hands back the value that was there.
pub assume_specification[ serde_json::Map::<String, Value>::insert ](
    m: &mut ObjectMap<String, Value>,
    k: String,
    v: Value,
) -> (res: Option<Value>)
    ensures
        members(*final(m)) == put(members(*old(m)), k@, json(v)),
        match res {
            Some(before) => lookup(members(*old(m)), k@) == Some(json(before)),
            None => lookup(members(*old(m)), k@) is None,
        },
;

/// `<serde_json::Value as Clone>::clone`: a value that holds the same.
pub assume_specification[ <Value as Clone>::clone ](v: &Value) -> (res: Value)
    ensures
        json(res) == json(*v),
;

/// `serde_json::Map::remove`: takes a member out and hands its value back. The last member moves
/// into the gap.
#[verifier::external_body]
pub(crate) fn remove_member(m: &mut ObjectMap<String, Value>, key: &str) -> (res: Option<Value>)
    ensures
        members(*final(m)) == without(members(*old(m)), key@),
        match res {
            Some(before) => lookup(members(*old(m)), key@) == Some(json(before)),
            None => lookup(members(*old(m)), key@) is None,
        },
{
    m.remove(key)
}

/// `serde_json::Map::get`: the value of a member, and `None` where there is no such member.
#[verifier::external_body]
pub(crate) fn entry<'a>(m: &'a ObjectMap<String, Value>, key: &str) -> (res: Option<&'a Value>)
    ensures
        match res {
            Some(v) => lookup(members(*m), key@) == Some(json(*v)),
            None => lookup(members(*m), key@) is None,
        },
{
    m.get(key)
}

/// `serde_json::Map::get_mut`: as `get`, for writing. The member ends up with what the reference
/// ends up with, and every other member stays.
#[verifier::external_body]
pub(crate) fn entry_mut<'a>(m: &'a mut ObjectMap<String, Value>, key: &str) -> (res: Option<
    &'a mut Value,
>)
    ensures
        match res {
            Some(v) => {
                &&& lookup(members(*old(m)), key@) == Some(json(*v))
                &&& members(*final(m)) == put(members(*old(m)), key@, json(*final(v)))
            },
            None => {
                &&& lookup(members(*old(m)), key@) is None
                &&& members(*final(m)) == members(*old(m))
            },
        },
{
    m.get_mut(key)
}

/// `serde_json::Map::keys`: the names of the members, in order.
#[verifier::external_body]
pub(crate) fn key_list(m: &ObjectMap<String, Value>) -> (res: Vec<String>)
    ensures
        res@.len() == members(*m).len(),
        forall|i: int| 0 <= i < res@.len() ==> (#[trigger] res@[i])@ == members(*m)[i].0,
{
    m.keys().cloned().collect()
}

/// `serde_json::Value::get` with a name: the member of an object, and `None` where the value is no
/// object or has no such member.
#[verifier::external_body]
pub(crate) fn member<'a>(v: &'a Value, key: &str) -> (res: Option<&'a Value>)
    ensures
        match res {
            Some(x) => member_of(json(*v), key@) == Some(json(*x)),
            None => member_of(json(*v), key@) is None,
        },
{
    v.get(key)
}

/// `serde_json::Value::get_mut` with a name: as `get`, for writing. The member ends up with what
/// the reference ends up with, and the rest of the value stays.
#[verifier::external_body]
pub(crate) fn member_mut<'a>(v: &'a mut Value, key: &str) -> (res: Option<&'a mut Value>)
    ensures
        match res {
            Some(x) => {
                &&& member_of(json(*old(v)), key@) == Some(json(*x))
                &&& json(*final(v)) == Json::Object(
                    put(json(*old(v))->Object_0, key@, json(*final(x))),
                )
            },
            None => {
                &&& member_of(json(*old(v)), key@) is None
                &&& json(*final(v)) == json(*old(v))
            },
        },
{
    v.get_mut(key)
}

/// `serde_json::Value::as_f64`, by the bit pattern of the double that it gives: for a
/// floating-point number that number, for a whole number the double that it rounds to, and `None`
/// for any other value.
#[verifier::external_body]
pub(crate) fn double_bits(v: &Value) -> (res: Option<u64>)
    ensures
        match json(*v) {
            Json::Number(Numeral::Real(b)) => res == Some(b),
            Json::Number(Numeral::Whole(n)) => {
                &&& res == Some(nearest_double(n).bits)
                &&& res matches Some(b) && rounds_to(n, Double { bits: b })
            },
            _ => res is None,
        },
{
    v.as_f64().map(|x| x.to_bits())
}

/// `serde_json::Value::Array`: the array of the given values.
#[verifier::external_body]
pub(crate) fn array_value(items: Vec<Value>) -> (res: Value)
    ensures
        json(res) == Json::Array(items@.map_values(|v: Value| json(v))),
{
    Value::Array(items)
}

/// `serde_json::from_str`: the document that a text holds, or why it holds none. No object of the
/// document has two members of one name.
#[verifier::external_body]
pub(crate) fn parse_document(text: &str) -> (res: Result<Value, serde_json::Error>)
    ensures
        match res {
            Ok(v) => parsed(text@) == Some(json(v)) && well_formed(json(v)),
            Err(_) => parsed(text@) is None,
        },
{
    serde_json::from_str(text)
}

/// A member's place is the only one with its name.
pub proof fn lemma_key_at(e: Members, i: int)
    requires
        distinct(e),
        0 <= i < e.len(),
    ensures
        has_key(e, e[i].0),
        key_at(e, e[i].0) == i,
        lookup(e, e[i].0) == Some(e[i].1),
{
    let k = key_at(e, e[i].0);
    assert(e[i].0 == e[i].0);
    assert(0 <= k < e.len() && e[k].0 == e[i].0);
    if k < i {
        assert(e[k].0 != e[i].0);
    }
    if i < k {
        assert(e[i].0 != e[k].0);
    }
}

/// Setting a member keeps the names apart, gives that member the value, and leaves every other
/// member's value as it was.
pub proof fn lemma_put(e: Members, k: Seq<char>, v: Json)
    requires
        distinct(e),
    ensures
        distinct(put(e, k, v)),
        lookup(put(e, k, v), k) == Some(v),
        forall|q: Seq<char>| q != k ==> #[trigger] lookup(put(e, k, v), q) == lookup(e, q),
{
    let p = put(e, k, v);
    if has_key(e, k) {
        let n = key_at(e, k);
        assert forall|i: int| 0 <= i < p.len() implies #[trigger] p[i].0 == e[i].0 by {}
        assert(distinct(p));
        lemma_key_at(p, n);
    } else {
        assert forall|i: int| 0 <= i < e.len() implies #[trigger] p[i] == e[i] && e[i].0 != k by {}
        assert(distinct(p));
        lemma_key_at(p, e.len() as int);
    }
    assert forall|q: Seq<char>| q != k implies #[trigger] lookup(p, q) == lookup(e, q) by {
        if has_key(e, q) {
            let i = key_at(e, q);
            assert(p[i] == e[i]);
            lemma_key_at(p, i);
            lemma_key_at(e, i);
        } else if has_key(p, q) {
            let i = key_at(p, q);
            assert(p[i].0 == q);
            if i < e.len() {
                assert(e[i].0 == q);
            }
        }
    }
}

/// Setting a member to what it is changes nothing.
pub proof fn lemma_put_same(e: Members, k: Seq<char>)
    requires
        has_key(e, k),
    ensures
        put(e, k, e[key_at(e, k)].1) == e,
{
    let n = key_at(e, k);
    assert(0 <= n < e.len() && e[n].0 == k);
    assert(put(e, k, e[n].1) =~= e);
}

/// Setting a member twice is setting it to the later value.
pub proof fn lemma_put_twice(e: Members, k: Seq<char>, v: Json, w: Json)
    requires
        distinct(e),
    ensures
        put(put(e, k, v), k, w) == put(e, k, w),
{
    let p = put(e, k, v);
    lemma_put(e, k, v);
    let n = if has_key(e, k) {
        key_at(e, k)
    } else {
        e.len() as int
    };
    assert(p[n].0 == k);
    lemma_key_at(p, n);
    assert(put(p, k, w) =~= put(e, k, w));
}

/// Taking a member out keeps the names apart, leaves no member of that name, and leaves every
/// other member's value as it was.
pub proof fn lemma_without(e: Members, k: Seq<char>)
    requires
        distinct(e),
    ensures
        distinct(without(e, k)),
        lookup(without(e, k), k) is None,
        forall|q: Seq<char>| q != k ==> #[trigger] lookup(without(e, k), q) == lookup(e, q),
{
    let p = without(e, k);
    if has_key(e, k) {
        let n = key_at(e, k);
        let last = e.len() - 1;
        assert(e[n].0 == k);
        assert forall|i: int| 0 <= i < p.len() implies #[trigger] p[i] == e[if i == n {
            last
        } else {
            i
        }] by {}
        assert(distinct(p)) by {
            assert forall|i: int, j: int| 0 <= i < j < p.len() implies #[trigger] p[i].0
                != #[trigger] p[j].0 by {
                let a = if i == n {
                    last
                } else {
                    i
                };
                let b = if j == n {
                    last
                } else {
                    j
                };
                if a < b {
                    assert(e[a].0 != e[b].0);
                } else {
                    assert(e[b].0 != e[a].0);
                }
            }
        }
        if has_key(p, k) {
            let i = key_at(p, k);
            let a = if i == n {
                last
            } else {
                i
            };
            assert(p[i].0 == k && e[a].0 == k);
            lemma_key_at(e, a);
        }
        assert forall|q: Seq<char>| q != k implies #[trigger] lookup(p, q) == lookup(e, q) by {
            if has_key(e, q) {
                let i = key_at(e, q);
                assert(e[i].0 == q);
                let a = if i == last {
                    n
                } else {
                    i
                };
                assert(p[a] == e[i]);
                lemma_key_at(p, a);
            } else if has_key(p, q) {
                let i = key_at(p, q);
                let a = if i == n {
                    last
                } else {
                    i
                };
                assert(p[i].0 == q && e[a].0 == q);
            }
        }
    }
}

} // verus!
