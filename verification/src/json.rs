use vstd::prelude::*;

use crate::strs::str_eq;
use vstd::string::StringSliceAdditionalSpecFns;
use vstd::utf8::encode_utf8;

verus! {

broadcast use vstd::std_specs::vec::group_vec_axioms;

/// The mathematical model of a JSON value. Objects are association lists whose
/// entries keep their order.
pub enum Json {
    Null,
    Bool(bool),
    Number(Seq<char>),
    Str(Seq<char>),
    Array(Seq<Json>),
    Object(Seq<(Seq<char>, Json)>),
}

/// A JSON value. A number is held as the text of its shortest decimal form
/// (two numbers are equal exactly when their texts are).
#[derive(Debug)]
pub enum JsonValue {
    Null,
    Bool(bool),
    Number(String),
    String(String),
    Array(Vec<JsonValue>),
    Object(Vec<(String, JsonValue)>),
}

/// The entries of a JSON object, in order.
pub type JsonObject = Vec<(String, JsonValue)>;

pub open spec fn view_array(a: Seq<JsonValue>) -> Seq<Json>
    decreases a,
{
    if a.len() == 0 {
        Seq::empty()
    } else {
        view_array(a.drop_last()).push(view_json(a.last()))
    }
}

pub open spec fn view_entries(a: Seq<(String, JsonValue)>) -> Seq<(Seq<char>, Json)>
    decreases a,
{
    if a.len() == 0 {
        Seq::empty()
    } else {
        view_entries(a.drop_last()).push((a.last().0@, view_json(a.last().1)))
    }
}

pub open spec fn view_json(v: JsonValue) -> Json
    decreases v,
{
    match v {
        JsonValue::Null => Json::Null,
        JsonValue::Bool(b) => Json::Bool(b),
        JsonValue::Number(n) => Json::Number(n@),
        JsonValue::String(s) => Json::Str(s@),
        JsonValue::Array(a) => Json::Array(view_array(a@)),
        JsonValue::Object(o) => Json::Object(view_entries(o@)),
    }
}

impl View for JsonValue {
    type V = Json;

    open spec fn view(&self) -> Json {
        view_json(*self)
    }
}

/// The model of the entries of an object.
pub open spec fn obj_view(o: Vec<(String, JsonValue)>) -> Seq<(Seq<char>, Json)> {
    view_entries(o@)
}

pub broadcast proof fn lemma_view_array(a: Seq<JsonValue>)
    ensures
        (#[trigger] view_array(a)).len() == a.len(),
        forall|i: int| 0 <= i < a.len() ==> #[trigger] view_array(a)[i] == view_json(a[i]),
    decreases a.len(),
{
    if a.len() > 0 {
        lemma_view_array(a.drop_last());
        assert forall|i: int| 0 <= i < a.len() implies #[trigger] view_array(a)[i] == view_json(a[i]) by {
            if i < a.len() - 1 {
                assert(a.drop_last()[i] == a[i]);
            }
        }
    }
}

pub broadcast proof fn lemma_view_entries(a: Seq<(String, JsonValue)>)
    ensures
        (#[trigger] view_entries(a)).len() == a.len(),
        forall|i: int|
            0 <= i < a.len() ==> #[trigger] view_entries(a)[i] == (a[i].0@, view_json(a[i].1)),
    decreases a.len(),
{
    if a.len() > 0 {
        lemma_view_entries(a.drop_last());
        assert forall|i: int| 0 <= i < a.len() implies #[trigger] view_entries(a)[i] == (a[i].0@, view_json(a[i].1)) by {
            if i < a.len() - 1 {
                assert(a.drop_last()[i] == a[i]);
            }
        }
    }
}

pub broadcast group group_json_lemmas {
    lemma_view_array,
    lemma_view_entries,
}

/// The model of the concatenation of two arrays is the concatenation of their models.
pub proof fn lemma_view_array_add(a: Seq<JsonValue>, b: Seq<JsonValue>)
    ensures
        view_array(a + b) == view_array(a) + view_array(b),
{
    lemma_view_array(a + b);
    lemma_view_array(a);
    lemma_view_array(b);
    assert forall|i: int| 0 <= i < (a + b).len() implies view_array(a + b)[i] == (view_array(a) + view_array(
        b,
    ))[i] by {
        if i < a.len() {
            assert((a + b)[i] == a[i]);
        } else {
            assert((a + b)[i] == b[i - a.len()]);
        }
    }
    assert(view_array(a + b) =~= view_array(a) + view_array(b));
}

/// The index of the first entry with key `k`, or -1 where there is none.
pub open spec fn key_index<V>(e: Seq<(Seq<char>, V)>, k: Seq<char>) -> int
    decreases e.len(),
{
    if e.len() == 0 {
        -1
    } else if e[0].0 == k {
        0
    } else {
        let r = key_index(e.drop_first(), k);
        if r < 0 {
            -1
        } else {
            r + 1
        }
    }
}

pub open spec fn has_key<V>(e: Seq<(Seq<char>, V)>, k: Seq<char>) -> bool {
    exists|i: int| 0 <= i < e.len() && (#[trigger] e[i]).0 == k
}

/// The value of the first entry with key `k`.
pub open spec fn entries_get(e: Seq<(Seq<char>, Json)>, k: Seq<char>) -> Option<Json> {
    if key_index(e, k) >= 0 {
        Some(e[key_index(e, k)].1)
    } else {
        None
    }
}

/// The entries after setting key `k` to `v`: the first entry with key `k` takes the
/// value in place, or the entry is appended where there is none.
pub open spec fn entries_insert(e: Seq<(Seq<char>, Json)>, k: Seq<char>, v: Json) -> Seq<
    (Seq<char>, Json),
> {
    if key_index(e, k) >= 0 {
        e.update(key_index(e, k), (k, v))
    } else {
        e.push((k, v))
    }
}

/// The entries after removing the first entry with key `k`.
pub open spec fn entries_remove(e: Seq<(Seq<char>, Json)>, k: Seq<char>) -> Seq<(Seq<char>, Json)> {
    if key_index(e, k) >= 0 {
        e.remove(key_index(e, k))
    } else {
        e
    }
}

/// No two entries share a key.
pub open spec fn keys_unique<V>(e: Seq<(Seq<char>, V)>) -> bool {
    forall|i: int, j: int|
        0 <= i < e.len() && 0 <= j < e.len() && i != j ==> (#[trigger] e[i]).0 != (#[trigger] e[j]).0
}

pub proof fn lemma_key_index<V>(e: Seq<(Seq<char>, V)>, k: Seq<char>)
    ensures
        -1 <= key_index(e, k) < e.len(),
        key_index(e, k) >= 0 ==> e[key_index(e, k)].0 == k,
        key_index(e, k) >= 0 ==> forall|j: int| 0 <= j < key_index(e, k) ==> (#[trigger] e[j]).0 != k,
        key_index(e, k) < 0 ==> forall|j: int| 0 <= j < e.len() ==> (#[trigger] e[j]).0 != k,
        (key_index(e, k) >= 0) == has_key(e, k),
    decreases e.len(),
{
    if e.len() > 0 && e[0].0 != k {
        lemma_key_index(e.drop_first(), k);
        let r = key_index(e.drop_first(), k);
        if r >= 0 {
            assert forall|j: int| 0 <= j < r + 1 implies (#[trigger] e[j]).0 != k by {
                if j > 0 {
                    assert(e[j] == e.drop_first()[j - 1]);
                }
            }
        } else {
            assert forall|j: int| 0 <= j < e.len() implies (#[trigger] e[j]).0 != k by {
                if j > 0 {
                    assert(e[j] == e.drop_first()[j - 1]);
                }
            }
        }
        if has_key(e, k) {
            let i = choose|i: int| 0 <= i < e.len() && (#[trigger] e[i]).0 == k;
            assert(e.drop_first()[i - 1] == e[i]);
        }
    }
    if e.len() > 0 && e[0].0 == k {
        assert(e[0].0 == k);
    }
}

/// A first index with key `k` is `key_index`.
pub proof fn lemma_key_index_is<V>(e: Seq<(Seq<char>, V)>, k: Seq<char>, i: int)
    requires
        0 <= i < e.len(),
        e[i].0 == k,
        forall|j: int| 0 <= j < i ==> (#[trigger] e[j]).0 != k,
    ensures
        key_index(e, k) == i,
{
    lemma_key_index(e, k);
    assert(has_key(e, k));
}

/// Reading a key of an object after setting it gives the value set; every other key
/// keeps its value.
pub proof fn law_get_after_insert(e: Seq<(Seq<char>, Json)>, k: Seq<char>, v: Json, other: Seq<char>)
    ensures
        entries_get(entries_insert(e, k, v), k) == Some(v),
        other != k ==> entries_get(entries_insert(e, k, v), other) == entries_get(e, other),
{
    let e1 = entries_insert(e, k, v);
    lemma_key_index(e, k);
    lemma_key_index(e, other);
    lemma_key_index(e1, other);
    let p = key_index(e, k);
    if p >= 0 {
        lemma_key_index_is(e1, k, p);
        if other != k {
            let q = key_index(e, other);
            if q >= 0 {
                assert forall|j: int| 0 <= j < q implies (#[trigger] e1[j]).0 != other by {
                    assert(e1[j].0 == e[j].0 || j == p);
                }
                lemma_key_index_is(e1, other, q);
            } else {
                assert forall|j: int| 0 <= j < e1.len() implies (#[trigger] e1[j]).0 != other by {
                    assert(e1[j].0 == e[j].0 || j == p);
                }
                lemma_key_index(e1, other);
            }
        }
    } else {
        assert forall|j: int| 0 <= j < e.len() implies (#[trigger] e1[j]).0 != k by {
            assert(e1[j] == e[j]);
        }
        lemma_key_index_is(e1, k, e.len() as int);
        if other != k {
            let q = key_index(e, other);
            if q >= 0 {
                assert forall|j: int| 0 <= j < q implies (#[trigger] e1[j]).0 != other by {
                    assert(e1[j] == e[j]);
                }
                lemma_key_index_is(e1, other, q);
            } else {
                assert forall|j: int| 0 <= j < e1.len() implies (#[trigger] e1[j]).0 != other by {
                    if j < e.len() {
                        assert(e1[j] == e[j]);
                    }
                }
            }
        }
    }
}

/// In an object whose keys are unique, a key removed is absent; every other key keeps
/// its value.
pub proof fn law_get_after_remove(e: Seq<(Seq<char>, Json)>, k: Seq<char>, other: Seq<char>)
    ensures
        keys_unique(e) ==> entries_get(entries_remove(e, k), k) is None,
        other != k ==> entries_get(entries_remove(e, k), other) == entries_get(e, other),
{
    let e1 = entries_remove(e, k);
    lemma_key_index(e, k);
    lemma_key_index(e, other);
    lemma_key_index(e1, k);
    lemma_key_index(e1, other);
    let p = key_index(e, k);
    if p >= 0 {
        if keys_unique(e) {
            assert forall|j: int| 0 <= j < e1.len() implies (#[trigger] e1[j]).0 != k by {
                if j < p {
                    assert(e1[j] == e[j]);
                } else {
                    assert(e1[j] == e[j + 1]);
                }
            }
        }
        if other != k {
            let q = key_index(e, other);
            if q >= 0 {
                let q1 = if q < p { q } else { q - 1 };
                assert(e1[q1] == e[q]);
                assert forall|j: int| 0 <= j < q1 implies (#[trigger] e1[j]).0 != other by {
                    if j < p {
                        assert(e1[j] == e[j]);
                    } else {
                        assert(e1[j] == e[j + 1]);
                    }
                }
                lemma_key_index_is(e1, other, q1);
            } else {
                assert forall|j: int| 0 <= j < e1.len() implies (#[trigger] e1[j]).0 != other by {
                    if j < p {
                        assert(e1[j] == e[j]);
                    } else {
                        assert(e1[j] == e[j + 1]);
                    }
                }
            }
        }
    }
}

/// Setting a key keeps the keys of an object unique.
pub proof fn law_insert_keeps_keys_unique(e: Seq<(Seq<char>, Json)>, k: Seq<char>, v: Json)
    requires
        keys_unique(e),
    ensures
        keys_unique(entries_insert(e, k, v)),
{
    let e1 = entries_insert(e, k, v);
    lemma_key_index(e, k);
    let p = key_index(e, k);
    assert forall|i: int, j: int| 0 <= i < e1.len() && 0 <= j < e1.len() && i != j implies (#[trigger] e1[i]).0
        != (#[trigger] e1[j]).0 by {
        if p >= 0 {
            assert(e1[i].0 == e[i].0 || i == p);
            assert(e1[j].0 == e[j].0 || j == p);
            assert(e[p].0 == k);
        } else {
            if i < e.len() {
                assert(e1[i] == e[i]);
            }
            if j < e.len() {
                assert(e1[j] == e[j]);
            }
        }
    }
}

impl JsonValue {
    /// A copy of the value.
    pub fn deep_clone(&self) -> (r: JsonValue)
        ensures
            r@ == self@,
        decreases self,
    {
        broadcast use group_json_lemmas;

        match self {
            JsonValue::Null => JsonValue::Null,
            JsonValue::Bool(b) => JsonValue::Bool(*b),
            JsonValue::Number(n) => JsonValue::Number(n.clone()),
            JsonValue::String(s) => JsonValue::String(s.clone()),
            JsonValue::Array(a) => JsonValue::Array(clone_array(a)),
            JsonValue::Object(o) => {
                let r = clone_object(o);
                JsonValue::Object(r)
            },
        }
    }

    pub fn is_null(&self) -> (r: bool)
        ensures
            r == (self@ is Null),
    {
        match self {
            JsonValue::Null => true,
            _ => false,
        }
    }

    pub fn as_bool(&self) -> (r: Option<bool>)
        ensures
            match self@ {
                Json::Bool(b) => r == Some(b),
                _ => r is None,
            },
    {
        match self {
            JsonValue::Bool(b) => Some(*b),
            _ => None,
        }
    }

    pub fn as_string(&self) -> (r: Option<&String>)
        ensures
            match self@ {
                Json::Str(s) => r matches Some(t) && t@ == s,
                _ => r is None,
            },
    {
        match self {
            JsonValue::String(s) => Some(s),
            _ => None,
        }
    }

    pub fn as_object(&self) -> (r: Option<&Vec<(String, JsonValue)>>)
        ensures
            match self@ {
                Json::Object(e) => r matches Some(o) && obj_view(*o) == e,
                _ => r is None,
            },
    {
        match self {
            JsonValue::Object(o) => Some(o),
            _ => None,
        }
    }

    pub fn as_array(&self) -> (r: Option<&Vec<JsonValue>>)
        ensures
            match self@ {
                Json::Array(e) => r matches Some(a) && view_array(a@) == e,
                _ => r is None,
            },
    {
        match self {
            JsonValue::Array(a) => Some(a),
            _ => None,
        }
    }
}

/// A copy of the elements of an array.
pub fn clone_array(a: &Vec<JsonValue>) -> (r: Vec<JsonValue>)
    ensures
        view_array(r@) == view_array(a@),
    decreases a,
{
    broadcast use group_json_lemmas;

    let mut r: Vec<JsonValue> = Vec::new();
    let mut i: usize = 0;
    while i < a.len()
        invariant
            i <= a.len(),
            r@.len() == i,
            forall|j: int| 0 <= j < i ==> view_json(#[trigger] r@[j]) == view_json(a@[j]),
        decreases a.len() - i,
    {
        proof {
            assert(decreases_to!(*a => a@[i as int]));
        }
        let c = a[i].deep_clone();
        r.push(c);
        i = i + 1;
    }
    assert(view_array(r@) =~= view_array(a@));
    r
}

/// A copy of the entries of an object.
pub fn clone_object(o: &Vec<(String, JsonValue)>) -> (r: Vec<(String, JsonValue)>)
    ensures
        obj_view(r) == obj_view(*o),
    decreases o,
{
    broadcast use group_json_lemmas;

    let mut r: Vec<(String, JsonValue)> = Vec::new();
    let mut i: usize = 0;
    while i < o.len()
        invariant
            i <= o.len(),
            r@.len() == i,
            forall|j: int|
                0 <= j < i ==> (#[trigger] r@[j]).0@ == o@[j].0@ && view_json(r@[j].1) == view_json(
                    o@[j].1,
                ),
        decreases o.len() - i,
    {
        let k = o[i].0.clone();
        let v = o[i].1.deep_clone();
        r.push((k, v));
        i = i + 1;
    }
    assert(view_entries(r@) =~= view_entries(o@));
    r
}

/// The index of the first entry with key `k`.
pub fn obj_find(o: &Vec<(String, JsonValue)>, k: &str) -> (r: Option<usize>)
    ensures
        match r {
            Some(i) => i == key_index(obj_view(*o), k@) && i < o@.len(),
            None => key_index(obj_view(*o), k@) < 0,
        },
{
    broadcast use group_json_lemmas;

    let mut i: usize = 0;
    while i < o.len()
        invariant
            i <= o.len(),
            forall|j: int| 0 <= j < i ==> (#[trigger] o@[j]).0@ != k@,
        decreases o.len() - i,
    {
        if str_eq(o[i].0.as_str(), k) {
            proof {
                let e = obj_view(*o);
                lemma_view_entries(o@);
                assert forall|j: int| 0 <= j < i implies (#[trigger] e[j]).0 != k@ by {
                    assert(e[j].0 == o@[j].0@);
                }
                lemma_key_index_is(e, k@, i as int);
            }
            return Some(i);
        }
        i = i + 1;
    }
    proof {
        let e = obj_view(*o);
        lemma_view_entries(o@);
        lemma_key_index(e, k@);
        if key_index(e, k@) >= 0 {
            let p = key_index(e, k@);
            assert(e[p].0 == o@[p].0@);
        }
    }
    None
}

/// The value of the first entry with key `k`.
pub fn obj_get<'a>(o: &'a Vec<(String, JsonValue)>, k: &str) -> (r: Option<&'a JsonValue>)
    ensures
        match r {
            Some(v) => entries_get(obj_view(*o), k@) == Some(v@),
            None => entries_get(obj_view(*o), k@) is None,
        },
{
    broadcast use group_json_lemmas;

    match obj_find(o, k) {
        Some(i) => Some(&o[i].1),
        None => None,
    }
}

/// Whether an entry has key `k`.
pub fn obj_contains(o: &Vec<(String, JsonValue)>, k: &str) -> (r: bool)
    ensures
        r == has_key(obj_view(*o), k@),
        r == (entries_get(obj_view(*o), k@) is Some),
{
    proof {
        lemma_key_index(obj_view(*o), k@);
    }
    obj_find(o, k).is_some()
}

/// Sets key `k` to `v`.
pub fn obj_insert(o: &mut Vec<(String, JsonValue)>, k: String, v: JsonValue)
    ensures
        obj_view(*final(o)) == entries_insert(obj_view(*old(o)), k@, v@),
{
    broadcast use group_json_lemmas;

    let ghost e = obj_view(*o);
    let ghost kv = k@;
    let ghost vv = v@;
    match obj_find(o, k.as_str()) {
        Some(i) => {
            o.set(i, (k, v));
            proof {
                lemma_key_index(e, kv);
                assert(view_entries(o@) =~= e.update(i as int, (kv, vv)));
            }
        },
        None => {
            o.push((k, v));
            assert(view_entries(o@) =~= e.push((kv, vv)));
        },
    }
}

/// Removes the first entry with key `k` and hands back its value.
pub fn obj_remove(o: &mut Vec<(String, JsonValue)>, k: &str) -> (r: Option<JsonValue>)
    ensures
        obj_view(*final(o)) == entries_remove(obj_view(*old(o)), k@),
        match r {
            Some(v) => entries_get(obj_view(*old(o)), k@) == Some(v@),
            None => entries_get(obj_view(*old(o)), k@) is None,
        },
{
    broadcast use group_json_lemmas;

    let ghost e = obj_view(*o);
    match obj_find(o, k) {
        Some(i) => {
            let (_, v) = o.remove(i);
            assert(view_entries(o@) =~= e.remove(i as int));
            Some(v)
        },
        None => None,
    }
}

/// Whether two JSON values are equal.
pub fn json_equal(a: &JsonValue, b: &JsonValue) -> (r: bool)
    ensures
        r == (a@ == b@),
    decreases a,
{
    match a {
        JsonValue::Null => b.is_null(),
        JsonValue::Bool(x) => match b {
            JsonValue::Bool(y) => *x == *y,
            _ => false,
        },
        JsonValue::Number(x) => match b {
            JsonValue::Number(y) => *x == *y,
            _ => false,
        },
        JsonValue::String(x) => match b {
            JsonValue::String(y) => *x == *y,
            _ => false,
        },
        JsonValue::Array(x) => match b {
            JsonValue::Array(y) => array_equal(x, y),
            _ => false,
        },
        JsonValue::Object(x) => match b {
            JsonValue::Object(y) => object_equal(x, y),
            _ => false,
        },
    }
}

/// Whether two arrays hold equal values.
pub fn array_equal(x: &Vec<JsonValue>, y: &Vec<JsonValue>) -> (r: bool)
    ensures
        r == (view_array(x@) == view_array(y@)),
    decreases x,
{
    broadcast use group_json_lemmas;

    if x.len() != y.len() {
        assert(view_array(x@).len() != view_array(y@).len());
        return false;
    }
    let mut i: usize = 0;
    while i < x.len()
        invariant
            i <= x@.len(),
            x@.len() == y@.len(),
            forall|j: int| 0 <= j < i ==> view_json(#[trigger] x@[j]) == view_json(y@[j]),
        decreases x@.len() - i,
    {
        proof {
            assert(decreases_to!(*x => x@[i as int]));
        }
        if !json_equal(&x[i], &y[i]) {
            proof {
                lemma_view_array(x@);
                lemma_view_array(y@);
            }
            assert(view_array(x@)[i as int] != view_array(y@)[i as int]);
            return false;
        }
        i = i + 1;
    }
    assert(view_array(x@) =~= view_array(y@));
    true
}

/// Whether two objects hold equal entries in the same order.
pub fn object_equal(x: &Vec<(String, JsonValue)>, y: &Vec<(String, JsonValue)>) -> (r: bool)
    ensures
        r == (view_entries(x@) == view_entries(y@)),
    decreases x,
{
    broadcast use group_json_lemmas;

    if x.len() != y.len() {
        assert(view_entries(x@).len() != view_entries(y@).len());
        return false;
    }
    let mut i: usize = 0;
    while i < x.len()
        invariant
            i <= x@.len(),
            x@.len() == y@.len(),
            forall|j: int|
                0 <= j < i ==> (#[trigger] x@[j]).0@ == y@[j].0@ && view_json(x@[j].1) == view_json(
                    y@[j].1,
                ),
        decreases x@.len() - i,
    {
        if x[i].0 != y[i].0 {
            proof {
                lemma_view_entries(x@);
                lemma_view_entries(y@);
            }
            assert(view_entries(x@)[i as int] != view_entries(y@)[i as int]);
            return false;
        }
        proof {
            assert(decreases_to!(*x => x@[i as int]));
            assert(decreases_to!(x@[i as int] => x@[i as int].1));
        }
        if !json_equal(&x[i].1, &y[i].1) {
            proof {
                lemma_view_entries(x@);
                lemma_view_entries(y@);
            }
            assert(view_entries(x@)[i as int] != view_entries(y@)[i as int]);
            return false;
        }
        i = i + 1;
    }
    assert(view_entries(x@) =~= view_entries(y@));
    true
}

/// An object of one entry.
pub fn singleton_object(k: &str, v: JsonValue) -> (r: Vec<(String, JsonValue)>)
    ensures
        obj_view(r) == seq![(k@, v@)],
{
    broadcast use group_json_lemmas;

    let mut r: Vec<(String, JsonValue)> = Vec::new();
    let ghost vv = v@;
    r.push((k.to_owned(), v));
    assert(view_entries(r@) =~= seq![(k@, vv)]);
    r
}

/// An array of one element.
pub fn singleton_array(v: JsonValue) -> (r: Vec<JsonValue>)
    ensures
        view_array(r@) == seq![v@],
{
    broadcast use group_json_lemmas;

    let ghost vv = v@;
    let mut r: Vec<JsonValue> = Vec::new();
    r.push(v);
    assert(view_array(r@) =~= seq![vv]);
    r
}

} // verus!

verus! {

/// `a` comes before `b` in the order of their bytes (the order of `String`): at the
/// first byte where they differ, or as a proper prefix.
pub open spec fn bytes_less(a: Seq<u8>, b: Seq<u8>) -> bool {
    ||| exists|i: int|
        0 <= i < a.len() && i < b.len() && a[i] < b[i] && forall|j: int| 0 <= j < i ==> #[trigger] a[j] == b[j]
    ||| (a.len() < b.len() && forall|j: int| 0 <= j < a.len() ==> #[trigger] a[j] == b[j])
}

proof fn lemma_bytes_less_irreflexive(a: Seq<u8>)
    ensures
        !bytes_less(a, a),
{
}

proof fn lemma_bytes_less_transitive(a: Seq<u8>, b: Seq<u8>, c: Seq<u8>)
    requires
        bytes_less(a, b),
        bytes_less(b, c),
    ensures
        bytes_less(a, c),
{
    let d_ab = exists|i: int|
        0 <= i < a.len() && i < b.len() && a[i] < b[i] && forall|j: int| 0 <= j < i ==> #[trigger] a[j] == b[j];
    let d_bc = exists|i: int|
        0 <= i < b.len() && i < c.len() && b[i] < c[i] && forall|j: int| 0 <= j < i ==> #[trigger] b[j] == c[j];
    if d_ab && d_bc {
        let i = choose|i: int|
            0 <= i < a.len() && i < b.len() && a[i] < b[i] && forall|j: int| 0 <= j < i ==> #[trigger] a[j] == b[j];
        let k = choose|k: int|
            0 <= k < b.len() && k < c.len() && b[k] < c[k] && forall|j: int| 0 <= j < k ==> #[trigger] b[j] == c[j];
        let m = if i < k { i } else { k };
        assert(a[m] < c[m]);
        assert(forall|j: int| 0 <= j < m ==> #[trigger] a[j] == c[j]);
    } else if d_ab {
        let i = choose|i: int|
            0 <= i < a.len() && i < b.len() && a[i] < b[i] && forall|j: int| 0 <= j < i ==> #[trigger] a[j] == b[j];
        assert(c[i] == b[i]);
        assert(forall|j: int| 0 <= j < i ==> #[trigger] a[j] == c[j]);
    } else if d_bc {
        let k = choose|k: int|
            0 <= k < b.len() && k < c.len() && b[k] < c[k] && forall|j: int| 0 <= j < k ==> #[trigger] b[j] == c[j];
        if k < a.len() {
            assert(a[k] == b[k]);
            assert(forall|j: int| 0 <= j < k ==> #[trigger] a[j] == c[j]);
        } else {
            assert(forall|j: int| 0 <= j < a.len() ==> #[trigger] a[j] == c[j]);
        }
    } else {
        assert(forall|j: int| 0 <= j < a.len() ==> #[trigger] a[j] == c[j]);
    }
}

/// Whether `a` comes before `b` in the order of their bytes.
pub fn str_less(a: &str, b: &str) -> (r: bool)
    ensures
        r == bytes_less(a.spec_bytes(), b.spec_bytes()),
{
    let ab = a.as_bytes();
    let bb = b.as_bytes();
    let mut i: usize = 0;
    while i < ab.len() && i < bb.len()
        invariant
            ab@ == a.spec_bytes(),
            bb@ == b.spec_bytes(),
            i <= ab@.len(),
            i <= bb@.len(),
            forall|j: int| 0 <= j < i ==> #[trigger] ab@[j] == bb@[j],
        decreases ab@.len() - i,
    {
        if ab[i] != bb[i] {
            proof {
                if ab@[i as int] > bb@[i as int] {
                    assert forall|k: int|
                        0 <= k < ab@.len() && k < bb@.len() && ab@[k] < bb@[k] implies !(forall|j: int|
                        0 <= j < k ==> #[trigger] ab@[j] == bb@[j]) by {
                        if k > i {
                            assert(ab@[i as int] != bb@[i as int]);
                        }
                    }
                    assert(!(forall|j: int| 0 <= j < ab@.len() ==> #[trigger] ab@[j] == bb@[j]));
                } else {
                    assert(forall|j: int| 0 <= j < i ==> #[trigger] ab@[j] == bb@[j]);
                }
            }
            return ab[i] < bb[i];
        }
        i = i + 1;
    }
    proof {
        assert forall|k: int|
            0 <= k < ab@.len() && k < bb@.len() && ab@[k] < bb@[k] implies !(forall|j: int|
            0 <= j < k ==> #[trigger] ab@[j] == bb@[j]) by {
        }
    }
    ab.len() < bb.len()
}

/// The indices of the entries of `o` but `skip`, in the order of their keys (entries
/// with equal keys in their own order).
pub fn sorted_order(o: &Vec<(String, JsonValue)>, skip: Option<usize>) -> (r: Vec<usize>)
    ensures
        forall|k: int| 0 <= k < r@.len() ==> (#[trigger] r@[k]) < o@.len() && skip != Some(r@[k]),
        forall|a: int, b: int| 0 <= a < b < r@.len() ==> r@[a] != r@[b],
        forall|k: usize| k < o@.len() && skip != Some(k) ==> #[trigger] r@.contains(k),
        forall|a: int, b: int|
            #![trigger r@[a], r@[b]]
            0 <= a < b < r@.len() ==> !bytes_less(
                encode_utf8(o@[r@[b] as int].0@),
                encode_utf8(o@[r@[a] as int].0@),
            ),
{
    let mut r: Vec<usize> = Vec::new();
    let mut j: usize = 0;
    while j < o.len()
        invariant
            j <= o@.len(),
            forall|k: int| 0 <= k < r@.len() ==> (#[trigger] r@[k]) < j && skip != Some(r@[k]),
            forall|a: int, b: int| 0 <= a < b < r@.len() ==> r@[a] != r@[b],
            forall|k: usize| k < j && skip != Some(k) ==> #[trigger] r@.contains(k),
            forall|a: int, b: int|
                #![trigger r@[a], r@[b]]
                0 <= a < b < r@.len() ==> !bytes_less(
                    encode_utf8(o@[r@[b] as int].0@),
                    encode_utf8(o@[r@[a] as int].0@),
                ),
        decreases o@.len() - j,
    {
        if skip != Some(j) {
            let mut p: usize = 0;
            while p < r.len()
                invariant
                    p <= r@.len(),
                    j < o@.len(),
                    forall|k: int| 0 <= k < r@.len() ==> (#[trigger] r@[k]) < j,
                    forall|q: int|
                        0 <= q < p ==> !bytes_less(
                            encode_utf8(o@[j as int].0@),
                            encode_utf8(o@[(#[trigger] r@[q]) as int].0@),
                        ),
                ensures
                    p <= r@.len(),
                    forall|q: int|
                        0 <= q < p ==> !bytes_less(
                            encode_utf8(o@[j as int].0@),
                            encode_utf8(o@[(#[trigger] r@[q]) as int].0@),
                        ),
                    p < r@.len() ==> bytes_less(encode_utf8(o@[j as int].0@), encode_utf8(o@[r@[p as int] as int].0@)),
                decreases r@.len() - p,
            {
                if str_less(o[j].0.as_str(), o[r[p]].0.as_str()) {
                    break;
                }
                p = p + 1;
            }
            let ghost r0 = r@;
            let ghost kj = encode_utf8(o@[j as int].0@);
            r.insert(p, j);
            proof {
                assert forall|a: int, b: int|
                    #![trigger r@[a], r@[b]]
                    0 <= a < b < r@.len() implies !bytes_less(
                        encode_utf8(o@[r@[b] as int].0@),
                        encode_utf8(o@[r@[a] as int].0@),
                    ) by {
                    if b < p {
                        assert(r@[a] == r0[a] && r@[b] == r0[b]);
                    } else if a > p {
                        assert(r@[a] == r0[a - 1] && r@[b] == r0[b - 1]);
                    } else if b == p {
                        assert(r@[a] == r0[a]);
                    } else if a == p {
                        assert(r@[b] == r0[b - 1]);
                        let kp = encode_utf8(o@[r0[p as int] as int].0@);
                        let kb = encode_utf8(o@[r0[b - 1] as int].0@);
                        assert(bytes_less(kj, kp));
                        if bytes_less(kb, kj) {
                            lemma_bytes_less_transitive(kb, kj, kp);
                            if b - 1 == p {
                                lemma_bytes_less_irreflexive(kb);
                            } else {
                                assert(!bytes_less(kb, kp));
                            }
                        }
                    } else {
                        assert(r@[a] == r0[a] && r@[b] == r0[b - 1]);
                    }
                }
                assert forall|k: usize| k < j + 1 && skip != Some(k) implies #[trigger] r@.contains(k) by {
                    if k == j {
                        assert(r@[p as int] == k);
                    } else {
                        assert(r0.contains(k));
                        let i = choose|i: int| 0 <= i < r0.len() && r0[i] == k;
                        if i < p {
                            assert(r@[i] == k);
                        } else {
                            assert(r@[i + 1] == k);
                        }
                    }
                }
            }
        }
        j = j + 1;
    }
    r
}

/// The indices of the entries of `o` but `skip`, in order.
pub fn identity_order(o: &Vec<(String, JsonValue)>, skip: Option<usize>) -> (r: Vec<usize>)
    ensures
        r@ == Seq::new(o@.len() as nat, |k: int| k as usize).filter(|k: usize| skip != Some(k)),
        forall|k: int| 0 <= k < r@.len() ==> (#[trigger] r@[k]) < o@.len(),
        forall|a: int, b: int| 0 <= a < b < r@.len() ==> r@[a] != r@[b],
{
    let ghost all = Seq::new(o@.len() as nat, |k: int| k as usize);
    let ghost keep = |k: usize| skip != Some(k);
    let mut r: Vec<usize> = Vec::new();
    let mut j: usize = 0;
    while j < o.len()
        invariant
            j <= o@.len(),
            all == Seq::new(o@.len() as nat, |k: int| k as usize),
            keep == (|k: usize| skip != Some(k)),
            r@ == all.take(j as int).filter(keep),
            forall|k: int| 0 <= k < r@.len() ==> (#[trigger] r@[k]) < j,
            forall|a: int, b: int| 0 <= a < b < r@.len() ==> r@[a] < r@[b],
        decreases o@.len() - j,
    {
        proof {
            assert(all.take(j + 1).drop_last() =~= all.take(j as int));
            all.take(j + 1).lemma_filter_len_push(keep, j);
            reveal(Seq::filter);
            assert(all.take(j + 1).last() == j);
        }
        if skip != Some(j) {
            r.push(j);
        }
        j = j + 1;
    }
    proof {
        assert(all.take(o@.len() as int) =~= all);
    }
    r
}

/// The text is among the strings.
pub open spec fn has_string(r: Seq<String>, x: Seq<char>) -> bool {
    exists|i: int| 0 <= i < r.len() && #[trigger] r[i]@ == x
}

/// The text is among the string items.
pub open spec fn has_string_item(items: Seq<Json>, x: Seq<char>) -> bool {
    exists|j: int| 0 <= j < items.len() && #[trigger] items[j] == Json::Str(x)
}

/// The strings among `items`, each once, in the order of their bytes.
pub fn sorted_unique_strings(items: &Vec<JsonValue>) -> (r: Vec<String>)
    ensures
        forall|x: Seq<char>| #[trigger] has_string(r@, x) <==> has_string_item(view_array(items@), x),
{
    broadcast use group_json_lemmas;

    let ghost iv = view_array(items@);
    let mut r: Vec<String> = Vec::new();
    let mut j: usize = 0;
    while j < items.len()
        invariant
            j <= items@.len(),
            iv == view_array(items@),
            forall|x: Seq<char>| #[trigger] has_string(r@, x) <==> has_string_item(iv.take(j as int), x),
        decreases items@.len() - j,
    {
        let ghost r0 = r@;
        proof {
            lemma_view_array(items@);
            assert(iv.len() == items@.len());
            assert forall|x: Seq<char>| #[trigger] has_string_item(iv.take(j + 1), x) <==> (has_string_item(
                iv.take(j as int),
                x,
            ) || iv[j as int] == Json::Str(x)) by {
                if has_string_item(iv.take(j + 1), x) {
                    let q = choose|q: int| 0 <= q < iv.take(j + 1).len() && #[trigger] iv.take(j + 1)[q] == Json::Str(x);
                    if q < j {
                        assert(iv.take(j as int)[q] == Json::Str(x));
                    }
                }
                if has_string_item(iv.take(j as int), x) {
                    let q = choose|q: int| 0 <= q < iv.take(j as int).len() && #[trigger] iv.take(j as int)[q] == Json::Str(x);
                    assert(iv.take(j + 1)[q] == Json::Str(x));
                }
                if iv[j as int] == Json::Str(x) {
                    assert(iv.take(j + 1)[j as int] == Json::Str(x));
                }
            }
        }
        if let JsonValue::String(s) = &items[j] {
            let mut p: usize = 0;
            let mut duplicate = false;
            while p < r.len()
                invariant
                    p <= r@.len(),
                    r@ == r0,
                    duplicate ==> has_string(r@, s@),
                decreases r@.len() - p,
            {
                if str_eq(r[p].as_str(), s.as_str()) {
                    duplicate = true;
                    break;
                }
                if str_less(s.as_str(), r[p].as_str()) {
                    break;
                }
                p = p + 1;
            }
            if !duplicate {
                r.insert(p, s.clone());
                proof {
                    assert forall|x: Seq<char>| #[trigger] has_string(r@, x) <==> (has_string(r0, x) || x == s@) by {
                        if has_string(r@, x) {
                            let i = choose|i: int| 0 <= i < r@.len() && #[trigger] r@[i]@ == x;
                            if i < p {
                                assert(r0[i] == r@[i]);
                            } else if i > p {
                                assert(r0[i - 1] == r@[i]);
                            }
                        }
                        if has_string(r0, x) {
                            let i = choose|i: int| 0 <= i < r0.len() && #[trigger] r0[i]@ == x;
                            if i < p {
                                assert(r@[i] == r0[i]);
                            } else {
                                assert(r@[i + 1] == r0[i]);
                            }
                        }
                        if x == s@ {
                            assert(r@[p as int]@ == x);
                        }
                    }
                }
            }
        }
        j = j + 1;
    }
    proof {
        assert(iv.take(items@.len() as int) =~= iv);
    }
    r
}

} // verus!
