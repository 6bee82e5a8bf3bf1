use vstd::prelude::*;

use crate::error::{JsonLdError, JsonLdErrorCode, plain_error};
use crate::json::{Json, JsonValue, group_json_lemmas, obj_view, view_array, entries_get, entries_insert, entries_remove, lemma_key_index, obj_get, obj_find, obj_insert, obj_remove};
use crate::strs::{ascii_lower, char_len, concat, find_char_from, str_eq, string_of, to_ascii_lowercase};
use crate::{Direction, JsonOrReference, direction_text};

verus! {

broadcast use group_json_lemmas;

/// The keywords of JSON-LD.
pub open spec fn is_keyword(s: Seq<char>) -> bool {
    ||| s == "@base"@
    ||| s == "@container"@
    ||| s == "@context"@
    ||| s == "@default"@
    ||| s == "@direction"@
    ||| s == "@embed"@
    ||| s == "@explicit"@
    ||| s == "@graph"@
    ||| s == "@id"@
    ||| s == "@included"@
    ||| s == "@index"@
    ||| s == "@json"@
    ||| s == "@language"@
    ||| s == "@list"@
    ||| s == "@nest"@
    ||| s == "@none"@
    ||| s == "@omitDefault"@
    ||| s == "@prefix"@
    ||| s == "@preserve"@
    ||| s == "@protected"@
    ||| s == "@requireAll"@
    ||| s == "@reverse"@
    ||| s == "@set"@
    ||| s == "@type"@
    ||| s == "@value"@
    ||| s == "@version"@
    ||| s == "@vocab"@
}

/// Whether `value` is a JSON-LD keyword.
pub fn is_jsonld_keyword(value: &str) -> (r: bool)
    ensures
        r == is_keyword(value@),
{
    str_eq(value, "@base") || str_eq(value, "@container") || str_eq(value, "@context") || str_eq(
        value,
        "@default",
    ) || str_eq(value, "@direction") || str_eq(value, "@embed") || str_eq(value, "@explicit")
        || str_eq(value, "@graph") || str_eq(value, "@id") || str_eq(value, "@included") || str_eq(
        value,
        "@index",
    ) || str_eq(value, "@json") || str_eq(value, "@language") || str_eq(value, "@list") || str_eq(
        value,
        "@nest",
    ) || str_eq(value, "@none") || str_eq(value, "@omitDefault") || str_eq(value, "@prefix")
        || str_eq(value, "@preserve") || str_eq(value, "@protected") || str_eq(value, "@requireAll")
        || str_eq(value, "@reverse") || str_eq(value, "@set") || str_eq(value, "@type") || str_eq(
        value,
        "@value",
    ) || str_eq(value, "@version") || str_eq(value, "@vocab")
}

pub open spec fn is_ascii_alpha(c: char) -> bool {
    ('a' <= c && c <= 'z') || ('A' <= c && c <= 'Z')
}

/// `@` followed by one or more ASCII letters: the form that the JSON-LD algorithms
/// set aside for keywords.
pub open spec fn has_keyword_form(s: Seq<char>) -> bool {
    &&& s.len() > 1
    &&& s[0] == '@'
    &&& forall|i: int| 1 <= i < s.len() ==> is_ascii_alpha(#[trigger] s[i])
}

/// Every keyword has the form of a keyword.
pub proof fn lemma_keyword_has_form(s: Seq<char>)
    requires
        is_keyword(s),
    ensures
        has_keyword_form(s),
{
    reveal_strlit("@base");
    reveal_strlit("@container");
    reveal_strlit("@context");
    reveal_strlit("@default");
    reveal_strlit("@direction");
    reveal_strlit("@embed");
    reveal_strlit("@explicit");
    reveal_strlit("@graph");
    reveal_strlit("@id");
    reveal_strlit("@included");
    reveal_strlit("@index");
    reveal_strlit("@json");
    reveal_strlit("@language");
    reveal_strlit("@list");
    reveal_strlit("@nest");
    reveal_strlit("@none");
    reveal_strlit("@omitDefault");
    reveal_strlit("@prefix");
    reveal_strlit("@preserve");
    reveal_strlit("@protected");
    reveal_strlit("@requireAll");
    reveal_strlit("@reverse");
    reveal_strlit("@set");
    reveal_strlit("@type");
    reveal_strlit("@value");
    reveal_strlit("@version");
    reveal_strlit("@vocab");
}

/// Whether `value` has the form of a keyword.
pub fn looks_like_a_jsonld_keyword(value: &str) -> (r: bool)
    ensures
        r == has_keyword_form(value@),
{
    let n = char_len(value);
    if n <= 1 || value.get_char(0) != '@' {
        return false;
    }
    let mut i: usize = 1;
    while i < n
        invariant
            n == value@.len(),
            1 <= i <= n,
            forall|j: int| 1 <= j < i ==> is_ascii_alpha(#[trigger] value@[j]),
        decreases n - i,
    {
        let c = value.get_char(i);
        if !(('a' <= c && c <= 'z') || ('A' <= c && c <= 'Z')) {
            return false;
        }
        i = i + 1;
    }
    true
}

/// `p` is the index of the first `:` after the first character of `s`.
pub open spec fn first_colon_at(s: Seq<char>, p: int) -> bool {
    &&& 1 <= p < s.len()
    &&& s[p] == ':'
    &&& forall|j: int| 1 <= j < p ==> s[j] != ':'
}

/// The prefix and suffix of a compact IRI: what comes before and after the first `:`
/// that follows the first character.
pub open spec fn compact_iri_parts(s: Seq<char>) -> Option<(Seq<char>, Seq<char>)> {
    if exists|p: int| first_colon_at(s, p) {
        let p = choose|p: int| first_colon_at(s, p);
        Some((s.subrange(0, p), s.subrange(p + 1, s.len() as int)))
    } else {
        None
    }
}

proof fn lemma_first_colon_unique(s: Seq<char>, p: int, q: int)
    requires
        first_colon_at(s, p),
        first_colon_at(s, q),
    ensures
        p == q,
{
}

/// The first character of `s` is encoded in one byte, or there is none.
pub open spec fn text_ok(s: Seq<char>) -> bool {
    s.len() == 0 || (s[0] as u32) < 128
}

/// The prefix and suffix of `value` where it has the form of a compact IRI.
pub fn as_compact_iri(value: &str) -> (r: Option<(&str, &str)>)
    requires
        text_ok(value@),
    ensures
        match compact_iri_parts(value@) {
            Some((p, s)) => r matches Some((a, b)) && a@ == p && b@ == s,
            None => r is None,
        },
{
    split_compact_iri(value)
}

/// The prefix and suffix of `value` where it has the form of a compact IRI.
pub fn split_compact_iri(value: &str) -> (r: Option<(&str, &str)>)
    ensures
        match compact_iri_parts(value@) {
            Some((p, s)) => r matches Some((a, b)) && a@ == p && b@ == s,
            None => r is None,
        },
{
    let n = char_len(value);
    if n == 0 {
        return None;
    }
    match find_char_from(value, ':', 1) {
        Some(p) => {
            proof {
                assert(first_colon_at(value@, p as int));
                let q = choose|q: int| first_colon_at(value@, q);
                lemma_first_colon_unique(value@, p as int, q);
            }
            Some((value.substring_char(0, p), value.substring_char(p + 1, n)))
        },
        None => None,
    }
}

pub open spec fn lang_dir_spec(language: Option<Seq<char>>, direction: Option<Direction>) -> Seq<char> {
    let l = match language {
        Some(l) => ascii_lower(l),
        None => Seq::empty(),
    };
    match direction {
        None => l,
        Some(Direction::NoDirection) => if l.len() == 0 {
            "@none"@
        } else {
            l
        },
        Some(d) => if l == "@null"@ || l == "@none"@ {
            "_"@ + direction_text(d)
        } else {
            l + "_"@ + direction_text(d)
        },
    }
}

/// The key under which a language and a direction are grouped: the language in lower
/// case, `_` and the direction.
pub fn make_lang_dir(language: Option<String>, direction: Option<Direction>) -> (r: String)
    ensures
        r@ == lang_dir_spec(
            match language {
                Some(l) => Some(l@),
                None => None,
            },
            direction,
        ),
{
    let language = match language {
        Some(l) => to_ascii_lowercase(l.as_str()),
        None => String::new(),
    };
    match direction {
        None => language,
        Some(Direction::NoDirection) => {
            if char_len(language.as_str()) == 0 {
                string_of("@none")
            } else {
                language
            }
        },
        Some(d) => {
            if str_eq(language.as_str(), "@null") || str_eq(language.as_str(), "@none") {
                concat("_", d.as_str())
            } else {
                let mut r = language;
                r.append("_");
                r.append(d.as_str());
                r
            }
        },
    }
}

/// The keys of an object other than `@id` and `@index`.
pub open spec fn graph_keys(e: Seq<(Seq<char>, Json)>) -> Seq<Seq<char>> {
    e.map_values(|p: (Seq<char>, Json)| p.0).filter(|k: Seq<char>| k != "@id"@ && k != "@index"@)
}

/// Whether `value` is a graph object: `@graph` is its one key besides `@id` and
/// `@index`.
pub fn is_graph_object(value: &Vec<(String, JsonValue)>) -> (r: bool)
    ensures
        r == (graph_keys(obj_view(*value)) == seq!["@graph"@]),
{
    let ghost e = obj_view(*value);
    let ghost keys = e.map_values(|p: (Seq<char>, Json)| p.0);
    let ghost f = |k: Seq<char>| k != "@id"@ && k != "@index"@;
    let mut count: usize = 0;
    let mut first_is_graph = false;
    let mut i: usize = 0;
    while i < value.len()
        invariant
            i <= value@.len(),
            e == obj_view(*value),
            keys == e.map_values(|p: (Seq<char>, Json)| p.0),
            f == (|k: Seq<char>| k != "@id"@ && k != "@index"@),
            count <= i,
            count == keys.take(i as int).filter(f).len(),
            count >= 1 ==> (first_is_graph == (keys.take(i as int).filter(f)[0] == "@graph"@)),
        decreases value@.len() - i,
    {
        let k = value[i].0.as_str();
        proof {
            assert(keys.take(i + 1).drop_last() =~= keys.take(i as int));
            assert(keys[i as int] == k@);
            keys.take(i + 1).lemma_filter_len_push(f, k@);
            reveal(Seq::filter);
        }
        if !str_eq(k, "@id") && !str_eq(k, "@index") {
            if count == 0 {
                first_is_graph = str_eq(k, "@graph");
            }
            count = count + 1;
        }
        i = i + 1;
    }
    proof {
        assert(keys.take(value@.len() as int) =~= keys);
        if count == 1 {
            assert(keys.filter(f).len() == 1);
            if first_is_graph {
                assert(keys.filter(f) =~= seq!["@graph"@]);
            }
        }
    }
    count == 1 && first_is_graph
}

/// Adds one value under `k`: appended to the array there, joined with the value there
/// into an array of two, or set where there is no value.
pub open spec fn add_one(e: Seq<(Seq<char>, Json)>, k: Seq<char>, v: Json) -> Seq<(Seq<char>, Json)> {
    match entries_get(e, k) {
        Some(Json::Array(a)) => entries_insert(e, k, Json::Array(a.push(v))),
        Some(orig) => entries_insert(entries_remove(e, k), k, Json::Array(seq![orig, v])),
        None => entries_insert(e, k, v),
    }
}

/// Adds the values one after the other, arrays flattened.
pub open spec fn add_all(e: Seq<(Seq<char>, Json)>, k: Seq<char>, items: Seq<Json>) -> Seq<
    (Seq<char>, Json),
>
    decreases items,
{
    if items.len() == 0 {
        e
    } else {
        add_value_spec(add_all(e, k, items.drop_last()), k, items.last(), false)
    }
}

/// The entries after `add_value`: with `as_array`, the value under `k` is first made
/// an array; an array value adds its elements one by one.
pub open spec fn add_value_spec(e: Seq<(Seq<char>, Json)>, k: Seq<char>, v: Json, as_array: bool) -> Seq<
    (Seq<char>, Json),
>
    decreases v,
{
    let e1 = if as_array && !(entries_get(e, k) matches Some(Json::Array(_))) {
        entries_insert(
            entries_remove(e, k),
            k,
            Json::Array(
                match entries_get(e, k) {
                    Some(orig) => seq![orig],
                    None => Seq::empty(),
                },
            ),
        )
    } else {
        e
    };
    match v {
        Json::Array(items) => add_all(e1, k, items),
        _ => add_one(e1, k, v),
    }
}

/// The values that a value stands for when it is added: the items of an array, its
/// nested arrays flattened, or the value alone.
pub open spec fn flat(v: Json) -> Seq<Json>
    decreases v,
{
    match v {
        Json::Array(items) => flat_all(items),
        _ => seq![v],
    }
}

pub open spec fn flat_all(items: Seq<Json>) -> Seq<Json>
    decreases items,
{
    if items.len() == 0 {
        Seq::empty()
    } else {
        flat_all(items.drop_last()) + flat(items.last())
    }
}

/// The items that the value under a key stands for before values are added to it.
pub open spec fn prior_items(v: Option<Json>) -> Seq<Json> {
    match v {
        Some(Json::Array(a)) => a,
        Some(x) => seq![x],
        None => Seq::empty(),
    }
}

pub(crate) proof fn lemma_add_value_others(e: Seq<(Seq<char>, Json)>, k: Seq<char>, v: Json, as_array: bool)
    ensures
        forall|other: Seq<char>|
            other != k ==> #[trigger] entries_get(add_value_spec(e, k, v, as_array), other) == entries_get(e, other),
    decreases v, 1nat,
{
    let e1 = if as_array && !(entries_get(e, k) matches Some(Json::Array(_))) {
        entries_insert(
            entries_remove(e, k),
            k,
            Json::Array(
                match entries_get(e, k) {
                    Some(orig) => seq![orig],
                    None => Seq::empty(),
                },
            ),
        )
    } else {
        e
    };
    assert forall|other: Seq<char>| other != k implies #[trigger] entries_get(e1, other) == entries_get(e, other) by {
        crate::json::law_get_after_remove(e, k, other);
        crate::json::law_get_after_insert(entries_remove(e, k), k, Json::Null, other);
        law_insert_others(entries_remove(e, k), k, other);
    }
    match v {
        Json::Array(items) => {
            lemma_add_all_others(e1, k, items);
        },
        _ => {
            assert forall|other: Seq<char>| other != k implies #[trigger] entries_get(add_one(e1, k, v), other)
                == entries_get(e1, other) by {
                law_insert_others(e1, k, other);
                crate::json::law_get_after_remove(e1, k, other);
                law_insert_others(entries_remove(e1, k), k, other);
            }
        },
    }
}

proof fn lemma_add_all_others(e: Seq<(Seq<char>, Json)>, k: Seq<char>, items: Seq<Json>)
    ensures
        forall|other: Seq<char>|
            other != k ==> #[trigger] entries_get(add_all(e, k, items), other) == entries_get(e, other),
    decreases items, 0nat,
{
    if items.len() > 0 {
        lemma_add_all_others(e, k, items.drop_last());
        lemma_add_value_others(add_all(e, k, items.drop_last()), k, items.last(), false);
    }
}

/// Setting `k` to any value keeps the value of every other key.
proof fn law_insert_others(e: Seq<(Seq<char>, Json)>, k: Seq<char>, other: Seq<char>)
    ensures
        forall|v: Json| other != k ==> #[trigger] entries_get(entries_insert(e, k, v), other) == entries_get(e, other),
{
    assert forall|v: Json| other != k implies #[trigger] entries_get(entries_insert(e, k, v), other) == entries_get(
        e,
        other,
    ) by {
        crate::json::law_get_after_insert(e, k, v, other);
    }
}

proof fn lemma_add_value_to_array(e: Seq<(Seq<char>, Json)>, k: Seq<char>, v: Json, a: Seq<Json>)
    requires
        entries_get(e, k) == Some(Json::Array(a)),
    ensures
        entries_get(add_value_spec(e, k, v, false), k) == Some(Json::Array(a + flat(v))),
    decreases v, 1nat,
{
    match v {
        Json::Array(items) => {
            lemma_add_all_to_array(e, k, items, a);
        },
        _ => {
            crate::json::law_get_after_insert(e, k, Json::Array(a.push(v)), k);
            assert(a.push(v) =~= a + seq![v]);
        },
    }
}

proof fn lemma_add_all_to_array(e: Seq<(Seq<char>, Json)>, k: Seq<char>, items: Seq<Json>, a: Seq<Json>)
    requires
        entries_get(e, k) == Some(Json::Array(a)),
    ensures
        entries_get(add_all(e, k, items), k) == Some(Json::Array(a + flat_all(items))),
    decreases items, 0nat,
{
    if items.len() == 0 {
        assert(a + flat_all(items) =~= a);
    } else {
        lemma_add_all_to_array(e, k, items.drop_last(), a);
        lemma_add_value_to_array(add_all(e, k, items.drop_last()), k, items.last(), a + flat_all(items.drop_last()));
        assert(a + flat_all(items.drop_last()) + flat(items.last()) =~= a + flat_all(items));
    }
}

/// Adding a value as an array leaves under the key an array: the items that were
/// there, then those that the added value stands for. Every other key keeps its value.
pub proof fn law_add_value_appends(e: Seq<(Seq<char>, Json)>, k: Seq<char>, v: Json, other: Seq<char>)
    ensures
        entries_get(add_value_spec(e, k, v, true), k) == Some(
            Json::Array(prior_items(entries_get(e, k)) + flat(v)),
        ),
        other != k ==> entries_get(add_value_spec(e, k, v, true), other) == entries_get(e, other),
{
    let prior = prior_items(entries_get(e, k));
    let e1 = if !(entries_get(e, k) matches Some(Json::Array(_))) {
        entries_insert(
            entries_remove(e, k),
            k,
            Json::Array(
                match entries_get(e, k) {
                    Some(orig) => seq![orig],
                    None => Seq::empty(),
                },
            ),
        )
    } else {
        e
    };
    crate::json::law_get_after_insert(entries_remove(e, k), k, Json::Array(prior), k);
    assert(entries_get(e1, k) == Some(Json::Array(prior)));
    lemma_add_value_to_array(e1, k, v, prior);
    match v {
        Json::Array(items) => {},
        _ => {
            assert(add_value_spec(e, k, v, true) == add_value_spec(e1, k, v, false));
        },
    }
    lemma_add_value_others(e, k, v, true);
}

/// Adds `value` under `key` in `object`.
pub fn add_value(object: &mut Vec<(String, JsonValue)>, key: &str, value: JsonValue, as_array: bool)
    ensures
        obj_view(*final(object)) == add_value_spec(obj_view(*old(object)), key@, value@, as_array),
    decreases value,
{
    let ghost e0 = obj_view(*object);
    if as_array {
        let is_array = match obj_get(object, key) {
            Some(v) => v.as_array().is_some(),
            None => false,
        };
        if !is_array {
            let mut array: Vec<JsonValue> = Vec::new();
            if let Some(original) = obj_remove(object, key) {
                array.push(original);
            }
            proof {
                assert(view_array(array@) =~= match entries_get(e0, key@) {
                    Some(orig) => seq![orig],
                    None => Seq::<Json>::empty(),
                });
            }
            obj_insert(object, string_of(key), JsonValue::Array(array));
        }
    }
    let ghost e1 = obj_view(*object);
    match value {
        JsonValue::Array(items) => {
            add_all_values(object, key, items);
        },
        value => {
            add_one_value(object, key, value);
        },
    }
}

fn add_all_values(object: &mut Vec<(String, JsonValue)>, key: &str, values: Vec<JsonValue>)
    ensures
        obj_view(*final(object)) == add_all(obj_view(*old(object)), key@, view_array(values@)),
    decreases values,
{
    let ghost e0 = obj_view(*object);
    let ghost orig = values;
    let ghost items0 = values@;
    let mut items = values;
    let n = items.len();
    let mut i: usize = 0;
    while i < n
        invariant
            n == items@.len() == items0.len(),
            i <= n,
            items0 == orig@,
            orig == values,
            forall|j: int| i <= j < n ==> items@[j] == items0[j],
            obj_view(*object) == add_all(e0, key@, view_array(items0).take(i as int)),
        decreases n - i,
    {
        let mut item = JsonValue::Null;
        items.set_and_swap(i, &mut item);
        proof {
            assert(item == items0[i as int]);
            assert(decreases_to!(orig => orig@[i as int]));
            assert(view_array(items0).take(i + 1).drop_last() =~= view_array(items0).take(i as int));
        }
        add_value(object, key, item, false);
        i = i + 1;
    }
    proof {
        assert(view_array(items0).take(n as int) =~= view_array(items0));
    }
}

fn add_one_value(object: &mut Vec<(String, JsonValue)>, key: &str, value: JsonValue)
    requires
        !(value@ is Array),
    ensures
        obj_view(*final(object)) == add_one(obj_view(*old(object)), key@, value@),
{
    let ghost e0 = obj_view(*object);
    let ghost vv = value@;
    match obj_find(object, key) {
        Some(i) => {
            proof {
                lemma_key_index(e0, key@);
            }
            let mut slot = (String::new(), JsonValue::Null);
            object.set_and_swap(i, &mut slot);
            let (k, original) = slot;
            match original {
                JsonValue::Array(a) => {
                    let ghost av = view_array(a@);
                    let mut a = a;
                    a.push(value);
                    proof {
                        assert(view_array(a@) =~= av.push(vv));
                    }
                    object.set(i, (k, JsonValue::Array(a)));
                    proof {
                        assert(obj_view(*object) =~= entries_insert(e0, key@, Json::Array(av.push(vv))));
                    }
                },
                original => {
                    let ghost ov = original@;
                    let _ = object.remove(i);
                    let mut pair: Vec<JsonValue> = Vec::new();
                    pair.push(original);
                    pair.push(value);
                    proof {
                        assert(view_array(pair@) =~= seq![ov, vv]);
                        assert(obj_view(*object) =~= entries_remove(e0, key@));
                    }
                    obj_insert(object, string_of(key), JsonValue::Array(pair));
                },
            }
        },
        None => {
            obj_insert(object, string_of(key), value);
        },
    }
}

/// The JSON value that an optional context stands for.
pub open spec fn context_json(c: Option<JsonOrReference>) -> Json {
    match c {
        Some(JsonOrReference::JsonObject(o)) => Json::Object(obj_view(o)),
        Some(JsonOrReference::Reference(s)) => Json::Str(s@),
        None => Json::Null,
    }
}

/// A value may stand as a context: an object, a string or null.
pub open spec fn is_context_json(v: Json) -> bool {
    v is Object || v is Str || v is Null
}

/// The contexts that a `@context` value lists, where each is an object, a string or
/// null; an array lists its elements, any other value lists itself.
pub open spec fn map_context_spec(v: Json) -> Option<Seq<Json>> {
    match v {
        Json::Array(items) => if forall|i: int| 0 <= i < items.len() ==> is_context_json(#[trigger] items[i]) {
            Some(items)
        } else {
            None
        },
        v => if is_context_json(v) {
            Some(seq![v])
        } else {
            None
        },
    }
}

/// Reads a `@context` value as a list of optional contexts.
pub fn map_context(ctx: JsonValue) -> (r: Result<Vec<Option<JsonOrReference>>, JsonLdError>)
    ensures
        match map_context_spec(ctx@) {
            Some(items) => r matches Ok(v) && v@.map_values(|c: Option<JsonOrReference>| context_json(c)) == items,
            None => r matches Err(e) && plain_error(e, JsonLdErrorCode::InvalidLocalContext),
        },
{
    let ghost cv = ctx@;
    match ctx {
        JsonValue::Array(items) => {
            let ghost items0 = items@;
            let mut items = items;
            let mut r: Vec<Option<JsonOrReference>> = Vec::new();
            let n = items.len();
            let mut i: usize = 0;
            while i < n
                invariant
                    n == items@.len() == items0.len(),
                    cv == Json::Array(view_array(items0)),
                    cv == ctx@,
                    i <= n,
                    forall|j: int| i <= j < n ==> items@[j] == items0[j],
                    r@.len() == i,
                    forall|j: int| 0 <= j < i ==> is_context_json(#[trigger] view_array(items0)[j]),
                    forall|j: int| 0 <= j < i ==> context_json(#[trigger] r@[j]) == view_array(items0)[j],
                decreases n - i,
            {
                let mut item = JsonValue::Null;
                items.set_and_swap(i, &mut item);
                proof {
                    assert(view_array(items0)[i as int] == item@);
                }
                match item {
                    JsonValue::Object(o) => r.push(Some(JsonOrReference::JsonObject(o))),
                    JsonValue::String(s) => r.push(Some(JsonOrReference::Reference(s))),
                    JsonValue::Null => r.push(None),
                    _ => {
                        proof {
                            assert(!is_context_json(view_array(items0)[i as int]));
                            assert(map_context_spec(cv) is None);
                        }
                        return Err(JsonLdError::new(JsonLdErrorCode::InvalidLocalContext));
                    },
                }
                i = i + 1;
            }
            proof {
                assert(r@.map_values(|c: Option<JsonOrReference>| context_json(c)) =~= view_array(items0));
            }
            Ok(r)
        },
        JsonValue::Object(o) => {
            let mut r: Vec<Option<JsonOrReference>> = Vec::new();
            r.push(Some(JsonOrReference::JsonObject(o)));
            proof {
                assert(r@.map_values(|c: Option<JsonOrReference>| context_json(c)) =~= seq![cv]);
            }
            Ok(r)
        },
        JsonValue::String(s) => {
            let mut r: Vec<Option<JsonOrReference>> = Vec::new();
            r.push(Some(JsonOrReference::Reference(s)));
            proof {
                assert(r@.map_values(|c: Option<JsonOrReference>| context_json(c)) =~= seq![cv]);
            }
            Ok(r)
        },
        JsonValue::Null => {
            let mut r: Vec<Option<JsonOrReference>> = Vec::new();
            r.push(None);
            proof {
                assert(r@.map_values(|c: Option<JsonOrReference>| context_json(c)) =~= seq![cv]);
            }
            Ok(r)
        },
        _ => Err(JsonLdError::new(JsonLdErrorCode::InvalidLocalContext)),
    }
}

} // verus!

verus! {

/// What `url::Url::parse` gives for the text `input`: the text of the URL (its
/// `as_str`), or the text of the error.
pub uninterp spec fn url_parse_outcome(input: Seq<char>) -> Result<Seq<char>, Seq<char>>;

/// What `url::Url::options().base_url(..).parse(..)` gives for `reference` against the
/// URL that `base` is the text of (no base where it is `None`): the text of the URL,
/// or the text of the error, which is that of parsing `base` where that fails.
pub uninterp spec fn url_resolve_outcome(reference: Seq<char>, base: Option<Seq<char>>) -> Result<
    Seq<char>,
    Seq<char>,
>;

pub open spec fn opt_view(s: Option<&str>) -> Option<Seq<char>> {
    match s {
        Some(t) => Some(t@),
        None => None,
    }
}

pub open spec fn outcome_is(r: Result<String, String>, o: Result<Seq<char>, Seq<char>>) -> bool {
    match r {
        Ok(s) => o == Ok::<Seq<char>, Seq<char>>(s@),
        Err(e) => o == Err::<Seq<char>, Seq<char>>(e@),
    }
}

/// Parses `input` with `url::Url::parse`: the text of the URL (its `as_str`), or the
/// text (`Display`) of the error. The contract names the outcome after the input
/// alone; what the URL standard makes of a given input is not stated.
#[verifier::external_body]
pub(crate) fn url_parse(input: &str) -> (r: Result<String, String>)
    ensures
        outcome_is(r, url_parse_outcome(input@)),
{
    match url::Url::parse(input) {
        Ok(u) => Ok(u.as_str().to_string()),
        Err(e) => Err(e.to_string()),
    }
}

/// Resolves `r` against the URL whose text is `base` with `url::Url::options()
/// .base_url(..).parse(..)` (the base is parsed back with `url::Url::parse`). With no
/// base this is `url::Url::parse` itself, as the url crate defines it.
#[verifier::external_body]
pub fn resolve(r: &str, base: Option<&str>) -> (res: Result<String, String>)
    ensures
        outcome_is(res, url_resolve_outcome(r@, opt_view(base))),
        base is None ==> outcome_is(res, url_parse_outcome(r@)),
{
    let base = match base {
        Some(b) => match url::Url::parse(b) {
            Ok(u) => Some(u),
            Err(e) => return Err(e.to_string()),
        },
        None => None,
    };
    match url::Url::options().base_url(base.as_ref()).parse(r) {
        Ok(u) => Ok(u.as_str().to_string()),
        Err(e) => Err(e.to_string()),
    }
}

/// What `resolve_with_str` gives: the error of parsing the base, or the resolution
/// against the parsed base.
pub open spec fn resolve_with_str_spec(r: Seq<char>, base: Option<Seq<char>>) -> Result<Seq<char>, Seq<char>> {
    match base {
        Some(b) => match url_parse_outcome(b) {
            Err(e) => Err(e),
            Ok(u) => url_resolve_outcome(r, Some(u)),
        },
        None => url_resolve_outcome(r, None),
    }
}

/// Resolves `r` against `base`, which is parsed as a URL first.
pub fn resolve_with_str(r: &str, base: Option<&str>) -> (res: Result<String, String>)
    ensures
        outcome_is(res, resolve_with_str_spec(r@, opt_view(base))),
{
    match base {
        Some(b) => match url_parse(b) {
            Err(e) => Err(e),
            Ok(u) => resolve(r, Some(u.as_str())),
        },
        None => resolve(r, None),
    }
}

/// `value` parses as an absolute URL.
pub open spec fn is_iri_spec(value: Seq<char>) -> bool {
    url_parse_outcome(value) is Ok
}

/// Whether `value` parses as an absolute URL.
pub fn is_iri(value: &str) -> (r: bool)
    ensures
        r == is_iri_spec(value@),
{
    url_parse(value).is_ok()
}

} // verus!

verus! {

/// Items handed out one at a time, or one error handed out once.
pub enum OneError<I, E> {
    Items(Vec<I>),
    Failure(Option<E>),
}

impl<I, E> OneError<I, E> {
    /// The items of `value`, or its error.
    pub fn new(value: Result<Vec<I>, E>) -> (r: Self)
        ensures
            match value {
                Ok(v) => r == OneError::<I, E>::Items(v),
                Err(e) => r == OneError::<I, E>::Failure(Some(e)),
            },
    {
        match value {
            Ok(v) => OneError::Items(v),
            Err(e) => OneError::Failure(Some(e)),
        }
    }

    /// The next item, or the error where there is one and it has not been handed out.
    pub fn next(&mut self) -> (r: Option<Result<I, E>>)
        ensures
            match *old(self) {
                OneError::Items(v) => if v@.len() > 0 {
                    r == Some(Ok::<I, E>(v@[0])) && (*final(self) matches OneError::Items(w) && w@ == v@.drop_first())
                } else {
                    r is None && *final(self) == *old(self)
                },
                OneError::Failure(Some(e)) => r == Some(Err::<I, E>(e)) && *final(self) == OneError::<I, E>::Failure(None),
                OneError::Failure(None) => r is None && *final(self) == *old(self),
            },
    {
        match self {
            OneError::Items(items) => {
                if items.len() > 0 {
                    Some(Ok(items.remove(0)))
                } else {
                    None
                }
            },
            OneError::Failure(e) => match e.take() {
                Some(e) => Some(Err(e)),
                None => None,
            },
        }
    }
}

} // verus!
