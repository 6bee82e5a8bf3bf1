use vstd::prelude::*;

use crate::container::{Container, ContainerKind, GraphContainer, UnorderedContainer, container_of, no_container, parse_container, str_views};
use crate::expand::{IRIExpansionArguments, expand_iri, starts_with_two_slashes};
use crate::error::{JsonLdError, JsonLdErrorCode, plain_error};
use crate::json::{Json, JsonValue, clone_object, entries_get, has_key, obj_contains, obj_get, obj_remove, object_equal, group_json_lemmas, key_index, lemma_key_index, lemma_key_index_is, obj_view, view_array, view_entries, lemma_view_entries};
use crate::strs::{char_len, concat, contains_char, opt_string_view, ends_with_char, starts_with_char, str_eq, string_of};
use vstd::string::StringSliceAdditionalSpecFns;
use vstd::utf8::{encode_utf8, encode_utf8_decode_utf8};
use crate::remote::{DocumentLoader, load_remote};
use crate::util::{compact_iri_parts, lemma_keyword_has_form, opt_view, resolve, url_parse, url_resolve_outcome, context_json, has_keyword_form, is_iri, is_jsonld_keyword, is_keyword, looks_like_a_jsonld_keyword, map_context, split_compact_iri};
use crate::{Context, Direction, JsonLdOptionsImpl, LoadedContext, loaded_contents, loaded_get, loaded_insert, JsonLdOptions, JsonLdProcessingMode, JsonOrReference, TermDefinition};

verus! {

broadcast use group_json_lemmas;

/// The term definitions of a context as pairs of key and definition.
pub open spec fn term_entries(d: Seq<(String, TermDefinition)>) -> Seq<(Seq<char>, TermDefinition)> {
    Seq::new(d.len(), |i: int| (d[i].0@, d[i].1))
}

/// The definition of the term `k` in `ctx`.
pub open spec fn term_def(ctx: Context, k: Seq<char>) -> Option<TermDefinition> {
    let e = term_entries(ctx.term_definitions@);
    if key_index(e, k) >= 0 {
        Some(e[key_index(e, k)].1)
    } else {
        None
    }
}

/// The index of the definition of `k`.
pub fn find_term(defs: &Vec<(String, TermDefinition)>, k: &str) -> (r: Option<usize>)
    ensures
        match r {
            Some(i) => i == key_index(term_entries(defs@), k@) && i < defs@.len(),
            None => key_index(term_entries(defs@), k@) < 0,
        },
{
    let ghost e = term_entries(defs@);
    let mut i: usize = 0;
    while i < defs.len()
        invariant
            i <= defs@.len(),
            e == term_entries(defs@),
            forall|j: int| 0 <= j < i ==> (#[trigger] e[j]).0 != k@,
        decreases defs@.len() - i,
    {
        if str_eq(defs[i].0.as_str(), k) {
            proof {
                lemma_key_index_is(e, k@, i as int);
            }
            return Some(i);
        }
        i = i + 1;
    }
    proof {
        lemma_key_index(e, k@);
    }
    None
}

/// The definition of the term `k`.
pub fn get_term<'a>(ctx: &'a Context, k: &str) -> (r: Option<&'a TermDefinition>)
    ensures
        match r {
            Some(t) => term_def(*ctx, k@) == Some(*t),
            None => term_def(*ctx, k@) is None,
        },
{
    match find_term(&ctx.term_definitions, k) {
        Some(i) => Some(&ctx.term_definitions[i].1),
        None => None,
    }
}

/// `a` comes before `b` among keys of term definitions: it is shorter in bytes, or as
/// long and before it in the order of bytes.
pub open spec fn key_before(a: Seq<u8>, b: Seq<u8>) -> bool {
    a.len() < b.len() || (a.len() == b.len() && bytes_before(a, b))
}

pub open spec fn bytes_before(a: Seq<u8>, b: Seq<u8>) -> bool {
    exists|i: int|
        0 <= i < a.len() && i < b.len() && a[i] < b[i] && forall|j: int| 0 <= j < i ==> a[j] == b[j]
}

/// Key `a` comes before key `b` among the keys of term definitions (compared as
/// UTF-8 bytes).
pub open spec fn key_order(a: Seq<char>, b: Seq<char>) -> bool {
    key_before(encode_utf8(a), encode_utf8(b))
}

/// The term definitions are in the order of their keys, each key once.
pub open spec fn terms_sorted(defs: Seq<(String, TermDefinition)>) -> bool {
    forall|i: int, j: int|
        #![trigger defs[i], defs[j]]
        0 <= i < j < defs.len() ==> key_order(defs[i].0@, defs[j].0@)
}

proof fn lemma_key_before_transitive(a: Seq<u8>, b: Seq<u8>, c: Seq<u8>)
    requires
        key_before(a, b),
        key_before(b, c),
    ensures
        key_before(a, c),
{
    if a.len() == b.len() && b.len() == c.len() {
        let i = choose|i: int| 0 <= i < a.len() && i < b.len() && a[i] < b[i] && forall|j: int| 0 <= j < i ==> a[j] == b[j];
        let k = choose|k: int| 0 <= k < b.len() && k < c.len() && b[k] < c[k] && forall|j: int| 0 <= j < k ==> b[j] == c[j];
        let m = if i < k { i } else { k };
        assert(a[m] < c[m]);
        assert(forall|j: int| 0 <= j < m ==> a[j] == c[j]);
    }
}

proof fn lemma_first_difference(a: Seq<u8>, b: Seq<u8>, i: int)
    requires
        a.len() == b.len(),
        0 <= i <= a.len(),
        forall|j: int| 0 <= j < i ==> a[j] == b[j],
        a != b,
    ensures
        bytes_before(a, b) || bytes_before(b, a),
    decreases a.len() - i,
{
    if i == a.len() {
        assert(a =~= b);
    } else if a[i] == b[i] {
        lemma_first_difference(a, b, i + 1);
    } else if a[i] < b[i] {
        assert(bytes_before(a, b));
    } else {
        assert(bytes_before(b, a));
    }
}

proof fn lemma_key_order_total(a: Seq<char>, b: Seq<char>)
    requires
        a != b,
    ensures
        key_order(a, b) || key_order(b, a),
{
    encode_utf8_decode_utf8(a);
    encode_utf8_decode_utf8(b);
    let x = encode_utf8(a);
    let y = encode_utf8(b);
    if x.len() == y.len() {
        lemma_first_difference(x, y, 0);
    }
}

/// Whether key `a` comes before key `b`.
pub fn key_less(a: &str, b: &str) -> (r: bool)
    ensures
        r == key_before(a.spec_bytes(), b.spec_bytes()),
{
    let ab = a.as_bytes();
    let bb = b.as_bytes();
    if ab.len() != bb.len() {
        return ab.len() < bb.len();
    }
    let mut i: usize = 0;
    while i < ab.len()
        invariant
            ab@ == a.spec_bytes(),
            bb@ == b.spec_bytes(),
            ab@.len() == bb@.len(),
            i <= ab@.len(),
            forall|j: int| 0 <= j < i ==> ab@[j] == bb@[j],
        decreases ab@.len() - i,
    {
        if ab[i] != bb[i] {
            proof {
                if ab[i as int] > bb[i as int] {
                    assert forall|k: int|
                        0 <= k < ab@.len() && k < bb@.len() && ab@[k] < bb@[k] implies !(forall|j: int|
                        0 <= j < k ==> ab@[j] == bb@[j]) by {
                        if k > i {
                            assert(ab@[i as int] != bb@[i as int]);
                        } else if k < i {
                        }
                    }
                }
            }
            return ab[i] < bb[i];
        }
        i = i + 1;
    }
    proof {
        assert forall|k: int|
            0 <= k < ab@.len() && k < bb@.len() && ab@[k] < bb@[k] implies !(forall|j: int|
            0 <= j < k ==> ab@[j] == bb@[j]) by {
        }
    }
    false
}

/// Removes the definition of `k` and hands it back.
pub fn remove_term(ctx: &mut Context, k: &str) -> (r: Option<TermDefinition>)
    ensures
        r == term_def(*old(ctx), k@),
        final(ctx).term_definitions@ == (match r {
            Some(_) => old(ctx).term_definitions@.remove(key_index(term_entries(old(ctx).term_definitions@), k@)),
            None => old(ctx).term_definitions@,
        }),
        final(ctx).base_iri == old(ctx).base_iri,
        final(ctx).original_base_url == old(ctx).original_base_url,
        final(ctx).vocabulary_mapping == old(ctx).vocabulary_mapping,
        final(ctx).default_language == old(ctx).default_language,
        final(ctx).default_base_direction == old(ctx).default_base_direction,
        final(ctx).previous_context == old(ctx).previous_context,
        terms_sorted(old(ctx).term_definitions@) ==> terms_sorted(final(ctx).term_definitions@),
        forall|t: Seq<char>| t != k@ ==> #[trigger] term_def(*final(ctx), t) == term_def(*old(ctx), t),
{
    match find_term(&ctx.term_definitions, k) {
        Some(i) => {
            let ghost d0 = ctx.term_definitions@;
            let ghost e0 = term_entries(d0);
            let (_, d) = ctx.term_definitions.remove(i);
            proof {
                let d1 = ctx.term_definitions@;
                let e1 = term_entries(d1);
                assert(e1 =~= e0.remove(i as int));
                assert forall|t: Seq<char>| t != k@ implies #[trigger] term_def(*ctx, t) == term_def(*old(ctx), t) by {
                    lemma_key_index(e0, t);
                    lemma_key_index(e1, t);
                    let q = key_index(e0, t);
                    lemma_key_index(e0, k@);
                    if q >= 0 {
                        let q1 = if q < i { q } else { q - 1 };
                        assert(q != i);
                        assert(e1[q1] == e0[q]);
                        assert forall|j: int| 0 <= j < q1 implies (#[trigger] e1[j]).0 != t by {
                            if j < i {
                                assert(e1[j] == e0[j]);
                            } else {
                                assert(e1[j] == e0[j + 1]);
                            }
                        }
                        lemma_key_index_is(e1, t, q1);
                    } else {
                        assert forall|j: int| 0 <= j < e1.len() implies (#[trigger] e1[j]).0 != t by {
                            if j < i {
                                assert(e1[j] == e0[j]);
                            } else {
                                assert(e1[j] == e0[j + 1]);
                            }
                        }
                    }
                }
                if terms_sorted(d0) {
                    assert forall|a: int, b: int| #![trigger d1[a], d1[b]] 0 <= a < b < d1.len() implies key_order(
                        d1[a].0@,
                        d1[b].0@,
                    ) by {
                        let a0 = if a < i { a } else { a + 1 };
                        let b0 = if b < i { b } else { b + 1 };
                        assert(d1[a] == d0[a0] && d1[b] == d0[b0]);
                    }
                }
            }
            Some(d)
        },
        None => None,
    }
}

/// The index at which a definition of `k` goes: that of the first key after it.
fn insert_position(defs: &Vec<(String, TermDefinition)>, k: &str) -> (r: usize)
    ensures
        r <= defs@.len(),
        forall|j: int| 0 <= j < r ==> !key_order(k@, (#[trigger] defs@[j]).0@),
        r < defs@.len() ==> key_order(k@, defs@[r as int].0@),
{
    let mut i: usize = 0;
    while i < defs.len()
        invariant
            i <= defs@.len(),
            forall|j: int| 0 <= j < i ==> !key_order(k@, (#[trigger] defs@[j]).0@),
        decreases defs@.len() - i,
    {
        if key_less(k, defs[i].0.as_str()) {
            return i;
        }
        i = i + 1;
    }
    i
}

/// Sets the definition of `k` to `d`: in place where there is one, else at the place
/// that the order of keys gives.
#[verifier::spinoff_prover]
pub fn insert_term(ctx: &mut Context, k: String, d: TermDefinition)
    ensures
        term_def(*final(ctx), k@) == Some(d),
        forall|t: Seq<char>| t != k@ ==> term_def(*final(ctx), t) == term_def(*old(ctx), t),
        final(ctx).term_definitions@.len() == old(ctx).term_definitions@.len() + (if term_def(
            *old(ctx),
            k@,
        ) is Some {
            0int
        } else {
            1int
        }),
        final(ctx).base_iri == old(ctx).base_iri,
        final(ctx).original_base_url == old(ctx).original_base_url,
        final(ctx).vocabulary_mapping == old(ctx).vocabulary_mapping,
        final(ctx).default_language == old(ctx).default_language,
        final(ctx).default_base_direction == old(ctx).default_base_direction,
        final(ctx).previous_context == old(ctx).previous_context,
        terms_sorted(old(ctx).term_definitions@) ==> terms_sorted(final(ctx).term_definitions@),
{
    let ghost e0 = term_entries(ctx.term_definitions@);
    let ghost d0 = ctx.term_definitions@;
    let ghost kv = k@;
    proof {
        lemma_key_index(e0, kv);
    }
    match find_term(&ctx.term_definitions, k.as_str()) {
        Some(i) => {
            ctx.term_definitions.set(i, (k, d));
            proof {
                let d1 = ctx.term_definitions@;
                if terms_sorted(d0) {
                    assert(e0[i as int].0 == kv);
                    assert forall|a: int, b: int| #![trigger d1[a], d1[b]] 0 <= a < b < d1.len() implies key_order(
                        d1[a].0@,
                        d1[b].0@,
                    ) by {
                        assert(d1[a].0@ == d0[a].0@ && d1[b].0@ == d0[b].0@);
                    }
                }
                let e1 = term_entries(ctx.term_definitions@);
                assert(e1 =~= e0.update(i as int, (kv, d)));
                lemma_key_index_is(e1, kv, i as int);
                assert forall|t: Seq<char>| t != kv implies term_def(*ctx, t) == term_def(*old(ctx), t) by {
                    lemma_key_index(e0, t);
                    lemma_key_index(e1, t);
                    let p = key_index(e0, t);
                    let q = key_index(e1, t);
                    if p >= 0 {
                        lemma_key_index_is(e1, t, p);
                    } else if q >= 0 {
                        assert(e0[q].0 == t);
                    }
                }
            }
        },
        None => {
            let p = insert_position(&ctx.term_definitions, k.as_str());
            ctx.term_definitions.insert(p, (k, d));
            proof {
                let d1 = ctx.term_definitions@;
                if terms_sorted(d0) {
                    assert forall|j: int| 0 <= j < d0.len() implies (#[trigger] d0[j]).0@ != kv by {
                        assert(e0[j].0 == d0[j].0@);
                    }
                    assert forall|a: int, b: int| #![trigger d1[a], d1[b]] 0 <= a < b < d1.len() implies key_order(
                        d1[a].0@,
                        d1[b].0@,
                    ) by {
                        if b < p {
                            assert(d1[a] == d0[a] && d1[b] == d0[b]);
                        } else if a > p {
                            assert(d1[a] == d0[a - 1] && d1[b] == d0[b - 1]);
                        } else if b == p {
                            assert(d1[a] == d0[a]);
                            assert(!key_order(kv, d0[a].0@));
                            lemma_key_order_total(kv, d0[a].0@);
                        } else if a == p {
                            assert(d1[b] == d0[b - 1]);
                            if b - 1 > p {
                                assert(key_order(d0[p as int].0@, d0[b - 1].0@));
                                lemma_key_before_transitive(
                                    encode_utf8(kv),
                                    encode_utf8(d0[p as int].0@),
                                    encode_utf8(d0[b - 1].0@),
                                );
                            }
                        } else {
                            assert(d1[a] == d0[a] && d1[b] == d0[b - 1]);
                        }
                    }
                }
                let e1 = term_entries(ctx.term_definitions@);
                assert(e1 =~= e0.insert(p as int, (kv, d)));
                assert forall|j: int| 0 <= j < p implies (#[trigger] e1[j]).0 != kv by {
                    assert(e1[j] == e0[j]);
                }
                lemma_key_index_is(e1, kv, p as int);
                assert forall|t: Seq<char>| t != kv implies term_def(*ctx, t) == term_def(*old(ctx), t) by {
                    lemma_key_index(e0, t);
                    lemma_key_index(e1, t);
                    let a = key_index(e0, t);
                    let b = key_index(e1, t);
                    if a >= 0 {
                        if a < p {
                            lemma_key_index_is(e1, t, a);
                        } else {
                            assert(e1[a + 1] == e0[a]);
                            assert forall|j: int| 0 <= j < a + 1 implies (#[trigger] e1[j]).0 != t by {
                                if j < p {
                                    assert(e1[j] == e0[j]);
                                } else if j > p {
                                    assert(e1[j] == e0[j - 1]);
                                }
                            }
                            lemma_key_index_is(e1, t, a + 1);
                        }
                    } else if b >= 0 {
                        if b < p {
                            assert(e1[b] == e0[b]);
                        } else if b > p {
                            assert(e1[b] == e0[b - 1]);
                        }
                    }
                }
            }
        },
    }
}

/// The JSON values of a list of optional contexts.
pub open spec fn contexts_json(c: Seq<Option<JsonOrReference>>) -> Seq<Json> {
    c.map_values(|x: Option<JsonOrReference>| context_json(x))
}

/// A copy of a list of optional contexts.
pub fn clone_contexts(c: &Vec<Option<JsonOrReference>>) -> (r: Vec<Option<JsonOrReference>>)
    ensures
        contexts_json(r@) == contexts_json(c@),
{
    let mut r: Vec<Option<JsonOrReference>> = Vec::new();
    let mut i: usize = 0;
    while i < c.len()
        invariant
            i <= c@.len(),
            r@.len() == i,
            forall|j: int| 0 <= j < i ==> context_json(#[trigger] r@[j]) == context_json(c@[j]),
        decreases c@.len() - i,
    {
        let x = match &c[i] {
            Some(JsonOrReference::JsonObject(o)) => Some(JsonOrReference::JsonObject(clone_object(o))),
            Some(JsonOrReference::Reference(s)) => Some(JsonOrReference::Reference(s.clone())),
            None => None,
        };
        r.push(x);
        i = i + 1;
    }
    assert(contexts_json(r@) =~= contexts_json(c@));
    r
}

/// Two term definitions agree in everything, their scoped contexts as JSON.
pub open spec fn td_same(a: TermDefinition, b: TermDefinition) -> bool {
    &&& a.iri == b.iri
    &&& a.prefix == b.prefix
    &&& a.protected == b.protected
    &&& a.reverse_property == b.reverse_property
    &&& a.base_url == b.base_url
    &&& contexts_json(a.context@) == contexts_json(b.context@)
    &&& a.container_mapping == b.container_mapping
    &&& a.direction_mapping == b.direction_mapping
    &&& a.index_mapping == b.index_mapping
    &&& a.language_mapping == b.language_mapping
    &&& a.nest_value == b.nest_value
    &&& a.type_mapping == b.type_mapping
}

/// A copy of a term definition.
pub fn clone_term_definition(d: &TermDefinition) -> (r: TermDefinition)
    ensures
        td_same(r, *d),
{
    TermDefinition {
        iri: d.iri.clone(),
        prefix: d.prefix,
        protected: d.protected,
        reverse_property: d.reverse_property,
        base_url: d.base_url.clone(),
        context: clone_contexts(&d.context),
        container_mapping: d.container_mapping,
        direction_mapping: d.direction_mapping,
        index_mapping: d.index_mapping.clone(),
        language_mapping: clone_language(&d.language_mapping),
        nest_value: d.nest_value.clone(),
        type_mapping: d.type_mapping.clone(),
    }
}

fn clone_language(l: &Option<Option<String>>) -> (r: Option<Option<String>>)
    ensures
        r == *l,
{
    match l {
        Some(Some(s)) => Some(Some(s.clone())),
        Some(None) => Some(None),
        None => None,
    }
}

/// Two contexts agree in everything, their term definitions as `td_same` says.
pub open spec fn ctx_same(a: Context, b: Context) -> bool
    decreases a,
{
    &&& a.term_definitions@.len() == b.term_definitions@.len()
    &&& forall|i: int|
        0 <= i < a.term_definitions@.len() ==> (#[trigger] a.term_definitions@[i]).0@
            == b.term_definitions@[i].0@ && td_same(a.term_definitions@[i].1, b.term_definitions@[i].1)
    &&& a.base_iri == b.base_iri
    &&& a.original_base_url == b.original_base_url
    &&& a.vocabulary_mapping == b.vocabulary_mapping
    &&& a.default_language == b.default_language
    &&& a.default_base_direction == b.default_base_direction
    &&& match (a.previous_context, b.previous_context) {
        (Some(p), Some(q)) => ctx_same(*p, *q),
        (None, None) => true,
        _ => false,
    }
}

/// `a` and `b` agree on the term `k`: neither defines it, or both do and their
/// definitions agree as `td_same` says.
pub open spec fn same_term(a: Context, b: Context, k: Seq<char>) -> bool {
    match (term_def(a, k), term_def(b, k)) {
        (Some(x), Some(y)) => td_same(x, y),
        (None, None) => true,
        _ => false,
    }
}

/// A copy of a context.
pub fn clone_context(c: &Context) -> (r: Context)
    ensures
        ctx_same(r, *c),
        terms_sorted(c.term_definitions@) ==> terms_sorted(r.term_definitions@),
    decreases c,
{
    let mut defs: Vec<(String, TermDefinition)> = Vec::new();
    let mut i: usize = 0;
    while i < c.term_definitions.len()
        invariant
            i <= c.term_definitions@.len(),
            defs@.len() == i,
            forall|j: int|
                0 <= j < i ==> (#[trigger] defs@[j]).0@ == c.term_definitions@[j].0@ && td_same(
                    defs@[j].1,
                    c.term_definitions@[j].1,
                ),
        decreases c.term_definitions@.len() - i,
    {
        let k = c.term_definitions[i].0.clone();
        let d = clone_term_definition(&c.term_definitions[i].1);
        defs.push((k, d));
        i = i + 1;
    }
    let previous_context = match &c.previous_context {
        Some(p) => Some(Box::new(clone_context(p))),
        None => None,
    };
    Context {
        term_definitions: defs,
        base_iri: c.base_iri.clone(),
        original_base_url: c.original_base_url.clone(),
        vocabulary_mapping: c.vocabulary_mapping.clone(),
        default_language: c.default_language.clone(),
        default_base_direction: c.default_base_direction,
        previous_context,
    }
}

/// Reads a `@language` value: a string or null.
pub fn process_language(value: &JsonValue) -> (r: Result<Option<String>, JsonLdError>)
    ensures
        match value@ {
            Json::Str(s) => r matches Ok(Some(l)) && l@ == s,
            Json::Null => r matches Ok(None),
            _ => r matches Err(e) && plain_error(e, JsonLdErrorCode::InvalidDefaultLanguage),
        },
{
    match value {
        JsonValue::String(lang) => Ok(Some(lang.clone())),
        JsonValue::Null => Ok(None),
        _ => Err(JsonLdError::new(JsonLdErrorCode::InvalidDefaultLanguage)),
    }
}

/// Reads a `@direction` value: `ltr`, `rtl` or null (no direction where `nullify`, else
/// the direction `@none`).
pub fn process_direction(value: &JsonValue, nullify: bool) -> (r: Result<Option<Direction>, JsonLdError>)
    ensures
        match value@ {
            Json::Str(s) => if s == "ltr"@ {
                r == Ok::<Option<Direction>, JsonLdError>(Some(Direction::LTR))
            } else if s == "rtl"@ {
                r == Ok::<Option<Direction>, JsonLdError>(Some(Direction::RTL))
            } else {
                r matches Err(e) && plain_error(e, JsonLdErrorCode::InvalidBaseDirection)
            },
            Json::Null => if nullify {
                r == Ok::<Option<Direction>, JsonLdError>(None)
            } else {
                r == Ok::<Option<Direction>, JsonLdError>(Some(Direction::NoDirection))
            },
            _ => r matches Err(e) && plain_error(e, JsonLdErrorCode::InvalidBaseDirection),
        },
{
    match value {
        JsonValue::String(direction) => {
            if str_eq(direction.as_str(), "ltr") {
                Ok(Some(Direction::LTR))
            } else if str_eq(direction.as_str(), "rtl") {
                Ok(Some(Direction::RTL))
            } else {
                Err(JsonLdError::new(JsonLdErrorCode::InvalidBaseDirection))
            }
        },
        JsonValue::Null => {
            if nullify {
                Ok(None)
            } else {
                Ok(Some(Direction::NoDirection))
            }
        },
        _ => Err(JsonLdError::new(JsonLdErrorCode::InvalidBaseDirection)),
    }
}

} // verus!

verus! {

/// Terms whose definition is under way (false) or done (true).
pub open spec fn defined_entries(d: Seq<(String, bool)>) -> Seq<(Seq<char>, bool)> {
    Seq::new(d.len(), |i: int| (d[i].0@, d[i].1))
}

pub open spec fn defined_state(d: Seq<(String, bool)>, k: Seq<char>) -> Option<bool> {
    let e = defined_entries(d);
    if key_index(e, k) >= 0 {
        Some(e[key_index(e, k)].1)
    } else {
        None
    }
}

/// The state of the definition of `k`.
pub fn defined_get(d: &Vec<(String, bool)>, k: &str) -> (r: Option<bool>)
    ensures
        r == defined_state(d@, k@),
{
    let ghost e = defined_entries(d@);
    let mut i: usize = 0;
    while i < d.len()
        invariant
            i <= d@.len(),
            e == defined_entries(d@),
            forall|j: int| 0 <= j < i ==> (#[trigger] e[j]).0 != k@,
        decreases d@.len() - i,
    {
        if str_eq(d[i].0.as_str(), k) {
            proof {
                lemma_key_index_is(e, k@, i as int);
            }
            return Some(d[i].1);
        }
        i = i + 1;
    }
    proof {
        lemma_key_index(e, k@);
    }
    None
}

/// Sets the state of the definition of `k`.
pub fn defined_set(d: &mut Vec<(String, bool)>, k: &str, v: bool)
    ensures
        defined_state(final(d)@, k@) == Some(v),
        forall|t: Seq<char>| t != k@ ==> defined_state(final(d)@, t) == defined_state(old(d)@, t),
{
    let ghost e0 = defined_entries(d@);
    proof {
        lemma_key_index(e0, k@);
    }
    let mut i: usize = 0;
    while i < d.len()
        invariant
            i <= d@.len(),
            e0 == defined_entries(d@),
            d@ == old(d)@,
            forall|j: int| 0 <= j < i ==> (#[trigger] e0[j]).0 != k@,
        decreases d@.len() - i,
    {
        if str_eq(d[i].0.as_str(), k) {
            let key = d[i].0.clone();
            d.set(i, (key, v));
            proof {
                let e1 = defined_entries(d@);
                assert(e1 =~= e0.update(i as int, (k@, v)));
                lemma_key_index_is(e0, k@, i as int);
                lemma_key_index_is(e1, k@, i as int);
                assert forall|t: Seq<char>| t != k@ implies defined_state(d@, t) == defined_state(old(d)@, t) by {
                    lemma_key_index(e0, t);
                    lemma_key_index(e1, t);
                    let p = key_index(e0, t);
                    let q = key_index(e1, t);
                    if p >= 0 {
                        lemma_key_index_is(e1, t, p);
                    } else if q >= 0 {
                        assert(e0[q].0 == t);
                    }
                }
            }
            return ;
        }
        i = i + 1;
    }
    d.push((k.to_owned(), v));
    proof {
        let e1 = defined_entries(d@);
        assert(e1 =~= e0.push((k@, v)));
        assert forall|j: int| 0 <= j < e0.len() implies (#[trigger] e1[j]).0 != k@ by {
            assert(e1[j] == e0[j]);
        }
        lemma_key_index_is(e1, k@, e0.len() as int);
        assert forall|t: Seq<char>| t != k@ implies defined_state(d@, t) == defined_state(old(d)@, t) by {
            lemma_key_index(e0, t);
            lemma_key_index(e1, t);
            let p = key_index(e0, t);
            let q = key_index(e1, t);
            if p >= 0 {
                lemma_key_index_is(e1, t, p);
            } else if q >= 0 {
                assert(e1[q] == e0[q]);
            }
        }
    }
}

} // verus!

verus! {

/// The keys of a local context.
pub open spec fn local_keys(l: Seq<(Seq<char>, Json)>) -> Set<Seq<char>> {
    l.map_values(|p: (Seq<char>, Json)| p.0).to_set()
}

/// The terms whose definition is under way or done.
pub open spec fn defined_keys(d: Seq<(String, bool)>) -> Set<Seq<char>> {
    Set::new(|k: Seq<char>| defined_state(d, k) is Some)
}

/// The number of terms of the local context that are not yet being defined.
pub open spec fn undefined_count(l: Seq<(Seq<char>, Json)>, d: Seq<(String, bool)>) -> nat {
    local_keys(l).difference(defined_keys(d)).len()
}

proof fn lemma_undefined_count_drops(l: Seq<(Seq<char>, Json)>, d0: Seq<(String, bool)>, d1: Seq<(String, bool)>, k: Seq<char>)
    requires
        has_key(l, k),
        defined_state(d0, k) is None,
        defined_state(d1, k) is Some,
        forall|t: Seq<char>| t != k ==> defined_state(d1, t) == defined_state(d0, t),
    ensures
        undefined_count(l, d1) < undefined_count(l, d0),
{
    broadcast use vstd::seq_lib::seq_to_set_is_finite;
    broadcast use vstd::set::group_set_axioms;

    let keys = l.map_values(|p: (Seq<char>, Json)| p.0);
    let i = choose|i: int| 0 <= i < l.len() && (#[trigger] l[i]).0 == k;
    assert(keys[i] == k);
    assert(keys.to_set().contains(k));
    let s0 = local_keys(l).difference(defined_keys(d0));
    let s1 = local_keys(l).difference(defined_keys(d1));
    assert(s1 =~= s0.remove(k));
    vstd::set_lib::lemma_set_subset_finite(local_keys(l), s0);
}

} // verus!

verus! {

fn opt_str_equal(a: &Option<String>, b: &Option<String>) -> (r: bool)
    ensures
        r == (opt_string_view(*a) == opt_string_view(*b)),
{
    match (a, b) {
        (Some(x), Some(y)) => *x == *y,
        (None, None) => true,
        _ => false,
    }
}

fn contexts_equal(a: &Vec<Option<JsonOrReference>>, b: &Vec<Option<JsonOrReference>>) -> (r: bool)
    ensures
        r == (contexts_json(a@) == contexts_json(b@)),
{
    if a.len() != b.len() {
        assert(contexts_json(a@).len() != contexts_json(b@).len());
        return false;
    }
    let mut i: usize = 0;
    while i < a.len()
        invariant
            i <= a@.len(),
            a@.len() == b@.len(),
            forall|j: int| 0 <= j < i ==> context_json(#[trigger] a@[j]) == context_json(b@[j]),
        decreases a@.len() - i,
    {
        let same = match (&a[i], &b[i]) {
            (Some(JsonOrReference::JsonObject(x)), Some(JsonOrReference::JsonObject(y))) => object_equal(x, y),
            (Some(JsonOrReference::Reference(x)), Some(JsonOrReference::Reference(y))) => *x == *y,
            (None, None) => true,
            _ => false,
        };
        if !same {
            assert(contexts_json(a@)[i as int] != contexts_json(b@)[i as int]);
            return false;
        }
        i = i + 1;
    }
    assert(contexts_json(a@) =~= contexts_json(b@));
    true
}

/// The IRI ends with a character that makes its term usable as a prefix.
pub open spec fn ends_with_gen_delim_spec(iri: Seq<char>) -> bool {
    iri.len() > 0 && (iri.last() == ':' || iri.last() == '/' || iri.last() == '?' || iri.last() == '#'
        || iri.last() == '[' || iri.last() == ']' || iri.last() == '@')
}

/// `d` maps its term to `iri`, with the type mapping `ty`, and has no other
/// mapping; its prefix flag is `prefix`.
pub open spec fn plain_mapping(d: TermDefinition, iri: Option<Seq<char>>, prefix: bool, ty: Option<Seq<char>>) -> bool {
    &&& opt_string_view(d.iri) == iri
    &&& opt_string_view(d.type_mapping) == ty
    &&& d.prefix == prefix
    &&& !d.reverse_property
    &&& d.base_url is None
    &&& d.context@.len() == 0
    &&& d.container_mapping == no_container()
    &&& d.direction_mapping is None
    &&& d.index_mapping is None
    &&& d.language_mapping is None
    &&& d.nest_value is None
}

/// `d` is a plain mapping (see `plain_mapping`) with the protection `protected`.
pub open spec fn is_plain_definition(
    d: TermDefinition,
    iri: Option<Seq<char>>,
    prefix: bool,
    ty: Option<Seq<char>>,
    protected: bool,
) -> bool {
    plain_mapping(d, iri, prefix, ty) && d.protected == protected
}

/// A blank node identifier, or an IRI whose part after the first colon starts
/// with `//`: what IRI expansion keeps as it is.
pub open spec fn absolute_form(i: Seq<char>) -> bool {
    compact_iri_parts(i) matches Some((p, s)) && (p == "_"@ || starts_with_two_slashes(s))
}

/// The prefix flag of a simple term defined by the IRI `i`.
pub open spec fn plain_prefix(term: Seq<char>, i: Seq<char>) -> bool {
    !(term.contains(':') || term.contains('/')) && ((i.len() > 0 && i[0] == '_') || ends_with_gen_delim_spec(i))
}

/// The IRI `i` given to `term` is of the form of a keyword (and not the term), or an
/// absolute IRI or blank node identifier that neither `local` nor `ctx` defines as a
/// term.
pub open spec fn plain_iri_ok(local: Seq<(Seq<char>, Json)>, ctx: Context, term: Seq<char>, i: Seq<char>) -> bool {
    i != term && (has_keyword_form(i) || (absolute_form(i) && !has_key(local, i) && term_def(ctx, i) is None))
}

/// An expanded term definition made of an `@id` string and, optionally, a `@type` of
/// `@id` or `@vocab`.
pub open spec fn is_id_object(e: Seq<(Seq<char>, Json)>) -> bool {
    &&& forall|j: int| 0 <= j < e.len() ==> (#[trigger] e[j]).0 == "@id"@ || e[j].0 == "@type"@
    &&& entries_get(e, "@id"@) matches Some(Json::Str(_))
    &&& match entries_get(e, "@type"@) {
        None => true,
        Some(Json::Str(t)) => t == "@id"@ || t == "@vocab"@,
        Some(_) => false,
    }
}

/// The value `v` of `term` is null, a string, or an object of an `@id` (and maybe a
/// `@type` of `@id` or `@vocab`), whose IRI is plain (see `plain_iri_ok`): a value
/// whose definition maps the term to an IRI (or none), maybe a type, and nothing
/// else.
pub open spec fn is_plain_value(local: Seq<(Seq<char>, Json)>, ctx: Context, term: Seq<char>, v: Json) -> bool {
    match v {
        Json::Null => true,
        Json::Str(i) => plain_iri_ok(local, ctx, term, i),
        Json::Object(e) => is_id_object(e) && (entries_get(e, "@id"@) matches Some(Json::Str(i)) && plain_iri_ok(
            local,
            ctx,
            term,
            i,
        )),
        _ => false,
    }
}

/// An expanded term definition of an `@id` string, maybe a `@type` of `@id` or
/// `@vocab`, and a boolean `@protected`.
pub open spec fn is_protected_id_object(e: Seq<(Seq<char>, Json)>) -> bool {
    &&& forall|j: int|
        0 <= j < e.len() ==> (#[trigger] e[j]).0 == "@id"@ || e[j].0 == "@type"@ || e[j].0 == "@protected"@
    &&& entries_get(e, "@id"@) matches Some(Json::Str(_))
    &&& match entries_get(e, "@type"@) {
        None => true,
        Some(Json::Str(t)) => t == "@id"@ || t == "@vocab"@,
        Some(_) => false,
    }
    &&& entries_get(e, "@protected"@) matches Some(Json::Bool(_))
}

/// An expanded term definition of an `@id` string, maybe a `@type` of `@id` or
/// `@vocab`, maybe a boolean `@protected`, and any entries that no term definition
/// holds.
pub open spec fn is_id_core_object(e: Seq<(Seq<char>, Json)>) -> bool {
    &&& forall|j: int|
        0 <= j < e.len() ==> (#[trigger] e[j]).0 == "@id"@ || e[j].0 == "@type"@ || e[j].0 == "@protected"@
            || !definition_key(e[j].0)
    &&& entries_get(e, "@id"@) matches Some(Json::Str(_))
    &&& match entries_get(e, "@type"@) {
        None => true,
        Some(Json::Str(t)) => t == "@id"@ || t == "@vocab"@,
        Some(_) => false,
    }
    &&& match entries_get(e, "@protected"@) {
        None => true,
        Some(Json::Bool(_)) => true,
        Some(_) => false,
    }
}

/// The object has an entry that no term definition holds.
pub open spec fn has_unknown_key(e: Seq<(Seq<char>, Json)>) -> bool {
    exists|j: int| 0 <= j < e.len() && !definition_key(#[trigger] e[j].0)
}

/// The object's `@id` is a string that is plain for `term` (see `plain_iri_ok`).
pub open spec fn plain_id_entry(local: Seq<(Seq<char>, Json)>, ctx: Context, term: Seq<char>, e: Seq<(Seq<char>, Json)>) -> bool {
    entries_get(e, "@id"@) matches Some(Json::Str(i)) && plain_iri_ok(local, ctx, term, i)
}

/// A plain value (see `is_plain_value`), or, outside JSON-LD 1.0, an object as
/// `is_protected_id_object` says whose IRI is plain.
pub open spec fn is_plain_value_in(
    local: Seq<(Seq<char>, Json)>,
    ctx: Context,
    term: Seq<char>,
    v: Json,
    one_zero: bool,
) -> bool {
    ||| is_plain_value(local, ctx, term, v)
    ||| (!one_zero && match v {
        Json::Object(e) => is_protected_id_object(e) && (entries_get(e, "@id"@) matches Some(Json::Str(i))
            && plain_iri_ok(local, ctx, term, i)),
        _ => false,
    })
}

/// The protection of the definition of a term with the plain value `v`: its
/// `@protected` entry, else `default`.
pub open spec fn plain_value_protected(v: Json, default: bool) -> bool {
    match v {
        Json::Object(e) => match entries_get(e, "@protected"@) {
            Some(Json::Bool(b)) => b,
            _ => default,
        },
        _ => default,
    }
}

/// The IRI text that the value `v` of a term gives: the string, or the `@id` string
/// of an object.
pub open spec fn value_id(v: Json) -> Option<Seq<char>> {
    match v {
        Json::Str(i) => Some(i),
        Json::Object(e) => match entries_get(e, "@id"@) {
            Some(Json::Str(i)) => Some(i),
            _ => None,
        },
        _ => None,
    }
}

/// The IRI that the string `i` maps a term to: none for a string of the form of a
/// keyword that is none, else the string itself.
pub open spec fn plain_string_iri(i: Seq<char>) -> Option<Seq<char>> {
    if has_keyword_form(i) && !is_keyword(i) {
        None
    } else {
        Some(i)
    }
}

/// The IRI that a term with the plain value `v` maps to.
pub open spec fn plain_value_iri(v: Json) -> Option<Seq<char>> {
    match v {
        Json::Str(i) => plain_string_iri(i),
        Json::Object(e) => match entries_get(e, "@id"@) {
            Some(Json::Str(i)) => plain_string_iri(i),
            _ => None,
        },
        _ => None,
    }
}

/// The prefix flag of the definition of `term` with the plain value `v`: a string
/// makes a simple term, an object does not (and gets no prefix flag).
pub open spec fn plain_value_prefix(term: Seq<char>, v: Json) -> bool {
    match v {
        Json::Str(i) => !has_keyword_form(i) && plain_prefix(term, i),
        _ => false,
    }
}

/// The type mapping of the definition of a term with the plain value `v`.
pub open spec fn plain_value_type(v: Json) -> Option<Seq<char>> {
    match v {
        Json::Object(e) => match entries_get(e, "@type"@) {
            Some(Json::Str(t)) => Some(t),
            _ => None,
        },
        _ => None,
    }
}

/// `k` is a term of `local`, neither empty, `@type` nor of the form of a keyword,
/// whose value is plain against `ctx`.
pub open spec fn plain_term(local: Seq<(Seq<char>, Json)>, ctx: Context, k: Seq<char>) -> bool {
    &&& has_key(local, k)
    &&& k.len() > 0
    &&& k != "@type"@
    &&& !has_keyword_form(k)
    &&& is_plain_value(local, ctx, k, entries_get(local, k)->0)
}

/// `d` is what the plain value of `k` in `local` maps it to.
pub open spec fn plain_term_defined(local: Seq<(Seq<char>, Json)>, d: TermDefinition, k: Seq<char>) -> bool {
    plain_mapping(
        d,
        plain_value_iri(entries_get(local, k)->0),
        plain_value_prefix(k, entries_get(local, k)->0),
        plain_value_type(entries_get(local, k)->0),
    )
}

/// Every entry of `local` is one of the context's own keyword entries (`@base`,
/// `@vocab`, ...), or a plain term with a plain value against `ctx` (see
/// `plain_term`), and none of the terms would redefine a protected term otherwise
/// (unless protection is overridden): a context whose processing defines all its
/// terms plainly.
pub open spec fn plain_context(local: Seq<(Seq<char>, Json)>, ctx: Context, override_protected: bool) -> bool {
    &&& forall|j: int|
        0 <= j < local.len() ==> is_context_key(local[j].0) || (#[trigger] plain_term(local, ctx, local[j].0)
            && is_plain_value(local, ctx, local[j].0, local[j].1))
    &&& forall|k: Seq<char>| #[trigger]
        plain_term(local, ctx, k) ==> plain_term_outcome(
            term_def(ctx, k),
            plain_value_iri(entries_get(local, k)->0),
            plain_value_prefix(k, entries_get(local, k)->0),
            plain_value_type(entries_get(local, k)->0),
            override_protected,
        ) is Ok
}

/// The definition of the term `@type` that 1.1 accepts: a non-empty object of a
/// `@container` of `@set` and a `@protected` entry.
pub open spec fn type_term_value(v: Json) -> bool {
    match v {
        Json::Object(e) => e.len() > 0 && forall|j: int|
            0 <= j < e.len() ==> ((#[trigger] e[j]).0 == "@container"@ && e[j].1 == Json::Str("@set"@)) || e[j].0
                == "@protected"@,
        _ => false,
    }
}

/// A term that takes its IRI from the vocabulary mapping: neither `@type` nor of the
/// form of a keyword, without a colon or a slash, whose value is an expanded term
/// definition with neither `@id` nor `@reverse`.
pub open spec fn vocab_term_value(term: Seq<char>, v: Json) -> bool {
    &&& term != "@type"@
    &&& !has_keyword_form(term)
    &&& !term.contains(':')
    &&& !term.contains('/')
    &&& v matches Json::Object(o) && !has_key(o, "@id"@) && !has_key(o, "@reverse"@)
}

/// The `@protected` entry of a definition of the term `@type`, where there is one, is
/// a boolean.
pub open spec fn type_term_protection_ok(v: Json) -> bool {
    match v {
        Json::Object(e) => match entries_get(e, "@protected"@) {
            None => true,
            Some(Json::Bool(_)) => true,
            Some(_) => false,
        },
        _ => false,
    }
}

/// The container of the accepted definition of the term `@type`: a set where the
/// value has a `@container`, none otherwise.
pub open spec fn type_term_container(v: Json) -> Container {
    match v {
        Json::Object(e) => if has_key(e, "@container"@) {
            Container::Unordered(
                UnorderedContainer {
                    is_set: true,
                    kind: ContainerKind::GraphContainer(GraphContainer { is_graph: false, kind: None }),
                },
            )
        } else {
            no_container()
        },
        _ => no_container(),
    }
}

/// An expanded term definition, without `@reverse`, whose `@id` is neither a string
/// nor null.
pub open spec fn bad_id_entry(e: Seq<(Seq<char>, Json)>) -> bool {
    !has_key(e, "@reverse"@) && match entries_get(e, "@id"@) {
        Some(Json::Str(_)) | Some(Json::Null) | None => false,
        _ => true,
    }
}

/// What defining a fresh term with a plain value gives, where `previous` is its
/// definition before and the new one is the plain mapping to `iri` (prefix flag
/// `prefix`, type mapping `ty`): a protected previous one stays where it agrees with
/// the new one and is refused otherwise (unless protection is overridden); else the
/// new definition stands (`None` here).
pub open spec fn plain_term_outcome(
    previous: Option<TermDefinition>,
    iri: Option<Seq<char>>,
    prefix: bool,
    ty: Option<Seq<char>>,
    override_protected: bool,
) -> Result<Option<TermDefinition>, JsonLdErrorCode> {
    match previous {
        Some(p) => if !override_protected && p.protected {
            if is_plain_definition(p, iri, prefix, ty, true) {
                Ok(Some(p))
            } else {
                Err(JsonLdErrorCode::ProtectedTermRedefinition)
            }
        } else {
            Ok(None)
        },
        None => Ok(None),
    }
}

/// Two definitions agree in everything but their IRI and prefix flag.
pub open spec fn agrees_but_iri(a: TermDefinition, b: TermDefinition) -> bool {
    &&& a.protected == b.protected
    &&& a.reverse_property == b.reverse_property
    &&& a.base_url == b.base_url
    &&& a.context == b.context
    &&& a.container_mapping == b.container_mapping
    &&& a.direction_mapping == b.direction_mapping
    &&& a.index_mapping == b.index_mapping
    &&& a.language_mapping == b.language_mapping
    &&& a.nest_value == b.nest_value
    &&& a.type_mapping == b.type_mapping
}

/// Two definitions agree in everything but their protection.
pub open spec fn same_but_protection(a: TermDefinition, b: TermDefinition) -> bool {
    &&& opt_string_view(a.iri) == opt_string_view(b.iri)
    &&& a.prefix == b.prefix
    &&& a.reverse_property == b.reverse_property
    &&& opt_string_view(a.base_url) == opt_string_view(b.base_url)
    &&& contexts_json(a.context@) == contexts_json(b.context@)
    &&& a.container_mapping == b.container_mapping
    &&& a.direction_mapping == b.direction_mapping
    &&& opt_string_view(a.index_mapping) == opt_string_view(b.index_mapping)
    &&& language_view(a.language_mapping) == language_view(b.language_mapping)
    &&& opt_string_view(a.nest_value) == opt_string_view(b.nest_value)
    &&& opt_string_view(a.type_mapping) == opt_string_view(b.type_mapping)
}

pub open spec fn language_view(l: Option<Option<String>>) -> Option<Option<Seq<char>>> {
    match l {
        Some(x) => Some(opt_string_view(x)),
        None => None,
    }
}

fn definitions_agree(a: &TermDefinition, b: &TermDefinition) -> (r: bool)
    ensures
        r == same_but_protection(*a, *b),
{
    let language_same = match (&a.language_mapping, &b.language_mapping) {
        (Some(x), Some(y)) => opt_str_equal(x, y),
        (None, None) => true,
        _ => false,
    };
    let direction_same = match (a.direction_mapping, b.direction_mapping) {
        (Some(x), Some(y)) => x == y,
        (None, None) => true,
        _ => false,
    };
    opt_str_equal(&a.iri, &b.iri) && a.prefix == b.prefix && a.reverse_property == b.reverse_property
        && opt_str_equal(&a.base_url, &b.base_url) && contexts_equal(&a.context, &b.context)
        && a.container_mapping == b.container_mapping && direction_same && opt_str_equal(
        &a.index_mapping,
        &b.index_mapping,
    ) && language_same && opt_str_equal(&a.nest_value, &b.nest_value) && opt_str_equal(
        &a.type_mapping,
        &b.type_mapping,
    )
}

/// `@container` values other than `@set` and `@graph` that JSON-LD 1.0 does not know.
fn is_1_1_container(c: &str) -> (r: bool)
    ensures
        r == (c@ == "@graph"@ || c@ == "@id"@ || c@ == "@type"@),
{
    str_eq(c, "@graph") || str_eq(c, "@id") || str_eq(c, "@type")
}

/// Whether an IRI ends with a character that makes its term usable as a prefix.
fn ends_with_gen_delim(iri: &str) -> (r: bool)
    ensures
        r == ends_with_gen_delim_spec(iri@),
{
    ends_with_char(iri, ':') || ends_with_char(iri, '/') || ends_with_char(iri, '?') || ends_with_char(iri, '#')
        || ends_with_char(iri, '[') || ends_with_char(iri, ']') || ends_with_char(iri, '@')
}

/// The keys that a term definition may hold.
pub open spec fn definition_key(k: Seq<char>) -> bool {
    k == "@id"@ || k == "@reverse"@ || k == "@container"@ || k == "@context"@ || k == "@direction"@ || k
        == "@index"@ || k == "@language"@ || k == "@nest"@ || k == "@prefix"@ || k == "@protected"@ || k == "@type"@
}

/// Every key of `value` is a key that a term definition may hold.
fn all_definition_keys(value: &Vec<(String, JsonValue)>) -> (r: bool)
    ensures
        r == forall|j: int| 0 <= j < value@.len() ==> definition_key(#[trigger] value@[j].0@),
{
    let mut i: usize = 0;
    while i < value.len()
        invariant
            i <= value@.len(),
            forall|j: int| 0 <= j < i ==> definition_key(#[trigger] value@[j].0@),
        decreases value@.len() - i,
    {
        if !is_definition_key(value[i].0.as_str()) {
            return false;
        }
        i = i + 1;
    }
    true
}

fn is_definition_key(k: &str) -> (r: bool)
    ensures
        r == definition_key(k@),
{
    str_eq(k, "@id") || str_eq(k, "@reverse") || str_eq(k, "@container") || str_eq(k, "@context")
        || str_eq(k, "@direction") || str_eq(k, "@index") || str_eq(k, "@language") || str_eq(
        k,
        "@nest",
    ) || str_eq(k, "@prefix") || str_eq(k, "@protected") || str_eq(k, "@type")
}

fn is_1_0<L>(options: &JsonLdOptions<L>) -> (r: bool)
    ensures
        r == (options.processing_mode == JsonLdProcessingMode::JsonLd1_0),
{
    match options.processing_mode {
        JsonLdProcessingMode::JsonLd1_0 => true,
        JsonLdProcessingMode::JsonLd1_1 => false,
    }
}

/// An entry of the local context for `k` defines a reverse property.
pub open spec fn reverse_entry(local: Seq<(Seq<char>, Json)>, k: Seq<char>) -> bool {
    exists|i: int|
        0 <= i < local.len() && (#[trigger] local[i]).0 == k && (local[i].1 matches Json::Object(o) && has_key(
            o,
            "@reverse"@,
        ))
}

/// Every protected term definition of `before` is in `after` as it was, but those that
/// the local context redefines as reverse properties.
pub open spec fn keeps_protected(before: Context, after: Context, local: Seq<(Seq<char>, Json)>) -> bool {
    forall|k: Seq<char>|
        (#[trigger] term_def(before, k) matches Some(p) && p.protected && !reverse_entry(local, k)) ==> (term_def(
            after,
            k,
        ) matches Some(q) && td_same(q, term_def(before, k)->0))
}

/// The end of Create Term Definition: `definition` becomes that of `term`, unless
/// the term had a protected definition (`previous`, protection not overridden) that
/// does not agree with it, which is then kept where it agrees and refused otherwise.
fn install_definition(
    active_context: &mut Context,
    term: &str,
    definition: TermDefinition,
    previous: Option<TermDefinition>,
    override_protected: bool,
    defined: &mut Vec<(String, bool)>,
) -> (r: Result<(), JsonLdError>)
    ensures
        match previous {
            Some(p) => if !override_protected && p.protected {
                if same_but_protection(definition, p) {
                    r is Ok && term_def(*final(active_context), term@) == Some(p)
                } else {
                    r matches Err(e) && plain_error(e, JsonLdErrorCode::ProtectedTermRedefinition)
                }
            } else {
                r is Ok && term_def(*final(active_context), term@) == Some(definition)
            },
            None => r is Ok && term_def(*final(active_context), term@) == Some(definition),
        },
        r is Err ==> *final(active_context) == *old(active_context) && final(defined)@ == old(defined)@,
        r is Ok ==> defined_state(final(defined)@, term@) == Some(true),
        forall|t: Seq<char>| t != term@ ==> defined_state(final(defined)@, t) == defined_state(old(defined)@, t),
        forall|t: Seq<char>| t != term@ ==> term_def(*final(active_context), t) == term_def(*old(active_context), t),
        final(active_context).base_iri == old(active_context).base_iri,
        final(active_context).original_base_url == old(active_context).original_base_url,
        final(active_context).vocabulary_mapping == old(active_context).vocabulary_mapping,
        final(active_context).default_language == old(active_context).default_language,
        final(active_context).default_base_direction == old(active_context).default_base_direction,
        final(active_context).previous_context == old(active_context).previous_context,
        terms_sorted(old(active_context).term_definitions@) ==> terms_sorted(
            final(active_context).term_definitions@,
        ),
{
    let mut definition = definition;
    if let Some(previous_definition) = previous {
        if !override_protected && previous_definition.protected {
            if !definitions_agree(&definition, &previous_definition) {
                return Err(JsonLdError::new(JsonLdErrorCode::ProtectedTermRedefinition));
            }
            definition = previous_definition;
        }
    }
    insert_term(active_context, string_of(term), definition);
    defined_set(defined, term, true);
    Ok(())
}

/// A protected definition agrees with a plain definition exactly where it is itself
/// that plain definition.
proof fn lemma_plain_definition_agrees(
    built: TermDefinition,
    iri: Option<Seq<char>>,
    prefix: bool,
    ty: Option<Seq<char>>,
    protected: bool,
    previous: Option<TermDefinition>,
)
    requires
        is_plain_definition(built, iri, prefix, ty, protected),
    ensures
        match previous {
            Some(p) => p.protected ==> (same_but_protection(built, p) <==> is_plain_definition(p, iri, prefix, ty, true)),
            None => true,
        },
{
    if let Some(p) = previous {
        if p.context@.len() == 0 {
            assert(contexts_json(p.context@) =~= contexts_json(built.context@));
        }
        if contexts_json(p.context@) == contexts_json(built.context@) {
            assert(contexts_json(p.context@).len() == p.context@.len());
        }
    }
}

/// An object of `@id` and `@type` entries has no entry under another key.
proof fn lemma_no_other_key(e: Seq<(Seq<char>, Json)>, k: Seq<char>)
    requires
        forall|j: int| 0 <= j < e.len() ==> (#[trigger] e[j]).0 == "@id"@ || e[j].0 == "@type"@,
        k != "@id"@,
        k != "@type"@,
    ensures
        !has_key(e, k),
        entries_get(e, k) is None,
{
    assert forall|j: int| 0 <= j < e.len() implies (#[trigger] e[j]).0 != k by {
        assert(e[j].0 == "@id"@ || e[j].0 == "@type"@);
    }
    lemma_key_index(e, k);
}

/// An object of `@id` and `@type` entries has none of the other entries of a term
/// definition.
proof fn lemma_id_object_entries(e: Seq<(Seq<char>, Json)>)
    requires
        forall|j: int| 0 <= j < e.len() ==> (#[trigger] e[j]).0 == "@id"@ || e[j].0 == "@type"@,
    ensures
        !has_key(e, "@reverse"@) && entries_get(e, "@reverse"@) is None,
        !has_key(e, "@protected"@) && entries_get(e, "@protected"@) is None,
        !has_key(e, "@container"@) && entries_get(e, "@container"@) is None,
        !has_key(e, "@index"@) && entries_get(e, "@index"@) is None,
        !has_key(e, "@context"@) && entries_get(e, "@context"@) is None,
        !has_key(e, "@language"@) && entries_get(e, "@language"@) is None,
        !has_key(e, "@direction"@) && entries_get(e, "@direction"@) is None,
        !has_key(e, "@nest"@) && entries_get(e, "@nest"@) is None,
        !has_key(e, "@prefix"@) && entries_get(e, "@prefix"@) is None,
        "@id"@ != "@json"@ && "@id"@ != "@none"@ && "@vocab"@ != "@json"@ && "@vocab"@ != "@none"@,
{
    reveal_strlit("@id");
    reveal_strlit("@type");
    reveal_strlit("@vocab");
    reveal_strlit("@json");
    reveal_strlit("@none");
    reveal_strlit("@reverse");
    reveal_strlit("@protected");
    reveal_strlit("@container");
    reveal_strlit("@index");
    reveal_strlit("@context");
    reveal_strlit("@language");
    reveal_strlit("@direction");
    reveal_strlit("@nest");
    reveal_strlit("@prefix");
    assert("@id"@.len() == 3 && "@type"@.len() == 5 && "@vocab"@.len() == 6);
    assert("@json"@.len() == 5 && "@none"@.len() == 5 && "@reverse"@.len() == 8);
    assert("@protected"@.len() == 10 && "@container"@.len() == 10 && "@index"@.len() == 6);
    assert("@context"@.len() == 8 && "@language"@.len() == 9 && "@direction"@.len() == 10);
    assert("@nest"@.len() == 5 && "@prefix"@.len() == 7);
    assert("@nest"@[1] != "@type"@[1]);
    lemma_no_other_key(e, "@reverse"@);
    lemma_no_other_key(e, "@protected"@);
    lemma_no_other_key(e, "@container"@);
    lemma_no_other_key(e, "@index"@);
    lemma_no_other_key(e, "@context"@);
    lemma_no_other_key(e, "@language"@);
    lemma_no_other_key(e, "@direction"@);
    lemma_no_other_key(e, "@nest"@);
    lemma_no_other_key(e, "@prefix"@);
}

/// An object of `@container` entries of `@set` and of `@protected` entries has none of
/// the other entries of a term definition.
proof fn lemma_type_term_entries(e: Seq<(Seq<char>, Json)>)
    requires
        type_term_value(Json::Object(e)),
    ensures
        has_key(e, "@container"@) ==> entries_get(e, "@container"@) == Some(Json::Str("@set"@)),
        entries_get(e, "@container"@) is None || entries_get(e, "@container"@) == Some(Json::Str("@set"@)),
        has_key(e, "@container"@) <==> entries_get(e, "@container"@) is Some,
{
    reveal_strlit("@protected");
    reveal_strlit("@container");
    assert("@protected"@.len() == 10 && "@container"@.len() == 10);
    assert("@container"@[1] != "@protected"@[1]);
    lemma_key_index(e, "@container"@);
    if has_key(e, "@container"@) {
        let j = key_index(e, "@container"@);
        assert(e[j].0 == "@container"@);
    }
}

/// An object of `@id`, `@type` and `@protected` entries, and of entries that no term
/// definition holds, has none of the other entries of a term definition.
proof fn lemma_protected_id_object_entries(e: Seq<(Seq<char>, Json)>)
    requires
        forall|j: int|
            0 <= j < e.len() ==> (#[trigger] e[j]).0 == "@id"@ || e[j].0 == "@type"@ || e[j].0 == "@protected"@
                || !definition_key(e[j].0),
    ensures
        entries_get(e, "@reverse"@) is None && !has_key(e, "@reverse"@),
        entries_get(e, "@container"@) is None,
        entries_get(e, "@index"@) is None,
        entries_get(e, "@context"@) is None && !has_key(e, "@context"@),
        entries_get(e, "@language"@) is None,
        entries_get(e, "@direction"@) is None,
        entries_get(e, "@nest"@) is None,
        entries_get(e, "@prefix"@) is None,
        "@id"@ != "@json"@ && "@id"@ != "@none"@ && "@vocab"@ != "@json"@ && "@vocab"@ != "@none"@,
{
    reveal_strlit("@id");
    reveal_strlit("@type");
    reveal_strlit("@vocab");
    reveal_strlit("@json");
    reveal_strlit("@none");
    reveal_strlit("@reverse");
    reveal_strlit("@protected");
    reveal_strlit("@container");
    reveal_strlit("@index");
    reveal_strlit("@context");
    reveal_strlit("@language");
    reveal_strlit("@direction");
    reveal_strlit("@nest");
    reveal_strlit("@prefix");
    assert("@id"@.len() == 3 && "@type"@.len() == 5 && "@vocab"@.len() == 6);
    assert("@json"@.len() == 5 && "@none"@.len() == 5 && "@reverse"@.len() == 8);
    assert("@protected"@.len() == 10 && "@container"@.len() == 10 && "@index"@.len() == 6);
    assert("@context"@.len() == 8 && "@language"@.len() == 9 && "@direction"@.len() == 10);
    assert("@nest"@.len() == 5 && "@prefix"@.len() == 7);
    assert("@nest"@[1] != "@type"@[1]);
    assert("@container"@[1] != "@protected"@[1] && "@direction"@[1] != "@protected"@[1]);
    let keys = seq!["@reverse"@, "@container"@, "@index"@, "@context"@, "@language"@, "@direction"@, "@nest"@, "@prefix"@];
    assert forall|t: int| 0 <= t < keys.len() implies !has_key(e, #[trigger] keys[t]) by {
        assert forall|j: int| 0 <= j < e.len() implies (#[trigger] e[j]).0 != keys[t] by {
            assert(e[j].0 == "@id"@ || e[j].0 == "@type"@ || e[j].0 == "@protected"@ || !definition_key(e[j].0));
        }
    }
    assert(!has_key(e, keys[0]) && !has_key(e, keys[1]) && !has_key(e, keys[2]) && !has_key(e, keys[3]));
    assert(!has_key(e, keys[4]) && !has_key(e, keys[5]) && !has_key(e, keys[6]) && !has_key(e, keys[7]));
    lemma_key_index(e, "@reverse"@);
    lemma_key_index(e, "@container"@);
    lemma_key_index(e, "@index"@);
    lemma_key_index(e, "@context"@);
    lemma_key_index(e, "@language"@);
    lemma_key_index(e, "@direction"@);
    lemma_key_index(e, "@nest"@);
    lemma_key_index(e, "@prefix"@);
}

/// Sets the container mapping of `definition` from the `@container` entry `container`
/// (and, for a type map, its type mapping).
fn apply_container<L>(definition: &mut TermDefinition, container: &JsonValue, options: &JsonLdOptions<L>) -> (r:
    Result<(), JsonLdError>)
    ensures
        final(definition).iri == old(definition).iri,
        final(definition).prefix == old(definition).prefix,
        final(definition).protected == old(definition).protected,
        final(definition).reverse_property == old(definition).reverse_property,
        final(definition).base_url == old(definition).base_url,
        final(definition).context == old(definition).context,
        final(definition).direction_mapping == old(definition).direction_mapping,
        final(definition).index_mapping == old(definition).index_mapping,
        final(definition).language_mapping == old(definition).language_mapping,
        final(definition).nest_value == old(definition).nest_value,
{
    definition.container_mapping = match container {
        JsonValue::Array(items) if !is_1_0(options) => {
            let mut cs: Vec<&str> = Vec::new();
            let mut i: usize = 0;
            while i < items.len()
                invariant
                    i <= items@.len(),
                decreases items@.len() - i,
            {
                match items[i].as_string() {
                    Some(s) => cs.push(s.as_str()),
                    None => {
                        return Err(JsonLdError::new(JsonLdErrorCode::InvalidContainerMapping));
                    },
                }
                i = i + 1;
            }
            parse_container(cs.as_slice())?
        },
        JsonValue::String(c) => {
            if is_1_0(options) && is_1_1_container(c.as_str()) {
                return Err(JsonLdError::new(JsonLdErrorCode::InvalidContainerMapping));
            }
            let cs: [&str; 1] = [c.as_str()];
            parse_container(&cs)?
        },
        _ => {
            return Err(JsonLdError::new(JsonLdErrorCode::InvalidContainerMapping));
        },
    };
    if let Container::Unordered(UnorderedContainer { kind: ContainerKind::Type, .. }) = definition.container_mapping {
        let type_ok = match &definition.type_mapping {
            None => None,
            Some(t) => Some(str_eq(t.as_str(), "@id") || str_eq(t.as_str(), "@vocab")),
        };
        match type_ok {
            None => definition.type_mapping = Some(string_of("@id")),
            Some(true) => {},
            Some(false) => {
                return Err(JsonLdError::new(JsonLdErrorCode::InvalidTypeMapping));
            },
        }
    }
    Ok(())
}

/// Defines the term `@type` by its accepted value `value` (see `type_term_value`): it
/// maps to `@type`, is a set where the value has a `@container`, and is protected as
/// its `@protected` entry says (else as `protected` says); `previous` is the
/// definition that it had.
fn define_type_term(
    active_context: &mut Context,
    value: &Vec<(String, JsonValue)>,
    defined: &mut Vec<(String, bool)>,
    previous: Option<TermDefinition>,
    protected: bool,
    override_protected: bool,
) -> (r: Result<(), JsonLdError>)
    requires
        type_term_value(Json::Object(obj_view(*value))),
    ensures
        !type_term_protection_ok(Json::Object(obj_view(*value))) ==> (r matches Err(e) && plain_error(
            e,
            JsonLdErrorCode::InvalidProtectedValue,
        )),
        type_term_protection_ok(Json::Object(obj_view(*value))) && previous is None ==> r is Ok && (term_def(
            *final(active_context),
            "@type"@,
        ) matches Some(d) && opt_string_view(d.iri) == Some("@type"@) && d.container_mapping == type_term_container(
            Json::Object(obj_view(*value)),
        ) && d.protected == plain_value_protected(Json::Object(obj_view(*value)), protected)),
        r is Ok ==> term_def(*final(active_context), "@type"@) is Some,
        r is Ok && (previous matches Some(p) && !override_protected && p.protected) ==> term_def(
            *final(active_context),
            "@type"@,
        ) == previous,
        r is Err ==> *final(active_context) == *old(active_context) && final(defined)@ == old(defined)@,
        r is Ok ==> defined_state(final(defined)@, "@type"@) == Some(true),
        forall|t: Seq<char>| t != "@type"@ ==> defined_state(final(defined)@, t) == defined_state(old(defined)@, t),
        forall|t: Seq<char>| t != "@type"@ ==> term_def(*final(active_context), t) == term_def(*old(active_context), t),
        final(active_context).base_iri == old(active_context).base_iri,
        final(active_context).original_base_url == old(active_context).original_base_url,
        final(active_context).vocabulary_mapping == old(active_context).vocabulary_mapping,
        final(active_context).default_language == old(active_context).default_language,
        final(active_context).default_base_direction == old(active_context).default_base_direction,
        final(active_context).previous_context == old(active_context).previous_context,
        terms_sorted(old(active_context).term_definitions@) ==> terms_sorted(
            final(active_context).term_definitions@,
        ),
{
    proof {
        lemma_type_term_entries(obj_view(*value));
    }
    let mut definition = TermDefinition {
        iri: Some(string_of("@type")),
        prefix: false,
        protected,
        reverse_property: false,
        base_url: None,
        context: Vec::new(),
        container_mapping: Container::Unordered(
            UnorderedContainer {
                is_set: false,
                kind: ContainerKind::GraphContainer(GraphContainer { is_graph: false, kind: None }),
            },
        ),
        direction_mapping: None,
        index_mapping: None,
        language_mapping: None,
        nest_value: None,
        type_mapping: None,
    };
    if let Some(p) = obj_get(value, "@protected") {
        match p.as_bool() {
            Some(b) => definition.protected = b,
            None => {
                return Err(JsonLdError::new(JsonLdErrorCode::InvalidProtectedValue));
            },
        }
    }
    if let Some(JsonValue::String(c)) = obj_get(value, "@container") {
        let cs: [&str; 1] = [c.as_str()];
        proof {
            reveal_strlit("@set");
            reveal_strlit("@list");
            let cs0 = seq!["@set"@];
            assert(str_views(cs@) =~= cs0);
            assert(cs0.drop_last() =~= Seq::<Seq<char>>::empty());
            assert(cs0.last() == "@set"@);
            assert(crate::container::scan_containers(cs0.drop_last()) == Ok::<
                (bool, bool, Option<Seq<char>>),
                Seq<char>,
            >((false, false, None)));
            assert(crate::container::scan_containers(cs0) == Ok::<
                (bool, bool, Option<Seq<char>>),
                Seq<char>,
            >((true, false, None)));
            assert(container_of(cs0) == Ok::<Container, Seq<char>>(
                Container::Unordered(
                    UnorderedContainer {
                        is_set: true,
                        kind: ContainerKind::GraphContainer(GraphContainer { is_graph: false, kind: None }),
                    },
                ),
            ));
        }
        definition.container_mapping = parse_container(&cs)?;
    }
    proof {
        assert(opt_string_view(definition.iri) == Some("@type"@));
        assert(definition.container_mapping == type_term_container(Json::Object(obj_view(*value))));
        assert(type_term_protection_ok(Json::Object(obj_view(*value))) ==> definition.protected
            == plain_value_protected(Json::Object(obj_view(*value)), protected));
    }
    install_definition(active_context, "@type", definition, previous, override_protected, defined)
}

/// The Create Term Definition algorithm: defines `term` of `local_context`, whose
/// value is `value`, in `active_context`.
#[verifier::loop_isolation(false)]
#[verifier::spinoff_prover]
#[verifier::rlimit(90)]
pub fn create_term_definition<L>(
    active_context: &mut Context,
    local_context: &Vec<(String, JsonValue)>,
    term: &str,
    value: &JsonValue,
    defined: &mut Vec<(String, bool)>,
    options: &JsonLdOptions<L>,
    base_url: Option<&str>,
    protected: bool,
    override_protected: bool,
) -> (r: Result<(), JsonLdError>)
    requires
        exists|i: int|
            0 <= i < local_context@.len() && (#[trigger] obj_view(*local_context)[i]) == (term@, value@),
    ensures
        defined_state(old(defined)@, term@) == Some(true) ==> r is Ok && *final(active_context)
            == *old(active_context) && final(defined)@ == old(defined)@,
        defined_state(old(defined)@, term@) == Some(false) ==> (r matches Err(e) && plain_error(
            e,
            JsonLdErrorCode::CyclicIRIMapping,
        )) && *final(active_context) == *old(active_context) && final(defined)@ == old(defined)@,
        defined_state(old(defined)@, term@) is None && term@.len() == 0 ==> (r matches Err(e)
            && plain_error(e, JsonLdErrorCode::InvalidTermDefinition)) && *final(active_context) == *old(
            active_context,
        ),
        defined_state(old(defined)@, term@) is None && term@.len() > 0 && term@ != "@type"@
            && is_keyword(term@) ==> (
        r matches Err(e) && plain_error(e, JsonLdErrorCode::KeywordRedefinition)) && *final(active_context)
            == *old(active_context),
        defined_state(old(defined)@, term@) is None && term@ != "@type"@ && !is_keyword(term@)
            && has_keyword_form(term@) ==> r is Ok && *final(active_context) == *old(active_context),
        defined_state(old(defined)@, term@) is None && term@ == "@type"@
            && options.processing_mode == JsonLdProcessingMode::JsonLd1_0 ==> (r matches Err(e)
            && plain_error(e, JsonLdErrorCode::KeywordRedefinition)) && *final(active_context) == *old(
            active_context,
        ),
        defined_state(old(defined)@, term@) is None && term@ == "@type"@ && options.processing_mode
            == JsonLdProcessingMode::JsonLd1_1 && !type_term_value(value@) ==> (r matches Err(e) && plain_error(
            e,
            JsonLdErrorCode::KeywordRedefinition,
        )) && *final(active_context) == *old(active_context),
        defined_state(old(defined)@, term@) is None && term@ == "@type"@ && options.processing_mode
            == JsonLdProcessingMode::JsonLd1_1 && type_term_value(value@) ==> if type_term_protection_ok(value@) {
            term_def(*old(active_context), "@type"@) is None ==> r is Ok && (term_def(
                *final(active_context),
                "@type"@,
            ) matches Some(d) && opt_string_view(d.iri) == Some("@type"@) && d.container_mapping
                == type_term_container(value@) && d.protected == plain_value_protected(value@, protected))
        } else {
            r matches Err(e) && plain_error(e, JsonLdErrorCode::InvalidProtectedValue)
        },
        vocab_term_value(term@, value@) && defined_state(old(defined)@, term@) is None ==> match old(
            active_context,
        ).vocabulary_mapping {
            Some(v) => r is Ok ==> (term_def(*final(active_context), term@) matches Some(d) && opt_string_view(d.iri)
                == Some(v@ + term@)),
            None => true,
        },
        defined_state(old(defined)@, term@) is None && term@.len() > 0 && term@ != "@type"@ && !is_keyword(term@)
            && !has_keyword_form(term@) ==> match value@ {
            Json::Bool(_) | Json::Number(_) | Json::Array(_) => r matches Err(e) && plain_error(
                e,
                JsonLdErrorCode::InvalidTermDefinition,
            ),
            Json::Object(o) => (bad_id_entry(o) ==> (r matches Err(e) && plain_error(
                e,
                JsonLdErrorCode::InvalidIRIMapping,
            ))) && (o.len() == 0 && !term@.contains(':') && !term@.contains('/')
                && old(active_context).vocabulary_mapping is None ==> (r matches Err(e) && plain_error(
                e,
                JsonLdErrorCode::InvalidIRIMapping,
            ))) && (!has_key(o, "@reverse"@) && plain_id_entry(
                obj_view(*local_context),
                *old(active_context),
                term@,
                o,
            ) && (entries_get(o, "@protected"@) matches Some(p) && !(p is Bool)) ==> (r matches Err(e)
                && plain_error(
                e,
                if options.processing_mode == JsonLdProcessingMode::JsonLd1_0 {
                    JsonLdErrorCode::InvalidTermDefinition
                } else {
                    JsonLdErrorCode::InvalidProtectedValue
                },
            ))) && (is_id_core_object(o) && has_unknown_key(o) && plain_id_entry(
                obj_view(*local_context),
                *old(active_context),
                term@,
                o,
            ) ==> (r matches Err(e) && plain_error(e, JsonLdErrorCode::InvalidTermDefinition))),
            _ => true,
        },
        forall|k: Seq<char>| #[trigger]
            defined_state(old(defined)@, k) is Some ==> defined_state(final(defined)@, k) is Some,
        defined_state(old(defined)@, term@) is None && r is Ok && defined_state(final(defined)@, term@)
            == Some(true) ==> term_def(
            *final(active_context),
            term@,
        ) is Some,
        terms_sorted(old(active_context).term_definitions@) ==> terms_sorted(
            final(active_context).term_definitions@,
        ),
        forall|k: Seq<char>| #[trigger]
            defined_state(old(defined)@, k) is Some ==> term_def(*final(active_context), k) == term_def(
                *old(active_context),
                k,
            ),
        !override_protected && r is Ok ==> keeps_protected(
            *old(active_context),
            *final(active_context),
            obj_view(*local_context),
        ),
        defined_state(old(defined)@, term@) is None && term@.len() > 0 && term@ != "@type"@ && !is_keyword(
            term@,
        ) && !has_keyword_form(term@) && is_plain_value_in(
            obj_view(*local_context),
            *old(active_context),
            term@,
            value@,
            options.processing_mode == JsonLdProcessingMode::JsonLd1_0,
        ) ==> match plain_term_outcome(
            term_def(*old(active_context), term@),
            plain_value_iri(value@),
            plain_value_prefix(term@, value@),
            plain_value_type(value@),
            override_protected,
        ) {
            Ok(Some(p)) => r is Ok && term_def(*final(active_context), term@) == Some(p) && defined_state(
                final(defined)@,
                term@,
            ) == Some(true),
            Ok(None) => r is Ok && (term_def(*final(active_context), term@) matches Some(d) && is_plain_definition(
                d,
                plain_value_iri(value@),
                plain_value_prefix(term@, value@),
                plain_value_type(value@),
                plain_value_protected(value@, protected),
            )) && defined_state(final(defined)@, term@) == Some(true),
            Err(c) => r matches Err(e) && plain_error(e, c),
        },
        final(active_context).base_iri == old(active_context).base_iri,
        final(active_context).original_base_url == old(active_context).original_base_url,
        final(active_context).vocabulary_mapping == old(active_context).vocabulary_mapping,
        final(active_context).default_language == old(active_context).default_language,
        final(active_context).default_base_direction == old(active_context).default_base_direction,
        forall|k: Seq<char>| #[trigger]
            defined_state(old(defined)@, k) == Some(true) ==> defined_state(final(defined)@, k) == Some(true),
        forall|k: Seq<char>| #[trigger]
            defined_state(final(defined)@, k) is None ==> term_def(*final(active_context), k) == term_def(
                *old(active_context),
                k,
            ),
        forall|k: Seq<char>|
            #![trigger term_def(*final(active_context), k)]
            !has_key(obj_view(*local_context), k) ==> term_def(*final(active_context), k) == term_def(
                *old(active_context),
                k,
            ),
        r is Ok ==> defined_state(final(defined)@, term@) is Some,
        r is Ok ==> forall|k: Seq<char>| #[trigger]
            defined_state(final(defined)@, k) is Some && defined_state(old(defined)@, k) is None && plain_term(
                obj_view(*local_context),
                *old(active_context),
                k,
            ) && (k != term@ || value@ == entries_get(obj_view(*local_context), term@)->0) ==> defined_state(
                final(defined)@,
                k,
            ) == Some(true) && (term_def(*final(active_context), k) matches Some(d) && plain_term_defined(
                obj_view(*local_context),
                d,
                k,
            )),
        final(active_context).previous_context == old(active_context).previous_context,
    decreases undefined_count(obj_view(*local_context), old(defined)@), 0nat,
{
    if let Some(d) = defined_get(defined, term) {
        if d {
            return Ok(());
        } else {
            return Err(JsonLdError::new(JsonLdErrorCode::CyclicIRIMapping));
        }
    }
    if char_len(term) == 0 {
        proof {
            reveal_strlit("@type");
        }
        return Err(JsonLdError::new(JsonLdErrorCode::InvalidTermDefinition));
    }
    let ghost d0 = defined@;
    defined_set(defined, term, false);
    proof {
        lemma_undefined_count_drops(obj_view(*local_context), d0, defined@, term@);
    }
    if str_eq(term, "@type") {
        if is_1_0(options) {
            return Err(JsonLdError::new(JsonLdErrorCode::KeywordRedefinition));
        }
        match value {
            JsonValue::Object(o) => {
                if o.len() == 0 {
                    return Err(JsonLdError::new(JsonLdErrorCode::KeywordRedefinition));
                }
                let mut i: usize = 0;
                proof {
                    crate::json::lemma_view_entries(o@);
                }
                while i < o.len()
                    invariant
                        i <= o@.len(),
                        forall|j: int|
                            0 <= j < i ==> ((#[trigger] obj_view(*o)[j]).0 == "@container"@ && obj_view(*o)[j].1
                                == Json::Str("@set"@)) || obj_view(*o)[j].0 == "@protected"@,
                    decreases o@.len() - i,
                {
                    let k = o[i].0.as_str();
                    proof {
                        assert(obj_view(*o)[i as int] == (o@[i as int].0@, o@[i as int].1@));
                    }
                    let set_container = str_eq(k, "@container") && match o[i].1.as_string() {
                        Some(s) => str_eq(s.as_str(), "@set"),
                        None => false,
                    };
                    if !(set_container || str_eq(k, "@protected")) {
                        return Err(JsonLdError::new(JsonLdErrorCode::KeywordRedefinition));
                    }
                    i = i + 1;
                }
            },
            _ => {
                return Err(JsonLdError::new(JsonLdErrorCode::KeywordRedefinition));
            },
        }
    } else {
        if is_jsonld_keyword(term) {
            return Err(JsonLdError::new(JsonLdErrorCode::KeywordRedefinition));
        }
        if looks_like_a_jsonld_keyword(term) {
            return Ok(());
        }
    }
    let previous_definition = remove_term(active_context, term);
    let ghost removed = *active_context;
    if str_eq(term, "@type") {
        if let JsonValue::Object(o) = value {
            proof {
                if !override_protected {
                    assert forall|k: Seq<char>|
                        k != term@ && (#[trigger] term_def(*old(active_context), k) matches Some(p) && p.protected
                            && !reverse_entry(obj_view(*local_context), k)) implies (term_def(
                        *active_context,
                        k,
                    ) matches Some(q) && td_same(q, term_def(*old(active_context), k)->0)) by {
                        assert(term_def(removed, k) == term_def(*old(active_context), k));
                    }
                }
            }
            return define_type_term(active_context, o, defined, previous_definition, protected, override_protected);
        }
    }
    let mut definition = TermDefinition {
        iri: None,
        prefix: false,
        protected,
        reverse_property: false,
        base_url: None,
        context: Vec::new(),
        container_mapping: Container::Unordered(
            UnorderedContainer {
                is_set: false,
                kind: ContainerKind::GraphContainer(GraphContainer { is_graph: false, kind: None }),
            },
        ),
        direction_mapping: None,
        index_mapping: None,
        language_mapping: None,
        nest_value: None,
        type_mapping: None,
    };
    match value {
        JsonValue::String(id) => {
            process_id(
                active_context,
                local_context,
                term,
                &mut definition,
                defined,
                options,
                Some(id.as_str()),
                true,
            )?;
        },
        JsonValue::Null => {},
        JsonValue::Object(value) => {
            proof {
                if is_id_object(obj_view(*value)) {
                    lemma_id_object_entries(obj_view(*value));
                }
                if is_protected_id_object(obj_view(*value)) || is_id_core_object(obj_view(*value)) {
                    lemma_protected_id_object_entries(obj_view(*value));
                }
            }
            proof {
                if vocab_term_value(term@, Json::Object(obj_view(*value))) {
                    lemma_key_index(obj_view(*value), "@id"@);
                    lemma_key_index(obj_view(*value), "@reverse"@);
                }
            }
            if !obj_contains(value, "@reverse") {
                match obj_get(value, "@id") {
                    Some(id) => match id {
                        JsonValue::String(id) => {
                            process_id(
                                active_context,
                                local_context,
                                term,
                                &mut definition,
                                defined,
                                options,
                                Some(id.as_str()),
                                false,
                            )?;
                        },
                        JsonValue::Null => {},
                        _ => {
                            return Err(JsonLdError::new(JsonLdErrorCode::InvalidIRIMapping));
                        },
                    },
                    None => {
                        process_id(
                            active_context,
                            local_context,
                            term,
                            &mut definition,
                            defined,
                            options,
                            None,
                            false,
                        )?;
                    },
                }
            }
            if let Some(p) = obj_get(value, "@protected") {
                if is_1_0(options) {
                    return Err(JsonLdError::new(JsonLdErrorCode::InvalidTermDefinition));
                }
                match p.as_bool() {
                    Some(b) => definition.protected = b,
                    None => {
                        return Err(JsonLdError::new(JsonLdErrorCode::InvalidProtectedValue));
                    },
                }
            }
            if let Some(ty) = obj_get(value, "@type") {
                let ty = match ty.as_string() {
                    Some(t) => t,
                    None => {
                        return Err(JsonLdError::new(JsonLdErrorCode::InvalidTypeMapping));
                    },
                };
                let ty = expand_iri(
                    IRIExpansionArguments::DefineTerms { active_context: &*active_context, local_context, defined: &*defined },
                    ty.as_str(),
                    false,
                    true,
                )?;
                if let Some(t) = &ty {
                    let t = t.as_str();
                    if str_eq(t, "@json") || str_eq(t, "@none") {
                        if is_1_0(options) {
                            return Err(JsonLdError::new(JsonLdErrorCode::InvalidTypeMapping));
                        }
                    } else if str_eq(t, "@id") || str_eq(t, "@vocab") {
                    } else if !is_iri(t) {
                        return Err(JsonLdError::new(JsonLdErrorCode::InvalidTypeMapping));
                    }
                }
                definition.type_mapping = ty;
            }
            if let Some(reverse) = obj_get(value, "@reverse") {
                if obj_contains(value, "@id") || obj_contains(value, "@nest") {
                    return Err(JsonLdError::new(JsonLdErrorCode::InvalidReverseProperty));
                }
                let reverse = match reverse.as_string() {
                    Some(r) => r,
                    None => {
                        return Err(JsonLdError::new(JsonLdErrorCode::InvalidIRIMapping));
                    },
                };
                if looks_like_a_jsonld_keyword(reverse.as_str()) {
                    return Ok(());
                }
                definition.iri = expand_iri(
                    IRIExpansionArguments::DefineTerms { active_context: &*active_context, local_context, defined: &*defined },
                    reverse.as_str(),
                    false,
                    true,
                )?;
                let reverse_is_iri = match &definition.iri {
                    Some(i) => is_iri(i.as_str()),
                    None => false,
                };
                if !reverse_is_iri {
                    return Err(JsonLdError::new(JsonLdErrorCode::InvalidIRIMapping));
                }
                if let Some(container) = obj_get(value, "@container") {
                    match container {
                        JsonValue::String(c) => {
                            if str_eq(c.as_str(), "@set") || str_eq(c.as_str(), "@index") {
                                let cs: [&str; 1] = [c.as_str()];
                                definition.container_mapping = parse_container(&cs)?;
                            } else {
                                return Err(JsonLdError::new(JsonLdErrorCode::InvalidReverseProperty));
                            }
                        },
                        JsonValue::Null => {},
                        _ => {
                            return Err(JsonLdError::new(JsonLdErrorCode::InvalidReverseProperty));
                        },
                    }
                }
                definition.reverse_property = true;
                insert_term(active_context, string_of(term), definition);
                defined_set(defined, term, true);
                return Ok(());
            }
            if let Some(container) = obj_get(value, "@container") {
                apply_container(&mut definition, container, options)?;
            }
            if let Some(index) = obj_get(value, "@index") {
                if is_1_0(options) {
                    return Err(JsonLdError::new(JsonLdErrorCode::InvalidTermDefinition));
                }
                if !definition.container_mapping.is_index() {
                    return Err(JsonLdError::new(JsonLdErrorCode::InvalidTermDefinition));
                }
                match index.as_string() {
                    Some(i) => definition.index_mapping = Some(i.clone()),
                    None => {
                        return Err(JsonLdError::new(JsonLdErrorCode::InvalidTermDefinition));
                    },
                }
            }
            if let Some(context) = obj_get(value, "@context") {
                if is_1_0(options) {
                    return Err(JsonLdError::new(JsonLdErrorCode::InvalidTermDefinition));
                }
                let context = match map_context(context.deep_clone()) {
                    Ok(c) => c,
                    Err(e) => {
                        return Err(JsonLdError::caused_by(JsonLdErrorCode::InvalidScopedContext, &e));
                    },
                };
                definition.context = context;
                definition.base_url = match base_url {
                    Some(b) => Some(string_of(b)),
                    None => None,
                };
            }
            if !obj_contains(value, "@type") {
                if let Some(language) = obj_get(value, "@language") {
                    definition.language_mapping = Some(process_language(language)?);
                }
                if let Some(direction) = obj_get(value, "@direction") {
                    definition.direction_mapping = process_direction(direction, false)?;
                }
            }
            if let Some(nest) = obj_get(value, "@nest") {
                if is_1_0(options) {
                    return Err(JsonLdError::new(JsonLdErrorCode::InvalidTermDefinition));
                }
                let nest = match nest.as_string() {
                    Some(n) => n,
                    None => {
                        return Err(JsonLdError::new(JsonLdErrorCode::InvalidNestValue));
                    },
                };
                if is_jsonld_keyword(nest.as_str()) && !str_eq(nest.as_str(), "@nest") {
                    return Err(JsonLdError::new(JsonLdErrorCode::InvalidNestValue));
                }
                definition.nest_value = Some(nest.clone());
            }
            if let Some(prefix) = obj_get(value, "@prefix") {
                if is_1_0(options) {
                    return Err(JsonLdError::new(JsonLdErrorCode::InvalidTermDefinition));
                }
                if contains_char(term, ':') || contains_char(term, '/') {
                    return Err(JsonLdError::new(JsonLdErrorCode::InvalidTermDefinition));
                }
                match prefix.as_bool() {
                    Some(b) => definition.prefix = b,
                    None => {
                        return Err(JsonLdError::new(JsonLdErrorCode::InvalidPrefixValue));
                    },
                }
                if let Some(iri) = &definition.iri {
                    if definition.prefix && is_jsonld_keyword(iri.as_str()) {
                        return Err(JsonLdError::new(JsonLdErrorCode::InvalidTermDefinition));
                    }
                }
            }
            proof {
                crate::json::lemma_view_entries(value@);
                if is_id_object(obj_view(*value)) || is_protected_id_object(obj_view(*value)) {
                    assert forall|j: int| 0 <= j < value@.len() implies definition_key(
                        #[trigger] value@[j].0@,
                    ) by {
                        assert(obj_view(*value)[j].0 == value@[j].0@);
                    }
                }
            }
            if !all_definition_keys(value) {
                return Err(JsonLdError::new(JsonLdErrorCode::InvalidTermDefinition));
            }
        },
        _ => {
            return Err(JsonLdError::new(JsonLdErrorCode::InvalidTermDefinition));
        },
    }
    proof {
        if !override_protected {
            assert forall|k: Seq<char>|
                k != term@ && (#[trigger] term_def(*old(active_context), k) matches Some(p) && p.protected
                    && !reverse_entry(obj_view(*local_context), k)) implies (term_def(*active_context, k) matches Some(
                q,
            ) && td_same(q, term_def(*old(active_context), k)->0)) by {
                assert(term_def(removed, k) == term_def(*old(active_context), k));
            }
        }
    }
    let ghost before_insert = *active_context;
    let ghost built = definition;
    proof {
        if is_plain_value_in(
            obj_view(*local_context),
            *old(active_context),
            term@,
            value@,
            options.processing_mode == JsonLdProcessingMode::JsonLd1_0,
        ) {
            lemma_plain_definition_agrees(
                built,
                plain_value_iri(value@),
                plain_value_prefix(term@, value@),
                plain_value_type(value@),
                plain_value_protected(value@, protected),
                previous_definition,
            );
        }
    }
    install_definition(active_context, term, definition, previous_definition, override_protected, defined)?;
    proof {
        if !override_protected {
            assert forall|k: Seq<char>|
                (#[trigger] term_def(*old(active_context), k) matches Some(p) && p.protected && !reverse_entry(
                    obj_view(*local_context),
                    k,
                )) implies (term_def(*active_context, k) matches Some(q) && td_same(
                q,
                term_def(*old(active_context), k)->0,
            )) by {
                if k != term@ {
                    assert(term_def(before_insert, k) matches Some(q) && td_same(
                        q,
                        term_def(*old(active_context), k)->0,
                    ));
                }
            }
        }
    }
    Ok(())
}

/// The part of Create Term Definition that sets the IRI of `definition` from its
/// `@id` (`id`), or from the form of the term where there is none.
fn process_id<L>(
    active_context: &mut Context,
    local_context: &Vec<(String, JsonValue)>,
    term: &str,
    definition: &mut TermDefinition,
    defined: &mut Vec<(String, bool)>,
    options: &JsonLdOptions<L>,
    id: Option<&str>,
    simple_term: bool,
) -> (r: Result<(), JsonLdError>)
    requires
        defined_state(old(defined)@, term@) is Some,
    ensures
        forall|k: Seq<char>| #[trigger]
            defined_state(old(defined)@, k) is Some ==> defined_state(final(defined)@, k) is Some,
        defined_state(final(defined)@, term@) is Some,
        terms_sorted(old(active_context).term_definitions@) ==> terms_sorted(
            final(active_context).term_definitions@,
        ),
        forall|k: Seq<char>| #[trigger]
            defined_state(old(defined)@, k) is Some ==> term_def(*final(active_context), k) == term_def(
                *old(active_context),
                k,
            ),
        r is Ok ==> keeps_protected(*old(active_context), *final(active_context), obj_view(*local_context)),
        final(active_context).base_iri == old(active_context).base_iri,
        final(active_context).original_base_url == old(active_context).original_base_url,
        final(active_context).vocabulary_mapping == old(active_context).vocabulary_mapping,
        final(active_context).default_language == old(active_context).default_language,
        final(active_context).default_base_direction == old(active_context).default_base_direction,
        match id {
            Some(i) => i@ != term@ && has_keyword_form(i@) ==> r is Ok && (if is_keyword(i@) {
                opt_string_view(final(definition).iri) == Some(i@)
            } else {
                final(definition).iri == old(definition).iri
            }) && final(definition).prefix == old(definition).prefix,
            None => true,
        },
        match id {
            Some(i) => i@ != term@ && !has_keyword_form(i@) && absolute_form(i@) && !has_key(
                obj_view(*local_context),
                i@,
            ) && term_def(*old(active_context), i@) is None ==> r is Ok && opt_string_view(final(definition).iri)
                == Some(i@) && final(definition).prefix == (old(definition).prefix || (simple_term && plain_prefix(
                term@,
                i@,
            ))),
            None => true,
        },
        agrees_but_iri(*final(definition), *old(definition)),
        id is None && !term@.contains(':') && !term@.contains('/') && term@ != "@type"@ ==> match old(
            active_context,
        ).vocabulary_mapping {
            Some(v) => r is Ok && opt_string_view(final(definition).iri) == Some(v@ + term@),
            None => true,
        },
        forall|k: Seq<char>| #[trigger]
            defined_state(old(defined)@, k) == Some(true) ==> defined_state(final(defined)@, k) == Some(true),
        forall|k: Seq<char>| #[trigger]
            defined_state(final(defined)@, k) is None ==> term_def(*final(active_context), k) == term_def(
                *old(active_context),
                k,
            ),
        forall|k: Seq<char>|
            #![trigger term_def(*final(active_context), k)]
            !has_key(obj_view(*local_context), k) ==> term_def(*final(active_context), k) == term_def(
                *old(active_context),
                k,
            ),
        r is Ok ==> forall|k: Seq<char>| #[trigger]
            defined_state(final(defined)@, k) is Some && defined_state(old(defined)@, k) is None && plain_term(
                obj_view(*local_context),
                *old(active_context),
                k,
            ) ==> defined_state(final(defined)@, k) == Some(true) && (term_def(*final(active_context), k) matches Some(
                d,
            ) && plain_term_defined(obj_view(*local_context), d, k)),
        final(active_context).previous_context == old(active_context).previous_context,
        id is None && !term@.contains(':') && !term@.contains('/') && term@ != "@type"@ && old(
            active_context,
        ).vocabulary_mapping is None ==> (r matches Err(e) && plain_error(e, JsonLdErrorCode::InvalidIRIMapping)),
    decreases undefined_count(obj_view(*local_context), old(defined)@), 1nat,
{
    if let Some(id) = id {
        if !str_eq(id, term) {
            if !is_jsonld_keyword(id) && looks_like_a_jsonld_keyword(id) {
                return Ok(());
            }
            definition.iri = expand_iri(
                IRIExpansionArguments::DefineTerms { active_context: &*active_context, local_context, defined: &*defined },
                id,
                false,
                true,
            )?;
            if starts_with_char(term, ':') || ends_with_char(term, ':') || contains_char(term, '/') {
                defined_set(defined, term, true);
                let again = expand_iri(
                    IRIExpansionArguments::DefineTerms { active_context: &*active_context, local_context, defined: &*defined },
                    id,
                    false,
                    true,
                )?;
                if !opt_str_equal(&definition.iri, &again) {
                    return Err(JsonLdError::new(JsonLdErrorCode::InvalidIRIMapping));
                }
            }
            proof {
                if is_keyword(id@) {
                    lemma_keyword_has_form(id@);
                }
            }
            if let Some(iri) = &definition.iri {
                let i = iri.as_str();
                if !(contains_char(term, ':') || contains_char(term, '/')) && simple_term && (starts_with_char(
                    i,
                    '_',
                ) || ends_with_gen_delim(i)) {
                    definition.prefix = true;
                }
            }
            return Ok(());
        }
    }
    proof {
        if !term@.contains(':') {
            assert forall|p: int| !crate::util::first_colon_at(term@, p) by {
                if 1 <= p < term@.len() && term@[p] == ':' {
                    assert(term@.contains(':'));
                }
            }
        }
    }
    if let Some((prefix, suffix)) = split_compact_iri(term) {
        if let Some(prefix_definition) = obj_get(local_context, prefix) {
            proof {
                lemma_key_index(obj_view(*local_context), prefix@);
            }
            create_term_definition(
                active_context,
                local_context,
                prefix,
                prefix_definition,
                defined,
                options,
                None,
                false,
                false,
            )?;
        }
        match get_term(active_context, prefix) {
            Some(pd) => match &pd.iri {
                Some(i) => definition.iri = Some(concat(i.as_str(), suffix)),
                None => {
                    return Err(JsonLdError::new(JsonLdErrorCode::InvalidIRIMapping));
                },
            },
            None => definition.iri = Some(string_of(term)),
        }
    } else if contains_char(term, '/') {
        definition.iri = expand_iri(IRIExpansionArguments::Normal(&*active_context), term, false, true)?;
        let iri_ok = match &definition.iri {
            Some(i) => is_iri(i.as_str()),
            None => false,
        };
        if !iri_ok {
            return Err(JsonLdError::new(JsonLdErrorCode::InvalidIRIMapping));
        }
    } else if str_eq(term, "@type") {
        definition.iri = Some(string_of("@type"));
    } else {
        match &active_context.vocabulary_mapping {
            Some(v) => definition.iri = Some(concat(v.as_str(), term)),
            None => {
                return Err(JsonLdError::new(JsonLdErrorCode::InvalidIRIMapping));
            },
        }
    }
    Ok(())
}

} // verus!

verus! {

/// The most remote contexts that one processing may load.
pub const MAX_CONTEXTS: usize = 25;

/// The deepest nesting of scoped contexts that one processing validates.
pub const MAX_SCOPED_DEPTH: usize = 64;

/// `active_context` holds a protected term definition.
pub open spec fn has_protected(active_context: Context) -> bool {
    exists|i: int|
        0 <= i < active_context.term_definitions@.len()
            && (#[trigger] active_context.term_definitions@[i]).1.protected
}

/// `c` is the context that a null local context makes of `active`: no term
/// definitions, its base IRI the original base URL, and no vocabulary mapping,
/// default language or default base direction.
pub open spec fn is_reset(c: Context, active: Context) -> bool {
    &&& c.term_definitions@.len() == 0
    &&& c.base_iri == active.original_base_url
    &&& c.original_base_url == active.original_base_url
    &&& c.vocabulary_mapping is None
    &&& c.default_language is None
    &&& c.default_base_direction is None
}

/// Whether `active_context` holds a protected term definition.
pub fn has_protected_term(active_context: &Context) -> (r: bool)
    ensures
        r == exists|i: int|
            0 <= i < active_context.term_definitions@.len()
                && (#[trigger] active_context.term_definitions@[i]).1.protected,
{
    let mut i: usize = 0;
    while i < active_context.term_definitions.len()
        invariant
            i <= active_context.term_definitions@.len(),
            forall|j: int| 0 <= j < i ==> !(#[trigger] active_context.term_definitions@[j]).1.protected,
        decreases active_context.term_definitions@.len() - i,
    {
        if active_context.term_definitions[i].1.protected {
            return true;
        }
        i = i + 1;
    }
    false
}

fn contains_string(v: &Vec<String>, s: &str) -> (r: bool)
    ensures
        r == exists|i: int| 0 <= i < v@.len() && (#[trigger] v@[i])@ == s@,
{
    let mut i: usize = 0;
    while i < v.len()
        invariant
            i <= v@.len(),
            forall|j: int| 0 <= j < i ==> (#[trigger] v@[j])@ != s@,
        decreases v@.len() - i,
    {
        if str_eq(v[i].as_str(), s) {
            return true;
        }
        i = i + 1;
    }
    false
}

const CONTEXT_PROFILE: &'static str = "http://www.w3.org/ns/json-ld#context";

/// Every context cached in `before` is in `after` as it was.
pub open spec fn keeps_loaded(
    before: Map<Seq<char>, (Seq<(Seq<char>, Json)>, Seq<char>)>,
    after: Map<Seq<char>, (Seq<(Seq<char>, Json)>, Seq<char>)>,
) -> bool {
    forall|k: Seq<char>| #[trigger] before.contains_key(k) ==> after.contains_key(k) && after[k] == before[k]
}

/// The reference `iri` resolves (against `base`) to a URL whose context is cached,
/// and it is to be loaded: it has not been loaded before in this processing, or the
/// context is to be validated; and the limit of remote contexts is not reached.
pub open spec fn cache_hit(
    iri: Seq<char>,
    base: Option<Seq<char>>,
    cache: Map<Seq<char>, (Seq<(Seq<char>, Json)>, Seq<char>)>,
    remote_contexts: Seq<String>,
    validate: bool,
) -> bool {
    &&& url_resolve_outcome(iri, base) is Ok
    &&& cache.contains_key(url_resolve_outcome(iri, base)->Ok_0)
    &&& (validate || !(exists|i: int|
        0 <= i < remote_contexts.len() && (#[trigger] remote_contexts[i])@ == url_resolve_outcome(iri, base)->Ok_0))
    &&& remote_contexts.len() <= MAX_CONTEXTS
}

/// Loads the remote context that `iri` refers to, following references between
/// remote contexts: its entries and the URL of the document, or nothing where the
/// context has been loaded before in this processing and is not to be validated.
#[verifier::loop_isolation(false)]
fn load_remote_context<L: DocumentLoader>(
    iri: &str,
    base_url: Option<&str>,
    options: &mut JsonLdOptionsImpl<L>,
    remote_contexts: &mut Vec<String>,
    validate_scoped_context: bool,
) -> (r: Result<Option<(Vec<(String, JsonValue)>, String)>, JsonLdError>)
    ensures
        final(remote_contexts)@.len() <= MAX_CONTEXTS + 1 || final(remote_contexts)@.len() <= old(
            remote_contexts,
        )@.len(),
        final(options).inner == old(options).inner,
        keeps_loaded(loaded_contents(old(options).loaded_contexts), loaded_contents(final(options).loaded_contexts)),
        cache_hit(
            iri@,
            opt_view(base_url),
            loaded_contents(old(options).loaded_contexts),
            old(remote_contexts)@,
            validate_scoped_context,
        ) ==> (r matches Ok(Some((c, b))) && (obj_view(c), b@) == loaded_contents(old(options).loaded_contexts)[url_resolve_outcome(
            iri@,
            opt_view(base_url),
        )->Ok_0]),
{
    let ghost iri0 = iri@;
    let mut iri = string_of(iri);
    let mut validate = validate_scoped_context;
    let ghost mut first = true;
    loop
        invariant
            remote_contexts@.len() <= MAX_CONTEXTS + 1 || remote_contexts@.len() <= old(remote_contexts)@.len(),
            options.inner == old(options).inner,
            keeps_loaded(loaded_contents(old(options).loaded_contexts), loaded_contents(options.loaded_contexts)),
            first ==> iri@ == iri0 && remote_contexts@ == old(remote_contexts)@ && validate
                == validate_scoped_context && options.loaded_contexts == old(options).loaded_contexts,
            !first ==> !cache_hit(
                iri0,
                opt_view(base_url),
                loaded_contents(old(options).loaded_contexts),
                old(remote_contexts)@,
                validate_scoped_context,
            ),
        decreases (if remote_contexts@.len() <= MAX_CONTEXTS + 1 {
            MAX_CONTEXTS + 2 - remote_contexts@.len()
        } else {
            0int
        }) * 2 + (if validate {
            1int
        } else {
            0int
        }),
    {
        let context = match resolve(iri.as_str(), base_url) {
            Ok(c) => c,
            Err(m) => {
                return Err(JsonLdError::with_cause(JsonLdErrorCode::LoadingDocumentFailed, m));
            },
        };
        let seen = contains_string(remote_contexts, context.as_str());
        if !validate && seen {
            return Ok(None);
        }
        if remote_contexts.len() > MAX_CONTEXTS {
            return Err(JsonLdError::new(JsonLdErrorCode::ContextOverflow));
        }
        if !seen {
            remote_contexts.push(context.clone());
        }
        if let Some(lc) = loaded_get(&options.loaded_contexts, context.as_str()) {
            return Ok(Some((clone_object(&lc.context), lc.base_url.clone())));
        }
        let mut profile: Vec<String> = Vec::new();
        profile.push(string_of(CONTEXT_PROFILE));
        let document = match load_remote(context.as_str(), options.inner, Some(string_of(CONTEXT_PROFILE)), profile) {
            Ok(d) => d,
            Err(e) => {
                return Err(JsonLdError::caused_by(JsonLdErrorCode::LoadingRemoteContextFailed, &e));
            },
        };
        let base = match url_parse(document.document_url.as_str()) {
            Ok(b) => b,
            Err(m) => {
                return Err(JsonLdError::with_cause(JsonLdErrorCode::LoadingRemoteContextFailed, m));
            },
        };
        let parsed = match &options.inner.document_loader {
            Some(parser) => document.document.into_parsed(parser),
            None => Err(string_of("Default Document Loader is not specified")),
        };
        let parsed = match parsed {
            Ok(p) => p,
            Err(m) => {
                return Err(JsonLdError::with_cause(JsonLdErrorCode::LoadingRemoteContextFailed, m));
            },
        };
        let loaded = match parsed {
            JsonValue::Object(o) => {
                let mut o = o;
                obj_remove(&mut o, "@context")
            },
            _ => None,
        };
        match loaded {
            Some(JsonValue::Object(ctx)) => {
                let copy = clone_object(&ctx);
                let base_copy = base.clone();
                loaded_insert(&mut options.loaded_contexts, context, LoadedContext { context: ctx, base_url: base });
                return Ok(Some((copy, base_copy)));
            },
            Some(JsonValue::String(redirection)) => {
                iri = redirection;
            },
            _ => {
                return Err(JsonLdError::new(JsonLdErrorCode::InvalidRemoteContext));
            },
        }
        validate = false;
        proof {
            first = false;
        }
    }
}

/// Whether the value is a JSON number equal to 1.1.
fn is_version_1_1(v: &JsonValue) -> (r: bool)
    ensures
        r == (v@ == Json::Number("1.1"@)),
{
    match v {
        JsonValue::Number(n) => str_eq(n.as_str(), "1.1"),
        _ => false,
    }
}

/// Keys of a local context that are not terms.
pub open spec fn is_context_key(k: Seq<char>) -> bool {
    k == "@base"@ || k == "@direction"@ || k == "@import"@ || k == "@language"@ || k == "@propagate"@ || k
        == "@protected"@ || k == "@version"@ || k == "@vocab"@
}

/// The keys of a local context that are not terms have the form of keywords.
proof fn lemma_context_key_form(k: Seq<char>)
    requires
        is_context_key(k),
    ensures
        has_keyword_form(k),
{
    reveal_strlit("@base");
    reveal_strlit("@direction");
    reveal_strlit("@import");
    reveal_strlit("@language");
    reveal_strlit("@propagate");
    reveal_strlit("@protected");
    reveal_strlit("@version");
    reveal_strlit("@vocab");
}

fn is_context_keyword(k: &str) -> (r: bool)
    ensures
        r == is_context_key(k@),
{
    str_eq(k, "@base") || str_eq(k, "@direction") || str_eq(k, "@import") || str_eq(k, "@language")
        || str_eq(k, "@propagate") || str_eq(k, "@protected") || str_eq(k, "@version") || str_eq(
        k,
        "@vocab",
    )
}

/// Each local context is null or an object given inline without `@import`.
pub open spec fn inline_contexts(local: Seq<Option<JsonOrReference>>) -> bool {
    forall|i: int|
        0 <= i < local.len() ==> match #[trigger] local[i] {
            None => true,
            Some(JsonOrReference::JsonObject(o)) => !has_key(obj_view(o), "@import"@),
            Some(JsonOrReference::Reference(_)) => false,
        }
}

/// One of the local contexts redefines `k` as a reverse property.
pub open spec fn reverse_in_contexts(local: Seq<Option<JsonOrReference>>, k: Seq<char>) -> bool {
    exists|i: int|
        0 <= i < local.len() && (#[trigger] local[i] matches Some(JsonOrReference::JsonObject(o)) && reverse_entry(
            obj_view(o),
            k,
        ))
}

/// Every protected term definition of `before` is in `after` as it was, but those that
/// one of the local contexts redefines as reverse properties.
pub open spec fn keeps_protected_all(before: Context, after: Context, local: Seq<Option<JsonOrReference>>) -> bool {
    forall|k: Seq<char>|
        (#[trigger] term_def(before, k) matches Some(p) && p.protected && !reverse_in_contexts(local, k)) ==> (
        term_def(after, k) matches Some(q) && td_same(q, term_def(before, k)->0))
}

proof fn lemma_key_index_same_keys<A, B>(e1: Seq<(Seq<char>, A)>, e2: Seq<(Seq<char>, B)>, k: Seq<char>)
    requires
        e1.len() == e2.len(),
        forall|i: int| 0 <= i < e1.len() ==> (#[trigger] e1[i]).0 == e2[i].0,
    ensures
        key_index(e1, k) == key_index(e2, k),
    decreases e1.len(),
{
    if e1.len() > 0 {
        assert(e1[0].0 == e2[0].0);
        lemma_key_index_same_keys(e1.drop_first(), e2.drop_first(), k);
    }
}

/// Two contexts that agree give definitions that agree for every term.
pub(crate) proof fn lemma_same_context_term_def(a: Context, b: Context, k: Seq<char>)
    requires
        ctx_same(a, b),
    ensures
        term_def(a, k) is Some == term_def(b, k) is Some,
        term_def(a, k) is Some ==> td_same(term_def(a, k)->0, term_def(b, k)->0),
{
    let ea = term_entries(a.term_definitions@);
    let eb = term_entries(b.term_definitions@);
    assert forall|i: int| 0 <= i < ea.len() implies (#[trigger] ea[i]).0 == eb[i].0 by {
        assert(a.term_definitions@[i].0@ == b.term_definitions@[i].0@);
    }
    lemma_key_index_same_keys(ea, eb, k);
    lemma_key_index(ea, k);
    let i = key_index(ea, k);
    if i >= 0 {
        assert(td_same(a.term_definitions@[i].1, b.term_definitions@[i].1));
    }
}

/// The local context is one object whose `@propagate` is not a boolean.
pub open spec fn bad_propagate(local_context: Seq<Option<JsonOrReference>>) -> bool {
    local_context.len() == 1 && match local_context[0] {
        Some(JsonOrReference::JsonObject(o)) => match crate::json::entries_get(obj_view(o), "@propagate"@) {
            Some(v) => !(v is Bool),
            None => false,
        },
        _ => false,
    }
}

/// The Context Processing algorithm: the active context that `local_context` makes of
/// `active_context`.
#[verifier::loop_isolation(false)]
pub fn process_context<L: DocumentLoader>(
    active_context: &Context,
    local_context: &Vec<Option<JsonOrReference>>,
    base_url: Option<&str>,
    options: &mut JsonLdOptionsImpl<L>,
    remote_contexts: &mut Vec<String>,
    override_protected: bool,
    propagate: bool,
    validate_scoped_context: bool,
    depth: usize,
) -> (r: Result<Context, JsonLdError>)
    ensures
        final(remote_contexts)@.len() <= MAX_CONTEXTS + 1 || final(remote_contexts)@.len() <= old(
            remote_contexts,
        )@.len(),
        final(options).inner == old(options).inner,
        bad_propagate(local_context@) ==> (r matches Err(e) && plain_error(
            e,
            JsonLdErrorCode::InvalidPropagateValue,
        )),
        keeps_loaded(loaded_contents(old(options).loaded_contexts), loaded_contents(final(options).loaded_contexts)),
        terms_sorted(active_context.term_definitions@) ==> (r matches Ok(c) ==> terms_sorted(
            c.term_definitions@,
        )),
        !override_protected && inline_contexts(local_context@) ==> (r matches Ok(c) ==> keeps_protected_all(
            *active_context,
            c,
            local_context@,
        )),
        local_context@.len() == 1 ==> (local_context@[0] matches Some(JsonOrReference::JsonObject(o)) ==> (
        r matches Ok(c) ==> after_object(obj_view(o), *active_context, c, old(remote_contexts)@.len() == 0))),
        local_context@ == seq![None::<JsonOrReference>] ==> if !override_protected && has_protected(*active_context) {
            r matches Err(e) && plain_error(e, JsonLdErrorCode::InvalidContextNullification)
        } else {
            r matches Ok(c) && is_reset(c, *active_context)
        },
        match single_object(local_context@) {
            Some(o) => !bad_propagate(local_context@) ==> {
                &&& match entries_error(
                    o,
                    old(options).inner.processing_mode == JsonLdProcessingMode::JsonLd1_0,
                    old(remote_contexts)@.len() == 0,
                    opt_string_view(active_context.base_iri),
                ) {
                    Some(Some(c)) => r matches Err(e) && e.code == c,
                    Some(None) => plain_context(o, *active_context, override_protected) ==> r is Ok,
                    None => true,
                }
                &&& entries_get(o, "@propagate"@) == Some(Json::Bool(false)) && active_context.previous_context is None
                    ==> (r matches Ok(c) ==> (c.previous_context matches Some(p) && ctx_same(*p, *active_context)))
            },
            None => true,
        },
        local_context@ == seq![None::<JsonOrReference>] && propagate ==> (r matches Ok(c) ==> c.previous_context is None),
        match single_object(local_context@) {
            Some(o) => !has_key(o, "@import"@) ==> (r matches Ok(c) ==> forall|k: Seq<char>|
                #![trigger term_def(c, k)]
                !has_key(o, k) ==> same_term(c, *active_context, k)),
            None => true,
        },
    decreases depth, 2nat,
{
    let ghost old_propagate = propagate;
    let mut propagate = propagate;
    let mut result = clone_context(active_context);
    let ghost cloned = result;
    proof {
        assert forall|k: Seq<char>|
            (#[trigger] term_def(*active_context, k) matches Some(p) && p.protected && !reverse_in_contexts(
                local_context@,
                k,
            )) implies (term_def(result, k) matches Some(q) && td_same(q, term_def(*active_context, k)->0)) by {
            lemma_same_context_term_def(result, *active_context, k);
        }
    }
    if local_context.len() == 1 {
        if let Some(JsonOrReference::JsonObject(ctx)) = &local_context[0] {
            if let Some(v) = obj_get(ctx, "@propagate") {
                match v.as_bool() {
                    Some(b) => propagate = b,
                    None => {
                        return Err(JsonLdError::new(JsonLdErrorCode::InvalidPropagateValue));
                    },
                }
            }
        }
    }
    let ghost prop0 = old_propagate;
    proof {
        if let Some(o) = single_object(local_context@) {
            if entries_get(o, "@propagate"@) == Some(Json::Bool(false)) {
                assert(!propagate);
            }
        }
    }
    if !propagate && result.previous_context.is_none() {
        result.previous_context = Some(Box::new(clone_context(active_context)));
    }
    let mut idx: usize = 0;
    while idx < local_context.len()
        invariant
            idx <= local_context@.len(),
            remote_contexts@.len() <= MAX_CONTEXTS + 1 || remote_contexts@.len() <= old(remote_contexts)@.len(),
            options.inner == old(options).inner,
            keeps_loaded(loaded_contents(old(options).loaded_contexts), loaded_contents(options.loaded_contexts)),
            terms_sorted(active_context.term_definitions@) ==> terms_sorted(result.term_definitions@),
            !override_protected && inline_contexts(local_context@) ==> keeps_protected_all(
                *active_context,
                result,
                local_context@,
            ),
            idx > 0 && local_context@[idx - 1] is None ==> is_reset(result, *active_context),
            idx == 0 ==> remote_contexts@ == old(remote_contexts)@ && result.default_language
                == active_context.default_language && result.default_base_direction
                == active_context.default_base_direction && result.vocabulary_mapping
                == active_context.vocabulary_mapping && result.base_iri == active_context.base_iri,
            idx > 0 && local_context@.len() == 1 ==> (local_context@[0] matches Some(JsonOrReference::JsonObject(o))
                ==> after_object(obj_view(o), *active_context, result, old(remote_contexts)@.len() == 0)),
            idx > 0 && local_context@[idx - 1] is None ==> (override_protected || !has_protected(*active_context)),
            idx == 0 ==> result.term_definitions == cloned.term_definitions,
            ctx_same(cloned, *active_context),
            single_object(local_context@) is Some && !propagate && active_context.previous_context is None ==> (
            result.previous_context matches Some(p) && ctx_same(*p, *active_context)),
            local_context@ == seq![None::<JsonOrReference>] && prop0 ==> propagate && (idx > 0
                ==> result.previous_context is None),
            idx > 0 ==> match single_object(local_context@) {
                Some(o) => !has_key(o, "@import"@) ==> forall|k: Seq<char>|
                    #![trigger term_def(result, k)]
                    !has_key(o, k) ==> same_term(result, *active_context, k),
                None => true,
            },
            idx > 0 ==> match single_object(local_context@) {
                Some(o) => !(entries_error(
                    o,
                    old(options).inner.processing_mode == JsonLdProcessingMode::JsonLd1_0,
                    old(remote_contexts)@.len() == 0,
                    opt_string_view(active_context.base_iri),
                ) matches Some(Some(_))),
                None => true,
            },
        decreases local_context@.len() - idx,
    {
        match &local_context[idx] {
            None => {
                if !override_protected && has_protected_term(active_context) {
                    return Err(JsonLdError::new(JsonLdErrorCode::InvalidContextNullification));
                }
                proof {
                    if !override_protected {
                        assert forall|k: Seq<char>| #[trigger] term_def(*active_context, k) is Some implies !term_def(
                            *active_context,
                            k,
                        )->0.protected by {
                            let e = term_entries(active_context.term_definitions@);
                            lemma_key_index(e, k);
                            let j = key_index(e, k);
                            assert(e[j].1 == active_context.term_definitions@[j].1);
                        }
                    }
                }
                let previous_context = if !propagate {
                    Some(Box::new(result))
                } else {
                    None
                };
                let mut nulled = Context::new();
                nulled.base_iri = active_context.original_base_url.clone();
                nulled.original_base_url = active_context.original_base_url.clone();
                nulled.previous_context = previous_context;
                result = nulled;
            },
            Some(JsonOrReference::Reference(iri)) => {
                match load_remote_context(iri.as_str(), base_url, options, remote_contexts, validate_scoped_context)? {
                    None => {},
                    Some((json, base)) => {
                        process_context_object(
                            &mut result,
                            json,
                            Some(base.as_str()),
                            options,
                            remote_contexts,
                            override_protected,
                            depth,
                        )?;
                    },
                }
            },
            Some(JsonOrReference::JsonObject(json)) => {
                let ghost before = result;
                proof {
                    if idx == 0 {
                        lemma_plain_same_terms(obj_view(*json), before, cloned, override_protected);
                        if plain_context(obj_view(*json), *active_context, override_protected) {
                            lemma_plain_same_ctx(obj_view(*json), *active_context, cloned, override_protected);
                        }
                    }
                }
                process_context_object(
                    &mut result,
                    clone_object(json),
                    base_url,
                    options,
                    remote_contexts,
                    override_protected,
                    depth,
                )?;
                proof {
                    if idx == 0 && !has_key(obj_view(*json), "@import"@) {
                        assert forall|k: Seq<char>|
                            #![trigger term_def(result, k)]
                            !has_key(obj_view(*json), k) implies same_term(result, *active_context, k) by {
                            assert(term_def(result, k) == term_def(before, k));
                            assert(term_def(before, k) == term_def(cloned, k));
                            lemma_same_context_term_def(cloned, *active_context, k);
                        }
                    }
                    if idx == 0 && !has_key(obj_view(*json), "@import"@) {
                        assert forall|k: Seq<char>| #[trigger] plain_term(obj_view(*json), *active_context, k) implies (
                        term_def(result, k) matches Some(d) && plain_term_defined(obj_view(*json), d, k)) by {
                            if let Some(t) = value_id(entries_get(obj_view(*json), k)->0) {
                                lemma_same_context_term_def(cloned, *active_context, t);
                                assert(term_def(before, t) == term_def(cloned, t));
                            }
                            assert(plain_term(obj_view(*json), before, k));
                        }
                    }
                    if !override_protected && inline_contexts(local_context@) {
                        assert(local_context@[idx as int] == Some(JsonOrReference::JsonObject(*json)));
                        assert forall|k: Seq<char>|
                            (#[trigger] term_def(*active_context, k) matches Some(p) && p.protected
                                && !reverse_in_contexts(local_context@, k)) implies (term_def(result, k) matches Some(
                            q,
                        ) && td_same(q, term_def(*active_context, k)->0)) by {
                            assert(term_def(before, k) is Some);
                            if reverse_entry(obj_view(*json), k) {
                                assert(local_context@[idx as int] matches Some(JsonOrReference::JsonObject(o))
                                    && reverse_entry(obj_view(o), k));
                            }
                        }
                    }
                }
            },
        }
        idx = idx + 1;
    }
    Ok(result)
}

/// The default language after a context object: that of its `@language` entry
/// (a string, or none for null), else the one before where the object (without an
/// `@import`) has none.
pub open spec fn language_after(json: Seq<(Seq<char>, Json)>, before: Option<String>, after: Option<String>) -> bool {
    match entries_get(json, "@language"@) {
        Some(Json::Str(l)) => opt_string_view(after) == Some(l),
        Some(_) => after is None,
        None => !has_key(json, "@import"@) ==> after == before,
    }
}

/// The default base direction after a context object, as `language_after` says of
/// the language.
pub open spec fn direction_after(json: Seq<(Seq<char>, Json)>, before: Option<Direction>, after: Option<Direction>) -> bool {
    match entries_get(json, "@direction"@) {
        Some(Json::Str(d)) => (d == "ltr"@ && after == Some(Direction::LTR)) || (d == "rtl"@ && after == Some(
            Direction::RTL,
        )),
        Some(_) => after is None,
        None => !has_key(json, "@import"@) ==> after == before,
    }
}

/// The base IRI after a context object: in a context that was not loaded, its `@base`
/// resolved against the base IRI before (none for null); otherwise as before.
pub open spec fn base_after(json: Seq<(Seq<char>, Json)>, top: bool, before: Option<String>, after: Option<String>) -> bool {
    if top {
        match entries_get(json, "@base"@) {
            Some(Json::Str(i)) => opt_string_view(after) == Some(
                url_resolve_outcome(i, opt_string_view(before))->Ok_0,
            ) && url_resolve_outcome(i, opt_string_view(before)) is Ok,
            Some(_) => after is None,
            None => !has_key(json, "@import"@) ==> after == before,
        }
    } else {
        after == before
    }
}

/// What one context object `json` makes of the default language, default base
/// direction, vocabulary mapping and base IRI of `before` (`top`: the context was not
/// loaded).
pub open spec fn after_object(json: Seq<(Seq<char>, Json)>, before: Context, after: Context, top: bool) -> bool {
    &&& language_after(json, before.default_language, after.default_language)
    &&& direction_after(json, before.default_base_direction, after.default_base_direction)
    &&& (entries_get(json, "@vocab"@) == Some(Json::Null) ==> after.vocabulary_mapping is None)
    &&& (!has_key(json, "@vocab"@) && !has_key(json, "@import"@) ==> after.vocabulary_mapping
        == before.vocabulary_mapping)
    &&& base_after(json, top, before.base_iri, after.base_iri)
    &&& (!has_key(json, "@import"@) ==> forall|k: Seq<char>| #[trigger]
        plain_term(json, before, k) ==> (term_def(after, k) matches Some(d) && plain_term_defined(json, d, k)))
}

/// A direction text that context processing accepts.
pub open spec fn direction_ok(v: Json) -> bool {
    match v {
        Json::Str(d) => d == "ltr"@ || d == "rtl"@,
        Json::Null => true,
        _ => false,
    }
}

/// The error that the entries of a context object other than its terms give, in
/// the order the algorithm checks them: `@version`, `@import`, `@base` (for a
/// context that was not loaded, `top`), `@vocab`, `@language`, `@direction`,
/// `@propagate` and `@protected`. `Some(None)` where they all pass; `None` where the
/// outcome rests on what is not stated here (an imported context, or a `@vocab`
/// that is neither of the form of a keyword nor an absolute IRI or blank node
/// identifier).
pub open spec fn entries_error(
    json: Seq<(Seq<char>, Json)>,
    one_zero: bool,
    top: bool,
    base: Option<Seq<char>>,
) -> Option<Option<JsonLdErrorCode>> {
    let version = entries_get(json, "@version"@);
    let base_entry = entries_get(json, "@base"@);
    let vocab = entries_get(json, "@vocab"@);
    if version is Some && version != Some(Json::Number("1.1"@)) {
        Some(Some(JsonLdErrorCode::InvalidVersionValue))
    } else if version is Some && one_zero {
        Some(Some(JsonLdErrorCode::ProcessingModeConflict))
    } else if has_key(json, "@import"@) {
        if one_zero {
            Some(Some(JsonLdErrorCode::InvalidContextEntry))
        } else if !(entries_get(json, "@import"@) matches Some(Json::Str(_))) {
            Some(Some(JsonLdErrorCode::InvalidImportValue))
        } else {
            None
        }
    } else if top && base_entry is Some && !(base_entry matches Some(Json::Null)) && !(match base_entry {
        Some(Json::Str(b)) => url_resolve_outcome(b, base) is Ok,
        _ => false,
    }) {
        Some(Some(JsonLdErrorCode::InvalidBaseIRI))
    } else if vocab is Some && !(vocab matches Some(Json::Null)) && !(vocab matches Some(Json::Str(_))) {
        Some(Some(JsonLdErrorCode::InvalidVocabMapping))
    } else if (match vocab {
        Some(Json::Str(v)) => !(has_keyword_form(v) || absolute_form(v)),
        _ => false,
    }) {
        None
    } else if entries_get(json, "@language"@) is Some && !(entries_get(json, "@language"@) matches Some(Json::Str(_)))
        && !(entries_get(json, "@language"@) matches Some(Json::Null)) {
        Some(Some(JsonLdErrorCode::InvalidDefaultLanguage))
    } else if has_key(json, "@direction"@) && one_zero {
        Some(Some(JsonLdErrorCode::ProcessingModeConflict))
    } else if has_key(json, "@direction"@) && !direction_ok(entries_get(json, "@direction"@)->0) {
        Some(Some(JsonLdErrorCode::InvalidBaseDirection))
    } else if has_key(json, "@propagate"@) && one_zero {
        Some(Some(JsonLdErrorCode::InvalidContextEntry))
    } else if entries_get(json, "@protected"@) is Some && !(entries_get(json, "@protected"@) matches Some(Json::Bool(_))) {
        Some(Some(JsonLdErrorCode::InvalidProtectedValue))
    } else {
        Some(None)
    }
}

/// Two contexts with the same term definitions agree on which terms and contexts
/// are plain.
proof fn lemma_plain_same_terms(local: Seq<(Seq<char>, Json)>, a: Context, b: Context, ov: bool)
    requires
        a.term_definitions == b.term_definitions,
    ensures
        plain_context(local, a, ov) == plain_context(local, b, ov),
        forall|k: Seq<char>| #[trigger] plain_term(local, a, k) == plain_term(local, b, k),
{
    assert forall|k: Seq<char>| #[trigger] term_def(a, k) == term_def(b, k) by {}
    assert forall|k: Seq<char>| #[trigger] plain_term(local, a, k) == plain_term(local, b, k) by {
        if let Some(t) = value_id(entries_get(local, k)->0) {
            assert(term_def(a, t) == term_def(b, t));
        }
    }
    assert forall|j: int| 0 <= j < local.len() implies is_plain_value(local, a, local[j].0, local[j].1)
        == is_plain_value(local, b, local[j].0, local[j].1) by {
        if let Some(t) = value_id(local[j].1) {
            assert(term_def(a, t) == term_def(b, t));
        }
    }
    if plain_context(local, a, ov) {
        assert forall|j: int| 0 <= j < local.len() implies is_context_key(local[j].0) || (#[trigger] plain_term(
            local,
            b,
            local[j].0,
        ) && is_plain_value(local, b, local[j].0, local[j].1)) by {
            assert(is_context_key(local[j].0) || plain_term(local, a, local[j].0));
        }
        assert forall|k: Seq<char>| #[trigger] plain_term(local, b, k) implies plain_term_outcome(
            term_def(b, k),
            plain_value_iri(entries_get(local, k)->0),
            plain_value_prefix(k, entries_get(local, k)->0),
            plain_value_type(entries_get(local, k)->0),
            ov,
        ) is Ok by {
            assert(plain_term(local, a, k));
        }
    }
    if plain_context(local, b, ov) {
        assert forall|j: int| 0 <= j < local.len() implies is_context_key(local[j].0) || (#[trigger] plain_term(
            local,
            a,
            local[j].0,
        ) && is_plain_value(local, a, local[j].0, local[j].1)) by {
            assert(is_context_key(local[j].0) || plain_term(local, b, local[j].0));
        }
        assert forall|k: Seq<char>| #[trigger] plain_term(local, a, k) implies plain_term_outcome(
            term_def(a, k),
            plain_value_iri(entries_get(local, k)->0),
            plain_value_prefix(k, entries_get(local, k)->0),
            plain_value_type(entries_get(local, k)->0),
            ov,
        ) is Ok by {
            assert(plain_term(local, b, k));
        }
    }
}

/// A plain context stays plain against a copy of the context.
proof fn lemma_plain_same_ctx(local: Seq<(Seq<char>, Json)>, a: Context, b: Context, ov: bool)
    requires
        ctx_same(b, a),
        plain_context(local, a, ov),
    ensures
        plain_context(local, b, ov),
{
    assert forall|k: Seq<char>| #[trigger] plain_term(local, b, k) == plain_term(local, a, k) by {
        if let Some(t) = value_id(entries_get(local, k)->0) {
            lemma_same_context_term_def(b, a, t);
        }
    }
    assert forall|j: int| 0 <= j < local.len() implies is_context_key(local[j].0) || (#[trigger] plain_term(
        local,
        b,
        local[j].0,
    ) && is_plain_value(local, b, local[j].0, local[j].1)) by {
        if let Some(t) = value_id(local[j].1) {
            lemma_same_context_term_def(b, a, t);
        }
        assert(is_context_key(local[j].0) || (plain_term(local, a, local[j].0) && is_plain_value(
            local,
            a,
            local[j].0,
            local[j].1,
        )));
    }
    assert forall|k: Seq<char>| #[trigger] plain_term(local, b, k) implies plain_term_outcome(
        term_def(b, k),
        plain_value_iri(entries_get(local, k)->0),
        plain_value_prefix(k, entries_get(local, k)->0),
        plain_value_type(entries_get(local, k)->0),
        ov,
    ) is Ok by {
        assert(plain_term(local, a, k));
        lemma_same_context_term_def(b, a, k);
        if let Some(p) = term_def(a, k) {
            let q = term_def(b, k)->0;
            assert(contexts_json(p.context@).len() == p.context@.len());
            assert(contexts_json(q.context@).len() == q.context@.len());
        }
    }
}

/// The object of a local context made of one inline object.
pub open spec fn single_object(local_context: Seq<Option<JsonOrReference>>) -> Option<Seq<(Seq<char>, Json)>> {
    if local_context.len() == 1 {
        match local_context[0] {
            Some(JsonOrReference::JsonObject(o)) => Some(obj_view(o)),
            _ => None,
        }
    } else {
        None
    }
}

/// Defines the terms of the context object `json` in `result`, whose other entries
/// have been applied; `protected` is the object's `@protected` flag.
#[verifier::loop_isolation(false)]
#[verifier::spinoff_prover]
#[verifier::rlimit(60)]
fn define_terms<L: DocumentLoader>(
    result: &mut Context,
    json: &Vec<(String, JsonValue)>,
    base_url: Option<&str>,
    options: &mut JsonLdOptionsImpl<L>,
    remote_contexts: &mut Vec<String>,
    override_protected: bool,
    depth: usize,
    protected: bool,
) -> (r: Result<(), JsonLdError>)
    ensures
        final(remote_contexts)@.len() <= MAX_CONTEXTS + 1 || final(remote_contexts)@.len() <= old(
            remote_contexts,
        )@.len(),
        final(options).inner == old(options).inner,
        keeps_loaded(loaded_contents(old(options).loaded_contexts), loaded_contents(final(options).loaded_contexts)),
        final(result).base_iri == old(result).base_iri,
        final(result).original_base_url == old(result).original_base_url,
        final(result).vocabulary_mapping == old(result).vocabulary_mapping,
        final(result).default_language == old(result).default_language,
        final(result).default_base_direction == old(result).default_base_direction,
        final(result).previous_context == old(result).previous_context,
        terms_sorted(old(result).term_definitions@) ==> terms_sorted(final(result).term_definitions@),
        !override_protected && r is Ok ==> keeps_protected(*old(result), *final(result), obj_view(*json)),
        r is Ok ==> forall|k: Seq<char>| #[trigger]
            plain_term(obj_view(*json), *old(result), k) ==> (term_def(*final(result), k) matches Some(d)
                && plain_term_defined(obj_view(*json), d, k)),
        plain_context(obj_view(*json), *old(result), override_protected) ==> r is Ok,
        r is Ok ==> forall|k: Seq<char>|
            #![trigger term_def(*final(result), k)]
            !has_key(obj_view(*json), k) ==> term_def(*final(result), k) == term_def(*old(result), k),
    decreases depth, 0nat,
{
    let mut defined: Vec<(String, bool)> = Vec::new();
    proof {
        assert forall|k: Seq<char>|
            (#[trigger] term_def(*old(result), k) matches Some(p) && p.protected && !reverse_entry(obj_view(*json), k))
                implies (term_def(*result, k) matches Some(q) && td_same(q, term_def(*old(result), k)->0)) by {
        }
    }
    let ghost pre = *result;
    let mut i: usize = 0;
    while i < json.len()
        invariant
            i <= json@.len(),
            result.base_iri == pre.base_iri,
            result.original_base_url == pre.original_base_url,
            result.vocabulary_mapping == pre.vocabulary_mapping,
            result.default_language == pre.default_language,
            result.default_base_direction == pre.default_base_direction,
            remote_contexts@.len() <= MAX_CONTEXTS + 1 || remote_contexts@.len() <= old(remote_contexts)@.len(),
            keeps_loaded(loaded_contents(old(options).loaded_contexts), loaded_contents(options.loaded_contexts)),
            options.inner == old(options).inner,
            terms_sorted(old(result).term_definitions@) ==> terms_sorted(result.term_definitions@),
            !override_protected ==> keeps_protected(*old(result), *result, obj_view(*json)),
            pre == *old(result),
            result.previous_context == old(result).previous_context,
            forall|k: Seq<char>| #[trigger]
                defined_state(defined@, k) is None ==> term_def(*result, k) == term_def(pre, k),
            forall|k: Seq<char>|
                #![trigger term_def(*result, k)]
                !has_key(obj_view(*json), k) ==> term_def(*result, k) == term_def(pre, k),
            forall|k: Seq<char>| #[trigger]
                defined_state(defined@, k) is Some && plain_term(obj_view(*json), pre, k) ==> defined_state(
                    defined@,
                    k,
                ) == Some(true) && (term_def(*result, k) matches Some(d) && plain_term_defined(
                    obj_view(*json),
                    d,
                    k,
                )),
            forall|j: int|
                0 <= j < i && !is_context_key(#[trigger] obj_view(*json)[j].0) ==> defined_state(
                    defined@,
                    obj_view(*json)[j].0,
                ) is Some,
        decreases json@.len() - i,
    {
        let key = json[i].0.as_str();
        if !is_context_keyword(key) {
            proof {
                crate::json::lemma_view_entries(json@);
                assert(obj_view(*json)[i as int].0 == key@);
            }
            let ghost ctx_before = *result;
            let ghost def_before = defined@;
            proof {
                if plain_context(obj_view(*json), *old(result), override_protected) {
                    lemma_key_index(obj_view(*json), key@);
                    assert(plain_term(obj_view(*json), *old(result), obj_view(*json)[i as int].0));
                    assert(plain_term(obj_view(*json), pre, key@)) by {
                        if let Some(t) = value_id(entries_get(obj_view(*json), key@)->0) {
                            assert(term_def(pre, t) == term_def(*old(result), t));
                        }
                    }
                    if key@.len() > 0 && is_keyword(key@) {
                        crate::util::lemma_keyword_has_form(key@);
                    }
                    if defined_state(def_before, key@) is None {
                        if let Some(t) = value_id(entries_get(obj_view(*json), key@)->0) {
                            if !has_key(obj_view(*json), t) {
                                assert(term_def(ctx_before, t) == term_def(pre, t));
                            }
                        }
                        let j0 = key_index(obj_view(*json), key@);
                        if j0 < i {
                            assert(!is_context_key(obj_view(*json)[j0].0));
                        }
                        assert(obj_view(*json)[i as int].1 == json[i as int].1@);
                        assert(term_def(ctx_before, key@) == term_def(pre, key@));
                        assert(term_def(pre, key@) == term_def(*old(result), key@));
                    }
                }
            }
            let created = create_term_definition(
                result,
                json,
                key,
                &json[i].1,
                &mut defined,
                options.inner,
                base_url,
                protected,
                override_protected,
            );
            created?;
            proof {
                lemma_key_index(obj_view(*json), key@);
                assert forall|k: Seq<char>| #[trigger]
                    defined_state(defined@, k) is Some && plain_term(obj_view(*json), pre, k) implies defined_state(
                    defined@,
                    k,
                ) == Some(true) && (term_def(*result, k) matches Some(d) && plain_term_defined(
                    obj_view(*json),
                    d,
                    k,
                )) by {
                    if defined_state(def_before, k) is None {
                        if let Some(t) = value_id(entries_get(obj_view(*json), k)->0) {
                            if !has_key(obj_view(*json), t) {
                                assert(term_def(ctx_before, t) == term_def(pre, t));
                            }
                        }
                        assert(plain_term(obj_view(*json), ctx_before, k));
                        if k == key@ {
                            let j0 = key_index(obj_view(*json), key@);
                            if j0 < i {
                                assert(!is_context_key(obj_view(*json)[j0].0));
                            }
                            assert(obj_view(*json)[i as int].1 == json[i as int].1@);
                        }
                    }
                }
            }
            proof {
                if plain_context(obj_view(*json), *old(result), override_protected) {
                    assert(plain_term(obj_view(*json), *old(result), obj_view(*json)[i as int].0));
                    if let JsonValue::Object(o) = json[i as int].1 {
                        if is_id_object(obj_view(o)) {
                            lemma_id_object_entries(obj_view(o));
                        }
                    }
                }
            }
            let has_scoped_context = match &json[i].1 {
                JsonValue::Object(o) => obj_contains(o, "@context"),
                _ => false,
            };
            if has_scoped_context {
                let scoped = match get_term(result, key) {
                    Some(d) => Some(clone_contexts(&d.context)),
                    None => None,
                };
                if let Some(scoped) = scoped {
                    if depth == 0 {
                        return Err(JsonLdError::new(JsonLdErrorCode::ContextOverflow));
                    }
                    match process_context(
                        result,
                        &scoped,
                        base_url,
                        options,
                        remote_contexts,
                        true,
                        true,
                        false,
                        depth - 1,
                    ) {
                        Ok(_) => {},
                        Err(e) => {
                            return Err(JsonLdError::caused_by(JsonLdErrorCode::InvalidScopedContext, &e));
                        },
                    }
                }
            }
        }
        i = i + 1;
    }
    proof {
        if !has_key(obj_view(*json), "@import"@) {
            assert forall|k: Seq<char>| #[trigger] plain_term(obj_view(*json), *old(result), k) implies (term_def(
                *result,
                k,
            ) matches Some(d) && plain_term_defined(obj_view(*json), d, k)) by {
                lemma_key_index(obj_view(*json), k);
                if is_context_key(k) {
                    lemma_context_key_form(k);
                }
                let j0 = key_index(obj_view(*json), k);
                assert(!is_context_key(obj_view(*json)[j0].0));
                if let Some(t) = value_id(entries_get(obj_view(*json), k)->0) {
                    assert(term_def(pre, t) == term_def(*old(result), t));
                }
                assert(plain_term(obj_view(*json), pre, k));
            }
        }
    }
    proof {
        assert forall|k: Seq<char>| #[trigger] plain_term(obj_view(*json), *old(result), k) implies (term_def(
            *result,
            k,
        ) matches Some(d) && plain_term_defined(obj_view(*json), d, k)) by {
            lemma_key_index(obj_view(*json), k);
            if is_context_key(k) {
                lemma_context_key_form(k);
            }
            let j0 = key_index(obj_view(*json), k);
            assert(!is_context_key(obj_view(*json)[j0].0));
        }
    }
    Ok(())
}

/// Applies the entries of one context object to `result`.
#[verifier::loop_isolation(false)]
#[verifier::spinoff_prover]
#[verifier::rlimit(100)]
fn process_context_object<L: DocumentLoader>(
    result: &mut Context,
    json: Vec<(String, JsonValue)>,
    base_url: Option<&str>,
    options: &mut JsonLdOptionsImpl<L>,
    remote_contexts: &mut Vec<String>,
    override_protected: bool,
    depth: usize,
) -> (r: Result<(), JsonLdError>)
    ensures
        final(remote_contexts)@.len() <= MAX_CONTEXTS + 1 || final(remote_contexts)@.len() <= old(
            remote_contexts,
        )@.len(),
        final(options).inner == old(options).inner,
        terms_sorted(old(result).term_definitions@) ==> terms_sorted(final(result).term_definitions@),
        !override_protected && !has_key(obj_view(json), "@import"@) && r is Ok ==> keeps_protected(
            *old(result),
            *final(result),
            obj_view(json),
        ),
        r is Ok ==> language_after(obj_view(json), old(result).default_language, final(result).default_language),
        r is Ok ==> direction_after(
            obj_view(json),
            old(result).default_base_direction,
            final(result).default_base_direction,
        ),
        r is Ok && entries_get(obj_view(json), "@vocab"@) == Some(Json::Null) ==> final(result).vocabulary_mapping is None,
        r is Ok && !has_key(obj_view(json), "@vocab"@) && !has_key(obj_view(json), "@import"@)
            ==> final(result).vocabulary_mapping == old(result).vocabulary_mapping,
        r is Ok ==> base_after(
            obj_view(json),
            old(remote_contexts)@.len() == 0,
            old(result).base_iri,
            final(result).base_iri,
        ),
        final(result).original_base_url == old(result).original_base_url,
        keeps_loaded(loaded_contents(old(options).loaded_contexts), loaded_contents(final(options).loaded_contexts)),
        r is Ok && !has_key(obj_view(json), "@import"@) ==> forall|k: Seq<char>| #[trigger]
            plain_term(obj_view(json), *old(result), k) ==> (term_def(*final(result), k) matches Some(d)
                && plain_term_defined(obj_view(json), d, k)),
        plain_context(obj_view(json), *old(result), override_protected) && entries_error(
            obj_view(json),
            old(options).inner.processing_mode == JsonLdProcessingMode::JsonLd1_0,
            old(remote_contexts)@.len() == 0,
            opt_string_view(old(result).base_iri),
        ) == Some(None::<JsonLdErrorCode>) ==> r is Ok,
        entries_error(
            obj_view(json),
            old(options).inner.processing_mode == JsonLdProcessingMode::JsonLd1_0,
            old(remote_contexts)@.len() == 0,
            opt_string_view(old(result).base_iri),
        ) matches Some(Some(c)) ==> (r matches Err(e) && e.code == c),
        final(result).previous_context == old(result).previous_context,
        r is Ok && !has_key(obj_view(json), "@import"@) ==> forall|k: Seq<char>|
            #![trigger term_def(*final(result), k)]
            !has_key(obj_view(json), k) ==> term_def(*final(result), k) == term_def(*old(result), k),
    decreases depth, 1nat,
{
    let ghost json0 = json;
    let mut json = json;
    proof {
        lemma_key_index(obj_view(json), "@import"@);
        lemma_key_index(obj_view(json), "@language"@);
        lemma_key_index(obj_view(json), "@direction"@);
        lemma_key_index(obj_view(json), "@vocab"@);
        lemma_key_index(obj_view(json), "@base"@);
    }
    let one_zero = is_1_0(options.inner);
    if let Some(version) = obj_get(&json, "@version") {
        if !is_version_1_1(version) {
            return Err(JsonLdError::new(JsonLdErrorCode::InvalidVersionValue));
        }
        if one_zero {
            return Err(JsonLdError::new(JsonLdErrorCode::ProcessingModeConflict));
        }
    }
    let import_url = match obj_get(&json, "@import") {
        Some(import_url) => {
            if one_zero {
                return Err(JsonLdError::new(JsonLdErrorCode::InvalidContextEntry));
            }
            match import_url.as_string() {
                Some(u) => Some(u.clone()),
                None => {
                    return Err(JsonLdError::new(JsonLdErrorCode::InvalidImportValue));
                },
            }
        },
        None => None,
    };
    if let Some(import_url) = import_url {
        let import = match resolve(import_url.as_str(), base_url) {
            Ok(i) => i,
            Err(m) => {
                return Err(JsonLdError::with_cause(JsonLdErrorCode::LoadingDocumentFailed, m));
            },
        };
        let mut profile: Vec<String> = Vec::new();
        profile.push(string_of(CONTEXT_PROFILE));
        let document = match load_remote(import.as_str(), options.inner, Some(string_of(CONTEXT_PROFILE)), profile) {
            Ok(d) => d,
            Err(e) => {
                return Err(
                    match e.code {
                        JsonLdErrorCode::LoadingDocumentFailed => JsonLdError {
                            code: JsonLdErrorCode::LoadingRemoteContextFailed,
                            description: e.description,
                            cause: e.cause,
                        },
                        _ => e,
                    },
                );
            },
        };
        let parsed = match &options.inner.document_loader {
            Some(parser) => document.document.into_parsed(parser),
            None => Err(string_of("Default Document Loader is not specified")),
        };
        let parsed = match parsed {
            Ok(p) => p,
            Err(m) => {
                return Err(JsonLdError::with_cause(JsonLdErrorCode::LoadingRemoteContextFailed, m));
            },
        };
        let import_context = match parsed {
            JsonValue::Object(o) => {
                let mut o = o;
                match obj_remove(&mut o, "@context") {
                    Some(JsonValue::Object(c)) => c,
                    _ => {
                        return Err(JsonLdError::new(JsonLdErrorCode::InvalidRemoteContext));
                    },
                }
            },
            _ => {
                return Err(JsonLdError::new(JsonLdErrorCode::InvalidRemoteContext));
            },
        };
        if obj_contains(&import_context, "@import") {
            return Err(JsonLdError::new(JsonLdErrorCode::InvalidContextEntry));
        }
        let mut i: usize = 0;
        while i < import_context.len()
            invariant
                i <= import_context@.len(),
                forall|k: Seq<char>|
                    has_key(obj_view(json0), k) ==> #[trigger] entries_get(obj_view(json), k) == entries_get(
                        obj_view(json0),
                        k,
                    ),
            decreases import_context@.len() - i,
        {
            if !obj_contains(&json, import_context[i].0.as_str()) {
                let ghost before = obj_view(json);
                let k2 = import_context[i].0.clone();
                let v2 = import_context[i].1.deep_clone();
                let ghost kv = k2@;
                let ghost vv = v2@;
                crate::json::obj_insert(&mut json, k2, v2);
                proof {
                    assert forall|k: Seq<char>| has_key(obj_view(json0), k) implies #[trigger] entries_get(
                        obj_view(json),
                        k,
                    ) == entries_get(obj_view(json0), k) by {
                        lemma_key_index(obj_view(json0), k);
                        lemma_key_index(before, k);
                        crate::json::law_get_after_insert(before, kv, vv, k);
                    }
                }
            }
            i = i + 1;
        }
    }
    assert(forall|k: Seq<char>|
        has_key(obj_view(json0), k) ==> #[trigger] entries_get(obj_view(json), k) == entries_get(obj_view(json0), k));
    assert(!has_key(obj_view(json0), "@import"@) ==> json == json0);
    if let Some(value) = obj_get(&json, "@base") {
        if remote_contexts.len() == 0 {
            match value {
                JsonValue::String(iri) => {
                    let base = match &result.base_iri {
                        Some(b) => Some(b.as_str()),
                        None => None,
                    };
                    match resolve(iri.as_str(), base) {
                        Ok(b) => result.base_iri = Some(b),
                        Err(m) => {
                            return Err(JsonLdError::with_cause(JsonLdErrorCode::InvalidBaseIRI, m));
                        },
                    }
                },
                JsonValue::Null => result.base_iri = None,
                _ => {
                    return Err(
                        JsonLdError::with_description(JsonLdErrorCode::InvalidBaseIRI, "not string or null"),
                    );
                },
            }
        }
    }
    if let Some(value) = obj_get(&json, "@vocab") {
        result.vocabulary_mapping = match value {
            JsonValue::String(iri) => match expand_iri(IRIExpansionArguments::Normal(&*result), iri.as_str(), true, true) {
                Ok(v) => v,
                Err(e) => {
                    return Err(JsonLdError::caused_by(JsonLdErrorCode::InvalidVocabMapping, &e));
                },
            },
            JsonValue::Null => None,
            _ => {
                return Err(
                    JsonLdError::with_description(JsonLdErrorCode::InvalidVocabMapping, "not string or null"),
                );
            },
        };
    }
    if let Some(value) = obj_get(&json, "@language") {
        result.default_language = process_language(value)?;
    }
    if let Some(value) = obj_get(&json, "@direction") {
        if one_zero {
            return Err(JsonLdError::new(JsonLdErrorCode::ProcessingModeConflict));
        }
        result.default_base_direction = process_direction(value, true)?;
    }
    if obj_contains(&json, "@propagate") {
        if one_zero {
            return Err(JsonLdError::new(JsonLdErrorCode::InvalidContextEntry));
        }
    }
    let protected = match obj_get(&json, "@protected") {
        Some(v) => match v.as_bool() {
            Some(b) => b,
            None => {
                return Err(JsonLdError::new(JsonLdErrorCode::InvalidProtectedValue));
            },
        },
        None => false,
    };
    proof {
        if !has_key(obj_view(json0), "@import"@) {
            assert(json == json0);
        }
    }
    let ghost mid = *result;
    proof {
        lemma_plain_same_terms(obj_view(json), mid, *old(result), override_protected);
    }
    define_terms(result, &json, base_url, options, remote_contexts, override_protected, depth, protected)?;
    proof {
        assert forall|k: Seq<char>| #[trigger] term_def(mid, k) == term_def(*old(result), k) by {}
        if !override_protected && !has_key(obj_view(json0), "@import"@) {
            assert forall|k: Seq<char>|
                (#[trigger] term_def(*old(result), k) matches Some(p) && p.protected && !reverse_entry(
                    obj_view(json0),
                    k,
                )) implies (term_def(*result, k) matches Some(q) && td_same(q, term_def(*old(result), k)->0)) by {
                assert(term_def(mid, k) == term_def(*old(result), k));
            }
        }
        if !has_key(obj_view(json0), "@import"@) {
            assert forall|k: Seq<char>| #[trigger] plain_term(obj_view(json0), *old(result), k) implies plain_term(
                obj_view(json0),
                mid,
                k,
            ) by {
                if let Some(t) = value_id(entries_get(obj_view(json0), k)->0) {
                    assert(term_def(mid, t) == term_def(*old(result), t));
                }
            }
        }
    }
    Ok(())
}

} // verus!
