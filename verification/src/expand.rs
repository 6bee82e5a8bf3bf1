use vstd::prelude::*;

use crate::context::{after_object, plain_term, plain_value_iri, MAX_SCOPED_DEPTH, clone_context, clone_contexts, defined_get, defined_state, get_term, process_context, term_def};
use crate::remote::DocumentLoader;
use crate::error::{ErrorSpec, JsonLdError, JsonLdErrorCode, caused_error, error_is, plain_error};
use crate::container::{Container, ContainerKind, UnorderedContainer};
use crate::json::{view_array, Json, JsonValue, entries_get, entries_insert, entries_remove, group_json_lemmas, has_key, obj_contains, obj_get, obj_insert, obj_remove, obj_view, singleton_object};
use crate::strs::{char_len, concat, contains_char, opt_string_view, str_eq, string_of};
use crate::util::{lemma_keyword_has_form, add_value, add_value_spec, graph_keys, map_context, opt_view, is_graph_object, compact_iri_parts, has_keyword_form, is_iri, is_iri_spec, is_jsonld_keyword, is_keyword, looks_like_a_jsonld_keyword, resolve_with_str, resolve_with_str_spec, split_compact_iri};
use crate::{Context, JsonLdOptionsImpl, JsonLdProcessingMode, Direction, JsonOrReference, TermDefinition, direction_text};

verus! {

broadcast use group_json_lemmas;

/// Where an IRI is expanded: while a local context defines its terms, or against an
/// active context alone.
pub enum IRIExpansionArguments<'a> {
    DefineTerms {
        active_context: &'a Context,
        local_context: &'a Vec<(String, crate::json::JsonValue)>,
        defined: &'a Vec<(String, bool)>,
    },
    Normal(&'a Context),
}

impl<'a> IRIExpansionArguments<'a> {
    pub open spec fn context(self) -> Context {
        match self {
            IRIExpansionArguments::DefineTerms { active_context, .. } => *active_context,
            IRIExpansionArguments::Normal(c) => *c,
        }
    }

    /// The term `k` is defined by the local context and its definition is under way.
    pub open spec fn in_progress(self, k: Seq<char>) -> bool {
        match self {
            IRIExpansionArguments::DefineTerms { local_context, defined, .. } => has_key(
                obj_view(*local_context),
                k,
            ) && defined_state(defined@, k) == Some(false),
            IRIExpansionArguments::Normal(_) => false,
        }
    }

    fn active_context(&self) -> (r: &'a Context)
        ensures
            *r == self.context(),
    {
        match self {
            IRIExpansionArguments::DefineTerms { active_context, .. } => active_context,
            IRIExpansionArguments::Normal(active_context) => active_context,
        }
    }

    fn is_in_progress(&self, k: &str) -> (r: bool)
        ensures
            r == self.in_progress(k@),
    {
        match self {
            IRIExpansionArguments::DefineTerms { local_context, defined, .. } => {
                obj_contains(local_context, k) && defined_get(defined, k) == Some(false)
            },
            IRIExpansionArguments::Normal(_) => false,
        }
    }
}

/// What IRI expansion gives: an IRI (or none), the error of resolving against the
/// base IRI, or a cyclic definition.
pub enum IriOutcome {
    Iri(Option<Seq<char>>),
    BadBase(Seq<char>),
    Cyclic,
}

pub open spec fn starts_with_two_slashes(s: Seq<char>) -> bool {
    s.len() >= 2 && s[0] == '/' && s[1] == '/'
}

/// The IRI Expansion algorithm.
pub open spec fn expand_iri_spec(
    args: IRIExpansionArguments,
    value: Seq<char>,
    document_relative: bool,
    vocab: bool,
) -> IriOutcome {
    let ctx = args.context();
    let parts = compact_iri_parts(value);
    let (p, s) = match parts {
        Some(x) => x,
        None => (Seq::empty(), Seq::empty()),
    };
    if is_keyword(value) {
        IriOutcome::Iri(Some(value))
    } else if has_keyword_form(value) {
        IriOutcome::Iri(None)
    } else if args.in_progress(value) {
        IriOutcome::Cyclic
    } else if term_def(ctx, value) is Some && (vocab || (term_def(ctx, value)->0.iri is Some
        && is_keyword(term_def(ctx, value)->0.iri->0@))) {
        IriOutcome::Iri(opt_string_view(term_def(ctx, value)->0.iri))
    } else if parts is Some && (p == "_"@ || starts_with_two_slashes(s)) {
        IriOutcome::Iri(Some(value))
    } else if parts is Some && args.in_progress(p) {
        IriOutcome::Cyclic
    } else if parts is Some && term_def(ctx, p) is Some && term_def(ctx, p)->0.iri is Some
        && term_def(ctx, p)->0.prefix {
        IriOutcome::Iri(Some(term_def(ctx, p)->0.iri->0@ + s))
    } else if parts is Some && is_iri_spec(value) {
        IriOutcome::Iri(Some(value))
    } else if vocab && ctx.vocabulary_mapping is Some {
        IriOutcome::Iri(Some(ctx.vocabulary_mapping->0@ + value))
    } else if document_relative {
        match resolve_with_str_spec(value, opt_string_view(ctx.base_iri)) {
            Ok(t) => IriOutcome::Iri(Some(t)),
            Err(m) => IriOutcome::BadBase(m),
        }
    } else {
        IriOutcome::Iri(Some(value))
    }
}

/// The result of IRI expansion and its outcome agree.
pub open spec fn iri_result_is(r: Result<Option<String>, JsonLdError>, o: IriOutcome) -> bool {
    match o {
        IriOutcome::Iri(i) => r matches Ok(x) && opt_string_view(x) == i,
        IriOutcome::BadBase(m) => r matches Err(e) && caused_error(e, JsonLdErrorCode::InvalidBaseIRI, m),
        IriOutcome::Cyclic => r matches Err(e) && plain_error(e, JsonLdErrorCode::CyclicIRIMapping),
    }
}

fn starts_with_slashes(s: &str) -> (r: bool)
    ensures
        r == starts_with_two_slashes(s@),
{
    let n = char_len(s);
    n >= 2 && s.get_char(0) == '/' && s.get_char(1) == '/'
}

/// Expands `value` to an IRI. Where a local context is defining its terms, a term
/// whose definition is under way is a cyclic definition.
pub fn expand_iri(args: IRIExpansionArguments, value: &str, document_relative: bool, vocab: bool) -> (r:
    Result<Option<String>, JsonLdError>)
    ensures
        iri_result_is(r, expand_iri_spec(args, value@, document_relative, vocab)),
{
    if is_jsonld_keyword(value) {
        return Ok(Some(string_of(value)));
    }
    if looks_like_a_jsonld_keyword(value) {
        return Ok(None);
    }
    if args.is_in_progress(value) {
        return Err(JsonLdError::new(JsonLdErrorCode::CyclicIRIMapping));
    }
    let ctx = args.active_context();
    if let Some(definition) = get_term(ctx, value) {
        let keyword_iri = match &definition.iri {
            Some(i) => is_jsonld_keyword(i.as_str()),
            None => false,
        };
        if vocab || keyword_iri {
            return Ok(definition.iri.clone());
        }
    }
    if let Some((prefix, suffix)) = split_compact_iri(value) {
        if str_eq(prefix, "_") || starts_with_slashes(suffix) {
            return Ok(Some(string_of(value)));
        }
        if args.is_in_progress(prefix) {
            return Err(JsonLdError::new(JsonLdErrorCode::CyclicIRIMapping));
        }
        if let Some(definition) = get_term(ctx, prefix) {
            if let Some(iri) = &definition.iri {
                if definition.prefix {
                    return Ok(Some(concat(iri.as_str(), suffix)));
                }
            }
        }
        if is_iri(value) {
            return Ok(Some(string_of(value)));
        }
    }
    if vocab {
        if let Some(vocabulary_mapping) = &ctx.vocabulary_mapping {
            return Ok(Some(concat(vocabulary_mapping.as_str(), value)));
        }
    }
    if document_relative {
        let base = match &ctx.base_iri {
            Some(b) => Some(b.as_str()),
            None => None,
        };
        return match resolve_with_str(value, base) {
            Ok(t) => Ok(Some(t)),
            Err(m) => Err(JsonLdError::with_cause(JsonLdErrorCode::InvalidBaseIRI, m)),
        };
    }
    Ok(Some(string_of(value)))
}

} // verus!

verus! {

/// Law: once a context object has been processed, a term that it maps to an IRI
/// by a plain value (null, a keyword, or an absolute IRI, directly or by `@id`)
/// expands, as a property or type, to exactly that IRI (or to none for null).
pub proof fn law_defined_term_expands_to_its_iri(
    json: Seq<(Seq<char>, Json)>,
    before: Context,
    after: Context,
    top: bool,
    k: Seq<char>,
    document_relative: bool,
)
    requires
        after_object(json, before, after, top),
        !has_key(json, "@import"@),
        plain_term(json, before, k),
    ensures
        expand_iri_spec(IRIExpansionArguments::Normal(&after), k, document_relative, true) == IriOutcome::Iri(
            plain_value_iri(entries_get(json, k)->0),
        ),
{
    if is_keyword(k) {
        lemma_keyword_has_form(k);
    }
}

/// The entries of an expanded value of a term with no `@id` or `@vocab` type
/// mapping: its type (unless `@none`), or for a string its language and direction,
/// then the value.
pub open spec fn value_entries(ctx: Context, def: Option<TermDefinition>, v: Json) -> Seq<(Seq<char>, Json)> {
    let type_mapping = match def {
        Some(d) => opt_string_view(d.type_mapping),
        None => None,
    };
    let language = match def {
        Some(d) => match d.language_mapping {
            Some(l) => opt_string_view(l),
            None => opt_string_view(ctx.default_language),
        },
        None => opt_string_view(ctx.default_language),
    };
    let direction = match def {
        Some(d) => match d.direction_mapping {
            Some(x) => Some(x),
            None => ctx.default_base_direction,
        },
        None => ctx.default_base_direction,
    };
    let head: Seq<(Seq<char>, Json)> = match type_mapping {
        Some(t) => if t != "@none"@ {
            seq![("@type"@, Json::Str(t))]
        } else {
            Seq::empty()
        },
        None => if v is Str {
            (match language {
                Some(l) => seq![("@language"@, Json::Str(l))],
                None => Seq::empty(),
            }) + (match direction {
                Some(x) => seq![("@direction"@, Json::Str(direction_text(x)))],
                None => Seq::empty(),
            })
        } else {
            Seq::empty()
        },
    };
    head.push(("@value"@, v))
}

/// What the Value Expansion algorithm gives for `v`, the value of a term with
/// definition `def`: the entries of the expanded value, or the error of resolving an
/// IRI against the base IRI.
pub open spec fn value_outcome(ctx: Context, def: Option<TermDefinition>, v: Json) -> Result<
    Seq<(Seq<char>, Json)>,
    Seq<char>,
> {
    let tm = match def {
        Some(d) => opt_string_view(d.type_mapping),
        None => None,
    };
    if (tm == Some("@id"@) || tm == Some("@vocab"@)) && v is Str {
        match expand_iri_spec(IRIExpansionArguments::Normal(&ctx), v->Str_0, true, tm == Some("@vocab"@)) {
            IriOutcome::Iri(Some(i)) => Ok(seq![("@id"@, Json::Str(i))]),
            IriOutcome::Iri(None) => Ok(seq![("@id"@, Json::Null)]),
            IriOutcome::BadBase(m) => Err(m),
            IriOutcome::Cyclic => Err(Seq::empty()),
        }
    } else {
        Ok(value_entries(ctx, def, v))
    }
}

pub open spec fn opt_ref<T>(d: Option<&T>) -> Option<T> {
    match d {
        Some(x) => Some(*x),
        None => None,
    }
}

/// The Value Expansion algorithm for the scalar `value` of a term with definition
/// `definition`.
pub fn expand_value(active_context: &Context, definition: Option<&TermDefinition>, value: JsonValue) -> (r: Result<
    Vec<(String, JsonValue)>,
    JsonLdError,
>)
    ensures
        match value_outcome(*active_context, opt_ref(definition), value@) {
            Ok(o) => r matches Ok(x) && obj_view(x) == o,
            Err(m) => r matches Err(e) && caused_error(e, JsonLdErrorCode::InvalidBaseIRI, m),
        },
{
    let ghost vv = value@;
    let type_mapping: Option<&str> = match definition {
        Some(d) => match &d.type_mapping {
            Some(t) => Some(t.as_str()),
            None => None,
        },
        None => None,
    };
    if let Some(t) = type_mapping {
        let is_vocab = str_eq(t, "@vocab");
        if str_eq(t, "@id") || is_vocab {
            if let JsonValue::String(s) = &value {
                let iri = expand_iri(IRIExpansionArguments::Normal(active_context), s.as_str(), true, is_vocab)?;
                let v = match iri {
                    Some(i) => JsonValue::String(i),
                    None => JsonValue::Null,
                };
                return Ok(singleton_object("@id", v));
            }
        }
    }
    let mut result: Vec<(String, JsonValue)> = Vec::new();
    let ghost empty: Seq<(Seq<char>, Json)> = Seq::empty();
    assert(obj_view(result) =~= empty);
    if let Some(t) = type_mapping {
        if !str_eq(t, "@none") {
            result.push((string_of("@type"), JsonValue::String(string_of(t))));
        }
    } else if let JsonValue::String(_) = &value {
        let language: Option<&String> = match definition {
            Some(d) => match &d.language_mapping {
                Some(l) => l.as_ref(),
                None => active_context.default_language.as_ref(),
            },
            None => active_context.default_language.as_ref(),
        };
        if let Some(l) = language {
            result.push((string_of("@language"), JsonValue::String(l.clone())));
        }
        let direction: Option<Direction> = match definition {
            Some(d) => match d.direction_mapping {
                Some(x) => Some(x),
                None => active_context.default_base_direction,
            },
            None => active_context.default_base_direction,
        };
        if let Some(x) = direction {
            result.push((string_of("@direction"), JsonValue::String(string_of(x.as_str()))));
        }
    }
    result.push((string_of("@value"), value));
    proof {
        let def = match definition {
            Some(d) => Some(*d),
            None => None,
        };
        assert(obj_view(result) =~= value_entries(*active_context, def, vv));
    }
    Ok(result)
}

/// The expanded form of one value of a language map.
pub fn expand_language_value(language: Option<&str>, language_value: JsonValue, direction: Option<Direction>) -> (r:
    Result<Option<Vec<(String, JsonValue)>>, JsonLdError>)
    ensures
        match language_value@ {
            Json::Null => r matches Ok(None),
            Json::Str(s) => r matches Ok(Some(o)) && obj_view(o) == seq![("@value"@, Json::Str(s))] + (
            match language {
                Some(l) => seq![("@language"@, Json::Str(l@))],
                None => Seq::empty(),
            }) + (match direction {
                Some(x) => seq![("@direction"@, Json::Str(direction_text(x)))],
                None => Seq::empty(),
            }),
            _ => r matches Err(e) && plain_error(e, JsonLdErrorCode::InvalidLanguageMapValue),
        },
{
    match language_value {
        JsonValue::Null => Ok(None),
        JsonValue::String(s) => {
            let ghost sv = s@;
            let mut v = singleton_object("@value", JsonValue::String(s));
            if let Some(l) = language {
                v.push((string_of("@language"), JsonValue::String(string_of(l))));
            }
            if let Some(x) = direction {
                v.push((string_of("@direction"), JsonValue::String(string_of(x.as_str()))));
            }
            proof {
                assert(obj_view(v) =~= seq![("@value"@, Json::Str(sv))] + (match language {
                    Some(l) => seq![("@language"@, Json::Str(l@))],
                    None => Seq::<(Seq<char>, Json)>::empty(),
                }) + (match direction {
                    Some(x) => seq![("@direction"@, Json::Str(direction_text(x)))],
                    None => Seq::<(Seq<char>, Json)>::empty(),
                }));
            }
            Ok(Some(v))
        },
        _ => Err(JsonLdError::new(JsonLdErrorCode::InvalidLanguageMapValue)),
    }
}

} // verus!

verus! {

fn is_list_container(c: Container) -> (r: bool)
    ensures
        r == (c == Container::List),
{
    match c {
        Container::List => true,
        _ => false,
    }
}

fn is_language_container(c: Container) -> (r: bool)
    ensures
        r == (c matches Container::Unordered(UnorderedContainer { kind: ContainerKind::Language, .. })),
{
    match c {
        Container::Unordered(UnorderedContainer { kind: ContainerKind::Language, .. }) => true,
        _ => false,
    }
}

fn is_type_container(c: Container) -> (r: bool)
    ensures
        r == (c matches Container::Unordered(UnorderedContainer { kind: ContainerKind::Type, .. })),
{
    match c {
        Container::Unordered(UnorderedContainer { kind: ContainerKind::Type, .. }) => true,
        _ => false,
    }
}

/// The array that a value is, or an array holding it.
fn into_array(v: JsonValue) -> (r: Vec<JsonValue>)
    ensures
        match v@ {
            Json::Array(a) => crate::json::view_array(r@) == a,
            _ => crate::json::view_array(r@) == seq![v@],
        },
{
    match v {
        JsonValue::Array(a) => a,
        v => crate::json::singleton_array(v),
    }
}

/// A value whose first item is `first`, followed by the items of `rest`.
pub open spec fn prepend_items(first: Json, rest: Option<Json>) -> Json {
    Json::Array(
        seq![first] + match rest {
            Some(Json::Array(a)) => a,
            Some(x) => seq![x],
            None => Seq::empty(),
        },
    )
}

/// What one value of an index map becomes, given its index (`index`, expanded to
/// `expanded_index`): the entries of the expanded object, or the error.
pub open spec fn index_value_spec(
    ctx: Context,
    index: Seq<char>,
    expanded_index: Option<Seq<char>>,
    v: Json,
    index_key: Seq<char>,
    as_graph: bool,
    property_index: bool,
) -> Result<Seq<(Seq<char>, Json)>, ErrorSpec> {
    match v {
        Json::Object(e0) => {
            let e = if as_graph && graph_keys(e0) != seq!["@graph"@] {
                seq![("@graph"@, Json::Array(seq![Json::Object(e0)]))]
            } else {
                e0
            };
            if expanded_index is None || expanded_index == Some("@none"@) {
                Ok(e)
            } else if property_index {
                match value_outcome(ctx, term_def(ctx, index_key), Json::Str(index)) {
                    Err(m) => Err(ErrorSpec::Caused(JsonLdErrorCode::InvalidBaseIRI, m)),
                    Ok(re) => match expand_iri_spec(IRIExpansionArguments::Normal(&ctx), index_key, false, true) {
                        IriOutcome::Iri(Some(k)) => Ok(
                            entries_insert(
                                entries_remove(e, k),
                                k,
                                prepend_items(Json::Object(re), entries_get(e, k)),
                            ),
                        ),
                        _ => Ok(e),
                    },
                }
            } else if index_key == "@index"@ {
                if has_key(e, "@index"@) {
                    Ok(e)
                } else {
                    Ok(entries_insert(e, "@index"@, Json::Str(index)))
                }
            } else if index_key == "@id"@ {
                if has_key(e, "@id"@) {
                    Ok(e)
                } else {
                    Ok(entries_insert(e, "@id"@, Json::Str(expanded_index->0)))
                }
            } else if index_key == "@type"@ {
                Ok(
                    entries_insert(
                        entries_remove(e, "@type"@),
                        "@type"@,
                        prepend_items(Json::Str(expanded_index->0), entries_get(e, "@type"@)),
                    ),
                )
            } else {
                Ok(e)
            }
        },
        _ => Err(ErrorSpec::Plain(JsonLdErrorCode::InvalidValueObject)),
    }
}

/// The items `first` and then those of `rest` as an array.
fn prepend(first: JsonValue, rest: Option<JsonValue>) -> (r: Vec<JsonValue>)
    ensures
        Json::Array(crate::json::view_array(r@)) == prepend_items(
            first@,
            match rest {
                Some(x) => Some(x@),
                None => None,
            },
        ),
{
    let ghost fv = first@;
    let mut array = crate::json::singleton_array(first);
    match rest {
        Some(JsonValue::Array(values)) => {
            let mut values = values;
            let ghost a0 = array@;
            let ghost v0 = values@;
            array.append(&mut values);
            proof {
                assert(array@ == a0 + v0);
                crate::json::lemma_view_array_add(a0, v0);
                assert(crate::json::view_array(a0) == seq![fv]);
                assert(crate::json::view_array(array@) == seq![fv] + crate::json::view_array(v0));
            }
        },
        Some(value) => {
            let ghost a0 = array@;
            let ghost vv = value@;
            array.push(value);
            proof {
                assert(array@.drop_last() =~= a0);
                assert(!(vv is Array));
                assert(crate::json::view_array(array@) =~= seq![fv] + seq![vv]);
            }
        },
        None => {
            assert(crate::json::view_array(array@) =~= seq![fv] + Seq::<Json>::empty());
        },
    }
    array
}

/// One value of an index map, expanded and given its index.
pub fn expand_index_value(
    map_context: &Context,
    index: &str,
    expanded_index: Option<&str>,
    index_value: JsonValue,
    index_key: &str,
    as_graph: bool,
    property_index: bool,
) -> (r: Result<Vec<(String, JsonValue)>, JsonLdError>)
    ensures
        match index_value_spec(
            *map_context,
            index@,
            opt_view(expanded_index),
            index_value@,
            index_key@,
            as_graph,
            property_index,
        ) {
            Ok(e) => r matches Ok(o) && obj_view(o) == e,
            Err(s) => r matches Err(x) && error_is(x, s),
        },
{
    let mut index_value = match index_value {
        JsonValue::Object(o) => o,
        _ => {
            return Err(JsonLdError::new(JsonLdErrorCode::InvalidValueObject));
        },
    };
    if as_graph && !is_graph_object(&index_value) {
        let ghost e0 = obj_view(index_value);
        let graph = crate::json::singleton_array(JsonValue::Object(index_value));
        index_value = singleton_object("@graph", JsonValue::Array(graph));
        assert(obj_view(index_value) == seq![("@graph"@, Json::Array(seq![Json::Object(e0)]))]);
    }
    if let Some(expanded_index) = expanded_index {
        if !str_eq(expanded_index, "@none") {
            if property_index {
                let reexpanded_index = expand_value(
                    map_context,
                    get_term(map_context, index_key),
                    JsonValue::String(string_of(index)),
                )?;
                if let Some(expanded_index_key) = expand_iri(
                    IRIExpansionArguments::Normal(map_context),
                    index_key,
                    false,
                    true,
                )? {
                    let values = obj_remove(&mut index_value, expanded_index_key.as_str());
                    let array = prepend(JsonValue::Object(reexpanded_index), values);
                    obj_insert(&mut index_value, expanded_index_key, JsonValue::Array(array));
                }
            } else if str_eq(index_key, "@index") {
                if !obj_contains(&index_value, "@index") {
                    obj_insert(&mut index_value, string_of("@index"), JsonValue::String(string_of(index)));
                }
            } else if str_eq(index_key, "@id") {
                if !obj_contains(&index_value, "@id") {
                    obj_insert(&mut index_value, string_of("@id"), JsonValue::String(string_of(expanded_index)));
                }
            } else if str_eq(index_key, "@type") {
                let types = obj_remove(&mut index_value, "@type");
                let array = prepend(JsonValue::String(string_of(expanded_index)), types);
                obj_insert(&mut index_value, string_of("@type"), JsonValue::Array(array));
            }
        }
    }
    Ok(index_value)
}

/// The expanded form of one value of a language map, where it has one.
pub open spec fn language_value_spec(language: Option<Seq<char>>, v: Json, direction: Option<Direction>) -> Result<
    Option<Json>,
    JsonLdErrorCode,
> {
    match v {
        Json::Null => Ok(None),
        Json::Str(s) => Ok(
            Some(
                Json::Object(
                    seq![("@value"@, Json::Str(s))] + (match language {
                        Some(l) => seq![("@language"@, Json::Str(l))],
                        None => Seq::empty(),
                    }) + (match direction {
                        Some(x) => seq![("@direction"@, Json::Str(direction_text(x)))],
                        None => Seq::empty(),
                    }),
                ),
            ),
        ),
        _ => Err(JsonLdErrorCode::InvalidLanguageMapValue),
    }
}

/// The expanded forms of the values `items` of one language, in order.
pub open spec fn language_items_spec(language: Option<Seq<char>>, items: Seq<Json>, direction: Option<Direction>) -> Result<
    Seq<Json>,
    JsonLdErrorCode,
>
    decreases items.len(),
{
    if items.len() == 0 {
        Ok(Seq::empty())
    } else {
        match language_items_spec(language, items.drop_last(), direction) {
            Err(c) => Err(c),
            Ok(acc) => match language_value_spec(language, items.last(), direction) {
                Err(c) => Err(c),
                Ok(None) => Ok(acc),
                Ok(Some(o)) => Ok(acc.push(o)),
            },
        }
    }
}

/// The language that a key of a language map gives: none for `@none` or a key that
/// expands to `@none`.
pub open spec fn map_language(ctx: Context, key: Seq<char>) -> Option<Seq<char>> {
    if key != "@none"@ && expand_iri_spec(IRIExpansionArguments::Normal(&ctx), key, false, true) != IriOutcome::Iri(
        Some("@none"@),
    ) {
        Some(key)
    } else {
        None
    }
}

/// The values of an array, or the value alone.
pub open spec fn value_items(v: Json) -> Seq<Json> {
    match v {
        Json::Array(a) => a,
        _ => seq![v],
    }
}

/// The expanded values of the entries `order` of a language map, in that order.
pub open spec fn language_map_spec(
    ctx: Context,
    entries: Seq<(Seq<char>, Json)>,
    order: Seq<usize>,
    direction: Option<Direction>,
) -> Result<Seq<Json>, JsonLdErrorCode>
    decreases order.len(),
{
    if order.len() == 0 {
        Ok(Seq::empty())
    } else {
        match language_map_spec(ctx, entries, order.drop_last(), direction) {
            Err(c) => Err(c),
            Ok(acc) => {
                let (key, value) = entries[order.last() as int];
                match language_items_spec(map_language(ctx, key), value_items(value), direction) {
                    Err(c) => Err(c),
                    Ok(xs) => Ok(acc + xs),
                }
            },
        }
    }
}

/// The result of expanding a list of values and its outcome agree.
pub open spec fn items_are(r: Result<Vec<JsonValue>, JsonLdError>, o: Result<Seq<Json>, JsonLdErrorCode>) -> bool {
    match o {
        Ok(v) => r matches Ok(x) && crate::json::view_array(x@) == v,
        Err(c) => r matches Err(e) && plain_error(e, c),
    }
}

proof fn lemma_items_error_stays(language: Option<Seq<char>>, items: Seq<Json>, direction: Option<Direction>, n: int)
    requires
        0 <= n <= items.len(),
        language_items_spec(language, items.take(n), direction) is Err,
    ensures
        language_items_spec(language, items, direction) == language_items_spec(language, items.take(n), direction),
    decreases items.len() - n,
{
    if n == items.len() {
        assert(items.take(n) =~= items);
    } else {
        assert(items.take(n + 1).drop_last() =~= items.take(n));
        lemma_items_error_stays(language, items, direction, n + 1);
    }
}

proof fn lemma_language_map_error_stays(
    ctx: Context,
    entries: Seq<(Seq<char>, Json)>,
    order: Seq<usize>,
    direction: Option<Direction>,
    n: int,
)
    requires
        0 <= n <= order.len(),
        language_map_spec(ctx, entries, order.take(n), direction) is Err,
    ensures
        language_map_spec(ctx, entries, order, direction) == language_map_spec(ctx, entries, order.take(n), direction),
    decreases order.len() - n,
{
    if n == order.len() {
        assert(order.take(n) =~= order);
    } else {
        assert(order.take(n + 1).drop_last() =~= order.take(n));
        lemma_language_map_error_stays(ctx, entries, order, direction, n + 1);
    }
}

/// The values of one language of a language map, expanded, appended to `result`.
fn expand_language_items(
    result: &mut Vec<JsonValue>,
    language: Option<&str>,
    value: &JsonValue,
    direction: Option<Direction>,
) -> (r: Result<(), JsonLdError>)
    ensures
        match language_items_spec(opt_view(language), value_items(value@), direction) {
            Ok(xs) => r is Ok && crate::json::view_array(final(result)@) == crate::json::view_array(old(result)@)
                + xs,
            Err(c) => r matches Err(e) && plain_error(e, c),
        },
{
    let ghost items = value_items(value@);
    let ghost r0 = crate::json::view_array(result@);
    let single: Vec<JsonValue>;
    let items_vec: &Vec<JsonValue> = match value {
        JsonValue::Array(a) => a,
        _ => {
            single = crate::json::singleton_array(value.deep_clone());
            &single
        },
    };
    assert(crate::json::view_array(items_vec@) == items);
    let mut i: usize = 0;
    while i < items_vec.len()
        invariant
            i <= items_vec@.len(),
            crate::json::view_array(items_vec@) == items,
            items == value_items(value@),
            r0 == crate::json::view_array(old(result)@),
            language_items_spec(opt_view(language), items.take(i as int), direction) matches Ok(xs)
                && crate::json::view_array(result@) == r0 + xs,
        decreases items_vec@.len() - i,
    {
        proof {
            assert(items.take(i + 1).drop_last() =~= items.take(i as int));
            assert(items.take(i + 1).last() == items[i as int]);
        }
        let ghost rs = result@;
        let expanded = match expand_language_value(language, items_vec[i].deep_clone(), direction) {
            Ok(x) => x,
            Err(e) => {
                proof {
                    assert(items[i as int] == items_vec@[i as int]@);
                    assert(language_items_spec(opt_view(language), items.take(i + 1), direction) == Err::<
                        Seq<Json>,
                        JsonLdErrorCode,
                    >(JsonLdErrorCode::InvalidLanguageMapValue));
                    lemma_items_error_stays(opt_view(language), items, direction, i + 1);
                }
                return Err(e);
            },
        };
        match expanded {
            Some(v) => {
                result.push(JsonValue::Object(v));
                proof {
                    assert(result@.drop_last() =~= rs);
                }
            },
            None => {},
        }
        i = i + 1;
    }
    proof {
        assert(items.take(items_vec@.len() as int) =~= items);
    }
    Ok(())
}

/// The values of a language map, expanded: each string becomes a value object with
/// the language of its key (none for `@none`) and `direction`; the entries are taken in
/// the order `order`.
pub fn expand_language_map(
    active_context: &Context,
    language_map: Vec<(String, JsonValue)>,
    order: Vec<usize>,
    direction: Option<Direction>,
) -> (r: Result<Vec<JsonValue>, JsonLdError>)
    requires
        forall|k: int| 0 <= k < order@.len() ==> (#[trigger] order@[k]) < language_map@.len(),
    ensures
        items_are(r, language_map_spec(*active_context, obj_view(language_map), order@, direction)),
{
    let ghost e = obj_view(language_map);
    let mut result: Vec<JsonValue> = Vec::new();
    proof {
        assert(crate::json::view_array(result@) =~= Seq::<Json>::empty());
    }
    let mut k: usize = 0;
    while k < order.len()
        invariant
            k <= order@.len(),
            e == obj_view(language_map),
            forall|q: int| 0 <= q < order@.len() ==> (#[trigger] order@[q]) < language_map@.len(),
            language_map_spec(*active_context, e, order@.take(k as int), direction) matches Ok(xs)
                && crate::json::view_array(result@) == xs,
        decreases order@.len() - k,
    {
        let j = order[k];
        proof {
            assert(order@.take(k + 1).drop_last() =~= order@.take(k as int));
            assert(order@.take(k + 1).last() == order@[k as int]);
            assert(e[j as int] == (language_map@[j as int].0@, language_map@[j as int].1@));
        }
        let language = language_map[j].0.as_str();
        let keep = if str_eq(language, "@none") {
            false
        } else {
            match expand_iri(IRIExpansionArguments::Normal(active_context), language, false, true)? {
                Some(x) => !str_eq(x.as_str(), "@none"),
                None => true,
            }
        };
        let lang: Option<&str> = if keep {
            Some(language)
        } else {
            None
        };
        assert(opt_view(lang) == map_language(*active_context, language@));
        let ghost before = crate::json::view_array(result@);
        match expand_language_items(&mut result, lang, &language_map[j].1, direction) {
            Ok(()) => {
                proof {
                    assert(crate::json::view_array(result@) =~= before + crate::json::view_array(result@).subrange(
                        before.len() as int,
                        crate::json::view_array(result@).len() as int,
                    ));
                }
            },
            Err(err) => {
                proof {
                    lemma_language_map_error_stays(*active_context, e, order@, direction, k + 1);
                }
                return Err(err);
            },
        }
        k = k + 1;
    }
    proof {
        assert(order@.take(order@.len() as int) =~= order@);
    }
    Ok(result)
}

} // verus!

verus! {

fn new_remote_contexts() -> (r: Vec<String>)
    ensures
        r@.len() == 0,
{
    Vec::new()
}

/// The term has no definition, or one without a scoped context.
pub open spec fn no_scoped_context(d: Option<TermDefinition>) -> bool {
    match d {
        Some(d) => d.context@.len() == 0,
        None => true,
    }
}

/// The scoped context of a term definition, where it has one.
fn scoped_context(d: Option<&TermDefinition>) -> (r: Option<(Vec<Option<JsonOrReference>>, Option<String>)>)
    ensures
        r is None <==> no_scoped_context(opt_ref(d)),
{
    match d {
        Some(d) => if d.context.len() > 0 {
            Some((clone_contexts(&d.context), d.base_url.clone()))
        } else {
            None
        },
        None => None,
    }
}

fn opt_str(s: &Option<String>) -> (r: Option<&str>)
    ensures
        opt_view(r) == opt_string_view(*s),
{
    match s {
        Some(t) => Some(t.as_str()),
        None => None,
    }
}

/// The entries that `order` visits are distinct, their values strings, numbers or
/// booleans, and neither the index nor the property brings in a scoped context.
pub open spec fn scalar_index_map(
    ctx: Context,
    key: Seq<char>,
    map: Seq<(Seq<char>, Json)>,
    order: Seq<usize>,
    index_key: Seq<char>,
) -> bool {
    &&& forall|a: int, b: int| 0 <= a < b < order.len() ==> order[a] != order[b]
    &&& forall|q: int| 0 <= q < order.len() ==> (#[trigger] order[q]) < map.len()
    &&& forall|q: int|
        0 <= q < order.len() ==> (#[trigger] map[order[q] as int]).1 is Str || map[order[q] as int].1 is Number
            || map[order[q] as int].1 is Bool
    &&& index_key != "@type"@
    &&& key != "@graph"@
    &&& no_scoped_context(term_def(ctx, key))
}

/// What expanding the entries of an index map whose values are strings, numbers or
/// booleans gives, in the order `order`: each value becomes its expanded value object
/// given its index, or the first error stops the expansion.
pub open spec fn scalar_index_outcome(
    ctx: Context,
    key: Seq<char>,
    map: Seq<(Seq<char>, Json)>,
    order: Seq<usize>,
    index_key: Seq<char>,
    as_graph: bool,
    property_index: bool,
) -> Result<Seq<Json>, ErrorSpec>
    decreases order.len(),
{
    if order.len() == 0 {
        Ok(Seq::empty())
    } else {
        match scalar_index_outcome(ctx, key, map, order.drop_last(), index_key, as_graph, property_index) {
            Err(x) => Err(x),
            Ok(vs) => {
                let (index, v) = map[order.last() as int];
                match expand_iri_spec(IRIExpansionArguments::Normal(&ctx), index, index_key == "@id"@, true) {
                    IriOutcome::BadBase(m) => Err(ErrorSpec::Caused(JsonLdErrorCode::InvalidBaseIRI, m)),
                    IriOutcome::Cyclic => Err(ErrorSpec::Plain(JsonLdErrorCode::CyclicIRIMapping)),
                    IriOutcome::Iri(ei) => match value_outcome(ctx, term_def(ctx, key), v) {
                        Err(m) => Err(ErrorSpec::Caused(JsonLdErrorCode::InvalidBaseIRI, m)),
                        Ok(o) => match index_value_spec(
                            ctx,
                            index,
                            ei,
                            Json::Object(o),
                            index_key,
                            as_graph,
                            property_index,
                        ) {
                            Ok(e) => Ok(vs.push(Json::Object(e))),
                            Err(x) => Err(x),
                        },
                    },
                }
            },
        }
    }
}

/// Once the expansion of a prefix of the entries has failed, so has that of any
/// longer prefix, with the same error.
proof fn lemma_scalar_index_error(
    ctx: Context,
    key: Seq<char>,
    map: Seq<(Seq<char>, Json)>,
    order: Seq<usize>,
    index_key: Seq<char>,
    as_graph: bool,
    property_index: bool,
    i: int,
    j: int,
)
    requires
        0 <= i <= j <= order.len(),
        scalar_index_outcome(ctx, key, map, order.take(i), index_key, as_graph, property_index) is Err,
    ensures
        scalar_index_outcome(ctx, key, map, order.take(j), index_key, as_graph, property_index)
            == scalar_index_outcome(ctx, key, map, order.take(i), index_key, as_graph, property_index),
    decreases j - i,
{
    if j > i {
        lemma_scalar_index_error(ctx, key, map, order, index_key, as_graph, property_index, i, j - 1);
        assert(order.take(j).drop_last() =~= order.take(j - 1));
    }
}

/// The values of an index map, expanded and given their indices.
#[verifier::loop_isolation(false)]
pub fn expand_index_map<L: DocumentLoader>(
    map_context: &Context,
    key: &str,
    index_map: Vec<(String, JsonValue)>,
    order: Vec<usize>,
    index_key: &str,
    as_graph: bool,
    property_index: bool,
    base_url: Option<&str>,
    options: &mut JsonLdOptionsImpl<L>,
    frame: bool,
) -> (r: Result<Vec<JsonValue>, JsonLdError>)
    requires
        forall|k: int| 0 <= k < order@.len() ==> (#[trigger] order@[k]) < index_map@.len(),
    ensures
        final(options).inner == old(options).inner,
        r matches Ok(vs) ==> forall|i: int| 0 <= i < vs@.len() ==> (#[trigger] vs@[i]) is Object,
        scalar_index_map(*map_context, key@, obj_view(index_map), order@, index_key@) ==> match scalar_index_outcome(
            *map_context,
            key@,
            obj_view(index_map),
            order@,
            index_key@,
            as_graph,
            property_index,
        ) {
            Ok(vs) => r matches Ok(v) && view_array(v@) == vs,
            Err(x) => r matches Err(e) && error_is(e, x),
        },
    decreases index_map, 0nat,
{
    let ghost map0 = index_map;
    let ghost mv = obj_view(index_map);
    let ghost simple = scalar_index_map(*map_context, key@, mv, order@, index_key@);
    proof {
        crate::json::lemma_view_entries(index_map@);
    }
    let mut index_map = index_map;
    let mut result: Vec<JsonValue> = Vec::new();
    let by_type = str_eq(index_key, "@type");
    let by_id = str_eq(index_key, "@id");
    let mut k: usize = 0;
    while k < order.len()
        invariant
            index_map@.len() == map0@.len(),
            forall|j: int| 0 <= j < index_map@.len() ==> (#[trigger] index_map@[j]).1 == map0@[j].1 || index_map@[j].1 == JsonValue::Null,
            options.inner == old(options).inner,
            forall|i: int| 0 <= i < result@.len() ==> (#[trigger] result@[i]) is Object,
            k <= order@.len(),
            simple ==> forall|q: int| k <= q < order@.len() ==> index_map@[#[trigger] order@[q] as int] == map0@[order@[q] as int],
            simple ==> scalar_index_outcome(
                *map_context,
                key@,
                mv,
                order@.take(k as int),
                index_key@,
                as_graph,
                property_index,
            ) == Ok::<Seq<Json>, ErrorSpec>(view_array(result@)),
        decreases order@.len() - k,
    {
        let j = order[k];
        let ghost kq = k as int;
        let ghost res0 = result@;
        proof {
            if simple {
                assert(index_map@[j as int] == map0@[j as int]);
                assert(mv[j as int] == (map0@[j as int].0@, map0@[j as int].1@));
                assert(order@.take(kq + 1).drop_last() =~= order@.take(kq));
                assert(order@.take(kq + 1).last() == j);
                assert forall|q: int| kq + 1 <= q < order@.len() implies index_map@[#[trigger] order@[q] as int]
                    == map0@[order@[q] as int] by {
                    assert(order@[q] != order@[kq]);
                }
            }
        }
        let mut slot = (String::new(), JsonValue::Null);
        index_map.set_and_swap(j, &mut slot);
        let (index, index_value) = slot;
        let ghost ivv = index_value@;
        proof {
            if simple {
                assert(index@ == mv[j as int].0 && index_value@ == mv[j as int].1);
            }
        }
        let scoped = if by_type {
            scoped_context(get_term(map_context, index.as_str()))
        } else {
            None
        };
        let processed = match scoped {
            Some((context, base)) => {
                let mut remote = new_remote_contexts();
                Some(
                    process_context(
                        map_context,
                        &context,
                        opt_str(&base),
                        options,
                        &mut remote,
                        false,
                        true,
                        true,
                        MAX_SCOPED_DEPTH,
                    )?,
                )
            },
            None => None,
        };
        let ctx: &Context = match &processed {
            Some(c) => c,
            None => map_context,
        };
        let ei_r = expand_iri(IRIExpansionArguments::Normal(ctx), index.as_str(), by_id, true);
        proof {
            if simple && ei_r is Err {
                lemma_scalar_index_error(
                    *map_context,
                    key@,
                    mv,
                    order@,
                    index_key@,
                    as_graph,
                    property_index,
                    kq + 1,
                    order@.len() as int,
                );
                assert(order@.take(order@.len() as int) =~= order@);
            }
        }
        let expanded_index = ei_r?;
        proof {
            assert(decreases_to!(map0 => map0@[j as int]));
        }
        let index_value = if index_value.is_null() {
            JsonValue::Null
        } else {
            let iv_r = expand_internal(ctx, Some(key), index_value, base_url, options, true, frame);
            proof {
                if simple && iv_r is Err {
                    lemma_scalar_index_error(
                        *map_context,
                        key@,
                        mv,
                        order@,
                        index_key@,
                        as_graph,
                        property_index,
                        kq + 1,
                        order@.len() as int,
                    );
                    assert(order@.take(order@.len() as int) =~= order@);
                }
            }
            iv_r?
        };
        let ei = opt_str(&expanded_index);
        proof {
            if simple {
                assert(index_value@ is Object);
                assert(index_value@ == Json::Object(value_outcome(*map_context, term_def(*map_context, key@), ivv)->Ok_0));
                assert(expand_iri_spec(IRIExpansionArguments::Normal(map_context), index@, index_key@ == "@id"@, true)
                    == IriOutcome::Iri(opt_view(ei)));
            }
        }
        match index_value {
            JsonValue::Array(items) => {
                let mut items = items;
                let n = items.len();
                let mut i: usize = 0;
                while i < n
                    invariant
                        n == items@.len(),
                        forall|q: int| 0 <= q < result@.len() ==> (#[trigger] result@[q]) is Object,
                    decreases n - i,
                {
                    let mut item = JsonValue::Null;
                    items.set_and_swap(i, &mut item);
                    let v = expand_index_value(ctx, index.as_str(), ei, item, index_key, as_graph, property_index)?;
                    result.push(JsonValue::Object(v));
                    i = i + 1;
                }
            },
            index_value => {
                let v_r = expand_index_value(ctx, index.as_str(), ei, index_value, index_key, as_graph, property_index);
                proof {
                    if simple && v_r is Err {
                        lemma_scalar_index_error(
                            *map_context,
                            key@,
                            mv,
                            order@,
                            index_key@,
                            as_graph,
                            property_index,
                            kq + 1,
                            order@.len() as int,
                        );
                        assert(order@.take(order@.len() as int) =~= order@);
                    }
                }
                let v = v_r?;
                let ghost vv = v;
                result.push(JsonValue::Object(v));
                proof {
                    assert(result@.drop_last() =~= res0);
                    assert(view_array(result@) == view_array(res0).push(Json::Object(obj_view(vv))));
                    if simple {
                        assert(order@.take(kq + 1).drop_last() =~= order@.take(kq));
                        assert(mv[order@.take(kq + 1).last() as int] == (index@, ivv));
                    }
                }
            },
        }
        proof {
            if simple {
                assert(ivv is Str || ivv is Number || ivv is Bool);
                assert(scalar_index_outcome(
                    *map_context,
                    key@,
                    mv,
                    order@.take(kq),
                    index_key@,
                    as_graph,
                    property_index,
                ) == Ok::<Seq<Json>, ErrorSpec>(view_array(res0)));
                assert(scalar_index_outcome(
                    *map_context,
                    key@,
                    mv,
                    order@.take(kq + 1),
                    index_key@,
                    as_graph,
                    property_index,
                ) == Ok::<Seq<Json>, ErrorSpec>(view_array(result@)));
            }
        }
        k = k + 1;
    }
    proof {
        assert(order@.take(order@.len() as int) =~= order@);
    }
    Ok(result)
}

} // verus!

verus! {

/// The Expansion algorithm: expands `element`, the value of `active_property`.
/// `frame` is whether frame expansion is on.
pub fn expand_internal<L: DocumentLoader>(
    active_context: &Context,
    active_property: Option<&str>,
    element: JsonValue,
    base_url: Option<&str>,
    options: &mut JsonLdOptionsImpl<L>,
    from_map: bool,
    frame: bool,
) -> (r: Result<JsonValue, JsonLdError>)
    ensures
        final(options).inner == old(options).inner,
        element@ is Null ==> (r matches Ok(v) && v@ is Null),
        !(element@ is Array || element@ is Object) && (active_property is None || opt_view(active_property)
            == Some("@graph"@)) ==> (r matches Ok(v) && v@ is Null),
        active_property matches Some(p) ==> (!(element@ is Array || element@ is Object || element@ is Null) && p@
            != "@graph"@ && no_scoped_context(term_def(*active_context, p@)) ==> match value_outcome(
            *active_context,
            term_def(*active_context, p@),
            element@,
        ) {
            Ok(o) => r matches Ok(v) && v@ == Json::Object(o),
            Err(m) => r matches Err(e) && caused_error(e, JsonLdErrorCode::InvalidBaseIRI, m),
        }),
        element@ is Array ==> (r matches Ok(v) ==> v@ is Array),
        r matches Ok(v) ==> value_expanded(v@),
        match active_property {
            Some(p) => p@ != "@graph"@ && (element@ is Str || element@ is Number || element@ is Bool) ==> (
            r matches Ok(v) ==> (v@ matches Json::Object(e) && (has_key(e, "@value"@) || has_key(e, "@id"@)))),
            None => true,
        },
        match element {
            JsonValue::Object(obj) => active_context.previous_context is None && (match active_property {
                Some(p) => no_scoped_context(term_def(*active_context, p@)),
                None => true,
            }) ==> (keys_dropped(*active_context, obj@) ==> (r matches Ok(v) && v@ == (if active_property is None
                || opt_view(active_property) == Some("@graph"@) {
                Json::Null
            } else {
                Json::Object(Seq::empty())
            }))) && (keys_simple(*active_context, obj@) ==> (r matches Ok(v) && (match v@ {
                Json::Object(e) => iri_keys_only(e),
                _ => true,
            }) && forall|i: int|
                0 <= i < obj@.len() && simple_iri_entry(*active_context, (#[trigger] obj@[i]).0@, obj@[i].1@) ==> (
                v@ matches Json::Object(e) && has_key(e, iri_key(*active_context, obj@[i].0@)->0) && holds_value(
                    e,
                    iri_key(*active_context, obj@[i].0@)->0,
                    simple_value(*active_context, obj@[i].1@),
                )))),
            _ => true,
        },
    decreases element, 0nat,
{
    let definition = match active_property {
        Some(p) => get_term(active_context, p),
        None => None,
    };
    match element {
        JsonValue::Null => Ok(JsonValue::Null),
        JsonValue::Array(items) => {
            let frame_expansion = frame && match active_property {
                Some(p) => !str_eq(p, "@default"),
                None => true,
            };
            let list = match definition {
                Some(d) => is_list_container(d.container_mapping),
                None => false,
            };
            let result = expand_array(
                active_context,
                active_property,
                items,
                base_url,
                options,
                from_map,
                frame_expansion,
                list,
            )?;
            Ok(JsonValue::Array(result))
        },
        JsonValue::Object(obj) => expand_element_object(
            active_context,
            active_property,
            obj,
            base_url,
            options,
            from_map,
            frame,
        ),
        value => {
            let top = match active_property {
                Some(p) => str_eq(p, "@graph"),
                None => true,
            };
            if top {
                return Ok(JsonValue::Null);
            }
            match scoped_context(definition) {
                Some((context, base)) => {
                    let mut remote = new_remote_contexts();
                    let ctx = process_context(
                        active_context,
                        &context,
                        opt_str(&base),
                        options,
                        &mut remote,
                        false,
                        true,
                        true,
                        MAX_SCOPED_DEPTH,
                    )?;
                    proof {
                        lemma_value_outcome_expanded(ctx, opt_ref(definition), value@);
                    }
                    Ok(JsonValue::Object(expand_value(&ctx, definition, value)?))
                },
                None => {
                    proof {
                        lemma_value_outcome_expanded(*active_context, opt_ref(definition), value@);
                    }
                    Ok(JsonValue::Object(expand_value(active_context, definition, value)?))
                },
            }
        },
    }
}

/// The items are null, strings, numbers or booleans.
pub open spec fn scalar_items(items: Seq<Json>) -> bool {
    forall|i: int| 0 <= i < items.len() ==> #[trigger] items[i] is Null || items[i] is Str || items[i] is Number
        || items[i] is Bool
}

/// What expanding items that are null, strings, numbers or booleans as values of the
/// active property `ap` gives: null items are dropped; below no property or `@graph`
/// every item is dropped; otherwise each becomes its expanded value, or the first
/// error of resolving an IRI stops the expansion.
pub open spec fn scalar_items_outcome(ctx: Context, ap: Option<Seq<char>>, items: Seq<Json>) -> Result<
    Seq<Json>,
    Seq<char>,
>
    decreases items.len(),
{
    if items.len() == 0 {
        Ok(Seq::empty())
    } else {
        match scalar_items_outcome(ctx, ap, items.drop_last()) {
            Err(m) => Err(m),
            Ok(vs) => match ap {
                Some(p) => if items.last() is Null || p == "@graph"@ {
                    Ok(vs)
                } else {
                    match value_outcome(ctx, term_def(ctx, p), items.last()) {
                        Ok(o) => Ok(vs.push(Json::Object(o))),
                        Err(m) => Err(m),
                    }
                },
                None => Ok(vs),
            },
        }
    }
}

/// Once the expansion of a prefix of the items has failed, so has that of any longer
/// prefix, with the same error.
proof fn lemma_scalar_items_error(ctx: Context, ap: Option<Seq<char>>, items: Seq<Json>, i: int, j: int)
    requires
        0 <= i <= j <= items.len(),
        scalar_items_outcome(ctx, ap, items.take(i)) is Err,
    ensures
        scalar_items_outcome(ctx, ap, items.take(j)) == scalar_items_outcome(ctx, ap, items.take(i)),
    decreases j - i,
{
    if j > i {
        lemma_scalar_items_error(ctx, ap, items, i, j - 1);
        assert(items.take(j).drop_last() =~= items.take(j - 1));
    }
}

/// The elements of an array, expanded; with a list container, an element that
/// expands to an array becomes a list object.
#[verifier::loop_isolation(false)]
fn expand_array<L: DocumentLoader>(
    active_context: &Context,
    active_property: Option<&str>,
    items: Vec<JsonValue>,
    base_url: Option<&str>,
    options: &mut JsonLdOptionsImpl<L>,
    from_map: bool,
    frame: bool,
    list: bool,
) -> (r: Result<Vec<JsonValue>, JsonLdError>)
    ensures
        final(options).inner == old(options).inner,
        scalar_items(view_array(items@)) && (match active_property {
            Some(p) => no_scoped_context(term_def(*active_context, p@)),
            None => true,
        }) ==> match scalar_items_outcome(*active_context, opt_view(active_property), view_array(items@)) {
            Ok(vs) => r matches Ok(v) && view_array(v@) == vs,
            Err(m) => r matches Err(e) && caused_error(e, JsonLdErrorCode::InvalidBaseIRI, m),
        },
    decreases items, 0nat,
{
    let ghost items0 = items;
    let ghost iv = view_array(items@);
    let ghost simple = scalar_items(iv) && (match active_property {
        Some(p) => no_scoped_context(term_def(*active_context, p@)),
        None => true,
    });
    let mut items = items;
    let n = items.len();
    let mut result: Vec<JsonValue> = Vec::new();
    let mut i: usize = 0;
    while i < n
        invariant
            i <= n,
            n == items@.len() == items0@.len(),
            forall|j: int| i <= j < n ==> items@[j] == items0@[j],
            options.inner == old(options).inner,
            simple ==> scalar_items_outcome(*active_context, opt_view(active_property), iv.take(i as int)) == Ok::<
                Seq<Json>,
                Seq<char>,
            >(view_array(result@)),
        decreases n - i,
    {
        let mut item = JsonValue::Null;
        items.set_and_swap(i, &mut item);
        proof {
            assert(decreases_to!(items0 => items0@[i as int]));
        }
        proof {
            if simple {
                crate::json::lemma_view_array(items0@);
                assert(iv.take(i as int + 1).drop_last() =~= iv.take(i as int));
                assert(iv.take(i as int + 1).last() == item@);
            }
        }
        let ghost item_view = item@;
        let expanded = expand_internal(active_context, active_property, item, base_url, options, from_map, frame);
        proof {
            if simple {
                if let Err(_) = expanded {
                    crate::json::lemma_view_array(items0@);
                    lemma_scalar_items_error(
                        *active_context,
                        opt_view(active_property),
                        iv,
                        i as int + 1,
                        n as int,
                    );
                    assert(iv.take(n as int) =~= iv);
                }
            }
        }
        let expanded_item = expanded?;
        let ghost res0 = result@;
        match expanded_item {
            JsonValue::Array(a) => {
                if list {
                    let list_object = singleton_object("@list", JsonValue::Array(a));
                    result.push(JsonValue::Object(list_object));
                } else {
                    let mut a = a;
                    result.append(&mut a);
                }
            },
            JsonValue::Null => {},
            other => {
                result.push(other);
                proof {
                    assert(result@.drop_last() =~= res0);
                }
            },
        }
        i = i + 1;
    }
    proof {
        crate::json::lemma_view_array(items0@);
        assert(iv.take(n as int) =~= iv);
    }
    Ok(result)
}

fn opt_is(k: &Option<String>, s: &str) -> (r: bool)
    ensures
        r == (opt_string_view(*k) == Some(s@)),
{
    match k {
        Some(t) => str_eq(t.as_str(), s),
        None => false,
    }
}

/// Every key of `obj` is dropped against `ctx` (see `dropped_key`).
pub open spec fn keys_dropped(ctx: Context, obj: Seq<(String, JsonValue)>) -> bool {
    forall|i: int| 0 <= i < obj.len() ==> dropped_key(ctx, #[trigger] obj[i].0@)
}

/// Every key of `obj` is dropped against `ctx`, or its entry is a simple IRI entry.
pub open spec fn keys_simple(ctx: Context, obj: Seq<(String, JsonValue)>) -> bool {
    forall|i: int|
        0 <= i < obj.len() ==> dropped_key(ctx, #[trigger] obj[i].0@) || simple_iri_entry(ctx, obj[i].0@, obj[i].1@)
}

/// What the end of expansion makes of entries with IRI keys only: the object
/// itself, or null for no entries at the top level.
proof fn lemma_finish_iri_keys(e: Seq<(Seq<char>, Json)>, top: bool, frame: bool)
    requires
        iri_keys_only(e),
    ensures
        finish_spec(e, top, frame) == if top && e.len() == 0 {
            Ok::<Json, JsonLdErrorCode>(Json::Null)
        } else {
            Ok::<Json, JsonLdErrorCode>(Json::Object(e))
        },
{
    lemma_keyword_no_colon("@value"@);
    lemma_keyword_no_colon("@type"@);
    lemma_keyword_no_colon("@set"@);
    lemma_keyword_no_colon("@list"@);
    lemma_keyword_no_colon("@language"@);
    lemma_keyword_no_colon("@id"@);
    crate::json::lemma_key_index(e, "@type"@);
    if e.len() > 0 {
        assert(has_key(e, e[0].0));
    }
}

/// Against a context with no terms and no vocabulary mapping, a key that is no
/// keyword is an IRI key (itself) where it holds a colon, and is dropped otherwise.
pub proof fn lemma_empty_context_keys(ctx: Context, k: Seq<char>)
    requires
        ctx.term_definitions@.len() == 0,
        ctx.vocabulary_mapping is None,
        !is_keyword(k),
    ensures
        term_def(ctx, k) is None,
        k.contains(':') ==> iri_key(ctx, k) == Some(k),
        !k.contains(':') ==> dropped_key(ctx, k),
{
    if has_keyword_form(k) && k.contains(':') {
        let i = choose|i: int| 0 <= i < k.len() && k[i] == ':';
        if i > 0 {
            assert(crate::util::is_ascii_alpha(k[i]));
        }
    }
    if let Some((p, _)) = compact_iri_parts(k) {
        assert(term_def(ctx, p) is None);
    }
}

/// IRI expansion gives the same against two copies of one context.
proof fn lemma_same_context_expand_iri(a: Context, b: Context, v: Seq<char>, document_relative: bool, vocab: bool)
    requires
        crate::context::ctx_same(a, b),
    ensures
        expand_iri_spec(IRIExpansionArguments::Normal(&a), v, document_relative, vocab) == expand_iri_spec(
            IRIExpansionArguments::Normal(&b),
            v,
            document_relative,
            vocab,
        ),
{
    crate::context::lemma_same_context_term_def(a, b, v);
    if let Some((p, _)) = compact_iri_parts(v) {
        crate::context::lemma_same_context_term_def(a, b, p);
    }
}

/// Expands an element that is an object.
#[verifier::loop_isolation(false)]
fn expand_element_object<L: DocumentLoader>(
    active_context: &Context,
    active_property: Option<&str>,
    obj: Vec<(String, JsonValue)>,
    base_url: Option<&str>,
    options: &mut JsonLdOptionsImpl<L>,
    from_map: bool,
    frame: bool,
) -> (r: Result<JsonValue, JsonLdError>)
    ensures
        final(options).inner == old(options).inner,
        r matches Ok(v) ==> value_expanded(v@),
        active_context.previous_context is None && keys_dropped(*active_context, obj@) && (match active_property {
            Some(p) => no_scoped_context(term_def(*active_context, p@)),
            None => true,
        }) ==> (r matches Ok(v) && v@ == (if active_property is None || opt_view(active_property) == Some("@graph"@) {
            Json::Null
        } else {
            Json::Object(Seq::empty())
        })),
        active_context.previous_context is None && keys_simple(*active_context, obj@) && (match active_property {
            Some(p) => no_scoped_context(term_def(*active_context, p@)),
            None => true,
        }) ==> (r matches Ok(v) && (match v@ {
            Json::Object(e) => iri_keys_only(e),
            _ => true,
        }) && forall|i: int|
            0 <= i < obj@.len() && simple_iri_entry(*active_context, (#[trigger] obj@[i]).0@, obj@[i].1@) ==> (
            v@ matches Json::Object(e) && has_key(e, iri_key(*active_context, obj@[i].0@)->0) && holds_value(
                e,
                iri_key(*active_context, obj@[i].0@)->0,
                simple_value(*active_context, obj@[i].1@),
            ))),
    decreases obj, 1nat,
{
    let definition = match active_property {
        Some(p) => get_term(active_context, p),
        None => None,
    };
    let revert = match &active_context.previous_context {
        Some(_) => if from_map {
            false
        } else if obj.len() == 1 {
            let e = expand_iri(IRIExpansionArguments::Normal(active_context), obj[0].0.as_str(), false, true)?;
            !(opt_is(&e, "@value") || opt_is(&e, "@id"))
        } else {
            let mut found = false;
            let mut i: usize = 0;
            while i < obj.len()
                invariant
                    i <= obj@.len(),
                decreases obj@.len() - i,
            {
                let e = expand_iri(IRIExpansionArguments::Normal(active_context), obj[i].0.as_str(), false, true)?;
                if opt_is(&e, "@value") {
                    found = true;
                    break;
                }
                i = i + 1;
            }
            !found
        },
        None => false,
    };
    let mut ctx: Context = match &active_context.previous_context {
        Some(previous) => if revert {
            clone_context(previous)
        } else {
            clone_context(active_context)
        },
        None => clone_context(active_context),
    };
    let ghost simple = active_context.previous_context is None && keys_dropped(*active_context, obj@) && (
    match active_property {
        Some(p) => no_scoped_context(term_def(*active_context, p@)),
        None => true,
    });
    let ghost ctx0 = ctx;
    let ghost simple2 = active_context.previous_context is None && keys_simple(*active_context, obj@) && (
    match active_property {
        Some(p) => no_scoped_context(term_def(*active_context, p@)),
        None => true,
    });
    proof {
        if simple2 {
            assert forall|q: int| 0 <= q < obj@.len() implies dropped_key(ctx0, #[trigger] obj@[q].0@)
                || simple_iri_entry(ctx0, obj@[q].0@, obj@[q].1@) by {
                lemma_same_context_expand_iri(ctx0, *active_context, obj@[q].0@, false, true);
                crate::context::lemma_same_context_term_def(ctx0, *active_context, obj@[q].0@);
            }
            assert forall|q: int| 0 <= q < obj@.len() && simple_iri_entry(*active_context, obj@[q].0@, obj@[q].1@)
                implies #[trigger] simple_iri_entry(ctx0, obj@[q].0@, obj@[q].1@) && iri_key(ctx0, obj@[q].0@)
                == iri_key(*active_context, obj@[q].0@) by {
                lemma_same_context_expand_iri(ctx0, *active_context, obj@[q].0@, false, true);
                crate::context::lemma_same_context_term_def(ctx0, *active_context, obj@[q].0@);
            }
        }
        if simple {
            assert forall|q: int| 0 <= q < obj@.len() implies dropped_key(ctx0, #[trigger] obj@[q].0@) by {
                lemma_same_context_expand_iri(ctx0, *active_context, obj@[q].0@, false, true);
            }
        }
    }
    if let Some((context, base)) = scoped_context(definition) {
        let mut remote = new_remote_contexts();
        ctx = process_context(&ctx, &context, opt_str(&base), options, &mut remote, true, true, true, MAX_SCOPED_DEPTH)?;
    }
    let context_index = crate::json::obj_find(&obj, "@context");
    proof {
        if simple2 {
            if let Some(c) = context_index {
                crate::json::lemma_key_index(obj_view(obj), "@context"@);
                crate::json::lemma_view_entries(obj@);
                assert(obj@[c as int].0@ == "@context"@);
                assert(dropped_key(ctx0, obj@[c as int].0@) || simple_iri_entry(ctx0, obj@[c as int].0@, obj@[c as int].1@));
                lemma_keyword_no_colon("@context"@);
            }
            assert(context_index is None);
        }
        if simple {
            if let Some(c) = context_index {
                crate::json::lemma_key_index(obj_view(obj), "@context"@);
                crate::json::lemma_view_entries(obj@);
                assert(obj@[c as int].0@ == "@context"@);
                assert(dropped_key(ctx0, obj@[c as int].0@));
            }
        }
    }
    if let Some(c) = context_index {
        let local = map_context(obj[c].1.deep_clone())?;
        let mut remote = new_remote_contexts();
        ctx = process_context(&ctx, &local, base_url, options, &mut remote, false, true, true, MAX_SCOPED_DEPTH)?;
    }
    let order = crate::json::sorted_order(&obj, context_index);
    let type_scoped_context = clone_context(&ctx);
    let mut input_type: Option<String> = None;
    let mut k: usize = 0;
    while k < order.len()
        invariant
            options.inner == old(options).inner,
            forall|q: int| 0 <= q < order@.len() ==> (#[trigger] order@[q]) < obj@.len(),
            simple ==> ctx == ctx0,
            simple2 ==> ctx == ctx0,
        decreases order@.len() - k,
    {
        let j = order[k];
        proof {
            if simple {
                assert(dropped_key(ctx0, obj@[j as int].0@));
            }
            if simple2 {
                assert(dropped_key(ctx0, obj@[j as int].0@) || simple_iri_entry(ctx0, obj@[j as int].0@, obj@[j as int].1@));
                lemma_keyword_no_colon("@type"@);
            }
        }
        let e = expand_iri(IRIExpansionArguments::Normal(&ctx), obj[j].0.as_str(), false, true)?;
        if opt_is(&e, "@type") {
            match &obj[j].1 {
                JsonValue::Array(items) => {
                    let terms = crate::json::sorted_unique_strings(items);
                    let mut scoped: Vec<(String, Vec<Option<JsonOrReference>>)> = Vec::new();
                    let mut t: usize = 0;
                    while t < terms.len()
                        invariant
                            t <= terms@.len(),
                        decreases terms@.len() - t,
                    {
                        input_type = expand_iri(IRIExpansionArguments::Normal(&ctx), terms[t].as_str(), false, true)?;
                        if let Some((c, _)) = scoped_context(get_term(&type_scoped_context, terms[t].as_str())) {
                            scoped.push((terms[t].clone(), c));
                        }
                        t = t + 1;
                    }
                    let mut s: usize = 0;
                    while s < scoped.len()
                        invariant
                            s <= scoped@.len(),
                            options.inner == old(options).inner,
                        decreases scoped@.len() - s,
                    {
                        let base = match get_term(&ctx, scoped[s].0.as_str()) {
                            Some(d) => d.base_url.clone(),
                            None => None,
                        };
                        let mut remote = new_remote_contexts();
                        ctx = process_context(&ctx, &scoped[s].1, opt_str(&base), options, &mut remote, false, false, true, MAX_SCOPED_DEPTH)?;
                        s = s + 1;
                    }
                },
                JsonValue::String(term) => {
                    input_type = expand_iri(IRIExpansionArguments::Normal(&ctx), term.as_str(), false, true)?;
                    if let Some((c, _)) = scoped_context(get_term(&type_scoped_context, term.as_str())) {
                        let base = match get_term(&ctx, term.as_str()) {
                            Some(d) => d.base_url.clone(),
                            None => None,
                        };
                        let mut remote = new_remote_contexts();
                        ctx = process_context(&ctx, &c, opt_str(&base), options, &mut remote, false, false, true, MAX_SCOPED_DEPTH)?;
                    }
                },
                _ => {},
            }
        }
        k = k + 1;
    }
    let mut result: Vec<(String, JsonValue)> = Vec::new();
    let ghost obj0 = obj@;
    let ghost order0 = order@;
    let obj_len = obj.len();
    proof {
        if simple {
            assert forall|q: int| 0 <= q < order@.len() implies dropped_key(
                ctx,
                #[trigger] obj@[order@[q] as int].0@,
            ) by {
                assert(order@[q] < obj@.len());
            }
        }
        if simple2 {
            assert forall|q: int| 0 <= q < order@.len() implies dropped_key(
                ctx,
                #[trigger] obj@[order@[q] as int].0@,
            ) || simple_iri_entry(ctx, obj@[order@[q] as int].0@, obj@[order@[q] as int].1@) by {
                assert(order@[q] < obj@.len());
            }
        }
        assert(obj_view(result) =~= Seq::<(Seq<char>, Json)>::empty());
        crate::json::lemma_key_index(obj_view(result), "@reverse"@);
        crate::json::lemma_key_index(obj_view(result), "@set"@);
    }
    expand_object(
        &mut result,
        &ctx,
        &type_scoped_context,
        active_property,
        obj,
        order,
        base_url,
        &input_type,
        options,
        frame,
    )?;
    proof {
        lemma_finish_expanded(obj_view(result), active_property is None || opt_view(active_property) == Some("@graph"@), frame);
        if simple2 {
            lemma_finish_iri_keys(obj_view(result), active_property is None || opt_view(active_property) == Some("@graph"@), frame);
            assert forall|i: int| 0 <= i < obj@.len() && simple_iri_entry(*active_context, (#[trigger] obj@[i]).0@, obj@[i].1@)
                implies has_key(obj_view(result), iri_key(*active_context, obj@[i].0@)->0) && holds_value(
                obj_view(result),
                iri_key(*active_context, obj@[i].0@)->0,
                simple_value(*active_context, obj@[i].1@),
            ) by {
                assert(simple_iri_entry(ctx0, obj0[i].0@, obj0[i].1@));
                assert(obj0.len() == obj_len);
                assert((i as usize) as int == i);
                assert(order0.contains(i as usize));
                let q = choose|q: int| 0 <= q < order0.len() && order0[q] == i as usize;
                assert(order0[q] as int == i);
                assert(obj0[order0[q] as int] == obj0[i]);
                assert(simple_value(ctx0, obj0[i].1@) == simple_value(*active_context, obj0[i].1@));
            }
        }
    }
    finish_object(result, active_property, frame)
}

} // verus!

verus! {

/// The checks of a value object (one with `@value`): its error, if any.
pub open spec fn value_object_error(e: Seq<(Seq<char>, Json)>) -> Option<JsonLdErrorCode> {
    let ty = entries_get(e, "@type"@);
    let count = 1 + (if ty is Some {
        1int
    } else {
        (if has_key(e, "@language"@) {
            1int
        } else {
            0int
        }) + (if has_key(e, "@direction"@) {
            1int
        } else {
            0int
        })
    }) + (if has_key(e, "@index"@) {
        1int
    } else {
        0int
    });
    let literal = ty == Some(Json::Str("@json"@));
    let invalid_typed_value = match ty {
        Some(Json::Str(t)) => t != "@json"@ && !is_iri_spec(t),
        Some(_) => true,
        None => false,
    };
    let value = entries_get(e, "@value"@);
    let empty = value == Some(Json::Null) || value == Some(Json::Array(Seq::empty()));
    if ty is Some && (has_key(e, "@language"@) || has_key(e, "@direction"@)) {
        Some(JsonLdErrorCode::InvalidValueObject)
    } else if e.len() != count {
        Some(JsonLdErrorCode::InvalidValueObject)
    } else if literal || empty {
        None
    } else if !(value matches Some(Json::Str(_))) && has_key(e, "@language"@) {
        Some(JsonLdErrorCode::InvalidLanguageTaggedValue)
    } else if invalid_typed_value {
        Some(JsonLdErrorCode::InvalidTypedValue)
    } else {
        None
    }
}

/// The entries of an object that expands to nothing: a lone language, or at the top
/// level nothing, a lone value, a lone list or (out of frame expansion) a lone `@id`.
pub open spec fn drops_to_null(e: Seq<(Seq<char>, Json)>, top: bool, frame: bool) -> bool {
    (e.len() == 1 && has_key(e, "@language"@)) || (top && (e.len() == 0 || (e.len() == 1 && (has_key(
        e,
        "@value"@,
    ) || has_key(e, "@list"@) || (!frame && has_key(e, "@id"@))))))
}

/// What the end of the Expansion algorithm makes of the expanded entries `e` of an
/// object: `top` is whether the active property is none or `@graph`.
pub open spec fn finish_spec(e: Seq<(Seq<char>, Json)>, top: bool, frame: bool) -> Result<Json, JsonLdErrorCode> {
    let index_count = if has_key(e, "@index"@) {
        1int
    } else {
        0int
    };
    if has_key(e, "@value"@) {
        match value_object_error(e) {
            Some(c) => Err(c),
            None => {
                let value = entries_get(e, "@value"@);
                let literal = entries_get(e, "@type"@) == Some(Json::Str("@json"@));
                if !literal && (value == Some(Json::Null) || value == Some(Json::Array(Seq::empty()))) {
                    Ok(Json::Null)
                } else if drops_to_null(e, top, frame) {
                    Ok(Json::Null)
                } else {
                    Ok(Json::Object(e))
                }
            },
        }
    } else if entries_get(e, "@type"@) is Some && !(entries_get(e, "@type"@)->0 is Array) {
        let e1 = entries_insert(e, "@type"@, Json::Array(seq![entries_get(e, "@type"@)->0]));
        if drops_to_null(e1, top, frame) {
            Ok(Json::Null)
        } else {
            Ok(Json::Object(e1))
        }
    } else if has_key(e, "@set"@) {
        let rest = entries_remove(e, "@set"@);
        let allowed = if has_key(rest, "@index"@) {
            1int
        } else {
            0int
        };
        if rest.len() != allowed {
            Err(JsonLdErrorCode::InvalidSetOrListObject)
        } else {
            match entries_get(e, "@set"@) {
                Some(Json::Object(s)) => if drops_to_null(s, top, frame) {
                    Ok(Json::Null)
                } else {
                    Ok(Json::Object(s))
                },
                Some(v) => Ok(v),
                None => Ok(Json::Null),
            }
        }
    } else if has_key(e, "@list"@) && e.len() != 1 + index_count {
        Err(JsonLdErrorCode::InvalidSetOrListObject)
    } else if drops_to_null(e, top, frame) {
        Ok(Json::Null)
    } else {
        Ok(Json::Object(e))
    }
}

/// The result of a step of expansion and its outcome agree.
pub open spec fn finish_is(r: Result<JsonValue, JsonLdError>, o: Result<Json, JsonLdErrorCode>) -> bool {
    match o {
        Ok(v) => r matches Ok(x) && x@ == v,
        Err(c) => r matches Err(e) && plain_error(e, c),
    }
}

/// The checks and simplifications of the end of the Expansion algorithm for an
/// element that is an object, whose expanded entries are `result`.
fn finish_object(result: Vec<(String, JsonValue)>, active_property: Option<&str>, frame: bool) -> (r: Result<
    JsonValue,
    JsonLdError,
>)
    ensures
        finish_is(
            r,
            finish_spec(
                obj_view(result),
                active_property is None || opt_view(active_property) == Some("@graph"@),
                frame,
            ),
        ),
{
    let ghost e0 = obj_view(result);
    let mut result = result;
    if obj_contains(&result, "@value") {
        let mut count: usize = 1;
        let mut literal = false;
        let mut invalid_typed_value = false;
        match obj_get(&result, "@type") {
            Some(ty) => {
                count = count + 1;
                if obj_contains(&result, "@language") || obj_contains(&result, "@direction") {
                    return Err(JsonLdError::new(JsonLdErrorCode::InvalidValueObject));
                }
                match ty.as_string() {
                    Some(t) => {
                        if str_eq(t.as_str(), "@json") {
                            literal = true;
                        } else {
                            invalid_typed_value = !is_iri(t.as_str());
                        }
                    },
                    None => invalid_typed_value = true,
                }
            },
            None => {
                if obj_contains(&result, "@language") {
                    count = count + 1;
                }
                if obj_contains(&result, "@direction") {
                    count = count + 1;
                }
            },
        }
        if obj_contains(&result, "@index") {
            count = count + 1;
        }
        if result.len() != count {
            return Err(JsonLdError::new(JsonLdErrorCode::InvalidValueObject));
        }
        if !literal {
            let (empty, string) = match obj_get(&result, "@value") {
                Some(JsonValue::Null) => (true, false),
                Some(JsonValue::Array(a)) => {
                    proof {
                        assert(crate::json::view_array(a@).len() == a@.len());
                        if a@.len() == 0 {
                            assert(crate::json::view_array(a@) =~= Seq::<Json>::empty());
                        } else {
                            assert(crate::json::view_array(a@) != Seq::<Json>::empty());
                        }
                    }
                    (a.len() == 0, false)
                },
                Some(JsonValue::String(_)) => (false, true),
                _ => (false, false),
            };
            proof {
                let value = entries_get(e0, "@value"@);
                assert(empty == (value == Some(Json::Null) || value == Some(Json::Array(Seq::empty()))));
                assert(string == (value matches Some(Json::Str(_))));
            }
            if empty {
                return Ok(JsonValue::Null);
            }
            if !string && obj_contains(&result, "@language") {
                return Err(JsonLdError::new(JsonLdErrorCode::InvalidLanguageTaggedValue));
            }
            if invalid_typed_value {
                return Err(JsonLdError::new(JsonLdErrorCode::InvalidTypedValue));
            }
        }
    } else if match obj_get(&result, "@type") {
        Some(ty) => ty.as_array().is_none(),
        None => false,
    } {
        if let Some(ty) = obj_get(&result, "@type") {
            let ty = ty.deep_clone();
            obj_insert(&mut result, string_of("@type"), JsonValue::Array(crate::json::singleton_array(ty)));
        }
    } else if obj_contains(&result, "@set") {
        let set = obj_remove(&mut result, "@set");
        let allowed: usize = if obj_contains(&result, "@index") {
            1
        } else {
            0
        };
        if result.len() != allowed {
            return Err(JsonLdError::new(JsonLdErrorCode::InvalidSetOrListObject));
        }
        match set {
            Some(JsonValue::Object(s)) => result = s,
            Some(set) => {
                return Ok(set);
            },
            None => {},
        }
    } else if obj_contains(&result, "@list") {
        let allowed: usize = if obj_contains(&result, "@index") {
            2
        } else {
            1
        };
        if result.len() != allowed {
            return Err(JsonLdError::new(JsonLdErrorCode::InvalidSetOrListObject));
        }
    }
    let top = match active_property {
        Some(p) => str_eq(p, "@graph"),
        None => true,
    };
    if (result.len() == 1 && obj_contains(&result, "@language")) || top && (result.len() == 0 || (
    result.len() == 1 && (obj_contains(&result, "@value") || obj_contains(&result, "@list") || (!frame
        && obj_contains(&result, "@id"))))) {
        return Ok(JsonValue::Null);
    }
    Ok(JsonValue::Object(result))
}

/// The key `k` expands against `ctx` to nothing, or to neither a keyword nor an IRI:
/// its entry is dropped from the expansion.
pub open spec fn dropped_key(ctx: Context, k: Seq<char>) -> bool {
    match expand_iri_spec(IRIExpansionArguments::Normal(&ctx), k, false, true) {
        IriOutcome::Iri(None) => true,
        IriOutcome::Iri(Some(p)) => !is_keyword(p) && !p.contains(':'),
        _ => false,
    }
}

/// The IRI (neither a keyword nor without a colon) that the key `k` expands to
/// against `ctx`, if any.
pub open spec fn iri_key(ctx: Context, k: Seq<char>) -> Option<Seq<char>> {
    match expand_iri_spec(IRIExpansionArguments::Normal(&ctx), k, false, true) {
        IriOutcome::Iri(Some(p)) => if !is_keyword(p) && p.contains(':') {
            Some(p)
        } else {
            None
        },
        _ => None,
    }
}

/// An entry whose key expands to an IRI, of a term that is no reverse property, and
/// whose value is a string, number or boolean: its expanded value goes under that IRI.
pub open spec fn adds_iri_key(ctx: Context, k: Seq<char>, v: Json) -> bool {
    &&& iri_key(ctx, k) is Some
    &&& (v is Str || v is Number || v is Bool)
    &&& !(term_def(ctx, k) matches Some(d) && d.reverse_property)
}

/// An entry whose key expands to an IRI, has no term definition, and whose value is
/// a string, number or boolean: its value becomes a plain value object under that IRI.
pub open spec fn simple_iri_entry(ctx: Context, k: Seq<char>, v: Json) -> bool {
    &&& iri_key(ctx, k) is Some
    &&& term_def(ctx, k) is None
    &&& (v is Str || v is Number || v is Bool)
}

/// The value under `x` in `e` is an array that holds `w`.
pub open spec fn holds_value(e: Seq<(Seq<char>, Json)>, x: Seq<char>, w: Json) -> bool {
    entries_get(e, x) matches Some(Json::Array(items)) && items.contains(w)
}

/// The value object that the string, number or boolean `v` of a key without a term
/// definition expands to.
pub open spec fn simple_value(ctx: Context, v: Json) -> Json {
    Json::Object(value_entries(ctx, None, v))
}

/// Adding a value as an array keeps what every array holds, and the array under the
/// key then holds the value where it is no array.
proof fn lemma_add_value_holds(e: Seq<(Seq<char>, Json)>, k: Seq<char>, v: Json, x: Seq<char>, w: Json)
    ensures
        holds_value(e, x, w) ==> holds_value(add_value_spec(e, k, v, true), x, w),
        !(v is Array) ==> holds_value(add_value_spec(e, k, v, true), k, v),
{
    crate::util::law_add_value_appends(e, k, v, x);
    crate::util::law_add_value_appends(e, k, v, k);
    let prior = crate::util::prior_items(entries_get(e, k));
    if !(v is Array) {
        assert(crate::util::flat(v) == seq![v]);
        assert((prior + crate::util::flat(v))[prior.len() as int] == v);
    }
    if holds_value(e, x, w) && x == k {
        let items = entries_get(e, x)->0->Array_0;
        assert(prior == items);
        let i = choose|i: int| 0 <= i < items.len() && items[i] == w;
        assert((prior + crate::util::flat(v))[i] == w);
    }
}

/// Every entry that `order` visits is dropped or a simple IRI entry.
pub open spec fn all_simple(ctx: Context, element: Seq<(String, JsonValue)>, order: Seq<usize>) -> bool {
    forall|q: int|
        0 <= q < order.len() ==> dropped_key(ctx, #[trigger] element[order[q] as int].0@) || simple_iri_entry(
            ctx,
            element[order[q] as int].0@,
            element[order[q] as int].1@,
        )
}

/// Every key of `e` holds a colon.
pub open spec fn iri_keys_only(e: Seq<(Seq<char>, Json)>) -> bool {
    forall|x: Seq<char>| #[trigger] has_key(e, x) ==> x.contains(':')
}

/// Adding a value under a key with a colon keeps every key with a colon.
proof fn lemma_add_value_iri_keys(e: Seq<(Seq<char>, Json)>, k: Seq<char>, v: Json)
    requires
        iri_keys_only(e),
        k.contains(':'),
    ensures
        iri_keys_only(add_value_spec(e, k, v, true)),
{
    let e1 = add_value_spec(e, k, v, true);
    crate::util::lemma_add_value_others(e, k, v, true);
    assert forall|x: Seq<char>| #[trigger] has_key(e1, x) implies x.contains(':') by {
        if x != k {
            crate::json::lemma_key_index(e1, x);
            crate::json::lemma_key_index(e, x);
            assert(entries_get(e1, x) == entries_get(e, x));
        }
    }
}

/// Every entry of `element` that `order` visits has a dropped key.
pub open spec fn all_dropped(ctx: Context, element: Seq<(String, JsonValue)>, order: Seq<usize>) -> bool {
    forall|q: int| 0 <= q < order.len() ==> dropped_key(ctx, #[trigger] element[order[q] as int].0@)
}

/// Expands the entries of an element, in the order `order`, into `result`.
#[verifier::loop_isolation(false)]
fn expand_object<L: DocumentLoader>(
    result: &mut Vec<(String, JsonValue)>,
    active_context: &Context,
    type_scoped_context: &Context,
    active_property: Option<&str>,
    element: Vec<(String, JsonValue)>,
    order: Vec<usize>,
    base_url: Option<&str>,
    input_type: &Option<String>,
    options: &mut JsonLdOptionsImpl<L>,
    frame: bool,
) -> (r: Result<(), JsonLdError>)
    requires
        forall|k: int| 0 <= k < order@.len() ==> (#[trigger] order@[k]) < element@.len(),
        forall|a: int, b: int| 0 <= a < b < order@.len() ==> order@[a] != order@[b],
        entries_expanded(obj_view(*old(result))),
    ensures
        final(options).inner == old(options).inner,
        r is Ok ==> entries_expanded(obj_view(*final(result))),
        all_dropped(*active_context, element@, order@) ==> r is Ok && *final(result) == *old(result),
        all_simple(*active_context, element@, order@) ==> r is Ok && (iri_keys_only(obj_view(*old(result)))
            ==> iri_keys_only(obj_view(*final(result)))),
        all_simple(*active_context, element@, order@) ==> forall|q: int|
            0 <= q < order@.len() && simple_iri_entry(
                *active_context,
                (#[trigger] element@[order@[q] as int]).0@,
                element@[order@[q] as int].1@,
            ) ==> holds_value(
                obj_view(*final(result)),
                iri_key(*active_context, element@[order@[q] as int].0@)->0,
                simple_value(*active_context, element@[order@[q] as int].1@),
            ),
        r is Ok ==> keeps_iri_keys(obj_view(*old(result)), obj_view(*final(result))),
        r is Ok ==> forall|q: int|
            0 <= q < order@.len() && adds_iri_key(
                *active_context,
                (#[trigger] element@[order@[q] as int]).0@,
                element@[order@[q] as int].1@,
            ) ==> has_key(obj_view(*final(result)), iri_key(*active_context, element@[order@[q] as int].0@)->0),
    decreases element, 0nat,
{
    let ghost el0 = element;
    let mut element = element;
    let mut nests: Vec<String> = Vec::new();
    let mut k: usize = 0;
    while k < order.len()
        invariant
            element@.len() == el0@.len(),
            forall|q: int| k <= q < order@.len() ==> element@[#[trigger] order@[q] as int] == el0@[order@[q] as int],
            options.inner == old(options).inner,
            entries_expanded(obj_view(*result)),
            all_dropped(*active_context, el0@, order@) ==> *result == *old(result),
            all_simple(*active_context, el0@, order@) && iri_keys_only(obj_view(*old(result))) ==> iri_keys_only(
                obj_view(*result),
            ),
            all_simple(*active_context, el0@, order@) ==> forall|q: int|
                0 <= q < k && simple_iri_entry(
                    *active_context,
                    (#[trigger] el0@[order@[q] as int]).0@,
                    el0@[order@[q] as int].1@,
                ) ==> holds_value(
                    obj_view(*result),
                    iri_key(*active_context, el0@[order@[q] as int].0@)->0,
                    simple_value(*active_context, el0@[order@[q] as int].1@),
                ),
            keeps_iri_keys(obj_view(*old(result)), obj_view(*result)),
            forall|q: int|
                0 <= q < k && adds_iri_key(
                    *active_context,
                    (#[trigger] el0@[order@[q] as int]).0@,
                    el0@[order@[q] as int].1@,
                ) ==> has_key(obj_view(*result), iri_key(*active_context, el0@[order@[q] as int].0@)->0),
        decreases order@.len() - k,
    {
        let j = order[k];
        let mut slot = (String::new(), JsonValue::Null);
        element.set_and_swap(j, &mut slot);
        proof {
            assert(slot == el0@[j as int]);
            assert(decreases_to!(el0 => el0@[j as int]));
            assert forall|q: int| k + 1 <= q < order@.len() implies element@[#[trigger] order@[q] as int] == el0@[order@[q] as int] by {
                assert(order@[q] != order@[k as int]);
            }
        }
        let ghost kq = k as int;
        let ghost entry = el0@[order@[k as int] as int];
        let (key, value) = slot;
        proof {
            assert(entry.0@ == key@ && entry.1@ == value@);
            if all_simple(*active_context, el0@, order@) {
                assert(dropped_key(*active_context, entry.0@) || simple_iri_entry(*active_context, entry.0@, entry.1@));
            }
            if all_dropped(*active_context, el0@, order@) {
                assert(dropped_key(*active_context, el0@[order@[k as int] as int].0@));
            }
        }
        k = k + 1;
        let expanded_property = match expand_iri(IRIExpansionArguments::Normal(active_context), key.as_str(), false, true)? {
            Some(p) => p,
            None => {
                continue ;
            },
        };
        let is_keyword_property = is_jsonld_keyword(expanded_property.as_str());
        if !(contains_char(expanded_property.as_str(), ':') || is_keyword_property) {
            continue ;
        }
        if is_keyword_property {
            expand_keyword(
                result,
                &mut nests,
                active_context,
                type_scoped_context,
                active_property,
                expanded_property,
                value,
                base_url,
                input_type,
                options,
                frame,
            )?;
            continue ;
        }
        let definition = get_term(active_context, key.as_str());
        let container: Option<Container> = match definition {
            Some(d) => Some(d.container_mapping),
            None => None,
        };
        let json_typed = match definition {
            Some(d) => opt_is(&d.type_mapping, "@json"),
            None => false,
        };
        let mut expanded_value = if json_typed {
            let mut o = singleton_object("@value", value);
            o.push((string_of("@type"), JsonValue::String(string_of("@json"))));
            JsonValue::Object(o)
        } else {
            match value {
                JsonValue::Object(o) => {
                    let language = match container {
                        Some(c) => is_language_container(c),
                        None => false,
                    };
                    let indexed = match container {
                        Some(c) => c.is_index() || is_type_container(c) || c.is_id(),
                        None => false,
                    };
                    if language {
                        let direction = match definition {
                            Some(d) => match d.direction_mapping {
                                Some(x) => Some(x),
                                None => active_context.default_base_direction,
                            },
                            None => active_context.default_base_direction,
                        };
                        let ord = if options.inner.ordered {
                            crate::json::sorted_order(&o, None)
                        } else {
                            crate::json::identity_order(&o, None)
                        };
                        JsonValue::Array(expand_language_map(active_context, o, ord, direction)?)
                    } else if indexed {
                        let c = match container {
                            Some(c) => c,
                            None => Container::List,
                        };
                        let map_context: &Context = if c.is_index() {
                            active_context
                        } else {
                            match &active_context.previous_context {
                                Some(p) => p,
                                None => active_context,
                            }
                        };
                        let index_key: &str = match definition {
                            Some(d) => match &d.index_mapping {
                                Some(i) => i.as_str(),
                                None => "@index",
                            },
                            None => "@index",
                        };
                        let as_graph = c.is_graph();
                        let property_index = !str_eq(index_key, "@index") && c.is_index();
                        let ord = if options.inner.ordered {
                            crate::json::sorted_order(&o, None)
                        } else {
                            crate::json::identity_order(&o, None)
                        };
                        JsonValue::Array(
                            expand_index_map(
                                map_context,
                                key.as_str(),
                                o,
                                ord,
                                index_key,
                                as_graph,
                                property_index,
                                base_url,
                                options,
                                frame,
                            )?,
                        )
                    } else {
                        expand_internal(
                            active_context,
                            Some(key.as_str()),
                            JsonValue::Object(o),
                            base_url,
                            options,
                            false,
                            frame,
                        )?
                    }
                },
                value => expand_internal(active_context, Some(key.as_str()), value, base_url, options, false, frame)?,
            }
        };
        if expanded_value.is_null() {
            continue ;
        }
        if let Some(c) = container {
            if is_list_container(c) {
                let is_list_object = match &expanded_value {
                    JsonValue::Object(o) => obj_contains(o, "@list"),
                    _ => false,
                };
                if !is_list_object {
                    let list = match expanded_value {
                        JsonValue::Array(a) => JsonValue::Array(a),
                        other => JsonValue::Array(crate::json::singleton_array(other)),
                    };
                    expanded_value = JsonValue::Object(singleton_object("@list", list));
                }
            }
            if c.is_graph() && !c.is_id() && !c.is_index() {
                expanded_value = match expanded_value {
                    JsonValue::Array(a) => {
                        let mut a = a;
                        let n = a.len();
                        let mut graphs: Vec<JsonValue> = Vec::new();
                        let mut i: usize = 0;
                        while i < n
                            invariant
                                n == a@.len(),
                            decreases n - i,
                        {
                            let mut ev = JsonValue::Null;
                            a.set_and_swap(i, &mut ev);
                            graphs.push(JsonValue::Object(singleton_object("@graph", JsonValue::Array(into_array(ev)))));
                            i = i + 1;
                        }
                        JsonValue::Array(graphs)
                    },
                    ev => JsonValue::Object(singleton_object("@graph", JsonValue::Array(into_array(ev)))),
                };
            }
        }
        let reverse = match definition {
            Some(d) => d.reverse_property,
            None => false,
        };
        if reverse {
            let ghost before_remove = obj_view(*result);
            let mut reverse_map = match crate::json::obj_remove(result, "@reverse") {
                Some(JsonValue::Object(m)) => m,
                Some(_) => {
                    return Err(JsonLdError::new(JsonLdErrorCode::InvalidReverseValue));
                },
                None => Vec::new(),
            };
            proof {
                lemma_special_keys();
                lemma_keyword_no_colon("@reverse"@);
                lemma_remove_keeps(before_remove, "@reverse"@);
                lemma_remove_keys(before_remove, "@reverse"@);
                crate::json::law_get_after_remove(before_remove, "@reverse"@, "@set"@);
                if reverse_map@.len() == 0 {
                    assert(obj_view(reverse_map) =~= Seq::<(Seq<char>, Json)>::empty());
                }
            }
            let mut items = into_array(expanded_value);
            let n = items.len();
            let mut i: usize = 0;
            while i < n
                invariant
                    n == items@.len(),
                    expanded_key(expanded_property@),
                    keys_expanded(obj_view(reverse_map)),
                decreases n - i,
            {
                let mut item = JsonValue::Null;
                items.set_and_swap(i, &mut item);
                let bad = match &item {
                    JsonValue::Object(o) => obj_contains(o, "@value") || obj_contains(o, "@list"),
                    _ => false,
                };
                if bad {
                    return Err(JsonLdError::new(JsonLdErrorCode::InvalidReversePropertyValue));
                }
                if !obj_contains(&reverse_map, expanded_property.as_str()) {
                    let ghost m0 = obj_view(reverse_map);
                    let empty: Vec<JsonValue> = Vec::new();
                    let ghost ev = JsonValue::Array(empty)@;
                    obj_insert(&mut reverse_map, expanded_property.clone(), JsonValue::Array(empty));
                    proof {
                        lemma_insert_keys(m0, expanded_property@, ev);
                    }
                }
                proof {
                    lemma_add_value_keys(obj_view(reverse_map), expanded_property@, item@);
                }
                add_value(&mut reverse_map, expanded_property.as_str(), item, true);
                i = i + 1;
            }
            proof {
                lemma_insert_reverse(obj_view(*result), obj_view(reverse_map));
                lemma_insert_keeps(obj_view(*result), "@reverse"@, Json::Object(obj_view(reverse_map)));
            }
            obj_insert(result, string_of("@reverse"), JsonValue::Object(reverse_map));
        } else {
            proof {
                lemma_add_value_expanded(obj_view(*result), expanded_property@, expanded_value@);
                lemma_add_value_keeps(obj_view(*result), expanded_property@, expanded_value@, true);
                if all_simple(*active_context, el0@, order@) && iri_keys_only(obj_view(*old(result))) {
                    lemma_add_value_iri_keys(obj_view(*result), expanded_property@, expanded_value@);
                }
                if all_simple(*active_context, el0@, order@) {
                    let e = obj_view(*result);
                    assert forall|q: int|
                        0 <= q < kq && simple_iri_entry(
                            *active_context,
                            (#[trigger] el0@[order@[q] as int]).0@,
                            el0@[order@[q] as int].1@,
                        ) implies holds_value(
                        add_value_spec(e, expanded_property@, expanded_value@, true),
                        iri_key(*active_context, el0@[order@[q] as int].0@)->0,
                        simple_value(*active_context, el0@[order@[q] as int].1@),
                    ) by {
                        lemma_add_value_holds(
                            e,
                            expanded_property@,
                            expanded_value@,
                            iri_key(*active_context, el0@[order@[q] as int].0@)->0,
                            simple_value(*active_context, el0@[order@[q] as int].1@),
                        );
                    }
                    if simple_iri_entry(*active_context, entry.0@, entry.1@) {
                        if key@ == "@graph"@ {
                            reveal_strlit("@graph");
                            assert(is_keyword(key@));
                        }
                        assert(expanded_value@ == simple_value(*active_context, entry.1@));
                        lemma_add_value_holds(e, expanded_property@, expanded_value@, expanded_property@, expanded_value@);
                    }
                }
            }
            add_value(result, expanded_property.as_str(), expanded_value, true);
        }
    }
    Ok(())
}

/// The value that an IRI expansion gives, or its error.
pub open spec fn iri_json(o: IriOutcome) -> Result<Json, ErrorSpec> {
    match o {
        IriOutcome::Iri(Some(i)) => Ok(Json::Str(i)),
        IriOutcome::Iri(None) => Ok(Json::Null),
        IriOutcome::BadBase(m) => Err(ErrorSpec::Caused(JsonLdErrorCode::InvalidBaseIRI, m)),
        IriOutcome::Cyclic => Err(ErrorSpec::Plain(JsonLdErrorCode::CyclicIRIMapping)),
    }
}

/// The entries after the items of an array of types, each a string, are expanded
/// against `ctx` and added under `@type` one by one; an item that is no string is an
/// invalid type value.
pub open spec fn add_types(e: Seq<(Seq<char>, Json)>, ctx: Context, items: Seq<Json>) -> Result<
    Seq<(Seq<char>, Json)>,
    ErrorSpec,
>
    decreases items.len(),
{
    if items.len() == 0 {
        Ok(e)
    } else {
        match add_types(e, ctx, items.drop_last()) {
            Err(x) => Err(x),
            Ok(e1) => match items.last() {
                Json::Str(t) => match iri_json(expand_iri_spec(IRIExpansionArguments::Normal(&ctx), t, true, true)) {
                    Err(x) => Err(x),
                    Ok(v) => Ok(add_value_spec(e1, "@type"@, v, false)),
                },
                _ => Err(ErrorSpec::Plain(JsonLdErrorCode::InvalidTypeValue)),
            },
        }
    }
}

/// The string items of an array of identifiers, each expanded against `ctx`; other
/// items are left out.
pub open spec fn expand_ids(ctx: Context, items: Seq<Json>) -> Result<Seq<Json>, ErrorSpec>
    decreases items.len(),
{
    if items.len() == 0 {
        Ok(Seq::empty())
    } else {
        match expand_ids(ctx, items.drop_last()) {
            Err(x) => Err(x),
            Ok(vs) => match items.last() {
                Json::Str(t) => match iri_json(expand_iri_spec(IRIExpansionArguments::Normal(&ctx), t, true, false)) {
                    Err(x) => Err(x),
                    Ok(v) => Ok(vs.push(v)),
                },
                _ => Ok(vs),
            },
        }
    }
}

/// The string items of an array of directions, where each is `ltr` or `rtl`; other
/// items are left out.
pub open spec fn direction_items(items: Seq<Json>) -> Option<Seq<Json>>
    decreases items.len(),
{
    if items.len() == 0 {
        Some(Seq::empty())
    } else {
        match direction_items(items.drop_last()) {
            None => None,
            Some(vs) => match items.last() {
                Json::Str(d) => if d == "ltr"@ || d == "rtl"@ {
                    Some(vs.push(Json::Str(d)))
                } else {
                    None
                },
                _ => Some(vs),
            },
        }
    }
}

pub open spec fn all_strings(items: Seq<Json>) -> bool {
    forall|i: int| 0 <= i < items.len() ==> #[trigger] items[i] is Str
}

proof fn lemma_add_types_error_stays(e: Seq<(Seq<char>, Json)>, ctx: Context, items: Seq<Json>, n: int)
    requires
        0 <= n <= items.len(),
        add_types(e, ctx, items.take(n)) is Err,
    ensures
        add_types(e, ctx, items) == add_types(e, ctx, items.take(n)),
    decreases items.len() - n,
{
    if n == items.len() {
        assert(items.take(n) =~= items);
    } else {
        assert(items.take(n + 1).drop_last() =~= items.take(n));
        lemma_add_types_error_stays(e, ctx, items, n + 1);
    }
}

proof fn lemma_expand_ids_error_stays(ctx: Context, items: Seq<Json>, n: int)
    requires
        0 <= n <= items.len(),
        expand_ids(ctx, items.take(n)) is Err,
    ensures
        expand_ids(ctx, items) == expand_ids(ctx, items.take(n)),
    decreases items.len() - n,
{
    if n == items.len() {
        assert(items.take(n) =~= items);
    } else {
        assert(items.take(n + 1).drop_last() =~= items.take(n));
        lemma_expand_ids_error_stays(ctx, items, n + 1);
    }
}

proof fn lemma_direction_items_none_stays(items: Seq<Json>, n: int)
    requires
        0 <= n <= items.len(),
        direction_items(items.take(n)) is None,
    ensures
        direction_items(items) is None,
    decreases items.len() - n,
{
    if n == items.len() {
        assert(items.take(n) =~= items);
    } else {
        assert(items.take(n + 1).drop_last() =~= items.take(n));
        lemma_direction_items_none_stays(items, n + 1);
    }
}

/// The items of an array where they are all strings; else the error `code`.
fn string_items(items: &Vec<JsonValue>, code: JsonLdErrorCode) -> (r: Result<Vec<JsonValue>, JsonLdError>)
    ensures
        all_strings(crate::json::view_array(items@)) ==> (r matches Ok(v) && crate::json::view_array(v@)
            == crate::json::view_array(items@)),
        !all_strings(crate::json::view_array(items@)) ==> (r matches Err(e) && plain_error(e, code)),
{
    let ghost iv = crate::json::view_array(items@);
    let mut r: Vec<JsonValue> = Vec::new();
    let mut i: usize = 0;
    while i < items.len()
        invariant
            i <= items@.len(),
            iv == crate::json::view_array(items@),
            crate::json::view_array(r@) == iv.take(i as int),
            forall|j: int| 0 <= j < i ==> #[trigger] iv[j] is Str,
        decreases items@.len() - i,
    {
        match &items[i] {
            JsonValue::String(s) => {
                let ghost rs = r@;
                r.push(JsonValue::String(s.clone()));
                proof {
                    assert(r@.drop_last() =~= rs);
                    assert(iv.take(i + 1) =~= iv.take(i as int).push(iv[i as int]));
                }
            },
            _ => {
                assert(!(iv[i as int] is Str));
                return Err(JsonLdError::new(code));
            },
        }
        i = i + 1;
    }
    assert(iv.take(items@.len() as int) =~= iv);
    Ok(r)
}

fn iri_or_null(i: Option<String>) -> (r: JsonValue)
    ensures
        r@ == match i {
            Some(s) => Json::Str(s@),
            None => Json::Null,
        },
{
    match i {
        Some(s) => JsonValue::String(s),
        None => JsonValue::Null,
    }
}

/// Adds the types of an array under `@type`.
fn expand_type_items(result: &mut Vec<(String, JsonValue)>, type_scoped_context: &Context, items: &Vec<JsonValue>) -> (r:
    Result<(), JsonLdError>)
    ensures
        match add_types(obj_view(*old(result)), *type_scoped_context, crate::json::view_array(items@)) {
            Ok(e1) => r is Ok && obj_view(*final(result)) == e1,
            Err(x) => r matches Err(err) && error_is(err, x),
        },
{
    let ghost e0 = obj_view(*result);
    let ghost iv = crate::json::view_array(items@);
    let mut i: usize = 0;
    while i < items.len()
        invariant
            i <= items@.len(),
            iv == crate::json::view_array(items@),
            e0 == obj_view(*old(result)),
            add_types(e0, *type_scoped_context, iv.take(i as int)) == Ok::<Seq<(Seq<char>, Json)>, ErrorSpec>(
                obj_view(*result),
            ),
        decreases items@.len() - i,
    {
        proof {
            assert(iv.take(i + 1).drop_last() =~= iv.take(i as int));
            assert(iv.take(i + 1).last() == iv[i as int]);
        }
        if let JsonValue::String(iri) = &items[i] {
            let v = match expand_iri(IRIExpansionArguments::Normal(type_scoped_context), iri.as_str(), true, true) {
                Ok(x) => iri_or_null(x),
                Err(err) => {
                    proof {
                        lemma_add_types_error_stays(e0, *type_scoped_context, iv, i + 1);
                    }
                    return Err(err);
                },
            };
            add_value(result, "@type", v, false);
        } else {
            proof {
                lemma_add_types_error_stays(e0, *type_scoped_context, iv, i + 1);
            }
            return Err(JsonLdError::new(JsonLdErrorCode::InvalidTypeValue));
        }
        i = i + 1;
    }
    assert(iv.take(items@.len() as int) =~= iv);
    Ok(())
}

/// The string items of an array of identifiers, expanded.
fn expand_id_items(active_context: &Context, items: &Vec<JsonValue>) -> (r: Result<Vec<JsonValue>, JsonLdError>)
    ensures
        match expand_ids(*active_context, crate::json::view_array(items@)) {
            Ok(vs) => r matches Ok(v) && crate::json::view_array(v@) == vs,
            Err(x) => r matches Err(err) && error_is(err, x),
        },
{
    let ghost iv = crate::json::view_array(items@);
    let mut r: Vec<JsonValue> = Vec::new();
    assert(crate::json::view_array(r@) =~= Seq::<Json>::empty());
    let mut i: usize = 0;
    while i < items.len()
        invariant
            i <= items@.len(),
            iv == crate::json::view_array(items@),
            expand_ids(*active_context, iv.take(i as int)) == Ok::<Seq<Json>, ErrorSpec>(crate::json::view_array(r@)),
        decreases items@.len() - i,
    {
        proof {
            assert(iv.take(i + 1).drop_last() =~= iv.take(i as int));
            assert(iv.take(i + 1).last() == iv[i as int]);
        }
        if let JsonValue::String(iri) = &items[i] {
            let v = match expand_iri(IRIExpansionArguments::Normal(active_context), iri.as_str(), true, false) {
                Ok(x) => iri_or_null(x),
                Err(err) => {
                    proof {
                        lemma_expand_ids_error_stays(*active_context, iv, i + 1);
                    }
                    return Err(err);
                },
            };
            let ghost rs = r@;
            r.push(v);
            proof {
                assert(r@.drop_last() =~= rs);
            }
        }
        i = i + 1;
    }
    assert(iv.take(items@.len() as int) =~= iv);
    Ok(r)
}

/// The string items of an array of directions, each `ltr` or `rtl`.
fn direction_item_values(items: &Vec<JsonValue>) -> (r: Result<Vec<JsonValue>, JsonLdError>)
    ensures
        match direction_items(crate::json::view_array(items@)) {
            Some(vs) => r matches Ok(v) && crate::json::view_array(v@) == vs,
            None => r matches Err(e) && plain_error(e, JsonLdErrorCode::InvalidBaseDirection),
        },
{
    let ghost iv = crate::json::view_array(items@);
    let mut r: Vec<JsonValue> = Vec::new();
    assert(crate::json::view_array(r@) =~= Seq::<Json>::empty());
    let mut i: usize = 0;
    while i < items.len()
        invariant
            i <= items@.len(),
            iv == crate::json::view_array(items@),
            direction_items(iv.take(i as int)) == Some(crate::json::view_array(r@)),
        decreases items@.len() - i,
    {
        proof {
            assert(iv.take(i + 1).drop_last() =~= iv.take(i as int));
            assert(iv.take(i + 1).last() == iv[i as int]);
        }
        if let JsonValue::String(d) = &items[i] {
            if !str_eq(d.as_str(), "ltr") && !str_eq(d.as_str(), "rtl") {
                proof {
                    lemma_direction_items_none_stays(iv, i + 1);
                }
                return Err(JsonLdError::new(JsonLdErrorCode::InvalidBaseDirection));
            }
            let ghost rs = r@;
            r.push(JsonValue::String(d.clone()));
            proof {
                assert(r@.drop_last() =~= rs);
            }
        }
        i = i + 1;
    }
    assert(iv.take(items@.len() as int) =~= iv);
    Ok(r)
}

/// A key of an expanded object: a keyword, or an IRI (which holds a colon).
pub open spec fn expanded_key(k: Seq<char>) -> bool {
    is_keyword(k) || k.contains(':')
}

/// Every key of `e` is a key of an expanded object.
pub open spec fn keys_expanded(e: Seq<(Seq<char>, Json)>) -> bool {
    forall|x: Seq<char>| #[trigger] has_key(e, x) ==> expanded_key(x)
}

/// The keys of `e` are expanded, and so are those of its `@reverse` map.
pub open spec fn node_expanded(e: Seq<(Seq<char>, Json)>) -> bool {
    &&& keys_expanded(e)
    &&& match entries_get(e, "@reverse"@) {
        Some(Json::Object(m)) => keys_expanded(m),
        _ => true,
    }
}

/// What an object under construction by the Expansion algorithm keeps: its keys, and
/// those of its `@reverse` map and of an object under `@set`, are expanded.
pub open spec fn entries_expanded(e: Seq<(Seq<char>, Json)>) -> bool {
    &&& node_expanded(e)
    &&& match entries_get(e, "@set"@) {
        Some(Json::Object(s)) => node_expanded(s),
        _ => true,
    }
}

/// A value that expansion gives: where it is an object, its keys and those of its
/// `@reverse` map are keywords or IRIs.
pub open spec fn value_expanded(v: Json) -> bool {
    match v {
        Json::Object(e) => node_expanded(e),
        _ => true,
    }
}

/// An entries list whose keys and entries agree with `e` but under `k` has expanded
/// keys where `e` has and `k` is expanded.
proof fn lemma_keys_frame(e: Seq<(Seq<char>, Json)>, e1: Seq<(Seq<char>, Json)>, k: Seq<char>)
    requires
        keys_expanded(e),
        expanded_key(k),
        forall|x: Seq<char>| x != k ==> #[trigger] entries_get(e1, x) == entries_get(e, x),
    ensures
        keys_expanded(e1),
{
    assert forall|x: Seq<char>| #[trigger] has_key(e1, x) implies expanded_key(x) by {
        if x != k {
            crate::json::lemma_key_index(e1, x);
            crate::json::lemma_key_index(e, x);
            assert(entries_get(e1, x) == entries_get(e, x));
        }
    }
}

/// The special keys of expanded objects, told apart.
proof fn lemma_special_keys()
    ensures
        "@reverse"@ != "@set"@,
        "@reverse"@ != "@type"@ && "@set"@ != "@type"@,
        "@reverse"@ != "@id"@ && "@set"@ != "@id"@,
        "@reverse"@ != "@value"@ && "@set"@ != "@value"@,
        "@reverse"@ != "@language"@ && "@set"@ != "@language"@,
        "@reverse"@ != "@direction"@ && "@set"@ != "@direction"@,
        "@reverse"@ != "@index"@ && "@set"@ != "@index"@,
        "@reverse"@ != "@list"@ && "@set"@ != "@list"@,
        "@reverse"@ != "@graph"@ && "@set"@ != "@graph"@,
        "@reverse"@ != "@included"@ && "@set"@ != "@included"@,
        !"@reverse"@.contains(':') && !"@set"@.contains(':'),
{
    reveal_strlit("@reverse");
    reveal_strlit("@set");
    reveal_strlit("@type");
    reveal_strlit("@id");
    reveal_strlit("@value");
    reveal_strlit("@language");
    reveal_strlit("@direction");
    reveal_strlit("@index");
    reveal_strlit("@list");
    reveal_strlit("@graph");
    reveal_strlit("@included");
    assert("@reverse"@.len() == 8 && "@set"@.len() == 4 && "@type"@.len() == 5 && "@id"@.len() == 3);
    assert("@value"@.len() == 6 && "@language"@.len() == 9 && "@direction"@.len() == 10);
    assert("@index"@.len() == 6 && "@list"@.len() == 5 && "@graph"@.len() == 6 && "@included"@.len() == 9);
    assert("@set"@[1] != "@list"@[1] && "@set"@[1] != "@type"@[1]);
    assert(!"@reverse"@.contains(':')) by {
        assert forall|i: int| 0 <= i < "@reverse"@.len() implies "@reverse"@[i] != ':' by {}
    }
    assert(!"@set"@.contains(':')) by {
        assert forall|i: int| 0 <= i < "@set"@.len() implies "@set"@[i] != ':' by {}
    }
}

/// Changing only the entry under an expanded key other than `@reverse` and `@set`
/// keeps an object under construction expanded.
proof fn lemma_expanded_frame(e: Seq<(Seq<char>, Json)>, e1: Seq<(Seq<char>, Json)>, k: Seq<char>)
    requires
        entries_expanded(e),
        expanded_key(k),
        k != "@reverse"@,
        k != "@set"@,
        forall|x: Seq<char>| x != k ==> #[trigger] entries_get(e1, x) == entries_get(e, x),
    ensures
        entries_expanded(e1),
{
    lemma_keys_frame(e, e1, k);
    assert(entries_get(e1, "@reverse"@) == entries_get(e, "@reverse"@));
    assert(entries_get(e1, "@set"@) == entries_get(e, "@set"@));
}

/// Setting an expanded key keeps an object under construction expanded, where a
/// `@reverse` map or a `@set` object that it sets is itself expanded.
proof fn lemma_insert_expanded(e: Seq<(Seq<char>, Json)>, k: Seq<char>, v: Json)
    requires
        entries_expanded(e),
        expanded_key(k),
        k == "@reverse"@ ==> (match v {
            Json::Object(m) => keys_expanded(m),
            _ => true,
        }),
        k == "@set"@ ==> value_expanded(v),
    ensures
        entries_expanded(entries_insert(e, k, v)),
{
    let e1 = entries_insert(e, k, v);
    lemma_special_keys();
    assert forall|x: Seq<char>| x != k implies #[trigger] entries_get(e1, x) == entries_get(e, x) by {
        crate::json::law_get_after_insert(e, k, v, x);
    }
    crate::json::law_get_after_insert(e, k, v, k);
    lemma_keys_frame(e, e1, k);
}

/// Adding a value under an expanded key as an array keeps an object under
/// construction expanded.
proof fn lemma_add_value_expanded(e: Seq<(Seq<char>, Json)>, k: Seq<char>, v: Json)
    requires
        entries_expanded(e),
        expanded_key(k),
    ensures
        entries_expanded(add_value_spec(e, k, v, true)),
{
    let e1 = add_value_spec(e, k, v, true);
    lemma_special_keys();
    crate::util::lemma_add_value_others(e, k, v, true);
    crate::util::law_add_value_appends(e, k, v, k);
    lemma_keys_frame(e, e1, k);
}

/// Adding a value under `@type` keeps an object under construction expanded.
proof fn lemma_add_type_expanded(e: Seq<(Seq<char>, Json)>, v: Json)
    requires
        entries_expanded(e),
    ensures
        entries_expanded(add_value_spec(e, "@type"@, v, false)),
{
    lemma_special_keys();
    crate::util::lemma_add_value_others(e, "@type"@, v, false);
    lemma_expanded_frame(e, add_value_spec(e, "@type"@, v, false), "@type"@);
}

/// Adding types one by one keeps an object under construction expanded.
proof fn lemma_add_types_expanded(e: Seq<(Seq<char>, Json)>, ctx: Context, items: Seq<Json>)
    requires
        entries_expanded(e),
    ensures
        add_types(e, ctx, items) matches Ok(e1) ==> entries_expanded(e1),
    decreases items.len(),
{
    if items.len() > 0 {
        lemma_add_types_expanded(e, ctx, items.drop_last());
        if let Ok(e1) = add_types(e, ctx, items.drop_last()) {
            if let Json::Str(t) = items.last() {
                if let Ok(v) = iri_json(expand_iri_spec(IRIExpansionArguments::Normal(&ctx), t, true, true)) {
                    lemma_add_type_expanded(e1, v);
                }
            }
        }
    }
}

/// The entries that an entry of a keyword sets (where they are stated) keep an
/// object under construction expanded.
proof fn lemma_keyword_spec_expanded(
    e: Seq<(Seq<char>, Json)>,
    ctx: Context,
    tsc: Context,
    ap: Option<Seq<char>>,
    key: Seq<char>,
    value: Json,
    input_type: Option<Seq<char>>,
    one_zero: bool,
    frame: bool,
)
    requires
        entries_expanded(e),
        is_keyword(key),
    ensures
        match keyword_spec(e, ctx, tsc, ap, key, value, input_type, one_zero, frame) {
            Some(Ok(e1)) => entries_expanded(e1),
            _ => true,
        },
{
    lemma_special_keys();
    if key == "@type"@ {
        match value {
            Json::Str(t) => {
                if let Ok(v) = iri_json(expand_iri_spec(IRIExpansionArguments::Normal(&tsc), t, true, true)) {
                    lemma_add_type_expanded(e, v);
                }
            },
            Json::Array(items) => {
                lemma_add_types_expanded(e, tsc, items);
            },
            _ => {},
        }
    }
    if key != "@reverse"@ && key != "@set"@ {
        assert forall|v: Json| #[trigger] entries_insert(e, key, v) == entries_insert(e, key, v) implies entries_expanded(
            entries_insert(e, key, v),
        ) by {
            lemma_insert_expanded(e, key, v);
        }
    }
}

/// What the end of expansion makes of an object under construction is an expanded
/// value.
proof fn lemma_finish_expanded(e: Seq<(Seq<char>, Json)>, top: bool, frame: bool)
    requires
        entries_expanded(e),
    ensures
        finish_spec(e, top, frame) matches Ok(v) ==> value_expanded(v),
{
    lemma_special_keys();
    if entries_get(e, "@type"@) is Some {
        lemma_insert_expanded(e, "@type"@, Json::Array(seq![entries_get(e, "@type"@)->0]));
    }
}

/// The object that value expansion gives has keyword keys and no `@reverse` map.
proof fn lemma_value_outcome_expanded(ctx: Context, def: Option<TermDefinition>, v: Json)
    ensures
        value_outcome(ctx, def, v) matches Ok(e) ==> node_expanded(e),
        value_outcome(ctx, def, v) matches Ok(e) ==> has_key(e, "@value"@) || has_key(e, "@id"@),
{
    lemma_special_keys();
    if let Ok(e) = value_outcome(ctx, def, v) {
        if e.len() > 0 && e[e.len() - 1].0 == "@value"@ {
            assert(has_key(e, "@value"@));
        } else {
            assert(e[0].0 == "@id"@);
            assert(has_key(e, "@id"@));
        }
        assert forall|x: Seq<char>| #[trigger] has_key(e, x) implies expanded_key(x) by {
            let j = choose|j: int| 0 <= j < e.len() && (#[trigger] e[j]).0 == x;
            assert(x == "@id"@ || x == "@type"@ || x == "@language"@ || x == "@direction"@ || x == "@value"@);
        }
        crate::json::lemma_key_index(e, "@reverse"@);
        assert forall|j: int| 0 <= j < e.len() implies (#[trigger] e[j]).0 != "@reverse"@ by {
            assert(e[j].0 == "@id"@ || e[j].0 == "@type"@ || e[j].0 == "@language"@ || e[j].0 == "@direction"@
                || e[j].0 == "@value"@);
        }
    }
}

/// Removing an entry keeps the keys expanded.
proof fn lemma_remove_keys(e: Seq<(Seq<char>, Json)>, k: Seq<char>)
    requires
        keys_expanded(e),
    ensures
        keys_expanded(entries_remove(e, k)),
{
    let e1 = entries_remove(e, k);
    assert forall|x: Seq<char>| #[trigger] has_key(e1, x) implies expanded_key(x) by {
        let j = choose|j: int| 0 <= j < e1.len() && (#[trigger] e1[j]).0 == x;
        crate::json::lemma_key_index(e, k);
        if crate::json::key_index(e, k) >= 0 {
            let p = crate::json::key_index(e, k);
            if j < p {
                assert(e1[j] == e[j]);
                assert(has_key(e, x));
            } else {
                assert(e1[j] == e[j + 1]);
                assert(has_key(e, x));
            }
        } else {
            assert(has_key(e, x));
        }
    }
}

/// Adding a value under an expanded key as an array keeps the keys expanded.
proof fn lemma_add_value_keys(e: Seq<(Seq<char>, Json)>, k: Seq<char>, v: Json)
    requires
        keys_expanded(e),
        expanded_key(k),
    ensures
        keys_expanded(add_value_spec(e, k, v, true)),
{
    crate::util::lemma_add_value_others(e, k, v, true);
    lemma_keys_frame(e, add_value_spec(e, k, v, true), k);
}

/// Setting an expanded key keeps the keys expanded.
proof fn lemma_insert_keys(e: Seq<(Seq<char>, Json)>, k: Seq<char>, v: Json)
    requires
        keys_expanded(e),
        expanded_key(k),
    ensures
        keys_expanded(entries_insert(e, k, v)),
{
    assert forall|x: Seq<char>| x != k implies #[trigger] entries_get(entries_insert(e, k, v), x) == entries_get(e, x) by {
        crate::json::law_get_after_insert(e, k, v, x);
    }
    lemma_keys_frame(e, entries_insert(e, k, v), k);
}

/// Setting the `@reverse` map of an object with expanded keys (and `@set` object) to
/// a map with expanded keys gives an expanded object under construction.
proof fn lemma_insert_reverse(e: Seq<(Seq<char>, Json)>, m: Seq<(Seq<char>, Json)>)
    requires
        keys_expanded(e),
        match entries_get(e, "@set"@) {
            Some(Json::Object(s)) => node_expanded(s),
            _ => true,
        },
        keys_expanded(m),
    ensures
        entries_expanded(entries_insert(e, "@reverse"@, Json::Object(m))),
{
    let e1 = entries_insert(e, "@reverse"@, Json::Object(m));
    lemma_special_keys();
    assert forall|x: Seq<char>| x != "@reverse"@ implies #[trigger] entries_get(e1, x) == entries_get(e, x) by {
        crate::json::law_get_after_insert(e, "@reverse"@, Json::Object(m), x);
    }
    crate::json::law_get_after_insert(e, "@reverse"@, Json::Object(m), "@reverse"@);
    assert(is_keyword("@reverse"@));
    lemma_keys_frame(e, e1, "@reverse"@);
}

/// The key of an entry of an object is a key of its view.
proof fn lemma_entry_key(o: Seq<(String, JsonValue)>, i: int)
    requires
        0 <= i < o.len(),
    ensures
        has_key(crate::json::view_entries(o), o[i].0@),
{
    crate::json::lemma_view_entries(o);
    assert(crate::json::view_entries(o)[i].0 == o[i].0@);
}

/// Every IRI key of `e0` is still a key of `e1`.
pub open spec fn keeps_iri_keys(e0: Seq<(Seq<char>, Json)>, e1: Seq<(Seq<char>, Json)>) -> bool {
    forall|x: Seq<char>| x.contains(':') && #[trigger] has_key(e0, x) ==> has_key(e1, x)
}

/// A keyword holds no colon.
proof fn lemma_keyword_no_colon(k: Seq<char>)
    requires
        is_keyword(k),
    ensures
        !k.contains(':'),
{
    lemma_keyword_has_form(k);
    assert forall|i: int| 0 <= i < k.len() implies k[i] != ':' by {
        if i > 0 {
            assert(crate::util::is_ascii_alpha(k[i]));
        }
    }
}

/// Changing only the entry under `k`, and keeping `k` where it holds a colon, keeps
/// the IRI keys.
proof fn lemma_keeps_frame(e: Seq<(Seq<char>, Json)>, e1: Seq<(Seq<char>, Json)>, k: Seq<char>)
    requires
        k.contains(':') ==> has_key(e1, k),
        forall|x: Seq<char>| x != k ==> #[trigger] entries_get(e1, x) == entries_get(e, x),
    ensures
        keeps_iri_keys(e, e1),
{
    assert forall|x: Seq<char>| x.contains(':') && #[trigger] has_key(e, x) implies has_key(e1, x) by {
        if x != k {
            crate::json::lemma_key_index(e1, x);
            crate::json::lemma_key_index(e, x);
            assert(entries_get(e1, x) == entries_get(e, x));
        }
    }
}

/// Setting a key keeps the IRI keys.
proof fn lemma_insert_keeps(e: Seq<(Seq<char>, Json)>, k: Seq<char>, v: Json)
    ensures
        keeps_iri_keys(e, entries_insert(e, k, v)),
        has_key(entries_insert(e, k, v), k),
{
    assert forall|x: Seq<char>| x != k implies #[trigger] entries_get(entries_insert(e, k, v), x) == entries_get(e, x) by {
        crate::json::law_get_after_insert(e, k, v, x);
    }
    crate::json::law_get_after_insert(e, k, v, k);
    crate::json::lemma_key_index(entries_insert(e, k, v), k);
    lemma_keeps_frame(e, entries_insert(e, k, v), k);
}

/// Adding a value keeps the IRI keys, and the key it is added under.
proof fn lemma_add_value_keeps(e: Seq<(Seq<char>, Json)>, k: Seq<char>, v: Json, as_array: bool)
    requires
        !k.contains(':') || as_array,
    ensures
        keeps_iri_keys(e, add_value_spec(e, k, v, as_array)),
        as_array ==> has_key(add_value_spec(e, k, v, as_array), k),
{
    crate::util::lemma_add_value_others(e, k, v, as_array);
    if as_array {
        crate::util::law_add_value_appends(e, k, v, k);
        crate::json::lemma_key_index(add_value_spec(e, k, v, as_array), k);
    }
    lemma_keeps_frame(e, add_value_spec(e, k, v, as_array), k);
}

/// Removing the entry under a key without a colon keeps the IRI keys.
proof fn lemma_remove_keeps(e: Seq<(Seq<char>, Json)>, k: Seq<char>)
    requires
        !k.contains(':'),
    ensures
        keeps_iri_keys(e, entries_remove(e, k)),
{
    assert forall|x: Seq<char>| x != k implies #[trigger] entries_get(entries_remove(e, k), x) == entries_get(e, x) by {
        crate::json::law_get_after_remove(e, k, x);
    }
    lemma_keeps_frame(e, entries_remove(e, k), k);
}

/// Adding types keeps the IRI keys.
proof fn lemma_add_types_keeps(e: Seq<(Seq<char>, Json)>, ctx: Context, items: Seq<Json>)
    ensures
        add_types(e, ctx, items) matches Ok(e1) ==> keeps_iri_keys(e, e1),
    decreases items.len(),
{
    if items.len() > 0 {
        lemma_add_types_keeps(e, ctx, items.drop_last());
        if let Ok(e1) = add_types(e, ctx, items.drop_last()) {
            if let Json::Str(t) = items.last() {
                if let Ok(v) = iri_json(expand_iri_spec(IRIExpansionArguments::Normal(&ctx), t, true, true)) {
                    lemma_keyword_no_colon("@type"@);
                    lemma_add_value_keeps(e1, "@type"@, v, false);
                }
            }
        }
    }
}

/// Adding types fails only on an IRI that cannot be resolved, a cyclic definition or
/// an item that is no string.
proof fn lemma_add_types_errors(e: Seq<(Seq<char>, Json)>, ctx: Context, items: Seq<Json>)
    ensures
        match add_types(e, ctx, items) {
            Err(ErrorSpec::Plain(c)) => c == JsonLdErrorCode::CyclicIRIMapping || c
                == JsonLdErrorCode::InvalidTypeValue,
            _ => true,
        },
    decreases items.len(),
{
    if items.len() > 0 {
        lemma_add_types_errors(e, ctx, items.drop_last());
    }
}

/// The entries that an entry of a keyword sets (where they are stated) keep the IRI
/// keys.
proof fn lemma_keyword_spec_keeps(
    e: Seq<(Seq<char>, Json)>,
    ctx: Context,
    tsc: Context,
    ap: Option<Seq<char>>,
    key: Seq<char>,
    value: Json,
    input_type: Option<Seq<char>>,
    one_zero: bool,
    frame: bool,
)
    requires
        is_keyword(key),
    ensures
        match keyword_spec(e, ctx, tsc, ap, key, value, input_type, one_zero, frame) {
            Some(Ok(e1)) => keeps_iri_keys(e, e1),
            _ => true,
        },
{
    lemma_keyword_no_colon(key);
    if key == "@type"@ {
        match value {
            Json::Str(t) => {
                if let Ok(v) = iri_json(expand_iri_spec(IRIExpansionArguments::Normal(&tsc), t, true, true)) {
                    lemma_add_value_keeps(e, "@type"@, v, false);
                }
            },
            Json::Array(items) => {
                lemma_add_types_keeps(e, tsc, items);
            },
            _ => {},
        }
    }
    assert forall|v: Json| #[trigger] entries_insert(e, key, v) == entries_insert(e, key, v) implies keeps_iri_keys(
        e,
        entries_insert(e, key, v),
    ) by {
        lemma_insert_keeps(e, key, v);
    }
}

/// What an entry whose key expands to the keyword `key` makes of the expanded entries
/// `e`: the new entries or the error; nothing is stated for the keywords whose values
/// are expanded in turn (`@included`, `@graph`, `@list` below a property, `@set`, and
/// an object under `@reverse`). `ctx` is the active context, `tsc` the type-scoped
/// context and `ap` the active property.
pub open spec fn keyword_spec(
    e: Seq<(Seq<char>, Json)>,
    ctx: Context,
    tsc: Context,
    ap: Option<Seq<char>>,
    key: Seq<char>,
    value: Json,
    input_type: Option<Seq<char>>,
    one_zero: bool,
    frame: bool,
) -> Option<Result<Seq<(Seq<char>, Json)>, ErrorSpec>> {
    let plain = |c: JsonLdErrorCode| Err::<Seq<(Seq<char>, Json)>, ErrorSpec>(ErrorSpec::Plain(c));
    let set_to = |v: Json| Ok::<Seq<(Seq<char>, Json)>, ErrorSpec>(entries_insert(e, key, v));
    if ap == Some("@reverse"@) {
        Some(plain(JsonLdErrorCode::InvalidReversePropertyMap))
    } else if key == "@type"@ {
        if one_zero && has_key(e, "@type"@) {
            Some(plain(JsonLdErrorCode::CollidingKeywords))
        } else {
            Some(
                match value {
                    Json::Str(t) => match iri_json(expand_iri_spec(IRIExpansionArguments::Normal(&tsc), t, true, true)) {
                        Err(x) => Err(x),
                        Ok(v) => Ok(add_value_spec(e, "@type"@, v, false)),
                    },
                    Json::Array(items) => add_types(e, tsc, items),
                    Json::Object(o) => if !frame {
                        plain(JsonLdErrorCode::InvalidTypeValue)
                    } else if o.len() == 0 {
                        set_to(value)
                    } else {
                        match entries_get(o, "@default"@) {
                            Some(Json::Str(d)) => match iri_json(
                                expand_iri_spec(IRIExpansionArguments::Normal(&tsc), d, true, true),
                            ) {
                                Err(x) => Err(x),
                                Ok(v) => set_to(Json::Object(seq![("@default"@, v)])),
                            },
                            _ => plain(JsonLdErrorCode::InvalidTypeValue),
                        }
                    },
                    _ => plain(JsonLdErrorCode::InvalidTypeValue),
                },
            )
        }
    } else if key == "@included"@ && !one_zero {
        None
    } else if has_key(e, key) {
        Some(plain(JsonLdErrorCode::CollidingKeywords))
    } else if key == "@id"@ {
        Some(
            match value {
                Json::Str(t) => match iri_json(expand_iri_spec(IRIExpansionArguments::Normal(&ctx), t, true, false)) {
                    Err(x) => Err(x),
                    Ok(v) => set_to(v),
                },
                Json::Array(items) => if frame {
                    match expand_ids(ctx, items) {
                        Err(x) => Err(x),
                        Ok(vs) => set_to(Json::Array(vs)),
                    }
                } else {
                    plain(JsonLdErrorCode::InvalidIdValue)
                },
                Json::Object(o) => if frame && o.len() == 0 {
                    set_to(value)
                } else {
                    plain(JsonLdErrorCode::InvalidIdValue)
                },
                _ => plain(JsonLdErrorCode::InvalidIdValue),
            },
        )
    } else if key == "@graph"@ {
        None
    } else if key == "@value"@ {
        Some(
            if input_type == Some("@json"@) {
                if one_zero {
                    plain(JsonLdErrorCode::InvalidValueObjectValue)
                } else {
                    set_to(value)
                }
            } else {
                match value {
                    Json::Array(items) => if frame && all_strings(items) {
                        set_to(value)
                    } else {
                        plain(JsonLdErrorCode::InvalidValueObjectValue)
                    },
                    Json::Object(o) => if frame && o.len() == 0 {
                        set_to(value)
                    } else {
                        plain(JsonLdErrorCode::InvalidValueObjectValue)
                    },
                    _ => set_to(value),
                }
            },
        )
    } else if key == "@language"@ {
        Some(
            match value {
                Json::Str(_) => set_to(value),
                Json::Array(items) => if frame && all_strings(items) {
                    set_to(value)
                } else {
                    plain(JsonLdErrorCode::InvalidLanguageTaggedString)
                },
                Json::Object(o) => if frame && o.len() == 0 {
                    set_to(value)
                } else {
                    plain(JsonLdErrorCode::InvalidLanguageTaggedString)
                },
                _ => plain(JsonLdErrorCode::InvalidLanguageTaggedString),
            },
        )
    } else if key == "@direction"@ {
        Some(
            match value {
                Json::Str(d) => if d == "ltr"@ || d == "rtl"@ {
                    set_to(value)
                } else {
                    plain(JsonLdErrorCode::InvalidBaseDirection)
                },
                Json::Array(items) => if frame {
                    match direction_items(items) {
                        Some(vs) => set_to(Json::Array(vs)),
                        None => plain(JsonLdErrorCode::InvalidBaseDirection),
                    }
                } else {
                    plain(JsonLdErrorCode::InvalidBaseDirection)
                },
                Json::Object(o) => if frame && o.len() == 0 {
                    set_to(value)
                } else {
                    plain(JsonLdErrorCode::InvalidBaseDirection)
                },
                _ => plain(JsonLdErrorCode::InvalidBaseDirection),
            },
        )
    } else if key == "@index"@ {
        Some(
            match value {
                Json::Str(_) => set_to(value),
                _ => plain(JsonLdErrorCode::InvalidIndexValue),
            },
        )
    } else if key == "@list"@ {
        if ap is None || ap == Some("@graph"@) {
            Some(Ok(e))
        } else {
            None
        }
    } else if key == "@set"@ {
        None
    } else if key == "@reverse"@ {
        if value is Object {
            None
        } else {
            Some(plain(JsonLdErrorCode::InvalidReverseValue))
        }
    } else {
        Some(Ok(e))
    }
}

/// The entries `e1` are `e0` with `k` set to a value, or with a value added under `k`
/// as an array.
pub open spec fn sets_or_adds(e0: Seq<(Seq<char>, Json)>, e1: Seq<(Seq<char>, Json)>, k: Seq<char>) -> bool {
    exists|v: Json|
        #![trigger entries_insert(e0, k, v)]
        #![trigger add_value_spec(e0, k, v, true)]
        e1 == entries_insert(e0, k, v) || e1 == add_value_spec(e0, k, v, true)
}

/// Expands the value of an entry whose key expands to the keyword `key`.
#[verifier::loop_isolation(false)]
#[verifier::spinoff_prover]
#[verifier::rlimit(40)]
fn expand_keyword<L: DocumentLoader>(
    result: &mut Vec<(String, JsonValue)>,
    nests: &mut Vec<String>,
    active_context: &Context,
    type_scoped_context: &Context,
    active_property: Option<&str>,
    key: String,
    value: JsonValue,
    base_url: Option<&str>,
    input_type: &Option<String>,
    options: &mut JsonLdOptionsImpl<L>,
    frame: bool,
) -> (r: Result<(), JsonLdError>)
    requires
        is_keyword(key@),
        entries_expanded(obj_view(*old(result))),
    ensures
        final(options).inner == old(options).inner,
        match keyword_spec(
            obj_view(*old(result)),
            *active_context,
            *type_scoped_context,
            opt_view(active_property),
            key@,
            value@,
            opt_string_view(*input_type),
            old(options).inner.processing_mode == JsonLdProcessingMode::JsonLd1_0,
            frame,
        ) {
            Some(Ok(e1)) => r is Ok && obj_view(*final(result)) == e1,
            Some(Err(x)) => r matches Err(err) && error_is(err, x),
            None => true,
        },
        keyword_spec(
            obj_view(*old(result)),
            *active_context,
            *type_scoped_context,
            opt_view(active_property),
            key@,
            value@,
            opt_string_view(*input_type),
            old(options).inner.processing_mode == JsonLdProcessingMode::JsonLd1_0,
            frame,
        ) is None && key@ != "@reverse"@ && r is Ok ==> sets_or_adds(obj_view(*old(result)), obj_view(*final(result)), key@),
        key@ == "@nest"@ && r is Ok ==> final(nests)@ == old(nests)@.push(key),
        key@ != "@nest"@ ==> final(nests)@ == old(nests)@,
        r is Ok ==> entries_expanded(obj_view(*final(result))),
        r is Ok ==> keeps_iri_keys(obj_view(*old(result)), obj_view(*final(result))),
        (match keyword_spec(
            obj_view(*old(result)),
            *active_context,
            *type_scoped_context,
            opt_view(active_property),
            key@,
            value@,
            opt_string_view(*input_type),
            old(options).inner.processing_mode == JsonLdProcessingMode::JsonLd1_0,
            frame,
        ) {
            Some(Err(ErrorSpec::Plain(c))) => c == JsonLdErrorCode::InvalidReversePropertyMap || c
                == JsonLdErrorCode::CollidingKeywords,
            _ => false,
        }) ==> *final(result) == *old(result) && final(nests)@ == old(nests)@,
    decreases value, 1nat,
{
    proof {
        reveal_strlit("@type");
        reveal_strlit("@included");
        reveal_strlit("@nest");
        reveal_strlit("@id");
        reveal_strlit("@graph");
        reveal_strlit("@value");
        reveal_strlit("@language");
        reveal_strlit("@direction");
        reveal_strlit("@index");
        reveal_strlit("@list");
        reveal_strlit("@set");
        reveal_strlit("@reverse");
        assert("@type"@[1] != "@nest"@[1]);
        assert("@list"@[1] != "@nest"@[1]);
    }
    proof {
        if let Json::Array(items) = value@ {
            lemma_add_types_errors(obj_view(*result), *type_scoped_context, items);
        }
        lemma_special_keys();
        lemma_keyword_spec_keeps(
            obj_view(*result),
            *active_context,
            *type_scoped_context,
            opt_view(active_property),
            key@,
            value@,
            opt_string_view(*input_type),
            old(options).inner.processing_mode == JsonLdProcessingMode::JsonLd1_0,
            frame,
        );
        lemma_keyword_no_colon(key@);
        lemma_keyword_spec_expanded(
            obj_view(*result),
            *active_context,
            *type_scoped_context,
            opt_view(active_property),
            key@,
            value@,
            opt_string_view(*input_type),
            old(options).inner.processing_mode == JsonLdProcessingMode::JsonLd1_0,
            frame,
        );
    }
    let one_zero = match options.inner.processing_mode {
        JsonLdProcessingMode::JsonLd1_0 => true,
        JsonLdProcessingMode::JsonLd1_1 => false,
    };
    let in_reverse = match active_property {
        Some(p) => str_eq(p, "@reverse"),
        None => false,
    };
    if in_reverse {
        return Err(JsonLdError::new(JsonLdErrorCode::InvalidReversePropertyMap));
    }
    let k = key.as_str();
    if str_eq(k, "@type") {
        if one_zero && obj_contains(result, k) {
            return Err(JsonLdError::new(JsonLdErrorCode::CollidingKeywords));
        }
        match value {
            JsonValue::String(iri) => {
                let v = iri_or_null(expand_iri(IRIExpansionArguments::Normal(type_scoped_context), iri.as_str(), true, true)?);
                add_value(result, k, v, false);
            },
            JsonValue::Array(items) => {
                expand_type_items(result, type_scoped_context, &items)?;
            },
            JsonValue::Object(o) if frame => {
                let v = if o.len() == 0 {
                    JsonValue::Object(o)
                } else {
                    let default = match obj_get(&o, "@default") {
                        Some(JsonValue::String(d)) => Some(d.clone()),
                        _ => None,
                    };
                    match default {
                        Some(d) => {
                            let e = iri_or_null(expand_iri(IRIExpansionArguments::Normal(type_scoped_context), d.as_str(), true, true)?);
                            JsonValue::Object(singleton_object("@default", e))
                        },
                        None => {
                            return Err(JsonLdError::new(JsonLdErrorCode::InvalidTypeValue));
                        },
                    }
                };
                obj_insert(result, key, v);
            },
            _ => {
                return Err(JsonLdError::new(JsonLdErrorCode::InvalidTypeValue));
            },
        }
        return Ok(());
    }
    if str_eq(k, "@included") && !one_zero {
        let v = expand_internal(active_context, None, value, base_url, options, false, frame)?;
        let ghost e0 = obj_view(*result);
        let ghost vv = v@;
        add_value(result, k, v, true);
        assert(obj_view(*result) == add_value_spec(e0, key@, vv, true));
        proof {
            lemma_add_value_expanded(e0, key@, vv);
            lemma_add_value_keeps(e0, key@, vv, true);
        }
        return Ok(());
    }
    if obj_contains(result, k) {
        return Err(JsonLdError::new(JsonLdErrorCode::CollidingKeywords));
    }
    if str_eq(k, "@id") {
        let v = match value {
            JsonValue::String(iri) => iri_or_null(expand_iri(IRIExpansionArguments::Normal(active_context), iri.as_str(), true, false)?),
            JsonValue::Array(items) if frame => JsonValue::Array(expand_id_items(active_context, &items)?),
            JsonValue::Object(o) if frame && o.len() == 0 => JsonValue::Object(o),
            _ => {
                return Err(JsonLdError::new(JsonLdErrorCode::InvalidIdValue));
            },
        };
        obj_insert(result, key, v);
    } else if str_eq(k, "@graph") {
        let v = expand_internal(active_context, Some("@graph"), value, base_url, options, false, frame)?;
        let ghost e0 = obj_view(*result);
        let a = JsonValue::Array(into_array(v));
        let ghost av = a@;
        obj_insert(result, key, a);
        assert(obj_view(*result) == entries_insert(e0, "@graph"@, av));
        proof {
            lemma_insert_expanded(e0, "@graph"@, av);
            lemma_insert_keeps(e0, "@graph"@, av);
        }
    } else if str_eq(k, "@value") {
        let v = if opt_is(input_type, "@json") {
            if one_zero {
                return Err(JsonLdError::new(JsonLdErrorCode::InvalidValueObjectValue));
            }
            value
        } else {
            match value {
                JsonValue::Array(items) if frame => JsonValue::Array(
                    string_items(&items, JsonLdErrorCode::InvalidValueObjectValue)?,
                ),
                JsonValue::Object(o) if frame && o.len() == 0 => JsonValue::Object(o),
                JsonValue::Array(_) | JsonValue::Object(_) => {
                    return Err(JsonLdError::new(JsonLdErrorCode::InvalidValueObjectValue));
                },
                value => value,
            }
        };
        obj_insert(result, key, v);
    } else if str_eq(k, "@language") {
        let v = match value {
            JsonValue::String(l) => JsonValue::String(l),
            JsonValue::Array(items) if frame => JsonValue::Array(
                string_items(&items, JsonLdErrorCode::InvalidLanguageTaggedString)?,
            ),
            JsonValue::Object(o) if frame && o.len() == 0 => JsonValue::Object(o),
            _ => {
                return Err(JsonLdError::new(JsonLdErrorCode::InvalidLanguageTaggedString));
            },
        };
        obj_insert(result, key, v);
    } else if str_eq(k, "@direction") {
        let v = match value {
            JsonValue::String(d) => {
                if !str_eq(d.as_str(), "ltr") && !str_eq(d.as_str(), "rtl") {
                    return Err(JsonLdError::new(JsonLdErrorCode::InvalidBaseDirection));
                }
                JsonValue::String(d)
            },
            JsonValue::Array(items) if frame => JsonValue::Array(direction_item_values(&items)?),
            JsonValue::Object(o) if frame && o.len() == 0 => JsonValue::Object(o),
            _ => {
                return Err(JsonLdError::new(JsonLdErrorCode::InvalidBaseDirection));
            },
        };
        obj_insert(result, key, v);
    } else if str_eq(k, "@index") {
        match value {
            JsonValue::String(i) => obj_insert(result, key, JsonValue::String(i)),
            _ => {
                return Err(JsonLdError::new(JsonLdErrorCode::InvalidIndexValue));
            },
        }
    } else if str_eq(k, "@list") {
        let top = match active_property {
            Some(p) => str_eq(p, "@graph"),
            None => true,
        };
        if !top {
            let v = expand_internal(active_context, active_property, value, base_url, options, false, frame)?;
            let ghost e0 = obj_view(*result);
            let ghost vv = v@;
            add_value(result, k, v, true);
            assert(obj_view(*result) == add_value_spec(e0, "@list"@, vv, true));
            proof {
                lemma_add_value_expanded(e0, "@list"@, vv);
                lemma_add_value_keeps(e0, "@list"@, vv, true);
            }
        }
    } else if str_eq(k, "@set") {
        let v = expand_internal(active_context, active_property, value, base_url, options, false, frame)?;
        let ghost e0 = obj_view(*result);
        let ghost vv = v@;
        obj_insert(result, key, v);
        assert(obj_view(*result) == entries_insert(e0, "@set"@, vv));
        proof {
            lemma_insert_expanded(e0, "@set"@, vv);
            lemma_insert_keeps(e0, "@set"@, vv);
        }
    } else if str_eq(k, "@reverse") {
        if value.as_object().is_none() {
            return Err(JsonLdError::new(JsonLdErrorCode::InvalidReverseValue));
        }
        let expanded_value = expand_internal(active_context, Some("@reverse"), value, base_url, options, false, frame)?;
        if let JsonValue::Object(ev) = expanded_value {
            let ghost ev0 = obj_view(ev);
            let mut ev = ev;
            if let Some(reverse) = obj_remove(&mut ev, "@reverse") {
                match reverse {
                    JsonValue::Object(reverse) => {
                        let ghost rev0 = reverse@;
                        assert(keys_expanded(obj_view(reverse)));
                        let mut reverse = reverse;
                        let n = reverse.len();
                        let mut i: usize = 0;
                        while i < n
                            invariant
                                n == reverse@.len() == rev0.len(),
                                forall|j: int| i <= j < n ==> reverse@[j] == rev0[j],
                                keys_expanded(crate::json::view_entries(rev0)),
                                entries_expanded(obj_view(*result)),
                                keeps_iri_keys(obj_view(*old(result)), obj_view(*result)),
                            decreases n - i,
                        {
                            let mut slot = (String::new(), JsonValue::Null);
                            reverse.set_and_swap(i, &mut slot);
                            proof {
                                lemma_entry_key(rev0, i as int);
                                lemma_add_value_expanded(obj_view(*result), slot.0@, slot.1@);
                                lemma_add_value_keeps(obj_view(*result), slot.0@, slot.1@, true);
                            }
                            add_value(result, slot.0.as_str(), slot.1, true);
                            i = i + 1;
                        }
                    },
                    _ => {
                        return Err(JsonLdError::new(JsonLdErrorCode::InvalidReverseValue));
                    },
                }
            }
            proof {
                lemma_remove_keys(ev0, "@reverse"@);
            }
            if ev.len() > 0 {
                let ghost before_remove = obj_view(*result);
                let mut reverse_map = match obj_remove(result, "@reverse") {
                    Some(JsonValue::Object(m)) => m,
                    Some(_) => {
                        return Err(JsonLdError::new(JsonLdErrorCode::InvalidReverseValue));
                    },
                    None => Vec::new(),
                };
                proof {
                    lemma_remove_keys(before_remove, "@reverse"@);
                    crate::json::law_get_after_remove(before_remove, "@reverse"@, "@set"@);
                    lemma_remove_keeps(before_remove, "@reverse"@);
                    if reverse_map@.len() == 0 {
                        assert(obj_view(reverse_map) =~= Seq::<(Seq<char>, Json)>::empty());
                    }
                }
                let ghost ev1 = ev@;
                let n = ev.len();
                let mut i: usize = 0;
                while i < n
                    invariant
                        n == ev@.len() == ev1.len(),
                        forall|j: int| i <= j < n ==> ev@[j] == ev1[j],
                        keys_expanded(crate::json::view_entries(ev1)),
                        keys_expanded(obj_view(reverse_map)),
                    decreases n - i,
                {
                    let mut slot = (String::new(), JsonValue::Null);
                    ev.set_and_swap(i, &mut slot);
                    proof {
                        lemma_entry_key(ev1, i as int);
                    }
                    let (property, items) = slot;
                    let mut items = into_array(items);
                    let m = items.len();
                    let mut t: usize = 0;
                    while t < m
                        invariant
                            m == items@.len(),
                            expanded_key(property@),
                            keys_expanded(obj_view(reverse_map)),
                        decreases m - t,
                    {
                        let mut item = JsonValue::Null;
                        items.set_and_swap(t, &mut item);
                        let bad = match &item {
                            JsonValue::Object(o) => obj_contains(o, "@value") || obj_contains(o, "@list"),
                            _ => false,
                        };
                        if bad {
                            return Err(JsonLdError::new(JsonLdErrorCode::InvalidReversePropertyValue));
                        }
                        proof {
                            lemma_add_value_keys(obj_view(reverse_map), property@, item@);
                        }
                        add_value(&mut reverse_map, property.as_str(), item, true);
                        t = t + 1;
                    }
                    i = i + 1;
                }
                proof {
                    lemma_insert_reverse(obj_view(*result), obj_view(reverse_map));
                    lemma_insert_keeps(obj_view(*result), "@reverse"@, Json::Object(obj_view(reverse_map)));
                }
                obj_insert(result, string_of("@reverse"), JsonValue::Object(reverse_map));
            }
        }
    } else if str_eq(k, "@nest") {
        nests.push(key);
    }
    Ok(())
}

} // verus!

verus! {

/// Value expansion keeps the datatype of a term: for a term whose type mapping is an
/// IRI `t` (neither `@id`, `@vocab` nor `@none`), every value expands to the value
/// object of exactly two entries, `@type` with `t` and `@value` with the value.
pub proof fn law_value_keeps_datatype(ctx: Context, d: TermDefinition, v: Json)
    requires
        d.type_mapping matches Some(t) && t@ != "@id"@ && t@ != "@vocab"@ && t@ != "@none"@,
    ensures
        value_outcome(ctx, Some(d), v) matches Ok(o) && o.len() == 2 && entries_get(o, "@type"@) == Some(
            Json::Str(d.type_mapping->0@),
        ) && entries_get(o, "@value"@) == Some(v),
{
    reveal_strlit("@type");
    reveal_strlit("@value");
    assert("@type"@.len() == 5 && "@value"@.len() == 6);
    let t = d.type_mapping->0@;
    let o = value_outcome(ctx, Some(d), v)->Ok_0;
    assert(o =~= seq![("@type"@, Json::Str(t)), ("@value"@, v)]);
    crate::json::lemma_key_index(o, "@type"@);
    crate::json::lemma_key_index(o, "@value"@);
}

/// A string value of a term with no type, language or direction mapping (or of no
/// term) takes the default language of the active context: it expands to the value
/// object of `@language` with that language and `@value` with the string.
pub proof fn law_value_takes_default_language(ctx: Context, def: Option<TermDefinition>, s: Seq<char>)
    requires
        match def {
            Some(d) => d.type_mapping is None && d.language_mapping is None && d.direction_mapping is None,
            None => true,
        },
        ctx.default_language is Some,
        ctx.default_base_direction is None,
    ensures
        value_outcome(ctx, def, Json::Str(s)) == Ok::<Seq<(Seq<char>, Json)>, Seq<char>>(
            seq![("@language"@, Json::Str(ctx.default_language->0@)), ("@value"@, Json::Str(s))],
        ),
{
    let o = value_outcome(ctx, def, Json::Str(s))->Ok_0;
    assert(o =~= seq![("@language"@, Json::Str(ctx.default_language->0@)), ("@value"@, Json::Str(s))]);
}

/// A string value of a term whose type mapping is `@id` becomes a node reference: a
/// relative string (no colon, no term, not of the form of a keyword) is resolved
/// against the base IRI, never against the vocabulary mapping.
pub proof fn law_id_coerced_value_resolves(ctx: Context, d: TermDefinition, s: Seq<char>)
    requires
        opt_string_view(d.type_mapping) == Some("@id"@),
        !s.contains(':'),
        !has_keyword_form(s),
        term_def(ctx, s) is None,
    ensures
        value_outcome(ctx, Some(d), Json::Str(s)) == match resolve_with_str_spec(s, opt_string_view(ctx.base_iri)) {
            Ok(i) => Ok::<Seq<(Seq<char>, Json)>, Seq<char>>(seq![("@id"@, Json::Str(i))]),
            Err(m) => Err::<Seq<(Seq<char>, Json)>, Seq<char>>(m),
        },
{
    reveal_strlit("@id");
    reveal_strlit("@vocab");
    assert("@id"@.len() == 3 && "@vocab"@.len() == 6);
    if is_keyword(s) {
        lemma_keyword_has_form(s);
    }
    assert forall|p: int| !crate::util::first_colon_at(s, p) by {
        if 1 <= p < s.len() && s[p] == ':' {
            assert(s.contains(':'));
        }
    }
    assert(compact_iri_parts(s) is None);
}

/// IRI expansion of a string that is no term, has no colon and is not of the form of
/// a keyword: against the vocabulary it is the vocabulary mapping followed by the
/// string (where there is one); relative to the document (and not against the
/// vocabulary, or with no vocabulary mapping) it is the string resolved against the
/// base IRI; otherwise the string itself.
pub proof fn law_relative_iri_expansion(ctx: Context, s: Seq<char>, document_relative: bool, vocab: bool)
    requires
        !s.contains(':'),
        !has_keyword_form(s),
        term_def(ctx, s) is None,
    ensures
        expand_iri_spec(IRIExpansionArguments::Normal(&ctx), s, document_relative, vocab) == if vocab
            && ctx.vocabulary_mapping is Some {
            IriOutcome::Iri(Some(ctx.vocabulary_mapping->0@ + s))
        } else if document_relative {
            match resolve_with_str_spec(s, opt_string_view(ctx.base_iri)) {
                Ok(t) => IriOutcome::Iri(Some(t)),
                Err(m) => IriOutcome::BadBase(m),
            }
        } else {
            IriOutcome::Iri(Some(s))
        },
{
    if is_keyword(s) {
        lemma_keyword_has_form(s);
    }
    assert forall|p: int| !crate::util::first_colon_at(s, p) by {
        if 1 <= p < s.len() && s[p] == ':' {
            assert(s.contains(':'));
        }
    }
    assert(compact_iri_parts(s) is None);
}

/// A string value of a term whose type mapping is `@vocab` becomes a node reference
/// against the vocabulary: a string that is no term, has no colon and is not of the
/// form of a keyword gets the vocabulary mapping in front of it.
pub proof fn law_vocab_coerced_value(ctx: Context, d: TermDefinition, s: Seq<char>)
    requires
        opt_string_view(d.type_mapping) == Some("@vocab"@),
        !s.contains(':'),
        !has_keyword_form(s),
        term_def(ctx, s) is None,
        ctx.vocabulary_mapping is Some,
    ensures
        value_outcome(ctx, Some(d), Json::Str(s)) == Ok::<Seq<(Seq<char>, Json)>, Seq<char>>(
            seq![("@id"@, Json::Str(ctx.vocabulary_mapping->0@ + s))],
        ),
{
    law_relative_iri_expansion(ctx, s, true, true);
}

/// In a type map, the node object under a key gets, as the first item of its `@type`
/// array, the expansion `x` of that key (not the key's own text), and keeps its other
/// types after it.
pub proof fn law_type_map_adds_expanded_key(ctx: Context, index: Seq<char>, x: Seq<char>, v: Json, as_graph: bool)
    requires
        v is Object,
        x != "@none"@,
    ensures
        index_value_spec(ctx, index, Some(x), v, "@type"@, as_graph, false) matches Ok(e1) && entries_get(
            e1,
            "@type"@,
        ) matches Some(Json::Array(a)) && a.len() >= 1 && a[0] == Json::Str(x),
{
    reveal_strlit("@type");
    reveal_strlit("@index");
    reveal_strlit("@id");
    assert("@type"@.len() == 5 && "@index"@.len() == 6 && "@id"@.len() == 3);
    let e0 = v->Object_0;
    let e = if as_graph && graph_keys(e0) != seq!["@graph"@] {
        seq![("@graph"@, Json::Array(seq![Json::Object(e0)]))]
    } else {
        e0
    };
    let item = prepend_items(Json::Str(x), entries_get(e, "@type"@));
    crate::json::law_get_after_insert(entries_remove(e, "@type"@), "@type"@, item, "@type"@);
}

/// The `@id` of a node object is expanded relative to the document and never against
/// the vocabulary mapping: two contexts with the same terms and base IRI give the same
/// outcome, whatever their vocabulary mappings.
pub proof fn law_node_id_ignores_vocabulary(
    e: Seq<(Seq<char>, Json)>,
    c1: Context,
    c2: Context,
    tsc: Context,
    ap: Option<Seq<char>>,
    t: Seq<char>,
    input_type: Option<Seq<char>>,
    one_zero: bool,
    frame: bool,
)
    requires
        c1.term_definitions == c2.term_definitions,
        c1.base_iri == c2.base_iri,
    ensures
        keyword_spec(e, c1, tsc, ap, "@id"@, Json::Str(t), input_type, one_zero, frame) == keyword_spec(
            e,
            c2,
            tsc,
            ap,
            "@id"@,
            Json::Str(t),
            input_type,
            one_zero,
            frame,
        ),
{
    reveal_strlit("@id");
    reveal_strlit("@type");
    reveal_strlit("@included");
    assert("@id"@.len() == 3 && "@type"@.len() == 5 && "@included"@.len() == 9);
    assert(term_def(c1, t) == term_def(c2, t));
    if let Some((p, s)) = compact_iri_parts(t) {
        assert(term_def(c1, p) == term_def(c2, p));
    }
    assert(expand_iri_spec(IRIExpansionArguments::Normal(&c1), t, true, false) == expand_iri_spec(
        IRIExpansionArguments::Normal(&c2),
        t,
        true,
        false,
    ));
}

/// A relative `@id` (no colon, no term, not of the form of a keyword) of a node
/// object is resolved against the base IRI of the active context: the node gets that
/// IRI as its `@id`, or expansion fails with the error of resolving it.
pub proof fn law_relative_node_id_resolves(
    e: Seq<(Seq<char>, Json)>,
    ctx: Context,
    tsc: Context,
    ap: Option<Seq<char>>,
    t: Seq<char>,
    input_type: Option<Seq<char>>,
    one_zero: bool,
    frame: bool,
)
    requires
        !t.contains(':'),
        !has_keyword_form(t),
        term_def(ctx, t) is None,
        ap != Some("@reverse"@),
        !has_key(e, "@id"@),
    ensures
        keyword_spec(e, ctx, tsc, ap, "@id"@, Json::Str(t), input_type, one_zero, frame) == Some(
            match resolve_with_str_spec(t, opt_string_view(ctx.base_iri)) {
                Ok(i) => Ok::<Seq<(Seq<char>, Json)>, ErrorSpec>(entries_insert(e, "@id"@, Json::Str(i))),
                Err(m) => Err::<Seq<(Seq<char>, Json)>, ErrorSpec>(ErrorSpec::Caused(JsonLdErrorCode::InvalidBaseIRI, m)),
            },
        ),
{
    reveal_strlit("@id");
    reveal_strlit("@type");
    reveal_strlit("@included");
    assert("@id"@.len() == 3 && "@type"@.len() == 5 && "@included"@.len() == 9);
    if is_keyword(t) {
        lemma_keyword_has_form(t);
    }
    assert forall|p: int| !crate::util::first_colon_at(t, p) by {
        if 1 <= p < t.len() && t[p] == ':' {
            assert(t.contains(':'));
        }
    }
    assert(compact_iri_parts(t) is None);
}

} // verus!
