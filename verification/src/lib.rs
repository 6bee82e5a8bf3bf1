use vstd::prelude::*;

pub mod container;
pub mod context;
pub mod error;
pub mod expand;
pub mod inverse;
pub mod json;
pub mod remote;
pub mod strs;
pub mod util;

use crate::container::Container;
use crate::context::{MAX_SCOPED_DEPTH, process_context};
use crate::error::{JsonLdError, JsonLdErrorCode, caused_error, described_error};
use crate::expand::{expand_internal, iri_keys_only, keys_dropped, keys_simple, lemma_empty_context_keys, value_expanded};
use crate::json::{Json, JsonObject, JsonValue, clone_object, obj_get, singleton_array, view_array};
use crate::remote::{DocumentLoader, load_remote, parse_document};
use crate::strs::{opt_string_view, str_eq};
use crate::util::{map_context, opt_view, url_parse, url_parse_outcome};

verus! {

/// A context given inline, as the entries of an object, or by reference.
#[derive(Debug)]
pub enum JsonOrReference {
    JsonObject(Vec<(String, JsonValue)>),
    Reference(String),
}

/// A document: parsed JSON, or its text.
#[derive(Debug)]
pub enum Document {
    ParsedJson(JsonValue),
    RawJson(String),
}

/// A document as a document loader hands it back.
#[derive(Debug)]
pub struct RemoteDocument {
    pub content_type: String,
    pub context_url: Option<String>,
    pub document: Document,
    pub document_url: String,
    pub profile: Option<String>,
}

/// The input of an API function: an object, a reference, or a document.
pub enum JsonLdInput<'a> {
    JsonObject(&'a JsonObject),
    Reference(&'a str),
    RemoteDocument(&'a RemoteDocument),
}

/// A base direction.
#[derive(Clone, Copy, PartialEq, Eq, Structural, Debug)]
pub enum Direction {
    LTR,
    RTL,
    NoDirection,
}

pub open spec fn direction_text(d: Direction) -> Seq<char> {
    match d {
        Direction::LTR => "ltr"@,
        Direction::RTL => "rtl"@,
        Direction::NoDirection => "@none"@,
    }
}

impl Direction {
    /// The text of the direction.
    pub fn as_str(&self) -> (r: &'static str)
        ensures
            r@ == direction_text(*self),
    {
        match self {
            Direction::LTR => "ltr",
            Direction::RTL => "rtl",
            Direction::NoDirection => "@none",
        }
    }
}

/// The definition of a term in an active context.
#[derive(Debug)]
pub struct TermDefinition {
    pub iri: Option<String>,
    pub prefix: bool,
    pub protected: bool,
    pub reverse_property: bool,
    pub base_url: Option<String>,
    pub context: Vec<Option<JsonOrReference>>,
    pub container_mapping: Container,
    pub direction_mapping: Option<Direction>,
    pub index_mapping: Option<String>,
    pub language_mapping: Option<Option<String>>,
    pub nest_value: Option<String>,
    pub type_mapping: Option<String>,
}

/// An active context. Term definitions are kept in the order of their keys: shorter
/// keys first, keys of one length in the order of their bytes.
#[derive(Debug)]
pub struct Context {
    pub term_definitions: Vec<(String, TermDefinition)>,
    pub base_iri: Option<String>,
    pub original_base_url: Option<String>,
    pub vocabulary_mapping: Option<String>,
    pub default_language: Option<String>,
    pub default_base_direction: Option<Direction>,
    pub previous_context: Option<Box<Context>>,
}

impl Context {
    /// The empty context.
    pub fn new() -> (r: Context)
        ensures
            r.term_definitions@.len() == 0,
            r.base_iri is None,
            r.original_base_url is None,
            r.vocabulary_mapping is None,
            r.default_language is None,
            r.default_base_direction is None,
            r.previous_context is None,
    {
        Context {
            term_definitions: Vec::new(),
            base_iri: None,
            original_base_url: None,
            vocabulary_mapping: None,
            default_language: None,
            default_base_direction: None,
            previous_context: None,
        }
    }
}

impl Default for Context {
    fn default() -> (r: Context)
        ensures
            r.term_definitions@.len() == 0,
            r.base_iri is None,
            r.original_base_url is None,
            r.vocabulary_mapping is None,
            r.default_language is None,
            r.default_base_direction is None,
            r.previous_context is None,
    {
        Context::new()
    }
}

/// The processing mode.
#[derive(Clone, Copy, PartialEq, Eq, Structural, Debug)]
pub enum JsonLdProcessingMode {
    JsonLd1_1,
    JsonLd1_0,
}

/// The options of the API functions; `L` loads documents.
pub struct JsonLdOptions<L> {
    pub base: Option<String>,
    pub compact_arrays: bool,
    pub compact_to_relative: bool,
    pub document_loader: Option<L>,
    pub expand_context: Option<JsonOrReference>,
    pub extract_all_scripts: bool,
    pub frame_expansion: bool,
    pub ordered: bool,
    pub processing_mode: JsonLdProcessingMode,
    pub produce_generalized_rdf: bool,
    pub rdf_direction: Option<String>,
    pub use_native_types: bool,
    pub use_rdf_type: bool,
}

impl<L> Default for JsonLdOptions<L> {
    fn default() -> (r: JsonLdOptions<L>)
        ensures
            r.base is None,
            r.compact_arrays,
            r.compact_to_relative,
            r.document_loader is None,
            r.expand_context is None,
            !r.extract_all_scripts,
            !r.frame_expansion,
            !r.ordered,
            r.processing_mode == JsonLdProcessingMode::JsonLd1_1,
            r.produce_generalized_rdf,
            r.rdf_direction is None,
            !r.use_native_types,
            !r.use_rdf_type,
    {
        JsonLdOptions {
            base: None,
            compact_arrays: true,
            compact_to_relative: true,
            document_loader: None,
            expand_context: None,
            extract_all_scripts: false,
            frame_expansion: false,
            ordered: false,
            processing_mode: JsonLdProcessingMode::JsonLd1_1,
            produce_generalized_rdf: true,
            rdf_direction: None,
            use_native_types: false,
            use_rdf_type: false,
        }
    }
}

/// A remote context that has been loaded: its object and the URL it came from.
pub struct LoadedContext {
    pub context: Vec<(String, JsonValue)>,
    pub base_url: String,
}

} // verus!

verus! {

#[verifier::external_type_specification]
#[verifier::external_body]
#[verifier::reject_recursive_types(K)]
#[verifier::reject_recursive_types(V)]
#[verifier::reject_recursive_types(S)]
pub struct ExFrozenMap<K, V, S>(elsa::FrozenMap<K, V, S>);

/// What a cache of loaded remote contexts holds: for each URL, the entries of the
/// context and the URL it was loaded from.
pub uninterp spec fn loaded_contents(m: elsa::FrozenMap<String, Box<LoadedContext>>) -> Map<
    Seq<char>,
    (Seq<(Seq<char>, crate::json::Json)>, Seq<char>),
>;

pub open spec fn loaded_view(c: LoadedContext) -> (Seq<(Seq<char>, crate::json::Json)>, Seq<char>) {
    (crate::json::obj_view(c.context), c.base_url@)
}

/// A new, empty `elsa::FrozenMap` (`FrozenMap::new`).
#[verifier::external_body]
fn loaded_new() -> (r: elsa::FrozenMap<String, Box<LoadedContext>>)
    ensures
        loaded_contents(r).dom().len() == 0,
        loaded_contents(r).dom().finite(),
{
    elsa::FrozenMap::new()
}

/// The context cached under `url` (`FrozenMap::get`).
#[verifier::external_body]
pub(crate) fn loaded_get<'a>(m: &'a elsa::FrozenMap<String, Box<LoadedContext>>, url: &str) -> (r: Option<
    &'a LoadedContext,
>)
    ensures
        match r {
            Some(c) => loaded_contents(*m).contains_key(url@) && loaded_contents(*m)[url@] == loaded_view(*c),
            None => !loaded_contents(*m).contains_key(url@),
        },
{
    m.get(url)
}

/// Caches `c` under `url` where nothing is cached under it yet (`FrozenMap::insert`,
/// which keeps the value already there).
#[verifier::external_body]
pub(crate) fn loaded_insert(m: &mut elsa::FrozenMap<String, Box<LoadedContext>>, url: String, c: LoadedContext)
    ensures
        loaded_contents(*final(m)) == if loaded_contents(*old(m)).contains_key(url@) {
            loaded_contents(*old(m))
        } else {
            loaded_contents(*old(m)).insert(url@, loaded_view(c))
        },
{
    m.insert(url, Box::new(c));
}

/// The options of an API call, with the remote contexts loaded during it.
pub struct JsonLdOptionsImpl<'a, L> {
    pub inner: &'a JsonLdOptions<L>,
    pub loaded_contexts: elsa::FrozenMap<String, Box<LoadedContext>>,
}

impl<'a, L> JsonLdOptionsImpl<'a, L> {
    /// The options, with no remote context loaded yet.
    pub fn from_options(inner: &'a JsonLdOptions<L>) -> (r: JsonLdOptionsImpl<'a, L>)
        ensures
            r.inner == inner,
            loaded_contents(r.loaded_contexts).dom().len() == 0,
            loaded_contents(r.loaded_contexts).dom().finite(),
    {
        JsonLdOptionsImpl { inner, loaded_contexts: loaded_new() }
    }
}

} // verus!

verus! {

broadcast use crate::json::group_json_lemmas;

/// The items of a value taken as an array: the array itself, nothing for null,
/// otherwise the value alone.
pub open spec fn items_of(v: Json) -> Seq<Json> {
    match v {
        Json::Array(a) => a,
        Json::Null => Seq::empty(),
        _ => seq![v],
    }
}

/// The output of the Expansion algorithm as an array: the items of a lone top-level
/// `@graph` entry, or the items of the output.
pub open spec fn expanded_array(v: Json) -> Seq<Json> {
    match v {
        Json::Object(e) => if e.len() == 1 && e[0].0 == "@graph"@ {
            items_of(e[0].1)
        } else {
            seq![v]
        },
        _ => items_of(v),
    }
}

fn items(v: JsonValue) -> (r: Vec<JsonValue>)
    ensures
        view_array(r@) == items_of(v@),
{
    match v {
        JsonValue::Array(a) => a,
        JsonValue::Null => {
            let r: Vec<JsonValue> = Vec::new();
            assert(view_array(r@) =~= Seq::<Json>::empty());
            r
        },
        v => singleton_array(v),
    }
}

/// The output of the Expansion algorithm, as the array that the API hands back.
pub fn expanded_output_array(v: JsonValue) -> (r: Vec<JsonValue>)
    ensures
        view_array(r@) == expanded_array(v@),
{
    match v {
        JsonValue::Object(o) => {
            let ghost e = crate::json::view_entries(o@);
            proof {
                if o@.len() > 0 {
                    assert(e[0] == (o@[0].0@, crate::json::view_json(o@[0].1)));
                }
            }
            if o.len() == 1 && str_eq(o[0].0.as_str(), "@graph") {
                let mut o = o;
                let (_, g) = o.remove(0);
                items(g)
            } else {
                singleton_array(JsonValue::Object(o))
            }
        },
        v => items(v),
    }
}

/// The text of the base IRI of an expansion: the `base` option, or else the URL of the
/// input document.
pub open spec fn base_text<L>(input: JsonLdInput, options: JsonLdOptions<L>) -> Option<Seq<char>> {
    match options.base {
        Some(b) => Some(b@),
        None => match input {
            JsonLdInput::RemoteDocument(d) => Some(d.document_url@),
            _ => None,
        },
    }
}

/// The text of the original base URL of an expansion: the URL of the input document,
/// or else the `base` option.
pub open spec fn original_base_text<L>(input: JsonLdInput, options: JsonLdOptions<L>) -> Option<Seq<char>> {
    match input {
        JsonLdInput::RemoteDocument(d) => Some(d.document_url@),
        _ => opt_string_view(options.base),
    }
}

/// A text that `url::Url::parse` refuses, with the text of the refusal.
pub open spec fn bad_url(t: Option<Seq<char>>) -> Option<Seq<char>> {
    match t {
        Some(u) => match url_parse_outcome(u) {
            Err(m) => Some(m),
            Ok(_) => None,
        },
        None => None,
    }
}

fn parse_base(t: Option<&str>) -> (r: Result<Option<String>, JsonLdError>)
    ensures
        match bad_url(opt_view(t)) {
            Some(m) => r matches Err(e) && caused_error(e, JsonLdErrorCode::InvalidBaseIRI, m),
            None => r matches Ok(u) && match opt_view(t) {
                Some(x) => opt_string_view(u) == Some(url_parse_outcome(x)->Ok_0),
                None => u is None,
            },
        },
{
    match t {
        Some(x) => match url_parse(x) {
            Ok(u) => Ok(Some(u)),
            Err(m) => Err(JsonLdError::with_cause(JsonLdErrorCode::InvalidBaseIRI, m)),
        },
        None => Ok(None),
    }
}

fn opt_as_str(s: &Option<String>) -> (r: Option<&str>)
    ensures
        opt_view(r) == opt_string_view(*s),
{
    match s {
        Some(t) => Some(t.as_str()),
        None => None,
    }
}

/// The local context of the `expandContext` option: the value of its `@context` entry
/// where it has one, else the object itself; or the reference.
fn expand_context_of(c: &JsonOrReference) -> (r: Result<Vec<Option<JsonOrReference>>, JsonLdError>)
    ensures
        match c {
            JsonOrReference::JsonObject(json) => match crate::json::entries_get(crate::json::obj_view(*json), "@context"@) {
                Some(v) => match crate::util::map_context_spec(v) {
                    Some(items) => r matches Ok(x) && crate::context::contexts_json(x@) == items,
                    None => r matches Err(e) && crate::error::plain_error(e, JsonLdErrorCode::InvalidLocalContext),
                },
                None => r matches Ok(x) && crate::context::contexts_json(x@) == seq![Json::Object(crate::json::obj_view(*json))],
            },
            JsonOrReference::Reference(iri) => r matches Ok(x) && crate::context::contexts_json(x@) == seq![Json::Str(iri@)],
        },
{
    match c {
        JsonOrReference::JsonObject(json) => match obj_get(json, "@context") {
            Some(v) => map_context(v.deep_clone()),
            None => {
                let mut r: Vec<Option<JsonOrReference>> = Vec::new();
                r.push(Some(JsonOrReference::JsonObject(clone_object(json))));
                Ok(r)
            },
        },
        JsonOrReference::Reference(iri) => {
            let mut r: Vec<Option<JsonOrReference>> = Vec::new();
            r.push(Some(JsonOrReference::Reference(iri.clone())));
            Ok(r)
        },
    }
}

/// A document object whose keys are no keywords, and whose entries under a key with
/// a colon hold a string, number or boolean.
pub open spec fn simple_document(e: Seq<(Seq<char>, Json)>) -> bool {
    forall|j: int|
        0 <= j < e.len() ==> !crate::util::is_keyword(#[trigger] e[j].0) && (e[j].0.contains(':') ==> (e[j].1 is Str
            || e[j].1 is Number || e[j].1 is Bool))
}

/// The expansion of a simple document (see `simple_document`), with no context: an
/// array of one object that is keyed by exactly the IRIs among its keys, each
/// holding its value as a value object; empty where it has no such key.
pub open spec fn simple_output(doc: Seq<(Seq<char>, Json)>, out: Seq<Json>) -> bool {
    if exists|j: int| 0 <= j < doc.len() && (#[trigger] doc[j]).0.contains(':') {
        out.len() == 1 && match out[0] {
            Json::Object(e) => iri_keys_only(e) && forall|j: int|
                0 <= j < doc.len() && (#[trigger] doc[j]).0.contains(':') ==> crate::json::has_key(e, doc[j].0)
                    && crate::expand::holds_value(e, doc[j].0, Json::Object(seq![("@value"@, doc[j].1)])),
            _ => false,
        }
    } else {
        out.len() == 0
    }
}

/// Expands an input that is an object or a document.
fn expand_input<L: DocumentLoader>(input: JsonLdInput, options: &mut JsonLdOptionsImpl<L>) -> (r: Result<
    Vec<JsonValue>,
    JsonLdError,
>)
    requires
        !(input is Reference),
    ensures
        final(options).inner == old(options).inner,
        bad_url(base_text(input, *old(options).inner)) matches Some(m) ==> (r matches Err(e) && caused_error(
            e,
            JsonLdErrorCode::InvalidBaseIRI,
            m,
        )),
        bad_url(original_base_text(input, *old(options).inner)) matches Some(m) ==> (bad_url(
            base_text(input, *old(options).inner),
        ) is None ==> (r matches Err(e) && caused_error(e, JsonLdErrorCode::InvalidBaseIRI, m))),
        r matches Ok(out) ==> exists|v: Json| #[trigger] value_expanded(v) && view_array(out@) == expanded_array(v),
        match input {
            JsonLdInput::JsonObject(o) => old(options).inner.expand_context is None && bad_url(
                base_text(input, *old(options).inner),
            ) is None && bad_url(original_base_text(input, *old(options).inner)) is None && simple_document(
                crate::json::obj_view(*o),
            ) ==> (r matches Ok(out) && simple_output(crate::json::obj_view(*o), view_array(out@))),
            _ => true,
        },
{
    let inner = options.inner;
    let document_url: Option<&str> = match input {
        JsonLdInput::RemoteDocument(d) => Some(d.document_url.as_str()),
        _ => None,
    };
    let base = match &inner.base {
        Some(b) => Some(b.as_str()),
        None => document_url,
    };
    let original = match document_url {
        Some(u) => Some(u),
        None => opt_as_str(&inner.base),
    };
    let mut active_context = Context::new();
    active_context.base_iri = parse_base(base)?;
    active_context.original_base_url = parse_base(original)?;
    if let Some(expand_context) = &inner.expand_context {
        let context = expand_context_of(expand_context)?;
        let mut remote: Vec<String> = Vec::new();
        let context_base = opt_as_str(&active_context.original_base_url);
        active_context = process_context(
            &active_context,
            &context,
            context_base,
            options,
            &mut remote,
            false,
            true,
            true,
            MAX_SCOPED_DEPTH,
        )?;
    }
    let expanded = match input {
        JsonLdInput::RemoteDocument(document) => {
            if let Some(context_url) = &document.context_url {
                let context_base = parse_base(Some(context_url.as_str()))?;
                let mut context: Vec<Option<JsonOrReference>> = Vec::new();
                context.push(Some(JsonOrReference::Reference(context_url.clone())));
                let mut remote: Vec<String> = Vec::new();
                active_context = process_context(
                    &active_context,
                    &context,
                    opt_as_str(&context_base),
                    options,
                    &mut remote,
                    false,
                    true,
                    true,
                    MAX_SCOPED_DEPTH,
                )?;
            }
            let url = parse_base(Some(document.document_url.as_str()))?;
            let json = match parse_document(&document.document, &inner.document_loader) {
                Ok(v) => v,
                Err(m) => {
                    return Err(JsonLdError::with_cause(JsonLdErrorCode::LoadingDocumentFailed, m));
                },
            };
            expand_internal(&active_context, None, json, opt_as_str(&url), options, false, inner.frame_expansion)?
        },
        JsonLdInput::JsonObject(json) => {
            let url = parse_base(opt_as_str(&inner.base))?;
            let obj = clone_object(json);
            proof {
                let d = crate::json::obj_view(*json);
                if inner.expand_context is None && simple_document(d) {
                    crate::json::lemma_view_entries(obj@);
                    assert forall|i: int| 0 <= i < obj@.len() implies #[trigger] obj@[i].0@ == d[i].0 && obj@[i].1@
                        == d[i].1 by {
                        assert(crate::json::obj_view(obj)[i] == (obj@[i].0@, obj@[i].1@));
                    }
                    assert forall|i: int| 0 <= i < obj@.len() implies crate::expand::dropped_key(
                        active_context,
                        #[trigger] obj@[i].0@,
                    ) || crate::expand::simple_iri_entry(active_context, obj@[i].0@, obj@[i].1@) by {
                        assert(obj@[i].0@ == d[i].0);
                        lemma_empty_context_keys(active_context, obj@[i].0@);
                    }
                    if !(exists|j: int| 0 <= j < d.len() && (#[trigger] d[j]).0.contains(':')) {
                        assert forall|i: int| 0 <= i < obj@.len() implies crate::expand::dropped_key(
                            active_context,
                            #[trigger] obj@[i].0@,
                        ) by {
                            assert(obj@[i].0@ == d[i].0);
                            assert(!d[i].0.contains(':'));
                            lemma_empty_context_keys(active_context, obj@[i].0@);
                        }
                    } else {
                        assert forall|j: int| 0 <= j < d.len() && (#[trigger] d[j]).0.contains(':') implies
                            crate::expand::simple_iri_entry(active_context, obj@[j].0@, obj@[j].1@)
                            && crate::expand::iri_key(active_context, obj@[j].0@) == Some(d[j].0)
                            && crate::expand::simple_value(active_context, obj@[j].1@) == Json::Object(
                            seq![("@value"@, d[j].1)],
                        ) by {
                            lemma_empty_context_keys(active_context, obj@[j].0@);
                            assert(crate::expand::value_entries(active_context, None, obj@[j].1@) =~= seq![
                                ("@value"@, d[j].1),
                            ]);
                        }
                    }
                }
            }
            expand_internal(
                &active_context,
                None,
                JsonValue::Object(obj),
                opt_as_str(&url),
                options,
                false,
                inner.frame_expansion,
            )?
        },
        JsonLdInput::Reference(_) => JsonValue::Null,
    };
    let ghost ev = expanded@;
    let out = expanded_output_array(expanded);
    assert(value_expanded(ev));
    Ok(out)
}

/// The Expansion API with the remote contexts that `options` has loaded: a reference
/// is loaded first with the document loader.
pub fn expand_with_loaded_contexts<L: DocumentLoader>(input: JsonLdInput, options: &mut JsonLdOptionsImpl<L>) -> (r:
    Result<Vec<JsonValue>, JsonLdError>)
    ensures
        final(options).inner == old(options).inner,
        (input is Reference && old(options).inner.document_loader is None) ==> (r matches Err(e)
            && described_error(
            e,
            JsonLdErrorCode::LoadingDocumentFailed,
            "Default Document Loader is not specified"@,
        )),
        bad_url(base_text(input, *old(options).inner)) matches Some(m) ==> (!(input is Reference) ==> (
        r matches Err(e) && caused_error(e, JsonLdErrorCode::InvalidBaseIRI, m))),
        bad_url(original_base_text(input, *old(options).inner)) matches Some(m) ==> (!(input is Reference)
            && bad_url(base_text(input, *old(options).inner)) is None ==> (r matches Err(e) && caused_error(
            e,
            JsonLdErrorCode::InvalidBaseIRI,
            m,
        ))),
        r matches Ok(out) ==> exists|v: Json| #[trigger] value_expanded(v) && view_array(out@) == expanded_array(v),
        match input {
            JsonLdInput::JsonObject(o) => old(options).inner.expand_context is None && bad_url(
                base_text(input, *old(options).inner),
            ) is None && bad_url(original_base_text(input, *old(options).inner)) is None && simple_document(
                crate::json::obj_view(*o),
            ) ==> (r matches Ok(out) && simple_output(crate::json::obj_view(*o), view_array(out@))),
            _ => true,
        },
{
    match input {
        JsonLdInput::Reference(iri) => {
            let document = load_remote(iri, options.inner, None, Vec::new())?;
            expand_input(JsonLdInput::RemoteDocument(&document), options)
        },
        other => expand_input(other, options),
    }
}

/// The Expansion API: expands `input` into an array of JSON-LD values, the array
/// form of an expanded value (whose object, if any, is keyed by keywords and IRIs).
pub fn expand<L: DocumentLoader>(input: JsonLdInput, options: &JsonLdOptions<L>) -> (r: Result<
    Vec<JsonValue>,
    JsonLdError,
>)
    ensures
        (input is Reference && options.document_loader is None) ==> (r matches Err(e) && described_error(
            e,
            JsonLdErrorCode::LoadingDocumentFailed,
            "Default Document Loader is not specified"@,
        )),
        bad_url(base_text(input, *options)) matches Some(m) ==> (!(input is Reference) ==> (r matches Err(
            e,
        ) && caused_error(e, JsonLdErrorCode::InvalidBaseIRI, m))),
        bad_url(original_base_text(input, *options)) matches Some(m) ==> (!(input is Reference) && bad_url(
            base_text(input, *options),
        ) is None ==> (r matches Err(e) && caused_error(e, JsonLdErrorCode::InvalidBaseIRI, m))),
        r matches Ok(out) ==> exists|v: Json| #[trigger] value_expanded(v) && view_array(out@) == expanded_array(v),
        match input {
            JsonLdInput::JsonObject(o) => options.expand_context is None && bad_url(
                base_text(input, *options),
            ) is None && bad_url(original_base_text(input, *options)) is None && simple_document(
                crate::json::obj_view(*o),
            ) ==> (r matches Ok(out) && simple_output(crate::json::obj_view(*o), view_array(out@))),
            _ => true,
        },
{
    let mut o = JsonLdOptionsImpl::from_options(options);
    expand_with_loaded_contexts(input, &mut o)
}

} // verus!
