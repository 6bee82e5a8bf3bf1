use json_ld_rs::container::{parse_container, Container, ContainerKind, GraphContainer, GraphContainerKind, UnorderedContainer};
use json_ld_rs::context::{create_term_definition, process_context, process_direction, process_language, MAX_SCOPED_DEPTH};
use json_ld_rs::error::{JsonLdError, JsonLdErrorCode};
use json_ld_rs::expand::{expand_index_map, expand_iri, expand_language_value, expand_value, IRIExpansionArguments};
use json_ld_rs::inverse::{create_inverse_context, select_term};
use json_ld_rs::json::{json_equal, obj_get, obj_insert, obj_remove, JsonValue};
use json_ld_rs::remote::{accept_header, decide_response, load_options, load_remote, request_url, decide_typed_response, DocumentLoader, JsonParser, LoadDocumentOptions, ResponseDecision};
use json_ld_rs::util::{
    add_value, as_compact_iri, is_graph_object, is_jsonld_keyword, looks_like_a_jsonld_keyword, make_lang_dir,
    map_context, OneError,
};
use json_ld_rs::{
    expand, expanded_output_array, Context, Direction, Document, JsonLdInput, JsonLdOptions, JsonLdOptionsImpl,
    JsonLdProcessingMode, JsonOrReference, RemoteDocument,
};

fn s(t: &str) -> JsonValue {
    JsonValue::String(t.to_string())
}

fn obj(entries: Vec<(&str, JsonValue)>) -> Vec<(String, JsonValue)> {
    entries.into_iter().map(|(k, v)| (k.to_string(), v)).collect()
}

fn arr(items: Vec<JsonValue>) -> JsonValue {
    JsonValue::Array(items)
}

/// Equality of JSON values, objects compared as maps.
fn same(a: &JsonValue, b: &JsonValue) -> bool {
    match (a, b) {
        (JsonValue::Array(x), JsonValue::Array(y)) => x.len() == y.len() && x.iter().zip(y.iter()).all(|(p, q)| same(p, q)),
        (JsonValue::Object(x), JsonValue::Object(y)) => {
            x.len() == y.len() && x.iter().all(|(k, v)| obj_get(y, k).map_or(false, |w| same(v, w)))
        },
        _ => json_equal(a, b),
    }
}

fn code<T>(r: Result<T, JsonLdError>) -> Option<JsonLdErrorCode> {
    match r {
        Ok(_) => None,
        Err(e) => Some(e.code),
    }
}

/// A loader that serves documents from a fixed list and parses no text.
struct FixedLoader {
    documents: Vec<(String, JsonValue)>,
}

impl JsonParser for FixedLoader {
    fn parse_json(&self, text: &str) -> Result<JsonValue, String> {
        if text == "null" {
            Ok(JsonValue::Null)
        } else {
            Err(format!("cannot read {}", text))
        }
    }
}

impl DocumentLoader for FixedLoader {
    fn load_document(&self, url: &str, _options: &Option<LoadDocumentOptions>) -> Result<RemoteDocument, JsonLdError> {
        for (u, d) in self.documents.iter() {
            if u == url {
                return Ok(RemoteDocument {
                    content_type: "application/ld+json".to_string(),
                    context_url: None,
                    document: Document::ParsedJson(d.deep_clone()),
                    document_url: url.to_string(),
                    profile: None,
                });
            }
        }
        Err(JsonLdError::with_description(JsonLdErrorCode::LoadingDocumentFailed, "not found"))
    }
}

fn no_loader_options() -> JsonLdOptions<FixedLoader> {
    JsonLdOptions::default()
}

fn options_with(documents: Vec<(&str, JsonValue)>) -> JsonLdOptions<FixedLoader> {
    let mut o: JsonLdOptions<FixedLoader> = JsonLdOptions::default();
    o.document_loader = Some(FixedLoader { documents: documents.into_iter().map(|(u, d)| (u.to_string(), d)).collect() });
    o
}

#[test]
fn test_as_compact_iri() {
    assert_eq!(as_compact_iri("prefix:suffix"), Some(("prefix", "suffix")));
}

#[test]
fn compact_iri_splits_at_first_colon() {
    assert_eq!(as_compact_iri("a:b:c"), Some(("a", "b:c")));
    assert_eq!(as_compact_iri("nocolon"), None);
    assert_eq!(as_compact_iri(":x"), None);
    assert_eq!(as_compact_iri("a:"), Some(("a", "")));
    assert_eq!(as_compact_iri(""), None);
}

#[test]
fn keywords_and_keyword_forms() {
    assert!(is_jsonld_keyword("@id"));
    assert!(is_jsonld_keyword("@requireAll"));
    assert!(!is_jsonld_keyword("@foo"));
    assert!(!is_jsonld_keyword("id"));
    assert!(looks_like_a_jsonld_keyword("@foo"));
    assert!(!looks_like_a_jsonld_keyword("@"));
    assert!(!looks_like_a_jsonld_keyword("@foo1"));
    assert!(!looks_like_a_jsonld_keyword("foo"));
}

#[test]
fn container_parsing() {
    let c = parse_container(&["@set", "@graph"]).unwrap();
    assert!(c.is_set());
    assert!(c.is_graph());
    assert!(!c.is_id());
    assert!(!c.is_index());
    let c = parse_container(&["@graph", "@id"]).unwrap();
    assert!(c.is_graph() && c.is_id());
    assert_eq!(c.get_kind_str(), Some("@id"));
    let c = parse_container(&["@index"]).unwrap();
    assert!(c.is_index() && !c.is_graph());
    assert_eq!(c.get_kind_str(), Some("@index"));
    let c = parse_container(&["@language"]).unwrap();
    assert_eq!(c.get_kind_str(), Some("@language"));
    assert_eq!(ContainerKind::Type.get_kind_str(), Some("@type"));
    assert_eq!(GraphContainerKind::Id.as_str(), "@id");
    assert_eq!(GraphContainerKind::Index.as_str(), "@index");
    assert_eq!(parse_container(&["@list"]).unwrap(), Container::List);
    let set = parse_container(&["@set"]).unwrap();
    assert!(set.is_set() && !set.is_graph() && set.get_kind_str().is_none());
}

#[test]
fn container_order_does_not_matter() {
    assert_eq!(parse_container(&["@set", "@id", "@graph"]).unwrap(), parse_container(&["@graph", "@set", "@id"]).unwrap());
    assert_eq!(parse_container(&["@index", "@set"]).unwrap(), parse_container(&["@set", "@index"]).unwrap());
    let c = parse_container(&["@set", "@type"]).unwrap();
    assert_eq!(c.get_kind_str(), Some("@type"));
    assert!(!c.is_id() && !c.is_index());
}

#[test]
fn container_parsing_errors() {
    assert_eq!(code(parse_container(&["@list", "@set"])), Some(JsonLdErrorCode::InvalidContainerMapping));
    assert_eq!(code(parse_container(&["@type", "@language"])), Some(JsonLdErrorCode::InvalidContainerMapping));
    assert_eq!(code(parse_container(&["@foo"])), Some(JsonLdErrorCode::InvalidContainerMapping));
    assert_eq!(code(parse_container(&[])), Some(JsonLdErrorCode::InvalidContainerMapping));
    assert_eq!(code(parse_container(&["@graph", "@language"])), Some(JsonLdErrorCode::InvalidContainerMapping));
    assert_eq!(code(parse_container(&["@set", "@set"])), Some(JsonLdErrorCode::InvalidContainerMapping));
}

#[test]
fn lang_dir_keys() {
    assert_eq!(make_lang_dir(Some("EN".to_string()), Some(Direction::RTL)), "en_rtl");
    assert_eq!(make_lang_dir(Some("@null".to_string()), Some(Direction::LTR)), "_ltr");
    assert_eq!(make_lang_dir(None, None), "");
    assert_eq!(make_lang_dir(None, Some(Direction::NoDirection)), "@none");
    assert_eq!(make_lang_dir(Some("De".to_string()), None), "de");
    assert_eq!(Direction::NoDirection.as_str(), "@none");
    assert_eq!(Direction::LTR.as_str(), "ltr");
}

#[test]
fn add_value_makes_arrays() {
    let mut o = obj(vec![]);
    add_value(&mut o, "a", s("x"), true);
    assert!(same(obj_get(&o, "a").unwrap(), &arr(vec![s("x")])));
    add_value(&mut o, "a", arr(vec![s("y"), s("z")]), false);
    assert!(same(obj_get(&o, "a").unwrap(), &arr(vec![s("x"), s("y"), s("z")])));
    let mut p = obj(vec![("b", s("1"))]);
    add_value(&mut p, "b", s("2"), false);
    assert!(same(obj_get(&p, "b").unwrap(), &arr(vec![s("1"), s("2")])));
    let mut q = obj(vec![("c", s("1"))]);
    add_value(&mut q, "c", s("2"), false);
    add_value(&mut q, "d", s("3"), false);
    assert!(same(obj_get(&q, "d").unwrap(), &s("3")));
}

#[test]
fn object_read_after_write() {
    let mut o = obj(vec![("a", s("1")), ("b", s("2"))]);
    obj_insert(&mut o, "a".to_string(), s("3"));
    assert!(same(obj_get(&o, "a").unwrap(), &s("3")));
    assert_eq!(o.len(), 2);
    let removed = obj_remove(&mut o, "b").unwrap();
    assert!(same(&removed, &s("2")));
    assert!(obj_get(&o, "b").is_none());
}

#[test]
fn graph_objects() {
    assert!(is_graph_object(&obj(vec![("@id", s("x")), ("@graph", arr(vec![]))])));
    assert!(!is_graph_object(&obj(vec![("@graph", arr(vec![])), ("@type", s("t"))])));
    assert!(!is_graph_object(&obj(vec![("@id", s("x"))])));
}

#[test]
fn map_context_forms() {
    let v = map_context(arr(vec![JsonValue::Object(obj(vec![])), s("http://x/c"), JsonValue::Null])).unwrap();
    assert_eq!(v.len(), 3);
    assert!(matches!(v[0], Some(JsonOrReference::JsonObject(_))));
    assert!(matches!(&v[1], Some(JsonOrReference::Reference(r)) if r == "http://x/c"));
    assert!(v[2].is_none());
    let n = map_context(JsonValue::Null).unwrap();
    assert_eq!(n.len(), 1);
    assert!(n[0].is_none());
    assert_eq!(code(map_context(JsonValue::Bool(true))), Some(JsonLdErrorCode::InvalidLocalContext));
    assert_eq!(code(map_context(arr(vec![JsonValue::Number("1".to_string())]))), Some(JsonLdErrorCode::InvalidLocalContext));
}

#[test]
fn language_and_direction_values() {
    assert_eq!(process_language(&s("en")).unwrap(), Some("en".to_string()));
    assert_eq!(process_language(&JsonValue::Null).unwrap(), None);
    assert_eq!(code(process_language(&JsonValue::Bool(false))), Some(JsonLdErrorCode::InvalidDefaultLanguage));
    assert_eq!(process_direction(&s("rtl"), false).unwrap(), Some(Direction::RTL));
    assert_eq!(code(process_direction(&s("up"), false)), Some(JsonLdErrorCode::InvalidBaseDirection));
}

#[test]
fn iri_expansion() {
    let mut ctx = Context::new();
    ctx.vocabulary_mapping = Some("http://vocab/".to_string());
    ctx.base_iri = Some("http://example.org/base/doc".to_string());
    let e = |v: &str, rel: bool, vocab: bool| expand_iri(IRIExpansionArguments::Normal(&ctx), v, rel, vocab);
    assert_eq!(e("@type", false, true).unwrap(), Some("@type".to_string()));
    assert_eq!(e("@foo", false, true).unwrap(), None);
    assert_eq!(e("name", false, true).unwrap(), Some("http://vocab/name".to_string()));
    assert_eq!(e("_:b0", false, true).unwrap(), Some("_:b0".to_string()));
    assert_eq!(e("http://a.b/c", false, false).unwrap(), Some("http://a.b/c".to_string()));
    assert_eq!(e("other", true, false).unwrap(), Some("http://example.org/base/other".to_string()));
    assert_eq!(e("plain", false, false).unwrap(), Some("plain".to_string()));
}

#[test]
fn value_expansion() {
    let mut ctx = Context::new();
    ctx.default_language = Some("en".to_string());
    let v = expand_value(&ctx, None, s("hi")).unwrap();
    assert!(same(&JsonValue::Object(v), &JsonValue::Object(obj(vec![("@language", s("en")), ("@value", s("hi"))]))));
    let v = expand_value(&ctx, None, JsonValue::Bool(true)).unwrap();
    assert!(same(&JsonValue::Object(v), &JsonValue::Object(obj(vec![("@value", JsonValue::Bool(true))]))));
    let lv = expand_language_value(Some("fr"), s("salut"), Some(Direction::LTR)).unwrap().unwrap();
    assert!(same(
        &JsonValue::Object(lv),
        &JsonValue::Object(obj(vec![("@value", s("salut")), ("@language", s("fr")), ("@direction", s("ltr"))]))
    ));
    assert!(expand_language_value(None, JsonValue::Null, None).unwrap().is_none());
    assert_eq!(code(expand_language_value(None, JsonValue::Bool(true), None)), Some(JsonLdErrorCode::InvalidLanguageMapValue));
}

#[test]
fn expansion_of_a_simple_document() {
    let doc = obj(vec![
        ("@context", JsonValue::Object(obj(vec![("name", s("http://schema.org/name"))]))),
        ("name", s("Alice")),
    ]);
    let options = no_loader_options();
    let out = expand(JsonLdInput::JsonObject(&doc), &options).unwrap();
    let expected = arr(vec![JsonValue::Object(obj(vec![(
        "http://schema.org/name",
        arr(vec![JsonValue::Object(obj(vec![("@value", s("Alice"))]))]),
    )]))]);
    assert!(same(&arr(out), &expected));
}

#[test]
fn expansion_with_types_and_ids() {
    let doc = obj(vec![
        (
            "@context",
            JsonValue::Object(obj(vec![
                ("@vocab", s("http://v/")),
                ("knows", JsonValue::Object(obj(vec![("@id", s("http://v/knows")), ("@type", s("@id"))]))),
            ])),
        ),
        ("@id", s("http://x/a")),
        ("@type", s("Person")),
        ("knows", s("http://x/b")),
    ]);
    let options = no_loader_options();
    let out = expand(JsonLdInput::JsonObject(&doc), &options).unwrap();
    let expected = arr(vec![JsonValue::Object(obj(vec![
        ("@id", s("http://x/a")),
        ("@type", arr(vec![s("http://v/Person")])),
        ("http://v/knows", arr(vec![JsonValue::Object(obj(vec![("@id", s("http://x/b"))]))])),
    ]))]);
    assert!(same(&arr(out), &expected), "{:?}", arr(expand(JsonLdInput::JsonObject(&doc), &options).unwrap()));
}

fn keys_are_keywords_or_iris(v: &JsonValue) -> bool {
    match v {
        JsonValue::Object(o) => o.iter().all(|(k, v)| {
            (k.starts_with('@') || k.contains(':'))
                && (k != "@reverse" || keys_are_keywords_or_iris(v))
        }),
        _ => true,
    }
}

#[test]
fn expanded_keys_are_keywords_or_iris() {
    let doc = obj(vec![
        (
            "@context",
            JsonValue::Object(obj(vec![
                ("@vocab", s("http://v/")),
                ("parent", JsonValue::Object(obj(vec![("@reverse", s("http://v/child"))]))),
            ])),
        ),
        ("@id", s("http://x/a")),
        ("name", s("A")),
        ("parent", JsonValue::Object(obj(vec![("@id", s("http://x/p")), ("name", s("P"))]))),
        ("@reverse", JsonValue::Object(obj(vec![("knows", JsonValue::Object(obj(vec![("@id", s("http://x/k"))])))]))),
        ("unmapped:term", s("kept as a compact IRI")),
    ]);
    let options = no_loader_options();
    let out = expand(JsonLdInput::JsonObject(&doc), &options).unwrap();
    assert_eq!(out.len(), 1);
    assert!(out.iter().all(keys_are_keywords_or_iris), "{:?}", out);
    match &out[0] {
        JsonValue::Object(o) => {
            assert!(obj_get(o, "http://v/name").is_some());
            assert!(obj_get(o, "@reverse").is_some());
            assert!(obj_get(o, "parent").is_none());
        },
        _ => panic!("expected a node object"),
    }
}

#[test]
fn index_map_of_strings() {
    let options = no_loader_options();
    let mut o = JsonLdOptionsImpl::from_options(&options);
    let ctx = Context::new();
    let map = obj(vec![("en", s("Hello")), ("de", s("Hallo"))]);
    let out = expand_index_map(&ctx, "http://x/label", map, vec![1, 0], "@index", false, false, None, &mut o, false).unwrap();
    let expected = arr(vec![
        JsonValue::Object(obj(vec![("@value", s("Hallo")), ("@index", s("de"))])),
        JsonValue::Object(obj(vec![("@value", s("Hello")), ("@index", s("en"))])),
    ]);
    assert!(same(&arr(out), &expected));
}

#[test]
fn expansion_of_a_document_without_context() {
    let doc = obj(vec![
        ("http://schema.org/name", s("Alice")),
        ("ignored", JsonValue::Number("1".to_string())),
        ("_:b", JsonValue::Bool(true)),
    ]);
    let out = expand(JsonLdInput::JsonObject(&doc), &no_loader_options()).unwrap();
    let expected = arr(vec![JsonValue::Object(obj(vec![
        ("_:b", arr(vec![JsonValue::Object(obj(vec![("@value", JsonValue::Bool(true))]))])),
        ("http://schema.org/name", arr(vec![JsonValue::Object(obj(vec![("@value", s("Alice"))]))])),
    ]))]);
    assert!(same(&arr(out), &expected), "{:?}", expand(JsonLdInput::JsonObject(&doc), &no_loader_options()));
    let dropped = obj(vec![("a", s("x")), ("@foo", s("y"))]);
    assert!(expand(JsonLdInput::JsonObject(&dropped), &no_loader_options()).unwrap().is_empty());
}

#[test]
fn expansion_drops_unmapped_terms() {
    let doc = obj(vec![("unmapped", s("x"))]);
    let out = expand(JsonLdInput::JsonObject(&doc), &no_loader_options()).unwrap();
    assert!(out.is_empty());
}

#[test]
fn expansion_of_a_reference_without_loader() {
    let e = expand(JsonLdInput::Reference("http://example.org/doc"), &no_loader_options()).unwrap_err();
    assert_eq!(e.code, JsonLdErrorCode::LoadingDocumentFailed);
    assert_eq!(e.to_text(), "loading document failed: Default Document Loader is not specified");
}

#[test]
fn expansion_of_a_loaded_reference() {
    let remote = JsonValue::Object(obj(vec![
        ("@context", JsonValue::Object(obj(vec![("p", s("http://v/p"))]))),
        ("p", s("v")),
    ]));
    let options = options_with(vec![("http://example.org/doc", remote)]);
    let out = expand(JsonLdInput::Reference("http://example.org/doc"), &options).unwrap();
    let expected = arr(vec![JsonValue::Object(obj(vec![(
        "http://v/p",
        arr(vec![JsonValue::Object(obj(vec![("@value", s("v"))]))]),
    )]))]);
    assert!(same(&arr(out), &expected));
}

#[test]
fn expansion_with_a_remote_context() {
    let context_doc = JsonValue::Object(obj(vec![(
        "@context",
        JsonValue::Object(obj(vec![("q", s("http://v/q"))])),
    )]));
    let options = options_with(vec![("http://example.org/ctx", context_doc)]);
    let doc = obj(vec![("@context", s("http://example.org/ctx")), ("q", JsonValue::Number("1".to_string()))]);
    let out = expand(JsonLdInput::JsonObject(&doc), &options).unwrap();
    let expected = arr(vec![JsonValue::Object(obj(vec![(
        "http://v/q",
        arr(vec![JsonValue::Object(obj(vec![("@value", JsonValue::Number("1".to_string()))]))]),
    )]))]);
    assert!(same(&arr(out), &expected));
}

#[test]
fn expansion_with_a_bad_base() {
    let mut options = no_loader_options();
    options.base = Some("not a url".to_string());
    let doc = obj(vec![]);
    let e = expand(JsonLdInput::JsonObject(&doc), &options).unwrap_err();
    assert_eq!(e.code, JsonLdErrorCode::InvalidBaseIRI);
}

#[test]
fn expansion_errors() {
    let doc = obj(vec![("@id", JsonValue::Bool(true))]);
    assert_eq!(code(expand(JsonLdInput::JsonObject(&doc), &no_loader_options())), Some(JsonLdErrorCode::InvalidIdValue));
    let doc = obj(vec![("@context", JsonValue::Bool(true))]);
    assert_eq!(code(expand(JsonLdInput::JsonObject(&doc), &no_loader_options())), Some(JsonLdErrorCode::InvalidLocalContext));
    let doc = obj(vec![("@value", s("x")), ("@language", s("en")), ("@type", s("http://t"))]);
    assert_eq!(code(expand(JsonLdInput::JsonObject(&doc), &no_loader_options())), Some(JsonLdErrorCode::InvalidValueObject));
    let doc = obj(vec![("@context", JsonValue::Object(obj(vec![("@version", JsonValue::Number("1.0".to_string()))])))]);
    assert_eq!(code(expand(JsonLdInput::JsonObject(&doc), &no_loader_options())), Some(JsonLdErrorCode::InvalidVersionValue));
}

#[test]
fn top_level_graph_is_unwrapped() {
    let out = expanded_output_array(JsonValue::Object(obj(vec![("@graph", arr(vec![s("a"), s("b")]))])));
    assert!(same(&arr(out), &arr(vec![s("a"), s("b")])));
    assert!(expanded_output_array(JsonValue::Null).is_empty());
    let out = expanded_output_array(JsonValue::Object(obj(vec![("@id", s("x"))])));
    assert_eq!(out.len(), 1);
}

#[test]
fn remote_document_expansion_uses_its_url() {
    let options = no_loader_options();
    let doc = RemoteDocument {
        content_type: "application/ld+json".to_string(),
        context_url: None,
        document: Document::ParsedJson(JsonValue::Object(obj(vec![
            ("@context", JsonValue::Object(obj(vec![("@base", s("sub/"))]))),
            ("@id", s("x")),
            ("http://p", s("v")),
        ]))),
        document_url: "http://example.org/dir/doc".to_string(),
        profile: None,
    };
    let out = expand(JsonLdInput::RemoteDocument(&doc), &options).unwrap();
    let expected = arr(vec![JsonValue::Object(obj(vec![
        ("@id", s("http://example.org/dir/sub/x")),
        ("http://p", arr(vec![JsonValue::Object(obj(vec![("@value", s("v"))]))])),
    ]))]);
    assert!(same(&arr(out), &expected), "{:?}", doc.document_url);
}

#[test]
fn raw_document_without_parser() {
    let options = no_loader_options();
    let doc = RemoteDocument {
        content_type: "application/ld+json".to_string(),
        context_url: None,
        document: Document::RawJson("{}".to_string()),
        document_url: "http://example.org/doc".to_string(),
        profile: None,
    };
    assert_eq!(code(expand(JsonLdInput::RemoteDocument(&doc), &options)), Some(JsonLdErrorCode::LoadingDocumentFailed));
}

#[test]
fn load_remote_without_loader() {
    let e = load_remote("http://x", &no_loader_options(), None, Vec::new()).unwrap_err();
    assert_eq!(e.code, JsonLdErrorCode::LoadingDocumentFailed);
    assert_eq!(e.description.as_deref(), Some("Default Document Loader is not specified"));
}

#[test]
fn error_texts() {
    assert_eq!(JsonLdError::new(JsonLdErrorCode::CyclicIRIMapping).to_text(), "cyclic IRI mapping");
    assert_eq!(JsonLdErrorCode::InvalidIdValue.message(), "invalid @id value");
    let e = JsonLdError::with_cause(JsonLdErrorCode::InvalidBaseIRI, "bad".to_string());
    assert_eq!(e.to_text(), "invalid base IRI\ncaused by: bad");
    let f = JsonLdError::caused_by(JsonLdErrorCode::LoadingRemoteContextFailed, &e);
    assert_eq!(f.to_text(), "loading remote context failed\ncaused by: invalid base IRI\ncaused by: bad");
}

#[test]
fn accept_headers() {
    assert_eq!(accept_header(&None), "application/ld+json, application/json");
    let o = Some(LoadDocumentOptions {
        extract_all_scripts: false,
        profile: None,
        request_profile: vec!["http://a".to_string(), "http://b".to_string()],
    });
    assert_eq!(accept_header(&o), "application/ld+json;profile=\"http://a http://b, application/json");
}

fn context_with(local: Vec<(&str, JsonValue)>) -> Result<Context, JsonLdError> {
    let options = no_loader_options();
    let mut o = JsonLdOptionsImpl::from_options(&options);
    let mut remote = Vec::new();
    process_context(
        &Context::new(),
        &vec![Some(JsonOrReference::JsonObject(obj(local)))],
        None,
        &mut o,
        &mut remote,
        false,
        true,
        true,
        MAX_SCOPED_DEPTH,
    )
}

#[test]
fn context_processing_defines_terms() {
    let ctx = context_with(vec![
        ("ex", s("http://example.org/")),
        ("name", s("ex:name")),
        ("@language", s("en")),
    ])
    .unwrap();
    assert_eq!(ctx.default_language.as_deref(), Some("en"));
    let keys: Vec<&str> = ctx.term_definitions.iter().map(|(k, _)| k.as_str()).collect();
    assert_eq!(keys, vec!["ex", "name"]);
    assert_eq!(ctx.term_definitions[1].1.iri.as_deref(), Some("http://example.org/name"));
    assert!(ctx.term_definitions[0].1.prefix);
}

#[test]
fn context_processing_errors() {
    assert_eq!(code(context_with(vec![("@propagate", s("yes"))])), Some(JsonLdErrorCode::InvalidPropagateValue));
    assert_eq!(code(context_with(vec![("a", s("a:x"))])), Some(JsonLdErrorCode::CyclicIRIMapping));
    assert_eq!(code(context_with(vec![("@id", s("http://x"))])), Some(JsonLdErrorCode::KeywordRedefinition));
    assert_eq!(code(context_with(vec![("@direction", s("up"))])), Some(JsonLdErrorCode::InvalidBaseDirection));
}

#[test]
fn protected_terms_stay() {
    let options = no_loader_options();
    let mut o = JsonLdOptionsImpl::from_options(&options);
    let mut remote = Vec::new();
    let first = process_context(
        &Context::new(),
        &vec![Some(JsonOrReference::JsonObject(obj(vec![
            ("@protected", JsonValue::Bool(true)),
            ("p", s("http://a/p")),
        ])))],
        None,
        &mut o,
        &mut remote,
        false,
        true,
        true,
        MAX_SCOPED_DEPTH,
    )
    .unwrap();
    let again = process_context(
        &first,
        &vec![Some(JsonOrReference::JsonObject(obj(vec![("p", s("http://b/p"))])))],
        None,
        &mut o,
        &mut remote,
        false,
        true,
        true,
        MAX_SCOPED_DEPTH,
    );
    assert_eq!(code(again), Some(JsonLdErrorCode::ProtectedTermRedefinition));
    let nulled = process_context(&first, &vec![None], None, &mut o, &mut remote, false, true, true, MAX_SCOPED_DEPTH);
    assert_eq!(code(nulled), Some(JsonLdErrorCode::InvalidContextNullification));
    let same_def = process_context(
        &first,
        &vec![Some(JsonOrReference::JsonObject(obj(vec![("p", s("http://a/p"))])))],
        None,
        &mut o,
        &mut remote,
        false,
        true,
        true,
        MAX_SCOPED_DEPTH,
    );
    assert!(same_def.is_ok());
}

#[test]
fn term_definition_of_an_undefined_term() {
    let options = no_loader_options();
    let local = obj(vec![("t", s("http://x/t"))]);
    let mut ctx = Context::new();
    let mut defined = Vec::new();
    create_term_definition(&mut ctx, &local, "t", &s("http://x/t"), &mut defined, &options, None, false, false).unwrap();
    assert_eq!(ctx.term_definitions.len(), 1);
    assert_eq!(ctx.term_definitions[0].1.iri.as_deref(), Some("http://x/t"));
    assert_eq!(defined, vec![("t".to_string(), true)]);
}

#[test]
fn term_mapped_to_null() {
    let options = no_loader_options();
    let local = obj(vec![("t", JsonValue::Null)]);
    let mut ctx = Context::new();
    let mut defined = Vec::new();
    create_term_definition(&mut ctx, &local, "t", &JsonValue::Null, &mut defined, &options, None, true, false).unwrap();
    assert_eq!(ctx.term_definitions.len(), 1);
    let d = &ctx.term_definitions[0].1;
    assert_eq!(d.iri, None);
    assert!(d.protected);
    assert!(!d.prefix && !d.reverse_property);
    assert_eq!(defined, vec![("t".to_string(), true)]);

    let protected = context_with(vec![("@protected", JsonValue::Bool(true)), ("p", s("http://a/p"))]).unwrap();
    let mut ctx = protected;
    let local = obj(vec![("p", JsonValue::Null)]);
    let mut defined = Vec::new();
    let r = create_term_definition(&mut ctx, &local, "p", &JsonValue::Null, &mut defined, &options, None, false, false);
    assert_eq!(code(r), Some(JsonLdErrorCode::ProtectedTermRedefinition));
}

#[test]
fn term_aliasing_a_keyword() {
    let options = no_loader_options();
    let local = obj(vec![("kind", s("@type")), ("odd", s("@foo"))]);
    let mut ctx = Context::new();
    let mut defined = Vec::new();
    create_term_definition(&mut ctx, &local, "kind", &s("@type"), &mut defined, &options, None, false, false).unwrap();
    create_term_definition(&mut ctx, &local, "odd", &s("@foo"), &mut defined, &options, None, false, false).unwrap();
    let def = |t: &str| ctx.term_definitions.iter().find(|(k, _)| k.as_str() == t).map(|(_, d)| d).unwrap();
    assert_eq!(ctx.term_definitions.len(), 2);
    assert_eq!(def("kind").iri.as_deref(), Some("@type"));
    assert!(!def("kind").prefix);
    assert_eq!(def("odd").iri, None);
}

#[test]
fn plain_terms_of_a_context() {
    let ctx = context_with(vec![
        ("kind", s("@type")),
        ("gone", JsonValue::Null),
        ("schema", s("http://schema.org/")),
        ("name", s("http://schema.org/name")),
        ("node", s("_:b0")),
    ])
    .unwrap();
    let def = |t: &str| ctx.term_definitions.iter().find(|(k, _)| k.as_str() == t).map(|(_, d)| d).unwrap();
    assert_eq!(ctx.term_definitions.len(), 5);
    assert_eq!(def("kind").iri.as_deref(), Some("@type"));
    assert!(!def("kind").prefix);
    assert_eq!(def("gone").iri, None);
    assert_eq!(def("schema").iri.as_deref(), Some("http://schema.org/"));
    assert!(def("schema").prefix);
    assert_eq!(def("name").iri.as_deref(), Some("http://schema.org/name"));
    assert!(!def("name").prefix);
    assert_eq!(def("node").iri.as_deref(), Some("_:b0"));
    assert!(def("node").prefix);
    for (_, d) in ctx.term_definitions.iter() {
        assert!(!d.reverse_property && d.type_mapping.is_none() && d.language_mapping.is_none());
        assert!(d.context.is_empty() && d.nest_value.is_none() && d.index_mapping.is_none());
    }
}

#[test]
fn id_object_terms_of_a_context() {
    let ctx = context_with(vec![
        ("name", JsonValue::Object(obj(vec![("@id", s("http://schema.org/name"))]))),
        ("url", JsonValue::Object(obj(vec![("@id", s("http://schema.org/url")), ("@type", s("@id"))]))),
        ("kind", JsonValue::Object(obj(vec![("@type", s("@vocab")), ("@id", s("http://x/"))]))),
    ])
    .unwrap();
    let def = |t: &str| ctx.term_definitions.iter().find(|(k, _)| k.as_str() == t).map(|(_, d)| d).unwrap();
    assert_eq!(def("name").iri.as_deref(), Some("http://schema.org/name"));
    assert_eq!(def("name").type_mapping, None);
    assert!(!def("name").prefix);
    assert_eq!(def("url").iri.as_deref(), Some("http://schema.org/url"));
    assert_eq!(def("url").type_mapping.as_deref(), Some("@id"));
    assert_eq!(def("kind").iri.as_deref(), Some("http://x/"));
    assert_eq!(def("kind").type_mapping.as_deref(), Some("@vocab"));
    assert!(!def("kind").prefix);
}

#[test]
fn defined_term_expands_to_its_iri() {
    let ctx = context_with(vec![
        ("name", s("http://schema.org/name")),
        ("kind", s("@type")),
        ("url", JsonValue::Object(obj(vec![("@id", s("http://schema.org/url")), ("@type", s("@id"))]))),
        ("gone", JsonValue::Null),
    ])
    .unwrap();
    let expand_term = |t: &str| expand_iri(IRIExpansionArguments::Normal(&ctx), t, false, true).unwrap();
    assert_eq!(expand_term("name").as_deref(), Some("http://schema.org/name"));
    assert_eq!(expand_term("kind").as_deref(), Some("@type"));
    assert_eq!(expand_term("url").as_deref(), Some("http://schema.org/url"));
    assert_eq!(expand_term("gone"), None);
}

#[test]
fn protected_expanded_definition_is_kept_or_refused() {
    let options = no_loader_options();
    let lc1 = obj(vec![(
        "foo",
        JsonValue::Object(obj(vec![("@id", s("http://example.com/foo")), ("@protected", JsonValue::Bool(true))])),
    )]);
    let mut ctx = Context::new();
    create_term_definition(&mut ctx, &lc1, "foo", &lc1[0].1, &mut Vec::new(), &options, None, false, false).unwrap();
    assert!(ctx.term_definitions[0].1.protected);
    let lc2 = obj(vec![("foo", s("http://example.com/foo"))]);
    create_term_definition(&mut ctx, &lc2, "foo", &lc2[0].1, &mut Vec::new(), &options, None, false, false).unwrap();
    assert_eq!(ctx.term_definitions[0].1.iri.as_deref(), Some("http://example.com/foo"));
    assert!(ctx.term_definitions[0].1.protected);
    let lc3 = obj(vec![("foo", s("http://example.com/bar"))]);
    let r = create_term_definition(&mut ctx, &lc3, "foo", &lc3[0].1, &mut Vec::new(), &options, None, false, false);
    assert_eq!(code(r), Some(JsonLdErrorCode::ProtectedTermRedefinition));
    let mut ctx2 = Context::new();
    create_term_definition(&mut ctx2, &lc1, "foo", &lc1[0].1, &mut Vec::new(), &options, None, false, false).unwrap();
    create_term_definition(&mut ctx2, &lc3, "foo", &lc3[0].1, &mut Vec::new(), &options, None, false, true).unwrap();
    assert_eq!(ctx2.term_definitions[0].1.iri.as_deref(), Some("http://example.com/bar"));
    assert!(!ctx2.term_definitions[0].1.protected);
}

#[test]
fn invalid_term_definitions() {
    let options = no_loader_options();
    let define = |term: &str, value: JsonValue| {
        let lc = obj(vec![(term, value.deep_clone())]);
        let mut ctx = Context::new();
        code(create_term_definition(&mut ctx, &lc, term, &value, &mut Vec::new(), &options, None, false, false))
    };
    assert_eq!(define("foo", JsonValue::Number("5".to_string())), Some(JsonLdErrorCode::InvalidTermDefinition));
    assert_eq!(
        define("bar", JsonValue::Object(obj(vec![("@id", s("http://example.com/x")), ("@foo", JsonValue::Bool(true))]))),
        Some(JsonLdErrorCode::InvalidTermDefinition)
    );
    assert_eq!(define("foo", JsonValue::Object(Vec::new())), Some(JsonLdErrorCode::InvalidIRIMapping));
    assert_eq!(define("bar", JsonValue::Object(obj(vec![("@id", JsonValue::Bool(true))]))), Some(JsonLdErrorCode::InvalidIRIMapping));
    assert_eq!(define("@type", JsonValue::Object(Vec::new())), Some(JsonLdErrorCode::KeywordRedefinition));
    assert_eq!(
        define("@type", JsonValue::Object(obj(vec![("@container", s("@list"))]))),
        Some(JsonLdErrorCode::KeywordRedefinition)
    );
    assert_eq!(define("@type", JsonValue::Object(obj(vec![("@container", s("@set"))]))), None);
    let lc = obj(vec![("@id", s("http://x"))]);
    let mut ctx = Context::new();
    let before = ctx.term_definitions.len();
    let r = create_term_definition(&mut ctx, &lc, "@id", &lc[0].1, &mut Vec::new(), &options, None, false, false);
    assert_eq!(code(r), Some(JsonLdErrorCode::KeywordRedefinition));
    assert_eq!(ctx.term_definitions.len(), before);
}

#[test]
fn context_entry_errors_and_propagation() {
    assert_eq!(code(context_with(vec![("@version", JsonValue::Number("1.0".to_string()))])), Some(JsonLdErrorCode::InvalidVersionValue));
    assert!(context_with(vec![("@version", JsonValue::Number("1.1".to_string()))]).is_ok());
    assert_eq!(code(context_with(vec![("@base", JsonValue::Bool(true))])), Some(JsonLdErrorCode::InvalidBaseIRI));
    assert_eq!(code(context_with(vec![("@language", JsonValue::Bool(true))])), Some(JsonLdErrorCode::InvalidDefaultLanguage));
    assert_eq!(code(context_with(vec![("@protected", s("yes"))])), Some(JsonLdErrorCode::InvalidProtectedValue));
    let ctx = context_with(vec![("@propagate", JsonValue::Bool(false)), ("a", s("http://x/a"))]).unwrap();
    let previous = ctx.previous_context.as_ref().unwrap();
    assert_eq!(previous.term_definitions.len(), 0);
    let options = no_loader_options();
    let mut o = JsonLdOptionsImpl::from_options(&options);
    let reset = process_context(&ctx, &vec![None], None, &mut o, &mut Vec::new(), false, true, true, MAX_SCOPED_DEPTH).unwrap();
    assert!(reset.previous_context.is_none());
}

#[test]
fn inverse_context_and_term_selection() {
    let ctx = context_with(vec![
        ("name", s("http://s/name")),
        ("nm", s("http://s/name")),
        ("label", JsonValue::Object(obj(vec![("@id", s("http://s/label")), ("@language", s("EN"))]))),
        ("ref", JsonValue::Object(obj(vec![("@id", s("http://s/ref")), ("@type", s("@id"))]))),
    ])
    .unwrap();
    let inverse = create_inverse_context(&ctx);
    assert!(inverse.iter().any(|e| e.iri == "http://s/label" && e.type_language == "@language" && e.value == "en"));
    let none = Container::Unordered(UnorderedContainer {
        is_set: false,
        kind: ContainerKind::GraphContainer(GraphContainer { is_graph: false, kind: None }),
    });
    assert_eq!(select_term(&ctx, "http://s/name", vec![none], "@language", vec!["@none"]), Some("nm".to_string()));
    assert_eq!(select_term(&ctx, "http://s/label", vec![none], "@language", vec!["de", "en"]), Some("label".to_string()));
    assert_eq!(select_term(&ctx, "http://s/ref", vec![none], "@type", vec!["@id"]), Some("ref".to_string()));
    assert_eq!(select_term(&ctx, "http://s/ref", vec![Container::List], "@type", vec!["@id"]), None);
}

#[test]
fn one_error_hands_out_items_or_its_error() {
    let mut items: OneError<u32, String> = OneError::new(Ok(vec![1, 2]));
    assert_eq!(items.next(), Some(Ok(1)));
    assert_eq!(items.next(), Some(Ok(2)));
    assert_eq!(items.next(), None);
    let mut failure: OneError<u32, String> = OneError::new(Err("bad".to_string()));
    assert_eq!(failure.next(), Some(Err("bad".to_string())));
    assert_eq!(failure.next(), None);
}

#[test]
fn default_options() {
    let o = no_loader_options();
    assert!(o.compact_arrays && o.compact_to_relative && o.produce_generalized_rdf);
    assert!(!o.ordered && !o.frame_expansion && o.document_loader.is_none());
    assert_eq!(o.processing_mode, JsonLdProcessingMode::JsonLd1_1);
    let c = Context::default();
    assert!(c.term_definitions.is_empty() && c.base_iri.is_none());
}

#[test]
fn reverse_property_replaces_a_protected_term() {
    let options = no_loader_options();
    let mut o = JsonLdOptionsImpl::from_options(&options);
    let mut remote = Vec::new();
    let first = process_context(
        &Context::new(),
        &vec![Some(JsonOrReference::JsonObject(obj(vec![
            ("@protected", JsonValue::Bool(true)),
            ("p", s("http://a/p")),
        ])))],
        None,
        &mut o,
        &mut remote,
        false,
        true,
        true,
        MAX_SCOPED_DEPTH,
    )
    .unwrap();
    let again = process_context(
        &first,
        &vec![Some(JsonOrReference::JsonObject(obj(vec![(
            "p",
            JsonValue::Object(obj(vec![("@reverse", s("http://b/p"))])),
        )])))],
        None,
        &mut o,
        &mut remote,
        false,
        true,
        true,
        MAX_SCOPED_DEPTH,
    )
    .unwrap();
    assert_eq!(again.term_definitions[0].1.iri.as_deref(), Some("http://b/p"));
    assert!(again.term_definitions[0].1.reverse_property);
}

#[test]
fn protected_terms_may_be_overridden() {
    let options = no_loader_options();
    let mut o = JsonLdOptionsImpl::from_options(&options);
    let mut remote = Vec::new();
    let first = context_with(vec![("@protected", JsonValue::Bool(true)), ("p", s("http://a/p"))]).unwrap();
    let again = process_context(
        &first,
        &vec![Some(JsonOrReference::JsonObject(obj(vec![("p", s("http://b/p"))])))],
        None,
        &mut o,
        &mut remote,
        true,
        true,
        true,
        MAX_SCOPED_DEPTH,
    )
    .unwrap();
    assert_eq!(again.term_definitions[0].1.iri.as_deref(), Some("http://b/p"));
}

#[test]
fn term_definitions_stay_in_key_order() {
    let ctx = context_with(vec![
        ("zz", s("http://x/zz")),
        ("a", s("http://x/a")),
        ("bb", s("http://x/bb")),
        ("ab", s("http://x/ab")),
        ("c", s("http://x/c")),
    ])
    .unwrap();
    let keys: Vec<&str> = ctx.term_definitions.iter().map(|(k, _)| k.as_str()).collect();
    assert_eq!(keys, vec!["a", "c", "ab", "bb", "zz"]);
}

#[test]
fn least_term_is_selected() {
    let ctx = context_with(vec![
        ("longer", s("http://s/x")),
        ("b", s("http://s/x")),
        ("a", s("http://s/x")),
    ])
    .unwrap();
    let none = Container::Unordered(UnorderedContainer {
        is_set: false,
        kind: ContainerKind::GraphContainer(GraphContainer { is_graph: false, kind: None }),
    });
    assert_eq!(select_term(&ctx, "http://s/x", vec![none], "@any", vec!["@none"]), Some("a".to_string()));
}

#[test]
fn language_maps_expand_in_order() {
    let doc = obj(vec![
        (
            "@context",
            JsonValue::Object(obj(vec![(
                "label",
                JsonValue::Object(obj(vec![("@id", s("http://s/label")), ("@container", s("@language"))])),
            )])),
        ),
        (
            "label",
            JsonValue::Object(obj(vec![("en", s("hi")), ("@none", arr(vec![s("x"), JsonValue::Null]))])),
        ),
    ]);
    let out = expand(JsonLdInput::JsonObject(&doc), &no_loader_options()).unwrap();
    let expected = arr(vec![JsonValue::Object(obj(vec![(
        "http://s/label",
        arr(vec![
            JsonValue::Object(obj(vec![("@value", s("hi")), ("@language", s("en"))])),
            JsonValue::Object(obj(vec![("@value", s("x"))])),
        ]),
    )]))]);
    assert!(same(&arr(out), &expected), "{:?}", arr(expand(JsonLdInput::JsonObject(&doc), &no_loader_options()).unwrap()));
}

#[test]
fn index_maps_add_their_indices() {
    let doc = obj(vec![
        (
            "@context",
            JsonValue::Object(obj(vec![(
                "post",
                JsonValue::Object(obj(vec![("@id", s("http://s/post")), ("@container", s("@index"))])),
            )])),
        ),
        ("post", JsonValue::Object(obj(vec![("first", JsonValue::Object(obj(vec![("@id", s("http://x/1"))])))]))),
    ]);
    let out = expand(JsonLdInput::JsonObject(&doc), &no_loader_options()).unwrap();
    let expected = arr(vec![JsonValue::Object(obj(vec![(
        "http://s/post",
        arr(vec![JsonValue::Object(obj(vec![("@id", s("http://x/1")), ("@index", s("first"))]))]),
    )]))]);
    assert!(same(&arr(out), &expected), "{:?}", arr(expand(JsonLdInput::JsonObject(&doc), &no_loader_options()).unwrap()));
}

#[test]
fn responses_of_json_ld_type_are_documents() {
    let links: Vec<Result<String, String>> = Vec::new();
    match decide_response("http://x/doc", Some("application/ld+json; profile=\"http://p\""), &links).unwrap() {
        ResponseDecision::Document { content_type, context_url, profile } => {
            assert_eq!(content_type, "application/ld+json");
            assert!(context_url.is_none());
            assert_eq!(profile.as_deref(), Some("http://p"));
        },
        ResponseDecision::Follow(_) => panic!("expected a document"),
    }
}

#[test]
fn json_responses_take_their_context_link() {
    let links: Vec<Result<String, String>> =
        vec![Ok("<ctx.jsonld>; rel=\"http://www.w3.org/ns/json-ld#context\"".to_string())];
    match decide_response("http://x/dir/doc", Some("application/json"), &links).unwrap() {
        ResponseDecision::Document { content_type, context_url, profile } => {
            assert_eq!(content_type, "application/json");
            assert_eq!(context_url.as_deref(), Some("http://x/dir/ctx.jsonld"));
            assert!(profile.is_none());
        },
        ResponseDecision::Follow(_) => panic!("expected a document"),
    }
    let two: Vec<Result<String, String>> = vec![
        Ok("<a>; rel=\"http://www.w3.org/ns/json-ld#context\"".to_string()),
        Ok("<b>; rel=\"http://www.w3.org/ns/json-ld#context\"".to_string()),
    ];
    assert_eq!(
        code(decide_response("http://x/doc", Some("application/vnd.api+json"), &two)),
        Some(JsonLdErrorCode::MultipleContextLinkHeaders)
    );
    let unreadable: Vec<Result<String, String>> = vec![Err("not text".to_string())];
    let e = decide_response("http://x/doc", Some("application/json"), &unreadable).unwrap_err();
    assert_eq!(e.code, JsonLdErrorCode::LoadingDocumentFailed);
    assert_eq!(e.cause.as_deref(), Some("not text"));
}

#[test]
fn other_responses_follow_their_alternate() {
    let links: Vec<Result<String, String>> =
        vec![Ok("<alt.jsonld>; rel=\"alternate\"; type=\"application/ld+json\"".to_string())];
    match decide_response("http://x/dir/page", Some("text/plain"), &links).unwrap() {
        ResponseDecision::Follow(target) => assert_eq!(target, "http://x/dir/alt.jsonld"),
        ResponseDecision::Document { .. } => panic!("expected a link to follow"),
    }
    let e = decide_response("http://x/dir/page", Some("text/html"), &links).unwrap_err();
    assert_eq!(e.description.as_deref(), Some("No JSON representation of resource found"));
    let none: Vec<Result<String, String>> = Vec::new();
    assert_eq!(code(decide_response("http://x/doc", Some("text/plain"), &none)), Some(JsonLdErrorCode::LoadingDocumentFailed));
    let e = decide_response("http://x/doc", None, &none).unwrap_err();
    assert_eq!(e.description.as_deref(), Some("Content-Type header is missing"));
    assert_eq!(code(decide_response("http://x/doc", Some("not a type"), &none)), Some(JsonLdErrorCode::LoadingDocumentFailed));
}

/// A loader that counts its loads.
struct CountingLoader {
    loads: std::cell::Cell<usize>,
}

impl JsonParser for CountingLoader {
    fn parse_json(&self, _text: &str) -> Result<JsonValue, String> {
        Err("no text".to_string())
    }
}

impl DocumentLoader for CountingLoader {
    fn load_document(&self, url: &str, _options: &Option<LoadDocumentOptions>) -> Result<RemoteDocument, JsonLdError> {
        self.loads.set(self.loads.get() + 1);
        Ok(RemoteDocument {
            content_type: "application/ld+json".to_string(),
            context_url: None,
            document: Document::ParsedJson(JsonValue::Object(obj(vec![(
                "@context",
                JsonValue::Object(obj(vec![("t", s("http://v/t"))])),
            )]))),
            document_url: url.to_string(),
            profile: None,
        })
    }
}

#[test]
fn remote_contexts_are_loaded_once_per_call() {
    let mut options: JsonLdOptions<CountingLoader> = JsonLdOptions::default();
    options.document_loader = Some(CountingLoader { loads: std::cell::Cell::new(0) });
    let doc = obj(vec![
        ("@context", s("http://x/ctx")),
        ("t", JsonValue::Object(obj(vec![("@context", s("http://x/ctx")), ("t", s("v"))]))),
    ]);
    let out = expand(JsonLdInput::JsonObject(&doc), &options).unwrap();
    assert_eq!(out.len(), 1);
    assert_eq!(options.document_loader.as_ref().unwrap().loads.get(), 1);
}

#[test]
fn urls_are_parsed_and_resolved() {
    assert_eq!(json_ld_rs::util::resolve("HTTP://Example.ORG", None).unwrap(), "http://example.org/");
    assert_eq!(json_ld_rs::util::resolve("../x", Some("http://a/b/c/d")).unwrap(), "http://a/b/x");
    assert!(json_ld_rs::util::resolve("x", None).is_err());
    assert_eq!(json_ld_rs::util::resolve_with_str("y", Some("http://a/b/")).unwrap(), "http://a/b/y");
    assert!(json_ld_rs::util::is_iri("mailto:a@b"));
    assert!(!json_ld_rs::util::is_iri("relative/path"));
}

#[test]
fn request_url_normalises_or_refuses() {
    assert_eq!(request_url("http://example.com").unwrap(), "http://example.com/");
    assert_eq!(request_url("HTTP://Example.COM/a/../b").unwrap(), "http://example.com/b");
    let e = request_url("not a url").unwrap_err();
    assert_eq!(e.code, JsonLdErrorCode::LoadingDocumentFailed);
    assert!(e.cause.is_some());
}

#[test]
fn typed_response_decisions() {
    let none: Vec<Result<String, String>> = Vec::new();
    match decide_typed_response("http://x/a", "application/ld+json".to_string(), Some("p".to_string()), &none).unwrap() {
        ResponseDecision::Document { content_type, context_url, profile } => {
            assert_eq!(content_type, "application/ld+json");
            assert_eq!(context_url, None);
            assert_eq!(profile, Some("p".to_string()));
        }
        ResponseDecision::Follow(_) => panic!("expected a document"),
    }
    let e = decide_typed_response("http://x/a", "text/html".to_string(), None, &none).unwrap_err();
    assert_eq!(e.code, JsonLdErrorCode::LoadingDocumentFailed);
    assert_eq!(e.description, Some("No JSON representation of resource found".to_string()));
    let links = vec![Ok("<alt.jsonld>; rel=\"alternate\"; type=\"application/ld+json\"".to_string())];
    match decide_typed_response("http://x/dir/a", "text/plain".to_string(), None, &links).unwrap() {
        ResponseDecision::Follow(target) => assert_eq!(target, "http://x/dir/alt.jsonld"),
        ResponseDecision::Document { .. } => panic!("expected an alternate link"),
    }
}

#[test]
fn prefix_flag_of_simple_and_expanded_terms() {
    let ctx = context_with(vec![
        ("s", s("http://example.com/")),
        ("e", JsonValue::Object(obj(vec![("@id", s("http://example.com/"))]))),
    ])
    .unwrap();
    let def = |t: &str| ctx.term_definitions.iter().find(|(k, _)| k.as_str() == t).map(|(_, d)| d).unwrap();
    assert!(def("s").prefix);
    assert!(!def("e").prefix);
}

#[test]
fn type_arrays_hold_strings_only() {
    let doc = obj(vec![("@type", arr(vec![s("http://x/T"), JsonValue::Number("5".to_string())]))]);
    assert_eq!(code(expand(JsonLdInput::JsonObject(&doc), &no_loader_options())), Some(JsonLdErrorCode::InvalidTypeValue));
    let doc = obj(vec![("@id", s("http://x/a")), ("@type", arr(vec![s("http://x/T"), s("http://x/U")]))]);
    let out = expand(JsonLdInput::JsonObject(&doc), &no_loader_options()).unwrap();
    let expected = arr(vec![JsonValue::Object(obj(vec![
        ("@id", s("http://x/a")),
        ("@type", arr(vec![s("http://x/T"), s("http://x/U")])),
    ]))]);
    assert!(same(&arr(out), &expected));
}

#[test]
fn expanded_definition_entries() {
    let options = no_loader_options();
    let define = |term: &str, value: JsonValue| {
        let lc = obj(vec![(term, value.deep_clone())]);
        let mut ctx = Context::new();
        let r = create_term_definition(&mut ctx, &lc, term, &value, &mut Vec::new(), &options, None, false, false);
        (r, ctx)
    };
    let protected = JsonValue::Object(obj(vec![("@id", s("http://example.com/foo")), ("@protected", s("yes"))]));
    assert_eq!(code(define("foo", protected).0), Some(JsonLdErrorCode::InvalidProtectedValue));
    let unknown = JsonValue::Object(obj(vec![("@id", s("http://example.com/x")), ("@protected", JsonValue::Bool(true)), ("@foo", JsonValue::Bool(true))]));
    assert_eq!(code(define("bar", unknown).0), Some(JsonLdErrorCode::InvalidTermDefinition));
    let typed = |t: Option<&str>| {
        let mut entries = vec![("@id", s("http://example.com/a")), ("@container", s("@type"))];
        if let Some(t) = t {
            entries.push(("@type", s(t)));
        }
        define("a", JsonValue::Object(obj(entries)))
    };
    let (r, ctx) = typed(Some("@vocab"));
    assert!(r.is_ok());
    assert_eq!(ctx.term_definitions[0].1.type_mapping.as_deref(), Some("@vocab"));
    let (r, ctx) = typed(None);
    assert!(r.is_ok());
    assert_eq!(ctx.term_definitions[0].1.type_mapping.as_deref(), Some("@id"));
    assert_eq!(code(typed(Some("http://example.com/T")).0), Some(JsonLdErrorCode::InvalidTypeMapping));
}

#[test]
fn accepted_entries_keep_the_terms() {
    let options = no_loader_options();
    let active = context_with(vec![("a", s("http://x/a")), ("b", s("http://x/b"))]).unwrap();
    for entry in vec![("@version", JsonValue::Number("1.1".to_string())), ("@propagate", JsonValue::Bool(true)), ("c", s("http://x/c"))] {
        let local = vec![Some(JsonOrReference::JsonObject(obj(vec![entry])))];
        let mut o = JsonLdOptionsImpl::from_options(&options);
        let c = process_context(&active, &local, None, &mut o, &mut Vec::new(), false, true, true, MAX_SCOPED_DEPTH).unwrap();
        for t in ["a", "b"] {
            let d = c.term_definitions.iter().find(|(k, _)| k.as_str() == t).map(|(_, d)| d).unwrap();
            assert_eq!(d.iri.as_deref(), Some(if t == "a" { "http://x/a" } else { "http://x/b" }));
        }
    }
}

#[test]
fn load_options_carry_the_request() {
    let options = no_loader_options();
    let o = load_options(&options, Some("p".to_string()), vec!["q".to_string(), "r".to_string()]);
    assert_eq!(o.extract_all_scripts, options.extract_all_scripts);
    assert_eq!(o.profile.as_deref(), Some("p"));
    assert_eq!(o.request_profile, vec!["q".to_string(), "r".to_string()]);
}

#[test]
fn simple_entries_become_value_objects() {
    let doc = obj(vec![("http://x/p", s("v")), ("http://x/q", JsonValue::Bool(true)), ("plain", s("dropped"))]);
    let out = expand(JsonLdInput::JsonObject(&doc), &no_loader_options()).unwrap();
    let expected = arr(vec![JsonValue::Object(obj(vec![
        ("http://x/p", arr(vec![JsonValue::Object(obj(vec![("@value", s("v"))]))])),
        ("http://x/q", arr(vec![JsonValue::Object(obj(vec![("@value", JsonValue::Bool(true))]))])),
    ]))]);
    assert!(same(&arr(out), &expected));
}

#[test]
fn refused_containers_stay_refused_in_any_order() {
    for (a, b) in [(vec!["@list", "@set"], vec!["@set", "@list"]), (vec!["@type", "@graph"], vec!["@graph", "@type"]), (vec!["@set", "@id", "@set"], vec!["@set", "@set", "@id"])] {
        assert_eq!(code(parse_container(&a)), Some(JsonLdErrorCode::InvalidContainerMapping));
        assert_eq!(code(parse_container(&b)), Some(JsonLdErrorCode::InvalidContainerMapping));
    }
}

#[test]
fn type_term_definitions() {
    let options = no_loader_options();
    let define = |value: JsonValue| {
        let lc = obj(vec![("@type", value.deep_clone())]);
        let mut ctx = Context::new();
        let r = create_term_definition(&mut ctx, &lc, "@type", &value, &mut Vec::new(), &options, None, false, false);
        (r, ctx)
    };
    let (r, ctx) = define(JsonValue::Object(obj(vec![("@container", s("@set"))])));
    assert!(r.is_ok());
    let d = &ctx.term_definitions[0].1;
    assert_eq!(ctx.term_definitions[0].0, "@type");
    assert_eq!(d.iri.as_deref(), Some("@type"));
    assert!(d.container_mapping.is_set());
    assert!(!d.protected);
    let (r, ctx) = define(JsonValue::Object(obj(vec![("@container", s("@set")), ("@protected", JsonValue::Bool(true))])));
    assert!(r.is_ok());
    assert!(ctx.term_definitions[0].1.protected);
    let (r, _) = define(JsonValue::Object(obj(vec![("@protected", s("yes"))])));
    assert_eq!(code(r), Some(JsonLdErrorCode::InvalidProtectedValue));
}

#[test]
fn scalar_under_a_scoped_term_is_a_value_object() {
    let doc = obj(vec![
        ("@context", JsonValue::Object(obj(vec![("p", JsonValue::Object(obj(vec![("@id", s("http://x/p")), ("@context", JsonValue::Object(Vec::new()))])))]))),
        ("p", s("v")),
    ]);
    let out = expand(JsonLdInput::JsonObject(&doc), &no_loader_options()).unwrap();
    let expected = arr(vec![JsonValue::Object(obj(vec![(
        "http://x/p",
        arr(vec![JsonValue::Object(obj(vec![("@value", s("v"))]))]),
    )]))]);
    assert!(same(&arr(out), &expected));
}

#[test]
fn compact_iri_term_through_its_prefix() {
    let options = no_loader_options();
    let lc = obj(vec![("ex", s("http://example.com/")), ("ex:foo", JsonValue::Object(Vec::new()))]);
    let mut ctx = Context::new();
    let mut defined: Vec<(String, bool)> = Vec::new();
    let r = create_term_definition(&mut ctx, &lc, "ex:foo", &lc[1].1, &mut defined, &options, None, false, false);
    assert!(r.is_ok());
    let def = |t: &str| ctx.term_definitions.iter().find(|(k, _)| k.as_str() == t).map(|(_, d)| d).unwrap();
    assert_eq!(def("ex").iri.as_deref(), Some("http://example.com/"));
    assert!(def("ex").prefix);
    assert_eq!(def("ex:foo").iri.as_deref(), Some("http://example.com/foo"));
    assert!(defined.iter().any(|(k, v)| k.as_str() == "ex" && *v));
    assert!(defined.iter().any(|(k, v)| k.as_str() == "ex:foo" && *v));
}

#[test]
fn value_object_outcomes() {
    let run = |entries: Vec<(&str, JsonValue)>| {
        let doc = obj(vec![("http://x/p", JsonValue::Object(obj(entries)))]);
        expand(JsonLdInput::JsonObject(&doc), &no_loader_options())
    };
    assert_eq!(code(run(vec![("@value", JsonValue::Number("5".to_string())), ("@language", s("en"))])), Some(JsonLdErrorCode::InvalidLanguageTaggedValue));
    assert_eq!(code(run(vec![("@value", s("x")), ("@type", s("_:b"))])), Some(JsonLdErrorCode::InvalidTypedValue));
    assert_eq!(code(run(vec![("@value", s("x")), ("@type", s("http://t")), ("@language", s("en"))])), Some(JsonLdErrorCode::InvalidValueObject));
    assert_eq!(code(run(vec![("@value", s("x")), ("http://x/q", s("y"))])), Some(JsonLdErrorCode::InvalidValueObject));
    let out = run(vec![("@value", JsonValue::Null)]).unwrap();
    assert_eq!(out.len(), 0);
}
