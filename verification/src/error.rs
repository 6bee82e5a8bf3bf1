use vstd::prelude::*;

verus! {

/// The error codes of the JSON-LD API.
#[derive(Debug, Clone, Copy, PartialEq, Eq, Structural)]
#[non_exhaustive]
pub enum JsonLdErrorCode {
    CollidingKeywords,
    ContextOverflow,
    CyclicIRIMapping,
    InvalidBaseDirection,
    InvalidBaseIRI,
    InvalidContainerMapping,
    InvalidContextEntry,
    InvalidContextNullification,
    InvalidDefaultLanguage,
    InvalidIdValue,
    InvalidImportValue,
    InvalidIndexValue,
    InvalidIRIMapping,
    InvalidJsonLiteral,
    InvalidLanguageMapping,
    InvalidLanguageMapValue,
    InvalidLanguageTaggedString,
    InvalidLanguageTaggedValue,
    InvalidLocalContext,
    InvalidNestValue,
    InvalidPrefixValue,
    InvalidPropagateValue,
    InvalidProtectedValue,
    InvalidRemoteContext,
    InvalidReverseProperty,
    InvalidReversePropertyMap,
    InvalidReversePropertyValue,
    InvalidReverseValue,
    InvalidScopedContext,
    InvalidSetOrListObject,
    InvalidTermDefinition,
    InvalidTypedValue,
    InvalidTypeMapping,
    InvalidTypeValue,
    InvalidValueObject,
    InvalidValueObjectValue,
    InvalidVersionValue,
    InvalidVocabMapping,
    IRIConfusedWithPrefix,
    KeywordRedefinition,
    LoadingDocumentFailed,
    LoadingRemoteContextFailed,
    MultipleContextLinkHeaders,
    ProcessingModeConflict,
    ProtectedTermRedefinition,
}

/// The text that names an error code.
pub open spec fn code_message(code: JsonLdErrorCode) -> Seq<char> {
    match code {
        JsonLdErrorCode::CollidingKeywords => "colliding keywords"@,
        JsonLdErrorCode::ContextOverflow => "context overflow"@,
        JsonLdErrorCode::CyclicIRIMapping => "cyclic IRI mapping"@,
        JsonLdErrorCode::InvalidBaseDirection => "invalid base direction"@,
        JsonLdErrorCode::InvalidBaseIRI => "invalid base IRI"@,
        JsonLdErrorCode::InvalidContainerMapping => "invalid container mapping"@,
        JsonLdErrorCode::InvalidContextEntry => "invalid context entry"@,
        JsonLdErrorCode::InvalidContextNullification => "invalid context nullification"@,
        JsonLdErrorCode::InvalidDefaultLanguage => "invalid default language"@,
        JsonLdErrorCode::InvalidIdValue => "invalid @id value"@,
        JsonLdErrorCode::InvalidImportValue => "invalid @import value"@,
        JsonLdErrorCode::InvalidIndexValue => "invalid @index value"@,
        JsonLdErrorCode::InvalidIRIMapping => "invalid IRI mapping"@,
        JsonLdErrorCode::InvalidJsonLiteral => "invalid JSON literal"@,
        JsonLdErrorCode::InvalidLanguageMapping => "invalid language mapping"@,
        JsonLdErrorCode::InvalidLanguageMapValue => "invalid language map value"@,
        JsonLdErrorCode::InvalidLanguageTaggedString => "invalid language-tagged string"@,
        JsonLdErrorCode::InvalidLanguageTaggedValue => "invalid language-tagged value"@,
        JsonLdErrorCode::InvalidLocalContext => "invalid local context"@,
        JsonLdErrorCode::InvalidNestValue => "invalid @nest value"@,
        JsonLdErrorCode::InvalidPrefixValue => "invalid @prefix value"@,
        JsonLdErrorCode::InvalidPropagateValue => "invalid @propagate value"@,
        JsonLdErrorCode::InvalidProtectedValue => "invalid @protected value"@,
        JsonLdErrorCode::InvalidRemoteContext => "invalid remote context"@,
        JsonLdErrorCode::InvalidReverseProperty => "invalid reverse property"@,
        JsonLdErrorCode::InvalidReversePropertyMap => "invalid reverse property map"@,
        JsonLdErrorCode::InvalidReversePropertyValue => "invalid reverse property value"@,
        JsonLdErrorCode::InvalidReverseValue => "invalid @reverse value"@,
        JsonLdErrorCode::InvalidScopedContext => "invalid scoped context"@,
        JsonLdErrorCode::InvalidSetOrListObject => "invalid set or list object"@,
        JsonLdErrorCode::InvalidTermDefinition => "invalid term definition"@,
        JsonLdErrorCode::InvalidTypedValue => "invalid typed value"@,
        JsonLdErrorCode::InvalidTypeMapping => "invalid type mapping"@,
        JsonLdErrorCode::InvalidTypeValue => "invalid type value"@,
        JsonLdErrorCode::InvalidValueObject => "invalid value object"@,
        JsonLdErrorCode::InvalidValueObjectValue => "invalid value object value"@,
        JsonLdErrorCode::InvalidVersionValue => "invalid @version value"@,
        JsonLdErrorCode::InvalidVocabMapping => "invalid vocab mapping"@,
        JsonLdErrorCode::IRIConfusedWithPrefix => "IRI confused with prefix"@,
        JsonLdErrorCode::KeywordRedefinition => "keyword redefinition"@,
        JsonLdErrorCode::LoadingDocumentFailed => "loading document failed"@,
        JsonLdErrorCode::LoadingRemoteContextFailed => "loading remote context failed"@,
        JsonLdErrorCode::MultipleContextLinkHeaders => "multiple context link headers"@,
        JsonLdErrorCode::ProcessingModeConflict => "processing mode conflict"@,
        JsonLdErrorCode::ProtectedTermRedefinition => "protected term redefinition"@,
    }
}

impl JsonLdErrorCode {
    /// The text that names the error code.
    pub fn message(&self) -> (r: &'static str)
        ensures
            r@ == code_message(*self),
    {
        match self {
            JsonLdErrorCode::CollidingKeywords => "colliding keywords",
            JsonLdErrorCode::ContextOverflow => "context overflow",
            JsonLdErrorCode::CyclicIRIMapping => "cyclic IRI mapping",
            JsonLdErrorCode::InvalidBaseDirection => "invalid base direction",
            JsonLdErrorCode::InvalidBaseIRI => "invalid base IRI",
            JsonLdErrorCode::InvalidContainerMapping => "invalid container mapping",
            JsonLdErrorCode::InvalidContextEntry => "invalid context entry",
            JsonLdErrorCode::InvalidContextNullification => "invalid context nullification",
            JsonLdErrorCode::InvalidDefaultLanguage => "invalid default language",
            JsonLdErrorCode::InvalidIdValue => "invalid @id value",
            JsonLdErrorCode::InvalidImportValue => "invalid @import value",
            JsonLdErrorCode::InvalidIndexValue => "invalid @index value",
            JsonLdErrorCode::InvalidIRIMapping => "invalid IRI mapping",
            JsonLdErrorCode::InvalidJsonLiteral => "invalid JSON literal",
            JsonLdErrorCode::InvalidLanguageMapping => "invalid language mapping",
            JsonLdErrorCode::InvalidLanguageMapValue => "invalid language map value",
            JsonLdErrorCode::InvalidLanguageTaggedString => "invalid language-tagged string",
            JsonLdErrorCode::InvalidLanguageTaggedValue => "invalid language-tagged value",
            JsonLdErrorCode::InvalidLocalContext => "invalid local context",
            JsonLdErrorCode::InvalidNestValue => "invalid @nest value",
            JsonLdErrorCode::InvalidPrefixValue => "invalid @prefix value",
            JsonLdErrorCode::InvalidPropagateValue => "invalid @propagate value",
            JsonLdErrorCode::InvalidProtectedValue => "invalid @protected value",
            JsonLdErrorCode::InvalidRemoteContext => "invalid remote context",
            JsonLdErrorCode::InvalidReverseProperty => "invalid reverse property",
            JsonLdErrorCode::InvalidReversePropertyMap => "invalid reverse property map",
            JsonLdErrorCode::InvalidReversePropertyValue => "invalid reverse property value",
            JsonLdErrorCode::InvalidReverseValue => "invalid @reverse value",
            JsonLdErrorCode::InvalidScopedContext => "invalid scoped context",
            JsonLdErrorCode::InvalidSetOrListObject => "invalid set or list object",
            JsonLdErrorCode::InvalidTermDefinition => "invalid term definition",
            JsonLdErrorCode::InvalidTypedValue => "invalid typed value",
            JsonLdErrorCode::InvalidTypeMapping => "invalid type mapping",
            JsonLdErrorCode::InvalidTypeValue => "invalid type value",
            JsonLdErrorCode::InvalidValueObject => "invalid value object",
            JsonLdErrorCode::InvalidValueObjectValue => "invalid value object value",
            JsonLdErrorCode::InvalidVersionValue => "invalid @version value",
            JsonLdErrorCode::InvalidVocabMapping => "invalid vocab mapping",
            JsonLdErrorCode::IRIConfusedWithPrefix => "IRI confused with prefix",
            JsonLdErrorCode::KeywordRedefinition => "keyword redefinition",
            JsonLdErrorCode::LoadingDocumentFailed => "loading document failed",
            JsonLdErrorCode::LoadingRemoteContextFailed => "loading remote context failed",
            JsonLdErrorCode::MultipleContextLinkHeaders => "multiple context link headers",
            JsonLdErrorCode::ProcessingModeConflict => "processing mode conflict",
            JsonLdErrorCode::ProtectedTermRedefinition => "protected term redefinition",
        }
    }
}

/// An error of the JSON-LD API: its code, a description and the text of what caused it.
#[derive(Debug)]
pub struct JsonLdError {
    pub code: JsonLdErrorCode,
    pub description: Option<String>,
    pub cause: Option<String>,
}

pub open spec fn optional_text(prefix: Seq<char>, text: Option<String>) -> Seq<char> {
    match text {
        Some(t) => prefix + t@,
        None => Seq::empty(),
    }
}

/// The text of an error: its code's text, then `: ` and the description, then a new
/// line, `caused by: ` and the cause, each where there is one.
pub open spec fn error_message(e: JsonLdError) -> Seq<char> {
    code_message(e.code) + optional_text(": "@, e.description) + optional_text(
        "\ncaused by: "@,
        e.cause,
    )
}

/// `e` has code `code`, description `m` and no cause.
pub open spec fn described_error(e: JsonLdError, code: JsonLdErrorCode, m: Seq<char>) -> bool {
    &&& e.code == code
    &&& e.description matches Some(d) && d@ == m
    &&& e.cause is None
}

/// `e` has code `code`, no description and cause `m`.
pub open spec fn caused_error(e: JsonLdError, code: JsonLdErrorCode, m: Seq<char>) -> bool {
    &&& e.code == code
    &&& e.description is None
    &&& e.cause matches Some(c) && c@ == m
}

/// `e` has code `code` and neither description nor cause.
pub open spec fn plain_error(e: JsonLdError, code: JsonLdErrorCode) -> bool {
    &&& e.code == code
    &&& e.description is None
    &&& e.cause is None
}

impl JsonLdError {
    /// An error with a code and nothing more.
    pub fn new(code: JsonLdErrorCode) -> (r: JsonLdError)
        ensures
            r.code == code,
            r.description is None,
            r.cause is None,
    {
        JsonLdError { code, description: None, cause: None }
    }

    /// An error with a code and a description.
    pub fn with_description(code: JsonLdErrorCode, description: &str) -> (r: JsonLdError)
        ensures
            r.code == code,
            r.description matches Some(d) && d@ == description@,
            r.cause is None,
    {
        JsonLdError { code, description: Some(description.to_owned()), cause: None }
    }

    /// An error with a code and the text of its cause.
    pub fn with_cause(code: JsonLdErrorCode, cause: String) -> (r: JsonLdError)
        ensures
            r.code == code,
            r.description is None,
            r.cause == Some(cause),
    {
        JsonLdError { code, description: None, cause: Some(cause) }
    }

    /// An error with a code whose cause is another error.
    pub fn caused_by(code: JsonLdErrorCode, cause: &JsonLdError) -> (r: JsonLdError)
        ensures
            r.code == code,
            r.description is None,
            r.cause matches Some(c) && c@ == error_message(*cause),
    {
        JsonLdError { code, description: None, cause: Some(cause.to_text()) }
    }

    /// The text of the error.
    pub fn to_text(&self) -> (r: String)
        ensures
            r@ == error_message(*self),
    {
        let mut r = self.code.message().to_owned();
        if let Some(d) = &self.description {
            r.append(": ");
            r.append(d.as_str());
        }
        if let Some(c) = &self.cause {
            r.append("\ncaused by: ");
            r.append(c.as_str());
        }
        proof {
            assert(r@ =~= error_message(*self));
        }
        r
    }
}

/// An error as contracts state it: a code alone, or a code and the text of its cause.
pub enum ErrorSpec {
    Plain(JsonLdErrorCode),
    Caused(JsonLdErrorCode, Seq<char>),
}

/// `e` is the error that `s` states.
pub open spec fn error_is(e: JsonLdError, s: ErrorSpec) -> bool {
    match s {
        ErrorSpec::Plain(c) => plain_error(e, c),
        ErrorSpec::Caused(c, m) => caused_error(e, c, m),
    }
}

} // verus!
