use vstd::prelude::*;

use crate::error::{JsonLdError, JsonLdErrorCode, caused_error, described_error, plain_error};
use crate::json::JsonValue;
use crate::strs::{str_eq, char_len, opt_string_view, string_of};
use crate::{Document, JsonLdOptions, RemoteDocument};
use crate::util::url_parse_outcome;

verus! {

/// The options handed to a document loader.
pub struct LoadDocumentOptions {
    pub extract_all_scripts: bool,
    pub profile: Option<String>,
    pub request_profile: Vec<String>,
}

/// Reads the text of a JSON document.
pub trait JsonParser {
    fn parse_json(&self, text: &str) -> Result<JsonValue, String>;
}

/// Loads the document at a URL.
pub trait DocumentLoader: JsonParser {
    fn load_document(&self, url: &str, options: &Option<LoadDocumentOptions>) -> Result<
        RemoteDocument,
        JsonLdError,
    >;
}

impl Document {
    /// The parsed JSON of the document; the text of a raw document is read by `parser`.
    pub fn into_parsed<P: JsonParser>(self, parser: &P) -> (r: Result<JsonValue, String>)
        ensures
            self matches Document::ParsedJson(v) ==> r == Ok::<JsonValue, String>(v),
    {
        match self {
            Document::ParsedJson(v) => Ok(v),
            Document::RawJson(v) => parser.parse_json(v.as_str()),
        }
    }

    /// A copy of the parsed JSON of the document; the text of a raw document is read by
    /// `parser`.
    pub fn to_parsed<P: JsonParser>(&self, parser: &P) -> (r: Result<JsonValue, String>)
        ensures
            self matches Document::ParsedJson(v) ==> (r matches Ok(w) && w@ == v@),
    {
        match self {
            Document::ParsedJson(v) => Ok(v.deep_clone()),
            Document::RawJson(v) => parser.parse_json(v.as_str()),
        }
    }
}

/// The parsed JSON of a document; the text of a raw document is read by `parser`, and
/// without a parser it cannot be read.
pub fn parse_document<P: JsonParser>(document: &Document, parser: &Option<P>) -> (r: Result<JsonValue, String>)
    ensures
        document matches Document::ParsedJson(v) ==> (r matches Ok(w) && w@ == v@),
        (document is RawJson && parser is None) ==> (r matches Err(m) && m@ == "Default Document Loader is not specified"@),
{
    match parser {
        Some(p) => document.to_parsed(p),
        None => match document {
            Document::ParsedJson(v) => Ok(v.deep_clone()),
            Document::RawJson(_) => Err(string_of("Default Document Loader is not specified")),
        },
    }
}

/// The options of a load for `options` that asks for `profile` and `request_profile`.
pub fn load_options<L: DocumentLoader>(
    options: &JsonLdOptions<L>,
    profile: Option<String>,
    request_profile: Vec<String>,
) -> (o: LoadDocumentOptions)
    ensures
        o.extract_all_scripts == options.extract_all_scripts,
        o.profile == profile,
        o.request_profile@ == request_profile@,
{
    LoadDocumentOptions { extract_all_scripts: options.extract_all_scripts, profile, request_profile }
}

/// Loads the document at `iri` with the document loader of `options`, asking for
/// `profile` and `request_profile`; without a loader, the load fails.
pub fn load_remote<L: DocumentLoader>(
    iri: &str,
    options: &JsonLdOptions<L>,
    profile: Option<String>,
    request_profile: Vec<String>,
) -> (r: Result<RemoteDocument, JsonLdError>)
    ensures
        options.document_loader is None ==> (r matches Err(e) && described_error(
            e,
            JsonLdErrorCode::LoadingDocumentFailed,
            "Default Document Loader is not specified"@,
        )),
{
    let load_document_options = Some(load_options(options, profile, request_profile));
    match &options.document_loader {
        Some(loader) => loader.load_document(iri, &load_document_options),
        None => Err(
            JsonLdError::with_description(
                JsonLdErrorCode::LoadingDocumentFailed,
                "Default Document Loader is not specified",
            ),
        ),
    }
}

/// The profiles joined by spaces.
pub open spec fn join_profiles(p: Seq<Seq<char>>) -> Seq<char>
    decreases p.len(),
{
    if p.len() == 0 {
        Seq::empty()
    } else if p.len() == 1 {
        p[0]
    } else {
        join_profiles(p.drop_last()) + " "@ + p.last()
    }
}

pub open spec fn string_views(p: Seq<String>) -> Seq<Seq<char>> {
    Seq::new(p.len(), |i: int| p[i]@)
}

/// The `Accept` header that the default loader sends.
pub open spec fn accept_spec(request_profile: Seq<Seq<char>>) -> Seq<char> {
    "application/ld+json"@ + (if request_profile.len() == 0 {
        Seq::empty()
    } else {
        ";profile=\""@ + join_profiles(request_profile)
    }) + ", application/json"@
}

/// The `Accept` header for a request that asks for `options`' request profiles.
pub fn accept_header(options: &Option<LoadDocumentOptions>) -> (r: String)
    ensures
        r@ == accept_spec(
            match options {
                Some(o) => string_views(o.request_profile@),
                None => Seq::empty(),
            },
        ),
{
    let mut accept = string_of("application/ld+json");
    let ghost empty: Seq<Seq<char>> = Seq::empty();
    let ghost ps = match options {
        Some(o) => string_views(o.request_profile@),
        None => empty,
    };
    if let Some(o) = options {
        let n = o.request_profile.len();
        if n > 0 {
            accept.append(";profile=\"");
            accept.append(o.request_profile[0].as_str());
            let mut i: usize = 1;
            while i < n
                invariant
                    1 <= i <= n,
                    n == o.request_profile@.len(),
                    ps == string_views(o.request_profile@),
                    accept@ == "application/ld+json"@ + ";profile=\""@ + join_profiles(
                        ps.subrange(0, i as int),
                    ),
                decreases n - i,
            {
                accept.append(" ");
                accept.append(o.request_profile[i].as_str());
                proof {
                    assert(ps.subrange(0, i + 1).drop_last() =~= ps.subrange(0, i as int));
                }
                i = i + 1;
            }
            proof {
                assert(ps.subrange(0, n as int) =~= ps);
                assert(ps.subrange(0, 1) =~= seq![ps[0]]);
            }
        }
    }
    accept.append(", application/json");
    proof {
        assert(accept@ =~= accept_spec(ps));
    }
    accept
}

/// A link of a `Link` header: its target, its relation and its attributes.
#[derive(Debug)]
pub struct Link {
    pub target: String,
    pub rel: String,
    pub attributes: Vec<(String, String)>,
}

pub open spec fn link_view(l: Link) -> (Seq<char>, Seq<char>, Seq<(Seq<char>, Seq<char>)>) {
    (l.target@, l.rel@, Seq::new(l.attributes@.len(), |i: int| (l.attributes@[i].0@, l.attributes@[i].1@)))
}

/// What `http_link::parse_link_header` gives for a header against the URL whose text
/// is `base`: the target, relation and attributes of each link, or the text of the
/// error.
pub uninterp spec fn link_header_outcome(header: Seq<char>, base: Seq<char>) -> Result<
    Seq<(Seq<char>, Seq<char>, Seq<(Seq<char>, Seq<char>)>)>,
    Seq<char>,
>;

/// Parses a `Link` header with `http_link::parse_link_header` against the URL whose
/// text is `base` (parsed with `url::Url::parse`, whose error is that of the call).
/// The contract names the outcome after the arguments; what the RFC makes of a given
/// header is not stated.
#[verifier::external_body]
fn parse_link_header(header: &str, base: &str) -> (r: Result<Vec<Link>, String>)
    ensures
        match r {
            Ok(links) => link_header_outcome(header@, base@) == Ok::<
                Seq<(Seq<char>, Seq<char>, Seq<(Seq<char>, Seq<char>)>)>,
                Seq<char>,
            >(links@.map_values(|l: Link| link_view(l))),
            Err(e) => link_header_outcome(header@, base@) == Err::<
                Seq<(Seq<char>, Seq<char>, Seq<(Seq<char>, Seq<char>)>)>,
                Seq<char>,
            >(e@),
        },
{
    let base = url::Url::parse(base).map_err(|e| e.to_string())?;
    match http_link::parse_link_header(header, &base) {
        Ok(links) => Ok(
            links.into_iter().map(
                |l| Link {
                    target: l.target.as_str().to_string(),
                    rel: l.rel,
                    attributes: l.attributes.into_iter().map(|p| (p.name, p.value)).collect(),
                },
            ).collect(),
        ),
        Err(e) => Err(e.to_string()),
    }
}

/// What parsing a `Content-Type` header with `mime` gives: the essence and the
/// `profile` parameter, or the text of the error.
pub uninterp spec fn content_type_outcome(header: Seq<char>) -> Result<
    (Seq<char>, Option<Seq<char>>),
    Seq<char>,
>;

/// Parses a `Content-Type` header as a `mime::Mime` and reads its essence
/// (`essence_str`) and its `profile` parameter (`get_param`). The contract names the
/// outcome after the header; what the media-type grammar makes of it is not stated.
#[verifier::external_body]
fn parse_content_type(header: &str) -> (r: Result<(String, Option<String>), String>)
    ensures
        match r {
            Ok((essence, profile)) => content_type_outcome(header@) == Ok::<
                (Seq<char>, Option<Seq<char>>),
                Seq<char>,
            >((essence@, match profile {
                Some(p) => Some(p@),
                None => None,
            })),
            Err(e) => content_type_outcome(header@) == Err::<(Seq<char>, Option<Seq<char>>), Seq<char>>(
                e@,
            ),
        },
{
    match header.parse::<mime::Mime>() {
        Ok(m) => Ok(
            (m.essence_str().to_string(), m.get_param("profile").map(|p| p.as_str().to_string())),
        ),
        Err(e) => Err(e.to_string()),
    }
}

/// What the default loader makes of a response.
#[derive(Debug)]
pub enum ResponseDecision {
    /// The response is the document: its media type, the context of its `Link` header
    /// and its profile.
    Document { content_type: String, context_url: Option<String>, profile: Option<String> },
    /// The document is at the target of an alternate link.
    Follow(String),
}

/// The relation of a link to a JSON-LD context.
pub open spec fn context_rel() -> Seq<char> {
    "http://www.w3.org/ns/json-ld#context"@
}

/// The media type is JSON but not JSON-LD.
pub open spec fn is_json_type(t: Seq<char>) -> bool {
    t == "application/json"@ || (t.len() >= 5 && t.subrange(t.len() - 5, t.len() as int)
        == "+json"@)
}

fn ends_with_json(t: &str) -> (r: bool)
    ensures
        r == (t@.len() >= 5 && t@.subrange(t@.len() - 5, t@.len() as int) == "+json"@),
{
    let n = char_len(t);
    if n < 5 {
        return false;
    }
    str_eq(t.substring_char(n - 5, n), "+json")
}

/// A `Link` header as its text, or the text of why it could not be read.
pub open spec fn header_view(h: Result<String, String>) -> Result<Seq<char>, Seq<char>> {
    match h {
        Ok(t) => Ok(t@),
        Err(m) => Err(m@),
    }
}

pub type LinkView = (Seq<char>, Seq<char>, Seq<(Seq<char>, Seq<char>)>);

/// The links of a header against the URL `url`, or the text of the error.
pub open spec fn header_links(url: Seq<char>, h: Result<Seq<char>, Seq<char>>) -> Result<Seq<LinkView>, Seq<char>> {
    match h {
        Ok(t) => link_header_outcome(t, url),
        Err(m) => Err(m),
    }
}

/// What a scan of links for the context link finds: the context URL (or none), the
/// text of an error, or more than one context link.
pub enum LinkScan {
    Done(Option<Seq<char>>),
    Failed(Seq<char>),
    Multiple,
}

/// The scan for the context link through `links`, having found `found` before them.
pub open spec fn scan_context_in(found: Option<Seq<char>>, links: Seq<LinkView>) -> LinkScan
    decreases links.len(),
{
    if links.len() == 0 {
        LinkScan::Done(found)
    } else {
        match scan_context_in(found, links.drop_last()) {
            LinkScan::Done(c) => if links.last().1 == context_rel() {
                if c is Some {
                    LinkScan::Multiple
                } else {
                    LinkScan::Done(Some(links.last().0))
                }
            } else {
                LinkScan::Done(c)
            },
            other => other,
        }
    }
}

/// The scan for the context link through the links of the headers `hs`, in order.
pub open spec fn scan_context_links(url: Seq<char>, hs: Seq<Result<Seq<char>, Seq<char>>>) -> LinkScan
    decreases hs.len(),
{
    if hs.len() == 0 {
        LinkScan::Done(None)
    } else {
        match scan_context_links(url, hs.drop_last()) {
            LinkScan::Done(c) => match header_links(url, hs.last()) {
                Err(m) => LinkScan::Failed(m),
                Ok(links) => scan_context_in(c, links),
            },
            other => other,
        }
    }
}

/// The link is an alternate representation of type `application/ld+json`.
pub open spec fn is_ld_alternate(l: LinkView) -> bool {
    l.1 == "alternate"@ && exists|i: int|
        0 <= i < l.2.len() && #[trigger] l.2[i] == ("type"@, "application/ld+json"@)
}

/// The target of the first link of `links` that is a JSON-LD alternate.
pub open spec fn first_alternate(links: Seq<LinkView>) -> Option<Seq<char>>
    decreases links.len(),
{
    if links.len() == 0 {
        None
    } else {
        match first_alternate(links.drop_last()) {
            Some(t) => Some(t),
            None => if is_ld_alternate(links.last()) {
                Some(links.last().0)
            } else {
                None
            },
        }
    }
}

/// What a scan of the headers for a JSON-LD alternate finds.
pub enum AlternateScan {
    Found(Seq<char>),
    NotFound,
    Failed(Seq<char>),
}

/// The scan for a JSON-LD alternate through the headers `hs`, in order; it stops at
/// the first one found.
pub open spec fn scan_alternate(url: Seq<char>, hs: Seq<Result<Seq<char>, Seq<char>>>) -> AlternateScan
    decreases hs.len(),
{
    if hs.len() == 0 {
        AlternateScan::NotFound
    } else {
        match scan_alternate(url, hs.drop_last()) {
            AlternateScan::NotFound => match header_links(url, hs.last()) {
                Err(m) => AlternateScan::Failed(m),
                Ok(links) => match first_alternate(links) {
                    Some(t) => AlternateScan::Found(t),
                    None => AlternateScan::NotFound,
                },
            },
            other => other,
        }
    }
}

/// The links of one header, read against `url`.
fn links_of(url: &str, h: &Result<String, String>) -> (r: Result<Vec<Link>, String>)
    ensures
        match header_links(url@, header_view(*h)) {
            Ok(ls) => r matches Ok(v) && v@.map_values(|l: Link| link_view(l)) == ls,
            Err(m) => r matches Err(e) && e@ == m,
        },
{
    match h {
        Ok(text) => parse_link_header(text.as_str(), url),
        Err(m) => Err(m.clone()),
    }
}

proof fn lemma_scan_context_in_stays(found: Option<Seq<char>>, links: Seq<LinkView>, n: int)
    requires
        0 <= n <= links.len(),
        !(scan_context_in(found, links.take(n)) is Done),
    ensures
        scan_context_in(found, links) == scan_context_in(found, links.take(n)),
    decreases links.len() - n,
{
    if n == links.len() {
        assert(links.take(n) =~= links);
    } else {
        assert(links.take(n + 1).drop_last() =~= links.take(n));
        lemma_scan_context_in_stays(found, links, n + 1);
    }
}

proof fn lemma_scan_context_links_stays(url: Seq<char>, hs: Seq<Result<Seq<char>, Seq<char>>>, n: int)
    requires
        0 <= n <= hs.len(),
        !(scan_context_links(url, hs.take(n)) is Done),
    ensures
        scan_context_links(url, hs) == scan_context_links(url, hs.take(n)),
    decreases hs.len() - n,
{
    if n == hs.len() {
        assert(hs.take(n) =~= hs);
    } else {
        assert(hs.take(n + 1).drop_last() =~= hs.take(n));
        lemma_scan_context_links_stays(url, hs, n + 1);
    }
}

proof fn lemma_first_alternate_stays(links: Seq<LinkView>, n: int)
    requires
        0 <= n <= links.len(),
        first_alternate(links.take(n)) is Some,
    ensures
        first_alternate(links) == first_alternate(links.take(n)),
    decreases links.len() - n,
{
    if n == links.len() {
        assert(links.take(n) =~= links);
    } else {
        assert(links.take(n + 1).drop_last() =~= links.take(n));
        lemma_first_alternate_stays(links, n + 1);
    }
}

proof fn lemma_scan_alternate_stays(url: Seq<char>, hs: Seq<Result<Seq<char>, Seq<char>>>, n: int)
    requires
        0 <= n <= hs.len(),
        !(scan_alternate(url, hs.take(n)) is NotFound),
    ensures
        scan_alternate(url, hs) == scan_alternate(url, hs.take(n)),
    decreases hs.len() - n,
{
    if n == hs.len() {
        assert(hs.take(n) =~= hs);
    } else {
        assert(hs.take(n + 1).drop_last() =~= hs.take(n));
        lemma_scan_alternate_stays(url, hs, n + 1);
    }
}

pub open spec fn headers_view(hs: Seq<Result<String, String>>) -> Seq<Result<Seq<char>, Seq<char>>> {
    hs.map_values(|h: Result<String, String>| header_view(h))
}

/// The context URL of the `Link` headers of a JSON response.
#[verifier::loop_isolation(false)]
fn context_link(url: &str, link_headers: &Vec<Result<String, String>>) -> (r: Result<Option<String>, JsonLdError>)
    ensures
        match scan_context_links(url@, headers_view(link_headers@)) {
            LinkScan::Done(c) => r matches Ok(x) && opt_string_view(x) == c,
            LinkScan::Failed(m) => r matches Err(e) && caused_error(e, JsonLdErrorCode::LoadingDocumentFailed, m),
            LinkScan::Multiple => r matches Err(e) && plain_error(e, JsonLdErrorCode::MultipleContextLinkHeaders),
        },
{
    let ghost hs = headers_view(link_headers@);
    let mut context_url: Option<String> = None;
    let mut h: usize = 0;
    while h < link_headers.len()
        invariant
            h <= link_headers@.len(),
            hs == headers_view(link_headers@),
            scan_context_links(url@, hs.take(h as int)) == LinkScan::Done(opt_string_view(context_url)),
        decreases link_headers@.len() - h,
    {
        proof {
            assert(hs.take(h + 1).drop_last() =~= hs.take(h as int));
            assert(hs.take(h + 1).last() == header_view(link_headers@[h as int]));
        }
        let links = match links_of(url, &link_headers[h]) {
            Ok(links) => links,
            Err(m) => {
                proof {
                    lemma_scan_context_links_stays(url@, hs, h + 1);
                }
                return Err(JsonLdError::with_cause(JsonLdErrorCode::LoadingDocumentFailed, m));
            },
        };
        let ghost lv = links@.map_values(|l: Link| link_view(l));
        let ghost found0 = opt_string_view(context_url);
        let mut i: usize = 0;
        while i < links.len()
            invariant
                i <= links@.len(),
                lv == links@.map_values(|l: Link| link_view(l)),
                scan_context_in(found0, lv.take(i as int)) == LinkScan::Done(opt_string_view(context_url)),
            decreases links@.len() - i,
        {
            proof {
                assert(lv.take(i + 1).drop_last() =~= lv.take(i as int));
                assert(lv.take(i + 1).last() == link_view(links@[i as int]));
            }
            if str_eq(links[i].rel.as_str(), "http://www.w3.org/ns/json-ld#context") {
                if context_url.is_some() {
                    proof {
                        lemma_scan_context_in_stays(found0, lv, i + 1);
                        lemma_scan_context_links_stays(url@, hs, h + 1);
                    }
                    return Err(JsonLdError::new(JsonLdErrorCode::MultipleContextLinkHeaders));
                }
                context_url = Some(links[i].target.clone());
            }
            i = i + 1;
        }
        proof {
            assert(lv.take(links@.len() as int) =~= lv);
        }
        h = h + 1;
    }
    proof {
        assert(hs.take(link_headers@.len() as int) =~= hs);
    }
    Ok(context_url)
}

/// Whether the attributes hold `type="application/ld+json"`.
fn has_ld_type(attributes: &Vec<(String, String)>) -> (r: bool)
    ensures
        r == exists|i: int|
            0 <= i < attributes@.len() && (#[trigger] attributes@[i]).0@ == "type"@ && attributes@[i].1@
                == "application/ld+json"@,
{
    let mut j: usize = 0;
    while j < attributes.len()
        invariant
            j <= attributes@.len(),
            forall|q: int|
                0 <= q < j ==> !((#[trigger] attributes@[q]).0@ == "type"@ && attributes@[q].1@
                    == "application/ld+json"@),
        decreases attributes@.len() - j,
    {
        if str_eq(attributes[j].0.as_str(), "type") && str_eq(attributes[j].1.as_str(), "application/ld+json") {
            return true;
        }
        j = j + 1;
    }
    false
}

/// The target of the first JSON-LD alternate link of the headers.
#[verifier::loop_isolation(false)]
fn alternate_link(url: &str, link_headers: &Vec<Result<String, String>>) -> (r: Result<Option<String>, String>)
    ensures
        match scan_alternate(url@, headers_view(link_headers@)) {
            AlternateScan::Found(t) => r matches Ok(Some(x)) && x@ == t,
            AlternateScan::NotFound => r matches Ok(None),
            AlternateScan::Failed(m) => r matches Err(e) && e@ == m,
        },
{
    let ghost hs = headers_view(link_headers@);
    let mut h: usize = 0;
    while h < link_headers.len()
        invariant
            h <= link_headers@.len(),
            hs == headers_view(link_headers@),
            scan_alternate(url@, hs.take(h as int)) == AlternateScan::NotFound,
        decreases link_headers@.len() - h,
    {
        proof {
            assert(hs.take(h + 1).drop_last() =~= hs.take(h as int));
            assert(hs.take(h + 1).last() == header_view(link_headers@[h as int]));
        }
        let links = match links_of(url, &link_headers[h]) {
            Ok(links) => links,
            Err(m) => {
                proof {
                    lemma_scan_alternate_stays(url@, hs, h + 1);
                }
                return Err(m);
            },
        };
        let ghost lv = links@.map_values(|l: Link| link_view(l));
        let mut i: usize = 0;
        while i < links.len()
            invariant
                i <= links@.len(),
                lv == links@.map_values(|l: Link| link_view(l)),
                first_alternate(lv.take(i as int)) is None,
            decreases links@.len() - i,
        {
            proof {
                assert(lv.take(i + 1).drop_last() =~= lv.take(i as int));
                assert(lv.take(i + 1).last() == link_view(links@[i as int]));
            }
            if str_eq(links[i].rel.as_str(), "alternate") && has_ld_type(&links[i].attributes) {
                proof {
                    let l = links@[i as int];
                    let w = choose|q: int|
                        0 <= q < l.attributes@.len() && (#[trigger] l.attributes@[q]).0@ == "type"@
                            && l.attributes@[q].1@ == "application/ld+json"@;
                    assert(link_view(l).2[w] == (l.attributes@[w].0@, l.attributes@[w].1@));
                    lemma_first_alternate_stays(lv, i + 1);
                    lemma_scan_alternate_stays(url@, hs, h + 1);
                }
                return Ok(Some(links[i].target.clone()));
            }
            proof {
                let l = links@[i as int];
                if is_ld_alternate(link_view(l)) {
                    let w = choose|q: int|
                        0 <= q < link_view(l).2.len() && #[trigger] link_view(l).2[q] == ("type"@, "application/ld+json"@);
                    assert((l.attributes@[w].0@, l.attributes@[w].1@) == link_view(l).2[w]);
                }
            }
            i = i + 1;
        }
        proof {
            assert(lv.take(links@.len() as int) =~= lv);
        }
        h = h + 1;
    }
    proof {
        assert(hs.take(link_headers@.len() as int) =~= hs);
    }
    Ok(None)
}

/// The URL that the default loader requests for `url`: its text once parsed, or the
/// `loading document failed` error caused by why it cannot be parsed.
pub fn request_url(url: &str) -> (r: Result<String, JsonLdError>)
    ensures
        match url_parse_outcome(url@) {
            Ok(t) => r matches Ok(u) && u@ == t,
            Err(m) => r matches Err(e) && caused_error(e, JsonLdErrorCode::LoadingDocumentFailed, m),
        },
{
    match crate::util::url_parse(url) {
        Ok(t) => Ok(t),
        Err(m) => Err(JsonLdError::with_cause(JsonLdErrorCode::LoadingDocumentFailed, m)),
    }
}

/// What a response whose `Content-Type` has the essence `essence` and the `profile`
/// parameter `profile` is, for a request to `url` with the `Link` headers `hs`.
pub open spec fn typed_decision(
    url: Seq<char>,
    essence: Seq<char>,
    profile: Option<Seq<char>>,
    hs: Seq<Result<Seq<char>, Seq<char>>>,
    r: Result<ResponseDecision, JsonLdError>,
) -> bool {
    if essence == "application/ld+json"@ {
        r matches Ok(ResponseDecision::Document { content_type: t, context_url: None, profile: p }) && t@
            == essence && opt_string_view(p) == profile
    } else if is_json_type(essence) {
        match scan_context_links(url, hs) {
            LinkScan::Done(c) => r matches Ok(
                ResponseDecision::Document { content_type: t, context_url: cu, profile: p },
            ) && t@ == essence && opt_string_view(cu) == c && opt_string_view(p) == profile,
            LinkScan::Failed(m) => r matches Err(e) && caused_error(
                e,
                JsonLdErrorCode::LoadingDocumentFailed,
                m,
            ),
            LinkScan::Multiple => r matches Err(e) && plain_error(
                e,
                JsonLdErrorCode::MultipleContextLinkHeaders,
            ),
        }
    } else if essence == "text/html"@ || essence == "application/xhtml+xml"@ {
        r matches Err(e) && described_error(
            e,
            JsonLdErrorCode::LoadingDocumentFailed,
            "No JSON representation of resource found"@,
        )
    } else {
        match scan_alternate(url, hs) {
            AlternateScan::Found(t) => r matches Ok(ResponseDecision::Follow(x)) && x@ == t,
            AlternateScan::NotFound => r matches Err(e) && described_error(
                e,
                JsonLdErrorCode::LoadingDocumentFailed,
                "No JSON representation of resource found"@,
            ),
            AlternateScan::Failed(m) => r matches Err(e) && caused_error(
                e,
                JsonLdErrorCode::LoadingDocumentFailed,
                m,
            ),
        }
    }
}

/// Decides what a response is once its `Content-Type` header has been read into its
/// essence and `profile` parameter, from its `Link` headers (each as its text, or the
/// text of why it could not be read), for a request to `url`.
pub fn decide_typed_response(
    url: &str,
    essence: String,
    profile: Option<String>,
    link_headers: &Vec<Result<String, String>>,
) -> (r: Result<ResponseDecision, JsonLdError>)
    ensures
        typed_decision(url@, essence@, opt_string_view(profile), headers_view(link_headers@), r),
{
    let e = essence.as_str();
    if str_eq(e, "application/ld+json") {
        return Ok(ResponseDecision::Document { content_type: essence, context_url: None, profile });
    }
    if str_eq(e, "application/json") || ends_with_json(e) {
        let context_url = context_link(url, link_headers)?;
        return Ok(ResponseDecision::Document { content_type: essence, context_url, profile });
    }
    if !(str_eq(e, "text/html") || str_eq(e, "application/xhtml+xml")) {
        match alternate_link(url, link_headers) {
            Ok(Some(target)) => {
                return Ok(ResponseDecision::Follow(target));
            },
            Ok(None) => {},
            Err(m) => {
                return Err(JsonLdError::with_cause(JsonLdErrorCode::LoadingDocumentFailed, m));
            },
        }
    }
    Err(
        JsonLdError::with_description(
            JsonLdErrorCode::LoadingDocumentFailed,
            "No JSON representation of resource found",
        ),
    )
}

/// Decides what a response is, from its `Content-Type` header and its `Link` headers
/// (each as its text, or the text of why it could not be read), for a request to
/// `url`.
pub fn decide_response(url: &str, content_type: Option<&str>, link_headers: &Vec<Result<String, String>>) -> (r: Result<
    ResponseDecision,
    JsonLdError,
>)
    ensures
        content_type is None ==> (r matches Err(e) && described_error(
            e,
            JsonLdErrorCode::LoadingDocumentFailed,
            "Content-Type header is missing"@,
        )),
        content_type matches Some(h) ==> match content_type_outcome(h@) {
            Err(m) => (r matches Err(e) && caused_error(e, JsonLdErrorCode::LoadingDocumentFailed, m)),
            Ok((essence, profile)) => typed_decision(url@, essence, profile, headers_view(link_headers@), r),
        },
{
    let header = match content_type {
        Some(h) => h,
        None => {
            return Err(
                JsonLdError::with_description(
                    JsonLdErrorCode::LoadingDocumentFailed,
                    "Content-Type header is missing",
                ),
            );
        },
    };
    let (essence, profile) = match parse_content_type(header) {
        Ok(p) => p,
        Err(m) => {
            return Err(JsonLdError::with_cause(JsonLdErrorCode::LoadingDocumentFailed, m));
        },
    };
    decide_typed_response(url, essence, profile, link_headers)
}

} // verus!
