use vstd::prelude::*;

use crate::error::{described_error, JsonLdError, JsonLdErrorCode};
use crate::strs::str_eq;

verus! {

/// A container mapping: `@list`, or an unordered container.
#[derive(Clone, Copy, Hash, PartialEq, Eq, Structural, Debug)]
pub enum Container {
    List,
    Unordered(UnorderedContainer),
}

/// An unordered container: whether `@set` is part of it, and its kind.
#[derive(Clone, Copy, Hash, PartialEq, Eq, Structural, Debug)]
pub struct UnorderedContainer {
    pub is_set: bool,
    pub kind: ContainerKind,
}

#[derive(Clone, Copy, Hash, PartialEq, Eq, Structural, Debug)]
pub enum ContainerKind {
    GraphContainer(GraphContainer),
    Language,
    Type,
}

/// Whether `@graph` is part of the container, and whether `@id` or `@index` is.
#[derive(Clone, Copy, Hash, PartialEq, Eq, Structural, Debug)]
pub struct GraphContainer {
    pub is_graph: bool,
    pub kind: Option<GraphContainerKind>,
}

#[derive(Clone, Copy, Hash, PartialEq, Eq, Structural, Debug)]
pub enum GraphContainerKind {
    Id,
    Index,
}

/// The container of no container mapping.
pub open spec fn no_container() -> Container {
    Container::Unordered(
        UnorderedContainer {
            is_set: false,
            kind: ContainerKind::GraphContainer(GraphContainer { is_graph: false, kind: None }),
        },
    )
}

pub open spec fn graph_kind_str(k: GraphContainerKind) -> Seq<char> {
    match k {
        GraphContainerKind::Id => "@id"@,
        GraphContainerKind::Index => "@index"@,
    }
}

pub open spec fn container_kind_str(k: ContainerKind) -> Option<Seq<char>> {
    match k {
        ContainerKind::GraphContainer(GraphContainer { kind: Some(g), .. }) => Some(graph_kind_str(g)),
        ContainerKind::Language => Some("@language"@),
        ContainerKind::Type => Some("@type"@),
        _ => None,
    }
}

pub open spec fn container_is_graph(c: Container) -> bool {
    c matches Container::Unordered(
        UnorderedContainer { kind: ContainerKind::GraphContainer(GraphContainer { is_graph, .. }), .. },
    ) && is_graph
}

pub open spec fn container_is_id(c: Container) -> bool {
    c matches Container::Unordered(
        UnorderedContainer {
            kind: ContainerKind::GraphContainer(GraphContainer { kind: Some(GraphContainerKind::Id), .. }),
            ..
        },
    )
}

pub open spec fn container_is_index(c: Container) -> bool {
    c matches Container::Unordered(
        UnorderedContainer {
            kind: ContainerKind::GraphContainer(
                GraphContainer { kind: Some(GraphContainerKind::Index), .. },
            ),
            ..
        },
    )
}

pub open spec fn container_is_set(c: Container) -> bool {
    c matches Container::Unordered(UnorderedContainer { is_set, .. }) && is_set
}

pub open spec fn container_kind_text(c: Container) -> Option<Seq<char>> {
    match c {
        Container::Unordered(UnorderedContainer { kind, .. }) => container_kind_str(kind),
        Container::List => None,
    }
}

impl Container {
    pub fn is_graph(&self) -> (r: bool)
        ensures
            r == container_is_graph(*self),
    {
        if let Container::Unordered(
            UnorderedContainer {
                kind: ContainerKind::GraphContainer(GraphContainer { is_graph, .. }),
                ..
            },
        ) = self {
            *is_graph
        } else {
            false
        }
    }

    pub fn is_id(&self) -> (r: bool)
        ensures
            r == container_is_id(*self),
    {
        if let Container::Unordered(
            UnorderedContainer {
                kind: ContainerKind::GraphContainer(
                    GraphContainer { kind: Some(GraphContainerKind::Id), .. },
                ),
                ..
            },
        ) = self {
            true
        } else {
            false
        }
    }

    pub fn is_index(&self) -> (r: bool)
        ensures
            r == container_is_index(*self),
    {
        if let Container::Unordered(
            UnorderedContainer {
                kind: ContainerKind::GraphContainer(
                    GraphContainer { kind: Some(GraphContainerKind::Index), .. },
                ),
                ..
            },
        ) = self {
            true
        } else {
            false
        }
    }

    pub fn is_set(&self) -> (r: bool)
        ensures
            r == container_is_set(*self),
    {
        if let Container::Unordered(UnorderedContainer { is_set: true, .. }) = self {
            true
        } else {
            false
        }
    }

    /// The keyword of the container's kind (`@id`, `@index`, `@language` or `@type`).
    pub fn get_kind_str(&self) -> (r: Option<&str>)
        ensures
            match container_kind_text(*self) {
                Some(t) => r matches Some(s) && s@ == t,
                None => r is None,
            },
    {
        if let Container::Unordered(UnorderedContainer { kind, .. }) = self {
            kind.get_kind_str()
        } else {
            None
        }
    }
}

impl ContainerKind {
    pub fn get_kind_str(&self) -> (r: Option<&str>)
        ensures
            match container_kind_str(*self) {
                Some(t) => r matches Some(s) && s@ == t,
                None => r is None,
            },
    {
        match self {
            ContainerKind::GraphContainer(GraphContainer { kind: Some(kind), .. }) => Some(
                kind.as_str(),
            ),
            ContainerKind::Language => Some("@language"),
            ContainerKind::Type => Some("@type"),
            _ => None,
        }
    }
}

impl GraphContainerKind {
    pub fn as_str(&self) -> (r: &str)
        ensures
            r@ == graph_kind_str(*self),
    {
        match self {
            GraphContainerKind::Id => "@id",
            GraphContainerKind::Index => "@index",
        }
    }
}

/// What a scan of the container values has found: whether `@set` and `@graph` were
/// among them and the other value, or the message of the first error.
pub open spec fn scan_containers(s: Seq<Seq<char>>) -> Result<(bool, bool, Option<Seq<char>>), Seq<char>>
    decreases s.len(),
{
    if s.len() == 0 {
        Ok((false, false, None))
    } else {
        match scan_containers(s.drop_last()) {
            Err(m) => Err(m),
            Ok((is_set, is_graph, ty)) => {
                let c = s.last();
                if c == "@set"@ {
                    if is_set {
                        Err("found multiple @set values"@)
                    } else {
                        Ok((true, is_graph, ty))
                    }
                } else if c == "@graph"@ {
                    if is_graph {
                        Err("found multiple @graph values"@)
                    } else {
                        Ok((is_set, true, ty))
                    }
                } else if ty is Some {
                    Err("found multiple non-@set/@graph values"@)
                } else {
                    Ok((is_set, is_graph, Some(c)))
                }
            },
        }
    }
}

/// The container that a scan's findings describe, or the message of the error.
pub open spec fn classify_container(is_set: bool, is_graph: bool, ty: Option<Seq<char>>) -> Result<
    Container,
    Seq<char>,
> {
    if ty == Some("@list"@) {
        if is_set || is_graph {
            Err("@list container can't be composed with other container types"@)
        } else {
            Ok(Container::List)
        }
    } else if ty is None && !(is_set || is_graph) {
        Err("@container cannot be an empty array"@)
    } else if (ty == Some("@language"@) || ty == Some("@type"@)) && is_graph {
        Err("@graph container can't be composed with container types other than @id, @index, and @set"@)
    } else if ty == Some("@language"@) {
        Ok(Container::Unordered(UnorderedContainer { is_set, kind: ContainerKind::Language }))
    } else if ty == Some("@type"@) {
        Ok(Container::Unordered(UnorderedContainer { is_set, kind: ContainerKind::Type }))
    } else if ty is None || ty == Some("@id"@) || ty == Some("@index"@) {
        Ok(
            Container::Unordered(
                UnorderedContainer {
                    is_set,
                    kind: ContainerKind::GraphContainer(
                        GraphContainer {
                            is_graph,
                            kind: if ty == Some("@id"@) {
                                Some(GraphContainerKind::Id)
                            } else if ty == Some("@index"@) {
                                Some(GraphContainerKind::Index)
                            } else {
                                None
                            },
                        },
                    ),
                },
            ),
        )
    } else {
        Err("found unknown container type"@)
    }
}

/// The container that a sequence of container values describes, or the message of
/// the `invalid container mapping` error that they give.
pub open spec fn container_of(s: Seq<Seq<char>>) -> Result<Container, Seq<char>> {
    match scan_containers(s) {
        Err(m) => Err(m),
        Ok((is_set, is_graph, ty)) => classify_container(is_set, is_graph, ty),
    }
}

pub open spec fn str_views(s: Seq<&str>) -> Seq<Seq<char>> {
    Seq::new(s.len(), |i: int| s[i]@)
}

proof fn lemma_scan_containers(s: Seq<Seq<char>>)
    ensures
        scan_containers(s) matches Ok((is_set, is_graph, ty)) ==> {
            &&& is_set == s.contains("@set"@)
            &&& is_graph == s.contains("@graph"@)
            &&& forall|i: int|
                0 <= i < s.len() ==> #[trigger] s[i] == "@set"@ || s[i] == "@graph"@ || ty == Some(s[i])
            &&& (ty matches Some(t) ==> s.contains(t))
            &&& ty != Some("@set"@) && ty != Some("@graph"@)
        },
    decreases s.len(),
{
    reveal_strlit("@set");
    reveal_strlit("@graph");
    if s.len() > 0 {
        let t = s.drop_last();
        lemma_scan_containers(t);
        if scan_containers(s) is Ok {
            assert forall|x: Seq<char>| t.contains(x) implies s.contains(x) by {
                let i = choose|i: int| 0 <= i < t.len() && t[i] == x;
                assert(s[i] == x);
            }
            assert forall|x: Seq<char>| s.contains(x) && x != s.last() implies t.contains(x) by {
                let i = choose|i: int| 0 <= i < s.len() && s[i] == x;
                assert(t[i] == x);
            }
            assert(s[s.len() - 1] == s.last());
            assert forall|i: int| 0 <= i < s.len() implies #[trigger] s[i] == "@set"@ || s[i] == "@graph"@
                || scan_containers(s)->Ok_0.2 == Some(s[i]) by {
                if i < s.len() - 1 {
                    assert(t[i] == s[i]);
                }
            }
        }
    }
}

/// A container parsed from values has `@set` exactly when the values hold `@set`, has
/// `@graph` exactly when they hold `@graph`, and is the list container exactly when
/// they hold `@list`.
pub proof fn law_container_reflects_values(s: Seq<Seq<char>>)
    ensures
        container_of(s) matches Ok(c) ==> {
            &&& container_is_set(c) == s.contains("@set"@)
            &&& container_is_graph(c) == s.contains("@graph"@)
            &&& (c == Container::List) == s.contains("@list"@)
        },
{
    reveal_strlit("@set");
    reveal_strlit("@graph");
    reveal_strlit("@list");
    reveal_strlit("@language");
    reveal_strlit("@type");
    reveal_strlit("@id");
    reveal_strlit("@index");
    lemma_scan_containers(s);
    if container_of(s) is Ok {
        let (is_set, is_graph, ty) = scan_containers(s)->Ok_0;
        if s.contains("@list"@) {
            let i = choose|i: int| 0 <= i < s.len() && s[i] == "@list"@;
            assert(s[i] == "@set"@ || s[i] == "@graph"@ || ty == Some(s[i]));
            assert("@list"@.len() == 5 && "@set"@.len() == 4 && "@graph"@.len() == 6);
            assert(ty == Some("@list"@));
        }
    }
}

/// A container parsed from values is an `@id` container exactly when the values hold
/// `@id`, an `@index` container exactly when they hold `@index`, and its kind text
/// is the one value other than `@set`, `@graph` and `@list`, where there is one.
pub proof fn law_container_kind_reflects_values(s: Seq<Seq<char>>)
    ensures
        container_of(s) matches Ok(c) ==> {
            &&& container_is_id(c) == s.contains("@id"@)
            &&& container_is_index(c) == s.contains("@index"@)
            &&& forall|t: Seq<char>|
                #![trigger s.contains(t)]
                (container_kind_text(c) == Some(t)) <==> (s.contains(t) && t != "@set"@ && t != "@graph"@ && t
                    != "@list"@)
        },
{
    reveal_strlit("@set");
    reveal_strlit("@graph");
    reveal_strlit("@list");
    reveal_strlit("@language");
    reveal_strlit("@type");
    reveal_strlit("@id");
    reveal_strlit("@index");
    assert("@list"@.len() == 5 && "@set"@.len() == 4 && "@graph"@.len() == 6 && "@id"@.len() == 3);
    assert("@index"@.len() == 6 && "@language"@.len() == 9 && "@type"@.len() == 5);
    assert("@index"@[1] != "@graph"@[1] && "@list"@[1] != "@type"@[1]);
    lemma_scan_containers(s);
    if container_of(s) is Ok {
        let (is_set, is_graph, ty) = scan_containers(s)->Ok_0;
        if s.contains("@id"@) {
            let i = choose|i: int| 0 <= i < s.len() && s[i] == "@id"@;
            assert(s[i] == "@set"@ || s[i] == "@graph"@ || ty == Some(s[i]));
        }
        if s.contains("@index"@) {
            let i = choose|i: int| 0 <= i < s.len() && s[i] == "@index"@;
            assert(s[i] == "@set"@ || s[i] == "@graph"@ || ty == Some(s[i]));
        }
        assert forall|t: Seq<char>| #![trigger s.contains(t)]
            (container_kind_text(container_of(s)->Ok_0) == Some(t)) <==> (s.contains(t) && t != "@set"@ && t
                != "@graph"@ && t != "@list"@) by {
            if s.contains(t) && t != "@set"@ && t != "@graph"@ {
                let i = choose|i: int| 0 <= i < s.len() && s[i] == t;
                assert(s[i] == "@set"@ || s[i] == "@graph"@ || ty == Some(s[i]));
            }
        }
    }
}

/// The container that values parse to depends only on which values occur, not on
/// their order: two sequences that hold the same values and both parse give the same
/// container.
pub proof fn law_container_order_irrelevant(s: Seq<Seq<char>>, p: Seq<Seq<char>>)
    requires
        forall|x: Seq<char>| #[trigger] s.contains(x) == p.contains(x),
    ensures
        container_of(s) is Ok && container_of(p) is Ok ==> container_of(s) == container_of(p),
{
    lemma_scan_containers(s);
    lemma_scan_containers(p);
    if container_of(s) is Ok && container_of(p) is Ok {
        let (s1, g1, t1) = scan_containers(s)->Ok_0;
        let (s2, g2, t2) = scan_containers(p)->Ok_0;
        assert(s1 == s2 && g1 == g2);
        if let Some(t) = t1 {
            assert(p.contains(t));
            let i = choose|i: int| 0 <= i < p.len() && p[i] == t;
            assert(p[i] == "@set"@ || p[i] == "@graph"@ || t2 == Some(p[i]));
        }
        if let Some(t) = t2 {
            assert(s.contains(t));
            let i = choose|i: int| 0 <= i < s.len() && s[i] == t;
            assert(s[i] == "@set"@ || s[i] == "@graph"@ || t1 == Some(s[i]));
        }
    }
}

/// How many of the values are neither `@set` nor `@graph`.
pub open spec fn other_count(s: Seq<Seq<char>>) -> nat
    decreases s.len(),
{
    if s.len() == 0 {
        0
    } else {
        other_count(s.drop_last()) + (if s.last() != "@set"@ && s.last() != "@graph"@ {
            1nat
        } else {
            0nat
        })
    }
}

/// The values are refused by the scan exactly when `@set` or `@graph` occurs twice,
/// or two values occur that are neither; where they are not, the findings are what
/// occurs.
proof fn lemma_scan_counts(s: Seq<Seq<char>>)
    ensures
        other_count(s) + s.to_multiset().count("@set"@) + s.to_multiset().count("@graph"@) == s.len(),
        scan_containers(s) is Ok <==> (s.to_multiset().count("@set"@) <= 1 && s.to_multiset().count("@graph"@)
            <= 1 && other_count(s) <= 1),
        scan_containers(s) matches Ok((is_set, is_graph, ty)) ==> is_set == (s.to_multiset().count("@set"@) == 1)
            && is_graph == (s.to_multiset().count("@graph"@) == 1) && (ty is Some) == (other_count(s) == 1),
    decreases s.len(),
{
    broadcast use vstd::seq_lib::group_to_multiset_ensures;
    reveal_strlit("@set");
    reveal_strlit("@graph");
    assert("@set"@.len() == 4 && "@graph"@.len() == 6);
    if s.len() == 0 {
        assert(!s.contains("@set"@));
        assert(!s.contains("@graph"@));
    } else {
        let t = s.drop_last();
        let c = s.last();
        lemma_scan_counts(t);
        assert(s =~= t.push(c));
        assert(s.to_multiset() =~= t.to_multiset().insert(c));
    }
}

/// Putting container values in another order changes neither whether they are
/// refused nor, where they are not, what they parse to.
pub proof fn law_container_reorder(s: Seq<Seq<char>>, p: Seq<Seq<char>>)
    requires
        s.to_multiset() =~= p.to_multiset(),
    ensures
        container_of(s) is Ok <==> container_of(p) is Ok,
        container_of(s) is Ok ==> container_of(s) == container_of(p),
{
    broadcast use vstd::seq_lib::group_to_multiset_ensures;
    lemma_scan_counts(s);
    lemma_scan_counts(p);
    lemma_scan_containers(s);
    lemma_scan_containers(p);
    assert(s.to_multiset().len() == p.to_multiset().len());
    assert(s.len() == p.len());
    if scan_containers(s) is Ok {
        assert(scan_containers(p) is Ok);
        let (s1, g1, t1) = scan_containers(s)->Ok_0;
        let (s2, g2, t2) = scan_containers(p)->Ok_0;
        assert forall|x: Seq<char>| #[trigger] s.contains(x) == p.contains(x) by {
            assert(s.contains(x) <==> s.to_multiset().count(x) > 0);
            assert(p.contains(x) <==> p.to_multiset().count(x) > 0);
        }
        if let Some(t) = t1 {
            assert(p.contains(t));
            let i = choose|i: int| 0 <= i < p.len() && p[i] == t;
            assert(p[i] == "@set"@ || p[i] == "@graph"@ || t2 == Some(p[i]));
        }
        if let Some(t) = t2 {
            assert(s.contains(t));
            let i = choose|i: int| 0 <= i < s.len() && s[i] == t;
            assert(s[i] == "@set"@ || s[i] == "@graph"@ || t1 == Some(s[i]));
        }
        assert(scan_containers(s) == scan_containers(p));
    } else {
        assert(scan_containers(p) is Err);
    }
}

/// Parses the values of a `@container` entry.
pub fn parse_container(containers: &[&str]) -> (r: Result<Container, JsonLdError>)
    ensures
        match container_of(str_views(containers@)) {
            Ok(c) => r == Ok::<Container, JsonLdError>(c),
            Err(m) => (r matches Err(e) && described_error(e, JsonLdErrorCode::InvalidContainerMapping, m)),
        },
{
    let ghost s = str_views(containers@);
    let mut is_set = false;
    let mut is_graph = false;
    let mut container_type: Option<&str> = None;
    let mut i: usize = 0;
    while i < containers.len()
        invariant
            i <= containers@.len(),
            s == str_views(containers@),
            scan_containers(s.subrange(0, i as int)) == Ok::<
                (bool, bool, Option<Seq<char>>),
                Seq<char>,
            >((is_set, is_graph, match container_type {
                Some(t) => Some(t@),
                None => None,
            })),
        decreases containers@.len() - i,
    {
        let container = containers[i];
        proof {
            assert(s.subrange(0, i + 1).drop_last() =~= s.subrange(0, i as int));
            assert(s.subrange(0, i + 1).last() == container@);
        }
        if str_eq(container, "@set") {
            if is_set {
                proof {
                    assert(scan_containers(s.subrange(0, i + 1)) is Err);
                    lemma_scan_err_persists(s, i + 1);
                }
                return Err(
                    JsonLdError::with_description(
                        JsonLdErrorCode::InvalidContainerMapping,
                        "found multiple @set values",
                    ),
                );
            }
            is_set = true;
        } else if str_eq(container, "@graph") {
            if is_graph {
                proof {
                    lemma_scan_err_persists(s, i + 1);
                }
                return Err(
                    JsonLdError::with_description(
                        JsonLdErrorCode::InvalidContainerMapping,
                        "found multiple @graph values",
                    ),
                );
            }
            is_graph = true;
        } else if container_type.is_some() {
            proof {
                lemma_scan_err_persists(s, i + 1);
            }
            return Err(
                JsonLdError::with_description(
                    JsonLdErrorCode::InvalidContainerMapping,
                    "found multiple non-@set/@graph values",
                ),
            );
        } else {
            container_type = Some(container);
        }
        i = i + 1;
    }
    proof {
        assert(s.subrange(0, containers@.len() as int) =~= s);
    }
    classify(is_set, is_graph, container_type)
}

proof fn lemma_scan_err_persists(s: Seq<Seq<char>>, i: int)
    requires
        0 <= i <= s.len(),
        scan_containers(s.subrange(0, i)) is Err,
    ensures
        scan_containers(s) == scan_containers(s.subrange(0, i)),
    decreases s.len() - i,
{
    if i < s.len() {
        assert(s.subrange(0, i + 1).drop_last() =~= s.subrange(0, i));
        lemma_scan_err_persists(s, i + 1);
    } else {
        assert(s.subrange(0, i) =~= s);
    }
}

fn classify(is_set: bool, is_graph: bool, container_type: Option<&str>) -> (r: Result<
    Container,
    JsonLdError,
>)
    ensures
        match classify_container(
            is_set,
            is_graph,
            match container_type {
                Some(t) => Some(t@),
                None => None,
            },
        ) {
            Ok(c) => r == Ok::<Container, JsonLdError>(c),
            Err(m) => (r matches Err(e) && described_error(e, JsonLdErrorCode::InvalidContainerMapping, m)),
        },
{
    let is_list = match container_type {
        Some(t) => str_eq(t, "@list"),
        None => false,
    };
    let is_language = match container_type {
        Some(t) => str_eq(t, "@language"),
        None => false,
    };
    let is_type = match container_type {
        Some(t) => str_eq(t, "@type"),
        None => false,
    };
    let is_id = match container_type {
        Some(t) => str_eq(t, "@id"),
        None => false,
    };
    let is_index = match container_type {
        Some(t) => str_eq(t, "@index"),
        None => false,
    };
    if is_list {
        if is_set || is_graph {
            return Err(
                JsonLdError::with_description(
                    JsonLdErrorCode::InvalidContainerMapping,
                    "@list container can't be composed with other container types",
                ),
            );
        }
        return Ok(Container::List);
    }
    if container_type.is_none() && !(is_set || is_graph) {
        return Err(
            JsonLdError::with_description(
                JsonLdErrorCode::InvalidContainerMapping,
                "@container cannot be an empty array",
            ),
        );
    }
    if (is_language || is_type) && is_graph {
        return Err(
            JsonLdError::with_description(
                JsonLdErrorCode::InvalidContainerMapping,
                "@graph container can't be composed with container types other than @id, @index, and @set",
            ),
        );
    }
    if is_language {
        return Ok(Container::Unordered(UnorderedContainer { is_set, kind: ContainerKind::Language }));
    }
    if is_type {
        return Ok(Container::Unordered(UnorderedContainer { is_set, kind: ContainerKind::Type }));
    }
    let kind = if is_id {
        Some(GraphContainerKind::Id)
    } else if is_index {
        Some(GraphContainerKind::Index)
    } else if container_type.is_none() {
        None
    } else {
        return Err(
            JsonLdError::with_description(
                JsonLdErrorCode::InvalidContainerMapping,
                "found unknown container type",
            ),
        );
    };
    Ok(
        Container::Unordered(
            UnorderedContainer {
                is_set,
                kind: ContainerKind::GraphContainer(GraphContainer { is_graph, kind }),
            },
        ),
    )
}

} // verus!
