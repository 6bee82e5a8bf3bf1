use vstd::prelude::*;

use crate::container::Container;
use crate::strs::{char_len, opt_string_view, str_eq, string_of};
use crate::util::{lang_dir_spec, make_lang_dir};
use crate::context::{key_order, terms_sorted};
use crate::{Context, Direction, TermDefinition};

verus! {

/// One entry of an inverse context: among the terms whose IRI mapping is `iri` and
/// whose container mapping is `container`, `term` is the one chosen for `value` in the
/// `type_language` map (`@language`, `@type` or `@any`).
#[derive(Debug)]
pub struct InverseEntry {
    pub iri: String,
    pub container: Container,
    pub type_language: String,
    pub value: String,
    pub term: String,
}

/// The key of an inverse context entry: IRI, container, type/language map and value.
pub type InverseKey = (Seq<char>, Container, Seq<char>, Seq<char>);

pub open spec fn entry_key(e: InverseEntry) -> InverseKey {
    (e.iri@, e.container, e.type_language@, e.value@)
}

/// The inverse context that a list of entries stands for.
pub open spec fn entries_map(s: Seq<InverseEntry>) -> Map<InverseKey, Seq<char>>
    decreases s.len(),
{
    if s.len() == 0 {
        Map::empty()
    } else {
        entries_map(s.drop_last()).insert(entry_key(s.last()), s.last().term@)
    }
}

/// No two entries have one key.
pub open spec fn unique_keys(s: Seq<InverseEntry>) -> bool {
    forall|i: int, j: int| 0 <= i < j < s.len() ==> entry_key(#[trigger] s[i]) != entry_key(#[trigger] s[j])
}

/// The term for `k` stays where one was chosen before.
pub open spec fn add_if_absent(m: Map<InverseKey, Seq<char>>, k: InverseKey, term: Seq<char>) -> Map<
    InverseKey,
    Seq<char>,
> {
    if m.contains_key(k) {
        m
    } else {
        m.insert(k, term)
    }
}

/// The (type/language map, value) pairs under which a term definition offers its term,
/// in the order in which they are offered.
pub open spec fn offered_pairs(d: TermDefinition, ctx: Context) -> Seq<(Seq<char>, Seq<char>)> {
    let reverse: Seq<(Seq<char>, Seq<char>)> = if d.reverse_property {
        seq![("@type"@, "@reverse"@)]
    } else {
        Seq::empty()
    };
    let language = match d.language_mapping {
        Some(Some(l)) => Some(l@),
        Some(None) => Some("@null"@),
        None => None,
    };
    let lang_dir = lang_dir_spec(language, d.direction_mapping);
    let rest: Seq<(Seq<char>, Seq<char>)> = match opt_string_view(d.type_mapping) {
        Some(t) => if t == "@none"@ {
            seq![("@language"@, "@any"@), ("@type"@, "@any"@)]
        } else {
            seq![("@type"@, t)]
        },
        None => if lang_dir.len() == 0 {
            seq![
                ("@language"@, "@none"@),
                ("@type"@, "@none"@),
                ("@language"@, lang_dir_spec(opt_string_view(ctx.default_language), ctx.default_base_direction)),
            ]
        } else {
            seq![("@language"@, lang_dir)]
        },
    };
    seq![("@any"@, "@none"@)] + reverse + rest
}

/// Offers `term` under each of `pairs` for `iri` and `c`.
pub open spec fn offer_all(
    m: Map<InverseKey, Seq<char>>,
    iri: Seq<char>,
    c: Container,
    pairs: Seq<(Seq<char>, Seq<char>)>,
    term: Seq<char>,
) -> Map<InverseKey, Seq<char>>
    decreases pairs.len(),
{
    if pairs.len() == 0 {
        m
    } else {
        add_if_absent(
            offer_all(m, iri, c, pairs.drop_last(), term),
            (iri, c, pairs.last().0, pairs.last().1),
            term,
        )
    }
}

/// The inverse context of the first `n` term definitions of `ctx`, in their order.
pub open spec fn inverse_upto(ctx: Context, n: int) -> Map<InverseKey, Seq<char>>
    decreases n,
{
    if n <= 0 || n > ctx.term_definitions@.len() {
        Map::empty()
    } else {
        let (k, d) = ctx.term_definitions@[n - 1];
        let m = inverse_upto(ctx, n - 1);
        match d.iri {
            Some(iri) => offer_all(m, iri@, d.container_mapping, offered_pairs(d, ctx), k@),
            None => m,
        }
    }
}

/// The inverse context of an active context.
pub open spec fn inverse_of(ctx: Context) -> Map<InverseKey, Seq<char>> {
    inverse_upto(ctx, ctx.term_definitions@.len() as int)
}

proof fn lemma_entries_map(s: Seq<InverseEntry>)
    requires
        unique_keys(s),
    ensures
        forall|k: InverseKey| #[trigger]
            entries_map(s).contains_key(k) <==> exists|i: int| 0 <= i < s.len() && entry_key(s[i]) == k,
        forall|i: int| 0 <= i < s.len() ==> #[trigger] entries_map(s)[entry_key(s[i])] == s[i].term@,
    decreases s.len(),
{
    if s.len() > 0 {
        let t = s.drop_last();
        assert(unique_keys(t)) by {
            assert forall|i: int, j: int| 0 <= i < j < t.len() implies entry_key(#[trigger] t[i]) != entry_key(
                #[trigger] t[j],
            ) by {
                assert(t[i] == s[i] && t[j] == s[j]);
            }
        }
        lemma_entries_map(t);
        let last = s[s.len() - 1];
        assert(entries_map(s) == entries_map(t).insert(entry_key(last), last.term@));
        assert forall|k: InverseKey| #[trigger]
            entries_map(s).contains_key(k) <==> exists|i: int| 0 <= i < s.len() && entry_key(s[i]) == k by {
            if entries_map(s).contains_key(k) {
                if k == entry_key(last) {
                    assert(entry_key(s[s.len() - 1]) == k);
                } else {
                    assert(entries_map(t).contains_key(k));
                    let i = choose|i: int| 0 <= i < t.len() && entry_key(t[i]) == k;
                    assert(t[i] == s[i]);
                    assert(entry_key(s[i]) == k);
                }
            }
            if exists|i: int| 0 <= i < s.len() && entry_key(s[i]) == k {
                let i = choose|i: int| 0 <= i < s.len() && entry_key(s[i]) == k;
                if i < s.len() - 1 {
                    assert(t[i] == s[i]);
                    assert(entry_key(t[i]) == k);
                    assert(entries_map(t).contains_key(k));
                }
            }
        }
        assert forall|i: int| 0 <= i < s.len() implies #[trigger] entries_map(s)[entry_key(s[i])] == s[i].term@ by {
            if i < s.len() - 1 {
                assert(t[i] == s[i]);
                assert(entry_key(s[i]) != entry_key(s[s.len() - 1]));
                assert(entries_map(t)[entry_key(t[i])] == t[i].term@);
            }
        }
    }
}

/// The index of the entry with key (`iri`, `c`, `tl`, `v`).
fn find_entry(entries: &Vec<InverseEntry>, iri: &str, c: Container, tl: &str, v: &str) -> (r: Option<usize>)
    requires
        unique_keys(entries@),
    ensures
        match r {
            Some(i) => i < entries@.len() && entry_key(entries@[i as int]) == (iri@, c, tl@, v@),
            None => !entries_map(entries@).contains_key((iri@, c, tl@, v@)),
        },
{
    proof {
        lemma_entries_map(entries@);
    }
    let mut i: usize = 0;
    while i < entries.len()
        invariant
            i <= entries@.len(),
            forall|j: int| 0 <= j < i ==> entry_key(#[trigger] entries@[j]) != (iri@, c, tl@, v@),
        decreases entries@.len() - i,
    {
        let e = &entries[i];
        if str_eq(e.iri.as_str(), iri) && e.container == c && str_eq(e.type_language.as_str(), tl) && str_eq(
            e.value.as_str(),
            v,
        ) {
            return Some(i);
        }
        i = i + 1;
    }
    None
}

/// Offers `term` for (`iri`, `c`, `tl`, `v`) where no term is chosen for it yet.
fn offer(entries: &mut Vec<InverseEntry>, iri: &str, c: Container, tl: &str, v: &str, term: &str)
    requires
        unique_keys(old(entries)@),
    ensures
        unique_keys(final(entries)@),
        entries_map(final(entries)@) == add_if_absent(entries_map(old(entries)@), (iri@, c, tl@, v@), term@),
{
    proof {
        lemma_entries_map(entries@);
    }
    match find_entry(entries, iri, c, tl, v) {
        Some(_) => {},
        None => {
            let ghost before = entries@;
            let e = InverseEntry {
                iri: string_of(iri),
                container: c,
                type_language: string_of(tl),
                value: string_of(v),
                term: string_of(term),
            };
            entries.push(e);
            proof {
                assert(entries@.drop_last() =~= before);
                assert forall|i: int, j: int| 0 <= i < j < entries@.len() implies entry_key(
                    #[trigger] entries@[i],
                ) != entry_key(#[trigger] entries@[j]) by {
                    if j == entries@.len() - 1 {
                        assert(entries@[i] == before[i]);
                        if entry_key(before[i]) == (iri@, c, tl@, v@) {
                            assert(entries_map(before).contains_key(entry_key(before[i])));
                        }
                    } else {
                        assert(entries@[i] == before[i] && entries@[j] == before[j]);
                    }
                }
            }
        },
    }
}

fn pair(a: &str, b: &str) -> (r: (String, String))
    ensures
        r.0@ == a@,
        r.1@ == b@,
{
    (string_of(a), string_of(b))
}

/// The pairs under which `d` offers its term.
fn offered(d: &TermDefinition, ctx: &Context) -> (r: Vec<(String, String)>)
    ensures
        r@.map_values(|p: (String, String)| (p.0@, p.1@)) == offered_pairs(*d, *ctx),
{
    let mut r: Vec<(String, String)> = Vec::new();
    r.push(pair("@any", "@none"));
    if d.reverse_property {
        r.push(pair("@type", "@reverse"));
    }
    match &d.type_mapping {
        Some(t) => {
            if str_eq(t.as_str(), "@none") {
                r.push(pair("@language", "@any"));
                r.push(pair("@type", "@any"));
            } else {
                r.push(pair("@type", t.as_str()));
            }
        },
        None => {
            let language: Option<String> = match &d.language_mapping {
                Some(Some(l)) => Some(l.clone()),
                Some(None) => Some(string_of("@null")),
                None => None,
            };
            let lang_dir = make_lang_dir(language, d.direction_mapping);
            if char_len(lang_dir.as_str()) == 0 {
                let default_lang_dir = make_lang_dir(ctx.default_language.clone(), ctx.default_base_direction);
                r.push(pair("@language", "@none"));
                r.push(pair("@type", "@none"));
                r.push((string_of("@language"), default_lang_dir));
            } else {
                r.push((string_of("@language"), lang_dir));
            }
        },
    }
    proof {
        assert(r@.map_values(|p: (String, String)| (p.0@, p.1@)) =~= offered_pairs(*d, *ctx));
    }
    r
}

/// The Inverse Context Creation algorithm: for each IRI, container and type or
/// language, the term that compaction picks. Term definitions are taken in the order
/// of their keys, and the first term offered for an entry keeps it.
pub fn create_inverse_context(active_context: &Context) -> (r: Vec<InverseEntry>)
    ensures
        unique_keys(r@),
        entries_map(r@) == inverse_of(*active_context),
{
    let mut result: Vec<InverseEntry> = Vec::new();
    let n = active_context.term_definitions.len();
    let mut i: usize = 0;
    while i < n
        invariant
            i <= n == active_context.term_definitions@.len(),
            unique_keys(result@),
            entries_map(result@) == inverse_upto(*active_context, i as int),
        decreases n - i,
    {
        let (key, value) = &active_context.term_definitions[i];
        let ghost m0 = entries_map(result@);
        if let Some(iri) = &value.iri {
            let pairs = offered(value, active_context);
            let ghost pv = pairs@.map_values(|p: (String, String)| (p.0@, p.1@));
            let mut j: usize = 0;
            while j < pairs.len()
                invariant
                    j <= pairs@.len(),
                    pv == pairs@.map_values(|p: (String, String)| (p.0@, p.1@)),
                    unique_keys(result@),
                    entries_map(result@) == offer_all(m0, iri@, value.container_mapping, pv.take(j as int), key@),
                decreases pairs@.len() - j,
            {
                offer(
                    &mut result,
                    iri.as_str(),
                    value.container_mapping,
                    pairs[j].0.as_str(),
                    pairs[j].1.as_str(),
                    key.as_str(),
                );
                proof {
                    assert(pv.take(j + 1).drop_last() =~= pv.take(j as int));
                }
                j = j + 1;
            }
            proof {
                assert(pv.take(pairs@.len() as int) =~= pv);
            }
        }
        i = i + 1;
    }
    result
}

/// Every entry of `m` names the term of a definition among the first `n` of `ctx`
/// whose IRI mapping and container mapping are those of the entry.
pub open spec fn entries_from_terms(ctx: Context, m: Map<InverseKey, Seq<char>>, n: int) -> bool {
    forall|k: InverseKey|
        #[trigger] m.contains_key(k) ==> exists|j: int|
            0 <= j < n && ctx.term_definitions@[j].0@ == m[k] && opt_string_view(ctx.term_definitions@[j].1.iri)
                == Some(k.0) && ctx.term_definitions@[j].1.container_mapping == k.1
}

proof fn lemma_offer_all(
    m: Map<InverseKey, Seq<char>>,
    iri: Seq<char>,
    c: Container,
    pairs: Seq<(Seq<char>, Seq<char>)>,
    term: Seq<char>,
)
    ensures
        forall|k: InverseKey| #[trigger]
            m.contains_key(k) ==> offer_all(m, iri, c, pairs, term).contains_key(k) && offer_all(
                m,
                iri,
                c,
                pairs,
                term,
            )[k] == m[k],
        forall|k: InverseKey| #[trigger]
            offer_all(m, iri, c, pairs, term).contains_key(k) ==> m.contains_key(k) || (k.0 == iri && k.1 == c
                && offer_all(m, iri, c, pairs, term)[k] == term),
        forall|i: int| 0 <= i < pairs.len() ==> #[trigger] offer_all(m, iri, c, pairs, term).contains_key(
            (iri, c, pairs[i].0, pairs[i].1),
        ),
    decreases pairs.len(),
{
    if pairs.len() > 0 {
        lemma_offer_all(m, iri, c, pairs.drop_last(), term);
        let m1 = offer_all(m, iri, c, pairs.drop_last(), term);
        assert forall|i: int| 0 <= i < pairs.len() implies #[trigger] offer_all(m, iri, c, pairs, term).contains_key(
            (iri, c, pairs[i].0, pairs[i].1),
        ) by {
            if i < pairs.len() - 1 {
                assert(pairs.drop_last()[i] == pairs[i]);
                assert(m1.contains_key((iri, c, pairs.drop_last()[i].0, pairs.drop_last()[i].1)));
            }
        }
    }
}

proof fn lemma_inverse_upto(ctx: Context, n: int)
    requires
        0 <= n <= ctx.term_definitions@.len(),
    ensures
        entries_from_terms(ctx, inverse_upto(ctx, n), n),
        forall|j: int|
            0 <= j < n && (#[trigger] ctx.term_definitions@[j]).1.iri is Some ==> inverse_upto(ctx, n).contains_key(
                (ctx.term_definitions@[j].1.iri->0@, ctx.term_definitions@[j].1.container_mapping, "@any"@, "@none"@),
            ),
    decreases n,
{
    if n > 0 {
        lemma_inverse_upto(ctx, n - 1);
        let (key, d) = ctx.term_definitions@[n - 1];
        let m0 = inverse_upto(ctx, n - 1);
        let m = inverse_upto(ctx, n);
        if let Some(iri) = d.iri {
            let pairs = offered_pairs(d, ctx);
            lemma_offer_all(m0, iri@, d.container_mapping, pairs, key@);
            assert(pairs[0] == ("@any"@, "@none"@));
            assert(m.contains_key((iri@, d.container_mapping, pairs[0].0, pairs[0].1)));
            assert forall|k: InverseKey| #[trigger] m.contains_key(k) implies exists|j: int|
                0 <= j < n && ctx.term_definitions@[j].0@ == m[k] && opt_string_view(ctx.term_definitions@[j].1.iri)
                    == Some(k.0) && ctx.term_definitions@[j].1.container_mapping == k.1 by {
                if m0.contains_key(k) {
                    let j = choose|j: int|
                        0 <= j < n - 1 && ctx.term_definitions@[j].0@ == m0[k] && opt_string_view(
                            ctx.term_definitions@[j].1.iri,
                        ) == Some(k.0) && ctx.term_definitions@[j].1.container_mapping == k.1;
                    assert(0 <= j < n);
                } else {
                    assert(ctx.term_definitions@[n - 1].0@ == m[k]);
                }
            }
            assert forall|j: int|
                0 <= j < n && (#[trigger] ctx.term_definitions@[j]).1.iri is Some implies m.contains_key(
                (ctx.term_definitions@[j].1.iri->0@, ctx.term_definitions@[j].1.container_mapping, "@any"@, "@none"@),
            ) by {
                if j < n - 1 {
                    assert(m0.contains_key(
                        (ctx.term_definitions@[j].1.iri->0@, ctx.term_definitions@[j].1.container_mapping, "@any"@, "@none"@),
                    ));
                }
            }
        } else {
            assert forall|k: InverseKey| #[trigger] m.contains_key(k) implies exists|j: int|
                0 <= j < n && ctx.term_definitions@[j].0@ == m[k] && opt_string_view(ctx.term_definitions@[j].1.iri)
                    == Some(k.0) && ctx.term_definitions@[j].1.container_mapping == k.1 by {
                let j = choose|j: int|
                    0 <= j < n - 1 && ctx.term_definitions@[j].0@ == m0[k] && opt_string_view(
                        ctx.term_definitions@[j].1.iri,
                    ) == Some(k.0) && ctx.term_definitions@[j].1.container_mapping == k.1;
                assert(0 <= j < n);
            }
        }
    }
}

/// The term under a key of the inverse context stays once the definitions after the
/// first `n` are added.
proof fn lemma_inverse_keeps(ctx: Context, n: int, k: InverseKey)
    requires
        0 <= n <= ctx.term_definitions@.len(),
        inverse_upto(ctx, n).contains_key(k),
    ensures
        inverse_of(ctx).contains_key(k),
        inverse_of(ctx)[k] == inverse_upto(ctx, n)[k],
    decreases ctx.term_definitions@.len() - n,
{
    if n < ctx.term_definitions@.len() {
        let (key, d) = ctx.term_definitions@[n];
        if let Some(iri) = d.iri {
            lemma_offer_all(inverse_upto(ctx, n), iri@, d.container_mapping, offered_pairs(d, ctx), key@);
        }
        lemma_inverse_keeps(ctx, n + 1, k);
    }
}

/// Compaction prefers the least term: among the terms whose IRI mapping is `iri` and
/// whose container mapping is `c`, the inverse context names for them (under `@any`
/// and `@none`) the one whose key comes first, shorter keys before longer ones.
pub proof fn law_least_term_wins(ctx: Context, i: int)
    requires
        terms_sorted(ctx.term_definitions@),
        0 <= i < ctx.term_definitions@.len(),
        ctx.term_definitions@[i].1.iri is Some,
    ensures
        ({
            let d = ctx.term_definitions@[i].1;
            let k = (d.iri->0@, d.container_mapping, "@any"@, "@none"@);
            &&& inverse_of(ctx).contains_key(k)
            &&& (inverse_of(ctx)[k] == ctx.term_definitions@[i].0@ || key_order(
                inverse_of(ctx)[k],
                ctx.term_definitions@[i].0@,
            ))
        }),
{
    let d = ctx.term_definitions@[i].1;
    let k = (d.iri->0@, d.container_mapping, "@any"@, "@none"@);
    lemma_inverse_upto(ctx, i + 1);
    assert(inverse_upto(ctx, i + 1).contains_key(k));
    lemma_inverse_keeps(ctx, i + 1, k);
    let j = choose|j: int|
        0 <= j < i + 1 && ctx.term_definitions@[j].0@ == inverse_upto(ctx, i + 1)[k] && opt_string_view(
            ctx.term_definitions@[j].1.iri,
        ) == Some(k.0) && ctx.term_definitions@[j].1.container_mapping == k.1;
    if j < i {
        assert(key_order(ctx.term_definitions@[j].0@, ctx.term_definitions@[i].0@));
    }
}

/// Every pair under which a definition offers its term is a key of the inverse
/// context, and the term there is that definition's term or one whose key comes
/// before it.
proof fn lemma_offered_pair_least(ctx: Context, i: int, p: int)
    requires
        terms_sorted(ctx.term_definitions@),
        0 <= i < ctx.term_definitions@.len(),
        ctx.term_definitions@[i].1.iri is Some,
        0 <= p < offered_pairs(ctx.term_definitions@[i].1, ctx).len(),
    ensures
        ({
            let d = ctx.term_definitions@[i].1;
            let pr = offered_pairs(d, ctx)[p];
            let k = (d.iri->0@, d.container_mapping, pr.0, pr.1);
            &&& inverse_of(ctx).contains_key(k)
            &&& (inverse_of(ctx)[k] == ctx.term_definitions@[i].0@ || key_order(
                inverse_of(ctx)[k],
                ctx.term_definitions@[i].0@,
            ))
        }),
{
    let (key, d) = ctx.term_definitions@[i];
    let pairs = offered_pairs(d, ctx);
    let k = (d.iri->0@, d.container_mapping, pairs[p].0, pairs[p].1);
    lemma_offer_all(inverse_upto(ctx, i), d.iri->0@, d.container_mapping, pairs, key@);
    assert(inverse_upto(ctx, i + 1) == offer_all(inverse_upto(ctx, i), d.iri->0@, d.container_mapping, pairs, key@));
    assert(inverse_upto(ctx, i + 1).contains_key(k));
    lemma_inverse_upto(ctx, i + 1);
    lemma_inverse_keeps(ctx, i + 1, k);
    let j = choose|j: int|
        0 <= j < i + 1 && ctx.term_definitions@[j].0@ == inverse_upto(ctx, i + 1)[k] && opt_string_view(
            ctx.term_definitions@[j].1.iri,
        ) == Some(k.0) && ctx.term_definitions@[j].1.container_mapping == k.1;
    if j < i {
        assert(key_order(ctx.term_definitions@[j].0@, ctx.term_definitions@[i].0@));
    }
}

/// A term with an IRI and no type, language or direction mapping is offered for
/// values of any type and of any language: the inverse context holds, for its IRI and
/// container, a term under `@type`/`@none` and under `@language`/`@none`, and that term
/// is it or one whose key comes before it.
pub proof fn law_plain_term_offered_for_any_value(ctx: Context, i: int)
    requires
        terms_sorted(ctx.term_definitions@),
        0 <= i < ctx.term_definitions@.len(),
        ctx.term_definitions@[i].1.iri is Some,
        ctx.term_definitions@[i].1.type_mapping is None,
        ctx.term_definitions@[i].1.language_mapping is None,
        ctx.term_definitions@[i].1.direction_mapping is None,
    ensures
        ({
            let d = ctx.term_definitions@[i].1;
            let kt = (d.iri->0@, d.container_mapping, "@type"@, "@none"@);
            let kl = (d.iri->0@, d.container_mapping, "@language"@, "@none"@);
            &&& inverse_of(ctx).contains_key(kt)
            &&& (inverse_of(ctx)[kt] == ctx.term_definitions@[i].0@ || key_order(
                inverse_of(ctx)[kt],
                ctx.term_definitions@[i].0@,
            ))
            &&& inverse_of(ctx).contains_key(kl)
            &&& (inverse_of(ctx)[kl] == ctx.term_definitions@[i].0@ || key_order(
                inverse_of(ctx)[kl],
                ctx.term_definitions@[i].0@,
            ))
        }),
{
    let d = ctx.term_definitions@[i].1;
    let pairs = offered_pairs(d, ctx);
    let r: int = if d.reverse_property {
        1
    } else {
        0
    };
    assert(lang_dir_spec(None, None) =~= Seq::<char>::empty());
    assert(pairs[1 + r] == ("@language"@, "@none"@));
    assert(pairs[2 + r] == ("@type"@, "@none"@));
    lemma_offered_pair_least(ctx, i, 1 + r);
    lemma_offered_pair_least(ctx, i, 2 + r);
}

/// A term with an IRI and a type mapping `t` other than `@none` is offered for values
/// of type `t`: the inverse context holds, for its IRI and container, a term under
/// `@type`/`t`, and that term is it or one whose key comes before it.
pub proof fn law_typed_term_offered_for_its_type(ctx: Context, i: int)
    requires
        terms_sorted(ctx.term_definitions@),
        0 <= i < ctx.term_definitions@.len(),
        ctx.term_definitions@[i].1.iri is Some,
        ctx.term_definitions@[i].1.type_mapping is Some,
        ctx.term_definitions@[i].1.type_mapping->0@ != "@none"@,
    ensures
        ({
            let d = ctx.term_definitions@[i].1;
            let k = (d.iri->0@, d.container_mapping, "@type"@, d.type_mapping->0@);
            &&& inverse_of(ctx).contains_key(k)
            &&& (inverse_of(ctx)[k] == ctx.term_definitions@[i].0@ || key_order(
                inverse_of(ctx)[k],
                ctx.term_definitions@[i].0@,
            ))
        }),
{
    let d = ctx.term_definitions@[i].1;
    let pairs = offered_pairs(d, ctx);
    let r: int = if d.reverse_property {
        1
    } else {
        0
    };
    assert(pairs[1 + r] == ("@type"@, d.type_mapping->0@));
    lemma_offered_pair_least(ctx, i, 1 + r);
}

/// The term that `m` holds for `var`, `c` and `tl` under the first of `pvs` that has one.
pub open spec fn first_preferred(
    m: Map<InverseKey, Seq<char>>,
    var: Seq<char>,
    c: Container,
    tl: Seq<char>,
    pvs: Seq<Seq<char>>,
) -> Option<Seq<char>>
    decreases pvs.len(),
{
    if pvs.len() == 0 {
        None
    } else if m.contains_key((var, c, tl, pvs[0])) {
        Some(m[(var, c, tl, pvs[0])])
    } else {
        first_preferred(m, var, c, tl, pvs.drop_first())
    }
}

/// The term selected for `var`: the first of `cs` under which one of `pvs` has a term,
/// and the first such preferred value.
pub open spec fn selected_term(
    m: Map<InverseKey, Seq<char>>,
    var: Seq<char>,
    cs: Seq<Container>,
    tl: Seq<char>,
    pvs: Seq<Seq<char>>,
) -> Option<Seq<char>>
    decreases cs.len(),
{
    if cs.len() == 0 {
        None
    } else {
        match first_preferred(m, var, cs[0], tl, pvs) {
            Some(t) => Some(t),
            None => selected_term(m, var, cs.drop_first(), tl, pvs),
        }
    }
}

/// `var` is the IRI mapping of a term of `ctx`.
pub open spec fn is_term_iri(ctx: Context, var: Seq<char>) -> bool {
    exists|i: int|
        0 <= i < ctx.term_definitions@.len() && opt_string_view((#[trigger] ctx.term_definitions@[i]).1.iri)
            == Some(var)
}

pub open spec fn is_type_language(tl: Seq<char>) -> bool {
    tl == "@language"@ || tl == "@type"@ || tl == "@any"@
}

/// The Term Selection algorithm: the term that compaction uses for the IRI `var`.
#[verifier::loop_isolation(false)]
pub fn select_term(
    active_context: &Context,
    var: &str,
    containers: Vec<Container>,
    type_language: &str,
    preferred_values: Vec<&str>,
) -> (r: Option<String>)
    requires
        is_term_iri(*active_context, var@),
        is_type_language(type_language@),
    ensures
        opt_string_view(r) == selected_term(
            inverse_of(*active_context),
            var@,
            containers@,
            type_language@,
            preferred_values@.map_values(|s: &str| s@),
        ),
{
    let inverse_context = create_inverse_context(active_context);
    let ghost m = entries_map(inverse_context@);
    let ghost pvs = preferred_values@.map_values(|s: &str| s@);
    proof {
        lemma_entries_map(inverse_context@);
        assert(containers@.skip(0) =~= containers@);
    }
    let mut c: usize = 0;
    while c < containers.len()
        invariant
            c <= containers@.len(),
            selected_term(m, var@, containers@, type_language@, pvs) == selected_term(
                m,
                var@,
                containers@.skip(c as int),
                type_language@,
                pvs,
            ),
        decreases containers@.len() - c,
    {
        proof {
            assert(pvs.skip(0) =~= pvs);
        }
        let mut p: usize = 0;
        while p < preferred_values.len()
            invariant
                p <= preferred_values@.len(),
                c < containers@.len(),
                first_preferred(m, var@, containers@[c as int], type_language@, pvs) == first_preferred(
                    m,
                    var@,
                    containers@[c as int],
                    type_language@,
                    pvs.skip(p as int),
                ),
            decreases preferred_values@.len() - p,
        {
            proof {
                assert(pvs.skip(p as int).drop_first() =~= pvs.skip(p + 1));
                assert(pvs.skip(p as int)[0] == preferred_values@[p as int]@);
            }
            if let Some(i) = find_entry(&inverse_context, var, containers[c], type_language, preferred_values[p]) {
                proof {
                    assert(containers@.skip(c as int)[0] == containers@[c as int]);
                    assert(m[entry_key(inverse_context@[i as int])] == inverse_context@[i as int].term@);
                }
                return Some(inverse_context[i].term.clone());
            }
            p = p + 1;
        }
        proof {
            assert(containers@.skip(c as int).drop_first() =~= containers@.skip(c + 1));
            assert(containers@.skip(c as int)[0] == containers@[c as int]);
            assert(pvs.skip(p as int) =~= Seq::<Seq<char>>::empty());
        }
        c = c + 1;
    }
    None
}

} // verus!

verus! {

proof fn lemma_first_preferred_entry(
    m: Map<InverseKey, Seq<char>>,
    var: Seq<char>,
    c: Container,
    tl: Seq<char>,
    pvs: Seq<Seq<char>>,
)
    ensures
        first_preferred(m, var, c, tl, pvs) matches Some(t) ==> exists|k: InverseKey|
            #[trigger] m.contains_key(k) && k.0 == var && m[k] == t,
    decreases pvs.len(),
{
    if pvs.len() > 0 {
        if m.contains_key((var, c, tl, pvs[0])) {
            let k = (var, c, tl, pvs[0]);
            assert(m.contains_key(k) && k.0 == var);
        } else {
            lemma_first_preferred_entry(m, var, c, tl, pvs.drop_first());
        }
    }
}

proof fn lemma_selected_entry(
    m: Map<InverseKey, Seq<char>>,
    var: Seq<char>,
    cs: Seq<Container>,
    tl: Seq<char>,
    pvs: Seq<Seq<char>>,
)
    ensures
        selected_term(m, var, cs, tl, pvs) matches Some(t) ==> exists|k: InverseKey|
            #[trigger] m.contains_key(k) && k.0 == var && m[k] == t,
    decreases cs.len(),
{
    if cs.len() > 0 {
        lemma_first_preferred_entry(m, var, cs[0], tl, pvs);
        lemma_selected_entry(m, var, cs.drop_first(), tl, pvs);
    }
}

/// The term that Term Selection picks for `var` is a term of the context whose IRI
/// mapping is `var`.
pub proof fn law_selected_term_maps_to_iri(
    ctx: Context,
    var: Seq<char>,
    cs: Seq<Container>,
    tl: Seq<char>,
    pvs: Seq<Seq<char>>,
)
    ensures
        selected_term(inverse_of(ctx), var, cs, tl, pvs) matches Some(t) ==> exists|j: int|
            0 <= j < ctx.term_definitions@.len() && (#[trigger] ctx.term_definitions@[j]).0@ == t
                && opt_string_view(ctx.term_definitions@[j].1.iri) == Some(var),
{
    let m = inverse_of(ctx);
    lemma_inverse_upto(ctx, ctx.term_definitions@.len() as int);
    lemma_selected_entry(m, var, cs, tl, pvs);
    if selected_term(m, var, cs, tl, pvs) is Some {
        let k = choose|k: InverseKey| #[trigger] m.contains_key(k) && k.0 == var && m[k] == selected_term(
            m,
            var,
            cs,
            tl,
            pvs,
        )->0;
        assert(m.contains_key(k));
    }
}

} // verus!
