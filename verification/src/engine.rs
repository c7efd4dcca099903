//! The search engine: three query operations over the document repository,
//! each producing formatted result text as UTF-8 bytes.

use vstd::prelude::*;

use crate::rank::{sort_desc, sort_desc_exec, sort_lex, sort_lex_exec};
use crate::resources::{DocView, StaticResource};
use crate::score::{score_section, spec_score};
use crate::sections::{parse_sections, spec_parse, Section, SectionView};
use crate::text::{
    append_bytes, append_str, bytes_equal, contains_bytes, contains_seq, dec_u128, join_bytes,
    join_range, lower, lower_bytes, spec_dec, spec_join, spec_lines, split_lines, split_ws,
    split_ws_bytes, str_bytes, str_to_bytes, strip_hashes, strip_heading_marks, trim,
};

verus! {

/// The documentation server: an immutable repository of documents and the
/// query operations over it. Stateless apart from the repository; safe to
/// share.
pub struct AlloyMcpServer {
    /// The catalog documents, in catalog order.
    pub resources: Vec<StaticResource>,
}

/// Arguments of a type lookup.
pub struct LookupTypeRequest {
    /// Type name to search for.
    pub name: String,
}

/// Arguments of a free-text search.
pub struct SearchResourcesRequest {
    /// Free-text query: type name, concept, or error message.
    pub query: String,
    /// Maximum number of results to return; five when absent.
    pub max_results: Option<u32>,
}

impl SearchResourcesRequest {
    /// The number of results returned when `max_results` is absent.
    pub fn default_max_results() -> (r: u32)
        ensures
            r == 5,
    {
        5
    }
}

/// Arguments of a direct fetch.
pub struct GetResourceRequest {
    /// Resource URI to fetch, or the sentinel `list` for the catalog.
    pub uri: String,
}

/// The sections of all documents, in document order.
pub open spec fn spec_all_sections(docs: Seq<DocView>) -> Seq<SectionView>
    decreases docs.len(),
{
    if docs.len() == 0 {
        Seq::empty()
    } else {
        spec_parse(docs[0].uri, docs[0].name, docs[0].content) + spec_all_sections(
            docs.drop_first(),
        )
    }
}

/// The first document whose URI is `uri`, if any.
pub open spec fn spec_find(docs: Seq<DocView>, uri: Seq<u8>) -> Option<DocView>
    decreases docs.len(),
{
    if docs.len() == 0 {
        None
    } else if docs[0].uri == uri {
        Some(docs[0])
    } else {
        spec_find(docs.drop_first(), uri)
    }
}

/// At most the first `n` entries of a ranking.
pub open spec fn take_at_most(l: Seq<(u128, usize)>, n: int) -> Seq<(u128, usize)> {
    if l.len() <= n {
        l
    } else {
        l.take(n)
    }
}

/// The scored section list for a type lookup: each section scoring above
/// zero against the query, as a (score, section index) pair, in section
/// order, starting at section `i`.
pub open spec fn lookup_scored(sections: Seq<SectionView>, q: Seq<u8>, i: int) -> Seq<
    (u128, usize),
>
    decreases sections.len() - i when 0 <= i
{
    if i >= sections.len() {
        Seq::empty()
    } else {
        let head = if spec_score(sections[i], q) > 0 {
            seq![(spec_score(sections[i], q) as u128, i as usize)]
        } else {
            Seq::empty()
        };
        head + lookup_scored(sections, q, i + 1)
    }
}

proof fn lemma_lookup_scored_bounds(sections: Seq<SectionView>, q: Seq<u8>, i: int)
    requires
        0 <= i,
        sections.len() <= usize::MAX,
    ensures
        forall|k: int|
            0 <= k < lookup_scored(sections, q, i).len() ==> i <= (#[trigger] lookup_scored(
                sections,
                q,
                i,
            )[k]).1 < sections.len(),
    decreases sections.len() - i,
{
    if i < sections.len() {
        lemma_lookup_scored_bounds(sections, q, i + 1);
        let l = lookup_scored(sections, q, i);
        let tail = lookup_scored(sections, q, i + 1);
        let head_len: int = if spec_score(sections[i], q) > 0 {
            1
        } else {
            0
        };
        assert forall|k: int| 0 <= k < l.len() implies i <= (#[trigger] l[k]).1
            < sections.len() by {
            if k >= head_len {
                assert(l[k] == tail[k - head_len]);
            }
        }
    }
}

proof fn lemma_lookup_scored_increasing(sections: Seq<SectionView>, q: Seq<u8>, i: int)
    requires
        0 <= i,
        sections.len() <= usize::MAX,
    ensures
        forall|k1: int, k2: int|
            0 <= k1 < k2 < lookup_scored(sections, q, i).len() ==> (#[trigger] lookup_scored(
                sections,
                q,
                i,
            )[k1]).1 < (#[trigger] lookup_scored(sections, q, i)[k2]).1,
    decreases sections.len() - i,
{
    if i < sections.len() {
        lemma_lookup_scored_increasing(sections, q, i + 1);
        lemma_lookup_scored_bounds(sections, q, i + 1);
        let l = lookup_scored(sections, q, i);
        let tail = lookup_scored(sections, q, i + 1);
        let head_len: int = if spec_score(sections[i], q) > 0 {
            1
        } else {
            0
        };
        assert forall|k1: int, k2: int| 0 <= k1 < k2 < l.len() implies (#[trigger] l[k1]).1 < (
        #[trigger] l[k2]).1 by {
            assert(l[k2] == tail[k2 - head_len]);
            if k1 >= head_len {
                assert(l[k1] == tail[k1 - head_len]);
            }
        }
    }
}

/// Ranking stability at the lookup operation: the ranking it renders is in
/// descending score order, and sections with equal scores stand in their
/// order of first appearance in the corpus.
pub proof fn lemma_lookup_ranking_stable(sections: Seq<SectionView>, q: Seq<u8>)
    requires
        sections.len() <= usize::MAX,
    ensures
        crate::rank::ranked_ok(sort_desc(lookup_scored(sections, q, 0))),
        crate::rank::ranked_ok(take_at_most(sort_desc(lookup_scored(sections, q, 0)), 3)),
{
    lemma_lookup_scored_increasing(sections, q, 0);
    crate::rank::lemma_rank_stable(lookup_scored(sections, q, 0));
    let sorted = sort_desc(lookup_scored(sections, q, 0));
    let ranked = take_at_most(sorted, 3);
    assert forall|i: int, j: int| 0 <= i < j < ranked.len() implies (#[trigger] ranked[i]).0 > (
    #[trigger] ranked[j]).0 || (ranked[i].0 == ranked[j].0 && ranked[i].1 < ranked[j].1) by {
        assert(ranked[i] == sorted[i]);
        assert(ranked[j] == sorted[j]);
    }
}

/// One catalog line of the lookup fallback text.
pub open spec fn lookup_catalog_line(d: DocView) -> Seq<u8> {
    str_bytes("  - "@) + d.uri + str_bytes(" ("@) + d.name + str_bytes(")"@)
}

/// The catalog lines of the lookup fallback, in catalog order.
pub open spec fn lookup_catalog_lines(docs: Seq<DocView>) -> Seq<Seq<u8>> {
    docs.map_values(|d: DocView| lookup_catalog_line(d))
}

/// The lookup fallback: a not-found message enumerating the catalog.
pub open spec fn spec_lookup_fallback(docs: Seq<DocView>, q: Seq<u8>) -> Seq<u8> {
    str_bytes("No documentation found for '"@) + q + str_bytes("'. Available resources:\n"@)
        + spec_join(lookup_catalog_lines(docs), str_bytes("\n"@))
}

/// One rendered lookup result: the heading stripped of its leading number
/// signs, the document name, the score, the URI, and the full section body.
pub open spec fn spec_lookup_entry(s: SectionView, score: u128) -> Seq<u8> {
    str_bytes("---\n**"@) + trim(strip_hashes(s.heading)) + str_bytes("** \u{2014} "@)
        + s.resource_name + str_bytes(" (relevance: "@) + spec_dec(score as int) + str_bytes(
        ")\nURI: "@,
    ) + s.uri + str_bytes("\n\n"@) + s.content + str_bytes("\n\n"@)
}

/// The rendered lookup results, in ranked order.
pub open spec fn spec_lookup_entries(
    sections: Seq<SectionView>,
    ranked: Seq<(u128, usize)>,
) -> Seq<u8>
    decreases ranked.len(),
{
    if ranked.len() == 0 {
        Seq::empty()
    } else {
        spec_lookup_entry(sections[ranked[0].1 as int], ranked[0].0) + spec_lookup_entries(
            sections,
            ranked.drop_first(),
        )
    }
}

/// The whole type-lookup result text: the top three sections by score
/// (ties in section order), or the fallback when none scores above zero.
pub open spec fn spec_lookup_type(docs: Seq<DocView>, q: Seq<u8>) -> Seq<u8> {
    let sections = spec_all_sections(docs);
    let ranked = take_at_most(sort_desc(lookup_scored(sections, q, 0)), 3);
    if ranked.len() == 0 {
        spec_lookup_fallback(docs, q)
    } else {
        str_bytes("# Results for '"@) + q + str_bytes("'\n\n"@) + spec_lookup_entries(
            sections,
            ranked,
        )
    }
}

/// The number of results a search keeps: the requested maximum, or five
/// when none was given.
pub open spec fn effective_max(o: Option<u32>) -> int {
    match o {
        Some(m) => m as int,
        None => 5,
    }
}

/// The per-term bonus of a section against the query's terms: ten for each
/// term occurring in the lower-cased heading and five for each term
/// occurring in the lower-cased body, summed over all terms.
pub open spec fn spec_bonus(lh: Seq<u8>, lb: Seq<u8>, terms: Seq<Seq<u8>>) -> int
    decreases terms.len(),
{
    if terms.len() == 0 {
        0
    } else {
        (if contains_seq(lh, terms[0]) {
            10int
        } else {
            0
        }) + (if contains_seq(lb, terms[0]) {
            5int
        } else {
            0
        }) + spec_bonus(lh, lb, terms.drop_first())
    }
}

proof fn lemma_bonus_bounds(lh: Seq<u8>, lb: Seq<u8>, terms: Seq<Seq<u8>>)
    ensures
        0 <= spec_bonus(lh, lb, terms) <= 15 * terms.len(),
    decreases terms.len(),
{
    if terms.len() > 0 {
        lemma_bonus_bounds(lh, lb, terms.drop_first());
    }
}

/// A section's total search score: the base score against the whole query
/// plus the per-term bonus. The bonus accumulates even when the base score
/// is zero, so search surfaces sections on partial term overlap that a
/// type lookup would miss.
pub open spec fn spec_search_score(s: SectionView, q: Seq<u8>, terms: Seq<Seq<u8>>) -> int {
    spec_score(s, q) + spec_bonus(lower(s.heading), lower(s.content), terms)
}

/// The scored section list for a search, starting at section `i`: each
/// section whose total score is above zero, in section order.
pub open spec fn search_scored(
    sections: Seq<SectionView>,
    q: Seq<u8>,
    terms: Seq<Seq<u8>>,
    i: int,
) -> Seq<(u128, usize)>
    decreases sections.len() - i when 0 <= i
{
    if i >= sections.len() {
        Seq::empty()
    } else {
        let head = if spec_search_score(sections[i], q, terms) > 0 {
            seq![(spec_search_score(sections[i], q, terms) as u128, i as usize)]
        } else {
            Seq::empty()
        };
        head + search_scored(sections, q, terms, i + 1)
    }
}

proof fn lemma_search_scored_bounds(
    sections: Seq<SectionView>,
    q: Seq<u8>,
    terms: Seq<Seq<u8>>,
    i: int,
)
    requires
        0 <= i,
        sections.len() <= usize::MAX,
    ensures
        forall|k: int|
            0 <= k < search_scored(sections, q, terms, i).len() ==> i <= (
            #[trigger] search_scored(sections, q, terms, i)[k]).1 < sections.len(),
    decreases sections.len() - i,
{
    if i < sections.len() {
        lemma_search_scored_bounds(sections, q, terms, i + 1);
        let l = search_scored(sections, q, terms, i);
        let tail = search_scored(sections, q, terms, i + 1);
        let head_len: int = if spec_search_score(sections[i], q, terms) > 0 {
            1
        } else {
            0
        };
        assert forall|k: int| 0 <= k < l.len() implies i <= (#[trigger] l[k]).1
            < sections.len() by {
            if k >= head_len {
                assert(l[k] == tail[k - head_len]);
            }
        }
    }
}

proof fn lemma_search_scored_increasing(
    sections: Seq<SectionView>,
    q: Seq<u8>,
    terms: Seq<Seq<u8>>,
    i: int,
)
    requires
        0 <= i,
        sections.len() <= usize::MAX,
    ensures
        forall|k1: int, k2: int|
            0 <= k1 < k2 < search_scored(sections, q, terms, i).len() ==> (
            #[trigger] search_scored(sections, q, terms, i)[k1]).1 < (#[trigger] search_scored(
                sections,
                q,
                terms,
                i,
            )[k2]).1,
    decreases sections.len() - i,
{
    if i < sections.len() {
        lemma_search_scored_increasing(sections, q, terms, i + 1);
        lemma_search_scored_bounds(sections, q, terms, i + 1);
        let l = search_scored(sections, q, terms, i);
        let tail = search_scored(sections, q, terms, i + 1);
        let head_len: int = if spec_search_score(sections[i], q, terms) > 0 {
            1
        } else {
            0
        };
        assert forall|k1: int, k2: int| 0 <= k1 < k2 < l.len() implies (#[trigger] l[k1]).1 < (
        #[trigger] l[k2]).1 by {
            assert(l[k2] == tail[k2 - head_len]);
            if k1 >= head_len {
                assert(l[k1] == tail[k1 - head_len]);
            }
        }
    }
}

/// Ranking stability at the search operation: the ranking it renders is in
/// descending total-score order, and sections with equal totals stand in
/// their order of first appearance in the corpus.
pub proof fn lemma_search_ranking_stable(
    sections: Seq<SectionView>,
    q: Seq<u8>,
    terms: Seq<Seq<u8>>,
    max: int,
)
    requires
        0 <= max,
        sections.len() <= usize::MAX,
    ensures
        crate::rank::ranked_ok(sort_desc(search_scored(sections, q, terms, 0))),
        crate::rank::ranked_ok(take_at_most(sort_desc(search_scored(sections, q, terms, 0)), max)),
{
    lemma_search_scored_increasing(sections, q, terms, 0);
    crate::rank::lemma_rank_stable(search_scored(sections, q, terms, 0));
    let sorted = sort_desc(search_scored(sections, q, terms, 0));
    let ranked = take_at_most(sorted, max);
    assert forall|i: int, j: int| 0 <= i < j < ranked.len() implies (#[trigger] ranked[i]).0 > (
    #[trigger] ranked[j]).0 || (ranked[i].0 == ranked[j].0 && ranked[i].1 < ranked[j].1) by {
        assert(ranked[i] == sorted[i]);
        assert(ranked[j] == sorted[j]);
    }
}

/// A section's body preview: the full body, or its first forty lines with
/// a trailer giving the number of further lines and the URI to fetch.
pub open spec fn spec_preview(s: SectionView) -> Seq<u8> {
    let ls = spec_lines(s.content);
    if ls.len() > 40 {
        spec_join(ls.take(40), str_bytes("\n"@)) + str_bytes("\n\n... ("@) + spec_dec(
            ls.len() - 40,
        ) + str_bytes(" more lines, fetch full resource: "@) + s.uri + str_bytes(")"@)
    } else {
        s.content
    }
}

/// One catalog line of the search fallback text.
pub open spec fn search_catalog_line(d: DocView) -> Seq<u8> {
    str_bytes("  - "@) + d.uri + str_bytes(" \u{2014} "@) + d.description
}

/// The catalog lines of the search fallback, in catalog order.
pub open spec fn search_catalog_lines(docs: Seq<DocView>) -> Seq<Seq<u8>> {
    docs.map_values(|d: DocView| search_catalog_line(d))
}

/// The search fallback: a no-results message enumerating the catalog.
pub open spec fn spec_search_fallback(docs: Seq<DocView>, q: Seq<u8>) -> Seq<u8> {
    str_bytes("No results for '"@) + q + str_bytes("'. Available resources:\n"@) + spec_join(
        search_catalog_lines(docs),
        str_bytes("\n"@),
    )
}

/// One rendered search result; unlike a lookup result it shows no score
/// and previews long bodies.
pub open spec fn spec_search_entry(s: SectionView) -> Seq<u8> {
    str_bytes("---\n**"@) + trim(strip_hashes(s.heading)) + str_bytes("** \u{2014} "@)
        + s.resource_name + str_bytes("\nURI: "@) + s.uri + str_bytes("\n\n"@) + spec_preview(s)
        + str_bytes("\n\n"@)
}

/// The rendered search results, in ranked order.
pub open spec fn spec_search_entries(
    sections: Seq<SectionView>,
    ranked: Seq<(u128, usize)>,
) -> Seq<u8>
    decreases ranked.len(),
{
    if ranked.len() == 0 {
        Seq::empty()
    } else {
        spec_search_entry(sections[ranked[0].1 as int]) + spec_search_entries(
            sections,
            ranked.drop_first(),
        )
    }
}

/// The whole search result text: the sections with the highest total
/// scores (ties in section order), at most `max` of them, or the fallback
/// when none scores above zero or `max` is not positive.
pub open spec fn spec_search_resources(docs: Seq<DocView>, q: Seq<u8>, max: int) -> Seq<u8> {
    let sections = spec_all_sections(docs);
    let terms = split_ws(lower(q));
    let ranked = take_at_most(sort_desc(search_scored(sections, q, terms, 0)), max);
    if ranked.len() == 0 {
        spec_search_fallback(docs, q)
    } else {
        str_bytes("# Search results for '"@) + q + str_bytes("'\n\n"@) + spec_search_entries(
            sections,
            ranked,
        )
    }
}

proof fn lemma_lookup_fallback_has_uri(docs: Seq<DocView>, q: Seq<u8>, k: int)
    requires
        0 <= k < docs.len(),
    ensures
        contains_seq(spec_lookup_fallback(docs, q), docs[k].uri),
{
    let lines = lookup_catalog_lines(docs);
    let nl = str_bytes("\n"@);
    let d = docs[k];
    let pre = str_bytes("  - "@);
    let post = str_bytes(" ("@) + d.name + str_bytes(")"@);
    assert(pre + d.uri + post =~= lines[k]);
    crate::text::lemma_contains_mid(pre, d.uri, post);
    crate::text::lemma_join_contains(lines, nl, k);
    crate::text::lemma_contains_trans(spec_join(lines, nl), lines[k], d.uri);
    let hdr = str_bytes("No documentation found for '"@) + q + str_bytes(
        "'. Available resources:\n"@,
    );
    crate::text::lemma_contains_extend(hdr, spec_join(lines, nl), Seq::<u8>::empty(), d.uri);
    assert(hdr + spec_join(lines, nl) + Seq::<u8>::empty() =~= spec_lookup_fallback(docs, q));
}

/// Fallback totality for type lookups: when no section scores above zero
/// against the query, the returned text contains every catalog URI.
pub proof fn lemma_lookup_fallback_totality(docs: Seq<DocView>, q: Seq<u8>)
    requires
        lookup_scored(spec_all_sections(docs), q, 0).len() == 0,
    ensures
        forall|k: int|
            0 <= k < docs.len() ==> contains_seq(spec_lookup_type(docs, q), (
            #[trigger] docs[k]).uri),
{
    assert(sort_desc(lookup_scored(spec_all_sections(docs), q, 0)) =~= Seq::<(u128, usize)>::empty());
    assert forall|k: int| 0 <= k < docs.len() implies contains_seq(
        spec_lookup_type(docs, q),
        (#[trigger] docs[k]).uri,
    ) by {
        lemma_lookup_fallback_has_uri(docs, q, k);
    }
}

proof fn lemma_search_fallback_has_uri(docs: Seq<DocView>, q: Seq<u8>, k: int)
    requires
        0 <= k < docs.len(),
    ensures
        contains_seq(spec_search_fallback(docs, q), docs[k].uri),
{
    let lines = search_catalog_lines(docs);
    let nl = str_bytes("\n"@);
    let d = docs[k];
    let pre = str_bytes("  - "@);
    let post = str_bytes(" \u{2014} "@) + d.description;
    assert(pre + d.uri + post =~= lines[k]);
    crate::text::lemma_contains_mid(pre, d.uri, post);
    crate::text::lemma_join_contains(lines, nl, k);
    crate::text::lemma_contains_trans(spec_join(lines, nl), lines[k], d.uri);
    let hdr = str_bytes("No results for '"@) + q + str_bytes("'. Available resources:\n"@);
    crate::text::lemma_contains_extend(hdr, spec_join(lines, nl), Seq::<u8>::empty(), d.uri);
    assert(hdr + spec_join(lines, nl) + Seq::<u8>::empty() =~= spec_search_fallback(docs, q));
}

/// Fallback totality for searches: when no section has a positive total
/// score against the query, the returned text contains every catalog URI,
/// whatever maximum was requested.
pub proof fn lemma_search_fallback_totality(docs: Seq<DocView>, q: Seq<u8>, max: int)
    requires
        0 <= max,
        search_scored(spec_all_sections(docs), q, split_ws(lower(q)), 0).len() == 0,
    ensures
        forall|k: int|
            0 <= k < docs.len() ==> contains_seq(spec_search_resources(docs, q, max), (
            #[trigger] docs[k]).uri),
{
    assert(sort_desc(search_scored(spec_all_sections(docs), q, split_ws(lower(q)), 0)) =~= Seq::<
        (u128, usize),
    >::empty());
    assert(spec_search_resources(docs, q, max) == spec_search_fallback(docs, q));
    assert forall|k: int| 0 <= k < docs.len() implies contains_seq(
        spec_search_resources(docs, q, max),
        (#[trigger] docs[k]).uri,
    ) by {
        lemma_search_fallback_has_uri(docs, q, k);
    }
}

/// One rendered catalog entry of the list text.
pub open spec fn list_entry(d: DocView) -> Seq<u8> {
    str_bytes("- **"@) + d.name + str_bytes("**\n  URI: `"@) + d.uri + str_bytes("`\n  "@)
        + d.description
}

/// The rendered catalog entries, in catalog order, before sorting.
pub open spec fn list_entries(docs: Seq<DocView>) -> Seq<Seq<u8>> {
    docs.map_values(|d: DocView| list_entry(d))
}

/// The catalog text: every entry, sorted lexicographically as rendered.
pub open spec fn spec_list_text(docs: Seq<DocView>) -> Seq<u8> {
    str_bytes("# Available Resources\n\n"@) + spec_join(
        sort_lex(list_entries(docs)),
        str_bytes("\n\n"@),
    )
}

/// One catalog line of the fetch not-found text.
pub open spec fn notfound_line(d: DocView) -> Seq<u8> {
    str_bytes("  "@) + d.uri + str_bytes(" \u{2014} "@) + d.name
}

/// The catalog lines of the fetch not-found text, in catalog order.
pub open spec fn notfound_lines(docs: Seq<DocView>) -> Seq<Seq<u8>> {
    docs.map_values(|d: DocView| notfound_line(d))
}

/// The fetch not-found text: a message enumerating every catalog URI.
pub open spec fn spec_notfound(docs: Seq<DocView>, uri: Seq<u8>) -> Seq<u8> {
    str_bytes("Resource not found: '"@) + uri + str_bytes("'\n\nAvailable URIs:\n"@) + spec_join(
        notfound_lines(docs),
        str_bytes("\n"@),
    )
}

/// The whole fetch result text: the catalog for the sentinel `list`, the
/// raw content of the named document, or the not-found text.
pub open spec fn spec_get_resource(docs: Seq<DocView>, uri: Seq<u8>) -> Seq<u8> {
    if uri == str_bytes("list"@) {
        spec_list_text(docs)
    } else {
        match spec_find(docs, uri) {
            Some(d) => d.content,
            None => spec_notfound(docs, uri),
        }
    }
}

/// Appends one rendered lookup result to `out`.
fn append_lookup_entry(out: &mut Vec<u8>, s: &Section, score: u128)
    ensures
        final(out)@ == old(out)@ + spec_lookup_entry(s@, score),
{
    append_str(out, "---\n**");
    let stripped = strip_heading_marks(s.heading.as_slice());
    append_bytes(out, stripped.as_slice());
    append_str(out, "** \u{2014} ");
    append_bytes(out, s.resource_name.as_slice());
    append_str(out, " (relevance: ");
    let digits = dec_u128(score);
    append_bytes(out, digits.as_slice());
    append_str(out, ")\nURI: ");
    append_bytes(out, s.uri.as_slice());
    append_str(out, "\n\n");
    append_bytes(out, s.content.as_slice());
    append_str(out, "\n\n");
    proof {
        assert(out@ =~= old(out)@ + spec_lookup_entry(s@, score));
    }
}

/// Appends a section's body preview to `out`.
fn append_preview(out: &mut Vec<u8>, s: &Section)
    ensures
        final(out)@ == old(out)@ + spec_preview(s@),
{
    let body_lines = split_lines(s.content.as_slice());
    if body_lines.len() > 40 {
        let joined = join_range(&body_lines, 0, 40, "\n".as_bytes());
        append_bytes(out, joined.as_slice());
        append_str(out, "\n\n... (");
        let more = dec_u128((body_lines.len() - 40) as u128);
        append_bytes(out, more.as_slice());
        append_str(out, " more lines, fetch full resource: ");
        append_bytes(out, s.uri.as_slice());
        append_str(out, ")");
        proof {
            assert(body_lines.deep_view().subrange(0, 40) =~~= spec_lines(s@.content).take(40));
            assert(out@ =~= old(out)@ + spec_preview(s@));
        }
    } else {
        append_bytes(out, s.content.as_slice());
    }
}

/// Appends one rendered search result to `out`.
fn append_search_entry(out: &mut Vec<u8>, s: &Section)
    ensures
        final(out)@ == old(out)@ + spec_search_entry(s@),
{
    append_str(out, "---\n**");
    let stripped = strip_heading_marks(s.heading.as_slice());
    append_bytes(out, stripped.as_slice());
    append_str(out, "** \u{2014} ");
    append_bytes(out, s.resource_name.as_slice());
    append_str(out, "\nURI: ");
    append_bytes(out, s.uri.as_slice());
    append_str(out, "\n\n");
    append_preview(out, s);
    append_str(out, "\n\n");
    proof {
        assert(out@ =~= old(out)@ + spec_search_entry(s@));
    }
}

impl AlloyMcpServer {
    /// Builds a server over the given repository.
    pub fn new(resources: Vec<StaticResource>) -> (s: Self)
        ensures
            s.resources@ == resources@,
    {
        AlloyMcpServer { resources }
    }

    /// Derives the sections of every document, in document order.
    pub fn all_sections(&self) -> (r: Vec<Section>)
        ensures
            r.deep_view() == spec_all_sections(self.resources.deep_view()),
    {
        let ghost dv = self.resources.deep_view();
        let n = self.resources.len();
        let mut out: Vec<Section> = Vec::new();
        let mut i: usize = 0;
        proof {
            assert(dv.skip(0) =~~= dv);
            assert(out.deep_view() + spec_all_sections(dv) =~~= spec_all_sections(dv));
        }
        while i < n
            invariant
                i <= n,
                n == self.resources@.len(),
                dv == self.resources.deep_view(),
                spec_all_sections(dv) == out.deep_view() + spec_all_sections(dv.skip(i as int)),
            decreases n - i,
        {
            let ghost prev = out.deep_view();
            let d = &self.resources[i];
            let mut s = parse_sections(d.uri.as_slice(), d.name.as_slice(), d.content.as_slice());
            let ghost sv = s.deep_view();
            out.append(&mut s);
            proof {
                assert(out.deep_view() =~~= prev + sv);
                assert(dv[i as int] =~~= self.resources@[i as int]@);
                assert(dv.skip(i as int)[0] == dv[i as int]);
                assert(dv.skip(i as int).drop_first() =~~= dv.skip(i + 1));
                assert(spec_all_sections(dv.skip(i as int)) == spec_parse(
                    dv[i as int].uri,
                    dv[i as int].name,
                    dv[i as int].content,
                ) + spec_all_sections(dv.skip(i + 1)));
                assert(prev + (spec_parse(dv[i as int].uri, dv[i as int].name, dv[i as int].content)
                    + spec_all_sections(dv.skip(i + 1))) =~~= (prev + sv) + spec_all_sections(
                    dv.skip(i + 1),
                ));
            }
            i = i + 1;
        }
        proof {
            assert(dv.skip(n as int) =~~= Seq::<DocView>::empty());
            assert(out.deep_view() + spec_all_sections(dv.skip(n as int)) =~~= out.deep_view());
        }
        out
    }

    /// Answers a type lookup: every section of every document is scored
    /// against the type name, the sections scoring above zero are ranked
    /// by descending score (ties in section order), and the top three are
    /// rendered; when none match, the catalog is rendered as guidance.
    pub fn lookup_type(&self, request: &LookupTypeRequest) -> (r: Vec<u8>)
        ensures
            r@ == spec_lookup_type(self.resources.deep_view(), str_bytes(request.name@)),
    {
        let ghost dv = self.resources.deep_view();
        let q = str_to_bytes(request.name.as_str());
        let sections = self.all_sections();
        let ghost sv = sections.deep_view();
        let n = sections.len();
        let mut scored: Vec<(u128, usize)> = Vec::new();
        let mut i: usize = 0;
        proof {
            assert(scored@ + lookup_scored(sv, q@, 0) =~= lookup_scored(sv, q@, 0));
        }
        while i < n
            invariant
                i <= n,
                n == sections@.len(),
                sv == sections.deep_view(),
                lookup_scored(sv, q@, 0) == scored@ + lookup_scored(sv, q@, i as int),
            decreases n - i,
        {
            let ghost prev = scored@;
            let sc = score_section(&sections[i], q.as_slice());
            proof {
                assert(sections@[i as int]@ =~~= sv[i as int]);
            }
            if sc > 0 {
                scored.push((sc as u128, i));
            }
            proof {
                assert(scored@ + lookup_scored(sv, q@, i + 1) =~= prev + lookup_scored(
                    sv,
                    q@,
                    i as int,
                ));
            }
            i = i + 1;
        }
        proof {
            assert(scored@ =~= lookup_scored(sv, q@, 0));
        }
        let mut ranked = sort_desc_exec(&scored);
        ranked.truncate(3);
        proof {
            crate::rank::lemma_sort_desc_membership(scored@);
            lemma_lookup_scored_bounds(sv, q@, 0);
            assert(ranked@ =~= take_at_most(sort_desc(scored@), 3));
            assert forall|t: int| 0 <= t < ranked@.len() implies (#[trigger] ranked@[t]).1
                < sv.len() by {
                assert(ranked@[t] == sort_desc(scored@)[t]);
                assert(scored@.contains(sort_desc(scored@)[t]));
                let m = choose|m: int|
                    0 <= m < scored@.len() && scored@[m] == sort_desc(scored@)[t];
            }
        }
        let ghost rv = ranked@;
        if ranked.len() == 0 {
            let mut entries: Vec<Vec<u8>> = Vec::new();
            let mut k: usize = 0;
            proof {
                assert(entries.deep_view() =~~= lookup_catalog_lines(dv.take(0)));
            }
            while k < self.resources.len()
                invariant
                    k <= self.resources@.len(),
                    dv == self.resources.deep_view(),
                    entries.deep_view() == lookup_catalog_lines(dv.take(k as int)),
                decreases self.resources@.len() - k,
            {
                let doc = &self.resources[k];
                let mut line: Vec<u8> = Vec::new();
                append_str(&mut line, "  - ");
                append_bytes(&mut line, doc.uri.as_slice());
                append_str(&mut line, " (");
                append_bytes(&mut line, doc.name.as_slice());
                append_str(&mut line, ")");
                proof {
                    assert(dv[k as int] =~~= self.resources@[k as int]@);
                    assert(line@ =~= lookup_catalog_line(dv[k as int]));
                }
                let ghost prevlines = entries.deep_view();
                entries.push(line);
                proof {
                    assert(entries.deep_view() =~~= prevlines.push(line@));
                    assert(lookup_catalog_lines(dv.take(k + 1)) =~~= prevlines.push(line@));
                }
                k = k + 1;
            }
            proof {
                assert(dv.take(self.resources@.len() as int) =~~= dv);
            }
            let joined = join_bytes(&entries, "\n".as_bytes());
            let mut out: Vec<u8> = Vec::new();
            append_str(&mut out, "No documentation found for '");
            append_bytes(&mut out, q.as_slice());
            append_str(&mut out, "'. Available resources:\n");
            append_bytes(&mut out, joined.as_slice());
            proof {
                assert(out@ =~= spec_lookup_fallback(dv, q@));
            }
            out
        } else {
            let mut out: Vec<u8> = Vec::new();
            append_str(&mut out, "# Results for '");
            append_bytes(&mut out, q.as_slice());
            append_str(&mut out, "'\n\n");
            let ghost hdr = out@;
            let m = ranked.len();
            let mut k: usize = 0;
            proof {
                assert(rv.skip(0) =~= rv);
            }
            while k < m
                invariant
                    k <= m,
                    m == ranked@.len(),
                    rv == ranked@,
                    sv == sections.deep_view(),
                    n == sections@.len(),
                    forall|t: int| 0 <= t < rv.len() ==> (#[trigger] rv[t]).1 < n,
                    out@ + spec_lookup_entries(sv, rv.skip(k as int)) == hdr
                        + spec_lookup_entries(sv, rv),
                decreases m - k,
            {
                let ghost start = out@;
                let (sc, idx) = ranked[k];
                append_lookup_entry(&mut out, &sections[idx], sc);
                proof {
                    assert(sections@[idx as int]@ =~~= sv[idx as int]);
                    assert(out@ =~= start + spec_lookup_entry(
                        sv[rv[k as int].1 as int],
                        rv[k as int].0,
                    ));
                    assert(rv.skip(k as int)[0] == rv[k as int]);
                    assert(rv.skip(k as int).drop_first() =~= rv.skip(k + 1));
                    assert(spec_lookup_entries(sv, rv.skip(k as int)) == spec_lookup_entry(
                        sv[rv[k as int].1 as int],
                        rv[k as int].0,
                    ) + spec_lookup_entries(sv, rv.skip(k + 1)));
                    assert(start + (spec_lookup_entry(sv[rv[k as int].1 as int], rv[k as int].0)
                        + spec_lookup_entries(sv, rv.skip(k + 1))) =~= out@ + spec_lookup_entries(
                        sv,
                        rv.skip(k + 1),
                    ));
                }
                k = k + 1;
            }
            proof {
                assert(rv.skip(m as int) =~= Seq::<(u128, usize)>::empty());
                assert(out@ + Seq::<u8>::empty() =~= out@);
                assert(out@ =~= hdr + spec_lookup_entries(sv, rv));
                assert(out@ =~= spec_lookup_type(dv, q@));
            }
            out
        }
    }

    /// Answers a free-text search: every section is scored against the
    /// whole query and given per-term bonuses, the sections with positive
    /// total score are ranked by descending total (ties in section order),
    /// and at most the requested number are rendered with previewed
    /// bodies; when none match, the catalog is rendered as guidance.
    pub fn search_resources(&self, request: &SearchResourcesRequest) -> (r: Vec<u8>)
        ensures
            r@ == spec_search_resources(
                self.resources.deep_view(),
                str_bytes(request.query@),
                effective_max(request.max_results),
            ),
    {
        let ghost dv = self.resources.deep_view();
        let max: usize = match request.max_results {
            Some(m) => m as usize,
            None => 5,
        };
        let q = str_to_bytes(request.query.as_str());
        let lq_full = lower_bytes(q.as_slice());
        let terms = split_ws_bytes(lq_full.as_slice());
        let ghost tv = terms.deep_view();
        let tlen = terms.len();
        let sections = self.all_sections();
        let ghost sv = sections.deep_view();
        let n = sections.len();
        let mut scored: Vec<(u128, usize)> = Vec::new();
        let mut i: usize = 0;
        proof {
            assert(scored@ + search_scored(sv, q@, tv, 0) =~= search_scored(sv, q@, tv, 0));
        }
        while i < n
            invariant
                i <= n,
                n == sections@.len(),
                tlen == terms@.len(),
                sv == sections.deep_view(),
                tv == terms.deep_view(),
                search_scored(sv, q@, tv, 0) == scored@ + search_scored(sv, q@, tv, i as int),
            decreases n - i,
        {
            let ghost prev = scored@;
            let base = score_section(&sections[i], q.as_slice());
            let lh = lower_bytes(sections[i].heading.as_slice());
            let lb = lower_bytes(sections[i].content.as_slice());
            proof {
                assert(sections@[i as int]@ =~~= sv[i as int]);
            }
            let mut total: u128 = base as u128;
            let mut t: usize = 0;
            proof {
                assert(tv.skip(0) =~= tv);
                assert(base <= 100);
            }
            while t < tlen
                invariant
                    t <= tlen,
                    tlen == terms@.len(),
                    tv == terms.deep_view(),
                    lh@ == lower(sv[i as int].heading),
                    lb@ == lower(sv[i as int].content),
                    total <= 100 + 15 * (t as int),
                    total as int + spec_bonus(lh@, lb@, tv.skip(t as int)) == spec_score(
                        sv[i as int],
                        q@,
                    ) + spec_bonus(lh@, lb@, tv),
                decreases tlen - t,
            {
                proof {
                    assert(terms@[t as int]@ =~= tv[t as int]);
                    assert(tv.skip(t as int)[0] == tv[t as int]);
                    assert(tv.skip(t as int).drop_first() =~= tv.skip(t + 1));
                }
                if contains_bytes(lh.as_slice(), terms[t].as_slice()) {
                    total = total + 10;
                }
                if contains_bytes(lb.as_slice(), terms[t].as_slice()) {
                    total = total + 5;
                }
                t = t + 1;
            }
            proof {
                assert(tv.skip(tlen as int) =~= Seq::<Seq<u8>>::empty());
                lemma_bonus_bounds(lh@, lb@, tv);
            }
            if total > 0 {
                scored.push((total, i));
            }
            proof {
                assert(total == (spec_search_score(sv[i as int], q@, tv) as u128));
                assert(scored@ + search_scored(sv, q@, tv, i + 1) =~= prev + search_scored(
                    sv,
                    q@,
                    tv,
                    i as int,
                ));
            }
            i = i + 1;
        }
        proof {
            assert(scored@ =~= search_scored(sv, q@, tv, 0));
            assert(tv =~~= split_ws(lower(str_bytes(request.query@))));
        }
        let mut ranked = sort_desc_exec(&scored);
        ranked.truncate(max);
        proof {
            crate::rank::lemma_sort_desc_membership(scored@);
            lemma_search_scored_bounds(sv, q@, tv, 0);
            assert(ranked@ =~= take_at_most(sort_desc(scored@), max as int));
            assert forall|w: int| 0 <= w < ranked@.len() implies (#[trigger] ranked@[w]).1
                < sv.len() by {
                assert(ranked@[w] == sort_desc(scored@)[w]);
                assert(scored@.contains(sort_desc(scored@)[w]));
                let m = choose|m: int|
                    0 <= m < scored@.len() && scored@[m] == sort_desc(scored@)[w];
            }
        }
        let ghost rv = ranked@;
        if ranked.len() == 0 {
            let mut entries: Vec<Vec<u8>> = Vec::new();
            let mut k: usize = 0;
            proof {
                assert(entries.deep_view() =~~= search_catalog_lines(dv.take(0)));
            }
            while k < self.resources.len()
                invariant
                    k <= self.resources@.len(),
                    dv == self.resources.deep_view(),
                    entries.deep_view() == search_catalog_lines(dv.take(k as int)),
                decreases self.resources@.len() - k,
            {
                let doc = &self.resources[k];
                let mut line: Vec<u8> = Vec::new();
                append_str(&mut line, "  - ");
                append_bytes(&mut line, doc.uri.as_slice());
                append_str(&mut line, " \u{2014} ");
                append_bytes(&mut line, doc.description.as_slice());
                proof {
                    assert(dv[k as int] =~~= self.resources@[k as int]@);
                    assert(line@ =~= search_catalog_line(dv[k as int]));
                }
                let ghost prevlines = entries.deep_view();
                entries.push(line);
                proof {
                    assert(entries.deep_view() =~~= prevlines.push(line@));
                    assert(search_catalog_lines(dv.take(k + 1)) =~~= prevlines.push(line@));
                }
                k = k + 1;
            }
            proof {
                assert(dv.take(self.resources@.len() as int) =~~= dv);
            }
            let joined = join_bytes(&entries, "\n".as_bytes());
            let mut out: Vec<u8> = Vec::new();
            append_str(&mut out, "No results for '");
            append_bytes(&mut out, q.as_slice());
            append_str(&mut out, "'. Available resources:\n");
            append_bytes(&mut out, joined.as_slice());
            proof {
                assert(out@ =~= spec_search_fallback(dv, q@));
            }
            out
        } else {
            let mut out: Vec<u8> = Vec::new();
            append_str(&mut out, "# Search results for '");
            append_bytes(&mut out, q.as_slice());
            append_str(&mut out, "'\n\n");
            let ghost hdr = out@;
            let m = ranked.len();
            let mut k: usize = 0;
            proof {
                assert(rv.skip(0) =~= rv);
            }
            while k < m
                invariant
                    k <= m,
                    m == ranked@.len(),
                    rv == ranked@,
                    sv == sections.deep_view(),
                    n == sections@.len(),
                    forall|w: int| 0 <= w < rv.len() ==> (#[trigger] rv[w]).1 < n,
                    out@ + spec_search_entries(sv, rv.skip(k as int)) == hdr
                        + spec_search_entries(sv, rv),
                decreases m - k,
            {
                let ghost start = out@;
                let (_sc, idx) = ranked[k];
                append_search_entry(&mut out, &sections[idx]);
                proof {
                    assert(sections@[idx as int]@ =~~= sv[idx as int]);
                    assert(rv.skip(k as int)[0] == rv[k as int]);
                    assert(rv.skip(k as int).drop_first() =~= rv.skip(k + 1));
                    assert(spec_search_entries(sv, rv.skip(k as int)) == spec_search_entry(
                        sv[rv[k as int].1 as int],
                    ) + spec_search_entries(sv, rv.skip(k + 1)));
                    assert(start + (spec_search_entry(sv[rv[k as int].1 as int])
                        + spec_search_entries(sv, rv.skip(k + 1))) =~= out@ + spec_search_entries(
                        sv,
                        rv.skip(k + 1),
                    ));
                }
                k = k + 1;
            }
            proof {
                assert(rv.skip(m as int) =~= Seq::<(u128, usize)>::empty());
                assert(out@ + Seq::<u8>::empty() =~= out@);
                assert(out@ =~= hdr + spec_search_entries(sv, rv));
            }
            out
        }
    }

    /// Answers a direct fetch: the sentinel `list` yields the sorted
    /// catalog, a known URI yields that document's raw content verbatim,
    /// and an unknown URI yields a not-found message listing every URI.
    pub fn get_resource(&self, request: &GetResourceRequest) -> (r: Vec<u8>)
        ensures
            r@ == spec_get_resource(self.resources.deep_view(), str_bytes(request.uri@)),
    {
        let ghost dv = self.resources.deep_view();
        let uri = str_to_bytes(request.uri.as_str());
        if bytes_equal(uri.as_slice(), "list".as_bytes()) {
            let mut entries: Vec<Vec<u8>> = Vec::new();
            let mut k: usize = 0;
            proof {
                assert(entries.deep_view() =~~= list_entries(dv.take(0)));
            }
            while k < self.resources.len()
                invariant
                    k <= self.resources@.len(),
                    dv == self.resources.deep_view(),
                    entries.deep_view() == list_entries(dv.take(k as int)),
                decreases self.resources@.len() - k,
            {
                let doc = &self.resources[k];
                let mut line: Vec<u8> = Vec::new();
                append_str(&mut line, "- **");
                append_bytes(&mut line, doc.name.as_slice());
                append_str(&mut line, "**\n  URI: `");
                append_bytes(&mut line, doc.uri.as_slice());
                append_str(&mut line, "`\n  ");
                append_bytes(&mut line, doc.description.as_slice());
                proof {
                    assert(dv[k as int] =~~= self.resources@[k as int]@);
                    assert(line@ =~= list_entry(dv[k as int]));
                }
                let ghost prevlines = entries.deep_view();
                entries.push(line);
                proof {
                    assert(entries.deep_view() =~~= prevlines.push(line@));
                    assert(list_entries(dv.take(k + 1)) =~~= prevlines.push(line@));
                }
                k = k + 1;
            }
            proof {
                assert(dv.take(self.resources@.len() as int) =~~= dv);
            }
            let sorted = sort_lex_exec(&entries);
            let joined = join_bytes(&sorted, "\n\n".as_bytes());
            let mut out: Vec<u8> = Vec::new();
            append_str(&mut out, "# Available Resources\n\n");
            append_bytes(&mut out, joined.as_slice());
            proof {
                assert(out@ =~= spec_list_text(dv));
            }
            out
        } else {
            match self.find_resource(uri.as_slice()) {
                Some(doc) => {
                    let r = doc.content.clone();
                    proof {
                        assert(r@ =~= doc.content@);
                    }
                    r
                },
                None => {
                    let mut entries: Vec<Vec<u8>> = Vec::new();
                    let mut k: usize = 0;
                    proof {
                        assert(entries.deep_view() =~~= notfound_lines(dv.take(0)));
                    }
                    while k < self.resources.len()
                        invariant
                            k <= self.resources@.len(),
                            dv == self.resources.deep_view(),
                            entries.deep_view() == notfound_lines(dv.take(k as int)),
                        decreases self.resources@.len() - k,
                    {
                        let doc = &self.resources[k];
                        let mut line: Vec<u8> = Vec::new();
                        append_str(&mut line, "  ");
                        append_bytes(&mut line, doc.uri.as_slice());
                        append_str(&mut line, " \u{2014} ");
                        append_bytes(&mut line, doc.name.as_slice());
                        proof {
                            assert(dv[k as int] =~~= self.resources@[k as int]@);
                            assert(line@ =~= notfound_line(dv[k as int]));
                        }
                        let ghost prevlines = entries.deep_view();
                        entries.push(line);
                        proof {
                            assert(entries.deep_view() =~~= prevlines.push(line@));
                            assert(notfound_lines(dv.take(k + 1)) =~~= prevlines.push(line@));
                        }
                        k = k + 1;
                    }
                    proof {
                        assert(dv.take(self.resources@.len() as int) =~~= dv);
                    }
                    let joined = join_bytes(&entries, "\n".as_bytes());
                    let mut out: Vec<u8> = Vec::new();
                    append_str(&mut out, "Resource not found: '");
                    append_bytes(&mut out, uri.as_slice());
                    append_str(&mut out, "'\n\nAvailable URIs:\n");
                    append_bytes(&mut out, joined.as_slice());
                    proof {
                        assert(out@ =~= spec_notfound(dv, uri@));
                    }
                    out
                },
            }
        }
    }

    /// Looks a document up by its URI; `None` exactly when no document has
    /// it. This is the structured read boundary: a missing identifier is
    /// signalled as absence, not as guidance text.
    pub fn find_resource(&self, uri: &[u8]) -> (r: Option<&StaticResource>)
        ensures
            match r {
                Some(d) => spec_find(self.resources.deep_view(), uri@) == Some(d@),
                None => spec_find(self.resources.deep_view(), uri@) is None,
            },
    {
        let ghost dv = self.resources.deep_view();
        let n = self.resources.len();
        let mut i: usize = 0;
        proof {
            assert(dv.skip(0) =~~= dv);
        }
        while i < n
            invariant
                i <= n,
                n == self.resources@.len(),
                dv == self.resources.deep_view(),
                spec_find(dv, uri@) == spec_find(dv.skip(i as int), uri@),
            decreases n - i,
        {
            proof {
                assert(dv.skip(i as int)[0] == dv[i as int]);
                assert(dv[i as int] =~~= self.resources@[i as int]@);
            }
            if bytes_equal(self.resources[i].uri.as_slice(), uri) {
                return Some(&self.resources[i]);
            }
            proof {
                assert(dv.skip(i as int).drop_first() =~~= dv.skip(i + 1));
            }
            i = i + 1;
        }
        proof {
            assert(dv.skip(n as int) =~~= Seq::<DocView>::empty());
        }
        None
    }
}

} // verus!
