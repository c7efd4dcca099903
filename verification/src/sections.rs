//! Section parsing: a document's text is split at level-2 Markdown heading
//! lines into an ordered list of sections.

use vstd::prelude::*;

use crate::text::{
    join_range, spec_join, spec_lines, split_lines, starts_with, starts_with_bytes, str_bytes,
    str_to_bytes, trim, trim_bytes,
};

verus! {

/// A section of one document: the text between two heading lines, or before
/// the first one.
pub struct Section {
    /// URI of the document this section was cut from.
    pub uri: Vec<u8>,
    /// Display name of that document.
    pub resource_name: Vec<u8>,
    /// The literal heading line, or `(intro)` for text before any heading.
    pub heading: Vec<u8>,
    /// The section's text, trimmed of surrounding whitespace. The heading
    /// line itself is part of it.
    pub content: Vec<u8>,
}

/// The value of a `Section`, for specifications.
#[verifier::ext_equal]
pub struct SectionView {
    pub uri: Seq<u8>,
    pub resource_name: Seq<u8>,
    pub heading: Seq<u8>,
    pub content: Seq<u8>,
}

impl View for Section {
    type V = SectionView;

    open spec fn view(&self) -> SectionView {
        SectionView {
            uri: self.uri@,
            resource_name: self.resource_name@,
            heading: self.heading@,
            content: self.content@,
        }
    }
}

impl DeepView for Section {
    type V = SectionView;

    open spec fn deep_view(&self) -> SectionView {
        self@
    }
}

/// A line that opens a level-2 Markdown section.
pub open spec fn is_heading(line: Seq<u8>) -> bool {
    starts_with(line, str_bytes("## "@))
}

/// The heading used for text that precedes the first heading line.
pub open spec fn intro_heading() -> Seq<u8> {
    str_bytes("(intro)"@)
}

/// Number of leading lines that are not heading lines.
pub open spec fn body_run(lines: Seq<Seq<u8>>) -> int
    decreases lines.len(),
{
    if lines.len() == 0 || is_heading(lines[0]) {
        0
    } else {
        1 + body_run(lines.drop_first())
    }
}

proof fn lemma_body_run_bounds(lines: Seq<Seq<u8>>)
    ensures
        0 <= body_run(lines) <= lines.len(),
    decreases lines.len(),
{
    if lines.len() > 0 && !is_heading(lines[0]) {
        lemma_body_run_bounds(lines.drop_first());
    }
}

/// Length of the first group of lines: a leading heading line together with
/// the non-heading lines after it, or the leading run of non-heading lines.
pub open spec fn group_len(lines: Seq<Seq<u8>>) -> int {
    if lines.len() == 0 {
        0
    } else if is_heading(lines[0]) {
        1 + body_run(lines.drop_first())
    } else {
        body_run(lines)
    }
}

proof fn lemma_group_len_bounds(lines: Seq<Seq<u8>>)
    ensures
        0 <= group_len(lines) <= lines.len(),
        lines.len() > 0 ==> 1 <= group_len(lines),
{
    if lines.len() > 0 {
        if is_heading(lines[0]) {
            lemma_body_run_bounds(lines.drop_first());
        } else {
            lemma_body_run_bounds(lines);
            lemma_body_run_bounds(lines.drop_first());
            assert(body_run(lines) == 1 + body_run(lines.drop_first()));
        }
    }
}

/// The partition of a document's lines into groups, cut before every
/// heading line.
pub open spec fn spec_groups(lines: Seq<Seq<u8>>) -> Seq<Seq<Seq<u8>>>
    decreases lines.len()
    via spec_groups_decreases
{
    if lines.len() == 0 {
        Seq::empty()
    } else {
        seq![lines.take(group_len(lines))] + spec_groups(lines.skip(group_len(lines)))
    }
}

#[via_fn]
proof fn spec_groups_decreases(lines: Seq<Seq<u8>>) {
    lemma_group_len_bounds(lines);
}

/// The heading of a group: its leading heading line, or the intro marker.
pub open spec fn group_heading(g: Seq<Seq<u8>>) -> Seq<u8> {
    if g.len() > 0 && is_heading(g[0]) {
        g[0]
    } else {
        intro_heading()
    }
}

/// The body of a group: its lines joined with line feeds and trimmed.
pub open spec fn group_body(g: Seq<Seq<u8>>) -> Seq<u8> {
    trim(spec_join(g, str_bytes("\n"@)))
}

/// The sections made from a list of groups: one per group whose body is
/// non-empty, in group order.
pub open spec fn sections_of(uri: Seq<u8>, name: Seq<u8>, gs: Seq<Seq<Seq<u8>>>) -> Seq<SectionView>
    decreases gs.len(),
{
    if gs.len() == 0 {
        Seq::empty()
    } else {
        let head = if group_body(gs[0]).len() > 0 {
            seq![
                SectionView {
                    uri,
                    resource_name: name,
                    heading: group_heading(gs[0]),
                    content: group_body(gs[0]),
                },
            ]
        } else {
            Seq::empty()
        };
        head + sections_of(uri, name, gs.drop_first())
    }
}

/// The sections of a document's text.
pub open spec fn spec_parse(uri: Seq<u8>, name: Seq<u8>, text: Seq<u8>) -> Seq<SectionView> {
    sections_of(uri, name, spec_groups(spec_lines(text)))
}

proof fn lemma_body_run_at(lines: Seq<Seq<u8>>, m: int)
    requires
        0 <= m <= lines.len(),
        forall|k: int| 0 <= k < m ==> !is_heading(lines[k]),
        m < lines.len() ==> is_heading(lines[m]),
    ensures
        body_run(lines) == m,
    decreases m,
{
    if m > 0 {
        lemma_body_run_at(lines.drop_first(), m - 1);
    }
}

/// A document with no heading lines parses to at most one section: when the
/// trimmed text (its lines joined with line feeds) is non-empty, the result
/// is exactly one section, whose heading is the intro marker and whose body
/// is that trimmed text.
pub proof fn lemma_parse_intro_only(uri: Seq<u8>, name: Seq<u8>, text: Seq<u8>)
    requires
        forall|k: int|
            0 <= k < spec_lines(text).len() ==> !is_heading(#[trigger] spec_lines(text)[k]),
        group_body(spec_lines(text)).len() > 0,
    ensures
        spec_parse(uri, name, text) == seq![
            SectionView {
                uri,
                resource_name: name,
                heading: intro_heading(),
                content: group_body(spec_lines(text)),
            },
        ],
{
    reveal_with_fuel(spec_groups, 2);
    reveal_with_fuel(sections_of, 2);
    let lines = spec_lines(text);
    if lines.len() == 0 {
        assert(spec_join(lines, str_bytes("\n"@)) == Seq::<u8>::empty());
        assert(group_body(lines).len() == 0);
    }
    lemma_body_run_at(lines, lines.len() as int);
    assert(group_len(lines) == lines.len());
    assert(lines.take(lines.len() as int) =~~= lines);
    assert(lines.skip(lines.len() as int) =~~= Seq::<Seq<u8>>::empty());
    assert(spec_groups(lines) == seq![lines] + Seq::<Seq<Seq<u8>>>::empty());
    assert(spec_groups(lines) =~~= seq![lines]);
    let gs = seq![lines];
    assert(gs.drop_first() =~~= Seq::<Seq<Seq<u8>>>::empty());
    assert(group_heading(lines) == intro_heading());
    assert(sections_of(uri, name, gs) =~~= seq![
        SectionView {
            uri,
            resource_name: name,
            heading: intro_heading(),
            content: group_body(lines),
        },
    ]);
}

/// The groups that a document's lines are cut into are a partition: their
/// concatenation, in order, is exactly the document's lines. Since each
/// returned section's body is the trimmed join of one group, and only
/// groups whose trimmed join is empty are discarded, the sections together
/// cover the whole document up to the discarded blank groups.
pub proof fn lemma_groups_partition(lines: Seq<Seq<u8>>)
    ensures
        spec_groups(lines).flatten() == lines,
    decreases lines.len(),
{
    if lines.len() == 0 {
        assert(spec_groups(lines).flatten() =~~= lines);
    } else {
        lemma_group_len_bounds(lines);
        let g = lines.take(group_len(lines));
        let rest = lines.skip(group_len(lines));
        lemma_groups_partition(rest);
        assert((seq![g] + spec_groups(rest)).drop_first() =~~= spec_groups(rest));
        assert(spec_groups(lines).flatten() == g + spec_groups(rest).flatten());
        assert(g + rest =~~= lines);
    }
}

/// Splits a document's text into sections. Each heading line starts a new
/// section and belongs to the body of the section it starts; text before
/// the first heading becomes an intro section; a section whose trimmed body
/// is empty is discarded.
pub fn parse_sections(uri: &[u8], resource_name: &[u8], content: &[u8]) -> (r: Vec<Section>)
    ensures
        r.deep_view() == spec_parse(uri@, resource_name@, content@),
{
    let lines = split_lines(content);
    let n = lines.len();
    let mut out: Vec<Section> = Vec::new();
    let mut pos: usize = 0;
    proof {
        assert(lines.deep_view().skip(0) =~~= lines.deep_view());
        assert(out.deep_view() + sections_of(uri@, resource_name@, spec_groups(lines.deep_view()))
            =~~= sections_of(uri@, resource_name@, spec_groups(lines.deep_view())));
    }
    while pos < n
        invariant
            pos <= n,
            n == lines@.len(),
            lines.deep_view() == spec_lines(content@),
            spec_parse(uri@, resource_name@, content@) == out.deep_view() + sections_of(
                uri@,
                resource_name@,
                spec_groups(lines.deep_view().skip(pos as int)),
            ),
        decreases n - pos,
    {
        let ghost prev = out.deep_view();
        let ghost opos = pos as int;
        let ghost rest = lines.deep_view().skip(opos);
        let is_h = starts_with_bytes(lines[pos].as_slice(), "## ".as_bytes());
        let mut j: usize = if is_h {
            pos + 1
        } else {
            pos
        };
        while j < n && !starts_with_bytes(lines[j].as_slice(), "## ".as_bytes())
            invariant
                opos <= j <= n,
                opos == pos as int,
                n == lines@.len(),
                is_h ==> opos + 1 <= j,
                forall|k: int|
                    (if is_h {
                        opos + 1
                    } else {
                        opos
                    }) <= k < j ==> !is_heading(lines.deep_view()[k]),
            decreases n - j,
        {
            proof {
                assert(lines.deep_view()[j as int] =~= lines@[j as int]@);
            }
            j = j + 1;
        }
        proof {
            assert(lines.deep_view()[opos] =~= lines@[opos]@);
            if j < n {
                assert(lines.deep_view()[j as int] =~= lines@[j as int]@);
            }
            if is_h {
                assert(rest.drop_first() =~~= lines.deep_view().skip(opos + 1));
                lemma_body_run_at(rest.drop_first(), j - opos - 1);
            } else {
                lemma_body_run_at(rest, j - opos);
            }
            assert(group_len(rest) == j - opos);
        }
        let joined = join_range(&lines, pos, j, "\n".as_bytes());
        proof {
            assert(lines.deep_view().subrange(opos, j as int) =~~= rest.take(j - opos));
        }
        let body = trim_bytes(joined.as_slice());
        if body.len() > 0 {
            let heading = if is_h {
                lines[pos].clone()
            } else {
                str_to_bytes("(intro)")
            };
            proof {
                if is_h {
                    assert(rest.take(j - opos)[0] == lines.deep_view()[opos]);
                }
            }
            out.push(
                Section {
                    uri: vstd::slice::slice_to_vec(uri),
                    resource_name: vstd::slice::slice_to_vec(resource_name),
                    heading,
                    content: body,
                },
            );
        }
        pos = j;
        proof {
            let g = rest.take(j - opos);
            assert(spec_groups(rest) == seq![g] + spec_groups(rest.skip(j - opos)));
            assert(rest.skip(j - opos) =~~= lines.deep_view().skip(j as int));
            if group_body(g).len() > 0 {
                assert(out.deep_view() =~~= prev.push(
                    SectionView {
                        uri: uri@,
                        resource_name: resource_name@,
                        heading: group_heading(g),
                        content: group_body(g),
                    },
                ));
                assert(prev + sections_of(uri@, resource_name@, spec_groups(rest)) =~~= out.deep_view()
                    + sections_of(
                    uri@,
                    resource_name@,
                    spec_groups(lines.deep_view().skip(pos as int)),
                )) by {
                    assert((seq![g] + spec_groups(rest.skip(j - opos))).drop_first()
                        =~~= spec_groups(rest.skip(j - opos)));
                }
            } else {
                assert(prev + sections_of(uri@, resource_name@, spec_groups(rest)) =~~= out.deep_view()
                    + sections_of(
                    uri@,
                    resource_name@,
                    spec_groups(lines.deep_view().skip(pos as int)),
                )) by {
                    assert((seq![g] + spec_groups(rest.skip(j - opos))).drop_first()
                        =~~= spec_groups(rest.skip(j - opos)));
                }
            }
        }
    }
    proof {
        assert(lines.deep_view().skip(n as int) =~~= Seq::<Seq<u8>>::empty());
        assert(out.deep_view() + sections_of(
            uri@,
            resource_name@,
            spec_groups(lines.deep_view().skip(n as int)),
        ) =~~= out.deep_view());
    }
    out
}

} // verus!
