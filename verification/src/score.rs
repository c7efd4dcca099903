//! Relevance scoring of a section against a query, with layered
//! heuristics: a heading match outranks a backtick-delimited code match,
//! which outranks plain occurrence counting.

use vstd::prelude::*;

use crate::sections::{Section, SectionView};
use crate::text::{
    contains_bytes, contains_seq, count_matches, count_occurrences, lower, lower_bytes,
    append_bytes,
};

verus! {

/// `q` wrapped in backticks, the pattern of an inline code mention.
pub open spec fn tick_pattern(q: Seq<u8>) -> Seq<u8> {
    seq![96u8] + q + seq![96u8]
}

/// The score of a section against a query, checked in priority order with
/// the first match winning: 100 when the lower-cased query occurs in the
/// lower-cased heading; else 80 when it occurs backtick-wrapped in the
/// lower-cased body; else 50 plus the number of its non-overlapping
/// occurrences in the body, capped at 30; else 0.
pub open spec fn spec_score(s: SectionView, q: Seq<u8>) -> int {
    let lq = lower(q);
    let lh = lower(s.heading);
    let lb = lower(s.content);
    if contains_seq(lh, lq) {
        100
    } else if contains_seq(lb, tick_pattern(lq)) {
        80
    } else if contains_seq(lb, lq) {
        if count_occurrences(lb, lq) < 30 {
            50 + count_occurrences(lb, lq) as int
        } else {
            80
        }
    } else {
        0
    }
}

/// Scores a section against a query. Matching is ASCII-case-insensitive.
pub fn score_section(section: &Section, query: &[u8]) -> (r: u32)
    ensures
        r == spec_score(section@, query@),
{
    let lq = lower_bytes(query);
    let lh = lower_bytes(section.heading.as_slice());
    let lb = lower_bytes(section.content.as_slice());
    if contains_bytes(lh.as_slice(), lq.as_slice()) {
        return 100;
    }
    let mut pattern: Vec<u8> = Vec::new();
    pattern.push(96);
    append_bytes(&mut pattern, lq.as_slice());
    pattern.push(96);
    proof {
        assert(pattern@ =~= tick_pattern(lq@));
    }
    if contains_bytes(lb.as_slice(), pattern.as_slice()) {
        return 80;
    }
    if contains_bytes(lb.as_slice(), lq.as_slice()) {
        proof {
            if lq@.len() == 0 {
                assert(lh@.subrange(0, 0) =~= lq@);
                assert(crate::text::matches_at(lh@, lq@, 0));
                assert(false);
            }
        }
        let count = count_matches(lb.as_slice(), lq.as_slice());
        if count < 30 {
            return 50 + count as u32;
        } else {
            return 80;
        }
    }
    0
}

/// Score priority: whenever the lower-cased query occurs in a section's
/// lower-cased heading, the score is 100, however often the query also
/// occurs in the body.
pub proof fn lemma_heading_match_scores_100(s: SectionView, q: Seq<u8>)
    requires
        contains_seq(lower(s.heading), lower(q)),
    ensures
        spec_score(s, q) == 100,
{
}

/// Score monotonicity: between two sections that are scored by occurrence
/// counting alone (no heading match and no backtick match for either), the
/// one whose body holds at least as many occurrences of the query scores
/// at least as much, and neither scores above 80.
pub proof fn lemma_frequency_scoring_monotone(s1: SectionView, s2: SectionView, q: Seq<u8>)
    requires
        !contains_seq(lower(s1.heading), lower(q)),
        !contains_seq(lower(s2.heading), lower(q)),
        !contains_seq(lower(s1.content), tick_pattern(lower(q))),
        !contains_seq(lower(s2.content), tick_pattern(lower(q))),
        contains_seq(lower(s1.content), lower(q)),
        contains_seq(lower(s2.content), lower(q)),
        count_occurrences(lower(s1.content), lower(q)) <= count_occurrences(
            lower(s2.content),
            lower(q),
        ),
    ensures
        50 <= spec_score(s1, q) <= spec_score(s2, q) <= 80,
{
}

} // verus!
