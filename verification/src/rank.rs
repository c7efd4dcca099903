//! Ranking: stable insertion sort of scored entries by descending score,
//! and lexicographic sorting of rendered catalog lines.

use vstd::prelude::*;

use vstd::multiset::Multiset;

use crate::text::{lex_le, lex_le_bytes};

verus! {

/// Insertion of `x` into a list ranked by descending score: `x` goes
/// behind every entry whose score is at least as high as its own.
pub open spec fn insert_desc(x: (u128, usize), l: Seq<(u128, usize)>) -> Seq<(u128, usize)>
    decreases l.len(),
{
    if l.len() == 0 {
        seq![x]
    } else if l[0].0 >= x.0 {
        seq![l[0]] + insert_desc(x, l.drop_first())
    } else {
        seq![x] + l
    }
}

/// Stable insertion sort by descending score: entries are inserted in
/// input order, each behind those that score at least as much, so that
/// entries with equal scores keep their input order.
pub open spec fn sort_desc(l: Seq<(u128, usize)>) -> Seq<(u128, usize)>
    decreases l.len(),
{
    if l.len() == 0 {
        Seq::empty()
    } else {
        insert_desc(l.last(), sort_desc(l.drop_last()))
    }
}

/// Position at which `insert_desc` places a new entry: the length of the
/// leading run of entries scoring at least as much.
pub open spec fn ins_pos(x: (u128, usize), l: Seq<(u128, usize)>) -> int
    decreases l.len(),
{
    if l.len() == 0 {
        0
    } else if l[0].0 >= x.0 {
        1 + ins_pos(x, l.drop_first())
    } else {
        0
    }
}

proof fn lemma_insert_desc_split(x: (u128, usize), l: Seq<(u128, usize)>)
    ensures
        0 <= ins_pos(x, l) <= l.len(),
        forall|k: int| 0 <= k < ins_pos(x, l) ==> l[k].0 >= x.0,
        ins_pos(x, l) < l.len() ==> l[ins_pos(x, l)].0 < x.0,
        insert_desc(x, l) == l.take(ins_pos(x, l)) + seq![x] + l.skip(ins_pos(x, l)),
    decreases l.len(),
{
    if l.len() == 0 {
        assert(insert_desc(x, l) =~= l.take(0) + seq![x] + l.skip(0));
    } else if l[0].0 >= x.0 {
        lemma_insert_desc_split(x, l.drop_first());
        let p = ins_pos(x, l.drop_first());
        assert(l.drop_first().take(p) =~= l.take(p + 1).drop_first());
        assert(insert_desc(x, l) =~= l.take(p + 1) + seq![x] + l.skip(p + 1)) by {
            assert(l.drop_first().skip(p) =~= l.skip(p + 1));
            assert(seq![l[0]] + (l.drop_first().take(p) + seq![x] + l.drop_first().skip(p)) =~= l.take(
                p + 1,
            ) + seq![x] + l.skip(p + 1));
        }
        assert(forall|k: int| 0 <= k < ins_pos(x, l) ==> l[k].0 >= x.0) by {
            assert(forall|k: int| 1 <= k < p + 1 ==> l[k] == l.drop_first()[k - 1]);
        }
    } else {
        assert(insert_desc(x, l) =~= l.take(0) + seq![x] + l.skip(0));
    }
}

proof fn lemma_ins_pos_at(x: (u128, usize), l: Seq<(u128, usize)>, m: int)
    requires
        0 <= m <= l.len(),
        forall|k: int| 0 <= k < m ==> l[k].0 >= x.0,
        m < l.len() ==> l[m].0 < x.0,
    ensures
        ins_pos(x, l) == m,
    decreases m,
{
    if m > 0 {
        lemma_ins_pos_at(x, l.drop_first(), m - 1);
    }
}

/// Sorts scored entries by descending score; entries with equal scores
/// keep their input order.
pub fn sort_desc_exec(l: &Vec<(u128, usize)>) -> (r: Vec<(u128, usize)>)
    ensures
        r@ == sort_desc(l@),
{
    let mut out: Vec<(u128, usize)> = Vec::new();
    let mut i: usize = 0;
    proof {
        assert(l@.take(0) =~= Seq::<(u128, usize)>::empty());
    }
    while i < l.len()
        invariant
            i <= l@.len(),
            out@ == sort_desc(l@.take(i as int)),
        decreases l@.len() - i,
    {
        let x = l[i];
        let mut p: usize = 0;
        while p < out.len() && out[p].0 >= x.0
            invariant
                p <= out@.len(),
                forall|k: int| 0 <= k < p ==> out@[k].0 >= x.0,
            decreases out@.len() - p,
        {
            p = p + 1;
        }
        let ghost before = out@;
        out.insert(p, x);
        proof {
            lemma_ins_pos_at(x, before, p as int);
            lemma_insert_desc_split(x, before);
            assert(out@ =~= before.take(p as int) + seq![x] + before.skip(p as int));
            assert(l@.take(i + 1).drop_last() =~= l@.take(i as int));
            assert(l@.take(i + 1).last() == x);
        }
        i = i + 1;
    }
    proof {
        assert(l@.take(l@.len() as int) =~= l@);
    }
    out
}

/// Entries stand in descending score order, and entries with equal scores
/// stand in ascending index order.
pub open spec fn ranked_ok(l: Seq<(u128, usize)>) -> bool {
    forall|i: int, j: int|
        0 <= i < j < l.len() ==> (#[trigger] l[i]).0 > (#[trigger] l[j]).0 || (l[i].0 == l[j].0
            && l[i].1 < l[j].1)
}

proof fn lemma_insert_desc_ranked(x: (u128, usize), l: Seq<(u128, usize)>)
    requires
        ranked_ok(l),
        forall|k: int| 0 <= k < l.len() ==> (#[trigger] l[k]).1 < x.1,
    ensures
        ranked_ok(insert_desc(x, l)),
        insert_desc(x, l).to_multiset() == l.to_multiset().insert(x),
{
    broadcast use vstd::seq_lib::group_to_multiset_ensures;

    lemma_insert_desc_split(x, l);
    let p = ins_pos(x, l);
    let r = insert_desc(x, l);
    assert(forall|k: int| 0 <= k < p ==> r[k] == l[k]);
    assert(r[p as int] == x);
    assert(forall|k: int| p < k < r.len() ==> r[k] == l[k - 1]);
    assert(ranked_ok(r)) by {
        assert(forall|i: int, j: int|
            0 <= i < j < r.len() ==> (#[trigger] r[i]).0 > (#[trigger] r[j]).0 || (r[i].0 == r[j].0
                && r[i].1 < r[j].1)) by {
            assert forall|i: int, j: int| 0 <= i < j < r.len() implies (#[trigger] r[i]).0
                > (#[trigger] r[j]).0 || (r[i].0 == r[j].0 && r[i].1 < r[j].1) by {
                if i < p && j < p {
                } else if i == p || j == p {
                } else if i > p && j > p {
                }
            }
        }
    }
    assert(r.to_multiset() =~= l.to_multiset().insert(x)) by {
        vstd::seq_lib::lemma_multiset_commutative(l.take(p) + seq![x], l.skip(p));
        vstd::seq_lib::lemma_multiset_commutative(l.take(p), seq![x]);
        vstd::seq_lib::lemma_multiset_commutative(l.take(p), l.skip(p));
        assert(l.take(p) + l.skip(p) =~= l);
        assert(seq![x].to_multiset() =~= Multiset::<(u128, usize)>::empty().insert(x)) by {
            assert(seq![x] =~= Seq::<(u128, usize)>::empty().push(x));
            assert(Seq::<(u128, usize)>::empty().push(x).to_multiset() =~= Seq::<(u128,
                usize,
            )>::empty().to_multiset().insert(x));
        }
        assert((l.take(p) + seq![x]) + l.skip(p) =~= r);
    }
}

/// Ranking stability: when the input entries carry strictly increasing
/// indices (their order of first appearance), sorting keeps exactly those
/// entries, puts them in descending score order, and leaves entries with
/// equal scores in their original relative order.
pub proof fn lemma_rank_stable(l: Seq<(u128, usize)>)
    requires
        forall|i: int, j: int| 0 <= i < j < l.len() ==> (#[trigger] l[i]).1 < (#[trigger] l[j]).1,
    ensures
        ranked_ok(sort_desc(l)),
        sort_desc(l).to_multiset() == l.to_multiset(),
    decreases l.len(),
{
    broadcast use vstd::seq_lib::group_to_multiset_ensures;

    if l.len() == 0 {
        assert(sort_desc(l).to_multiset() =~= l.to_multiset());
    } else {
        let x = l.last();
        let rest = l.drop_last();
        lemma_rank_stable(rest);
        let s = sort_desc(rest);
        assert(forall|k: int| 0 <= k < s.len() ==> (#[trigger] s[k]).1 < x.1) by {
            assert forall|k: int| 0 <= k < s.len() implies (#[trigger] s[k]).1 < x.1 by {
                assert(s.contains(s[k]));
                assert(s.to_multiset().count(s[k]) > 0);
                assert(rest.to_multiset().count(s[k]) > 0);
                assert(rest.contains(s[k]));
                let m = choose|m: int| 0 <= m < rest.len() && rest[m] == s[k];
                assert(l[m] == rest[m]);
                assert(l[m].1 < l[l.len() - 1].1);
            }
        }
        lemma_insert_desc_ranked(x, s);
        assert(rest.push(x) =~= l);
        assert(rest.push(x).to_multiset() =~= rest.to_multiset().insert(x));
    }
}

/// Sorting keeps the length and draws every entry from the input.
pub proof fn lemma_sort_desc_membership(l: Seq<(u128, usize)>)
    ensures
        sort_desc(l).len() == l.len(),
        forall|k: int| 0 <= k < sort_desc(l).len() ==> l.contains(#[trigger] sort_desc(l)[k]),
    decreases l.len(),
{
    if l.len() > 0 {
        let x = l.last();
        let rest = l.drop_last();
        lemma_sort_desc_membership(rest);
        let s = sort_desc(rest);
        lemma_insert_desc_split(x, s);
        let p = ins_pos(x, s);
        let r = insert_desc(x, s);
        assert forall|k: int| 0 <= k < r.len() implies l.contains(#[trigger] r[k]) by {
            if k < p {
                assert(r[k] == s[k]);
                assert(rest.contains(s[k]));
                let m = choose|m: int| 0 <= m < rest.len() && rest[m] == s[k];
                assert(l[m] == r[k]);
            } else if k == p {
                assert(r[k] == x);
                assert(l[l.len() - 1] == x);
            } else {
                assert(r[k] == s[k - 1]);
                assert(rest.contains(s[k - 1]));
                let m = choose|m: int| 0 <= m < rest.len() && rest[m] == s[k - 1];
                assert(l[m] == r[k]);
            }
        }
    }
}

/// Insertion of a rendered line into a lexicographically sorted list.
pub open spec fn insert_lex(x: Seq<u8>, l: Seq<Seq<u8>>) -> Seq<Seq<u8>>
    decreases l.len(),
{
    if l.len() == 0 {
        seq![x]
    } else if lex_le(l[0], x) {
        seq![l[0]] + insert_lex(x, l.drop_first())
    } else {
        seq![x] + l
    }
}

/// Insertion sort of rendered lines into ascending lexicographic order.
pub open spec fn sort_lex(l: Seq<Seq<u8>>) -> Seq<Seq<u8>>
    decreases l.len(),
{
    if l.len() == 0 {
        Seq::empty()
    } else {
        insert_lex(l.last(), sort_lex(l.drop_last()))
    }
}

/// Position at which `insert_lex` places a new line.
pub open spec fn lex_pos(x: Seq<u8>, l: Seq<Seq<u8>>) -> int
    decreases l.len(),
{
    if l.len() == 0 {
        0
    } else if lex_le(l[0], x) {
        1 + lex_pos(x, l.drop_first())
    } else {
        0
    }
}

proof fn lemma_insert_lex_split(x: Seq<u8>, l: Seq<Seq<u8>>)
    ensures
        0 <= lex_pos(x, l) <= l.len(),
        insert_lex(x, l) == l.take(lex_pos(x, l)) + seq![x] + l.skip(lex_pos(x, l)),
    decreases l.len(),
{
    if l.len() == 0 {
        assert(insert_lex(x, l) =~~= l.take(0) + seq![x] + l.skip(0));
    } else if lex_le(l[0], x) {
        lemma_insert_lex_split(x, l.drop_first());
        let p = lex_pos(x, l.drop_first());
        assert(insert_lex(x, l) =~~= l.take(p + 1) + seq![x] + l.skip(p + 1)) by {
            assert(l.drop_first().take(p) =~~= l.take(p + 1).drop_first());
            assert(l.drop_first().skip(p) =~~= l.skip(p + 1));
        }
    } else {
        assert(insert_lex(x, l) =~~= l.take(0) + seq![x] + l.skip(0));
    }
}

proof fn lemma_lex_pos_at(x: Seq<u8>, l: Seq<Seq<u8>>, m: int)
    requires
        0 <= m <= l.len(),
        forall|k: int| 0 <= k < m ==> lex_le(#[trigger] l[k], x),
        m < l.len() ==> !lex_le(l[m], x),
    ensures
        lex_pos(x, l) == m,
    decreases m,
{
    if m > 0 {
        lemma_lex_pos_at(x, l.drop_first(), m - 1);
    }
}

/// Sorts rendered lines into ascending lexicographic order.
pub fn sort_lex_exec(l: &Vec<Vec<u8>>) -> (r: Vec<Vec<u8>>)
    ensures
        r.deep_view() == sort_lex(l.deep_view()),
{
    let mut out: Vec<Vec<u8>> = Vec::new();
    let mut i: usize = 0;
    proof {
        assert(l.deep_view().take(0) =~~= Seq::<Seq<u8>>::empty());
    }
    while i < l.len()
        invariant
            i <= l@.len(),
            out.deep_view() == sort_lex(l.deep_view().take(i as int)),
        decreases l@.len() - i,
    {
        let x = l[i].clone();
        proof {
            assert(x@ =~= l.deep_view()[i as int]);
        }
        let mut p: usize = 0;
        while p < out.len() && lex_le_bytes(out[p].as_slice(), x.as_slice())
            invariant
                p <= out@.len(),
                forall|k: int| 0 <= k < p ==> lex_le(#[trigger] out.deep_view()[k], x@),
            decreases out@.len() - p,
        {
            proof {
                assert(out.deep_view()[p as int] =~= out@[p as int]@);
            }
            p = p + 1;
        }
        let ghost before = out.deep_view();
        let ghost xv = x@;
        proof {
            if p < out@.len() {
                assert(out.deep_view()[p as int] =~= out@[p as int]@);
            }
            lemma_lex_pos_at(xv, before, p as int);
            lemma_insert_lex_split(xv, before);
        }
        out.insert(p, x);
        proof {
            assert(out.deep_view() =~~= before.take(p as int) + seq![xv] + before.skip(p as int));
            assert(l.deep_view().take(i + 1).drop_last() =~~= l.deep_view().take(i as int));
            assert(l.deep_view().take(i + 1).last() == xv);
        }
        i = i + 1;
    }
    proof {
        assert(l.deep_view().take(l@.len() as int) =~~= l.deep_view());
    }
    out
}

} // verus!
