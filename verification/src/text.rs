//! Byte-string primitives: ASCII case folding, substring search and
//! non-overlapping occurrence counting, all specified over `Seq<u8>`.

use vstd::prelude::*;

verus! {

/// ASCII lower-casing of a single byte; all other bytes are unchanged.
pub open spec fn lower_byte(b: u8) -> u8 {
    if 65 <= b && b <= 90 {
        (b + 32) as u8
    } else {
        b
    }
}

/// ASCII lower-casing of a byte string.
pub open spec fn lower(s: Seq<u8>) -> Seq<u8> {
    s.map_values(|b: u8| lower_byte(b))
}

/// `needle` occurs in `hay` starting at position `i`.
pub open spec fn matches_at(hay: Seq<u8>, needle: Seq<u8>, i: int) -> bool {
    0 <= i && i + needle.len() <= hay.len() && hay.subrange(i, i + needle.len()) == needle
}

/// `needle` occurs somewhere in `hay`. The empty needle occurs in every string.
pub open spec fn contains_seq(hay: Seq<u8>, needle: Seq<u8>) -> bool {
    exists|i: int| matches_at(hay, needle, i)
}

/// Lower-cases every byte of `s` (ASCII letters only).
pub fn lower_bytes(s: &[u8]) -> (r: Vec<u8>)
    ensures
        r@ == lower(s@),
{
    let mut r: Vec<u8> = Vec::new();
    let mut i: usize = 0;
    while i < s.len()
        invariant
            i <= s.len(),
            r@ == lower(s@.subrange(0, i as int)),
        decreases s.len() - i,
    {
        let b = s[i];
        let lb: u8 = if 65 <= b && b <= 90 {
            b + 32
        } else {
            b
        };
        r.push(lb);
        proof {
            assert(s@.subrange(0, i + 1).drop_last() =~= s@.subrange(0, i as int));
            assert(r@ =~= lower(s@.subrange(0, i + 1)));
        }
        i = i + 1;
    }
    proof {
        assert(s@.subrange(0, s@.len() as int) =~= s@);
    }
    r
}

/// `needle` occurs in `hay` starting at position `i` (executable form).
fn matches_at_exec(hay: &[u8], needle: &[u8], i: usize) -> (r: bool)
    requires
        i + needle@.len() <= hay@.len(),
    ensures
        r == matches_at(hay@, needle@, i as int),
{
    let nlen = needle.len();
    let hlen = hay.len();
    let mut j: usize = 0;
    while j < nlen
        invariant
            j <= nlen,
            nlen == needle@.len(),
            hlen == hay@.len(),
            i + nlen <= hlen,
            forall|k: int| 0 <= k < j ==> hay@[i + k] == needle@[k],
        decreases nlen - j,
    {
        if hay[i + j] != needle[j] {
            assert(hay@.subrange(i as int, i + needle@.len()) != needle@) by {
                assert(hay@.subrange(i as int, i + needle@.len())[j as int] != needle@[j as int]);
            }
            return false;
        }
        j = j + 1;
    }
    proof {
        assert(hay@.subrange(i as int, i + needle@.len()) =~= needle@);
    }
    true
}

/// Naive substring search: does `needle` occur anywhere in `hay`?
pub fn contains_bytes(hay: &[u8], needle: &[u8]) -> (r: bool)
    ensures
        r == contains_seq(hay@, needle@),
{
    if needle.len() > hay.len() {
        assert(forall|k: int| !matches_at(hay@, needle@, k));
        return false;
    }
    let end = hay.len() - needle.len();
    let mut i: usize = 0;
    loop
        invariant
            needle@.len() <= hay@.len(),
            end == hay@.len() - needle@.len(),
            i <= end,
            forall|k: int| 0 <= k < i ==> !matches_at(hay@, needle@, k),
        decreases end - i,
    {
        if matches_at_exec(hay, needle, i) {
            return true;
        }
        if i == end {
            assert(forall|k: int| matches_at(hay@, needle@, k) ==> 0 <= k <= end);
            return false;
        }
        i = i + 1;
    }
}

/// ASCII whitespace: space, tab, line feed, vertical tab, form feed,
/// carriage return.
pub open spec fn is_space(b: u8) -> bool {
    b == 32 || (9 <= b && b <= 13)
}

/// `s` without its leading whitespace.
pub open spec fn trim_start(s: Seq<u8>) -> Seq<u8>
    decreases s.len(),
{
    if s.len() > 0 && is_space(s[0]) {
        trim_start(s.drop_first())
    } else {
        s
    }
}

/// `s` without its trailing whitespace.
pub open spec fn trim_end(s: Seq<u8>) -> Seq<u8>
    decreases s.len(),
{
    if s.len() > 0 && is_space(s.last()) {
        trim_end(s.drop_last())
    } else {
        s
    }
}

/// `s` without leading and trailing whitespace.
pub open spec fn trim(s: Seq<u8>) -> Seq<u8> {
    trim_end(trim_start(s))
}

proof fn lemma_trim_start_skip(s: Seq<u8>, a: int)
    requires
        0 <= a <= s.len(),
        forall|k: int| 0 <= k < a ==> is_space(s[k]),
        a < s.len() ==> !is_space(s[a]),
    ensures
        trim_start(s) == s.skip(a),
    decreases a,
{
    if a == 0 {
        assert(s.skip(0) =~= s);
    } else {
        lemma_trim_start_skip(s.drop_first(), a - 1);
        assert(s.drop_first().skip(a - 1) =~= s.skip(a));
    }
}

proof fn lemma_trim_end_take(s: Seq<u8>, b: int)
    requires
        0 <= b <= s.len(),
        forall|k: int| b <= k < s.len() ==> is_space(s[k]),
        b > 0 ==> !is_space(s[b - 1]),
    ensures
        trim_end(s) == s.take(b),
    decreases s.len(),
{
    if b == s.len() {
        if s.len() > 0 && is_space(s.last()) {
            assert(false);
        }
        assert(s.take(b) =~= s);
    } else {
        lemma_trim_end_take(s.drop_last(), b);
        assert(s.drop_last().take(b) =~= s.take(b));
    }
}

/// Copies `s` with leading and trailing ASCII whitespace removed.
pub fn trim_bytes(s: &[u8]) -> (r: Vec<u8>)
    ensures
        r@ == trim(s@),
{
    let len = s.len();
    let mut a: usize = 0;
    while a < len && is_space_exec(s[a])
        invariant
            a <= len,
            len == s@.len(),
            forall|k: int| 0 <= k < a ==> is_space(s@[k]),
        decreases len - a,
    {
        a = a + 1;
    }
    if a == len {
        proof {
            lemma_trim_start_skip(s@, a as int);
            assert(s@.skip(len as int) =~= Seq::<u8>::empty());
        }
        return Vec::new();
    }
    let mut b: usize = len;
    while b > a && is_space_exec(s[b - 1])
        invariant
            a <= b <= len,
            len == s@.len(),
            forall|k: int| b <= k < len ==> is_space(s@[k]),
        decreases b,
    {
        b = b - 1;
    }
    // s[a] is not a space, so the backward scan stops at an index above `a`.
    assert(!is_space(s@[a as int]));
    assert(b > a);
    let piece = &s[a..b];
    proof {
        lemma_trim_start_skip(s@, a as int);
        lemma_trim_end_take(s@.skip(a as int), b - a);
        assert(s@.skip(a as int).take(b - a) =~= s@.subrange(a as int, b as int));
    }
    vstd::slice::slice_to_vec(piece)
}

/// Executable test for ASCII whitespace.
pub fn is_space_exec(b: u8) -> (r: bool)
    ensures
        r == is_space(b),
{
    b == 32 || (9 <= b && b <= 13)
}

/// `s` begins with `prefix`.
pub open spec fn starts_with(s: Seq<u8>, prefix: Seq<u8>) -> bool {
    prefix.len() <= s.len() && s.take(prefix.len() as int) == prefix
}

/// Executable prefix test.
pub fn starts_with_bytes(s: &[u8], prefix: &[u8]) -> (r: bool)
    ensures
        r == starts_with(s@, prefix@),
{
    if prefix.len() > s.len() {
        return false;
    }
    let r = matches_at_exec(s, prefix, 0);
    proof {
        assert(s@.subrange(0, prefix@.len() as int) == s@.take(prefix@.len() as int));
    }
    r
}

/// Number of non-overlapping occurrences of `needle` in `hay` at or after
/// position `i`, scanning left to right and skipping past each match.
pub open spec fn count_from(hay: Seq<u8>, needle: Seq<u8>, i: int) -> nat
    decreases hay.len() - i when 0 <= i && needle.len() > 0
{
    if needle.len() == 0 || i + needle.len() > hay.len() {
        0
    } else if matches_at(hay, needle, i) {
        1 + count_from(hay, needle, i + needle.len() as int)
    } else {
        count_from(hay, needle, i + 1)
    }
}

/// Number of non-overlapping occurrences of `needle` in `hay`.
pub open spec fn count_occurrences(hay: Seq<u8>, needle: Seq<u8>) -> nat {
    count_from(hay, needle, 0)
}

proof fn lemma_count_from_bound(hay: Seq<u8>, needle: Seq<u8>, i: int)
    requires
        needle.len() >= 1,
        0 <= i,
    ensures
        i + count_from(hay, needle, i) <= hay.len() || count_from(hay, needle, i) == 0,
    decreases hay.len() - i,
{
    if i + needle.len() > hay.len() {
    } else if matches_at(hay, needle, i) {
        lemma_count_from_bound(hay, needle, i + needle.len() as int);
    } else {
        lemma_count_from_bound(hay, needle, i + 1);
    }
}

/// Counts the non-overlapping occurrences of `needle` in `hay`, scanning
/// left to right.
pub fn count_matches(hay: &[u8], needle: &[u8]) -> (r: usize)
    requires
        needle@.len() >= 1,
    ensures
        r == count_occurrences(hay@, needle@),
{
    let hlen = hay.len();
    let nlen = needle.len();
    if nlen > hlen {
        return 0;
    }
    let mut c: usize = 0;
    let mut i: usize = 0;
    while i <= hlen - nlen
        invariant
            nlen == needle@.len(),
            hlen == hay@.len(),
            1 <= nlen <= hlen,
            i <= hlen,
            c + count_from(hay@, needle@, i as int) == count_occurrences(hay@, needle@),
        decreases hlen - i,
    {
        if matches_at_exec(hay, needle, i) {
            proof {
                assert(count_from(hay@, needle@, i as int) >= 1);
                lemma_count_from_bound(hay@, needle@, 0);
            }
            c = c + 1;
            i = i + nlen;
        } else {
            i = i + 1;
        }
    }
    c
}

/// Index of the first line feed in `s`, or `s.len()` when there is none.
pub open spec fn find_nl(s: Seq<u8>) -> int
    decreases s.len(),
{
    if s.len() == 0 {
        0
    } else if s[0] == 10 {
        0
    } else {
        1 + find_nl(s.drop_first())
    }
}

proof fn lemma_find_nl_bounds(s: Seq<u8>)
    ensures
        0 <= find_nl(s) <= s.len(),
    decreases s.len(),
{
    if s.len() > 0 && s[0] != 10 {
        lemma_find_nl_bounds(s.drop_first());
    }
}

proof fn lemma_find_nl_at(s: Seq<u8>, m: int)
    requires
        0 <= m <= s.len(),
        forall|k: int| 0 <= k < m ==> s[k] != 10,
        m < s.len() ==> s[m] == 10,
    ensures
        find_nl(s) == m,
    decreases m,
{
    if m > 0 {
        lemma_find_nl_at(s.drop_first(), m - 1);
    }
}

/// A line as cut at a line feed, with one carriage return stripped from its
/// end if present.
pub open spec fn strip_cr(line: Seq<u8>) -> Seq<u8> {
    if line.len() > 0 && line.last() == 13 {
        line.drop_last()
    } else {
        line
    }
}

/// The lines of `s`: pieces cut at line feeds, each stripped of one trailing
/// carriage return; a final line feed ends the last line rather than opening
/// an empty one, and the last piece (which no line feed ends) keeps a
/// trailing carriage return.
pub open spec fn spec_lines(s: Seq<u8>) -> Seq<Seq<u8>>
    decreases s.len()
    via spec_lines_decreases
{
    if s.len() == 0 {
        Seq::empty()
    } else {
        let i = find_nl(s);
        if i == s.len() {
            seq![s]
        } else {
            seq![strip_cr(s.take(i))] + spec_lines(s.skip(i + 1))
        }
    }
}

#[via_fn]
proof fn spec_lines_decreases(s: Seq<u8>) {
    lemma_find_nl_bounds(s);
}

/// Splits `s` into its lines.
pub fn split_lines(s: &[u8]) -> (r: Vec<Vec<u8>>)
    ensures
        r.deep_view() == spec_lines(s@),
{
    let len = s.len();
    let mut out: Vec<Vec<u8>> = Vec::new();
    let mut pos: usize = 0;
    proof {
        assert(s@.skip(0) =~= s@);
        assert(out.deep_view() + spec_lines(s@) =~~= spec_lines(s@));
    }
    while pos < len
        invariant
            pos <= len,
            len == s@.len(),
            spec_lines(s@) == out.deep_view() + spec_lines(s@.skip(pos as int)),
        decreases len - pos,
    {
        let ghost prev = out.deep_view();
        let ghost opos = pos as int;
        let mut j: usize = pos;
        while j < len && s[j] != 10
            invariant
                pos <= j <= len,
                len == s@.len(),
                forall|k: int| pos <= k < j ==> s@[k] != 10,
            decreases len - j,
        {
            j = j + 1;
        }
        proof {
            lemma_find_nl_at(s@.skip(pos as int), j - pos);
        }
        if j == len {
            let piece = vstd::slice::slice_to_vec(&s[pos..len]);
            proof {
                assert(s@.subrange(opos, len as int) =~= s@.skip(opos));
            }
            out.push(piece);
            pos = len;
            proof {
                assert(out.deep_view() =~~= prev.push(s@.skip(opos)));
                assert(spec_lines(s@.skip(opos)) == seq![s@.skip(opos)]);
                assert(prev + seq![s@.skip(opos)] =~= prev.push(s@.skip(opos)));
                assert(s@.skip(len as int) =~= Seq::<u8>::empty());
                assert(prev.push(s@.skip(opos)) + spec_lines(s@.skip(len as int)) =~~= prev + seq![
                    s@.skip(opos),
                ]);
            }
        } else {
            let mut piece = vstd::slice::slice_to_vec(&s[pos..j]);
            proof {
                assert(s@.subrange(opos, j as int) =~= s@.skip(opos).take(j - opos));
            }
            if piece.len() > 0 && piece[piece.len() - 1] == 13 {
                let ghost before = piece@;
                piece.pop();
                proof {
                    assert(piece@ =~= before.drop_last());
                }
            }
            assert(piece@ == strip_cr(s@.skip(opos).take(j - opos)));
            out.push(piece);
            pos = j + 1;
            proof {
                let rest = s@.skip(opos);
                assert(out.deep_view() =~~= prev.push(strip_cr(rest.take(j - opos))));
                assert(rest.skip(j - opos + 1) =~= s@.skip(j + 1));
                assert(spec_lines(rest) == seq![strip_cr(rest.take(j - opos))] + spec_lines(
                    s@.skip(j + 1),
                ));
                assert(prev + (seq![strip_cr(rest.take(j - opos))] + spec_lines(s@.skip(j + 1)))
                    =~~= prev.push(strip_cr(rest.take(j - opos))) + spec_lines(s@.skip(j + 1)));
            }
        }
    }
    proof {
        assert(s@.skip(len as int) =~= Seq::<u8>::empty());
        assert(out.deep_view() + spec_lines(s@.skip(len as int)) =~~= out.deep_view());
    }
    out
}

/// The lines joined with `sep` between consecutive lines.
pub open spec fn spec_join(ls: Seq<Seq<u8>>, sep: Seq<u8>) -> Seq<u8>
    decreases ls.len(),
{
    if ls.len() == 0 {
        Seq::empty()
    } else if ls.len() == 1 {
        ls[0]
    } else {
        ls[0] + sep + spec_join(ls.drop_first(), sep)
    }
}

proof fn lemma_join_push(ls: Seq<Seq<u8>>, sep: Seq<u8>, x: Seq<u8>)
    ensures
        ls.len() == 0 ==> spec_join(ls.push(x), sep) == x,
        ls.len() > 0 ==> spec_join(ls.push(x), sep) == spec_join(ls, sep) + sep + x,
    decreases ls.len(),
{
    if ls.len() == 0 {
        assert(spec_join(ls.push(x), sep) == ls.push(x)[0]);
        assert(ls.push(x)[0] == x);
    } else if ls.len() == 1 {
        assert(ls.push(x).drop_first() =~= seq![x]);
        assert(spec_join(seq![x], sep) == x);
        assert(spec_join(ls.push(x), sep) == ls.push(x)[0] + sep + spec_join(
            ls.push(x).drop_first(),
            sep,
        ));
        assert(spec_join(ls, sep) == ls[0]);
    } else {
        lemma_join_push(ls.drop_first(), sep, x);
        assert(ls.push(x).drop_first() =~= ls.drop_first().push(x));
        assert(spec_join(ls.push(x), sep) == ls[0] + sep + spec_join(ls.drop_first().push(x), sep));
        assert(ls[0] + sep + (spec_join(ls.drop_first(), sep) + sep + x) =~= (ls[0] + sep
            + spec_join(ls.drop_first(), sep)) + sep + x);
    }
}

/// Joins the given lines with `sep` between consecutive lines.
pub fn join_bytes(ls: &Vec<Vec<u8>>, sep: &[u8]) -> (r: Vec<u8>)
    ensures
        r@ == spec_join(ls.deep_view(), sep@),
{
    let mut out: Vec<u8> = Vec::new();
    let mut i: usize = 0;
    while i < ls.len()
        invariant
            i <= ls.len(),
            out@ == spec_join(ls.deep_view().take(i as int), sep@),
        decreases ls.len() - i,
    {
        if i > 0 {
            append_bytes(&mut out, sep);
        }
        append_bytes(&mut out, ls[i].as_slice());
        proof {
            lemma_join_push(ls.deep_view().take(i as int), sep@, ls.deep_view()[i as int]);
            assert(ls.deep_view().take(i + 1) =~= ls.deep_view().take(i as int).push(
                ls.deep_view()[i as int],
            ));
        }
        i = i + 1;
    }
    proof {
        assert(ls.deep_view().take(ls.deep_view().len() as int) =~= ls.deep_view());
    }
    out
}

/// Joins the lines `ls[from..to]` with `sep` between consecutive lines.
pub fn join_range(ls: &Vec<Vec<u8>>, from: usize, to: usize, sep: &[u8]) -> (r: Vec<u8>)
    requires
        from <= to <= ls@.len(),
    ensures
        r@ == spec_join(ls.deep_view().subrange(from as int, to as int), sep@),
{
    let mut out: Vec<u8> = Vec::new();
    let mut i: usize = from;
    proof {
        assert(ls.deep_view().subrange(from as int, from as int) =~~= Seq::<Seq<u8>>::empty());
    }
    while i < to
        invariant
            from <= i <= to,
            to <= ls@.len(),
            out@ == spec_join(ls.deep_view().subrange(from as int, i as int), sep@),
        decreases to - i,
    {
        if i > from {
            append_bytes(&mut out, sep);
        }
        append_bytes(&mut out, ls[i].as_slice());
        proof {
            lemma_join_push(
                ls.deep_view().subrange(from as int, i as int),
                sep@,
                ls.deep_view()[i as int],
            );
            assert(ls.deep_view().subrange(from as int, i + 1) =~~= ls.deep_view().subrange(
                from as int,
                i as int,
            ).push(ls.deep_view()[i as int]));
        }
        i = i + 1;
    }
    out
}

/// Appends all of `s` to `out`.
pub fn append_bytes(out: &mut Vec<u8>, s: &[u8])
    ensures
        final(out)@ == old(out)@ + s@,
{
    let mut i: usize = 0;
    while i < s.len()
        invariant
            i <= s.len(),
            out@ == old(out)@ + s@.take(i as int),
        decreases s.len() - i,
    {
        out.push(s[i]);
        proof {
            assert(old(out)@ + s@.take(i + 1) =~= (old(out)@ + s@.take(i as int)).push(s@[i as int]));
        }
        i = i + 1;
    }
    proof {
        assert(s@.take(s@.len() as int) =~= s@);
    }
}

/// Appends the UTF-8 bytes of `s` to `out`.
pub fn append_str(out: &mut Vec<u8>, s: &str)
    ensures
        final(out)@ == old(out)@ + str_bytes(s@),
{
    append_bytes(out, s.as_bytes());
}

/// `h` without its leading run of number-sign bytes.
pub open spec fn strip_hashes(h: Seq<u8>) -> Seq<u8>
    decreases h.len(),
{
    if h.len() > 0 && h[0] == 35 {
        strip_hashes(h.drop_first())
    } else {
        h
    }
}

proof fn lemma_strip_hashes_skip(h: Seq<u8>, a: int)
    requires
        0 <= a <= h.len(),
        forall|k: int| 0 <= k < a ==> h[k] == 35,
        a < h.len() ==> h[a] != 35,
    ensures
        strip_hashes(h) == h.skip(a),
    decreases a,
{
    if a == 0 {
        assert(h.skip(0) =~= h);
    } else {
        lemma_strip_hashes_skip(h.drop_first(), a - 1);
        assert(h.drop_first().skip(a - 1) =~= h.skip(a));
    }
}

/// Copies `h` with its leading number signs and the surrounding whitespace
/// removed, the way a heading line is displayed.
pub fn strip_heading_marks(h: &[u8]) -> (r: Vec<u8>)
    ensures
        r@ == trim(strip_hashes(h@)),
{
    let len = h.len();
    let mut a: usize = 0;
    while a < len && h[a] == 35
        invariant
            a <= len,
            len == h@.len(),
            forall|k: int| 0 <= k < a ==> h@[k] == 35,
        decreases len - a,
    {
        a = a + 1;
    }
    proof {
        lemma_strip_hashes_skip(h@, a as int);
        assert(h@.subrange(a as int, len as int) =~= h@.skip(a as int));
    }
    trim_bytes(&h[a..len])
}

/// A byte string placed between two others is contained in the whole.
pub proof fn lemma_contains_mid(a: Seq<u8>, b: Seq<u8>, c: Seq<u8>)
    ensures
        contains_seq(a + b + c, b),
{
    assert((a + b + c).subrange(a.len() as int, a.len() + b.len() as int) =~= b);
    assert(matches_at(a + b + c, b, a.len() as int));
}

/// Containment is preserved when text is added on either side.
pub proof fn lemma_contains_extend(pre: Seq<u8>, t: Seq<u8>, post: Seq<u8>, x: Seq<u8>)
    requires
        contains_seq(t, x),
    ensures
        contains_seq(pre + t + post, x),
{
    let i = choose|i: int| matches_at(t, x, i);
    assert((pre + t + post).subrange(pre.len() + i, pre.len() + i + x.len()) =~= t.subrange(
        i,
        i + x.len(),
    ));
    assert(matches_at(pre + t + post, x, pre.len() + i));
}

/// Containment is transitive through an enclosing byte string.
pub proof fn lemma_contains_trans(t: Seq<u8>, mid: Seq<u8>, x: Seq<u8>)
    requires
        contains_seq(t, mid),
        contains_seq(mid, x),
    ensures
        contains_seq(t, x),
{
    let i = choose|i: int| matches_at(t, mid, i);
    let j = choose|j: int| matches_at(mid, x, j);
    assert forall|k: int| 0 <= k < x.len() implies t[i + j + k] == x[k] by {
        assert(t.subrange(i, i + mid.len() as int)[j + k] == mid[j + k]);
        assert(mid.subrange(j, j + x.len() as int)[k] == x[k]);
    }
    assert(t.subrange(i + j, i + j + x.len() as int) =~= x);
    assert(matches_at(t, x, i + j));
}

/// Every line of a joined list is contained in the joined text.
pub proof fn lemma_join_contains(ls: Seq<Seq<u8>>, sep: Seq<u8>, k: int)
    requires
        0 <= k < ls.len(),
    ensures
        contains_seq(spec_join(ls, sep), ls[k]),
    decreases ls.len(),
{
    if ls.len() == 1 {
        assert(spec_join(ls, sep) == ls[0]);
        assert(spec_join(ls, sep).subrange(0, ls[0].len() as int) =~= ls[0]);
        assert(matches_at(spec_join(ls, sep), ls[0], 0));
    } else if k == 0 {
        assert(spec_join(ls, sep) == ls[0] + sep + spec_join(ls.drop_first(), sep));
        lemma_contains_mid(Seq::empty(), ls[0], sep + spec_join(ls.drop_first(), sep));
        assert(Seq::empty() + ls[0] + (sep + spec_join(ls.drop_first(), sep)) =~= spec_join(
            ls,
            sep,
        ));
    } else {
        lemma_join_contains(ls.drop_first(), sep, k - 1);
        assert(spec_join(ls, sep) == ls[0] + sep + spec_join(ls.drop_first(), sep));
        lemma_contains_extend(ls[0] + sep, spec_join(ls.drop_first(), sep), Seq::empty(), ls[k]);
        assert((ls[0] + sep) + spec_join(ls.drop_first(), sep) + Seq::<u8>::empty() =~= spec_join(
            ls,
            sep,
        ));
    }
}

/// The UTF-8 bytes of a string, as a spec value.
pub open spec fn str_bytes(s: Seq<char>) -> Seq<u8> {
    vstd::utf8::encode_utf8(s)
}

/// Copies the UTF-8 bytes of `s` into an owned byte string.
pub fn str_to_bytes(s: &str) -> (r: Vec<u8>)
    ensures
        r@ == str_bytes(s@),
{
    vstd::slice::slice_to_vec(s.as_bytes())
}

/// Executable byte-string equality.
pub fn bytes_equal(a: &[u8], b: &[u8]) -> (r: bool)
    ensures
        r == (a@ == b@),
{
    if a.len() != b.len() {
        return false;
    }
    let r = matches_at_exec(a, b, 0);
    proof {
        if a@.subrange(0, b@.len() as int) == b@ {
            assert(a@ =~= b@);
        } else {
            assert(a@ != b@) by {
                assert(a@.subrange(0, b@.len() as int) =~= a@);
            }
        }
    }
    r
}

/// The decimal digits of `n`, most significant first.
pub open spec fn spec_dec(n: int) -> Seq<u8>
    decreases n when n >= 0
{
    if n < 10 {
        seq![(48 + n) as u8]
    } else {
        spec_dec(n / 10).push((48 + n % 10) as u8)
    }
}

/// Renders `n` in decimal.
pub fn dec_u128(n: u128) -> (r: Vec<u8>)
    ensures
        r@ == spec_dec(n as int),
{
    let mut m: u128 = n;
    let mut digits: Vec<u8> = Vec::new();
    proof {
        assert(spec_dec(n as int) + digits@.reverse() =~= spec_dec(n as int));
    }
    while m >= 10
        invariant
            spec_dec(n as int) == spec_dec(m as int) + digits@.reverse(),
        decreases m,
    {
        let d: u8 = 48 + (m % 10) as u8;
        let ghost before = digits@;
        digits.push(d);
        m = m / 10;
        proof {
            assert(before.push(d).reverse() =~= seq![d] + before.reverse());
            assert(spec_dec(m as int) + (seq![d] + before.reverse()) =~= (spec_dec(m as int).push(
                d,
            )) + before.reverse());
        }
    }
    let d: u8 = 48 + m as u8;
    let ghost before = digits@;
    digits.push(d);
    proof {
        assert(before.push(d).reverse() =~= seq![d] + before.reverse());
        assert(seq![d] + before.reverse() =~= spec_dec(m as int) + before.reverse());
        assert(digits@.reverse() =~= spec_dec(n as int));
    }
    let dlen = digits.len();
    let mut out: Vec<u8> = Vec::new();
    let mut k: usize = 0;
    while k < dlen
        invariant
            k <= dlen,
            dlen == digits@.len(),
            out@ =~= digits@.reverse().take(k as int),
        decreases dlen - k,
    {
        out.push(digits[dlen - 1 - k]);
        proof {
            assert(out@ =~= digits@.reverse().take(k + 1));
        }
        k = k + 1;
    }
    proof {
        assert(digits@.reverse().take(dlen as int) =~= digits@.reverse());
    }
    out
}

/// Byte-wise lexicographic order on byte strings; a proper prefix comes
/// first. This is the order in which `str` and `String` compare.
pub open spec fn lex_le(a: Seq<u8>, b: Seq<u8>) -> bool
    decreases a.len(),
{
    if a.len() == 0 {
        true
    } else if b.len() == 0 {
        false
    } else if a[0] < b[0] {
        true
    } else if a[0] > b[0] {
        false
    } else {
        lex_le(a.drop_first(), b.drop_first())
    }
}

proof fn lemma_lex_le_skip(a: Seq<u8>, b: Seq<u8>, i: int)
    requires
        0 <= i <= a.len(),
        i <= b.len(),
        forall|k: int| 0 <= k < i ==> a[k] == b[k],
    ensures
        lex_le(a, b) == lex_le(a.skip(i), b.skip(i)),
    decreases i,
{
    if i == 0 {
        assert(a.skip(0) =~= a);
        assert(b.skip(0) =~= b);
    } else {
        assert(a.len() > 0 && b.len() > 0 && a[0] == b[0]);
        lemma_lex_le_skip(a.drop_first(), b.drop_first(), i - 1);
        assert(a.drop_first().skip(i - 1) =~= a.skip(i));
        assert(b.drop_first().skip(i - 1) =~= b.skip(i));
    }
}

/// Executable lexicographic comparison: is `a <= b`?
pub fn lex_le_bytes(a: &[u8], b: &[u8]) -> (r: bool)
    ensures
        r == lex_le(a@, b@),
{
    let alen = a.len();
    let blen = b.len();
    let mut i: usize = 0;
    while i < alen && i < blen && a[i] == b[i]
        invariant
            i <= alen,
            i <= blen,
            alen == a@.len(),
            blen == b@.len(),
            forall|k: int| 0 <= k < i ==> a@[k] == b@[k],
        decreases alen - i,
    {
        i = i + 1;
    }
    proof {
        lemma_lex_le_skip(a@, b@, i as int);
    }
    if i == alen {
        assert(a@.skip(i as int) =~= Seq::<u8>::empty());
        true
    } else if i == blen {
        assert(b@.skip(i as int) =~= Seq::<u8>::empty());
        assert(a@.skip(i as int).len() > 0);
        false
    } else {
        assert(a@.skip(i as int)[0] == a@[i as int]);
        assert(b@.skip(i as int)[0] == b@[i as int]);
        a[i] < b[i]
    }
}

/// Length of the leading run of non-whitespace bytes.
pub open spec fn word_len(s: Seq<u8>) -> int
    decreases s.len(),
{
    if s.len() == 0 || is_space(s[0]) {
        0
    } else {
        1 + word_len(s.drop_first())
    }
}

proof fn lemma_word_len_bounds(s: Seq<u8>)
    ensures
        0 <= word_len(s) <= s.len(),
    decreases s.len(),
{
    if s.len() > 0 && !is_space(s[0]) {
        lemma_word_len_bounds(s.drop_first());
    }
}

/// The maximal runs of non-whitespace bytes in `s`, in order.
pub open spec fn split_ws(s: Seq<u8>) -> Seq<Seq<u8>>
    decreases s.len()
    via split_ws_decreases
{
    if s.len() == 0 {
        Seq::empty()
    } else if is_space(s[0]) {
        split_ws(s.drop_first())
    } else {
        seq![s.take(word_len(s))] + split_ws(s.skip(word_len(s)))
    }
}

#[via_fn]
proof fn split_ws_decreases(s: Seq<u8>) {
    lemma_word_len_bounds(s);
    if s.len() > 0 && !is_space(s[0]) {
        assert(word_len(s) == 1 + word_len(s.drop_first()));
        lemma_word_len_bounds(s.drop_first());
    }
}

proof fn lemma_word_len_at(s: Seq<u8>, m: int)
    requires
        0 <= m <= s.len(),
        forall|k: int| 0 <= k < m ==> !is_space(s[k]),
        m < s.len() ==> is_space(s[m]),
    ensures
        word_len(s) == m,
    decreases m,
{
    if m > 0 {
        lemma_word_len_at(s.drop_first(), m - 1);
    }
}

proof fn lemma_split_ws_skip_space(s: Seq<u8>, i: int)
    requires
        0 <= i <= s.len(),
        forall|k: int| 0 <= k < i ==> is_space(s[k]),
    ensures
        split_ws(s) == split_ws(s.skip(i)),
    decreases i,
{
    if i == 0 {
        assert(s.skip(0) =~= s);
    } else {
        lemma_split_ws_skip_space(s.drop_first(), i - 1);
        assert(s.drop_first().skip(i - 1) =~= s.skip(i));
    }
}

/// Splits `s` into its whitespace-separated words.
pub fn split_ws_bytes(s: &[u8]) -> (r: Vec<Vec<u8>>)
    ensures
        r.deep_view() == split_ws(s@),
{
    let len = s.len();
    let mut out: Vec<Vec<u8>> = Vec::new();
    let mut pos: usize = 0;
    proof {
        assert(s@.skip(0) =~= s@);
        assert(out.deep_view() + split_ws(s@) =~~= split_ws(s@));
    }
    while pos < len
        invariant
            pos <= len,
            len == s@.len(),
            split_ws(s@) == out.deep_view() + split_ws(s@.skip(pos as int)),
        decreases len - pos,
    {
        let ghost prev = out.deep_view();
        let ghost opos = pos as int;
        if is_space_exec(s[pos]) {
            proof {
                let rest = s@.skip(opos);
                assert(rest.drop_first() =~= s@.skip(opos + 1));
            }
            pos = pos + 1;
        } else {
            let mut j: usize = pos;
            while j < len && !is_space_exec(s[j])
                invariant
                    pos <= j <= len,
                    len == s@.len(),
                    forall|k: int| pos <= k < j ==> !is_space(s@[k]),
                decreases len - j,
            {
                j = j + 1;
            }
            proof {
                lemma_word_len_at(s@.skip(opos), j - opos);
            }
            let word = vstd::slice::slice_to_vec(&s[pos..j]);
            proof {
                assert(s@.subrange(opos, j as int) =~= s@.skip(opos).take(j - opos));
            }
            out.push(word);
            pos = j;
            proof {
                let rest = s@.skip(opos);
                assert(out.deep_view() =~~= prev.push(rest.take(j - opos)));
                assert(rest.skip(j - opos) =~= s@.skip(j as int));
                assert(split_ws(rest) == seq![rest.take(j - opos)] + split_ws(s@.skip(j as int)));
                assert(prev + (seq![rest.take(j - opos)] + split_ws(s@.skip(j as int))) =~~= prev.push(
                    rest.take(j - opos),
                ) + split_ws(s@.skip(j as int)));
            }
        }
    }
    proof {
        assert(s@.skip(len as int) =~= Seq::<u8>::empty());
        assert(out.deep_view() + split_ws(s@.skip(len as int)) =~~= out.deep_view());
    }
    out
}

} // verus!
