//! Laws of the ordering of concern sections: a sorted body sorts to itself.
use vstd::prelude::*;
use crate::document::{
    find_heading, section_tail, spec_concern_heading, spec_extract_section,
    by_descending_rank, heading_marker, heading_starts, heading_starts_upto, rank_key,
    ranked_texts, section_end, spec_concern_rank, spec_sections, spec_sort_sections,
};
use crate::text::{join, lines, split_char, strip_cr, trim_end_matches};

verus! {

// ---------------------------------------------------------------------------
// Splitting, joining and trimming newlines
// ---------------------------------------------------------------------------

/// Splitting `a`, the separator and `b` gives the pieces of `a`, then those
/// of `b`.
pub proof fn lemma_split_concat(a: Seq<char>, b: Seq<char>, sep: char)
    ensures
        split_char(a + seq![sep] + b, sep) == split_char(a, sep) + split_char(b, sep),
    decreases b.len(),
{
    let s = a + seq![sep] + b;
    if b.len() == 0 {
        assert(s.drop_last() =~= a);
        assert(split_char(b, sep) == seq![Seq::<char>::empty()]);
        assert(split_char(a, sep).push(Seq::<char>::empty()) =~= split_char(a, sep) + seq![Seq::<char>::empty()]);
    } else {
        let b0 = b.drop_last();
        lemma_split_concat(a, b0, sep);
        assert(s.drop_last() =~= a + seq![sep] + b0);
        assert(s.last() == b.last());
        crate::text::lemma_split_char_len(b0, sep);
        let pa = split_char(a, sep);
        let pb0 = split_char(b0, sep);
        if b.last() == sep {
            assert((pa + pb0).push(Seq::<char>::empty()) =~= pa + pb0.push(Seq::<char>::empty()));
        } else {
            let x = b.last();
            assert((pa + pb0).update((pa + pb0).len() - 1, (pa + pb0).last().push(x)) =~= pa
                + pb0.update(pb0.len() - 1, pb0.last().push(x)));
        }
    }
}

/// Joining the pieces of a split gives the text back.
pub proof fn lemma_join_split(s: Seq<char>, sep: char)
    ensures
        join(split_char(s, sep), seq![sep]) == s,
    decreases s.len(),
{
    if s.len() == 0 {
        assert(split_char(s, sep) == seq![Seq::<char>::empty()]);
        assert(s =~= Seq::<char>::empty());
    } else {
        let s0 = s.drop_last();
        lemma_join_split(s0, sep);
        crate::text::lemma_split_char_len(s0, sep);
        let prev = split_char(s0, sep);
        let cur = split_char(s, sep);
        let x = s.last();
        if x == sep {
            assert(cur == prev.push(Seq::<char>::empty()));
            assert(cur.drop_last() =~= prev);
            assert(join(cur, seq![sep]) == join(prev, seq![sep]) + seq![sep] + Seq::<char>::empty());
            assert(s =~= s0 + seq![sep] + Seq::<char>::empty());
        } else {
            if prev.len() == 1 {
                assert(join(prev, seq![sep]) == prev[0]);
                assert(cur.len() == 1);
                assert(join(cur, seq![sep]) == cur[0]);
                assert(s =~= s0.push(x));
            } else {
                assert(cur.drop_last() =~= prev.drop_last());
                assert(join(cur, seq![sep]) == join(cur.drop_last(), seq![sep]) + seq![sep] + cur.last());
                assert(join(prev, seq![sep]) == join(prev.drop_last(), seq![sep]) + seq![sep] + prev.last());
                assert(s =~= s0.push(x));
                assert(join(cur, seq![sep]) =~= join(prev, seq![sep]).push(x));
            }
        }
    }
}

/// Trailing newlines trimmed: the text does not end in a newline.
pub proof fn lemma_trim_nl_end(x: Seq<char>)
    ensures
        trim_end_matches(x, seq!['\n']).len() == 0 || trim_end_matches(x, seq!['\n']).last() != '\n',
    decreases x.len(),
{
    if seq!['\n'].is_suffix_of(x) {
        lemma_trim_nl_end(x.take(x.len() - 1));
    } else if x.len() > 0 && x.last() == '\n' {
        assert(x.subrange(x.len() - 1, x.len() as int) =~= seq!['\n']);
    }
}

/// A text that does not end in a newline is its own trim.
pub proof fn lemma_trim_nl_id(x: Seq<char>)
    requires
        x.len() == 0 || x.last() != '\n',
    ensures
        trim_end_matches(x, seq!['\n']) == x,
{
    if seq!['\n'].is_suffix_of(x) {
        assert(x.subrange(x.len() - 1, x.len() as int)[0] == x.last());
    }
}

/// Trimming is unchanged by one more trailing newline.
pub proof fn lemma_trim_nl_push(x: Seq<char>)
    ensures
        trim_end_matches(x.push('\n'), seq!['\n']) == trim_end_matches(x, seq!['\n']),
{
    let y = x.push('\n');
    assert(y.subrange(y.len() - 1, y.len() as int) =~= seq!['\n']);
    assert(y.take(y.len() - 1) =~= x);
}

/// The lines `L` joined and trimmed of trailing newlines are the first `k`
/// of them joined, for some `k` from 1 on.
pub proof fn lemma_trim_join(ls: Seq<Seq<char>>) -> (k: int)
    requires
        ls.len() > 0,
        forall|i: int| 0 <= i < ls.len() ==> !(#[trigger] ls[i]).contains('\n'),
    ensures
        1 <= k <= ls.len(),
        trim_end_matches(join(ls, seq!['\n']), seq!['\n']) == join(ls.take(k), seq!['\n']),
    decreases ls.len(),
{
    let nl = seq!['\n'];
    if ls.len() == 1 {
        assert(join(ls, nl) == ls[0]);
        if ls[0].len() > 0 {
            assert(ls[0].last() != '\n') by {
                assert(ls[0][ls[0].len() - 1] == ls[0].last());
            }
        }
        lemma_trim_nl_id(ls[0]);
        assert(ls.take(1) =~= ls);
        1
    } else if ls.last().len() > 0 {
        assert(join(ls, nl) == join(ls.drop_last(), nl) + nl + ls.last());
        assert(ls.last() == ls[ls.len() - 1]);
        assert(ls.last().last() != '\n') by {
            assert(ls.last()[ls.last().len() - 1] == ls.last().last());
        }
        lemma_trim_nl_id(join(ls, nl));
        assert(ls.take(ls.len() as int) =~= ls);
        ls.len() as int
    } else {
        let d = ls.drop_last();
        assert forall|i: int| 0 <= i < d.len() implies !(#[trigger] d[i]).contains('\n') by {
            assert(d[i] == ls[i]);
        }
        let k = lemma_trim_join(d);
        assert(join(ls, nl) =~= join(d, nl).push('\n'));
        lemma_trim_nl_push(join(d, nl));
        assert(d.take(k) =~= ls.take(k));
        k
    }
}

// ---------------------------------------------------------------------------
// The lines of pieces joined by blank lines
// ---------------------------------------------------------------------------

/// The lines of `ps` joined by blank lines: each piece's lines, with an
/// empty line between neighbours.
pub open spec fn piece_lines(ps: Seq<Seq<char>>) -> Seq<Seq<char>>
    decreases ps.len(),
{
    if ps.len() == 0 {
        Seq::empty()
    } else if ps.len() == 1 {
        split_char(ps[0], '\n')
    } else {
        piece_lines(ps.drop_last()) + seq![Seq::<char>::empty()] + split_char(ps.last(), '\n')
    }
}

proof fn lemma_split_join_pieces(ps: Seq<Seq<char>>)
    requires
        ps.len() > 0,
    ensures
        split_char(join(ps, seq!['\n', '\n']), '\n') == piece_lines(ps),
    decreases ps.len(),
{
    if ps.len() > 1 {
        let d = ps.drop_last();
        lemma_split_join_pieces(d);
        let jd = join(d, seq!['\n', '\n']);
        assert(join(ps, seq!['\n', '\n']) =~= (jd + seq!['\n'] + Seq::<char>::empty()) + seq!['\n']
            + ps.last());
        lemma_split_concat(jd + seq!['\n'] + Seq::<char>::empty(), ps.last(), '\n');
        lemma_split_concat(jd, Seq::<char>::empty(), '\n');
        assert(split_char(Seq::<char>::empty(), '\n') == seq![Seq::<char>::empty()]);
    }
}

/// No line of the pieces' lines holds a newline, nor a carriage return when
/// no piece does.
proof fn lemma_piece_lines_clean(ps: Seq<Seq<char>>)
    requires
        forall|i: int| 0 <= i < ps.len() ==> !(#[trigger] ps[i]).contains('\r'),
    ensures
        forall|k: int|
            0 <= k < piece_lines(ps).len() ==> crate::commands::backfill_ranks::clean_line(
                #[trigger] piece_lines(ps)[k],
            ),
    decreases ps.len(),
{
    if ps.len() == 1 {
        crate::text::lemma_split_char_pieces(ps[0], '\n', '\r');
    } else if ps.len() > 1 {
        let d = ps.drop_last();
        assert forall|i: int| 0 <= i < d.len() implies !(#[trigger] d[i]).contains('\r') by {
            assert(d[i] == ps[i]);
        }
        lemma_piece_lines_clean(d);
        assert(!ps.last().contains('\r')) by {
            assert(ps[ps.len() - 1] == ps.last());
        }
        crate::text::lemma_split_char_pieces(ps.last(), '\n', '\r');
        let a = piece_lines(d);
        let b = split_char(ps.last(), '\n');
        let all = piece_lines(ps);
        assert forall|k: int| 0 <= k < all.len() implies crate::commands::backfill_ranks::clean_line(
            #[trigger] all[k],
        ) by {
            if k < a.len() {
                assert(all[k] == a[k]);
            } else if k == a.len() {
                assert(all[k] == Seq::<char>::empty());
            } else {
                assert(all[k] == b[k - a.len() - 1]);
            }
        }
    }
}

/// The lines of the pieces joined by blank lines, with a final newline, are
/// the pieces' lines.
pub proof fn lemma_lines_of_pieces(ps: Seq<Seq<char>>)
    requires
        ps.len() > 0,
        forall|i: int| 0 <= i < ps.len() ==> !(#[trigger] ps[i]).contains('\r'),
    ensures
        lines(join(ps, seq!['\n', '\n']) + seq!['\n']) == piece_lines(ps),
{
    let j = join(ps, seq!['\n', '\n']);
    let r = j + seq!['\n'];
    lemma_split_join_pieces(ps);
    assert(r =~= j + seq!['\n'] + Seq::<char>::empty());
    lemma_split_concat(j, Seq::<char>::empty(), '\n');
    assert(split_char(Seq::<char>::empty(), '\n') == seq![Seq::<char>::empty()]);
    let segs = split_char(r, '\n');
    assert(segs == piece_lines(ps) + seq![Seq::<char>::empty()]);
    assert(segs.drop_last() =~= piece_lines(ps));
    lemma_piece_lines_clean(ps);
    let pl = piece_lines(ps);
    assert(r.last() == '\n');
    assert(lines(r) == segs.drop_last().map_values(|l: Seq<char>| strip_cr(l)));
    assert forall|k: int| 0 <= k < pl.len() implies strip_cr(#[trigger] pl[k]) == pl[k] by {
        assert(crate::commands::backfill_ranks::clean_line(pl[k]));
        if pl[k].len() > 0 {
            assert(pl[k][pl[k].len() - 1] == pl[k].last());
        }
    }
    assert(lines(r) =~= pl);
}

// ---------------------------------------------------------------------------
// Heading positions over concatenated lines
// ---------------------------------------------------------------------------

/// `### ` opens the line.
pub open spec fn is_heading(l: Seq<char>) -> bool {
    heading_marker().is_prefix_of(l)
}

proof fn lemma_starts_prefix(a: Seq<Seq<char>>, b: Seq<Seq<char>>, n: int)
    requires
        0 <= n <= a.len(),
    ensures
        heading_starts_upto(a + b, n) == heading_starts_upto(a, n),
    decreases n,
{
    if n > 0 {
        lemma_starts_prefix(a, b, n - 1);
        assert((a + b)[n - 1] == a[n - 1]);
    }
}

/// Heading positions of `a + b`: those of `a`, then those of `b` moved on by
/// the length of `a`.
pub proof fn lemma_starts_concat(a: Seq<Seq<char>>, b: Seq<Seq<char>>, m: int)
    requires
        0 <= m <= b.len(),
    ensures
        heading_starts_upto(a + b, a.len() + m) == heading_starts(a) + heading_starts_upto(b, m).map_values(
            |i: int| i + a.len(),
        ),
    decreases m,
{
    if m == 0 {
        lemma_starts_prefix(a, b, a.len() as int);
        assert(heading_starts_upto(b, 0).map_values(|i: int| i + a.len()) =~= Seq::<int>::empty());
        assert(heading_starts(a) + Seq::<int>::empty() =~= heading_starts(a));
    } else {
        lemma_starts_concat(a, b, m - 1);
        assert((a + b)[a.len() + m - 1] == b[m - 1]);
        let prev = heading_starts_upto(b, m - 1);
        if is_heading(b[m - 1]) {
            assert(prev.push(m - 1).map_values(|i: int| i + a.len()) =~= prev.map_values(
                |i: int| i + a.len(),
            ).push(a.len() + m - 1));
        }
    }
}

/// Lines without headings have no heading positions.
pub proof fn lemma_starts_none(a: Seq<Seq<char>>, n: int)
    requires
        0 <= n <= a.len(),
        forall|i: int| 0 <= i < a.len() ==> !is_heading(#[trigger] a[i]),
    ensures
        heading_starts_upto(a, n) == Seq::<int>::empty(),
    decreases n,
{
    if n > 0 {
        lemma_starts_none(a, n - 1);
    }
}

/// A block whose only heading is its first line has the one heading
/// position 0.
pub proof fn lemma_starts_block(b: Seq<Seq<char>>, n: int)
    requires
        1 <= n <= b.len(),
        is_heading(b[0]),
        forall|i: int| 1 <= i < b.len() ==> !is_heading(#[trigger] b[i]),
    ensures
        heading_starts_upto(b, n) == seq![0int],
    decreases n,
{
    if n > 1 {
        lemma_starts_block(b, n - 1);
    } else {
        assert(heading_starts_upto(b, 0) == Seq::<int>::empty());
    }
}

// ---------------------------------------------------------------------------
// Sections of lines made of blocks
// ---------------------------------------------------------------------------

/// The blocks' lines one after another.
pub open spec fn flat(bs: Seq<Seq<Seq<char>>>) -> Seq<Seq<char>>
    decreases bs.len(),
{
    if bs.len() == 0 {
        Seq::empty()
    } else {
        flat(bs.drop_last()) + bs.last()
    }
}

/// A block is a heading line and lines that are not headings.
pub open spec fn good_block(b: Seq<Seq<char>>) -> bool {
    &&& b.len() > 0
    &&& is_heading(b[0])
    &&& forall|i: int| 1 <= i < b.len() ==> !is_heading(#[trigger] b[i])
}

/// The section that a block makes: its heading's rank key and its lines
/// joined.
pub open spec fn block_section(b: Seq<Seq<char>>) -> (int, Seq<char>) {
    (rank_key(spec_concern_rank(b[0])), join(b, seq!['\n']))
}

/// Lines without headings followed by blocks: the sections are the blocks,
/// and the first heading comes right after the lines without headings.
pub proof fn lemma_structure(a: Seq<Seq<char>>, bs: Seq<Seq<Seq<char>>>)
    requires
        bs.len() > 0,
        forall|i: int| 0 <= i < a.len() ==> !is_heading(#[trigger] a[i]),
        forall|j: int| 0 <= j < bs.len() ==> good_block(#[trigger] bs[j]),
    ensures
        heading_starts(a + flat(bs)).len() == bs.len(),
        heading_starts(a + flat(bs))[0] == a.len(),
        spec_sections(a + flat(bs)) == bs.map_values(|b: Seq<Seq<char>>| block_section(b)),
    decreases bs.len(),
{
    let b = bs.last();
    assert(good_block(bs[bs.len() - 1]));
    assert(b == bs[bs.len() - 1]);
    let d = bs.drop_last();
    let ls = a + flat(d);
    let ls2 = a + flat(bs);
    assert(ls2 =~= ls + b);
    lemma_starts_concat(ls, b, b.len() as int);
    lemma_starts_block(b, b.len() as int);
    assert(seq![0int].map_values(|i: int| i + ls.len()) =~= seq![ls.len() as int]);
    let st2 = heading_starts(ls2);
    if bs.len() == 1 {
        assert(d.len() == 0);
        assert(flat(d) == Seq::<Seq<char>>::empty());
        assert(ls =~= a);
        lemma_starts_none(a, a.len() as int);
        assert(st2 =~= seq![a.len() as int]);
        let secs = spec_sections(ls2);
        assert(section_end(ls2, st2, 0) == ls2.len());
        assert(ls2.subrange(a.len() as int, ls2.len() as int) =~= b);
        assert(ls2[a.len() as int] == b[0]);
        assert(secs =~= bs.map_values(|b: Seq<Seq<char>>| block_section(b)));
    } else {
        assert forall|j: int| 0 <= j < d.len() implies good_block(#[trigger] d[j]) by {
            assert(d[j] == bs[j]);
        }
        lemma_structure(a, d);
        let st = heading_starts(ls);
        assert(st2 == st + seq![ls.len() as int]);
        lemma_heading_starts_props_all(ls);
        let secs = spec_sections(ls);
        let secs2 = spec_sections(ls2);
        assert forall|j: int| 0 <= j < secs2.len() implies secs2[j] == block_section(
            #[trigger] bs[j],
        ) by {
            if j < d.len() {
                assert(st2[j] == st[j]);
                assert(0 <= st[j] < ls.len());
                let e = section_end(ls, st, j);
                assert(section_end(ls2, st2, j) == e);
                assert(st[j] < e <= ls.len()) by {
                    if j + 1 < st.len() {
                        assert(st[j] < st[j + 1]);
                    }
                }
                assert(ls2.subrange(st[j], e) =~= ls.subrange(st[j], e));
                assert(ls2[st[j]] == ls[st[j]]);
                assert(secs2[j] == secs[j]);
                assert(bs[j] == d[j]);
            } else {
                assert(j == d.len());
                assert(st2[j] == ls.len());
                assert(section_end(ls2, st2, j) == ls2.len());
                assert(ls2.subrange(ls.len() as int, ls2.len() as int) =~= b);
                assert(ls2[ls.len() as int] == b[0]);
            }
        }
        assert(secs2 =~= bs.map_values(|b: Seq<Seq<char>>| block_section(b)));
    }
}

/// Heading positions increase and lie inside the lines.
pub proof fn lemma_heading_starts_props_all(ls: Seq<Seq<char>>)
    ensures
        forall|a: int, b: int|
            0 <= a < b < heading_starts(ls).len() ==> heading_starts(ls)[a] < heading_starts(ls)[b],
        forall|a: int|
            0 <= a < heading_starts(ls).len() ==> 0 <= #[trigger] heading_starts(ls)[a] < ls.len(),
{
    crate::document::lemma_heading_starts_props(ls, ls.len() as int);
}

// ---------------------------------------------------------------------------
// Pieces as blocks
// ---------------------------------------------------------------------------

/// The blocks that section pieces make once joined by blank lines: each
/// piece's lines and the blank line after it, the last piece's lines alone.
pub open spec fn blocks_of(qs: Seq<Seq<char>>) -> Seq<Seq<Seq<char>>> {
    Seq::new(
        qs.len(),
        |j: int|
            if j < qs.len() - 1 {
                split_char(qs[j], '\n') + seq![Seq::<char>::empty()]
            } else {
                split_char(qs[j], '\n')
            },
    )
}

proof fn lemma_piece_lines_blocks(qs: Seq<Seq<char>>)
    requires
        qs.len() > 0,
    ensures
        piece_lines(qs) == flat(blocks_of(qs)),
    decreases qs.len(),
{
    let bq = blocks_of(qs);
    if qs.len() == 1 {
        assert(bq.drop_last() =~= Seq::<Seq<Seq<char>>>::empty());
        assert(flat(bq.drop_last()) == Seq::<Seq<char>>::empty());
        assert(flat(bq) =~= split_char(qs[0], '\n'));
    } else {
        let d = qs.drop_last();
        lemma_piece_lines_blocks(d);
        let bd = blocks_of(d);
        let e = bq.drop_last();
        assert(e.drop_last() =~= bd.drop_last());
        assert(e.last() =~= bd.last() + seq![Seq::<char>::empty()]);
        assert(flat(e) == flat(e.drop_last()) + e.last());
        assert(flat(bd) == flat(bd.drop_last()) + bd.last());
        assert(flat(e) =~= flat(bd) + seq![Seq::<char>::empty()]);
        assert(bq.last() == split_char(qs.last(), '\n'));
        assert(flat(bq) == flat(e) + bq.last());
        assert(piece_lines(qs) =~= flat(bq));
    }
}

proof fn lemma_piece_lines_cons(p: Seq<char>, qs: Seq<Seq<char>>)
    requires
        qs.len() > 0,
    ensures
        piece_lines(seq![p] + qs) == split_char(p, '\n') + seq![Seq::<char>::empty()] + piece_lines(qs),
    decreases qs.len(),
{
    let ps = seq![p] + qs;
    if qs.len() == 1 {
        assert(ps.drop_last() =~= seq![p]);
        assert(ps.last() == qs[0]);
        assert(piece_lines(seq![p]) == split_char(p, '\n'));
        assert(piece_lines(qs) == split_char(qs[0], '\n'));
        assert(piece_lines(ps) == piece_lines(ps.drop_last()) + seq![Seq::<char>::empty()] + split_char(ps.last(), '\n'));
    } else {
        lemma_piece_lines_cons(p, qs.drop_last());
        assert(ps.drop_last() =~= seq![p] + qs.drop_last());
        assert(ps.last() == qs.last());
        assert(piece_lines(ps) =~= split_char(p, '\n') + seq![Seq::<char>::empty()] + piece_lines(qs));
    }
}

// ---------------------------------------------------------------------------
// Ranks of pieces
// ---------------------------------------------------------------------------

/// The rank key of a section piece: that of its first line.
pub open spec fn key_of_piece(q: Seq<char>) -> int {
    rank_key(spec_concern_rank(split_char(q, '\n')[0]))
}

pub open spec fn key_is(k: int) -> spec_fn(Seq<char>) -> bool {
    |q: Seq<char>| key_of_piece(q) == k
}

/// Sections whose keys are those of the pieces `xs` and whose texts trim to
/// them.
pub open spec fn aligned(secs: Seq<(int, Seq<char>)>, xs: Seq<Seq<char>>) -> bool {
    &&& secs.len() == xs.len()
    &&& forall|j: int|
        0 <= j < secs.len() ==> (#[trigger] secs[j]).0 == key_of_piece(xs[j])
            && trim_end_matches(secs[j].1, seq!['\n']) == xs[j]
}

proof fn lemma_aligned_ranked(secs: Seq<(int, Seq<char>)>, xs: Seq<Seq<char>>, k: int)
    requires
        aligned(secs, xs),
    ensures
        ranked_texts(secs, k) == xs.filter(key_is(k)),
    decreases secs.len(),
{
    if secs.len() == 0 {
        xs.filter_lemma(key_is(k));
        assert(xs.filter(key_is(k)) =~= Seq::<Seq<char>>::empty());
    } else {
        let d = secs.drop_last();
        let xd = xs.drop_last();
        assert forall|j: int| 0 <= j < d.len() implies (#[trigger] d[j]).0 == key_of_piece(xd[j])
            && trim_end_matches(d[j].1, seq!['\n']) == xd[j] by {
            assert(d[j] == secs[j]);
            assert(xd[j] == xs[j]);
        }
        lemma_aligned_ranked(d, xd, k);
        assert(xs =~= xd.push(xs.last()));
        xd.lemma_filter_push(xs.last(), key_is(k));
        assert(secs[secs.len() - 1] == secs.last());
        assert(xs[xs.len() - 1] == xs.last());
    }
}

proof fn lemma_filter_all<A>(s: Seq<A>, p: spec_fn(A) -> bool)
    requires
        forall|i: int| 0 <= i < s.len() ==> p(#[trigger] s[i]),
    ensures
        s.filter(p) == s,
    decreases s.len(),
{
    if s.len() == 0 {
        s.filter_lemma(p);
        assert(s.filter(p) =~= s);
    } else {
        let d = s.drop_last();
        assert forall|i: int| 0 <= i < d.len() implies p(#[trigger] d[i]) by {
            assert(d[i] == s[i]);
        }
        lemma_filter_all(d, p);
        assert(s =~= d.push(s.last()));
        d.lemma_filter_push(s.last(), p);
        assert(p(s[s.len() - 1]));
    }
}

/// Keeping the pieces of key `k` from pieces kept for key `i`.
proof fn lemma_filter_group(t: Seq<Seq<char>>, i: int, k: int)
    ensures
        t.filter(key_is(i)).filter(key_is(k)) == (if i == k {
            t.filter(key_is(i))
        } else {
            Seq::<Seq<char>>::empty()
        }),
{
    let g = t.filter(key_is(i));
    t.filter_lemma(key_is(i));
    if i == k {
        assert forall|j: int| 0 <= j < g.len() implies (key_is(k))(#[trigger] g[j]) by {}
        lemma_filter_all(g, key_is(k));
    } else {
        assert forall|j: int| 0 <= j < g.len() implies !(key_is(k))(#[trigger] g[j]) by {}
        g.lemma_all_neg_filter_empty(key_is(k));
    }
}

/// The pieces by descending key, from `t`.
#[verifier::opaque]
pub open spec fn grouped(t: Seq<Seq<char>>) -> Seq<Seq<char>> {
    t.filter(key_is(5)) + t.filter(key_is(4)) + t.filter(key_is(3)) + t.filter(key_is(2)) + t.filter(
        key_is(1),
    ) + t.filter(key_is(0))
}

/// Grouping pieces that are already grouped keeps them as they are.
proof fn lemma_grouped_filter(t: Seq<Seq<char>>, k: int)
    requires
        0 <= k <= 5,
    ensures
        grouped(t).filter(key_is(k)) == t.filter(key_is(k)),
{
    reveal(grouped);
    let p = key_is(k);
    let g5 = t.filter(key_is(5));
    let g4 = t.filter(key_is(4));
    let g3 = t.filter(key_is(3));
    let g2 = t.filter(key_is(2));
    let g1 = t.filter(key_is(1));
    let g0 = t.filter(key_is(0));
    Seq::filter_distributes_over_add(g5 + g4 + g3 + g2 + g1, g0, p);
    Seq::filter_distributes_over_add(g5 + g4 + g3 + g2, g1, p);
    Seq::filter_distributes_over_add(g5 + g4 + g3, g2, p);
    Seq::filter_distributes_over_add(g5 + g4, g3, p);
    Seq::filter_distributes_over_add(g5, g4, p);
    lemma_filter_group(t, 5, k);
    lemma_filter_group(t, 4, k);
    lemma_filter_group(t, 3, k);
    lemma_filter_group(t, 2, k);
    lemma_filter_group(t, 1, k);
    lemma_filter_group(t, 0, k);
    let e = Seq::<Seq<char>>::empty();
    if k == 5 {
        assert(g5 + e + e + e + e + e =~= g5);
    } else if k == 4 {
        assert(e + g4 + e + e + e + e =~= g4);
    } else if k == 3 {
        assert(e + e + g3 + e + e + e =~= g3);
    } else if k == 2 {
        assert(e + e + e + g2 + e + e =~= g2);
    } else if k == 1 {
        assert(e + e + e + e + g1 + e =~= g1);
    } else {
        assert(e + e + e + e + e + g0 =~= g0);
    }
}

/// Sections aligned with pieces sort to the pieces grouped by key.
proof fn lemma_aligned_by_rank(secs: Seq<(int, Seq<char>)>, xs: Seq<Seq<char>>)
    requires
        aligned(secs, xs),
    ensures
        by_descending_rank(secs) == grouped(xs),
{
    reveal(grouped);
    lemma_aligned_ranked(secs, xs, 5);
    lemma_aligned_ranked(secs, xs, 4);
    lemma_aligned_ranked(secs, xs, 3);
    lemma_aligned_ranked(secs, xs, 2);
    lemma_aligned_ranked(secs, xs, 1);
    lemma_aligned_ranked(secs, xs, 0);
}

/// Grouping twice groups once.
proof fn lemma_grouped_twice(t: Seq<Seq<char>>)
    ensures
        grouped(grouped(t)) == grouped(t),
{
    reveal(grouped);
    lemma_grouped_filter(t, 5);
    lemma_grouped_filter(t, 4);
    lemma_grouped_filter(t, 3);
    lemma_grouped_filter(t, 2);
    lemma_grouped_filter(t, 1);
    lemma_grouped_filter(t, 0);
}

// ---------------------------------------------------------------------------
// Pieces made from lines
// ---------------------------------------------------------------------------

/// Every heading line among the first `n` is a heading position.
proof fn lemma_starts_complete(ls: Seq<Seq<char>>, n: int)
    requires
        0 <= n <= ls.len(),
    ensures
        forall|i: int|
            0 <= i < n && is_heading(#[trigger] ls[i]) ==> heading_starts_upto(ls, n).contains(i),
    decreases n,
{
    if n > 0 {
        lemma_starts_complete(ls, n - 1);
        let prev = heading_starts_upto(ls, n - 1);
        assert forall|i: int| 0 <= i < n && is_heading(#[trigger] ls[i]) implies heading_starts_upto(
            ls,
            n,
        ).contains(i) by {
            if i < n - 1 {
                assert(prev.contains(i));
                let q = choose|q: int| 0 <= q < prev.len() && prev[q] == i;
                if is_heading(ls[n - 1]) {
                    assert(prev.push(n - 1)[q] == i);
                }
            } else {
                assert(prev.push(n - 1)[prev.len() as int] == n - 1);
            }
        }
    }
}

proof fn lemma_join_no_cr(ls: Seq<Seq<char>>)
    requires
        forall|i: int| 0 <= i < ls.len() ==> !(#[trigger] ls[i]).contains('\r'),
    ensures
        !join(ls, seq!['\n']).contains('\r'),
    decreases ls.len(),
{
    if ls.len() == 1 {
        assert(join(ls, seq!['\n']) == ls[0]);
    } else if ls.len() > 1 {
        let d = ls.drop_last();
        assert forall|i: int| 0 <= i < d.len() implies !(#[trigger] d[i]).contains('\r') by {
            assert(d[i] == ls[i]);
        }
        lemma_join_no_cr(d);
        let a = join(d, seq!['\n']);
        let x = a + seq!['\n'] + ls.last();
        assert(join(ls, seq!['\n']) == x);
        assert(!ls.last().contains('\r')) by {
            assert(ls[ls.len() - 1] == ls.last());
        }
        if x.contains('\r') {
            let j = choose|j: int| 0 <= j < x.len() && x[j] == '\r';
            if j < a.len() {
                assert(a[j] == '\r');
            } else if j > a.len() {
                assert(ls.last()[j - a.len() - 1] == '\r');
            }
        }
    }
}

/// `join` of one more piece.
proof fn lemma_join_push(x: Seq<Seq<char>>, y: Seq<char>, sep: Seq<char>)
    requires
        x.len() > 0,
    ensures
        join(x.push(y), sep) == join(x, sep) + sep + y,
{
    assert(x.push(y).drop_last() =~= x);
}

/// A piece made by joining lines and trimming trailing newlines: its lines
/// are the first `k` of them, it holds no carriage return and it does not
/// end in a newline.
proof fn lemma_piece_from_lines(l: Seq<Seq<char>>) -> (k: int)
    requires
        l.len() > 0,
        forall|i: int| 0 <= i < l.len() ==> crate::commands::backfill_ranks::clean_line(#[trigger] l[i]),
    ensures
        1 <= k <= l.len(),
        split_char(trim_end_matches(join(l, seq!['\n']), seq!['\n']), '\n') == l.take(k),
        !trim_end_matches(join(l, seq!['\n']), seq!['\n']).contains('\r'),
        trim_end_matches(join(l, seq!['\n']), seq!['\n']).len() == 0 || trim_end_matches(
            join(l, seq!['\n']),
            seq!['\n'],
        ).last() != '\n',
{
    assert forall|i: int| 0 <= i < l.len() implies !(#[trigger] l[i]).contains('\n') by {
        assert(crate::commands::backfill_ranks::clean_line(l[i]));
    }
    let k = lemma_trim_join(l);
    let lt = l.take(k);
    assert forall|i: int| 0 <= i < lt.len() implies !(#[trigger] lt[i]).contains('\n') by {
        assert(lt[i] == l[i]);
    }
    assert forall|i: int| 0 <= i < lt.len() implies !(#[trigger] lt[i]).contains('\r') by {
        assert(lt[i] == l[i]);
        assert(crate::commands::backfill_ranks::clean_line(l[i]));
    }
    crate::text::lemma_split_join(lt, '\n');
    lemma_join_no_cr(lt);
    lemma_trim_nl_end(join(l, seq!['\n']));
    k
}

// ---------------------------------------------------------------------------
// A sorted body sorts to itself
// ---------------------------------------------------------------------------

/// A section piece: no carriage return, no final newline, a heading first
/// line and no other heading line.
pub open spec fn piece_ok(q: Seq<char>) -> bool {
    &&& !q.contains('\r')
    &&& (q.len() == 0 || q.last() != '\n')
    &&& good_block(split_char(q, '\n'))
}

/// The piece before the first heading: no carriage return, no final
/// newline, and no heading line.
pub open spec fn pre_ok(p: Seq<char>) -> bool {
    &&& !p.contains('\r')
    &&& (p.len() == 0 || p.last() != '\n')
    &&& forall|i: int|
        0 <= i < split_char(p, '\n').len() ==> !is_heading(#[trigger] split_char(p, '\n')[i])
}

/// The lines that an optional leading piece gives: its lines and a blank.
pub open spec fn lead_lines(pre: Seq<Seq<char>>) -> Seq<Seq<char>> {
    if pre.len() == 1 {
        split_char(pre[0], '\n') + seq![Seq::<char>::empty()]
    } else {
        Seq::<Seq<char>>::empty()
    }
}

proof fn lemma_resort_lines(pre: Seq<Seq<char>>, q: Seq<Seq<char>>)
    requires
        pre.len() <= 1,
        pre.len() == 1 ==> pre_ok(pre[0]),
        q.len() > 0,
        forall|j: int| 0 <= j < q.len() ==> piece_ok(#[trigger] q[j]),
    ensures
        lines(join(pre + q, seq!['\n', '\n']) + seq!['\n']) == lead_lines(pre) + flat(blocks_of(q)),
{
    let ps = pre + q;
    assert forall|i: int| 0 <= i < ps.len() implies !(#[trigger] ps[i]).contains('\r') by {
        if i < pre.len() {
            assert(ps[i] == pre[i]);
        } else {
            assert(ps[i] == q[i - pre.len()]);
            assert(piece_ok(q[i - pre.len()]));
        }
    }
    lemma_lines_of_pieces(ps);
    lemma_piece_lines_blocks(q);
    if pre.len() == 1 {
        assert(ps =~= seq![pre[0]] + q);
        lemma_piece_lines_cons(pre[0], q);
    } else {
        assert(ps =~= q);
    }
}

proof fn lemma_resort_blocks(pre: Seq<Seq<char>>, q: Seq<Seq<char>>)
    requires
        pre.len() <= 1,
        pre.len() == 1 ==> pre_ok(pre[0]),
        forall|j: int| 0 <= j < q.len() ==> piece_ok(#[trigger] q[j]),
    ensures
        forall|i: int| 0 <= i < lead_lines(pre).len() ==> !is_heading(#[trigger] lead_lines(pre)[i]),
        forall|j: int| 0 <= j < blocks_of(q).len() ==> good_block(#[trigger] blocks_of(q)[j]),
{
    let e = Seq::<char>::empty();
    assert(!is_heading(e));
    let a = lead_lines(pre);
    assert forall|i: int| 0 <= i < a.len() implies !is_heading(#[trigger] a[i]) by {
        if pre.len() == 1 {
            let sp = split_char(pre[0], '\n');
            if i < sp.len() {
                assert(a[i] == sp[i]);
            } else {
                assert(a[i] == e);
            }
        }
    }
    let bq = blocks_of(q);
    assert forall|j: int| 0 <= j < bq.len() implies good_block(#[trigger] bq[j]) by {
        let sq = split_char(q[j], '\n');
        assert(piece_ok(q[j]));
        if j < q.len() - 1 {
            let b = sq + seq![e];
            assert(bq[j] == b);
            assert(b[0] == sq[0]);
            assert forall|i: int| 1 <= i < b.len() implies !is_heading(#[trigger] b[i]) by {
                if i < sq.len() {
                    assert(b[i] == sq[i]);
                } else {
                    assert(b[i] == e);
                }
            }
        } else {
            assert(bq[j] == sq);
        }
    }
}

proof fn lemma_block_text(q: Seq<Seq<char>>, j: int)
    requires
        0 <= j < q.len(),
        piece_ok(q[j]),
    ensures
        block_section(blocks_of(q)[j]).0 == key_of_piece(q[j]),
        trim_end_matches(block_section(blocks_of(q)[j]).1, seq!['\n']) == q[j],
{
    let nl = seq!['\n'];
    let e = Seq::<char>::empty();
    let sq = split_char(q[j], '\n');
    let bq = blocks_of(q);
    crate::text::lemma_split_char_len(q[j], '\n');
    lemma_join_split(q[j], '\n');
    if j < q.len() - 1 {
        assert(bq[j] == sq.push(e));
        lemma_join_push(sq, e, nl);
        assert(join(bq[j], nl) =~= q[j].push('\n'));
        lemma_trim_nl_push(q[j]);
        lemma_trim_nl_id(q[j]);
        assert(bq[j][0] == sq[0]);
    } else {
        assert(bq[j] == sq);
        lemma_trim_nl_id(q[j]);
    }
}

/// What the sort gives, from the parts that it computes.
proof fn lemma_sort_value(body: Seq<char>, pre: Seq<Seq<char>>, q: Seq<Seq<char>>)
    requires
        heading_starts(lines(body)).len() > 0,
        pre == (if heading_starts(lines(body))[0] > 0 {
            seq![
                trim_end_matches(
                    join(lines(body).take(heading_starts(lines(body))[0]), seq!['\n']),
                    seq!['\n'],
                ),
            ]
        } else {
            Seq::<Seq<char>>::empty()
        }),
        by_descending_rank(spec_sections(lines(body))) == q,
    ensures
        spec_sort_sections(body) == join(pre + q, seq!['\n', '\n']) + seq!['\n'],
{
}

/// The leading piece read again from the lines that it gives.
proof fn lemma_lead_back(pre: Seq<Seq<char>>, rest: Seq<Seq<char>>)
    requires
        pre.len() <= 1,
        pre.len() == 1 ==> pre_ok(pre[0]),
    ensures
        (lead_lines(pre) + rest).take(lead_lines(pre).len() as int) == lead_lines(pre),
        pre.len() == 1 ==> lead_lines(pre).len() > 0 && seq![
            trim_end_matches(join(lead_lines(pre), seq!['\n']), seq!['\n']),
        ] == pre,
        pre.len() == 0 ==> lead_lines(pre).len() == 0,
{
    let nl = seq!['\n'];
    let e = Seq::<char>::empty();
    let a = lead_lines(pre);
    assert((a + rest).take(a.len() as int) =~= a);
    if pre.len() == 1 {
        let p0 = pre[0];
        let sp = split_char(p0, '\n');
        crate::text::lemma_split_char_len(p0, '\n');
        lemma_join_split(p0, '\n');
        lemma_join_push(sp, e, nl);
        assert(a == sp.push(e));
        assert(join(a, nl) =~= p0.push('\n'));
        lemma_trim_nl_push(p0);
        lemma_trim_nl_id(p0);
        assert(seq![trim_end_matches(join(a, nl), nl)] =~= pre);
    }
}

/// Sections read from a leading part and the blocks of pieces line up with
/// the pieces.
proof fn lemma_resort_aligned(a: Seq<Seq<char>>, q: Seq<Seq<char>>)
    requires
        q.len() > 0,
        forall|i: int| 0 <= i < a.len() ==> !is_heading(#[trigger] a[i]),
        forall|j: int| 0 <= j < blocks_of(q).len() ==> good_block(#[trigger] blocks_of(q)[j]),
        forall|j: int| 0 <= j < q.len() ==> piece_ok(#[trigger] q[j]),
    ensures
        aligned(spec_sections(a + flat(blocks_of(q))), q),
        heading_starts(a + flat(blocks_of(q))).len() == q.len(),
        heading_starts(a + flat(blocks_of(q)))[0] == a.len(),
{
    let bq = blocks_of(q);
    lemma_structure(a, bq);
    let secs2 = spec_sections(a + flat(bq));
    assert forall|j: int| 0 <= j < secs2.len() implies (#[trigger] secs2[j]).0 == key_of_piece(q[j])
        && trim_end_matches(secs2[j].1, seq!['\n']) == q[j] by {
        assert(secs2[j] == block_section(bq[j]));
        lemma_block_text(q, j);
    }
}

/// A body made of an optional leading piece and section pieces grouped by
/// descending rank, joined by blank lines and ended by a newline, sorts to
/// itself.
proof fn lemma_resort(pre: Seq<Seq<char>>, q: Seq<Seq<char>>)
    requires
        pre.len() <= 1,
        pre.len() == 1 ==> pre_ok(pre[0]),
        q.len() > 0,
        forall|j: int| 0 <= j < q.len() ==> piece_ok(#[trigger] q[j]),
        grouped(q) == q,
    ensures
        spec_sort_sections(join(pre + q, seq!['\n', '\n']) + seq!['\n']) == join(
            pre + q,
            seq!['\n', '\n'],
        ) + seq!['\n'],
{
    let nl = seq!['\n'];
    let r = join(pre + q, seq!['\n', '\n']) + nl;
    let a = lead_lines(pre);
    let bq = blocks_of(q);
    lemma_resort_lines(pre, q);
    lemma_resort_blocks(pre, q);
    let ls2 = lines(r);
    lemma_resort_aligned(a, q);
    lemma_aligned_by_rank(spec_sections(ls2), q);
    lemma_lead_back(pre, flat(bq));
    assert(ls2 == a + flat(bq));
    let st2 = heading_starts(ls2);
    assert(st2[0] == a.len());
    if pre.len() == 1 {
        assert(ls2.take(st2[0]) == a);
    } else {
        assert(pre =~= Seq::<Seq<char>>::empty());
    }
    lemma_sort_value(r, pre, q);
}

// ---------------------------------------------------------------------------
// The first sort makes such a body
// ---------------------------------------------------------------------------

/// The sections of `ls` as pieces: each section's lines joined, trailing
/// newlines trimmed.
pub open spec fn section_pieces(ls: Seq<Seq<char>>) -> Seq<Seq<char>> {
    let st = heading_starts(ls);
    Seq::new(
        st.len(),
        |j: int|
            trim_end_matches(join(ls.subrange(st[j], section_end(ls, st, j)), seq!['\n']), seq!['\n']),
    )
}

/// Each heading position holds a heading line.
proof fn lemma_starts_sound(ls: Seq<Seq<char>>, n: int)
    requires
        0 <= n <= ls.len(),
    ensures
        forall|p: int|
            0 <= p < heading_starts_upto(ls, n).len() ==> is_heading(
                ls[#[trigger] heading_starts_upto(ls, n)[p]],
            ),
    decreases n,
{
    if n > 0 {
        lemma_starts_sound(ls, n - 1);
        crate::document::lemma_heading_starts_props(ls, n - 1);
        let prev = heading_starts_upto(ls, n - 1);
        let cur = heading_starts_upto(ls, n);
        assert forall|p: int| 0 <= p < cur.len() implies is_heading(ls[#[trigger] cur[p]]) by {
            if p < prev.len() {
                assert(cur[p] == prev[p]);
            }
        }
    }
}

/// A line between a heading position and the end of its section is no
/// heading.
proof fn lemma_inside_section(ls: Seq<Seq<char>>, j: int, i: int)
    requires
        0 <= j < heading_starts(ls).len(),
        heading_starts(ls)[j] < i < section_end(ls, heading_starts(ls), j),
        i < ls.len(),
    ensures
        !is_heading(ls[i]),
{
    let st = heading_starts(ls);
    lemma_heading_starts_props_all(ls);
    lemma_starts_complete(ls, ls.len() as int);
    if is_heading(ls[i]) {
        assert(st.contains(i));
        let p = choose|p: int| 0 <= p < st.len() && st[p] == i;
        if p <= j {
            if p < j {
                assert(st[p] < st[j]);
            }
        } else if j + 1 < st.len() {
            if p > j + 1 {
                assert(st[j + 1] < st[p]);
            }
        }
    }
}

/// A line before the first heading position is no heading.
proof fn lemma_before_first(ls: Seq<Seq<char>>, i: int)
    requires
        heading_starts(ls).len() > 0,
        0 <= i < heading_starts(ls)[0],
    ensures
        !is_heading(ls[i]),
{
    let st = heading_starts(ls);
    lemma_heading_starts_props_all(ls);
    lemma_starts_complete(ls, ls.len() as int);
    if is_heading(ls[i]) {
        assert(st.contains(i));
        let p = choose|p: int| 0 <= p < st.len() && st[p] == i;
        if p > 0 {
            assert(st[0] < st[p]);
        }
    }
}

proof fn lemma_section_piece(ls: Seq<Seq<char>>, j: int)
    requires
        forall|i: int| 0 <= i < ls.len() ==> crate::commands::backfill_ranks::clean_line(#[trigger] ls[i]),
        0 <= j < heading_starts(ls).len(),
    ensures
        piece_ok(section_pieces(ls)[j]),
        key_of_piece(section_pieces(ls)[j]) == spec_sections(ls)[j].0,
        trim_end_matches(spec_sections(ls)[j].1, seq!['\n']) == section_pieces(ls)[j],
{
    let st = heading_starts(ls);
    lemma_heading_starts_props_all(ls);
    lemma_starts_sound(ls, ls.len() as int);
    let e = section_end(ls, st, j);
    assert(st[j] < e <= ls.len()) by {
        if j + 1 < st.len() {
            assert(st[j] < st[j + 1]);
        }
    }
    let l = ls.subrange(st[j], e);
    assert forall|i: int| 0 <= i < l.len() implies crate::commands::backfill_ranks::clean_line(
        #[trigger] l[i],
    ) by {
        assert(l[i] == ls[st[j] + i]);
    }
    let k = lemma_piece_from_lines(l);
    let t = section_pieces(ls)[j];
    let sp = split_char(t, '\n');
    assert(sp == l.take(k));
    assert(sp[0] == ls[st[j]]);
    assert(is_heading(ls[st[j]]));
    assert forall|i: int| 1 <= i < sp.len() implies !is_heading(#[trigger] sp[i]) by {
        assert(sp[i] == ls[st[j] + i]);
        lemma_inside_section(ls, j, st[j] + i);
    }
}

proof fn lemma_pre_piece(ls: Seq<Seq<char>>)
    requires
        forall|i: int| 0 <= i < ls.len() ==> crate::commands::backfill_ranks::clean_line(#[trigger] ls[i]),
        heading_starts(ls).len() > 0,
        heading_starts(ls)[0] > 0,
    ensures
        pre_ok(trim_end_matches(join(ls.take(heading_starts(ls)[0]), seq!['\n']), seq!['\n'])),
{
    let st = heading_starts(ls);
    lemma_heading_starts_props_all(ls);
    let l = ls.take(st[0]);
    assert forall|i: int| 0 <= i < l.len() implies crate::commands::backfill_ranks::clean_line(
        #[trigger] l[i],
    ) by {
        assert(l[i] == ls[i]);
    }
    let k = lemma_piece_from_lines(l);
    let p = trim_end_matches(join(l, seq!['\n']), seq!['\n']);
    let sp = split_char(p, '\n');
    assert forall|i: int| 0 <= i < sp.len() implies !is_heading(#[trigger] sp[i]) by {
        assert(sp[i] == ls[i]);
        lemma_before_first(ls, i);
    }
}

proof fn lemma_concat_contains<A>(a: Seq<A>, b: Seq<A>, x: A)
    requires
        (a + b).contains(x),
    ensures
        a.contains(x) || b.contains(x),
{
    let i = choose|i: int| 0 <= i < (a + b).len() && (a + b)[i] == x;
    if i < a.len() {
        assert(a[i] == x);
    } else {
        assert(b[i - a.len()] == x);
    }
}

/// The grouped pieces are pieces of `t`, and there is one at least when `t`
/// has one of key 0 to 5.
proof fn lemma_grouped_from(t: Seq<Seq<char>>)
    ensures
        forall|x: Seq<char>| grouped(t).contains(x) ==> t.contains(x),
        t.len() > 0 && 0 <= key_of_piece(t[0]) <= 5 ==> grouped(t).len() > 0,
{
    reveal(grouped);
    let g5 = t.filter(key_is(5));
    let g4 = t.filter(key_is(4));
    let g3 = t.filter(key_is(3));
    let g2 = t.filter(key_is(2));
    let g1 = t.filter(key_is(1));
    let g0 = t.filter(key_is(0));
    assert forall|x: Seq<char>| grouped(t).contains(x) implies t.contains(x) by {
        lemma_concat_contains(g5 + g4 + g3 + g2 + g1, g0, x);
        if !g0.contains(x) {
            lemma_concat_contains(g5 + g4 + g3 + g2, g1, x);
            if !g1.contains(x) {
                lemma_concat_contains(g5 + g4 + g3, g2, x);
                if !g2.contains(x) {
                    lemma_concat_contains(g5 + g4, g3, x);
                    if !g3.contains(x) {
                        lemma_concat_contains(g5, g4, x);
                        if g5.contains(x) {
                            t.lemma_filter_contains_rev(key_is(5), x);
                        } else {
                            t.lemma_filter_contains_rev(key_is(4), x);
                        }
                    } else {
                        t.lemma_filter_contains_rev(key_is(3), x);
                    }
                } else {
                    t.lemma_filter_contains_rev(key_is(2), x);
                }
            } else {
                t.lemma_filter_contains_rev(key_is(1), x);
            }
        } else {
            t.lemma_filter_contains_rev(key_is(0), x);
        }
    }
    if t.len() > 0 && 0 <= key_of_piece(t[0]) <= 5 {
        let k = key_of_piece(t[0]);
        t.lemma_filter_contains(key_is(k), 0);
        assert(t.filter(key_is(k)).len() > 0);
    }
}

/// The rank key of a line is from 0 to 5.
proof fn lemma_key_range(line: Seq<char>)
    ensures
        0 <= rank_key(spec_concern_rank(line)) <= 5,
{
    if heading_marker().is_prefix_of(line) {
        crate::document::lemma_rank_from_suffixes_range(
            crate::text::split_str(crate::text::trim(line.skip(4)), crate::document::meta_open()).drop_first(),
        );
    }
}

/// Sorting the concern sections of a body twice gives what sorting once
/// gives, for a body without carriage returns.
pub proof fn lemma_sort_twice(body: Seq<char>)
    requires
        !body.contains('\r'),
    ensures
        spec_sort_sections(spec_sort_sections(body)) == spec_sort_sections(body),
{
    let ls = lines(body);
    let st = heading_starts(ls);
    crate::commands::backfill_ranks::lemma_lines_clean(body);
    if st.len() > 0 {
        let t = section_pieces(ls);
        let secs = spec_sections(ls);
        assert forall|j: int| 0 <= j < secs.len() implies (#[trigger] secs[j]).0 == key_of_piece(t[j])
            && trim_end_matches(secs[j].1, seq!['\n']) == t[j] by {
            lemma_section_piece(ls, j);
        }
        lemma_aligned_by_rank(secs, t);
        let pre = if st[0] > 0 {
            seq![trim_end_matches(join(ls.take(st[0]), seq!['\n']), seq!['\n'])]
        } else {
            Seq::<Seq<char>>::empty()
        };
        if st[0] > 0 {
            lemma_pre_piece(ls);
        }
        let q = grouped(t);
        lemma_sort_value(body, pre, q);
        lemma_grouped_twice(t);
        lemma_grouped_from(t);
        lemma_section_piece(ls, 0);
        lemma_key_range(split_char(t[0], '\n')[0]);
        assert forall|j: int| 0 <= j < q.len() implies piece_ok(#[trigger] q[j]) by {
            assert(q.contains(q[j]));
            assert(t.contains(q[j]));
            let i = choose|i: int| 0 <= i < t.len() && t[i] == q[j];
            lemma_section_piece(ls, i);
        }
        lemma_resort(pre, q);
    }
}

// ---------------------------------------------------------------------------
// Extracting the section of a concern
// ---------------------------------------------------------------------------

proof fn lemma_tail_all(rest: Seq<Seq<char>>, c: Seq<char>)
    requires
        forall|i: int|
            0 <= i < rest.len() ==> (is_heading(#[trigger] rest[i]) ==> spec_concern_heading(rest[i])
                == Some(c)),
    ensures
        section_tail(rest, c) == rest,
    decreases rest.len(),
{
    if rest.len() > 0 {
        let d = rest.drop_first();
        assert forall|i: int| 0 <= i < d.len() implies (is_heading(#[trigger] d[i])
            ==> spec_concern_heading(d[i]) == Some(c)) by {
            assert(d[i] == rest[i + 1]);
        }
        lemma_tail_all(d, c);
        assert(seq![rest[0]] + d =~= rest);
    }
}

/// The lines of a text without carriage returns joined by newlines give the
/// text back, without its final newline if it has one.
pub proof fn lemma_join_lines(b: Seq<char>)
    requires
        !b.contains('\r'),
    ensures
        join(lines(b), seq!['\n']) == b || join(lines(b), seq!['\n']).push('\n') == b,
{
    if b.len() > 0 {
        let segs = split_char(b, '\n');
        lemma_join_split(b, '\n');
        crate::text::lemma_split_char_pieces(b, '\n', '\r');
        crate::text::lemma_split_char_len(b, '\n');
        assert forall|k: int| 0 <= k < segs.len() implies strip_cr(#[trigger] segs[k]) == segs[k] by {
            if segs[k].len() > 0 {
                assert(segs[k][segs[k].len() - 1] == segs[k].last());
            }
        }
        if b.last() == '\n' {
            crate::text::lemma_split_char_len(b.drop_last(), '\n');
            assert(segs == split_char(b.drop_last(), '\n').push(Seq::<char>::empty()));
            assert(lines(b) =~= segs.drop_last());
            assert(segs =~= segs.drop_last().push(Seq::<char>::empty()));
            lemma_join_push(segs.drop_last(), Seq::<char>::empty(), seq!['\n']);
            assert(join(segs, seq!['\n']) =~= join(lines(b), seq!['\n']).push('\n'));
        } else {
            assert(lines(b) =~= segs);
        }
    } else {
        assert(lines(b) == Seq::<Seq<char>>::empty());
        assert(b =~= Seq::<char>::empty());
    }
}

/// Joined lines start with the first line.
proof fn lemma_join_first(ls: Seq<Seq<char>>, sep: Seq<char>)
    requires
        ls.len() > 0,
    ensures
        ls[0].is_prefix_of(join(ls, sep)),
    decreases ls.len(),
{
    if ls.len() > 1 {
        lemma_join_first(ls.drop_last(), sep);
        assert(ls.drop_last()[0] == ls[0]);
        let j = join(ls.drop_last(), sep);
        assert forall|k: int| 0 <= k < ls[0].len() implies ls[0][k] == join(ls, sep)[k] by {
            assert(join(ls, sep) == j + sep + ls.last());
            assert(j[k] == ls[0][k]);
        }
    }
}

/// A body that opens with a heading of concern `c` and whose every heading
/// names `c` is one section of `c`, however many headings of `c` it holds:
/// extracting the section of `c` gives the whole body, trimmed, with a final
/// newline. So a note appended under `c` stays in what is extracted of `c`.
pub proof fn lemma_extract_whole(body: Seq<char>, c: Seq<char>)
    requires
        !body.contains('\r'),
        lines(body).len() > 0,
        spec_concern_heading(lines(body)[0]) == Some(c),
        forall|i: int|
            0 <= i < lines(body).len() ==> (is_heading(#[trigger] lines(body)[i])
                ==> spec_concern_heading(lines(body)[i]) == Some(c)),
    ensures
        spec_extract_section(body, c) == Some(crate::text::trim(body) + seq!['\n']),
{
    let ls = lines(body);
    assert(find_heading(ls, c) == Some(0int));
    let rest = ls.skip(1);
    assert forall|i: int| 0 <= i < rest.len() implies (is_heading(#[trigger] rest[i])
        ==> spec_concern_heading(rest[i]) == Some(c)) by {
        assert(rest[i] == ls[i + 1]);
    }
    lemma_tail_all(rest, c);
    assert(seq![ls[0]] + rest =~= ls);
    let x = join(ls, seq!['\n']);
    lemma_join_lines(body);
    lemma_join_first(ls, seq!['\n']);
    assert(heading_marker().is_prefix_of(ls[0]));
    assert(ls[0][0] == '#');
    assert(x[0] == '#');
    assert(!crate::text::is_ws('#'));
    assert(crate::text::trim_start(x) == x);
    if x.push('\n') == body {
        let y = x.push('\n');
        assert(y[0] == '#');
        assert(crate::text::trim_start(y) == y);
        assert(crate::text::is_ws('\n'));
        assert(y.drop_last() =~= x);
        assert(crate::text::trim_end(y) == crate::text::trim_end(x));
    }
}

} // verus!
