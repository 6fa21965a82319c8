//! Rank metadata for older documents: `### concern` headings gain `[rN]`,
//! from a legacy `Rank: N` line when one follows, else from a default.
use vstd::prelude::*;
use crate::document::{heading_marker, heading_marker_chars};
use crate::text::{
    chars_eq, decimal, decimal_chars, from_chars, is_ws, is_ws_char, join, join_chars, lines,
    parse_u8, parse_u8_chars, push_all, push_line, slice, split_lines, starts_with, to_chars,
    trim, trim_chars,
};

verus! {

broadcast use crate::views::lemma_char_vec_deep_view;

/// `Rank: ` as characters.
pub open spec fn rank_label() -> Seq<char> {
    seq!['R', 'a', 'n', 'k', ':', ' ']
}

/// The rank of a legacy `Rank: N` line (trimmed), when N is from 1 to 5.
pub open spec fn spec_legacy_rank(line: Seq<char>) -> Option<u8> {
    let t = trim(line);
    if rank_label().is_prefix_of(t) {
        match parse_u8(t.skip(6)) {
            Some(r) => if 1 <= r <= 5 {
                Some(r)
            } else {
                None
            },
            None => None,
        }
    } else {
        None
    }
}

fn legacy_rank_chars(line: &Vec<char>) -> (r: Option<u8>)
    ensures
        r == spec_legacy_rank(line@),
{
    let t = trim_chars(line);
    let label = vec!['R', 'a', 'n', 'k', ':', ' '];
    assert(label@ =~= rank_label());
    if !starts_with(&t, &label) {
        return None;
    }
    let v = slice(&t, 6, t.len());
    assert(v@ =~= t@.skip(6));
    match parse_u8_chars(&v) {
        Some(r) => if 1 <= r && r <= 5 {
            Some(r)
        } else {
            None
        },
        None => None,
    }
}

/// The rank on a legacy `Rank: N` line.
pub fn parse_legacy_rank_line(line: &str) -> (r: Option<u8>)
    ensures
        r == spec_legacy_rank(line@),
{
    let l = to_chars(line);
    legacy_rank_chars(&l)
}

/// The pieces of `s` between whitespace characters (some of them empty).
pub open spec fn ws_split(s: Seq<char>) -> Seq<Seq<char>>
    decreases s.len(),
{
    if s.len() == 0 {
        seq![Seq::<char>::empty()]
    } else {
        let prev = ws_split(s.drop_last());
        if is_ws(s.last()) {
            prev.push(Seq::<char>::empty())
        } else {
            prev.update(prev.len() - 1, prev.last().push(s.last()))
        }
    }
}

proof fn lemma_ws_split_len(s: Seq<char>)
    ensures
        ws_split(s).len() >= 1,
    decreases s.len(),
{
    if s.len() > 0 {
        lemma_ws_split_len(s.drop_last());
    }
}

/// A `[rN]` token whose N parses as a `u8`.
pub open spec fn rank_token(t: Seq<char>) -> bool {
    &&& t.len() >= 3
    &&& t[0] == '['
    &&& t[1] == 'r'
    &&& t.last() == ']'
    &&& parse_u8(t.subrange(2, t.len() - 1)) is Some
}

/// Some whitespace-separated word of `line` is a `[rN]` token.
pub open spec fn spec_heading_has_rank(line: Seq<char>) -> bool {
    exists|k: int| 0 <= k < ws_split(line).len() && rank_token(#[trigger] ws_split(line)[k])
}

fn rank_token_chars(t: &Vec<char>) -> (r: bool)
    ensures
        r == rank_token(t@),
{
    let n = t.len();
    if n < 3 || t[0] != '[' || t[1] != 'r' || t[n - 1] != ']' {
        return false;
    }
    let v = slice(t, 2, n - 1);
    parse_u8_chars(&v).is_some()
}

fn heading_has_rank_chars(line: &Vec<char>) -> (r: bool)
    ensures
        r == spec_heading_has_rank(line@),
{
    let ghost mut done: Seq<Seq<char>> = Seq::empty();
    let mut cur: Vec<char> = Vec::new();
    let mut i: usize = 0;
    while i < line.len()
        invariant
            i <= line.len(),
            ws_split(line@.take(i as int)) == done.push(cur@),
            forall|k: int| 0 <= k < done.len() ==> !rank_token(#[trigger] done[k]),
        decreases line.len() - i,
    {
        assert(line@.take(i + 1).drop_last() =~= line@.take(i as int));
        let c = line[i];
        if is_ws_char(c) {
            if rank_token_chars(&cur) {
                proof {
                    assert(line@.take(i as int) =~= line@.take(i as int));
                    lemma_ws_split_grow(line@, i as int, done.len() as int);
                    assert(ws_split(line@)[done.len() as int] == cur@);
                }
                return true;
            }
            proof {
                done = done.push(cur@);
            }
            cur = Vec::new();
            assert(ws_split(line@.take(i + 1)) =~= done.push(cur@));
        } else {
            cur.push(c);
            assert(ws_split(line@.take(i + 1)) =~= done.push(cur@));
        }
        i += 1;
    }
    assert(line@.take(line.len() as int) =~= line@);
    let r = rank_token_chars(&cur);
    assert(ws_split(line@) == done.push(cur@));
    proof {
        if !r {
            assert forall|k: int| 0 <= k < ws_split(line@).len() implies !rank_token(
                #[trigger] ws_split(line@)[k],
            ) by {
                if k < done.len() {
                    assert(ws_split(line@)[k] == done[k]);
                }
            }
        } else {
            assert(ws_split(line@)[done.len() as int] == cur@);
        }
    }
    r
}

/// Once a piece is closed by whitespace it stays in every longer split.
proof fn lemma_ws_split_grow(s: Seq<char>, i: int, k: int)
    requires
        0 <= i < s.len(),
        is_ws(s[i]),
        0 <= k < ws_split(s.take(i)).len(),
    ensures
        k < ws_split(s).len(),
        ws_split(s)[k] == ws_split(s.take(i))[k],
    decreases s.len() - i,
{
    lemma_ws_split_prefix(s, i + 1, k);
    assert(s.take(i + 1).drop_last() =~= s.take(i));
}

proof fn lemma_ws_split_prefix(s: Seq<char>, n: int, k: int)
    requires
        1 <= n <= s.len(),
        is_ws(s[n - 1]),
        0 <= k < ws_split(s.take(n - 1)).len(),
    ensures
        k < ws_split(s).len(),
        ws_split(s)[k] == ws_split(s.take(n - 1))[k],
    decreases s.len() - n,
{
    assert(s.take(n).drop_last() =~= s.take(n - 1));
    if n == s.len() {
        assert(s.take(n) =~= s);
    } else {
        lemma_ws_split_later(s, n, k);
    }
}

proof fn lemma_ws_split_later(s: Seq<char>, n: int, k: int)
    requires
        1 <= n <= s.len(),
        is_ws(s[n - 1]),
        0 <= k < ws_split(s.take(n - 1)).len(),
    ensures
        k < ws_split(s).len(),
        ws_split(s)[k] == ws_split(s.take(n - 1))[k],
    decreases s.len() - n,
{
    assert(s.take(n).drop_last() =~= s.take(n - 1));
    if n == s.len() {
        assert(s.take(n) =~= s);
    } else {
        // grow one character at a time: earlier pieces never change
        lemma_ws_split_len(s.take(n));
        lemma_ws_split_stable(s, n, k);
    }
}

proof fn lemma_ws_split_stable(s: Seq<char>, n: int, k: int)
    requires
        1 <= n <= s.len(),
        0 <= k < ws_split(s.take(n)).len() - 1,
    ensures
        k < ws_split(s).len(),
        ws_split(s)[k] == ws_split(s.take(n))[k],
    decreases s.len() - n,
{
    if n == s.len() {
        assert(s.take(n) =~= s);
    } else {
        assert(s.take(n + 1).drop_last() =~= s.take(n));
        lemma_ws_split_len(s.take(n));
        lemma_ws_split_stable(s, n + 1, k);
    }
}

/// Whether a heading line already carries a `[rN]` token.
pub fn heading_has_rank(line: &str) -> (r: bool)
    ensures
        r == spec_heading_has_rank(line@),
{
    let l = to_chars(line);
    heading_has_rank_chars(&l)
}

/// A line holding nothing but whitespace.
pub open spec fn is_blank(l: Seq<char>) -> bool {
    trim(l).len() == 0
}

/// Whether a legacy rank line follows a heading, directly or after a blank
/// line.
pub open spec fn spec_legacy_rank_follows(next: Option<Seq<char>>, second: Option<Seq<char>>) -> bool {
    match next {
        None => false,
        Some(n) => match second {
            Some(r) => if is_blank(n) {
                spec_legacy_rank(r) is Some
            } else {
                spec_legacy_rank(n) is Some
            },
            None => spec_legacy_rank(n) is Some,
        },
    }
}

/// The rank that a heading without one receives: from the legacy line that
/// follows it, else the default.
pub open spec fn spec_new_rank(next: Option<Seq<char>>, second: Option<Seq<char>>, d: u8) -> u8 {
    let found = match next {
        None => None,
        Some(n) => match second {
            Some(r) => if is_blank(n) {
                spec_legacy_rank(r)
            } else {
                spec_legacy_rank(n)
            },
            None => spec_legacy_rank(n),
        },
    };
    match found {
        Some(r) => r,
        None => d,
    }
}

/// A heading with its rank, and whether a legacy rank line was folded in.
pub open spec fn spec_rewrite_heading(
    line: Seq<char>,
    next: Option<Seq<char>>,
    second: Option<Seq<char>>,
    d: u8,
) -> (Seq<char>, bool) {
    if spec_heading_has_rank(line) {
        (line, false)
    } else {
        (
            line + seq![' ', '[', 'r'] + decimal(spec_new_rank(next, second, d) as nat) + seq![']'],
            spec_legacy_rank_follows(next, second),
        )
    }
}

pub fn legacy_rank_follows(next_line: Option<&str>, second_next_line: Option<&str>) -> (r: bool)
    ensures
        r == spec_legacy_rank_follows(
            match next_line {
                Some(s) => Some(s@),
                None => None,
            },
            match second_next_line {
                Some(s) => Some(s@),
                None => None,
            },
        ),
{
    match next_line {
        None => false,
        Some(n) => {
            let nc = to_chars(n);
            match second_next_line {
                Some(r) => {
                    let t = trim_chars(&nc);
                    if t.len() == 0 {
                        parse_legacy_rank_line(r).is_some()
                    } else {
                        legacy_rank_chars(&nc).is_some()
                    }
                },
                None => legacy_rank_chars(&nc).is_some(),
            }
        },
    }
}

fn rewrite_heading_chars(
    line: &Vec<char>,
    next: Option<&Vec<char>>,
    second: Option<&Vec<char>>,
    d: u8,
) -> (r: (Vec<char>, bool))
    ensures
        (r.0@, r.1) == spec_rewrite_heading(
            line@,
            match next {
                Some(s) => Some(s@),
                None => None,
            },
            match second {
                Some(s) => Some(s@),
                None => None,
            },
            d,
        ),
{
    if heading_has_rank_chars(line) {
        return (line.clone(), false);
    }
    let (found, follows) = match next {
        None => (None, false),
        Some(n) => match second {
            Some(r) => {
                let t = trim_chars(n);
                if t.len() == 0 {
                    let x = legacy_rank_chars(r);
                    (x, x.is_some())
                } else {
                    let x = legacy_rank_chars(n);
                    (x, x.is_some())
                }
            },
            None => {
                let x = legacy_rank_chars(n);
                (x, x.is_some())
            },
        },
    };
    let rank = match found {
        Some(x) => x,
        None => d,
    };
    let mut out = line.clone();
    let open = vec![' ', '[', 'r'];
    push_all(&mut out, &open);
    let digits = decimal_chars(rank as u64);
    push_all(&mut out, &digits);
    out.push(']');
    assert(out@ =~= line@ + seq![' ', '[', 'r'] + decimal(rank as nat) + seq![']']);
    (out, follows)
}

/// A heading line with its rank, from the legacy rank line that may follow
/// it or from `default_rank`; and whether that legacy line was used up.
pub fn rewrite_heading(
    line: &str,
    next_line: Option<&str>,
    second_next_line: Option<&str>,
    default_rank: u8,
) -> (r: (String, bool))
    ensures
        (r.0@, r.1) == spec_rewrite_heading(
            line@,
            match next_line {
                Some(s) => Some(s@),
                None => None,
            },
            match second_next_line {
                Some(s) => Some(s@),
                None => None,
            },
            default_rank,
        ),
{
    let l = to_chars(line);
    let n = match next_line {
        Some(s) => Some(to_chars(s)),
        None => None,
    };
    let s = match second_next_line {
        Some(x) => Some(to_chars(x)),
        None => None,
    };
    let (h, c) = rewrite_heading_chars(&l, n.as_ref(), s.as_ref(), default_rank);
    (from_chars(&h), c)
}

pub open spec fn line_at(ls: Seq<Seq<char>>, i: int) -> Option<Seq<char>> {
    if 0 <= i < ls.len() {
        Some(ls[i])
    } else {
        None
    }
}

/// The output lines for `ls[i..]`: headings get ranks; after a heading that
/// folded in a legacy rank line, the blank line before it, the rank line and
/// one blank line after it are replaced by a single blank line (or dropped
/// when no blank line follows).
pub open spec fn rewrite_lines(ls: Seq<Seq<char>>, i: int, d: u8) -> Seq<Seq<char>>
    decreases ls.len() - i,
{
    if i < 0 || i >= ls.len() {
        Seq::empty()
    } else if !heading_marker().is_prefix_of(ls[i]) {
        seq![ls[i]] + rewrite_lines(ls, i + 1, d)
    } else {
        let (h, consumed) = spec_rewrite_heading(ls[i], line_at(ls, i + 1), line_at(ls, i + 2), d);
        if consumed {
            let j1 = i + 1;
            let j2 = if j1 < ls.len() && is_blank(ls[j1]) {
                j1 + 1
            } else {
                j1
            };
            let j3 = if j2 < ls.len() && spec_legacy_rank(ls[j2]) is Some {
                j2 + 1
            } else {
                j2
            };
            if j3 < ls.len() && is_blank(ls[j3]) {
                seq![h, Seq::<char>::empty()] + rewrite_lines(ls, j3 + 1, d)
            } else {
                seq![h] + rewrite_lines(ls, j3, d)
            }
        } else {
            seq![h] + rewrite_lines(ls, i + 1, d)
        }
    }
}

/// `body` with every `### ` heading ranked; a final newline is kept.
pub open spec fn spec_rewrite_rank_headings(body: Seq<char>, d: u8) -> Seq<char> {
    let out = join(rewrite_lines(lines(body), 0, d), seq!['\n']);
    if body.len() > 0 && body.last() == '\n' {
        out.push('\n')
    } else {
        out
    }
}

/// Writes rank metadata into every concern heading of `body`.
pub fn rewrite_rank_headings(body: &str, default_rank: u8) -> (r: String)
    ensures
        r@ == spec_rewrite_rank_headings(body@, default_rank),
{
    let b = to_chars(body);
    let ls = split_lines(&b);
    let ghost lv = ls.deep_view();
    let marker = heading_marker_chars();
    let mut out: Vec<Vec<char>> = Vec::new();
    let mut i: usize = 0;
    while i < ls.len()
        invariant
            i <= ls.len(),
            lv == ls.deep_view(),
            marker@ == heading_marker(),
            out.deep_view() + rewrite_lines(lv, i as int, default_rank) == rewrite_lines(
                lv,
                0,
                default_rank,
            ),
        decreases ls.len() - i,
    {
        let n = ls.len();
        assert(lv[i as int] == ls@[i as int]@);
        let ghost before = out.deep_view();
        if !starts_with(&ls[i], &marker) {
            push_line(&mut out, ls[i].clone());
            assert(before + rewrite_lines(lv, i as int, default_rank) =~= out.deep_view()
                + rewrite_lines(lv, i + 1, default_rank));
            i += 1;
            continue ;
        }
        let next = if i + 1 < n {
            Some(&ls[i + 1])
        } else {
            None
        };
        let second = if n - i > 2 {
            Some(&ls[i + 2])
        } else {
            None
        };
        proof {
            if i + 1 < n {
                assert(lv[i + 1] == ls@[i + 1]@);
            }
            if i + 2 < n {
                assert(lv[i + 2] == ls@[i + 2]@);
            }
        }
        let (heading, consumed) = rewrite_heading_chars(&ls[i], next, second, default_rank);
        push_line(&mut out, heading);
        if consumed {
            let mut j = i + 1;
            if j < n {
                assert(lv[j as int] == ls@[j as int]@);
                let t = trim_chars(&ls[j]);
                if t.len() == 0 {
                    j += 1;
                }
            }
            if j < n {
                assert(lv[j as int] == ls@[j as int]@);
                if legacy_rank_chars(&ls[j]).is_some() {
                    j += 1;
                }
            }
            let mut blank = false;
            if j < n {
                assert(lv[j as int] == ls@[j as int]@);
                let t = trim_chars(&ls[j]);
                if t.len() == 0 {
                    blank = true;
                }
            }
            if blank {
                push_line(&mut out, Vec::new());
                assert(before + rewrite_lines(lv, i as int, default_rank) =~= out.deep_view()
                    + rewrite_lines(lv, j + 1, default_rank));
                i = j + 1;
            } else {
                assert(before + rewrite_lines(lv, i as int, default_rank) =~= out.deep_view()
                    + rewrite_lines(lv, j as int, default_rank));
                i = j;
            }
        } else {
            assert(before + rewrite_lines(lv, i as int, default_rank) =~= out.deep_view()
                + rewrite_lines(lv, i + 1, default_rank));
            i += 1;
        }
    }
    assert(out.deep_view() =~= rewrite_lines(lv, 0, default_rank));
    let nl = vec!['\n'];
    assert(nl@ =~= seq!['\n']);
    let mut text = join_chars(&out, &nl);
    if b.len() > 0 && b[b.len() - 1] == '\n' {
        text.push('\n');
    }
    from_chars(&text)
}

/// The new body of a document whose headings gain rank metadata, or `None`
/// when the rewrite leaves the body as it is (the document is not counted
/// as updated).
pub fn backfill_body(body: &str, default_rank: u8) -> (r: Option<String>)
    ensures
        r is None <==> spec_rewrite_rank_headings(body@, default_rank) == body@,
        r matches Some(b) ==> b@ == spec_rewrite_rank_headings(body@, default_rank),
{
    let rewritten = rewrite_rank_headings(body, default_rank);
    if crate::text::str_eq(rewritten.as_str(), body) {
        None
    } else {
        Some(rewritten)
    }
}

// ---------------------------------------------------------------------------
// Laws of the rewrite
// ---------------------------------------------------------------------------

/// The digits of a byte value spell that value.
proof fn lemma_decimal_value(n: nat)
    ensures
        crate::text::digits_value(decimal(n)) == n,
    decreases n,
{
    if n < 10 {
        let d = decimal(n);
        assert(d.drop_last() =~= Seq::<char>::empty());
        assert(crate::text::digits_value(Seq::<char>::empty()) == 0);
        if n == 0 {
        } else if n == 1 {
        } else if n == 2 {
        } else if n == 3 {
        } else if n == 4 {
        } else if n == 5 {
        } else if n == 6 {
        } else if n == 7 {
        } else if n == 8 {
        } else {
        }
        assert(crate::text::digits_value(d) == n);
    } else {
        lemma_decimal_value(n / 10);
        let d = decimal(n);
        assert(d.drop_last() =~= decimal(n / 10));
        let r = n % 10;
        assert(crate::text::digit_char(r) as nat - '0' as nat == r) by {
            if r == 0 {
            } else if r == 1 {
            } else if r == 2 {
            } else if r == 3 {
            } else if r == 4 {
            } else if r == 5 {
            } else if r == 6 {
            } else if r == 7 {
            } else if r == 8 {
            } else {
            }
        }
        assert(n / 10 * 10 + n % 10 == n);
    }
}

/// The decimal text of a byte parses back to it.
proof fn lemma_decimal_parse(n: u8)
    ensures
        parse_u8(decimal(n as nat)) == Some(n),
{
    crate::document::lemma_decimal_digits(n as nat);
    lemma_decimal_value(n as nat);
    let d = decimal(n as nat);
    assert(crate::text::is_digit(d[0]));
}

/// Splitting `a`, a space and a word without whitespace adds the word as the
/// last piece.
proof fn lemma_ws_split_word(a: Seq<char>, w: Seq<char>)
    requires
        forall|k: int| 0 <= k < w.len() ==> !is_ws(#[trigger] w[k]),
    ensures
        ws_split(a + seq![' '] + w) == ws_split(a).push(w),
    decreases w.len(),
{
    let s = a + seq![' '] + w;
    if w.len() == 0 {
        assert(s.drop_last() =~= a);
        assert(is_ws(' '));
        assert(w =~= Seq::<char>::empty());
    } else {
        let w0 = w.drop_last();
        assert forall|k: int| 0 <= k < w0.len() implies !is_ws(#[trigger] w0[k]) by {
            assert(w0[k] == w[k]);
        }
        lemma_ws_split_word(a, w0);
        assert(s.drop_last() =~= a + seq![' '] + w0);
        assert(s.last() == w[w.len() - 1]);
        assert(w0.push(w.last()) =~= w);
        assert(ws_split(s) =~= ws_split(a).push(w));
    }
}

/// A heading that the rewrite gives back carries a rank token.
pub proof fn lemma_rewritten_heading_ranked(line: Seq<char>, next: Option<Seq<char>>, second: Option<Seq<char>>, d: u8)
    ensures
        spec_heading_has_rank(spec_rewrite_heading(line, next, second, d).0),
        heading_marker().is_prefix_of(line) ==> heading_marker().is_prefix_of(
            spec_rewrite_heading(line, next, second, d).0,
        ),
{
    if !spec_heading_has_rank(line) {
        let r = spec_new_rank(next, second, d);
        let ds = decimal(r as nat);
        let w = seq!['[', 'r'] + ds + seq![']'];
        let out = line + seq![' ', '[', 'r'] + ds + seq![']'];
        assert(out =~= line + seq![' '] + w);
        crate::document::lemma_decimal_digits(r as nat);
        assert forall|k: int| 0 <= k < w.len() implies !is_ws(#[trigger] w[k]) by {
            if 2 <= k < w.len() - 1 {
                assert(w[k] == ds[k - 2]);
                assert(crate::text::is_digit(ds[k - 2]));
            }
        }
        lemma_ws_split_word(line, w);
        lemma_decimal_parse(r);
        assert(w.subrange(2, w.len() - 1) =~= ds);
        assert(rank_token(w));
        let split = ws_split(out);
        assert(split.last() == w);
        assert(rank_token(split[split.len() - 1]));
        if heading_marker().is_prefix_of(line) {
            assert forall|k: int| 0 <= k < 4 implies heading_marker()[k] == out[k] by {
                assert(out[k] == line[k]);
            }
        }
    }
}

/// Every `### ` line from position `i` on of what the rewrite gives carries
/// a rank token.
proof fn lemma_rewrite_lines_ranked_from(ls: Seq<Seq<char>>, i: int, d: u8)
    ensures
        forall|k: int|
            0 <= k < rewrite_lines(ls, i, d).len() && heading_marker().is_prefix_of(
                #[trigger] rewrite_lines(ls, i, d)[k],
            ) ==> spec_heading_has_rank(rewrite_lines(ls, i, d)[k]),
    decreases ls.len() - i,
{
    if i < 0 || i >= ls.len() {
    } else if !heading_marker().is_prefix_of(ls[i]) {
        lemma_rewrite_lines_ranked_from(ls, i + 1, d);
        let rest = rewrite_lines(ls, i + 1, d);
        let out = rewrite_lines(ls, i, d);
        assert forall|k: int| 0 <= k < out.len() && heading_marker().is_prefix_of(
            #[trigger] out[k],
        ) implies spec_heading_has_rank(out[k]) by {
            if k > 0 {
                assert(out[k] == rest[k - 1]);
            }
        }
    } else {
        let (h, consumed) = spec_rewrite_heading(ls[i], line_at(ls, i + 1), line_at(ls, i + 2), d);
        lemma_rewritten_heading_ranked(ls[i], line_at(ls, i + 1), line_at(ls, i + 2), d);
        let out = rewrite_lines(ls, i, d);
        if consumed {
            let j1 = i + 1;
            let j2 = if j1 < ls.len() && is_blank(ls[j1]) {
                j1 + 1
            } else {
                j1
            };
            let j3 = if j2 < ls.len() && spec_legacy_rank(ls[j2]) is Some {
                j2 + 1
            } else {
                j2
            };
            if j3 < ls.len() && is_blank(ls[j3]) {
                lemma_rewrite_lines_ranked_from(ls, j3 + 1, d);
                let rest = rewrite_lines(ls, j3 + 1, d);
                assert forall|k: int| 0 <= k < out.len() && heading_marker().is_prefix_of(
                    #[trigger] out[k],
                ) implies spec_heading_has_rank(out[k]) by {
                    if k >= 2 {
                        assert(out[k] == rest[k - 2]);
                    } else if k == 1 {
                        assert(out[k] == Seq::<char>::empty());
                    }
                }
            } else {
                lemma_rewrite_lines_ranked_from(ls, j3, d);
                let rest = rewrite_lines(ls, j3, d);
                assert forall|k: int| 0 <= k < out.len() && heading_marker().is_prefix_of(
                    #[trigger] out[k],
                ) implies spec_heading_has_rank(out[k]) by {
                    if k >= 1 {
                        assert(out[k] == rest[k - 1]);
                    }
                }
            }
        } else {
            lemma_rewrite_lines_ranked_from(ls, i + 1, d);
            let rest = rewrite_lines(ls, i + 1, d);
            assert forall|k: int| 0 <= k < out.len() && heading_marker().is_prefix_of(
                #[trigger] out[k],
            ) implies spec_heading_has_rank(out[k]) by {
                if k >= 1 {
                    assert(out[k] == rest[k - 1]);
                }
            }
        }
    }
}

/// Lines whose every `### ` line already carries a rank token are left as
/// they are, from position `i` on.
proof fn lemma_rewrite_ranked_lines(ls: Seq<Seq<char>>, i: int, d: u8)
    requires
        0 <= i <= ls.len(),
        forall|k: int|
            0 <= k < ls.len() && heading_marker().is_prefix_of(#[trigger] ls[k])
                ==> spec_heading_has_rank(ls[k]),
    ensures
        rewrite_lines(ls, i, d) == ls.skip(i),
    decreases ls.len() - i,
{
    if i == ls.len() {
        assert(ls.skip(i) =~= Seq::<Seq<char>>::empty());
    } else {
        lemma_rewrite_ranked_lines(ls, i + 1, d);
        assert(ls.skip(i) =~= seq![ls[i]] + ls.skip(i + 1));
    }
}

/// Rewriting the lines gives `### ` lines that all carry a rank token, and
/// rewriting the result again changes nothing.
pub proof fn lemma_rewrite_lines_settled(ls: Seq<Seq<char>>, d: u8)
    ensures
        forall|k: int|
            0 <= k < rewrite_lines(ls, 0, d).len() && heading_marker().is_prefix_of(
                #[trigger] rewrite_lines(ls, 0, d)[k],
            ) ==> spec_heading_has_rank(rewrite_lines(ls, 0, d)[k]),
        rewrite_lines(rewrite_lines(ls, 0, d), 0, d) == rewrite_lines(ls, 0, d),
{
    lemma_rewrite_lines_ranked_from(ls, 0, d);
    let out = rewrite_lines(ls, 0, d);
    lemma_rewrite_ranked_lines(out, 0, d);
    assert(out.skip(0) =~= out);
}

/// A line with neither a newline nor a carriage return.
pub open spec fn clean_line(x: Seq<char>) -> bool {
    !x.contains('\n') && !x.contains('\r')
}

/// The lines of a text without carriage returns are clean.
pub proof fn lemma_lines_clean(body: Seq<char>)
    requires
        !body.contains('\r'),
    ensures
        forall|k: int| 0 <= k < lines(body).len() ==> clean_line(#[trigger] lines(body)[k]),
{
    if body.len() > 0 {
        let segs = crate::text::split_char(body, '\n');
        crate::text::lemma_split_char_pieces(body, '\n', '\r');
        crate::text::lemma_split_char_len(body, '\n');
        let ls = lines(body);
        assert forall|k: int| 0 <= k < ls.len() implies clean_line(#[trigger] ls[k]) by {
            let x = segs[k];
            assert(clean_line(x));
            if k < segs.len() - 1 {
                let y = crate::text::strip_cr(x);
                assert(ls[k] == y);
                if y.len() < x.len() {
                    assert(y =~= x.drop_last());
                    assert(!y.contains('\n')) by {
                        if y.contains('\n') {
                            let j = choose|j: int| 0 <= j < y.len() && y[j] == '\n';
                            assert(x[j] == '\n');
                        }
                    }
                    assert(!y.contains('\r')) by {
                        if y.contains('\r') {
                            let j = choose|j: int| 0 <= j < y.len() && y[j] == '\r';
                            assert(x[j] == '\r');
                        }
                    }
                }
            } else {
                assert(ls[k] == segs.last());
            }
        }
    }
}

/// A rewritten heading of a clean line is clean.
proof fn lemma_rewritten_heading_clean(line: Seq<char>, next: Option<Seq<char>>, second: Option<Seq<char>>, d: u8)
    requires
        clean_line(line),
    ensures
        clean_line(spec_rewrite_heading(line, next, second, d).0),
{
    if !spec_heading_has_rank(line) {
        let r = spec_new_rank(next, second, d);
        let ds = decimal(r as nat);
        crate::document::lemma_decimal_digits(r as nat);
        let out = line + seq![' ', '[', 'r'] + ds + seq![']'];
        assert forall|j: int| 0 <= j < out.len() implies out[j] != '\n' && out[j] != '\r' by {
            if j < line.len() {
                assert(out[j] == line[j]);
            } else if line.len() + 3 <= j < line.len() + 3 + ds.len() {
                assert(out[j] == ds[j - line.len() - 3]);
                assert(crate::text::is_digit(ds[j - line.len() - 3]));
            }
        }
    }
}

/// Rewriting clean lines gives clean lines, from position `i` on, and some
/// line whenever `i` is a position of `ls`.
proof fn lemma_rewrite_lines_clean(ls: Seq<Seq<char>>, i: int, d: u8)
    requires
        forall|k: int| 0 <= k < ls.len() ==> clean_line(#[trigger] ls[k]),
    ensures
        forall|k: int|
            0 <= k < rewrite_lines(ls, i, d).len() ==> clean_line(#[trigger] rewrite_lines(ls, i, d)[k]),
        0 <= i < ls.len() ==> rewrite_lines(ls, i, d).len() > 0,
    decreases ls.len() - i,
{
    if i < 0 || i >= ls.len() {
    } else if !heading_marker().is_prefix_of(ls[i]) {
        lemma_rewrite_lines_clean(ls, i + 1, d);
        let rest = rewrite_lines(ls, i + 1, d);
        let out = rewrite_lines(ls, i, d);
        assert forall|k: int| 0 <= k < out.len() implies clean_line(#[trigger] out[k]) by {
            if k > 0 {
                assert(out[k] == rest[k - 1]);
            }
        }
    } else {
        let (h, consumed) = spec_rewrite_heading(ls[i], line_at(ls, i + 1), line_at(ls, i + 2), d);
        lemma_rewritten_heading_clean(ls[i], line_at(ls, i + 1), line_at(ls, i + 2), d);
        let out = rewrite_lines(ls, i, d);
        if consumed {
            let j1 = i + 1;
            let j2 = if j1 < ls.len() && is_blank(ls[j1]) {
                j1 + 1
            } else {
                j1
            };
            let j3 = if j2 < ls.len() && spec_legacy_rank(ls[j2]) is Some {
                j2 + 1
            } else {
                j2
            };
            if j3 < ls.len() && is_blank(ls[j3]) {
                lemma_rewrite_lines_clean(ls, j3 + 1, d);
                let rest = rewrite_lines(ls, j3 + 1, d);
                assert forall|k: int| 0 <= k < out.len() implies clean_line(#[trigger] out[k]) by {
                    if k >= 2 {
                        assert(out[k] == rest[k - 2]);
                    } else if k == 1 {
                        assert(out[k] == Seq::<char>::empty());
                    }
                }
            } else {
                lemma_rewrite_lines_clean(ls, j3, d);
                let rest = rewrite_lines(ls, j3, d);
                assert forall|k: int| 0 <= k < out.len() implies clean_line(#[trigger] out[k]) by {
                    if k >= 1 {
                        assert(out[k] == rest[k - 1]);
                    }
                }
            }
        } else {
            lemma_rewrite_lines_clean(ls, i + 1, d);
            let rest = rewrite_lines(ls, i + 1, d);
            assert forall|k: int| 0 <= k < out.len() implies clean_line(#[trigger] out[k]) by {
                if k >= 1 {
                    assert(out[k] == rest[k - 1]);
                }
            }
        }
    }
}

/// Rewriting a body whose headings are already ranked changes nothing:
/// once rewritten, a body without carriage returns stays as it is under a
/// second rewrite, and every `### ` line of it carries a rank token.
pub proof fn lemma_rewrite_twice(body: Seq<char>, d: u8)
    requires
        !body.contains('\r'),
    ensures
        spec_rewrite_rank_headings(spec_rewrite_rank_headings(body, d), d)
            == spec_rewrite_rank_headings(body, d),
        forall|k: int|
            0 <= k < lines(spec_rewrite_rank_headings(body, d)).len() && heading_marker().is_prefix_of(
                #[trigger] lines(spec_rewrite_rank_headings(body, d))[k],
            ) ==> spec_heading_has_rank(lines(spec_rewrite_rank_headings(body, d))[k]),
{
    let ls = lines(body);
    let out = rewrite_lines(ls, 0, d);
    let r = spec_rewrite_rank_headings(body, d);
    let nl = seq!['\n'];
    lemma_lines_clean(body);
    lemma_rewrite_lines_clean(ls, 0, d);
    lemma_rewrite_lines_settled(ls, d);
    if body.len() == 0 {
        assert(ls =~= Seq::<Seq<char>>::empty());
        assert(out =~= Seq::<Seq<char>>::empty());
        assert(r =~= Seq::<char>::empty());
        assert(lines(r) =~= Seq::<Seq<char>>::empty());
    } else {
        crate::text::lemma_split_char_len(body, '\n');
        crate::text::lemma_split_char_len(body.drop_last(), '\n');
        assert(ls.len() > 0);
        assert(out.len() > 0);
        assert forall|k: int| 0 <= k < out.len() implies !(#[trigger] out[k]).contains('\n') by {
            assert(clean_line(out[k]));
        }
        crate::text::lemma_split_join(out, '\n');
        let jo = join(out, nl);
        // The lines of the result are `out`, or `out` without a last empty line.
        let l2 = lines(r);
        assert(forall|k: int| 0 <= k < out.len() ==> crate::text::strip_cr(#[trigger] out[k]) == out[k]) by {
            assert forall|k: int| 0 <= k < out.len() implies crate::text::strip_cr(#[trigger] out[k]) == out[k] by {
                assert(clean_line(out[k]));
                if out[k].len() > 0 {
                    assert(out[k][out[k].len() - 1] == out[k].last());
                }
            }
        }
        if body.last() == '\n' {
            assert(r == jo.push('\n'));
            assert(jo.push('\n') =~= jo + seq!['\n'] + Seq::<char>::empty());
            crate::text::lemma_split_char_append(jo, Seq::<char>::empty(), '\n');
            let segs = crate::text::split_char(r, '\n');
            assert(segs == out.push(Seq::<char>::empty()));
            assert(segs.drop_last() =~= out);
            assert(r.last() == '\n');
            assert(l2 =~= out);
            lemma_rewrite_ranked_lines(out, 0, d);
            assert(out.skip(0) =~= out);
        } else {
            assert(r == jo);
            let segs = crate::text::split_char(r, '\n');
            assert(segs == out);
            if r.len() == 0 {
                assert(l2 =~= Seq::<Seq<char>>::empty());
                assert(rewrite_lines(l2, 0, d) =~= Seq::<Seq<char>>::empty());
            } else if r.last() == '\n' {
                assert(l2 =~= out.drop_last());
                assert forall|k: int| 0 <= k < l2.len() && heading_marker().is_prefix_of(
                    #[trigger] l2[k],
                ) implies spec_heading_has_rank(l2[k]) by {
                    assert(l2[k] == out[k]);
                }
                lemma_rewrite_ranked_lines(l2, 0, d);
                assert(l2.skip(0) =~= l2);
                // `out` ends in an empty line: joining the others and a newline is `r`.
                assert(out.last().len() == 0) by {
                    if out.last().len() > 0 {
                        if out.len() == 1 {
                            assert(jo == out[0]);
                        } else {
                            assert(jo == join(out.drop_last(), nl) + nl + out.last());
                        }
                        assert(jo.last() == out.last().last());
                        assert(out.last()[out.last().len() - 1] == out.last().last());
                        assert(clean_line(out[out.len() - 1]));
                    }
                }
                if out.len() == 1 {
                    assert(jo == out[0]);
                    assert(false);
                }
                assert(jo == join(out.drop_last(), nl) + nl + out.last());
                assert(jo =~= join(l2, nl).push('\n'));
            } else {
                assert(l2 =~= out);
                lemma_rewrite_ranked_lines(out, 0, d);
                assert(out.skip(0) =~= out);
            }
        }
    }
}

/// Rewriting the lines from position `i` depends on the lines before `k`
/// not at all: it is rewriting the lines from `k` on, from `i - k`.
proof fn lemma_rewrite_shift(ls: Seq<Seq<char>>, k: int, i: int, d: u8)
    requires
        0 <= k <= i,
        k <= ls.len(),
    ensures
        rewrite_lines(ls, i, d) == rewrite_lines(ls.skip(k), i - k, d),
    decreases ls.len() - i,
{
    let s = ls.skip(k);
    let i2 = i - k;
    if i >= ls.len() {
    } else {
        assert(s[i2] == ls[i]);
        assert(line_at(ls, i + 1) == line_at(s, i2 + 1));
        assert(line_at(ls, i + 2) == line_at(s, i2 + 2));
        if !heading_marker().is_prefix_of(ls[i]) {
            lemma_rewrite_shift(ls, k, i + 1, d);
        } else {
            let (h, consumed) = spec_rewrite_heading(ls[i], line_at(ls, i + 1), line_at(ls, i + 2), d);
            if consumed {
                let j1 = i + 1;
                let j2 = if j1 < ls.len() && is_blank(ls[j1]) {
                    j1 + 1
                } else {
                    j1
                };
                let j3 = if j2 < ls.len() && spec_legacy_rank(ls[j2]) is Some {
                    j2 + 1
                } else {
                    j2
                };
                assert(s.len() == ls.len() - k);
                if j1 < ls.len() {
                    assert(s[j1 - k] == ls[j1]);
                }
                let t1 = i2 + 1;
                let t2 = if t1 < s.len() && is_blank(s[t1]) {
                    t1 + 1
                } else {
                    t1
                };
                assert(t2 == j2 - k);
                if j2 < ls.len() {
                    assert(s[j2 - k] == ls[j2]);
                }
                let t3 = if t2 < s.len() && spec_legacy_rank(s[t2]) is Some {
                    t2 + 1
                } else {
                    t2
                };
                assert(t3 == j3 - k);
                if j3 < ls.len() {
                    assert(s[j3 - k] == ls[j3]);
                }
                if j3 < ls.len() && is_blank(ls[j3]) {
                    lemma_rewrite_shift(ls, k, j3 + 1, d);
                    assert(rewrite_lines(s, i2, d) == seq![h, Seq::<char>::empty()] + rewrite_lines(s, t3 + 1, d));
                } else {
                    lemma_rewrite_shift(ls, k, j3, d);
                    assert(rewrite_lines(s, i2, d) == seq![h] + rewrite_lines(s, t3, d));
                }
            } else {
                lemma_rewrite_shift(ls, k, i + 1, d);
            }
        }
    }
}

/// A legacy `Rank: N` line directly under an unranked heading is folded
/// into it: the heading gains `[rN]` and the rank line is gone, whatever
/// follows (a blank line after the rank line goes with it, keeping one
/// blank line).
pub proof fn lemma_legacy_rank_folded(h: Seq<char>, l: Seq<char>, rest: Seq<Seq<char>>, d: u8, n: u8)
    requires
        heading_marker().is_prefix_of(h),
        !spec_heading_has_rank(h),
        spec_legacy_rank(l) == Some(n),
    ensures
        rewrite_lines(seq![h, l] + rest, 0, d).len() > 0,
        rewrite_lines(seq![h, l] + rest, 0, d)[0] == h + seq![' ', '[', 'r'] + decimal(n as nat)
            + seq![']'],
        (rest.len() == 0 || !is_blank(rest[0])) ==> rewrite_lines(seq![h, l] + rest, 0, d) == seq![
            h + seq![' ', '[', 'r'] + decimal(n as nat) + seq![']'],
        ] + rewrite_lines(rest, 0, d),
        (rest.len() > 0 && is_blank(rest[0])) ==> rewrite_lines(seq![h, l] + rest, 0, d) == seq![
            h + seq![' ', '[', 'r'] + decimal(n as nat) + seq![']'],
            Seq::<char>::empty(),
        ] + rewrite_lines(rest.drop_first(), 0, d),
{
    let ls = seq![h, l] + rest;
    assert(ls[0] == h);
    assert(ls[1] == l);
    assert(!is_blank(l)) by {
        assert(rank_label().is_prefix_of(trim(l)));
    }
    assert(line_at(ls, 1) == Some(l));
    if rest.len() > 0 {
        assert(ls[2] == rest[0]);
        assert(line_at(ls, 2) == Some(rest[0]));
    } else {
        assert(line_at(ls, 2) is None);
    }
    let hr = h + seq![' ', '[', 'r'] + decimal(n as nat) + seq![']'];
    assert(spec_rewrite_heading(h, line_at(ls, 1), line_at(ls, 2), d) == (hr, true));
    lemma_rewrite_shift(ls, 2, 2, d);
    assert(ls.skip(2) =~= rest);
    if rest.len() > 0 {
        lemma_rewrite_shift(ls, 3, 3, d);
        assert(ls.skip(3) =~= rest.drop_first());
    }
}

/// A legacy `Rank: N` line after a blank line under an unranked heading is
/// folded into it as well: the heading gains `[rN]`, and the blank line and
/// the rank line are gone.
pub proof fn lemma_legacy_rank_after_blank(
    h: Seq<char>,
    blank: Seq<char>,
    l: Seq<char>,
    rest: Seq<Seq<char>>,
    d: u8,
    n: u8,
)
    requires
        heading_marker().is_prefix_of(h),
        !spec_heading_has_rank(h),
        is_blank(blank),
        spec_legacy_rank(l) == Some(n),
    ensures
        (rest.len() == 0 || !is_blank(rest[0])) ==> rewrite_lines(seq![h, blank, l] + rest, 0, d)
            == seq![h + seq![' ', '[', 'r'] + decimal(n as nat) + seq![']']] + rewrite_lines(
            rest,
            0,
            d,
        ),
        (rest.len() > 0 && is_blank(rest[0])) ==> rewrite_lines(seq![h, blank, l] + rest, 0, d)
            == seq![h + seq![' ', '[', 'r'] + decimal(n as nat) + seq![']'], Seq::<char>::empty()]
            + rewrite_lines(rest.drop_first(), 0, d),
{
    let ls = seq![h, blank, l] + rest;
    assert(ls[0] == h);
    assert(ls[1] == blank);
    assert(ls[2] == l);
    assert(line_at(ls, 1) == Some(blank));
    assert(line_at(ls, 2) == Some(l));
    let hr = h + seq![' ', '[', 'r'] + decimal(n as nat) + seq![']'];
    assert(spec_rewrite_heading(h, line_at(ls, 1), line_at(ls, 2), d) == (hr, true));
    lemma_rewrite_shift(ls, 3, 3, d);
    assert(ls.skip(3) =~= rest);
    if rest.len() > 0 {
        assert(ls[3] == rest[0]);
        lemma_rewrite_shift(ls, 4, 4, d);
        assert(ls.skip(4) =~= rest.drop_first());
    }
}

/// A heading that already carries a rank token is left as it is, and so
/// are the lines right after it.
pub proof fn lemma_ranked_heading_kept(h: Seq<char>, rest: Seq<Seq<char>>, d: u8)
    requires
        spec_heading_has_rank(h),
    ensures
        rewrite_lines(seq![h] + rest, 0, d) == seq![h] + rewrite_lines(rest, 0, d),
{
    let ls = seq![h] + rest;
    assert(ls[0] == h);
    lemma_rewrite_shift(ls, 1, 1, d);
    assert(ls.skip(1) =~= rest);
}

} // verus!
