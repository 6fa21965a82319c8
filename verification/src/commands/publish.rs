//! Publishing concerns as Org files: the Markdown of a concern section is
//! rewritten as Org prose under a small header.
use vstd::prelude::*;
use crate::document::{extract_concern_section, spec_extract_section};
use crate::paths::{file_name_chars, file_stem};
use crate::registry::{doc_keys, roster_keys, Registry};
use crate::sort::strictly_sorted;
use crate::text::{
    find, find_chars, from_chars, join, join_chars, lemma_find, lemma_rfind, lines, occurs_at, push_all, rfind_chars,
    push_str, rfind, slice, split_lines, starts_with, to_chars, trim, trim_chars, trim_start,
    trim_start_chars, trim_start_matches, trim_start_matches_chars,
};

verus! {

broadcast use crate::views::lemma_char_vec_deep_view;

// ---------------------------------------------------------------------------
// Inline conversions
// ---------------------------------------------------------------------------

/// Every pair of `pat` delimiters around a span becomes a pair of `rep`; an
/// opening `pat` without a closing one leaves the rest as it is.
pub open spec fn pair_replace(s: Seq<char>, pat: Seq<char>, rep: Seq<char>) -> Seq<char>
    decreases s.len(),
{
    if pat.len() == 0 {
        s
    } else {
        match find(s, pat) {
            None => s,
            Some(p) => {
                proof {
                    lemma_find(s, pat);
                }
                let rest = s.skip(p + pat.len());
                match find(rest, pat) {
                    None => s,
                    Some(e) => {
                        proof {
                            lemma_find(rest, pat);
                        }
                        s.take(p) + rep + rest.take(e) + rep + pair_replace(
                            rest.skip(e + pat.len()),
                            pat,
                            rep,
                        )
                    },
                }
            },
        }
    }
}

/// One step of `pair_replace`: the output for a prefix of `rest` and the
/// length of that prefix.
fn pair_step(rest: &Vec<char>, pat: &Vec<char>, rep: &Vec<char>) -> (r: (Vec<char>, usize))
    requires
        pat.len() > 0,
        rest.len() > 0,
    ensures
        0 < r.1 <= rest.len(),
        pair_replace(rest@, pat@, rep@) == r.0@ + pair_replace(rest@.skip(r.1 as int), pat@, rep@),
{
    proof {
        lemma_find(rest@, pat@);
    }
    assert(rest@.skip(rest.len() as int) =~= Seq::<char>::empty());
    let p = match find_chars(rest, pat) {
        None => {
            return (rest.clone(), rest.len());
        },
        Some(p) => p,
    };
    let after = slice(rest, p + pat.len(), rest.len());
    assert(after@ =~= rest@.skip(p + pat.len()));
    proof {
        lemma_find(after@, pat@);
    }
    match find_chars(&after, pat) {
        None => (rest.clone(), rest.len()),
        Some(e) => {
            let mut out = slice(rest, 0, p);
            let inner = slice(&after, 0, e);
            push_all(&mut out, rep);
            push_all(&mut out, &inner);
            push_all(&mut out, rep);
            let k = p + pat.len() + e + pat.len();
            assert(after@.skip(e + pat.len()) =~= rest@.skip(k as int));
            assert(out@ =~= rest@.take(p as int) + rep@ + after@.take(e as int) + rep@);
            (out, k)
        },
    }
}

/// `pair_replace(s@, pat@, rep@)` computed.
fn pair_replace_chars(s: &Vec<char>, pat: &Vec<char>, rep: &Vec<char>) -> (r: Vec<char>)
    requires
        pat.len() > 0,
    ensures
        r@ == pair_replace(s@, pat@, rep@),
{
    let mut out: Vec<char> = Vec::new();
    let mut pos: usize = 0;
    assert(s@.skip(0) =~= s@);
    while pos < s.len()
        invariant
            pos <= s.len(),
            pat.len() > 0,
            out@ + pair_replace(s@.skip(pos as int), pat@, rep@) == pair_replace(s@, pat@, rep@),
        decreases s.len() - pos,
    {
        let rest = slice(s, pos, s.len());
        assert(rest@ =~= s@.skip(pos as int));
        let (chunk, k) = pair_step(&rest, pat, rep);
        let ghost before = out@;
        push_all(&mut out, &chunk);
        assert(rest@.skip(k as int) =~= s@.skip(pos + k));
        assert(before + pair_replace(rest@, pat@, rep@) == out@ + pair_replace(
            s@.skip(pos + k),
            pat@,
            rep@,
        ));
        pos = pos + k;
    }
    assert(s@.skip(pos as int) =~= Seq::<char>::empty());
    assert(pair_replace(Seq::<char>::empty(), pat@, rep@) =~= Seq::<char>::empty());
    out
}

/// `[text](url)` becomes `[[url][text]]`, the text starting at the `[` that
/// directly opens the `](`; any other bracket stays.
pub open spec fn links(s: Seq<char>) -> Seq<char>
    decreases s.len(),
{
    match find(s, seq![']', '(']) {
        None => s,
        Some(c) => {
            proof {
                lemma_find(s, seq![']', '(']);
            }
            let after = s.skip(c + 2);
            match find(after, seq![')']) {
                None => s,
                Some(p) => {
                    proof {
                        lemma_find(after, seq![')']);
                        lemma_rfind(s.take(c), seq!['[']);
                    }
                    match rfind(s.take(c), seq!['[']) {
                        None => s.take(c + 2) + links(after),
                        Some(b) => s.take(b) + seq!['[', '['] + after.take(p) + seq![']', '[']
                            + s.subrange(b + 1, c) + seq![']', ']'] + links(after.skip(p + 1)),
                    }
                },
            }
        },
    }
}

/// One step of `links`: the output for a prefix of `rest` and the length of
/// that prefix.
fn links_step(rest: &Vec<char>) -> (r: (Vec<char>, usize))
    requires
        rest.len() > 0,
    ensures
        0 < r.1 <= rest.len(),
        links(rest@) == r.0@ + links(rest@.skip(r.1 as int)),
{
    let open = vec!['['];
    let mid = vec![']', '('];
    let close = vec![')'];
    assert(open@ =~= seq!['[']);
    assert(mid@ =~= seq![']', '(']);
    assert(close@ =~= seq![')']);
    assert(rest@.skip(rest.len() as int) =~= Seq::<char>::empty());
    assert(links(Seq::<char>::empty()) =~= Seq::<char>::empty());
    proof {
        lemma_find(rest@, mid@);
    }
    let c = match find_chars(rest, &mid) {
        None => {
            return (rest.clone(), rest.len());
        },
        Some(c) => c,
    };
    let after = slice(rest, c + 2, rest.len());
    assert(after@ =~= rest@.skip(c + 2));
    proof {
        lemma_find(after@, close@);
    }
    let p = match find_chars(&after, &close) {
        None => {
            return (rest.clone(), rest.len());
        },
        Some(p) => p,
    };
    let pre = slice(rest, 0, c);
    assert(pre@ =~= rest@.take(c as int));
    proof {
        lemma_rfind(pre@, open@);
    }
    match rfind_chars(&pre, &open) {
        None => {
            let out = slice(rest, 0, c + 2);
            assert(out@ =~= rest@.take(c + 2));
            (out, c + 2)
        },
        Some(b) => {
            let url = slice(&after, 0, p);
            let text = slice(rest, b + 1, c);
            let mut out = slice(rest, 0, b);
            out.push('[');
            out.push('[');
            push_all(&mut out, &url);
            out.push(']');
            out.push('[');
            push_all(&mut out, &text);
            out.push(']');
            out.push(']');
            let k = c + 2 + p + 1;
            assert(after@.skip(p + 1) =~= rest@.skip(k as int));
            assert(out@ =~= rest@.take(b as int) + seq!['[', '['] + after@.take(p as int) + seq![
                ']',
                '[',
            ] + rest@.subrange(b + 1, c as int) + seq![']', ']']);
            (out, k)
        },
    }
}

/// `links(s@)` computed.
fn convert_links_chars(s: &Vec<char>) -> (r: Vec<char>)
    ensures
        r@ == links(s@),
{
    let mut out: Vec<char> = Vec::new();
    let mut pos: usize = 0;
    assert(s@.skip(0) =~= s@);
    while pos < s.len()
        invariant
            pos <= s.len(),
            out@ + links(s@.skip(pos as int)) == links(s@),
        decreases s.len() - pos,
    {
        let rest = slice(s, pos, s.len());
        assert(rest@ =~= s@.skip(pos as int));
        let (chunk, k) = links_step(&rest);
        let ghost before = out@;
        push_all(&mut out, &chunk);
        assert(rest@.skip(k as int) =~= s@.skip(pos + k));
        assert(before + links(rest@) == out@ + links(s@.skip(pos + k)));
        pos = pos + k;
    }
    assert(s@.skip(pos as int) =~= Seq::<char>::empty());
    assert(links(Seq::<char>::empty()) =~= Seq::<char>::empty());
    out
}

/// `**` and `*` as vectors.
fn bold_marks() -> (r: (Vec<char>, Vec<char>))
    ensures
        r.0@ == seq!['*', '*'],
        r.1@ == seq!['*'],
{
    let a = vec!['*', '*'];
    let b = vec!['*'];
    assert(a@ =~= seq!['*', '*']);
    assert(b@ =~= seq!['*']);
    (a, b)
}

/// `` ` `` and `=` as vectors.
fn code_marks() -> (r: (Vec<char>, Vec<char>))
    ensures
        r.0@ == seq!['`'],
        r.1@ == seq!['='],
{
    let a = vec!['`'];
    let b = vec!['='];
    assert(a@ =~= seq!['`']);
    assert(b@ =~= seq!['=']);
    (a, b)
}

/// `o` moved on by `k` positions.
pub open spec fn shift(o: Option<int>, k: int) -> Option<int> {
    match o {
        Some(x) => Some(x + k),
        None => None,
    }
}

/// The position of the first `*` of `s` that is not one of a `**` pair,
/// the pairs taken from the left.
pub open spec fn single_star(s: Seq<char>) -> Option<int>
    decreases s.len(),
{
    if s.len() == 0 {
        None
    } else if s.len() >= 2 && s[0] == '*' && s[1] == '*' {
        shift(single_star(s.skip(2)), 2)
    } else if s[0] == '*' {
        Some(0)
    } else {
        shift(single_star(s.skip(1)), 1)
    }
}

/// A single star lies inside `s` and is a `*`.
pub proof fn lemma_single_star(s: Seq<char>)
    ensures
        single_star(s) matches Some(i) ==> 0 <= i < s.len() && s[i] == '*',
    decreases s.len(),
{
    if s.len() == 0 {
    } else if s.len() >= 2 && s[0] == '*' && s[1] == '*' {
        lemma_single_star(s.skip(2));
    } else if s[0] == '*' {
    } else {
        lemma_single_star(s.skip(1));
    }
}

/// Italic `*text*`, delimited by single asterisks that are not part of a
/// `**` pair, becomes Org italic `/text/`; an opening `*` without a closing
/// one leaves the rest as it is.
pub open spec fn italic(s: Seq<char>) -> Seq<char>
    decreases s.len(),
{
    match single_star(s) {
        None => s,
        Some(i) => {
            proof {
                lemma_single_star(s);
            }
            let rest = s.skip(i + 1);
            match single_star(rest) {
                None => s,
                Some(e) => {
                    proof {
                        lemma_single_star(rest);
                    }
                    s.take(i) + seq!['/'] + rest.take(e) + seq!['/'] + italic(rest.skip(e + 1))
                },
            }
        },
    }
}

/// `single_star(s@)` computed.
fn single_star_index(s: &Vec<char>) -> (r: Option<usize>)
    ensures
        r matches Some(i) ==> single_star(s@) == Some(i as int),
        r is None ==> single_star(s@) is None,
{
    let mut i: usize = 0;
    assert(s@.skip(0) =~= s@);
    while i < s.len()
        invariant
            i <= s.len(),
            single_star(s@) == shift(single_star(s@.skip(i as int)), i as int),
        decreases s.len() - i,
    {
        let ghost t = s@.skip(i as int);
        if i + 1 < s.len() && s[i] == '*' && s[i + 1] == '*' {
            assert(t.skip(2) =~= s@.skip(i + 2));
            i = i + 2;
        } else if s[i] == '*' {
            assert(single_star(t) == Some(0int));
            return Some(i);
        } else {
            assert(t.skip(1) =~= s@.skip(i + 1));
            i = i + 1;
        }
    }
    assert(s@.skip(i as int) =~= Seq::<char>::empty());
    None
}

/// One step of `italic`: the output for a prefix of `rest` and the length
/// of that prefix.
fn italic_step(rest: &Vec<char>) -> (r: (Vec<char>, usize))
    requires
        rest.len() > 0,
    ensures
        0 < r.1 <= rest.len(),
        italic(rest@) == r.0@ + italic(rest@.skip(r.1 as int)),
{
    assert(rest@.skip(rest.len() as int) =~= Seq::<char>::empty());
    assert(italic(Seq::<char>::empty()) =~= Seq::<char>::empty());
    proof {
        lemma_single_star(rest@);
    }
    let i = match single_star_index(rest) {
        None => {
            return (rest.clone(), rest.len());
        },
        Some(i) => i,
    };
    let after = slice(rest, i + 1, rest.len());
    assert(after@ =~= rest@.skip(i + 1));
    proof {
        lemma_single_star(after@);
    }
    let e = match single_star_index(&after) {
        None => {
            return (rest.clone(), rest.len());
        },
        Some(e) => e,
    };
    let inner = slice(&after, 0, e);
    let mut out = slice(rest, 0, i);
    out.push('/');
    push_all(&mut out, &inner);
    out.push('/');
    let k = i + 1 + e + 1;
    assert(after@.skip(e + 1) =~= rest@.skip(k as int));
    assert(out@ =~= rest@.take(i as int) + seq!['/'] + after@.take(e as int) + seq!['/']);
    (out, k)
}

/// `italic(s@)` computed.
fn italic_chars(s: &Vec<char>) -> (r: Vec<char>)
    ensures
        r@ == italic(s@),
{
    let mut out: Vec<char> = Vec::new();
    let mut pos: usize = 0;
    assert(s@.skip(0) =~= s@);
    while pos < s.len()
        invariant
            pos <= s.len(),
            out@ + italic(s@.skip(pos as int)) == italic(s@),
        decreases s.len() - pos,
    {
        let rest = slice(s, pos, s.len());
        assert(rest@ =~= s@.skip(pos as int));
        let (chunk, k) = italic_step(&rest);
        let ghost before = out@;
        push_all(&mut out, &chunk);
        assert(rest@.skip(k as int) =~= s@.skip(pos + k));
        assert(before + italic(rest@) == out@ + italic(s@.skip(pos + k)));
        pos = pos + k;
    }
    assert(s@.skip(pos as int) =~= Seq::<char>::empty());
    assert(italic(Seq::<char>::empty()) =~= Seq::<char>::empty());
    out
}

/// Bold `**text**` becomes Org bold `*text*`.
pub open spec fn bold(s: Seq<char>) -> Seq<char> {
    pair_replace(s, seq!['*', '*'], seq!['*'])
}

/// Inline code `` `code` `` becomes Org verbatim `=code=`.
pub open spec fn code(s: Seq<char>) -> Seq<char> {
    pair_replace(s, seq!['`'], seq!['='])
}

/// Links, then italics (single asterisks only), then bold, then inline
/// code.
pub open spec fn inline(s: Seq<char>) -> Seq<char> {
    code(bold(italic(links(s))))
}

fn inline_chars(s: &Vec<char>) -> (r: Vec<char>)
    ensures
        r@ == inline(s@),
{
    let l = convert_links_chars(s);
    let it = italic_chars(&l);
    let (bp, br) = bold_marks();
    let b = pair_replace_chars(&it, &bp, &br);
    let (cp, cr) = code_marks();
    pair_replace_chars(&b, &cp, &cr)
}

/// `[text](url)` → `[[url][text]]`.
pub fn convert_links(src: &str) -> (r: String)
    ensures
        r@ == links(src@),
{
    let s = to_chars(src);
    let out = convert_links_chars(&s);
    from_chars(&out)
}

/// `**text**` → `*text*`.
pub fn convert_bold(src: &str) -> (r: String)
    ensures
        r@ == bold(src@),
{
    let s = to_chars(src);
    let (p, r) = bold_marks();
    let out = pair_replace_chars(&s, &p, &r);
    from_chars(&out)
}

/// `*text*` → `/text/`, for single asterisks that are not part of `**`.
pub fn convert_italic(src: &str) -> (r: String)
    ensures
        r@ == italic(src@),
{
    let s = to_chars(src);
    let out = italic_chars(&s);
    from_chars(&out)
}

/// `` `code` `` → `=code=`.
pub fn convert_code(src: &str) -> (r: String)
    ensures
        r@ == code(src@),
{
    let s = to_chars(src);
    let (p, r) = code_marks();
    let out = pair_replace_chars(&s, &p, &r);
    from_chars(&out)
}

/// The inline conversions of one line of text.
pub fn inline_markdown_to_org(src: &str) -> (r: String)
    ensures
        r@ == inline(src@),
{
    let s = to_chars(src);
    let out = inline_chars(&s);
    from_chars(&out)
}

// ---------------------------------------------------------------------------
// Block conversion
// ---------------------------------------------------------------------------

/// The fence that opens or closes a code block.
pub open spec fn fence() -> Seq<char> {
    seq!['`', '`', '`']
}

/// The Org text for one Markdown line, and whether a code block is open
/// after it.
pub open spec fn org_line(line: Seq<char>, in_code: bool) -> (Seq<char>, bool) {
    let t = trim_start(line);
    if fence().is_prefix_of(t) {
        if in_code {
            ("#+END_SRC\n"@, false)
        } else {
            let lang = trim(trim_start_matches(t, seq!['`']));
            if lang.len() == 0 {
                ("#+BEGIN_SRC\n"@, true)
            } else {
                ("#+BEGIN_SRC "@ + lang + seq!['\n'], true)
            }
        }
    } else if in_code {
        (line + seq!['\n'], true)
    } else if seq!['#', '#', '#', ' '].is_prefix_of(line) {
        ("*** "@ + inline(line.skip(4)) + seq!['\n'], false)
    } else if seq!['#', '#', ' '].is_prefix_of(line) {
        ("** "@ + inline(line.skip(3)) + seq!['\n'], false)
    } else if seq!['#', ' '].is_prefix_of(line) {
        ("* "@ + inline(line.skip(2)) + seq!['\n'], false)
    } else {
        (inline(line) + seq!['\n'], false)
    }
}

/// The Org text for `ls` with a code block open or not before the first
/// line; a block still open at the end is closed.
pub open spec fn org_lines(ls: Seq<Seq<char>>, in_code: bool) -> Seq<char>
    decreases ls.len(),
{
    if ls.len() == 0 {
        if in_code {
            "#+END_SRC\n"@
        } else {
            Seq::empty()
        }
    } else {
        let (o, next) = org_line(ls[0], in_code);
        o + org_lines(ls.drop_first(), next)
    }
}

/// A Markdown body as Org prose.
pub open spec fn spec_markdown_to_org(src: Seq<char>) -> Seq<char> {
    org_lines(lines(src), false)
}

/// The lines, each followed by a newline.
pub open spec fn with_newlines(ls: Seq<Seq<char>>) -> Seq<char>
    decreases ls.len(),
{
    if ls.len() == 0 {
        Seq::empty()
    } else {
        ls[0] + seq!['\n'] + with_newlines(ls.drop_first())
    }
}

/// Inside an open code block every line that does not open with a fence is
/// copied exactly as it is, followed by a newline, and the block stays open:
/// no Markdown rewriting touches code.
pub proof fn lemma_code_verbatim(cs: Seq<Seq<char>>, rest: Seq<Seq<char>>)
    requires
        forall|i: int| 0 <= i < cs.len() ==> !fence().is_prefix_of(trim_start(#[trigger] cs[i])),
    ensures
        org_lines(cs + rest, true) == with_newlines(cs) + org_lines(rest, true),
        forall|i: int| 0 <= i < cs.len() ==> org_line(#[trigger] cs[i], true) == (cs[i] + seq!['\n'], true),
    decreases cs.len(),
{
    if cs.len() == 0 {
        assert(cs + rest =~= rest);
    } else {
        let d = cs.drop_first();
        assert forall|i: int| 0 <= i < d.len() implies !fence().is_prefix_of(trim_start(#[trigger] d[i])) by {
            assert(d[i] == cs[i + 1]);
        }
        lemma_code_verbatim(d, rest);
        let all = cs + rest;
        assert(all[0] == cs[0]);
        assert(all.drop_first() =~= d + rest);
        assert(!fence().is_prefix_of(trim_start(cs[0])));
    }
}

/// A fenced code block becomes a source block whose lines are the code lines
/// exactly: the opening fence gives `#+BEGIN_SRC`, the code is copied
/// verbatim, and the closing fence gives `#+END_SRC`.
pub proof fn lemma_code_block(open: Seq<char>, cs: Seq<Seq<char>>, close: Seq<char>, rest: Seq<Seq<char>>)
    requires
        fence().is_prefix_of(trim_start(open)),
        fence().is_prefix_of(trim_start(close)),
        forall|i: int| 0 <= i < cs.len() ==> !fence().is_prefix_of(trim_start(#[trigger] cs[i])),
    ensures
        org_line(open, false).1,
        org_lines(seq![open] + cs + seq![close] + rest, false) == org_line(open, false).0
            + with_newlines(cs) + "#+END_SRC\n"@ + org_lines(rest, false),
{
    let all = seq![open] + cs + seq![close] + rest;
    assert(all[0] == open);
    let tail = seq![close] + rest;
    assert(all.drop_first() =~= cs + tail);
    lemma_code_verbatim(cs, tail);
    assert(tail[0] == close);
    assert(tail.drop_first() =~= rest);
}

/// A heading line `marker + rest`, as the Org heading `org + inline(rest)`.
fn org_heading(line: &Vec<char>, skip: usize, org: &str) -> (r: Vec<char>)
    requires
        skip <= line.len(),
    ensures
        r@ == org@ + inline(line@.skip(skip as int)) + seq!['\n'],
{
    let rest = slice(line, skip, line.len());
    assert(rest@ =~= line@.skip(skip as int));
    let conv = inline_chars(&rest);
    let mut out: Vec<char> = Vec::new();
    push_str(&mut out, org);
    push_all(&mut out, &conv);
    out.push('\n');
    out
}

fn org_line_chars(line: &Vec<char>, in_code: bool) -> (r: (Vec<char>, bool))
    ensures
        (r.0@, r.1) == org_line(line@, in_code),
{
    let t = trim_start_chars(line);
    let f = vec!['`', '`', '`'];
    assert(f@ =~= fence());
    if starts_with(&t, &f) {
        let mut out: Vec<char> = Vec::new();
        if in_code {
            push_str(&mut out, "#+END_SRC\n");
            return (out, false);
        }
        let tick = vec!['`'];
        assert(tick@ =~= seq!['`']);
        let stripped = trim_start_matches_chars(&t, &tick);
        let lang = trim_chars(&stripped);
        if lang.len() == 0 {
            push_str(&mut out, "#+BEGIN_SRC\n");
        } else {
            push_str(&mut out, "#+BEGIN_SRC ");
            push_all(&mut out, &lang);
            out.push('\n');
        }
        return (out, true);
    }
    if in_code {
        let mut out = line.clone();
        out.push('\n');
        return (out, true);
    }
    let h3 = vec!['#', '#', '#', ' '];
    let h2 = vec!['#', '#', ' '];
    let h1 = vec!['#', ' '];
    assert(h3@ =~= seq!['#', '#', '#', ' ']);
    assert(h2@ =~= seq!['#', '#', ' ']);
    assert(h1@ =~= seq!['#', ' ']);
    if starts_with(line, &h3) {
        return (org_heading(line, 4, "*** "), false);
    }
    if starts_with(line, &h2) {
        return (org_heading(line, 3, "** "), false);
    }
    if starts_with(line, &h1) {
        return (org_heading(line, 2, "* "), false);
    }
    let mut out = inline_chars(line);
    out.push('\n');
    (out, false)
}

/// Converts a Markdown body to Org: headings become `*` headings, fenced code
/// becomes a source block, and links, bold and inline code are rewritten.
pub fn markdown_to_org(src: &str) -> (r: String)
    ensures
        r@ == spec_markdown_to_org(src@),
{
    let s = to_chars(src);
    let ls = split_lines(&s);
    let ghost lv = ls.deep_view();
    let mut out: Vec<char> = Vec::new();
    let mut in_code = false;
    let mut i: usize = 0;
    assert(lv.skip(0) =~= lv);
    while i < ls.len()
        invariant
            i <= ls.len(),
            lv == ls.deep_view(),
            out@ + org_lines(lv.skip(i as int), in_code) == org_lines(lv, false),
        decreases ls.len() - i,
    {
        assert(lv[i as int] == ls@[i as int]@);
        let (chunk, next) = org_line_chars(&ls[i], in_code);
        let ghost before = out@;
        push_all(&mut out, &chunk);
        assert(lv.skip(i as int).drop_first() =~= lv.skip(i + 1));
        assert(lv.skip(i as int)[0] == lv[i as int]);
        in_code = next;
        i += 1;
    }
    assert(lv.skip(i as int) =~= Seq::<Seq<char>>::empty());
    if in_code {
        push_str(&mut out, "#+END_SRC\n");
    }
    from_chars(&out)
}

// ---------------------------------------------------------------------------
// The published file
// ---------------------------------------------------------------------------

/// A concern section without its heading line and the blank lines after it.
pub open spec fn spec_strip_heading(section: Seq<char>) -> Seq<char> {
    let ls = lines(section);
    let rest = if ls.len() == 0 {
        ls
    } else {
        ls.drop_first()
    };
    trim_start_matches(join(rest, seq!['\n']), seq!['\n'])
}

/// Drops the `### concern [rN]` heading line of a section.
pub fn strip_heading(section: &str) -> (r: String)
    ensures
        r@ == spec_strip_heading(section@),
{
    let s = to_chars(section);
    let ls = split_lines(&s);
    let ghost lv = ls.deep_view();
    let mut rest: Vec<Vec<char>> = Vec::new();
    let mut i: usize = 1;
    while i < ls.len()
        invariant
            1 <= i,
            i <= ls.len() || ls.len() == 0,
            lv == ls.deep_view(),
            ls.len() > 0 ==> rest.deep_view() == lv.subrange(1, i as int),
            ls.len() == 0 ==> rest.deep_view() == Seq::<Seq<char>>::empty(),
        decreases ls.len() - i,
    {
        assert(lv[i as int] == ls@[i as int]@);
        crate::text::push_line(&mut rest, ls[i].clone());
        assert(lv.subrange(1, i as int).push(lv[i as int]) =~= lv.subrange(1, i + 1));
        i += 1;
    }
    proof {
        if ls.len() > 0 {
            assert(lv.subrange(1, lv.len() as int) =~= lv.drop_first());
        } else {
            assert(lv =~= Seq::<Seq<char>>::empty());
        }
    }
    let nl = vec!['\n'];
    assert(nl@ =~= seq!['\n']);
    let joined = join_chars(&rest, &nl);
    let out = trim_start_matches_chars(&joined, &nl);
    from_chars(&out)
}

/// The Org file for a concern: title, publication time, source document, a
/// blank line and the converted body.
pub open spec fn spec_render_org(
    concern: Seq<char>,
    source_doc: Seq<char>,
    body: Seq<char>,
    now: Seq<char>,
) -> Seq<char> {
    "#+TITLE: "@ + concern + seq!['\n'] + "#+PROPERTY: PUBLISHED "@ + now + seq!['\n']
        + "#+PROPERTY: SOURCE_DOC "@ + source_doc + seq!['\n'] + seq!['\n']
        + spec_markdown_to_org(body)
}

/// The Org file for a concern, published at `now`.
pub fn render_org_at(concern: &str, source_doc: &str, body: &str, now: &str) -> (r: String)
    ensures
        r@ == spec_render_org(concern@, source_doc@, body@, now@),
{
    let mut out: Vec<char> = Vec::new();
    push_str(&mut out, "#+TITLE: ");
    push_str(&mut out, concern);
    out.push('\n');
    push_str(&mut out, "#+PROPERTY: PUBLISHED ");
    push_str(&mut out, now);
    out.push('\n');
    push_str(&mut out, "#+PROPERTY: SOURCE_DOC ");
    push_str(&mut out, source_doc);
    out.push('\n');
    out.push('\n');
    let org = markdown_to_org(body);
    push_str(&mut out, org.as_str());
    from_chars(&out)
}

/// The current time in UTC as `chrono` formats `%Y-%m-%dT%H:%M:%SZ`
/// (`chrono::Utc::now`, then `format`). The contract claims only that the
/// text ends with the literal `Z` of the format; its digits depend on the
/// clock and are left unsaid.
#[verifier::external_body]
fn utc_now_text() -> (r: String)
    ensures
        r@.len() > 0,
        r@.last() == 'Z',
{
    chrono::Utc::now().format("%Y-%m-%dT%H:%M:%SZ").to_string()
}

/// The Org file for a concern, published now.
pub fn render_org(concern: &str, source_doc: &str, body: &str) -> (r: String)
    ensures
        exists|now: Seq<char>|
            now.len() > 0 && now.last() == 'Z' && r@ == spec_render_org(concern@, source_doc@, body@, now),
{
    let now = utc_now_text();
    render_org_at(concern, source_doc, body, now.as_str())
}

/// `concern` with `/`, `\\`, `:` and spaces replaced by `-`.
pub open spec fn sanitize(concern: Seq<char>) -> Seq<char> {
    concern.map_values(
        |c: char|
            if c == '/' || c == '\\' || c == ':' || c == ' ' {
                '-'
            } else {
                c
            },
    )
}

/// `./{sanitized concern}.org`.
pub open spec fn spec_org_path(concern: Seq<char>) -> Seq<char> {
    seq!['.', '/'] + sanitize(concern) + seq!['.', 'o', 'r', 'g']
}

/// Where the Org file of `concern` is written.
pub fn org_path(concern: &str) -> (r: String)
    ensures
        r@ == spec_org_path(concern@),
{
    let c = to_chars(concern);
    let mut out: Vec<char> = vec!['.', '/'];
    let mut i: usize = 0;
    while i < c.len()
        invariant
            i <= c.len(),
            out@ == seq!['.', '/'] + sanitize(c@.take(i as int)),
        decreases c.len() - i,
    {
        let ch = c[i];
        if ch == '/' || ch == '\\' || ch == ':' || ch == ' ' {
            out.push('-');
        } else {
            out.push(ch);
        }
        assert(sanitize(c@.take(i as int)).push(if ch == '/' || ch == '\\' || ch == ':' || ch
            == ' ' {
            '-'
        } else {
            ch
        }) =~= sanitize(c@.take(i + 1)));
        i += 1;
    }
    assert(c@.take(c.len() as int) =~= c@);
    out.push('.');
    out.push('o');
    out.push('r');
    out.push('g');
    assert(out@ =~= spec_org_path(concern@));
    from_chars(&out)
}

/// The concern named by an Org file: the file's stem.
pub fn concern_name_from_org_path(path: &str) -> (r: Option<String>)
    ensures
        r matches Some(n) ==> file_stem(path@) == Some(n@),
        r is None ==> file_stem(path@) is None,
{
    let p = to_chars(path);
    match file_name_chars(&p) {
        None => None,
        Some(n) => {
            let dot = vec!['.'];
            assert(dot@ =~= seq!['.']);
            match rfind_chars(&n, &dot) {
                Some(i) => {
                    if i > 0 {
                        proof {
                            crate::text::lemma_rfind(n@, dot@);
                        }
                        let stem = slice(&n, 0, i);
                        Some(from_chars(&stem))
                    } else {
                        Some(from_chars(&n))
                    }
                },
                None => Some(from_chars(&n)),
            }
        },
    }
}

/// Reading the concern back from the Org path of a concern gives the
/// concern as the file name holds it: `/`, `\\`, `:` and spaces as `-`.
pub proof fn lemma_org_path_name(concern: Seq<char>)
    requires
        concern.len() > 0,
    ensures
        file_stem(spec_org_path(concern)) == Some(sanitize(concern)),
{
    let sc = sanitize(concern);
    let t = sc + seq!['.', 'o', 'r', 'g'];
    let path = spec_org_path(concern);
    assert(!t.contains('/')) by {
        if t.contains('/') {
            let k = choose|k: int| 0 <= k < t.len() && t[k] == '/';
            if k < sc.len() {
                assert(sc[k] == '/');
            }
        }
    }
    assert(path =~= seq!['.'] + seq!['/'] + t);
    crate::text::lemma_split_char_append(seq!['.'], t, '/');
    assert(crate::text::split_char(seq!['.'], '/') =~= seq![seq!['.']]) by {
        let one = seq!['.'];
        assert(one.drop_last() =~= Seq::<char>::empty());
        assert(one.last() == '.');
        assert(crate::text::split_char(Seq::<char>::empty(), '/') == seq![Seq::<char>::empty()]);
        assert(Seq::<char>::empty().push('.') =~= one);
    }
    let parts = crate::text::split_char(path, '/');
    assert(parts =~= seq![seq!['.'], t]);
    let f = |c: Seq<char>| c.len() > 0 && c != seq!['.'];
    assert(t != seq!['.']) by {
        assert(t.len() != 1);
    }
    assert(parts.filter(f) =~= seq![t]) by {
        reveal_with_fuel(Seq::filter, 3);
        assert(parts.drop_last() =~= seq![seq!['.']]);
        assert(seq![seq!['.']].drop_last() =~= Seq::<Seq<char>>::empty());
    }
    assert(crate::paths::normal_components(path) =~= seq![t]);
    assert(t != seq!['.', '.']) by {
        assert(t.len() != 2);
    }
    let n = sc.len() as int;
    let dot = seq!['.'];
    assert(occurs_at(t, dot, n)) by {
        assert(t.subrange(n, n + 1) =~= dot);
    }
    assert forall|j: int| n < j implies !occurs_at(t, dot, j) by {
        if occurs_at(t, dot, j) {
            assert(t.subrange(j, j + 1)[0] == t[j]);
        }
    }
    crate::text::lemma_rfind(t, dot);
    assert(rfind(t, dot) == Some(n)) by {
        match rfind(t, dot) {
            Some(i) => {
                if i < n {
                    assert(!occurs_at(t, dot, n));
                }
            },
            None => {},
        }
    }
    assert(t.take(n) =~= sc);
}

// ---------------------------------------------------------------------------
// What to publish
// ---------------------------------------------------------------------------

/// A published concern: the file written and the document it came from.
#[derive(Clone, Debug)]
pub struct PublishResult {
    pub concern: String,
    pub file: String,
    pub source_doc: String,
}

/// Why a concern could not be published.
#[derive(Clone, Debug)]
pub enum PublishError {
    ConcernNotFound { concern: String },
    NoOwners,
    OwnerNotFound,
    SectionNotFound { concern: String, file: String },
}

impl PublishError {
    pub fn message(&self) -> (r: String)
        ensures
            self matches PublishError::ConcernNotFound { concern } ==> r@ == "concern '"@ + concern@
                + "' not found in corpus"@,
            self matches PublishError::NoOwners ==> r@ == "concern has no owners"@,
            self matches PublishError::OwnerNotFound ==> r@ == "owner document not found in registry"@,
            self matches PublishError::SectionNotFound { concern, file } ==> r@ == "concern '"@
                + concern@ + "' section not found in "@ + file@,
    {
        let mut out: Vec<char> = Vec::new();
        match self {
            PublishError::ConcernNotFound { concern } => {
                push_str(&mut out, "concern '");
                push_str(&mut out, concern.as_str());
                push_str(&mut out, "' not found in corpus");
            },
            PublishError::NoOwners => {
                push_str(&mut out, "concern has no owners");
            },
            PublishError::OwnerNotFound => {
                push_str(&mut out, "owner document not found in registry");
            },
            PublishError::SectionNotFound { concern, file } => {
                push_str(&mut out, "concern '");
                push_str(&mut out, concern.as_str());
                push_str(&mut out, "' section not found in ");
                push_str(&mut out, file.as_str());
            },
        }
        from_chars(&out)
    }
}

/// The concerns to publish: the one asked for, which the roster must hold,
/// or every concern of the roster, in sorted order.
pub fn publish_concerns(registry: &Registry, concern_filter: Option<&str>) -> (r: Result<
    Vec<String>,
    PublishError,
>)
    requires
        registry.wf(),
    ensures
        concern_filter is None ==> r is Ok && strictly_sorted(r->Ok_0.deep_view()),
        concern_filter matches Some(c) ==> (r is Ok <==> roster_keys(registry.concern_roster@).contains(c@)),
        concern_filter matches Some(c) ==> (r is Ok ==> r->Ok_0.deep_view() == seq![c@]),
        concern_filter matches Some(c) ==> (r is Err ==> (r->Err_0 matches PublishError::ConcernNotFound { concern } && concern@ == c@)),
        concern_filter is None ==> r is Ok && r->Ok_0.deep_view() == roster_keys(registry.concern_roster@),
{
    match concern_filter {
        Some(c) => {
            match registry.roster_index(c) {
                Some(j) => {
                    assert(roster_keys(registry.concern_roster@)[j as int] == c@);
                    let mut out: Vec<String> = Vec::new();
                    crate::text::push_string(&mut out, String::from_str(c));
                    assert(out.deep_view() =~= seq![c@]);
                    Ok(out)
                },
                None => Err(PublishError::ConcernNotFound { concern: String::from_str(c) }),
            }
        },
        None => {
            let mut out: Vec<String> = Vec::new();
            let mut j: usize = 0;
            while j < registry.concern_roster.len()
                invariant
                    j <= registry.concern_roster.len(),
                    out.deep_view() == roster_keys(registry.concern_roster@).take(j as int),
                decreases registry.concern_roster.len() - j,
            {
                crate::text::push_string(&mut out, crate::text::clone_string(&registry.concern_roster[j].0));
                assert(roster_keys(registry.concern_roster@).take(j + 1) =~= roster_keys(
                    registry.concern_roster@,
                ).take(j as int).push(registry.concern_roster@[j as int].0@));
                j += 1;
            }
            assert(roster_keys(registry.concern_roster@).take(registry.concern_roster.len() as int)
                =~= roster_keys(registry.concern_roster@));
            Ok(out)
        },
    }
}

/// The document a concern is published from, its newest owner (the last in
/// the roster's order), and that document's file.
pub fn publish_target(registry: &Registry, concern: &str) -> (r: Result<(String, String), PublishError>)
    ensures
        r matches Ok((owner, file)) ==> exists|j: int, m: int|
            0 <= j < registry.concern_roster.len() && 0 <= m < registry.documents.len() && (
            #[trigger] registry.concern_roster@[j]).0@ == concern@
                && registry.concern_roster@[j].1.owners.len() > 0
                && registry.concern_roster@[j].1.owners.deep_view().last() == owner@ && (
            #[trigger] registry.documents@[m]).0@ == owner@ && registry.documents@[m].1.file@
                == file@,
        r matches Err(PublishError::NoOwners) ==> exists|j: int|
            0 <= j < registry.concern_roster.len() && (#[trigger] registry.concern_roster@[j]).0@
                == concern@ && registry.concern_roster@[j].1.owners.len() == 0,
        r matches Err(PublishError::OwnerNotFound) ==> exists|j: int|
            0 <= j < registry.concern_roster.len() && (#[trigger] registry.concern_roster@[j]).0@
                == concern@ && registry.concern_roster@[j].1.owners.len() > 0 && !doc_keys(
                registry.documents@,
            ).contains(registry.concern_roster@[j].1.owners.deep_view().last()),
        r matches Err(PublishError::ConcernNotFound { concern: c }) ==> c@ == concern@
            && !roster_keys(registry.concern_roster@).contains(concern@),
        !(r matches Err(PublishError::SectionNotFound { .. })),
{
    let j = match registry.roster_index(concern) {
        Some(j) => j,
        None => {
            return Err(PublishError::ConcernNotFound { concern: String::from_str(concern) });
        },
    };
    let owners = &registry.concern_roster[j].1.owners;
    if owners.len() == 0 {
        return Err(PublishError::NoOwners);
    }
    let last = &owners[owners.len() - 1];
    assert(last@ == owners.deep_view().last());
    match registry.document_index(last.as_str()) {
        Some(m) => Ok((crate::text::clone_string(last), crate::text::clone_string(&registry.documents[m].1.file))),
        None => Err(PublishError::OwnerNotFound),
    }
}

/// The Org text of `concern`'s section in `body` (its heading dropped),
/// published from `source_doc` at `now`, and the path it is written to; or
/// that the body has no such section.
pub fn publish_concern(concern: &str, source_doc: &str, file: &str, body: &str, now: &str) -> (r: Result<
    (String, String),
    PublishError,
>)
    ensures
        r is Ok <==> spec_extract_section(body@, concern@) is Some,
        r matches Ok((org, path)) ==> org@ == spec_render_org(
            concern@,
            source_doc@,
            spec_strip_heading(spec_extract_section(body@, concern@)->Some_0),
            now@,
        ) && path@ == spec_org_path(concern@),
        r matches Err(e) ==> (e matches PublishError::SectionNotFound { concern: c, file: f } && c@
            == concern@ && f@ == file@),
{
    match extract_concern_section(body, concern) {
        None => Err(
            PublishError::SectionNotFound { concern: String::from_str(concern), file: String::from_str(file) },
        ),
        Some(section) => {
            let stripped = strip_heading(section.as_str());
            let org = render_org_at(concern, source_doc, stripped.as_str(), now);
            Ok((org, org_path(concern)))
        },
    }
}

} // verus!
