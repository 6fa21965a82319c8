//! Repository paths as text: joining, normalising and naming the last
//! component, as `std::path` does it on Unix.
use vstd::prelude::*;
use crate::text::{
    chars_eq, from_chars, push_all, push_str, slice, to_chars, trim, trim_chars,
    trim_start_matches, trim_start_matches_chars,
};

verus! {

broadcast use crate::views::lemma_char_vec_deep_view;

/// `base.join(rel)`: an absolute `rel` replaces `base`; otherwise a `/` is
/// put between them unless `base` is empty or already ends in one.
pub open spec fn path_join(base: Seq<char>, rel: Seq<char>) -> Seq<char> {
    if rel.len() > 0 && rel[0] == '/' {
        rel
    } else if base.len() == 0 {
        rel
    } else if base.last() == '/' {
        base + rel
    } else {
        base + seq!['/'] + rel
    }
}

/// `path_join(base@, rel@)` computed.
pub fn join_path(base: &str, rel: &str) -> (r: String)
    ensures
        r@ == path_join(base@, rel@),
{
    let b = to_chars(base);
    let r = to_chars(rel);
    if r.len() > 0 && r[0] == '/' {
        return from_chars(&r);
    }
    if b.len() == 0 {
        return from_chars(&r);
    }
    let mut out = b.clone();
    if b[b.len() - 1] != '/' {
        out.push('/');
    }
    push_all(&mut out, &r);
    from_chars(&out)
}

/// `s` with every character `from` replaced by `to`.
pub open spec fn replace_char(s: Seq<char>, from: char, to: char) -> Seq<char> {
    s.map_values(|c: char| if c == from { to } else { c })
}

pub fn replace_char_chars(s: &Vec<char>, from: char, to: char) -> (r: Vec<char>)
    ensures
        r@ == replace_char(s@, from, to),
{
    let mut out: Vec<char> = Vec::new();
    let mut i: usize = 0;
    while i < s.len()
        invariant
            i <= s.len(),
            out@ == replace_char(s@.take(i as int), from, to),
        decreases s.len() - i,
    {
        let c = s[i];
        out.push(if c == from { to } else { c });
        assert(replace_char(s@.take(i + 1), from, to) =~= replace_char(s@.take(i as int), from, to).push(
            if c == from { to } else { c },
        ));
        i += 1;
    }
    assert(s@.take(s.len() as int) =~= s@);
    out
}

/// `./` as characters.
pub open spec fn dot_slash() -> Seq<char> {
    seq!['.', '/']
}

/// A path trimmed, without leading `./`, and with `\` written as `/`.
pub open spec fn normalize_path_text(s: Seq<char>) -> Seq<char> {
    replace_char(trim_start_matches(trim(s), dot_slash()), '\\', '/')
}

pub fn normalize_path_chars(s: &Vec<char>) -> (r: Vec<char>)
    ensures
        r@ == normalize_path_text(s@),
{
    let t = trim_chars(s);
    let ds = vec!['.', '/'];
    assert(ds@ =~= dot_slash());
    let u = trim_start_matches_chars(&t, &ds);
    replace_char_chars(&u, '\\', '/')
}

/// The pieces of `s` between `/` characters.
pub open spec fn split_slash(s: Seq<char>) -> Seq<Seq<char>> {
    crate::text::split_char(s, '/')
}

/// The normal components of a path: no empty and no `.` pieces.
pub open spec fn normal_components(s: Seq<char>) -> Seq<Seq<char>> {
    split_slash(s).filter(|c: Seq<char>| c.len() > 0 && c != seq!['.'])
}

/// `Path::file_name`: the last component, unless it is `..` or there is none.
pub open spec fn file_name(s: Seq<char>) -> Option<Seq<char>> {
    let cs = normal_components(s);
    if cs.len() == 0 || cs.last() == seq!['.', '.'] {
        None
    } else {
        Some(cs.last())
    }
}

/// `Path::file_stem`: the file name without its last `.extension`; a name
/// whose only dot leads it is its own stem.
pub open spec fn file_stem(s: Seq<char>) -> Option<Seq<char>> {
    match file_name(s) {
        None => None,
        Some(n) => match crate::text::rfind(n, seq!['.']) {
            Some(i) => if i > 0 {
                Some(n.take(i))
            } else {
                Some(n)
            },
            None => Some(n),
        },
    }
}

/// `file_name(s@)` computed.
pub fn file_name_chars(s: &Vec<char>) -> (r: Option<Vec<char>>)
    ensures
        r matches Some(n) ==> file_name(s@) == Some(n@),
        r is None ==> file_name(s@) is None,
{
    let ghost f = |c: Seq<char>| c.len() > 0 && c != seq!['.'];
    // Walk the pieces between slashes, remembering the last normal one.
    let mut last: Option<Vec<char>> = None;
    let mut cur: Vec<char> = Vec::new();
    let ghost mut done: Seq<Seq<char>> = Seq::empty();
    let mut i: usize = 0;
    while i < s.len()
        invariant
            i <= s.len(),
            f == (|c: Seq<char>| c.len() > 0 && c != seq!['.']),
            crate::text::split_char(s@.take(i as int), '/') == done.push(cur@),
            done.filter(f).len() == 0 ==> last is None,
            done.filter(f).len() > 0 ==> (last matches Some(l) && l@ == done.filter(f).last()),
        decreases s.len() - i,
    {
        assert(s@.take(i + 1).drop_last() =~= s@.take(i as int));
        let c = s[i];
        if c == '/' {
            proof {
                done.lemma_filter_push(cur@, f);
            }
            let dot = vec!['.'];
            assert(dot@ =~= seq!['.']);
            if cur.len() > 0 && !chars_eq(&cur, &dot) {
                last = Some(cur.clone());
            }
            proof {
                done = done.push(cur@);
            }
            cur = Vec::new();
            assert(crate::text::split_char(s@.take(i + 1), '/') =~= done.push(cur@));
        } else {
            cur.push(c);
            assert(crate::text::split_char(s@.take(i + 1), '/') =~= done.push(cur@));
        }
        i += 1;
    }
    assert(s@.take(s.len() as int) =~= s@);
    proof {
        done.lemma_filter_push(cur@, f);
    }
    let dot = vec!['.'];
    assert(dot@ =~= seq!['.']);
    if cur.len() > 0 && !chars_eq(&cur, &dot) {
        last = Some(cur.clone());
    }
    assert(normal_components(s@) == done.push(cur@).filter(f));
    match last {
        None => None,
        Some(l) => {
            let dd = vec!['.', '.'];
            assert(dd@ =~= seq!['.', '.']);
            if chars_eq(&l, &dd) {
                None
            } else {
                Some(l)
            }
        },
    }
}

// ---------------------------------------------------------------------------
// Ordering paths as `Path`'s `Ord` does: component by component
// ---------------------------------------------------------------------------

/// A component as text whose order is the order of `std::path::Component`:
/// the root `/` first, then `.` (only at the start of a relative path), then
/// `..`, then the names, which compare as their text.
pub open spec fn encode_component(p: Seq<char>) -> Seq<char> {
    if p == seq!['.', '.'] {
        seq!['\u{3}']
    } else {
        seq!['\u{4}'] + p
    }
}

/// The encoded names and `..` among `pieces`, skipping empty pieces and `.`.
pub open spec fn components_of(pieces: Seq<Seq<char>>) -> Seq<Seq<char>>
    decreases pieces.len(),
{
    if pieces.len() == 0 {
        Seq::empty()
    } else {
        let prev = components_of(pieces.drop_last());
        let p = pieces.last();
        if p.len() == 0 || p == seq!['.'] {
            prev
        } else {
            prev.push(encode_component(p))
        }
    }
}

/// `Path::components` of `s` on Unix, each encoded: a leading `/` is the
/// root, a leading `.` piece of a relative path is the current directory,
/// and the other pieces between slashes follow, without empty pieces and
/// `.`.
pub open spec fn path_components(s: Seq<char>) -> Seq<Seq<char>> {
    let pieces = split_slash(s);
    let head = if s.len() > 0 && s[0] == '/' {
        seq![seq!['\u{1}']]
    } else if pieces.len() > 0 && pieces[0] == seq!['.'] {
        seq![seq!['\u{2}']]
    } else {
        Seq::<Seq<char>>::empty()
    };
    head + components_of(pieces)
}

/// `a` sorts before or with `b`, comparing the components in turn.
pub open spec fn components_le(a: Seq<Seq<char>>, b: Seq<Seq<char>>) -> bool
    decreases a.len(),
{
    if a.len() == 0 {
        true
    } else if b.len() == 0 {
        false
    } else if a[0] == b[0] {
        components_le(a.drop_first(), b.drop_first())
    } else {
        crate::text::seq_lt(a[0], b[0])
    }
}

/// The path `a` sorts before or with the path `b`, as `Path`'s `Ord` has it.
pub open spec fn path_le(a: Seq<char>, b: Seq<char>) -> bool {
    components_le(path_components(a), path_components(b))
}

pub proof fn lemma_components_le_total(a: Seq<Seq<char>>, b: Seq<Seq<char>>)
    ensures
        components_le(a, b) || components_le(b, a),
    decreases a.len(),
{
    if a.len() > 0 && b.len() > 0 {
        if a[0] == b[0] {
            lemma_components_le_total(a.drop_first(), b.drop_first());
        } else {
            crate::text::lemma_seq_lt_trichotomy(a[0], b[0]);
        }
    }
}

pub proof fn lemma_components_le_transitive(a: Seq<Seq<char>>, b: Seq<Seq<char>>, c: Seq<Seq<char>>)
    requires
        components_le(a, b),
        components_le(b, c),
    ensures
        components_le(a, c),
    decreases a.len(),
{
    if a.len() > 0 {
        assert(b.len() > 0);
        assert(c.len() > 0);
        if a[0] == b[0] && b[0] == c[0] {
            lemma_components_le_transitive(a.drop_first(), b.drop_first(), c.drop_first());
        } else if a[0] == b[0] {
            crate::text::lemma_seq_lt_trichotomy(a[0], c[0]);
        } else if b[0] == c[0] {
            crate::text::lemma_seq_lt_trichotomy(a[0], c[0]);
        } else {
            crate::text::lemma_seq_lt_transitive(a[0], b[0], c[0]);
            crate::text::lemma_seq_lt_irreflexive(a[0]);
        }
    }
}

/// `path_components(s@)` computed.
pub fn path_components_chars(s: &Vec<char>) -> (r: Vec<Vec<char>>)
    ensures
        r.deep_view() == path_components(s@),
{
    let mut out: Vec<Vec<char>> = Vec::new();
    let mut cur: Vec<char> = Vec::new();
    let ghost mut done: Seq<Seq<char>> = Seq::empty();
    let dot = vec!['.'];
    assert(dot@ =~= seq!['.']);
    let dd = vec!['.', '.'];
    assert(dd@ =~= seq!['.', '.']);
    let mut i: usize = 0;
    assert(s@.take(0) =~= Seq::<char>::empty());
    assert(done.push(cur@) =~= seq![Seq::<char>::empty()]);
    while i < s.len()
        invariant
            i <= s.len(),
            dot@ == seq!['.'],
            dd@ == seq!['.', '.'],
            crate::text::split_char(s@.take(i as int), '/') == done.push(cur@),
            out.deep_view() == components_of(done),
        decreases s.len() - i,
    {
        assert(s@.take(i + 1).drop_last() =~= s@.take(i as int));
        let c = s[i];
        if c == '/' {
            let ghost before = out.deep_view();
            if cur.len() > 0 && !chars_eq(&cur, &dot) {
                let mut e: Vec<char> = Vec::new();
                if chars_eq(&cur, &dd) {
                    e.push('\u{3}');
                } else {
                    e.push('\u{4}');
                    push_all(&mut e, &cur);
                }
                assert(e@ =~= encode_component(cur@));
                crate::text::push_line(&mut out, e);
            }
            proof {
                assert(done.push(cur@).drop_last() =~= done);
                done = done.push(cur@);
            }
            cur = Vec::new();
            assert(crate::text::split_char(s@.take(i + 1), '/') =~= done.push(cur@));
        } else {
            cur.push(c);
            assert(crate::text::split_char(s@.take(i + 1), '/') =~= done.push(cur@));
        }
        i += 1;
    }
    assert(s@.take(s.len() as int) =~= s@);
    if cur.len() > 0 && !chars_eq(&cur, &dot) {
        let mut e: Vec<char> = Vec::new();
        if chars_eq(&cur, &dd) {
            e.push('\u{3}');
        } else {
            e.push('\u{4}');
            push_all(&mut e, &cur);
        }
        assert(e@ =~= encode_component(cur@));
        crate::text::push_line(&mut out, e);
    }
    assert(done.push(cur@).drop_last() =~= done);
    let ghost pieces = crate::text::split_char(s@, '/');
    assert(out.deep_view() == components_of(pieces));
    // The leading root or current-directory component.
    let mut head: Vec<Vec<char>> = Vec::new();
    if s.len() > 0 && s[0] == '/' {
        let root = vec!['\u{1}'];
        assert(root@ =~= seq!['\u{1}']);
        crate::text::push_line(&mut head, root);
        assert(head.deep_view() =~= seq![seq!['\u{1}']]);
    } else {
        let mut k: usize = 0;
        while k < s.len() && s[k] != '/'
            invariant
                k <= s.len(),
                forall|j: int| 0 <= j < k ==> s@[j] != '/',
            decreases s.len() - k,
        {
            k += 1;
        }
        let first = slice(s, 0, k);
        proof {
            lemma_first_piece(s@, k as int);
        }
        assert(first@ =~= s@.take(k as int));
        if chars_eq(&first, &dot) {
            let here = vec!['\u{2}'];
            assert(here@ =~= seq!['\u{2}']);
            crate::text::push_line(&mut head, here);
            assert(head.deep_view() =~= seq![seq!['\u{2}']]);
        } else {
            assert(head.deep_view() =~= Seq::<Seq<char>>::empty());
        }
    }
    let ghost hv = head.deep_view();
    let mut r = head;
    let mut j: usize = 0;
    while j < out.len()
        invariant
            j <= out.len(),
            r.deep_view() == hv + out.deep_view().take(j as int),
        decreases out.len() - j,
    {
        crate::text::push_line(&mut r, out[j].clone());
        assert(out.deep_view()[j as int] == out@[j as int]@);
        assert(out.deep_view().take(j + 1) =~= out.deep_view().take(j as int).push(out.deep_view()[j as int]));
        j += 1;
    }
    assert(out.deep_view().take(out.len() as int) =~= out.deep_view());
    assert(hv =~= (if s@.len() > 0 && s@[0] == '/' {
        seq![seq!['\u{1}']]
    } else if pieces.len() > 0 && pieces[0] == seq!['.'] {
        seq![seq!['\u{2}']]
    } else {
        Seq::<Seq<char>>::empty()
    }));
    r
}

/// The first piece between slashes is the text up to the first `/`.
proof fn lemma_first_piece(s: Seq<char>, k: int)
    requires
        0 <= k <= s.len(),
        forall|j: int| 0 <= j < k ==> s[j] != '/',
        k == s.len() || s[k] == '/',
    ensures
        crate::text::split_char(s, '/').len() > 0,
        crate::text::split_char(s, '/')[0] == s.take(k),
    decreases s.len(),
{
    crate::text::lemma_split_char_len(s, '/');
    if s.len() > k {
        lemma_first_piece(s.drop_last(), k);
        crate::text::lemma_split_char_len(s.drop_last(), '/');
        if k < s.len() - 1 {
            lemma_split_two(s.drop_last(), k);
        }
        assert(s.drop_last().take(k) =~= s.take(k));
        if k == s.len() - 1 {
        } else {
            assert(s.drop_last()[k] == s[k]);
        }
    } else {
        assert(!s.contains('/')) by {
            if s.contains('/') {
                let j = choose|j: int| 0 <= j < s.len() && s[j] == '/';
                assert(s[j] != '/');
            }
        }
        crate::text::lemma_split_char_word(s, '/');
        assert(s.take(k) =~= s);
    }
}

/// A text with a `/` splits into two pieces or more.
proof fn lemma_split_two(s: Seq<char>, k: int)
    requires
        0 <= k < s.len(),
        s[k] == '/',
    ensures
        crate::text::split_char(s, '/').len() >= 2,
    decreases s.len(),
{
    crate::text::lemma_split_char_len(s.drop_last(), '/');
    if k < s.len() - 1 {
        lemma_split_two(s.drop_last(), k);
    }
}

/// `components_le(a, b)` computed.
pub fn components_le_exec(a: &Vec<Vec<char>>, b: &Vec<Vec<char>>) -> (r: bool)
    ensures
        r == components_le(a.deep_view(), b.deep_view()),
{
    let ghost av = a.deep_view();
    let ghost bv = b.deep_view();
    let mut i: usize = 0;
    assert(av.skip(0) =~= av);
    assert(bv.skip(0) =~= bv);
    while i < a.len() && i < b.len() && chars_eq(&a[i], &b[i])
        invariant
            i <= a.len(),
            i <= b.len(),
            av == a.deep_view(),
            bv == b.deep_view(),
            components_le(av, bv) == components_le(av.skip(i as int), bv.skip(i as int)),
        decreases a.len() - i,
    {
        assert(av[i as int] == a@[i as int]@);
        assert(bv[i as int] == b@[i as int]@);
        assert(av.skip(i as int)[0] == av[i as int]);
        assert(bv.skip(i as int)[0] == bv[i as int]);
        assert(av.skip(i as int).drop_first() =~= av.skip(i + 1));
        assert(bv.skip(i as int).drop_first() =~= bv.skip(i + 1));
        i += 1;
    }
    if i == a.len() {
        true
    } else if i == b.len() {
        false
    } else {
        assert(av[i as int] == a@[i as int]@);
        assert(bv[i as int] == b@[i as int]@);
        assert(av.skip(i as int)[0] == av[i as int]);
        assert(bv.skip(i as int)[0] == bv[i as int]);
        crate::text::chars_lt(&a[i], &b[i])
    }
}

/// `path_le(a@, b@)` computed.
pub fn path_le_exec(a: &str, b: &str) -> (r: bool)
    ensures
        r == path_le(a@, b@),
{
    let x = path_components_chars(&to_chars(a));
    let y = path_components_chars(&to_chars(b));
    components_le_exec(&x, &y)
}

} // verus!
