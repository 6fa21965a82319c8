//! Character-level text helpers with exact specifications over `Seq<char>`.
use vstd::prelude::*;
use vstd::std_specs::iter::IteratorSpec;

verus! {

/// Appends one character to a `String` (std's `String::push`).
#[verifier::external_body]
fn push_char(s: &mut String, c: char)
    ensures
        final(s)@ == old(s)@.push(c),
{
    s.push(c);
}

/// The characters of `s`, in order.
pub fn to_chars(s: &str) -> (r: Vec<char>)
    ensures
        r@ == s@,
{
    broadcast use vstd::string::axiom_spec_iter, vstd::string::next_postcondition;
    let mut out: Vec<char> = Vec::new();
    let mut chars = s.chars();
    loop
        invariant
            out@ + chars.remaining() == s@,
        ensures
            out@ == s@,
        decreases s@.len() - out@.len(),
    {
        match chars.next() {
            Some(c) => {
                out.push(c);
            },
            None => {
                assert(out@ =~= s@);
                break ;
            },
        }
    }
    out
}

/// A `String` holding exactly the characters of `v`.
pub fn from_chars(v: &Vec<char>) -> (r: String)
    ensures
        r@ == v@,
{
    let mut out = String::new();
    let mut i: usize = 0;
    while i < v.len()
        invariant
            i <= v.len(),
            out@ == v@.take(i as int),
        decreases v.len() - i,
    {
        push_char(&mut out, v[i]);
        assert(v@.take(i as int).push(v@[i as int]) =~= v@.take(i + 1));
        i += 1;
    }
    assert(v@.take(v.len() as int) =~= v@);
    out
}

} // verus!

verus! {

broadcast use crate::views::lemma_char_vec_deep_view;

// ---------------------------------------------------------------------------
// Whitespace and trimming
// ---------------------------------------------------------------------------

/// Unicode `White_Space`, the set that `char::is_whitespace` tests.
pub open spec fn is_ws(c: char) -> bool {
    let u = c as u32;
    ||| 0x09 <= u <= 0x0D
    ||| u == 0x20
    ||| u == 0x85
    ||| u == 0xA0
    ||| u == 0x1680
    ||| 0x2000 <= u <= 0x200A
    ||| u == 0x2028
    ||| u == 0x2029
    ||| u == 0x202F
    ||| u == 0x205F
    ||| u == 0x3000
}

/// `s` without its leading whitespace.
pub open spec fn trim_start(s: Seq<char>) -> Seq<char>
    decreases s.len(),
{
    if s.len() > 0 && is_ws(s[0]) {
        trim_start(s.drop_first())
    } else {
        s
    }
}

/// `s` without its trailing whitespace.
pub open spec fn trim_end(s: Seq<char>) -> Seq<char>
    decreases s.len(),
{
    if s.len() > 0 && is_ws(s.last()) {
        trim_end(s.drop_last())
    } else {
        s
    }
}

/// `s` without leading and trailing whitespace.
pub open spec fn trim(s: Seq<char>) -> Seq<char> {
    trim_end(trim_start(s))
}

/// `s` with every leading copy of the non-empty `pat` removed.
pub open spec fn trim_start_matches(s: Seq<char>, pat: Seq<char>) -> Seq<char>
    decreases s.len(),
{
    if pat.len() > 0 && pat.is_prefix_of(s) {
        trim_start_matches(s.skip(pat.len() as int), pat)
    } else {
        s
    }
}

/// `s` with every trailing copy of the non-empty `pat` removed.
pub open spec fn trim_end_matches(s: Seq<char>, pat: Seq<char>) -> Seq<char>
    decreases s.len(),
{
    if pat.len() > 0 && pat.is_suffix_of(s) {
        trim_end_matches(s.take(s.len() - pat.len()), pat)
    } else {
        s
    }
}

pub fn is_ws_char(c: char) -> (r: bool)
    ensures
        r == is_ws(c),
{
    let u = c as u32;
    (0x09 <= u && u <= 0x0D) || u == 0x20 || u == 0x85 || u == 0xA0 || u == 0x1680 || (0x2000
        <= u && u <= 0x200A) || u == 0x2028 || u == 0x2029 || u == 0x202F || u == 0x205F || u
        == 0x3000
}

/// A copy of `s[from..to]`.
pub fn slice(s: &Vec<char>, from: usize, to: usize) -> (r: Vec<char>)
    requires
        from <= to <= s.len(),
    ensures
        r@ == s@.subrange(from as int, to as int),
{
    let mut out: Vec<char> = Vec::new();
    let mut i = from;
    while i < to
        invariant
            from <= i <= to <= s.len(),
            out@ == s@.subrange(from as int, i as int),
        decreases to - i,
    {
        out.push(s[i]);
        assert(s@.subrange(from as int, i as int).push(s@[i as int]) =~= s@.subrange(
            from as int,
            i + 1,
        ));
        i += 1;
    }
    out
}

/// Appends the characters of `x` to `out`.
pub fn push_all(out: &mut Vec<char>, x: &Vec<char>)
    ensures
        final(out)@ == old(out)@ + x@,
{
    let ghost start = out@;
    let mut i: usize = 0;
    while i < x.len()
        invariant
            i <= x.len(),
            out@ == start + x@.take(i as int),
        decreases x.len() - i,
    {
        out.push(x[i]);
        assert(start + x@.take(i as int).push(x@[i as int]) =~= start + x@.take(i + 1));
        i += 1;
    }
    assert(x@.take(x.len() as int) =~= x@);
}

/// Appends the characters of `x` to `out`.
pub fn push_str(out: &mut Vec<char>, x: &str)
    ensures
        final(out)@ == old(out)@ + x@,
{
    let v = to_chars(x);
    push_all(out, &v);
}

/// The concatenation `a + b`.
pub fn concat(a: &Vec<char>, b: &Vec<char>) -> (r: Vec<char>)
    ensures
        r@ == a@ + b@,
{
    let mut out = a.clone();
    assert(out@ == a@);
    push_all(&mut out, b);
    out
}

pub fn chars_eq(a: &Vec<char>, b: &Vec<char>) -> (r: bool)
    ensures
        r == (a@ == b@),
{
    if a.len() != b.len() {
        return false;
    }
    let mut i: usize = 0;
    while i < a.len()
        invariant
            a.len() == b.len(),
            i <= a.len(),
            a@.take(i as int) == b@.take(i as int),
        decreases a.len() - i,
    {
        if a[i] != b[i] {
            return false;
        }
        assert(a@.take(i + 1) =~= a@.take(i as int).push(a@[i as int]));
        assert(b@.take(i + 1) =~= b@.take(i as int).push(b@[i as int]));
        i += 1;
    }
    assert(a@.take(a.len() as int) =~= a@);
    assert(b@.take(b.len() as int) =~= b@);
    true
}

/// Whether `s` begins with `p`.
pub fn starts_with(s: &Vec<char>, p: &Vec<char>) -> (r: bool)
    ensures
        r == p@.is_prefix_of(s@),
{
    if p.len() > s.len() {
        return false;
    }
    let mut i: usize = 0;
    while i < p.len()
        invariant
            p.len() <= s.len(),
            i <= p.len(),
            forall|j: int| 0 <= j < i ==> p@[j] == s@[j],
        decreases p.len() - i,
    {
        if p[i] != s[i] {
            return false;
        }
        i += 1;
    }
    true
}

/// Whether `s` ends with `p`.
pub fn ends_with(s: &Vec<char>, p: &Vec<char>) -> (r: bool)
    ensures
        r == p@.is_suffix_of(s@),
{
    if p.len() > s.len() {
        return false;
    }
    let off = s.len() - p.len();
    let mut i: usize = 0;
    while i < p.len()
        invariant
            p.len() <= s.len(),
            off == s.len() - p.len(),
            i <= p.len(),
            forall|j: int| 0 <= j < i ==> p@[j] == s@[off + j],
        decreases p.len() - i,
    {
        if p[i] != s[off + i] {
            return false;
        }
        i += 1;
    }
    true
}

/// `s` without leading whitespace.
pub fn trim_start_chars(s: &Vec<char>) -> (r: Vec<char>)
    ensures
        r@ == trim_start(s@),
{
    let mut i: usize = 0;
    assert(s@.skip(0) =~= s@);
    while i < s.len() && is_ws_char(s[i])
        invariant
            i <= s.len(),
            trim_start(s@) == trim_start(s@.skip(i as int)),
        decreases s.len() - i,
    {
        assert(s@.skip(i as int).drop_first() =~= s@.skip(i + 1));
        i += 1;
    }
    slice(s, i, s.len())
}

/// `s` without trailing whitespace.
pub fn trim_end_chars(s: &Vec<char>) -> (r: Vec<char>)
    ensures
        r@ == trim_end(s@),
{
    let mut n: usize = s.len();
    assert(s@.take(n as int) =~= s@);
    while n > 0 && is_ws_char(s[n - 1])
        invariant
            n <= s.len(),
            trim_end(s@) == trim_end(s@.take(n as int)),
        decreases n,
    {
        assert(s@.take(n as int).drop_last() =~= s@.take(n - 1));
        n -= 1;
    }
    assert(s@.take(n as int) =~= s@.subrange(0, n as int));
    slice(s, 0, n)
}

/// `s` without leading and trailing whitespace.
pub fn trim_chars(s: &Vec<char>) -> (r: Vec<char>)
    ensures
        r@ == trim(s@),
{
    let a = trim_start_chars(s);
    trim_end_chars(&a)
}

/// `s` with every leading copy of `pat` removed.
pub fn trim_start_matches_chars(s: &Vec<char>, pat: &Vec<char>) -> (r: Vec<char>)
    ensures
        r@ == trim_start_matches(s@, pat@),
{
    if pat.len() == 0 {
        return s.clone();
    }
    let mut cur = s.clone();
    loop
        invariant
            pat@.len() > 0,
            trim_start_matches(s@, pat@) == trim_start_matches(cur@, pat@),
        ensures
            cur@ == trim_start_matches(s@, pat@),
        decreases cur@.len(),
    {
        if starts_with(&cur, pat) {
            cur = slice(&cur, pat.len(), cur.len());
        } else {
            break;
        }
    }
    cur
}

/// `s` with every trailing copy of `pat` removed.
pub fn trim_end_matches_chars(s: &Vec<char>, pat: &Vec<char>) -> (r: Vec<char>)
    ensures
        r@ == trim_end_matches(s@, pat@),
{
    if pat.len() == 0 {
        return s.clone();
    }
    let mut cur = s.clone();
    loop
        invariant
            pat@.len() > 0,
            trim_end_matches(s@, pat@) == trim_end_matches(cur@, pat@),
        ensures
            cur@ == trim_end_matches(s@, pat@),
        decreases cur@.len(),
    {
        if ends_with(&cur, pat) {
            let n = cur.len() - pat.len();
            assert(cur@.take(n as int) =~= cur@.subrange(0, n as int));
            cur = slice(&cur, 0, n);
        } else {
            break;
        }
    }
    cur
}

} // verus!

verus! {


// ---------------------------------------------------------------------------
// Lines and joining
// ---------------------------------------------------------------------------

/// The pieces of `s` between occurrences of `sep` (`str::split` with a
/// character): always at least one piece.
pub open spec fn split_char(s: Seq<char>, sep: char) -> Seq<Seq<char>>
    decreases s.len(),
{
    if s.len() == 0 {
        seq![Seq::<char>::empty()]
    } else {
        let prev = split_char(s.drop_last(), sep);
        if s.last() == sep {
            prev.push(Seq::<char>::empty())
        } else {
            prev.update(prev.len() - 1, prev.last().push(s.last()))
        }
    }
}

pub proof fn lemma_split_char_len(s: Seq<char>, sep: char)
    ensures
        split_char(s, sep).len() >= 1,
    decreases s.len(),
{
    if s.len() > 0 {
        lemma_split_char_len(s.drop_last(), sep);
    }
}

/// Splitting `a`, the separator and a piece `b` without separators adds `b`
/// as the last piece.
pub proof fn lemma_split_char_append(a: Seq<char>, b: Seq<char>, sep: char)
    requires
        !b.contains(sep),
    ensures
        split_char(a + seq![sep] + b, sep) == split_char(a, sep).push(b),
    decreases b.len(),
{
    let s = a + seq![sep] + b;
    if b.len() == 0 {
        assert(s.drop_last() =~= a);
        assert(b =~= Seq::<char>::empty());
    } else {
        let b0 = b.drop_last();
        assert(!b0.contains(sep)) by {
            if b0.contains(sep) {
                let k = choose|k: int| 0 <= k < b0.len() && b0[k] == sep;
                assert(b[k] == sep);
            }
        }
        lemma_split_char_append(a, b0, sep);
        assert(s.drop_last() =~= a + seq![sep] + b0);
        assert(s.last() == b.last());
        assert(b.last() != sep) by {
            assert(b[b.len() - 1] == b.last());
        }
        assert(b0.push(b.last()) =~= b);
        assert(split_char(s, sep) =~= split_char(a, sep).push(b));
    }
}

/// A piece without separators splits into itself.
pub proof fn lemma_split_char_word(w: Seq<char>, sep: char)
    requires
        !w.contains(sep),
    ensures
        split_char(w, sep) == seq![w],
    decreases w.len(),
{
    if w.len() > 0 {
        let w0 = w.drop_last();
        assert(!w0.contains(sep)) by {
            if w0.contains(sep) {
                let k = choose|k: int| 0 <= k < w0.len() && w0[k] == sep;
                assert(w[k] == sep);
            }
        }
        lemma_split_char_word(w0, sep);
        assert(w.last() != sep) by {
            assert(w[w.len() - 1] == w.last());
        }
        assert(w0.push(w.last()) =~= w);
        assert(split_char(w, sep) =~= seq![w]);
    } else {
        assert(w =~= Seq::<char>::empty());
    }
}

/// Splitting the pieces joined by the separator gives the pieces back, when
/// there is at least one and none holds the separator.
pub proof fn lemma_split_join(ls: Seq<Seq<char>>, sep: char)
    requires
        ls.len() > 0,
        forall|k: int| 0 <= k < ls.len() ==> !(#[trigger] ls[k]).contains(sep),
    ensures
        split_char(join(ls, seq![sep]), sep) == ls,
    decreases ls.len(),
{
    if ls.len() == 1 {
        lemma_split_char_word(ls[0], sep);
        assert(seq![ls[0]] =~= ls);
    } else {
        let d = ls.drop_last();
        assert forall|k: int| 0 <= k < d.len() implies !(#[trigger] d[k]).contains(sep) by {
            assert(d[k] == ls[k]);
        }
        lemma_split_join(d, sep);
        assert(!ls.last().contains(sep)) by {
            assert(ls[ls.len() - 1] == ls.last());
        }
        lemma_split_char_append(join(d, seq![sep]), ls.last(), sep);
        assert(d.push(ls.last()) =~= ls);
    }
}

/// No piece of a split holds the separator, nor a character that the text
/// does not hold.
pub proof fn lemma_split_char_pieces(s: Seq<char>, sep: char, c: char)
    ensures
        forall|k: int| 0 <= k < split_char(s, sep).len() ==> !(#[trigger] split_char(s, sep)[k]).contains(sep),
        !s.contains(c) ==> forall|k: int|
            0 <= k < split_char(s, sep).len() ==> !(#[trigger] split_char(s, sep)[k]).contains(c),
    decreases s.len(),
{
    if s.len() > 0 {
        let s0 = s.drop_last();
        lemma_split_char_pieces(s0, sep, c);
        lemma_split_char_len(s0, sep);
        assert(!s.contains(c) ==> !s0.contains(c)) by {
            if !s.contains(c) && s0.contains(c) {
                let k = choose|k: int| 0 <= k < s0.len() && s0[k] == c;
                assert(s[k] == c);
            }
        }
        let prev = split_char(s0, sep);
        let cur = split_char(s, sep);
        let x = s.last();
        assert(x == s[s.len() - 1]);
        if x != sep {
            let lp = prev.last().push(x);
            assert(!lp.contains(sep)) by {
                if lp.contains(sep) {
                    let k = choose|k: int| 0 <= k < lp.len() && lp[k] == sep;
                    if k < prev.last().len() {
                        assert(prev[prev.len() - 1][k] == sep);
                    }
                }
            }
            assert(!s.contains(c) ==> !lp.contains(c)) by {
                if !s.contains(c) && lp.contains(c) {
                    let k = choose|k: int| 0 <= k < lp.len() && lp[k] == c;
                    if k < prev.last().len() {
                        assert(prev[prev.len() - 1][k] == c);
                    }
                }
            }
            assert forall|k: int| 0 <= k < cur.len() implies !(#[trigger] cur[k]).contains(sep) by {
                if k < cur.len() - 1 {
                    assert(cur[k] == prev[k]);
                }
            }
            if !s.contains(c) {
                assert forall|k: int| 0 <= k < cur.len() implies !(#[trigger] cur[k]).contains(c) by {
                    if k < cur.len() - 1 {
                        assert(cur[k] == prev[k]);
                    }
                }
            }
        } else {
            assert forall|k: int| 0 <= k < cur.len() implies !(#[trigger] cur[k]).contains(sep) by {
                if k < cur.len() - 1 {
                    assert(cur[k] == prev[k]);
                }
            }
            if !s.contains(c) {
                assert forall|k: int| 0 <= k < cur.len() implies !(#[trigger] cur[k]).contains(c) by {
                    if k < cur.len() - 1 {
                        assert(cur[k] == prev[k]);
                    }
                }
            }
        }
    }
}

/// A text with a separator splits into two pieces or more.
pub proof fn lemma_split_char_two(s: Seq<char>, sep: char, k: int)
    requires
        0 <= k < s.len(),
        s[k] == sep,
    ensures
        split_char(s, sep).len() >= 2,
    decreases s.len(),
{
    lemma_split_char_len(s.drop_last(), sep);
    if k < s.len() - 1 {
        lemma_split_char_two(s.drop_last(), sep, k);
    }
}

/// The first piece of a split is the text up to the first separator.
pub proof fn lemma_split_char_first(s: Seq<char>, sep: char, k: int)
    requires
        0 <= k <= s.len(),
        forall|j: int| 0 <= j < k ==> s[j] != sep,
        k == s.len() || s[k] == sep,
    ensures
        split_char(s, sep).len() > 0,
        split_char(s, sep)[0] == s.take(k),
    decreases s.len(),
{
    lemma_split_char_len(s, sep);
    if s.len() > k {
        lemma_split_char_first(s.drop_last(), sep, k);
        lemma_split_char_len(s.drop_last(), sep);
        if k < s.len() - 1 {
            lemma_split_char_two(s.drop_last(), sep, k);
            assert(s.drop_last()[k] == s[k]);
        }
        assert(s.drop_last().take(k) =~= s.take(k));
    } else {
        assert(!s.contains(sep)) by {
            if s.contains(sep) {
                let j = choose|j: int| 0 <= j < s.len() && s[j] == sep;
                assert(s[j] != sep);
            }
        }
        lemma_split_char_word(s, sep);
        assert(s.take(k) =~= s);
    }
}

/// A line without the carriage return of a `\r\n` ending.
pub open spec fn strip_cr(l: Seq<char>) -> Seq<char> {
    if l.len() > 0 && l.last() == '\r' {
        l.drop_last()
    } else {
        l
    }
}

/// The lines of `s` as `str::lines` yields them: split at `\n`, a `\r` before
/// the `\n` dropped, and no empty last line after a final `\n`.
pub open spec fn lines(s: Seq<char>) -> Seq<Seq<char>> {
    if s.len() == 0 {
        Seq::empty()
    } else {
        let segs = split_char(s, '\n');
        let body = segs.drop_last().map_values(|l: Seq<char>| strip_cr(l));
        if s.last() == '\n' {
            body
        } else {
            body.push(segs.last())
        }
    }
}

/// The pieces of `parts` with `sep` between each neighbouring pair.
pub open spec fn join(parts: Seq<Seq<char>>, sep: Seq<char>) -> Seq<char>
    decreases parts.len(),
{
    if parts.len() == 0 {
        Seq::empty()
    } else if parts.len() == 1 {
        parts[0]
    } else {
        join(parts.drop_last(), sep) + sep + parts.last()
    }
}

/// `lines(s)` as vectors of characters.
pub fn split_lines(s: &Vec<char>) -> (r: Vec<Vec<char>>)
    ensures
        r.deep_view() == lines(s@),
{
    let mut done: Vec<Vec<char>> = Vec::new();
    let ghost mut raw: Seq<Seq<char>> = Seq::empty();
    let mut cur: Vec<char> = Vec::new();
    let mut i: usize = 0;
    while i < s.len()
        invariant
            i <= s.len(),
            split_char(s@.take(i as int), '\n') == raw.push(cur@),
            done.deep_view() == raw.map_values(|l: Seq<char>| strip_cr(l)),
        decreases s.len() - i,
    {
        let c = s[i];
        assert(s@.take(i + 1).drop_last() =~= s@.take(i as int));
        if c == '\n' {
            let stripped = if cur.len() > 0 && cur[cur.len() - 1] == '\r' {
                slice(&cur, 0, cur.len() - 1)
            } else {
                cur.clone()
            };
            assert(stripped@ =~= strip_cr(cur@));
            let ghost old_dv = done.deep_view();
            proof {
                raw = raw.push(cur@);
            }
            done.push(stripped);
            assert(done.deep_view() =~= old_dv.push(stripped@)) by {
                assert forall|k: int| 0 <= k < done.len() implies done.deep_view()[k]
                    == old_dv.push(stripped@)[k] by {
                }
            }
            assert(done.deep_view() =~= raw.map_values(|l: Seq<char>| strip_cr(l)));
            cur = Vec::new();
            assert(split_char(s@.take(i + 1), '\n') =~= raw.push(cur@));
        } else {
            cur.push(c);
            assert(split_char(s@.take(i + 1), '\n') =~= raw.push(cur@));
        }
        i += 1;
    }
    assert(s@.take(s.len() as int) =~= s@);
    if s.len() == 0 {
        assert(done.deep_view() =~= lines(s@));
        return done;
    }
    let ghost segs = split_char(s@, '\n');
    assert(segs.drop_last() =~= raw);
    if s[s.len() - 1] == '\n' {
        done
    } else {
        let ghost old_dv = done.deep_view();
        let ghost cv = cur@;
        done.push(cur);
        assert(done.deep_view() =~= old_dv.push(cv)) by {
            assert forall|k: int| 0 <= k < done.len() implies done.deep_view()[k] == old_dv.push(
                cv,
            )[k] by {}
        }
        assert(done.deep_view() =~= lines(s@));
        done
    }
}

/// `join(parts, sep)`.
pub fn join_chars(parts: &Vec<Vec<char>>, sep: &Vec<char>) -> (r: Vec<char>)
    ensures
        r@ == join(parts.deep_view(), sep@),
{
    let mut out: Vec<char> = Vec::new();
    let mut i: usize = 0;
    while i < parts.len()
        invariant
            i <= parts.len(),
            out@ == join(parts.deep_view().take(i as int), sep@),
        decreases parts.len() - i,
    {
        let ghost pre = parts.deep_view().take(i as int);
        let ghost post = parts.deep_view().take(i + 1);
        assert(post.drop_last() =~= pre);
        if i > 0 {
            push_all(&mut out, sep);
        } else {
            assert(pre.len() == 0);
        }
        push_all(&mut out, &parts[i]);
        i += 1;
    }
    assert(parts.deep_view().take(parts.len() as int) =~= parts.deep_view());
    out
}

// ---------------------------------------------------------------------------
// Searching
// ---------------------------------------------------------------------------

/// Index of the first occurrence of `p` in `s` (`str::find`).
pub open spec fn find(s: Seq<char>, p: Seq<char>) -> Option<int>
    decreases s.len(),
{
    if p.is_prefix_of(s) {
        Some(0)
    } else if s.len() == 0 {
        None
    } else {
        match find(s.drop_first(), p) {
            Some(i) => Some(i + 1),
            None => None,
        }
    }
}

/// Index of the last occurrence of `p` in `s` (`str::rfind`).
pub open spec fn rfind(s: Seq<char>, p: Seq<char>) -> Option<int>
    decreases s.len(),
{
    if p.is_suffix_of(s) {
        Some(s.len() - p.len())
    } else if s.len() == 0 {
        None
    } else {
        rfind(s.drop_last(), p)
    }
}

/// `p` occurs in `s` starting at `i`.
pub open spec fn occurs_at(s: Seq<char>, p: Seq<char>, i: int) -> bool {
    0 <= i && i + p.len() <= s.len() && s.subrange(i, i + p.len()) == p
}

pub proof fn lemma_find(s: Seq<char>, p: Seq<char>)
    ensures
        find(s, p) matches Some(i) ==> occurs_at(s, p, i) && forall|j: int|
            0 <= j < i ==> !occurs_at(s, p, j),
        find(s, p) is None ==> forall|j: int| !occurs_at(s, p, j),
    decreases s.len(),
{
    if p.is_prefix_of(s) {
        assert(s.subrange(0, p.len() as int) =~= p);
    } else if s.len() == 0 {
        assert forall|j: int| !occurs_at(s, p, j) by {
            if occurs_at(s, p, j) {
                assert(s.subrange(j, j + p.len()) =~= p);
                assert(p.len() == 0);
            }
        }
    } else {
        lemma_find(s.drop_first(), p);
        assert(!occurs_at(s, p, 0)) by {
            if occurs_at(s, p, 0) {
                assert(p.is_prefix_of(s)) by {
                    assert forall|k: int| 0 <= k < p.len() implies p[k] == s[k] by {
                        assert(s.subrange(0, p.len() as int)[k] == s[k]);
                    }
                }
            }
        }
        assert forall|j: int| 1 <= j implies occurs_at(s, p, j) == occurs_at(
            s.drop_first(),
            p,
            j - 1,
        ) by {
            if 0 <= j - 1 && j - 1 + p.len() <= s.drop_first().len() {
                assert(s.subrange(j, j + p.len()) =~= s.drop_first().subrange(j - 1, j - 1 + p.len()));
            }
        }
        if let Some(i) = find(s, p) {
            assert forall|j: int| 0 <= j < i implies !occurs_at(s, p, j) by {
                if j >= 1 {
                    assert(!occurs_at(s.drop_first(), p, j - 1));
                }
            }
        } else {
            assert forall|j: int| !occurs_at(s, p, j) by {
                if j >= 1 {
                    assert(!occurs_at(s.drop_first(), p, j - 1));
                }
            }
        }
    }
}

pub proof fn lemma_rfind(s: Seq<char>, p: Seq<char>)
    ensures
        rfind(s, p) matches Some(i) ==> occurs_at(s, p, i) && forall|j: int|
            i < j ==> !occurs_at(s, p, j),
        rfind(s, p) is None ==> forall|j: int| !occurs_at(s, p, j),
    decreases s.len(),
{
    if p.is_suffix_of(s) {
        assert(s.subrange(s.len() - p.len(), s.len() as int) =~= p);
        assert forall|j: int| s.len() - p.len() < j implies !occurs_at(s, p, j) by {}
    } else if s.len() == 0 {
        assert forall|j: int| !occurs_at(s, p, j) by {
            if occurs_at(s, p, j) {
                assert(p.len() == 0);
                assert(p.is_suffix_of(s));
            }
        }
    } else {
        lemma_rfind(s.drop_last(), p);
        let n = s.len() as int;
        assert(!occurs_at(s, p, n - p.len())) by {
            if occurs_at(s, p, n - p.len()) {
                assert forall|k: int| 0 <= k < p.len() implies p[k] == s[n - p.len() + k] by {
                    assert(s.subrange(n - p.len(), n)[k] == s[n - p.len() + k]);
                }
            }
        }
        assert forall|j: int| j + p.len() < n implies occurs_at(s, p, j) == occurs_at(
            s.drop_last(),
            p,
            j,
        ) by {
            if 0 <= j {
                assert(s.subrange(j, j + p.len()) =~= s.drop_last().subrange(j, j + p.len()));
            }
        }
    }
}

/// `find(s@, p@)` computed.
pub fn find_chars(s: &Vec<char>, p: &Vec<char>) -> (r: Option<usize>)
    ensures
        r matches Some(i) ==> find(s@, p@) == Some(i as int),
        r is None ==> find(s@, p@) is None,
{
    let mut i: usize = 0;
    assert(s@.skip(0) =~= s@);
    while i <= s.len()
        invariant
            i <= s.len() + 1,
            i <= s.len() ==> find(s@, p@) == (match find(s@.skip(i as int), p@) {
                Some(k) => Some(k + i),
                None => None,
            }),
            i > s.len() ==> find(s@, p@) is None,
        decreases s.len() + 1 - i,
    {
        let rest = slice(s, i, s.len());
        assert(rest@ =~= s@.skip(i as int));
        if starts_with(&rest, p) {
            return Some(i);
        }
        if i == s.len() {
            return None;
        }
        assert(s@.skip(i as int).drop_first() =~= s@.skip(i + 1));
        i += 1;
    }
    None
}

/// `rfind(s@, p@)` computed.
pub fn rfind_chars(s: &Vec<char>, p: &Vec<char>) -> (r: Option<usize>)
    ensures
        r matches Some(i) ==> rfind(s@, p@) == Some(i as int),
        r is None ==> rfind(s@, p@) is None,
{
    let mut n: usize = s.len();
    assert(s@.take(n as int) =~= s@);
    loop
        invariant
            n <= s.len(),
            rfind(s@, p@) == rfind(s@.take(n as int), p@),
        decreases n,
    {
        let pre = slice(s, 0, n);
        assert(pre@ =~= s@.take(n as int));
        if ends_with(&pre, p) {
            return Some(n - p.len());
        }
        if n == 0 {
            return None;
        }
        assert(s@.take(n as int).drop_last() =~= s@.take(n - 1));
        n -= 1;
    }
}

/// Whether `p` occurs in `s`.
pub fn contains_chars(s: &Vec<char>, p: &Vec<char>) -> (r: bool)
    ensures
        r == find(s@, p@) is Some,
{
    find_chars(s, p).is_some()
}

} // verus!

verus! {


/// Appends `x` to a vector of character vectors.
pub fn push_line(v: &mut Vec<Vec<char>>, x: Vec<char>)
    ensures
        final(v).deep_view() == old(v).deep_view().push(x@),
{
    let ghost old_dv = v.deep_view();
    let ghost xv = x@;
    v.push(x);
    assert(v.deep_view() =~= old_dv.push(xv)) by {
        assert forall|k: int| 0 <= k < v.len() implies v.deep_view()[k] == old_dv.push(xv)[k] by {}
    }
}

/// Appends `x` to a vector of strings.
pub fn push_string(v: &mut Vec<String>, x: String)
    ensures
        final(v).deep_view() == old(v).deep_view().push(x@),
{
    let ghost old_dv = v.deep_view();
    let ghost xv = x@;
    v.push(x);
    assert(v.deep_view() =~= old_dv.push(xv)) by {
        assert forall|k: int| 0 <= k < v.len() implies v.deep_view()[k] == old_dv.push(xv)[k] by {}
    }
}

/// The pieces of `s` between non-overlapping occurrences of the non-empty
/// `pat`, left to right (`str::split` with a string pattern).
pub open spec fn split_str(s: Seq<char>, pat: Seq<char>) -> Seq<Seq<char>>
    recommends
        pat.len() > 0,
    decreases s.len(),
{
    if pat.len() == 0 {
        seq![s]
    } else {
        match find(s, pat) {
            None => seq![s],
            Some(i) => if 0 <= i && i + pat.len() <= s.len() {
                seq![s.take(i)] + split_str(s.skip(i + pat.len()), pat)
            } else {
                seq![s]
            },
        }
    }
}

/// `split_str(s@, pat@)` computed.
pub fn split_str_chars(s: &Vec<char>, pat: &Vec<char>) -> (r: Vec<Vec<char>>)
    requires
        pat.len() > 0,
    ensures
        r.deep_view() == split_str(s@, pat@),
{
    let mut out: Vec<Vec<char>> = Vec::new();
    let mut rest = s.clone();
    loop
        invariant
            pat.len() > 0,
            split_str(s@, pat@) == out.deep_view() + split_str(rest@, pat@),
        ensures
            out.deep_view() == split_str(s@, pat@),
        decreases rest@.len(),
    {
        proof {
            lemma_find(rest@, pat@);
        }
        match find_chars(&rest, pat) {
            None => {
                let ghost rv = rest@;
                push_line(&mut out, rest);
                assert(split_str(rv, pat@) =~= seq![rv]);
                return out;
            },
            Some(i) => {
                let head = slice(&rest, 0, i);
                let tail = slice(&rest, i + pat.len(), rest.len());
                assert(head@ =~= rest@.take(i as int));
                assert(tail@ =~= rest@.skip(i + pat.len()));
                let ghost before = out.deep_view();
                push_line(&mut out, head);
                assert(before + split_str(rest@, pat@) =~= out.deep_view() + split_str(tail@, pat@));
                rest = tail;
            },
        }
    }
}

// ---------------------------------------------------------------------------
// Numbers
// ---------------------------------------------------------------------------

pub open spec fn is_digit(c: char) -> bool {
    '0' <= c <= '9'
}

pub open spec fn all_digits(s: Seq<char>) -> bool {
    forall|i: int| 0 <= i < s.len() ==> is_digit(#[trigger] s[i])
}

/// The number that the decimal digits `s` spell.
pub open spec fn digits_value(s: Seq<char>) -> nat
    decreases s.len(),
{
    if s.len() == 0 {
        0
    } else {
        digits_value(s.drop_last()) * 10 + ((s.last() as nat) - ('0' as nat)) as nat
    }
}

/// What `str::parse::<u8>` gives: an optional `+`, then at least one decimal
/// digit, and a value that fits in a `u8`.
pub open spec fn parse_u8(s: Seq<char>) -> Option<u8> {
    if s.len() == 0 {
        None
    } else {
        let d = if s[0] == '+' {
            s.drop_first()
        } else {
            s
        };
        if d.len() > 0 && all_digits(d) && digits_value(d) <= 255 {
            Some(digits_value(d) as u8)
        } else {
            None
        }
    }
}

proof fn lemma_digits_mono(d: Seq<char>, k: int)
    requires
        all_digits(d),
        0 <= k <= d.len(),
    ensures
        digits_value(d.take(k)) <= digits_value(d),
    decreases d.len(),
{
    if k < d.len() {
        assert(all_digits(d.drop_last()));
        assert(d.drop_last().take(k) =~= d.take(k));
        lemma_digits_mono(d.drop_last(), k);
    } else {
        assert(d.take(k) =~= d);
    }
}

/// `parse_u8(s@)` computed.
pub fn parse_u8_chars(s: &Vec<char>) -> (r: Option<u8>)
    ensures
        r == parse_u8(s@),
{
    if s.len() == 0 {
        return None;
    }
    let start: usize = if s[0] == '+' {
        1
    } else {
        0
    };
    let ghost d = if s@[0] == '+' {
        s@.drop_first()
    } else {
        s@
    };
    assert(d =~= s@.skip(start as int));
    if start == s.len() {
        return None;
    }
    let mut v: u32 = 0;
    let mut i: usize = start;
    while i < s.len()
        invariant
            start <= i <= s.len(),
            s.len() > 0,
            d == (if s@[0] == '+' {
                s@.drop_first()
            } else {
                s@
            }),
            d =~= s@.skip(start as int),
            all_digits(s@.subrange(start as int, i as int)),
            v as nat == digits_value(s@.subrange(start as int, i as int)),
            v <= 255,
        decreases s.len() - i,
    {
        let c = s[i];
        if !('0' <= c && c <= '9') {
            assert(!all_digits(d)) by {
                assert(d[i - start] == c);
            }
            return None;
        }
        let ghost pre = s@.subrange(start as int, i as int);
        let ghost post = s@.subrange(start as int, i + 1);
        assert(post.drop_last() =~= pre);
        assert(all_digits(post));
        v = v * 10 + (c as u32 - '0' as u32);
        if v > 255 {
            proof {
                if all_digits(d) {
                    assert(d.take(i + 1 - start) =~= post);
                    lemma_digits_mono(d, i + 1 - start);
                }
            }
            return None;
        }
        i += 1;
    }
    assert(s@.subrange(start as int, s.len() as int) =~= d);
    Some(v as u8)
}

pub open spec fn digit_char(d: nat) -> char {
    if d == 0 {
        '0'
    } else if d == 1 {
        '1'
    } else if d == 2 {
        '2'
    } else if d == 3 {
        '3'
    } else if d == 4 {
        '4'
    } else if d == 5 {
        '5'
    } else if d == 6 {
        '6'
    } else if d == 7 {
        '7'
    } else if d == 8 {
        '8'
    } else {
        '9'
    }
}

/// The decimal digits of `n`, as `to_string` writes an unsigned integer.
pub open spec fn decimal(n: nat) -> Seq<char>
    decreases n,
{
    if n < 10 {
        seq![digit_char(n)]
    } else {
        decimal(n / 10).push(digit_char(n % 10))
    }
}

fn digit_to_char(d: u64) -> (c: char)
    requires
        d < 10,
    ensures
        c == digit_char(d as nat),
{
    if d == 0 {
        '0'
    } else if d == 1 {
        '1'
    } else if d == 2 {
        '2'
    } else if d == 3 {
        '3'
    } else if d == 4 {
        '4'
    } else if d == 5 {
        '5'
    } else if d == 6 {
        '6'
    } else if d == 7 {
        '7'
    } else if d == 8 {
        '8'
    } else {
        '9'
    }
}

/// `decimal(n)` computed.
pub fn decimal_chars(n: u64) -> (r: Vec<char>)
    ensures
        r@ == decimal(n as nat),
    decreases n,
{
    if n < 10 {
        let mut v = Vec::new();
        v.push(digit_to_char(n));
        assert(v@ =~= decimal(n as nat));
        v
    } else {
        let mut v = decimal_chars(n / 10);
        v.push(digit_to_char(n % 10));
        v
    }
}

// ---------------------------------------------------------------------------
// Ordering of text (the order of `str`'s `Ord`: by code point, then length)
// ---------------------------------------------------------------------------

/// `a` sorts strictly before `b`.
pub open spec fn seq_lt(a: Seq<char>, b: Seq<char>) -> bool
    decreases a.len(),
{
    if a.len() == 0 {
        b.len() > 0
    } else if b.len() == 0 {
        false
    } else if a[0] != b[0] {
        (a[0] as u32) < (b[0] as u32)
    } else {
        seq_lt(a.drop_first(), b.drop_first())
    }
}

pub open spec fn seq_le(a: Seq<char>, b: Seq<char>) -> bool {
    a == b || seq_lt(a, b)
}

pub proof fn lemma_seq_lt_irreflexive(a: Seq<char>)
    ensures
        !seq_lt(a, a),
    decreases a.len(),
{
    if a.len() > 0 {
        lemma_seq_lt_irreflexive(a.drop_first());
    }
}

pub proof fn lemma_char_u32_injective(c: char, d: char)
    ensures
        c != d ==> (c as u32) != (d as u32),
{
    if (c as u32) == (d as u32) {
        vstd::utf8::char_u32_cast(c, c as u32);
        vstd::utf8::char_u32_cast(d, d as u32);
    }
}

pub proof fn lemma_seq_lt_trichotomy(a: Seq<char>, b: Seq<char>)
    ensures
        seq_lt(a, b) || seq_lt(b, a) || a == b,
        !(seq_lt(a, b) && seq_lt(b, a)),
    decreases a.len(),
{
    if a.len() > 0 && b.len() > 0 {
        if a[0] == b[0] {
            lemma_seq_lt_trichotomy(a.drop_first(), b.drop_first());
            if a.drop_first() == b.drop_first() {
                assert(a =~= seq![a[0]] + a.drop_first());
                assert(b =~= seq![b[0]] + b.drop_first());
            }
        } else {
            lemma_char_u32_injective(a[0], b[0]);
        }
    } else if a.len() == 0 && b.len() == 0 {
        assert(a =~= b);
    }
}

pub proof fn lemma_seq_lt_transitive(a: Seq<char>, b: Seq<char>, c: Seq<char>)
    requires
        seq_lt(a, b),
        seq_lt(b, c),
    ensures
        seq_lt(a, c),
    decreases a.len(),
{
    if a.len() > 0 && b.len() > 0 && c.len() > 0 {
        if a[0] == b[0] && b[0] == c[0] {
            lemma_seq_lt_transitive(a.drop_first(), b.drop_first(), c.drop_first());
        }
    }
}

/// `seq_lt(a@, b@)` computed.
pub fn chars_lt(a: &Vec<char>, b: &Vec<char>) -> (r: bool)
    ensures
        r == seq_lt(a@, b@),
{
    let mut i: usize = 0;
    assert(a@.skip(0) =~= a@);
    assert(b@.skip(0) =~= b@);
    while i < a.len() && i < b.len() && a[i] == b[i]
        invariant
            i <= a.len(),
            i <= b.len(),
            seq_lt(a@, b@) == seq_lt(a@.skip(i as int), b@.skip(i as int)),
        decreases a.len() - i,
    {
        assert(a@.skip(i as int).drop_first() =~= a@.skip(i + 1));
        assert(b@.skip(i as int).drop_first() =~= b@.skip(i + 1));
        i += 1;
    }
    assert(a@.skip(i as int).len() == a.len() - i);
    assert(b@.skip(i as int).len() == b.len() - i);
    if i == a.len() {
        i < b.len()
    } else if i == b.len() {
        false
    } else {
        assert(a@.skip(i as int)[0] == a@[i as int]);
        assert(b@.skip(i as int)[0] == b@[i as int]);
        (a[i] as u32) < (b[i] as u32)
    }
}

/// `seq_lt(a@, b@)` for strings.
pub fn str_lt(a: &str, b: &str) -> (r: bool)
    ensures
        r == seq_lt(a@, b@),
{
    let x = to_chars(a);
    let y = to_chars(b);
    chars_lt(&x, &y)
}

/// Whether two strings hold the same text.
pub fn str_eq(a: &str, b: &str) -> (r: bool)
    ensures
        r == (a@ == b@),
{
    let x = to_chars(a);
    let y = to_chars(b);
    chars_eq(&x, &y)
}

/// `seq_le(a@, b@)` computed.
pub fn str_le(a: &str, b: &str) -> (r: bool)
    ensures
        r == seq_le(a@, b@),
{
    str_eq(a, b) || str_lt(a, b)
}

pub proof fn lemma_seq_le_total(a: Seq<char>, b: Seq<char>)
    ensures
        seq_le(a, b) || seq_le(b, a),
{
    lemma_seq_lt_trichotomy(a, b);
}

pub proof fn lemma_seq_le_transitive(a: Seq<char>, b: Seq<char>, c: Seq<char>)
    requires
        seq_le(a, b),
        seq_le(b, c),
    ensures
        seq_le(a, c),
{
    if seq_lt(a, b) && seq_lt(b, c) {
        lemma_seq_lt_transitive(a, b, c);
    }
}

} // verus!

verus! {


/// The characters of each string.
pub fn strings_to_chars(v: &Vec<String>) -> (r: Vec<Vec<char>>)
    ensures
        r.deep_view() == v.deep_view(),
{
    let mut out: Vec<Vec<char>> = Vec::new();
    let mut i: usize = 0;
    while i < v.len()
        invariant
            i <= v.len(),
            out.deep_view() == v.deep_view().take(i as int),
        decreases v.len() - i,
    {
        let c = to_chars(v[i].as_str());
        push_line(&mut out, c);
        assert(v.deep_view().take(i as int).push(v.deep_view()[i as int]) =~= v.deep_view().take(
            i + 1,
        ));
        i += 1;
    }
    assert(v.deep_view().take(v.len() as int) =~= v.deep_view());
    out
}

/// A string for each character vector.
pub fn chars_to_strings(v: &Vec<Vec<char>>) -> (r: Vec<String>)
    ensures
        r.deep_view() == v.deep_view(),
{
    let mut out: Vec<String> = Vec::new();
    let mut i: usize = 0;
    while i < v.len()
        invariant
            i <= v.len(),
            out.deep_view() == v.deep_view().take(i as int),
        decreases v.len() - i,
    {
        let c = from_chars(&v[i]);
        push_string(&mut out, c);
        assert(v.deep_view().take(i as int).push(v.deep_view()[i as int]) =~= v.deep_view().take(
            i + 1,
        ));
        i += 1;
    }
    assert(v.deep_view().take(v.len() as int) =~= v.deep_view());
    out
}

/// A copy of a vector of strings.
pub fn clone_strings(v: &Vec<String>) -> (r: Vec<String>)
    ensures
        r.deep_view() == v.deep_view(),
{
    let c = strings_to_chars(v);
    chars_to_strings(&c)
}

/// A copy of a string.
pub fn clone_string(s: &String) -> (r: String)
    ensures
        r@ == s@,
{
    let c = to_chars(s.as_str());
    from_chars(&c)
}

/// Appends copies of the strings of `xs` to `out`.
pub fn extend_strings(out: &mut Vec<String>, xs: &Vec<String>)
    ensures
        final(out).deep_view() == old(out).deep_view() + xs.deep_view(),
{
    let ghost start = out.deep_view();
    let mut i: usize = 0;
    while i < xs.len()
        invariant
            i <= xs.len(),
            out.deep_view() == start + xs.deep_view().take(i as int),
        decreases xs.len() - i,
    {
        let c = clone_string(&xs[i]);
        push_string(out, c);
        assert(start + xs.deep_view().take(i as int).push(xs.deep_view()[i as int]) =~= start
            + xs.deep_view().take(i + 1));
        i += 1;
    }
    assert(xs.deep_view().take(xs.len() as int) =~= xs.deep_view());
}

/// Whether `v` holds a string equal to `x`.
pub fn strings_contain(v: &Vec<String>, x: &str) -> (r: bool)
    ensures
        r == v.deep_view().contains(x@),
{
    let mut i: usize = 0;
    while i < v.len()
        invariant
            i <= v.len(),
            forall|j: int| 0 <= j < i ==> v.deep_view()[j] != x@,
        decreases v.len() - i,
    {
        if str_eq(v[i].as_str(), x) {
            assert(v.deep_view()[i as int] == x@);
            return true;
        }
        i += 1;
    }
    false
}

} // verus!

verus! {

pub proof fn lemma_trim_end_len(s: Seq<char>)
    ensures
        trim_end(s).len() <= s.len(),
    decreases s.len(),
{
    if s.len() > 0 && is_ws(s.last()) {
        lemma_trim_end_len(s.drop_last());
    }
}

pub proof fn lemma_trim_start_len(s: Seq<char>)
    ensures
        trim_start(s).len() <= s.len(),
    decreases s.len(),
{
    if s.len() > 0 && is_ws(s[0]) {
        lemma_trim_start_len(s.drop_first());
    }
}

} // verus!
