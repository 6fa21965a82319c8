//! The guidance block that `ctx` keeps in `AGENTS.md` files.
use vstd::prelude::*;
use crate::text::{
    find, find_chars, from_chars, lemma_find, occurs_at, push_all, push_str, slice, to_chars, trim,
    trim_chars, trim_start_matches, trim_start_matches_chars,
};

verus! {

pub const START_MARKER: &'static str = "<!-- ctx-guidance:start -->";

pub const END_MARKER: &'static str = "<!-- ctx-guidance:end -->";

pub const GUIDANCE: &'static str = "ctx guidance

- .context/ is managed by ctx.
- Do not directly edit .context documents except for recovery or repair work.
- Use ctx assemble before relevant work.
- Use ctx new, ctx append, and ctx supersede for context updates.
- Capture enough detail that a later agent can act without another interview.
- Prefer semantic coverage over verbosity.
- For each concern, try to record: the current claim, why it is true, what it depends on, what it excludes, and what would cause it to be superseded.
- Include decisions, assumptions, constraints, tradeoffs, and concrete examples when they remove ambiguity.
- Do not overfit the context to incidental implementation details that will churn quickly.
- Run ctx check after context changes.
- Respect .contextignore when deciding what belongs in managed context.
";

/// The guidance text for agents.
pub fn guidance_text() -> (r: &'static str)
    ensures
        r@ == GUIDANCE@,
{
    GUIDANCE
}

/// The guidance between the start and end markers, under a `## ctx` heading.
pub open spec fn spec_guidance_block(guidance: Seq<char>) -> Seq<char> {
    START_MARKER@ + "\n## ctx\n\n"@ + guidance + END_MARKER@ + seq!['\n']
}

pub fn guidance_block(guidance: &str) -> (r: String)
    ensures
        r@ == spec_guidance_block(guidance@),
{
    let mut out: Vec<char> = Vec::new();
    push_str(&mut out, START_MARKER);
    push_str(&mut out, "\n## ctx\n\n");
    push_str(&mut out, guidance);
    push_str(&mut out, END_MARKER);
    out.push('\n');
    from_chars(&out)
}

/// An existing block without its end marker.
#[derive(Clone, Debug)]
pub enum GuidanceError {
    MissingEndMarker { path: String },
}

impl GuidanceError {
    pub fn message(&self) -> (r: String)
        ensures
            self matches GuidanceError::MissingEndMarker { path } ==> r@
                == "missing closing ctx guidance marker in "@ + path@,
    {
        match self {
            GuidanceError::MissingEndMarker { path } => {
                let mut out = to_chars("missing closing ctx guidance marker in ");
                push_str(&mut out, path.as_str());
                proof {
                    reveal_strlit("missing closing ctx guidance marker in ");
                }
                from_chars(&out)
            },
        }
    }
}

/// `s` followed by a newline unless it is empty or ends in one.
pub open spec fn ensure_newline(s: Seq<char>) -> Seq<char> {
    if s.len() > 0 && s.last() != '\n' {
        s.push('\n')
    } else {
        s
    }
}

/// The text of a file after putting `block` in it: in place of an existing
/// block (text after it kept, separated by one newline), as the whole file
/// when it is blank, or after a blank line at its end. `None` when a block
/// starts but its end marker is missing.
pub open spec fn spec_merge_guidance(content: Seq<char>, block: Seq<char>) -> Option<Seq<char>> {
    match find(content, START_MARKER@) {
        Some(start) => match find(content, END_MARKER@) {
            None => None,
            Some(end) => {
                let end_index = end + END_MARKER@.len();
                let merged = ensure_newline(content.take(start)) + block;
                let tail = if end_index < content.len() {
                    let suffix = trim_start_matches(content.skip(end_index), seq!['\n']);
                    if suffix.len() > 0 {
                        ensure_newline(seq!['\n'] + suffix)
                    } else {
                        Seq::empty()
                    }
                } else {
                    Seq::empty()
                };
                Some(merged + tail)
            },
        },
        None => if trim(content).len() == 0 {
            Some(block)
        } else {
            Some(ensure_newline(content) + seq!['\n'] + block)
        },
    }
}

fn push_newline_if_needed(out: &mut Vec<char>)
    ensures
        final(out)@ == ensure_newline(old(out)@),
{
    if out.len() > 0 && out[out.len() - 1] != '\n' {
        out.push('\n');
    }
}

/// Puts the guidance `block` into the text of the file at `path`.
pub fn merge_guidance_block(path: &str, content: &str, block: &str) -> (r: Result<String, GuidanceError>)
    ensures
        r is Err <==> spec_merge_guidance(content@, block@) is None,
        r matches Ok(t) ==> spec_merge_guidance(content@, block@) == Some(t@),
        r matches Err(e) ==> (e matches GuidanceError::MissingEndMarker { path: p } && p@ == path@),
{
    let c = to_chars(content);
    let start_m = to_chars(START_MARKER);
    let end_m = to_chars(END_MARKER);
    let b = to_chars(block);
    proof {
        lemma_find(c@, start_m@);
        lemma_find(c@, end_m@);
    }
    match find_chars(&c, &start_m) {
        Some(start) => {
            let end = match find_chars(&c, &end_m) {
                Some(e) => e,
                None => {
                    return Err(GuidanceError::MissingEndMarker { path: String::from_str(path) });
                },
            };
            let end_index = end + end_m.len();
            let mut out = slice(&c, 0, start);
            push_newline_if_needed(&mut out);
            push_all(&mut out, &b);
            let ghost merged = out@;
            if end_index < c.len() {
                let rest = slice(&c, end_index, c.len());
                assert(rest@ =~= c@.skip(end_index as int));
                let nl = vec!['\n'];
                assert(nl@ =~= seq!['\n']);
                let suffix = trim_start_matches_chars(&rest, &nl);
                if suffix.len() > 0 {
                    out.push('\n');
                    push_all(&mut out, &suffix);
                    push_newline_if_needed(&mut out);
                    assert(out@ =~= merged + ensure_newline(seq!['\n'] + suffix@));
                } else {
                    assert(out@ =~= merged + Seq::<char>::empty());
                }
            } else {
                assert(out@ =~= merged + Seq::<char>::empty());
            }
            Ok(from_chars(&out))
        },
        None => {
            let t = trim_chars(&c);
            if t.len() == 0 {
                return Ok(String::from_str(block));
            }
            let mut out = c;
            push_newline_if_needed(&mut out);
            out.push('\n');
            push_all(&mut out, &b);
            Ok(from_chars(&out))
        },
    }
}

/// What a directory walk does with an entry while looking for `AGENTS.md`.
#[derive(Clone, Copy, Debug, PartialEq, Eq, Structural)]
pub enum EntryAction {
    Descend,
    Collect,
    Skip,
}

/// Directories are entered except `.git` and `target`; files named
/// `AGENTS.md` are collected; anything else is skipped.
pub fn agents_entry_action(name: &str, is_dir: bool, is_file: bool) -> (r: EntryAction)
    ensures
        is_dir ==> r == (if name@ == ".git"@ || name@ == "target"@ {
            EntryAction::Skip
        } else {
            EntryAction::Descend
        }),
        !is_dir ==> r == (if is_file && name@ == "AGENTS.md"@ {
            EntryAction::Collect
        } else {
            EntryAction::Skip
        }),
{
    if is_dir {
        if crate::text::str_eq(name, ".git") || crate::text::str_eq(name, "target") {
            EntryAction::Skip
        } else {
            EntryAction::Descend
        }
    } else if is_file && crate::text::str_eq(name, "AGENTS.md") {
        EntryAction::Collect
    } else {
        EntryAction::Skip
    }
}

// ---------------------------------------------------------------------------
// Laws of the merge
// ---------------------------------------------------------------------------

/// `m` occurs nowhere in `s`.
pub open spec fn absent(s: Seq<char>, m: Seq<char>) -> bool {
    forall|j: int| !occurs_at(s, m, j)
}

/// What the proofs use of the two markers and the block heading.
proof fn lemma_marker_facts()
    ensures
        START_MARKER@.len() == 27,
        END_MARKER@.len() == 25,
        START_MARKER@[0] == '<',
        END_MARKER@[0] == '<',
        forall|k: int| 1 <= k < 27 ==> START_MARKER@[k] != '<',
        forall|k: int| 1 <= k < 25 ==> END_MARKER@[k] != '<',
        START_MARKER@[18] != END_MARKER@[18],
        forall|k: int| 0 <= k < 27 ==> START_MARKER@[k] != '\n',
        forall|k: int| 0 <= k < 25 ==> END_MARKER@[k] != '\n',
        "\n## ctx\n\n"@ == seq!['\n', '#', '#', ' ', 'c', 't', 'x', '\n', '\n'],
{
    reveal_strlit("<!-- ctx-guidance:start -->");
    reveal_strlit("<!-- ctx-guidance:end -->");
    reveal_strlit("\n## ctx\n\n");
    assert(START_MARKER@ =~= seq![
        '<', '!', '-', '-', ' ', 'c', 't', 'x', '-', 'g', 'u', 'i', 'd', 'a', 'n', 'c', 'e', ':',
        's', 't', 'a', 'r', 't', ' ', '-', '-', '>',
    ]);
    assert(END_MARKER@ =~= seq![
        '<', '!', '-', '-', ' ', 'c', 't', 'x', '-', 'g', 'u', 'i', 'd', 'a', 'n', 'c', 'e', ':',
        'e', 'n', 'd', ' ', '-', '-', '>',
    ]);
}

/// A marker whose only `<` leads it cannot occur at `j` when a `<` stands
/// at `r`, strictly inside the span it would cover.
proof fn lemma_lt_inside(x: Seq<char>, m: Seq<char>, j: int, r: int)
    requires
        forall|k: int| 1 <= k < m.len() ==> m[k] != '<',
        j < r < j + m.len(),
        0 <= r < x.len(),
        x[r] == '<',
    ensures
        !occurs_at(x, m, j),
{
    if occurs_at(x, m, j) {
        assert(x.subrange(j, j + m.len())[r - j] == x[r]);
    }
}

/// A marker that a `<` leads and that `p` does not hold cannot start inside
/// `p` when a `<` follows `p` in `x`.
proof fn lemma_not_from_prefix(x: Seq<char>, p: Seq<char>, m: Seq<char>, j: int)
    requires
        p.len() < x.len(),
        x.take(p.len() as int) == p,
        x[p.len() as int] == '<',
        absent(p, m),
        forall|k: int| 1 <= k < m.len() ==> m[k] != '<',
        0 <= j < p.len(),
    ensures
        !occurs_at(x, m, j),
{
    if j + m.len() <= p.len() {
        if occurs_at(x, m, j) {
            assert(x.subrange(j, j + m.len()) =~= p.subrange(j, j + m.len()));
            assert(occurs_at(p, m, j));
        }
    } else {
        lemma_lt_inside(x, m, j, p.len() as int);
    }
}

/// The first occurrence of `m` is at `i` when it occurs there and nowhere
/// before.
proof fn lemma_first_at(x: Seq<char>, m: Seq<char>, i: int)
    requires
        occurs_at(x, m, i),
        forall|j: int| 0 <= j < i ==> !occurs_at(x, m, j),
    ensures
        find(x, m) == Some(i),
{
    lemma_find(x, m);
    match find(x, m) {
        Some(k) => {
            if k > i {
                assert(!occurs_at(x, m, i));
            }
        },
        None => {},
    }
}

/// In `p`, the block of `g`, then `t`, the first start marker is the
/// block's, when `p` holds no start marker.
proof fn lemma_block_start(p: Seq<char>, g: Seq<char>, t: Seq<char>)
    requires
        absent(p, START_MARKER@),
    ensures
        find(p + spec_guidance_block(g) + t, START_MARKER@) == Some(p.len() as int),
{
    lemma_marker_facts();
    let sm = START_MARKER@;
    let x = p + spec_guidance_block(g) + t;
    let n = p.len() as int;
    assert(x.take(n) =~= p);
    assert(x.subrange(n, n + 27) =~= sm);
    assert forall|j: int| 0 <= j < n implies !occurs_at(x, sm, j) by {
        lemma_not_from_prefix(x, p, sm, j);
    }
    lemma_first_at(x, sm, n);
}

/// No end marker starts within the block's start marker and heading.
proof fn lemma_no_end_in_head(x: Seq<char>, n: int, j: int)
    requires
        0 <= n,
        n + 36 <= x.len(),
        x.subrange(n, n + 27) == START_MARKER@,
        x.subrange(n + 27, n + 36) == "\n## ctx\n\n"@,
        n <= j < n + 36,
    ensures
        !occurs_at(x, END_MARKER@, j),
{
    lemma_marker_facts();
    let em = END_MARKER@;
    if occurs_at(x, em, j) {
        assert(x.subrange(j, j + 25)[0] == x[j]);
        if j == n {
            assert(x.subrange(j, j + 25)[18] == x[n + 18]);
            assert(x.subrange(n, n + 27)[18] == x[n + 18]);
        } else if j < n + 27 {
            assert(x.subrange(n, n + 27)[j - n] == x[j]);
        } else {
            assert(x.subrange(n + 27, n + 36)[j - n - 27] == x[j]);
        }
    }
}

/// No end marker starts within `g` before the block's own end marker, when
/// `g` holds none.
proof fn lemma_no_end_in_text(x: Seq<char>, g: Seq<char>, s: int, j: int)
    requires
        0 <= s,
        s + g.len() + 25 <= x.len(),
        x.subrange(s, s + g.len()) == g,
        x[s + g.len()] == '<',
        absent(g, END_MARKER@),
        s <= j < s + g.len(),
    ensures
        !occurs_at(x, END_MARKER@, j),
{
    lemma_marker_facts();
    let em = END_MARKER@;
    let e = s + g.len();
    if j + 25 <= e {
        if occurs_at(x, em, j) {
            let k = j - s;
            assert(x.subrange(j, j + 25) =~= g.subrange(k, k + 25));
            assert(occurs_at(g, em, k));
        }
    } else {
        lemma_lt_inside(x, em, j, e);
    }
}

/// In `p`, the block of `g`, then `t`, the first end marker is the block's,
/// when `p` holds no end marker and `g` holds none.
proof fn lemma_block_end(p: Seq<char>, g: Seq<char>, t: Seq<char>)
    requires
        absent(p, END_MARKER@),
        absent(g, END_MARKER@),
    ensures
        find(p + spec_guidance_block(g) + t, END_MARKER@) == Some(p.len() + 36 + g.len() as int),
{
    lemma_marker_facts();
    let em = END_MARKER@;
    let x = p + spec_guidance_block(g) + t;
    let n = p.len() as int;
    let e2 = n + 36 + g.len();
    assert(x.take(n) =~= p);
    assert(x.subrange(n, n + 27) =~= START_MARKER@);
    assert(x.subrange(n + 27, n + 36) =~= "\n## ctx\n\n"@);
    assert(x.subrange(n + 36, e2) =~= g);
    assert(x.subrange(e2, e2 + 25) =~= em);
    assert(x[e2] == em[0]);
    assert(x[n] == START_MARKER@[0]);
    assert forall|j: int| 0 <= j < e2 implies !occurs_at(x, em, j) by {
        if j < n {
            lemma_not_from_prefix(x, p, em, j);
        } else if j < n + 36 {
            lemma_no_end_in_head(x, n, j);
        } else {
            lemma_no_end_in_text(x, g, n + 36, j);
        }
    }
    lemma_first_at(x, em, e2);
}

/// A marker without newlines that `z` does not hold is not held by `z`
/// with a newline added.
proof fn lemma_absent_push_newline(z: Seq<char>, m: Seq<char>)
    requires
        m.len() > 0,
        absent(z, m),
        forall|k: int| 0 <= k < m.len() ==> m[k] != '\n',
    ensures
        absent(z.push('\n'), m),
{
    let x = z.push('\n');
    assert forall|j: int| !occurs_at(x, m, j) by {
        if occurs_at(x, m, j) {
            if j + m.len() <= z.len() {
                assert(x.subrange(j, j + m.len()) =~= z.subrange(j, j + m.len()));
                assert(occurs_at(z, m, j));
            } else {
                let r = z.len() as int;
                assert(x.subrange(j, j + m.len())[r - j] == x[r]);
            }
        }
    }
}

proof fn lemma_absent_ensure_newline(z: Seq<char>, m: Seq<char>)
    requires
        m.len() > 0,
        absent(z, m),
        forall|k: int| 0 <= k < m.len() ==> m[k] != '\n',
    ensures
        absent(ensure_newline(z), m),
{
    if z.len() > 0 && z.last() != '\n' {
        lemma_absent_push_newline(z, m);
    }
}

/// What comes before the first occurrence of `m` does not hold `m`.
proof fn lemma_absent_before_first(c: Seq<char>, m: Seq<char>, i: int)
    requires
        m.len() > 0,
        find(c, m) == Some(i),
    ensures
        absent(c.take(i), m),
{
    lemma_find(c, m);
    let z = c.take(i);
    assert forall|j: int| !occurs_at(z, m, j) by {
        if occurs_at(z, m, j) {
            assert(c.subrange(j, j + m.len()) =~= z.subrange(j, j + m.len()));
            assert(occurs_at(c, m, j));
        }
    }
}

/// Leading newlines trimmed: nothing, or text that starts otherwise.
proof fn lemma_trim_newlines_start(s: Seq<char>)
    ensures
        trim_start_matches(s, seq!['\n']).len() == 0 || trim_start_matches(s, seq!['\n'])[0]
            != '\n',
    decreases s.len(),
{
    if seq!['\n'].is_prefix_of(s) {
        lemma_trim_newlines_start(s.skip(1));
    } else if s.len() > 0 && s[0] == '\n' {
        assert(seq!['\n'].is_prefix_of(s));
    }
}

/// Trimming the leading newlines of a newline and `y`, where `y` does not
/// start with one, gives `y`.
proof fn lemma_trim_newline_then(y: Seq<char>)
    requires
        y.len() == 0 || y[0] != '\n',
    ensures
        trim_start_matches(seq!['\n'] + y, seq!['\n']) == y,
{
    reveal_with_fuel(trim_start_matches, 2);
    let s = seq!['\n'] + y;
    assert(seq!['\n'].is_prefix_of(s));
    assert(s.skip(1) =~= y);
    if y.len() > 0 {
        assert(!seq!['\n'].is_prefix_of(y)) by {
            assert(y.subrange(0, 1)[0] == y[0]);
        }
    } else {
        assert(!seq!['\n'].is_prefix_of(y));
    }
}

/// A leading newline more changes nothing once leading newlines are trimmed.
proof fn lemma_trim_newline_more(w: Seq<char>)
    ensures
        trim_start_matches(seq!['\n'] + w, seq!['\n']) == trim_start_matches(w, seq!['\n']),
{
    let s = seq!['\n'] + w;
    assert(seq!['\n'].is_prefix_of(s));
    assert(s.skip(1) =~= w);
}

/// The second merge of a file that is `p`, the block, then `t`: it gives
/// the same text back when `p` holds neither marker and is empty or ends in
/// a newline, and `t` is empty or a newline and text that does not start
/// with one, ending in a newline.
proof fn lemma_remerge(p: Seq<char>, g: Seq<char>, y: Seq<char>, has_tail: bool)
    requires
        absent(p, START_MARKER@),
        absent(p, END_MARKER@),
        absent(g, END_MARKER@),
        p.len() == 0 || p.last() == '\n',
        has_tail ==> y.len() > 0 && y[0] != '\n',
    ensures
        ({
            let t = if has_tail {
                ensure_newline(seq!['\n'] + y)
            } else {
                Seq::<char>::empty()
            };
            spec_merge_guidance(p + spec_guidance_block(g) + t, spec_guidance_block(g)) == Some(
                p + spec_guidance_block(g) + t,
            )
        }),
{
    lemma_marker_facts();
    let b = spec_guidance_block(g);
    let t = if has_tail {
        ensure_newline(seq!['\n'] + y)
    } else {
        Seq::<char>::empty()
    };
    let x = p + b + t;
    lemma_block_start(p, g, t);
    lemma_block_end(p, g, t);
    let n = p.len() as int;
    let ei = n + 36 + g.len() + 25;
    assert(b.len() == 36 + g.len() + 26);
    assert(ei < x.len());
    assert(x.take(n) =~= p);
    assert(ensure_newline(p) == p);
    assert(x.take(n) + b =~= p + b);
    if has_tail {
        assert(seq!['\n'] + y =~= seq!['\n'] + y);
        assert(ensure_newline(seq!['\n'] + y) =~= seq!['\n'] + ensure_newline(y));
        assert(ensure_newline(y)[0] == y[0]);
        assert(x.skip(ei) =~= seq!['\n'] + (seq!['\n'] + ensure_newline(y)));
        lemma_trim_newline_then(ensure_newline(y));
        lemma_trim_newline_more(seq!['\n'] + ensure_newline(y));
        assert(trim_start_matches(seq!['\n'] + ensure_newline(y), seq!['\n']) == ensure_newline(y));
        assert(trim_start_matches(x.skip(ei), seq!['\n']) == ensure_newline(y));
        assert(ensure_newline(seq!['\n'] + ensure_newline(y)) =~= seq!['\n'] + ensure_newline(y));
    } else {
        assert(x.skip(ei) =~= seq!['\n']);
        assert(seq!['\n'] =~= seq!['\n'] + Seq::<char>::empty());
        lemma_trim_newline_then(Seq::<char>::empty());
    }
}

/// Putting the guidance block into a file a second time changes nothing,
/// when the guidance holds no end marker and the file holds no end marker
/// before its first start marker.
pub proof fn lemma_merge_twice(content: Seq<char>, guidance: Seq<char>)
    requires
        absent(guidance, END_MARKER@),
        find(content, END_MARKER@) matches Some(e) ==> (find(content, START_MARKER@) matches Some(
            s,
        ) && s <= e),
    ensures
        spec_merge_guidance(content, spec_guidance_block(guidance)) matches Some(c1)
            ==> spec_merge_guidance(c1, spec_guidance_block(guidance)) == Some(c1),
{
    lemma_marker_facts();
    let b = spec_guidance_block(guidance);
    let sm = START_MARKER@;
    let em = END_MARKER@;
    lemma_find(content, sm);
    lemma_find(content, em);
    match find(content, sm) {
        Some(s) => {
            match find(content, em) {
                None => {},
                Some(e) => {
                    let ei = e + em.len();
                    let m = ensure_newline(content.take(s));
                    lemma_absent_before_first(content, sm, s);
                    lemma_absent_before_first(content, em, e);
                    assert(absent(content.take(s), em)) by {
                        assert forall|j: int| !occurs_at(content.take(s), em, j) by {
                            if occurs_at(content.take(s), em, j) {
                                assert(content.take(s).subrange(j, j + 25) =~= content.take(e).subrange(j, j + 25));
                                assert(occurs_at(content.take(e), em, j));
                            }
                        }
                    }
                    lemma_absent_ensure_newline(content.take(s), sm);
                    lemma_absent_ensure_newline(content.take(s), em);
                    if ei < content.len() {
                        let suffix = trim_start_matches(content.skip(ei), seq!['\n']);
                        lemma_trim_newlines_start(content.skip(ei));
                        lemma_remerge(m, guidance, suffix, suffix.len() > 0);
                    } else {
                        lemma_remerge(m, guidance, Seq::empty(), false);
                    }
                },
            }
        },
        None => {
            if trim(content).len() == 0 {
                assert(absent(Seq::<char>::empty(), sm));
                assert(absent(Seq::<char>::empty(), em));
                lemma_remerge(Seq::empty(), guidance, Seq::empty(), false);
                assert(Seq::<char>::empty() + b + Seq::<char>::empty() =~= b);
            } else {
                let p = ensure_newline(content) + seq!['\n'];
                assert(absent(content, sm));
                assert(absent(content, em));
                lemma_absent_ensure_newline(content, sm);
                lemma_absent_ensure_newline(content, em);
                assert(p =~= ensure_newline(content).push('\n'));
                lemma_absent_push_newline(ensure_newline(content), sm);
                lemma_absent_push_newline(ensure_newline(content), em);
                lemma_remerge(p, guidance, Seq::empty(), false);
                assert(p + b + Seq::<char>::empty() =~= ensure_newline(content) + seq!['\n'] + b);
            }
        },
    }
}

/// Putting the guidance block in keeps what the file held before its first
/// start marker, or all of it when it has none, unless the file is blank.
pub proof fn lemma_merge_keeps_prefix(content: Seq<char>, block: Seq<char>)
    requires
        trim(content).len() > 0,
    ensures
        spec_merge_guidance(content, block) matches Some(c1) ==> match find(content, START_MARKER@) {
            Some(s) => content.take(s).is_prefix_of(c1),
            None => content.is_prefix_of(c1),
        },
{
    match find(content, START_MARKER@) {
        Some(s) => {
            lemma_find(content, START_MARKER@);
            let z = content.take(s);
            if let Some(c1) = spec_merge_guidance(content, block) {
                assert forall|k: int| 0 <= k < z.len() implies z[k] == c1[k] by {
                    assert(ensure_newline(z)[k] == z[k]);
                }
            }
        },
        None => {
            if let Some(c1) = spec_merge_guidance(content, block) {
                assert forall|k: int| 0 <= k < content.len() implies content[k] == c1[k] by {
                    assert(ensure_newline(content)[k] == content[k]);
                }
            }
        },
    }
}

} // verus!
