//! Corpus validation: issues, severities, and the append-only rule for
//! staged edits of context documents.
use vstd::prelude::*;
use crate::text::{
    chars_eq, decimal, decimal_chars, from_chars, lines, push_all, push_str, split_lines,
    starts_with, to_chars, trim_start, trim_start_chars,
};

verus! {

broadcast use crate::views::lemma_char_vec_deep_view;

#[derive(Clone, Copy, Debug, PartialEq, Eq, Structural)]
pub enum Severity {
    Warning,
    Error,
}

/// What an issue is about.
#[derive(Clone, Copy, Debug, PartialEq, Eq, Structural)]
pub enum IssueCode {
    OrphanedConcern,
    StaleDocument,
    MultiOwnedConcern,
    FrontmatterInvalid,
    AppendOnlyViolation,
    ManagedFieldTampering,
}

impl IssueCode {
    pub open spec fn spec_text(&self) -> Seq<char> {
        match self {
            IssueCode::OrphanedConcern => "ORPHANED_CONCERN"@,
            IssueCode::StaleDocument => "STALE_DOCUMENT"@,
            IssueCode::MultiOwnedConcern => "MULTI_OWNED_CONCERN"@,
            IssueCode::FrontmatterInvalid => "FRONTMATTER_INVALID"@,
            IssueCode::AppendOnlyViolation => "APPEND_ONLY_VIOLATION"@,
            IssueCode::ManagedFieldTampering => "MANAGED_FIELD_TAMPERING"@,
        }
    }

    /// The code as reports print it.
    pub fn as_str(&self) -> (r: &'static str)
        ensures
            r@ == self.spec_text(),
    {
        match self {
            IssueCode::OrphanedConcern => "ORPHANED_CONCERN",
            IssueCode::StaleDocument => "STALE_DOCUMENT",
            IssueCode::MultiOwnedConcern => "MULTI_OWNED_CONCERN",
            IssueCode::FrontmatterInvalid => "FRONTMATTER_INVALID",
            IssueCode::AppendOnlyViolation => "APPEND_ONLY_VIOLATION",
            IssueCode::ManagedFieldTampering => "MANAGED_FIELD_TAMPERING",
        }
    }
}

/// One finding of `check`.
#[derive(Debug)]
pub struct Issue {
    pub severity: Severity,
    pub code: IssueCode,
    pub file: String,
    pub message: String,
}

/// The error for a context document whose frontmatter cannot be read or
/// parsed.
pub fn frontmatter_issue(file: &str, message: &str) -> (r: Issue)
    ensures
        r.severity == Severity::Error,
        r.code == IssueCode::FrontmatterInvalid,
        r.file@ == file@,
        r.message@ == message@,
{
    Issue {
        severity: Severity::Error,
        code: IssueCode::FrontmatterInvalid,
        file: String::from_str(file),
        message: String::from_str(message),
    }
}

/// Warning-class findings become errors under `--strict`.
pub fn as_severity(strict: bool) -> (r: Severity)
    ensures
        r == (if strict {
            Severity::Error
        } else {
            Severity::Warning
        }),
{
    if strict {
        Severity::Error
    } else {
        Severity::Warning
    }
}

pub fn severity_label(severity: Severity) -> (r: &'static str)
    ensures
        severity == Severity::Warning ==> r@ == "WARNING"@,
        severity == Severity::Error ==> r@ == "ERROR"@,
{
    match severity {
        Severity::Warning => "WARNING",
        Severity::Error => "ERROR",
    }
}

/// Whether some issue of `issues` has the given severity.
pub open spec fn has_severity(issues: Seq<Issue>, severity: Severity) -> bool {
    exists|i: int| 0 <= i < issues.len() && (#[trigger] issues[i]).severity == severity
}

/// The process status that `check` ends with: 1 when some issue is an
/// error, else 2 when some issue is a warning, else 0.
pub fn exit_status(issues: &Vec<Issue>) -> (r: i32)
    ensures
        r == (if has_severity(issues@, Severity::Error) {
            1i32
        } else if has_severity(issues@, Severity::Warning) {
            2i32
        } else {
            0i32
        }),
{
    let mut has_error = false;
    let mut has_warning = false;
    let mut i: usize = 0;
    while i < issues.len()
        invariant
            i <= issues.len(),
            has_error == exists|k: int| 0 <= k < i && (#[trigger] issues@[k]).severity
                == Severity::Error,
            has_warning == exists|k: int| 0 <= k < i && (#[trigger] issues@[k]).severity
                == Severity::Warning,
        decreases issues.len() - i,
    {
        match issues[i].severity {
            Severity::Error => {
                has_error = true;
            },
            Severity::Warning => {
                has_warning = true;
            },
        }
        i += 1;
    }
    if has_error {
        1
    } else if has_warning {
        2
    } else {
        0
    }
}

// ---------------------------------------------------------------------------
// Removed lines: a longest-common-subsequence diff
// ---------------------------------------------------------------------------

/// A line of the old text that the new text no longer has; numbered from 1.
#[derive(Debug)]
pub struct RemovedLine {
    pub line_number: usize,
    pub content: String,
}

/// The length of a longest common subsequence of `a[..i]` and `b[..j]`.
pub open spec fn lcs(a: Seq<Seq<char>>, b: Seq<Seq<char>>, i: int, j: int) -> nat
    decreases i, j,
{
    if i <= 0 || j <= 0 {
        0
    } else if a[i - 1] == b[j - 1] {
        lcs(a, b, i - 1, j - 1) + 1
    } else {
        let x = lcs(a, b, i - 1, j);
        let y = lcs(a, b, i, j - 1);
        if x >= y {
            x
        } else {
            y
        }
    }
}

/// The lines of `a[..i]` left out of the longest common subsequence with
/// `b[..j]` that the diff follows (on a tie it drops from `a`), as (line
/// number, text) in increasing line order.
pub open spec fn removed(a: Seq<Seq<char>>, b: Seq<Seq<char>>, i: int, j: int) -> Seq<
    (nat, Seq<char>),
>
    decreases i, j,
{
    if i <= 0 {
        Seq::empty()
    } else if j <= 0 {
        removed(a, b, i - 1, 0).push((i as nat, a[i - 1]))
    } else if a[i - 1] == b[j - 1] {
        removed(a, b, i - 1, j - 1)
    } else if lcs(a, b, i - 1, j) >= lcs(a, b, i, j - 1) {
        removed(a, b, i - 1, j).push((i as nat, a[i - 1]))
    } else {
        removed(a, b, i, j - 1)
    }
}

/// The lines of `old` that the edit to `new` removed (no new text counts as
/// an empty one).
pub open spec fn spec_removed_lines(old: Seq<char>, new: Option<Seq<char>>) -> Seq<
    (nat, Seq<char>),
> {
    let a = lines(old);
    let b = lines(
        match new {
            Some(n) => n,
            None => Seq::empty(),
        },
    );
    removed(a, b, a.len() as int, b.len() as int)
}

pub proof fn lemma_lcs_bound(a: Seq<Seq<char>>, b: Seq<Seq<char>>, i: int, j: int)
    requires
        0 <= i,
        0 <= j,
    ensures
        lcs(a, b, i, j) <= i,
        lcs(a, b, i, j) <= j,
    decreases i, j,
{
    if i > 0 && j > 0 {
        lemma_lcs_bound(a, b, i - 1, j - 1);
        lemma_lcs_bound(a, b, i - 1, j);
        lemma_lcs_bound(a, b, i, j - 1);
    }
}

/// The removed lines come in strictly increasing line order, each numbered
/// within `1..=i` and carrying the text of that old line.
pub proof fn lemma_removed_ordered(a: Seq<Seq<char>>, b: Seq<Seq<char>>, i: int, j: int)
    requires
        0 <= i <= a.len(),
        0 <= j,
    ensures
        removed_ok(a, removed(a, b, i, j), i),
    decreases i, j,
{
    if i > 0 {
        if j <= 0 {
            lemma_removed_ordered(a, b, i - 1, 0);
            lemma_removed_push(a, removed(a, b, i - 1, 0), i);
        } else if a[i - 1] == b[j - 1] {
            lemma_removed_ordered(a, b, i - 1, j - 1);
            lemma_removed_widen(a, removed(a, b, i - 1, j - 1), i - 1, i);
        } else if lcs(a, b, i - 1, j) >= lcs(a, b, i, j - 1) {
            lemma_removed_ordered(a, b, i - 1, j);
            lemma_removed_push(a, removed(a, b, i - 1, j), i);
        } else {
            lemma_removed_ordered(a, b, i, j - 1);
        }
    }
}

pub open spec fn removed_ok(a: Seq<Seq<char>>, r: Seq<(nat, Seq<char>)>, i: int) -> bool {
    &&& forall|x: int, y: int| 0 <= x < y < r.len() ==> r[x].0 < r[y].0
    &&& forall|x: int| 0 <= x < r.len() ==> 1 <= (#[trigger] r[x]).0 <= i && r[x].1 == a[r[x].0 - 1]
}

proof fn lemma_removed_widen(a: Seq<Seq<char>>, r: Seq<(nat, Seq<char>)>, i: int, k: int)
    requires
        removed_ok(a, r, i),
        i <= k,
    ensures
        removed_ok(a, r, k),
{
}

proof fn lemma_removed_push(a: Seq<Seq<char>>, r: Seq<(nat, Seq<char>)>, i: int)
    requires
        removed_ok(a, r, i - 1),
        1 <= i <= a.len(),
    ensures
        removed_ok(a, r.push((i as nat, a[i - 1])), i),
{
    let n = r.push((i as nat, a[i - 1]));
    assert forall|x: int, y: int| 0 <= x < y < n.len() implies n[x].0 < n[y].0 by {
        if y == r.len() {
            assert(n[x] == r[x]);
        }
    }
    assert forall|x: int| 0 <= x < n.len() implies 1 <= (#[trigger] n[x]).0 <= i && n[x].1
        == a[n[x].0 - 1] by {
        if x < r.len() {
            assert(n[x] == r[x]);
        }
    }
}

/// Line `n` (numbered from 1) is among the removed lines `rm`.
pub open spec fn is_removed(rm: Seq<(nat, Seq<char>)>, n: int) -> bool {
    exists|x: int| 0 <= x < rm.len() && (#[trigger] rm[x]).0 == n
}

/// The lines of `a[..i]` that `rm` does not list as removed, in order.
pub open spec fn kept_lines(a: Seq<Seq<char>>, rm: Seq<(nat, Seq<char>)>, i: int) -> Seq<Seq<char>>
    decreases i,
{
    if i <= 0 {
        Seq::empty()
    } else if is_removed(rm, i) {
        kept_lines(a, rm, i - 1)
    } else {
        kept_lines(a, rm, i - 1).push(a[i - 1])
    }
}

/// `s` is `t` with some lines left out: `f` maps each line of `s`, in
/// increasing order, to an equal line of `t`.
pub open spec fn embeds(s: Seq<Seq<char>>, t: Seq<Seq<char>>, f: Seq<int>) -> bool {
    &&& f.len() == s.len()
    &&& forall|k: int| 0 <= k < f.len() ==> 0 <= #[trigger] f[k] < t.len() && t[f[k]] == s[k]
    &&& forall|k1: int, k2: int| 0 <= k1 < k2 < f.len() ==> f[k1] < f[k2]
}

/// Listing one more removed line numbered above `n` keeps the lines kept
/// among the first `n`.
proof fn lemma_kept_push(a: Seq<Seq<char>>, rm: Seq<(nat, Seq<char>)>, e: (nat, Seq<char>), n: int)
    requires
        e.0 > n,
    ensures
        kept_lines(a, rm.push(e), n) == kept_lines(a, rm, n),
    decreases n,
{
    if n > 0 {
        lemma_kept_push(a, rm, e, n - 1);
        let r2 = rm.push(e);
        if is_removed(rm, n) {
            let x = choose|x: int| 0 <= x < rm.len() && (#[trigger] rm[x]).0 == n;
            assert(r2[x] == rm[x]);
        }
        if is_removed(r2, n) {
            let x = choose|x: int| 0 <= x < r2.len() && (#[trigger] r2[x]).0 == n;
            if x < rm.len() {
                assert(r2[x] == rm[x]);
            }
        }
    }
}

/// Whether line `n` is removed is the same in a list whose line numbers
/// are all below `n`, and it is not.
proof fn lemma_not_removed_above(rm: Seq<(nat, Seq<char>)>, n: int)
    requires
        forall|x: int| 0 <= x < rm.len() ==> (#[trigger] rm[x]).0 < n,
    ensures
        !is_removed(rm, n),
{
}

/// `g` and `f` pick, in increasing order, lines of `a[..i]` and `b[..j]`
/// that are pairwise equal: a common subsequence.
pub open spec fn common(a: Seq<Seq<char>>, b: Seq<Seq<char>>, i: int, j: int, g: Seq<int>, f: Seq<int>) -> bool {
    &&& g.len() == f.len()
    &&& forall|k: int| 0 <= k < g.len() ==> 0 <= #[trigger] g[k] < i && 0 <= f[k] < j && a[g[k]] == b[f[k]]
    &&& forall|k1: int, k2: int| 0 <= k1 < k2 < g.len() ==> g[k1] < g[k2] && f[k1] < f[k2]
}

proof fn lemma_removed_count(a: Seq<Seq<char>>, b: Seq<Seq<char>>, i: int, j: int)
    requires
        0 <= i,
        0 <= j,
    ensures
        removed(a, b, i, j).len() + lcs(a, b, i, j) == i,
    decreases i, j,
{
    if i > 0 {
        if j <= 0 {
            lemma_removed_count(a, b, i - 1, 0);
        } else if a[i - 1] == b[j - 1] {
            lemma_removed_count(a, b, i - 1, j - 1);
        } else if lcs(a, b, i - 1, j) >= lcs(a, b, i, j - 1) {
            lemma_removed_count(a, b, i - 1, j);
        } else {
            lemma_removed_count(a, b, i, j - 1);
        }
    }
}

proof fn lemma_common_bound(a: Seq<Seq<char>>, b: Seq<Seq<char>>, i: int, j: int, g: Seq<int>, f: Seq<int>)
    requires
        0 <= i,
        0 <= j,
        common(a, b, i, j, g, f),
    ensures
        g.len() <= lcs(a, b, i, j),
    decreases i, j,
{
    let n = g.len() as int;
    if n > 0 {
        assert(0 <= g[n - 1] < i && 0 <= f[n - 1] < j);
        if a[i - 1] == b[j - 1] {
            let g0 = g.drop_last();
            let f0 = f.drop_last();
            assert forall|k: int| 0 <= k < g0.len() implies 0 <= #[trigger] g0[k] < i - 1 && 0
                <= f0[k] < j - 1 && a[g0[k]] == b[f0[k]] by {
                assert(g[k] < g[n - 1] && f[k] < f[n - 1]);
            }
            lemma_common_bound(a, b, i - 1, j - 1, g0, f0);
        } else if g[n - 1] < i - 1 {
            assert forall|k: int| 0 <= k < g.len() implies 0 <= #[trigger] g[k] < i - 1 && 0 <= f[k]
                < j && a[g[k]] == b[f[k]] by {
                if k < n - 1 {
                    assert(g[k] < g[n - 1]);
                }
            }
            lemma_common_bound(a, b, i - 1, j, g, f);
        } else {
            assert(f[n - 1] < j - 1) by {
                if f[n - 1] == j - 1 {
                    assert(a[g[n - 1]] == b[f[n - 1]]);
                }
            }
            assert forall|k: int| 0 <= k < g.len() implies 0 <= #[trigger] g[k] < i && 0 <= f[k]
                < j - 1 && a[g[k]] == b[f[k]] by {
                if k < n - 1 {
                    assert(f[k] < f[n - 1]);
                }
            }
            lemma_common_bound(a, b, i, j - 1, g, f);
        }
    }
}

/// The diff removes as few lines as possible: no common subsequence of the
/// old lines `a[..i]` and the new lines `b[..j]` keeps more lines than the
/// diff keeps.
pub proof fn lemma_removed_minimal(a: Seq<Seq<char>>, b: Seq<Seq<char>>, i: int, j: int, g: Seq<int>, f: Seq<int>)
    requires
        0 <= i,
        0 <= j,
        common(a, b, i, j, g, f),
    ensures
        g.len() + removed(a, b, i, j).len() <= i,
{
    lemma_removed_count(a, b, i, j);
    lemma_common_bound(a, b, i, j, g, f);
}

/// An old line that no line of the new text equals is reported as removed.
pub proof fn lemma_unmatched_removed(a: Seq<Seq<char>>, b: Seq<Seq<char>>, i: int, j: int, x: int)
    requires
        0 <= x < i <= a.len(),
        0 <= j <= b.len(),
        forall|y: int| 0 <= y < j ==> b[y] != a[x],
    ensures
        is_removed(removed(a, b, i, j), x + 1),
    decreases i, j,
{
    let rm = removed(a, b, i, j);
    if j <= 0 {
        let r0 = removed(a, b, i - 1, 0);
        assert(rm == r0.push((i as nat, a[i - 1])));
        if x == i - 1 {
            assert(rm[r0.len() as int].0 == x + 1);
        } else {
            lemma_unmatched_removed(a, b, i - 1, 0, x);
            let k = choose|k: int| 0 <= k < r0.len() && (#[trigger] r0[k]).0 == x + 1;
            assert(rm[k] == r0[k]);
        }
    } else if a[i - 1] == b[j - 1] {
        assert(x != i - 1);
        lemma_unmatched_removed(a, b, i - 1, j - 1, x);
    } else if lcs(a, b, i - 1, j) >= lcs(a, b, i, j - 1) {
        let r0 = removed(a, b, i - 1, j);
        assert(rm == r0.push((i as nat, a[i - 1])));
        if x == i - 1 {
            assert(rm[r0.len() as int].0 == x + 1);
        } else {
            lemma_unmatched_removed(a, b, i - 1, j, x);
            let k = choose|k: int| 0 <= k < r0.len() && (#[trigger] r0[k]).0 == x + 1;
            assert(rm[k] == r0[k]);
        }
    } else {
        lemma_unmatched_removed(a, b, i, j - 1, x);
    }
}

/// Every line that the diff keeps is matched to an equal line of the new
/// text, in order: the kept lines of `a[..i]` are `b[..j]` with some lines
/// left out. In particular an old line that no new line equals is reported
/// as removed.
pub proof fn lemma_kept_embed(a: Seq<Seq<char>>, b: Seq<Seq<char>>, i: int, j: int) -> (f: Seq<int>)
    requires
        0 <= i <= a.len(),
        0 <= j <= b.len(),
    ensures
        embeds(kept_lines(a, removed(a, b, i, j), i), b.take(j), f),
    decreases i, j,
{
    let rm = removed(a, b, i, j);
    if i <= 0 {
        Seq::empty()
    } else if j <= 0 {
        let r0 = removed(a, b, i - 1, 0);
        let f0 = lemma_kept_embed(a, b, i - 1, 0);
        lemma_removed_ordered(a, b, i - 1, 0);
        assert(rm == r0.push((i as nat, a[i - 1])));
        lemma_kept_push(a, r0, (i as nat, a[i - 1]), i - 1);
        assert(rm[r0.len() as int].0 == i);
        assert(is_removed(rm, i));
        f0
    } else if a[i - 1] == b[j - 1] {
        let r0 = removed(a, b, i - 1, j - 1);
        let f0 = lemma_kept_embed(a, b, i - 1, j - 1);
        lemma_removed_ordered(a, b, i - 1, j - 1);
        assert(rm == r0);
        assert forall|x: int| 0 <= x < rm.len() implies (#[trigger] rm[x]).0 < i by {}
        lemma_not_removed_above(rm, i);
        let kp = kept_lines(a, rm, i - 1);
        assert(kept_lines(a, rm, i) == kp.push(a[i - 1]));
        let f = f0.push(j - 1);
        assert forall|k: int| 0 <= k < f.len() implies 0 <= #[trigger] f[k] < b.take(j).len()
            && b.take(j)[f[k]] == kept_lines(a, rm, i)[k] by {
            if k < f0.len() {
                assert(f[k] == f0[k]);
                assert(b.take(j - 1)[f0[k]] == b.take(j)[f0[k]]);
            }
        }
        f
    } else if lcs(a, b, i - 1, j) >= lcs(a, b, i, j - 1) {
        let r0 = removed(a, b, i - 1, j);
        let f0 = lemma_kept_embed(a, b, i - 1, j);
        lemma_removed_ordered(a, b, i - 1, j);
        assert(rm == r0.push((i as nat, a[i - 1])));
        lemma_kept_push(a, r0, (i as nat, a[i - 1]), i - 1);
        assert(rm[r0.len() as int].0 == i);
        assert(is_removed(rm, i));
        f0
    } else {
        let f0 = lemma_kept_embed(a, b, i, j - 1);
        assert forall|k: int| 0 <= k < f0.len() implies 0 <= #[trigger] f0[k] < b.take(j).len()
            && b.take(j)[f0[k]] == kept_lines(a, rm, i)[k] by {
            assert(b.take(j - 1)[f0[k]] == b.take(j)[f0[k]]);
        }
        f0
    }
}

fn lcs_table(a: &Vec<Vec<char>>, b: &Vec<Vec<char>>) -> (t: Vec<Vec<usize>>)
    ensures
        t@.len() == a.len() + 1,
        forall|i: int| 0 <= i <= a.len() ==> (#[trigger] t@[i])@.len() == b.len() + 1,
        forall|i: int, j: int|
            0 <= i <= a.len() && 0 <= j <= b.len() ==> t@[i]@[j] as nat == lcs(
                a.deep_view(),
                b.deep_view(),
                i,
                j,
            ),
{
    let ghost av = a.deep_view();
    let ghost bv = b.deep_view();
    let mut t: Vec<Vec<usize>> = Vec::new();
    let mut row0: Vec<usize> = Vec::new();
    let mut j: usize = 0;
    row0.push(0);
    while j < b.len()
        invariant
            j <= b.len(),
            row0@.len() == j + 1,
            forall|k: int| 0 <= k <= j ==> row0@[k] == 0,
        decreases b.len() - j,
    {
        row0.push(0);
        j += 1;
    }
    t.push(row0);
    let mut i: usize = 0;
    while i < a.len()
        invariant
            i <= a.len(),
            av == a.deep_view(),
            bv == b.deep_view(),
            t@.len() == i + 1,
            forall|x: int| 0 <= x <= i ==> (#[trigger] t@[x])@.len() == b.len() + 1,
            forall|x: int, y: int|
                0 <= x <= i && 0 <= y <= b.len() ==> t@[x]@[y] as nat == lcs(av, bv, x, y),
        decreases a.len() - i,
    {
        let mut row: Vec<usize> = Vec::new();
        row.push(0);
        let mut j: usize = 0;
        while j < b.len()
            invariant
                i < a.len(),
                j <= b.len(),
                av == a.deep_view(),
                bv == b.deep_view(),
                t@.len() == i + 1,
                forall|x: int| 0 <= x <= i ==> (#[trigger] t@[x])@.len() == b.len() + 1,
                forall|x: int, y: int|
                    0 <= x <= i && 0 <= y <= b.len() ==> t@[x]@[y] as nat == lcs(av, bv, x, y),
                row@.len() == j + 1,
                forall|y: int| 0 <= y <= j ==> row@[y] as nat == lcs(av, bv, i + 1, y),
            decreases b.len() - j,
        {
            proof {
                lemma_lcs_bound(av, bv, i as int, j as int);
                lemma_lcs_bound(av, bv, i + 1, j + 1);
            }
            assert(av[i as int] == a@[i as int]@);
            assert(bv[j as int] == b@[j as int]@);
            let prev = &t[i];
            assert(prev@[j as int] as nat == lcs(av, bv, i as int, j as int));
            assert(prev@[j + 1] as nat == lcs(av, bv, i as int, j + 1));
            assert(row@[j as int] as nat == lcs(av, bv, i + 1, j as int));
            let v = if chars_eq(&a[i], &b[j]) {
                prev[j] + 1
            } else {
                let x = prev[j + 1];
                let y = row[j];
                if x >= y {
                    x
                } else {
                    y
                }
            };
            assert(v as nat == lcs(av, bv, i + 1, j + 1));
            row.push(v);
            j += 1;
        }
        let ghost told = t@;
        t.push(row);
        assert forall|x: int, y: int|
            0 <= x <= i + 1 && 0 <= y <= b.len() implies t@[x]@[y] as nat == lcs(av, bv, x, y) by {
            if x <= i {
                assert(t@[x] == told[x]);
            }
        }
        i += 1;
    }
    t
}

fn backtrack_removed(
    a: &Vec<Vec<char>>,
    b: &Vec<Vec<char>>,
    table: &Vec<Vec<usize>>,
    i: usize,
    j: usize,
    out: &mut Vec<RemovedLine>,
)
    requires
        i <= a.len(),
        j <= b.len(),
        table@.len() == a.len() + 1,
        forall|x: int| 0 <= x <= a.len() ==> (#[trigger] table@[x])@.len() == b.len() + 1,
        forall|x: int, y: int|
            0 <= x <= a.len() && 0 <= y <= b.len() ==> table@[x]@[y] as nat == lcs(
                a.deep_view(),
                b.deep_view(),
                x,
                y,
            ),
    ensures
        final(out)@.map_values(|r: RemovedLine| (r.line_number as nat, r.content@)) == old(
            out,
        )@.map_values(|r: RemovedLine| (r.line_number as nat, r.content@)) + removed(
            a.deep_view(),
            b.deep_view(),
            i as int,
            j as int,
        ),
    decreases i + j,
{
    let ghost f = |r: RemovedLine| (r.line_number as nat, r.content@);
    let ghost av = a.deep_view();
    let ghost bv = b.deep_view();
    if i == 0 {
        assert(old(out)@.map_values(f) + removed(av, bv, 0, j as int) =~= out@.map_values(f));
        return ;
    }
    assert(av[i - 1] == a@[i - 1]@);
    if j == 0 {
        backtrack_removed(a, b, table, i - 1, 0, out);
        let ghost mid = out@.map_values(f);
        out.push(RemovedLine { line_number: i, content: from_chars(&a[i - 1]) });
        assert(out@.map_values(f) =~= mid.push((i as nat, av[i - 1])));
        return ;
    }
    assert(bv[j - 1] == b@[j - 1]@);
    if chars_eq(&a[i - 1], &b[j - 1]) {
        backtrack_removed(a, b, table, i - 1, j - 1, out);
    } else if table[i - 1][j] >= table[i][j - 1] {
        backtrack_removed(a, b, table, i - 1, j, out);
        let ghost mid = out@.map_values(f);
        out.push(RemovedLine { line_number: i, content: from_chars(&a[i - 1]) });
        assert(out@.map_values(f) =~= mid.push((i as nat, av[i - 1])));
    } else {
        backtrack_removed(a, b, table, i, j - 1, out);
    }
}

/// The lines of `old_content` that `new_content` dropped, by a longest
/// common subsequence of the two line lists, in increasing line order.
pub fn removed_lines(old_content: &str, new_content: Option<&str>) -> (r: Vec<RemovedLine>)
    ensures
        r@.map_values(|x: RemovedLine| (x.line_number as nat, x.content@)) == spec_removed_lines(
            old_content@,
            match new_content {
                Some(n) => Some(n@),
                None => None,
            },
        ),
        forall|x: int, y: int|
            0 <= x < y < r@.len() ==> r@[x].line_number < r@[y].line_number,
{
    let o = to_chars(old_content);
    let n = match new_content {
        Some(s) => to_chars(s),
        None => Vec::new(),
    };
    let a = split_lines(&o);
    let b = split_lines(&n);
    let table = lcs_table(&a, &b);
    let mut out: Vec<RemovedLine> = Vec::new();
    backtrack_removed(&a, &b, &table, a.len(), b.len(), &mut out);
    proof {
        let ghost f = |x: RemovedLine| (x.line_number as nat, x.content@);
        assert(Seq::<RemovedLine>::empty().map_values(f) + removed(
            a.deep_view(),
            b.deep_view(),
            a.len() as int,
            b.len() as int,
        ) =~= removed(a.deep_view(), b.deep_view(), a.len() as int, b.len() as int));
        lemma_removed_ordered(a.deep_view(), b.deep_view(), a.len() as int, b.len() as int);
        match new_content {
            Some(s) => {},
            None => {
                assert(n@ =~= Seq::<char>::empty());
            },
        }
        assert forall|x: int, y: int| 0 <= x < y < out@.len() implies out@[x].line_number
            < out@[y].line_number by {
            assert(out@.map_values(f)[x].0 < out@.map_values(f)[y].0);
        }
    }
    out
}

// ---------------------------------------------------------------------------
// Frontmatter lines
// ---------------------------------------------------------------------------

/// `---` as characters.
pub open spec fn dashes() -> Seq<char> {
    seq!['-', '-', '-']
}

/// First index `k >= from` of a `---` line.
pub open spec fn closing_dashes(ls: Seq<Seq<char>>, from: int) -> Option<int>
    decreases ls.len() - from,
{
    if from < 0 || from >= ls.len() {
        None
    } else if ls[from] == dashes() {
        Some(from)
    } else {
        closing_dashes(ls, from + 1)
    }
}

/// The 1-based first and last line of the frontmatter: the first line is
/// `---` and the range ends at the next `---` line.
pub open spec fn spec_frontmatter_range(content: Seq<char>) -> Option<(usize, usize)> {
    let ls = lines(content);
    if ls.len() == 0 || ls[0] != dashes() {
        None
    } else {
        match closing_dashes(ls, 1) {
            Some(k) => Some((1usize, (k + 1) as usize)),
            None => None,
        }
    }
}

/// Where the frontmatter of `content` lies, by 1-based line numbers.
pub fn frontmatter_range(content: &str) -> (r: Option<(usize, usize)>)
    ensures
        r == spec_frontmatter_range(content@),
{
    let c = to_chars(content);
    let ls = split_lines(&c);
    let ghost lv = ls.deep_view();
    let d = vec!['-', '-', '-'];
    assert(d@ =~= dashes());
    if ls.len() == 0 {
        return None;
    }
    assert(lv[0] == ls@[0]@);
    if !chars_eq(&ls[0], &d) {
        return None;
    }
    assert(lv[0] == dashes());
    let mut k: usize = 1;
    while k < ls.len()
        invariant
            1 <= k <= ls.len(),
            lv == ls.deep_view(),
            lv == lines(content@),
            d@ == dashes(),
            closing_dashes(lv, 1) == closing_dashes(lv, k as int),
            lv.len() > 0,
            lv[0] == dashes(),
        decreases ls.len() - k,
    {
        assert(lv[k as int] == ls@[k as int]@);
        if chars_eq(&ls[k], &d) {
            assert(closing_dashes(lv, k as int) == Some(k as int));
            return Some((1, k + 1));
        }
        k += 1;
    }
    None
}

/// Whether line `line_number` lies inside `range`, both ends included.
pub fn line_in_frontmatter(line_number: usize, range: Option<(usize, usize)>) -> (r: bool)
    ensures
        r == (range matches Some((start, end)) && start <= line_number <= end),
{
    match range {
        Some((start, end)) => start <= line_number && line_number <= end,
        None => false,
    }
}

/// The frontmatter keys that only `ctx` may change.
pub open spec fn managed_prefixes() -> Seq<Seq<char>> {
    seq!["id:"@, "created:"@, "status:"@, "superseded_by:"@]
}

/// Whether `line`, without its leading whitespace, starts a managed field.
pub fn is_managed_field(line: &str) -> (r: bool)
    ensures
        r == exists|k: int|
            0 <= k < 4 && (#[trigger] managed_prefixes()[k]).is_prefix_of(trim_start(line@)),
{
    let l = to_chars(line);
    let t = trim_start_chars(&l);
    let p0 = to_chars("id:");
    let p1 = to_chars("created:");
    let p2 = to_chars("status:");
    let p3 = to_chars("superseded_by:");
    let r = starts_with(&t, &p0) || starts_with(&t, &p1) || starts_with(&t, &p2) || starts_with(
        &t,
        &p3,
    );
    assert(managed_prefixes()[0] == p0@);
    assert(managed_prefixes()[1] == p1@);
    assert(managed_prefixes()[2] == p2@);
    assert(managed_prefixes()[3] == p3@);
    r
}

} // verus!

verus! {

/// An issue as plain values: severity, code, file and message.
pub open spec fn issue_view(i: Issue) -> (Severity, IssueCode, Seq<char>, Seq<char>) {
    (i.severity, i.code, i.file@, i.message@)
}

pub open spec fn spec_is_managed(line: Seq<char>) -> bool {
    exists|k: int| 0 <= k < 4 && (#[trigger] managed_prefixes()[k]).is_prefix_of(trim_start(line))
}

/// The issue that one removed line raises: any removal outside the
/// frontmatter, and a removed managed field inside it.
pub open spec fn deletion_issue(
    file: Seq<char>,
    range: Option<(usize, usize)>,
    r: (nat, Seq<char>),
) -> Option<(Severity, IssueCode, Seq<char>, Seq<char>)> {
    let inside = range matches Some((start, end)) && start <= r.0 <= end;
    if !inside {
        Some(
            (
                Severity::Error,
                IssueCode::AppendOnlyViolation,
                file,
                "staged deletion outside frontmatter at line "@ + decimal(r.0),
            ),
        )
    } else if spec_is_managed(r.1) {
        Some(
            (
                Severity::Error,
                IssueCode::ManagedFieldTampering,
                file,
                "managed field modified in frontmatter at line "@ + decimal(r.0),
            ),
        )
    } else {
        None
    }
}

/// The issues of a staged edit of `file` from `old_content` to
/// `new_content`: context documents may only grow outside their frontmatter,
/// and their managed fields may not change.
pub open spec fn spec_diff_issues(file: Seq<char>, old: Seq<char>, new: Option<Seq<char>>) -> Seq<
    (Severity, IssueCode, Seq<char>, Seq<char>),
> {
    let range = spec_frontmatter_range(old);
    spec_removed_lines(old, new).filter_map(
        |r: (nat, Seq<char>)| deletion_issue(file, range, r),
    )
}

/// The issues that a staged change of one context document raises.
pub fn diff_issues(file: &str, old_content: &str, new_content: Option<&str>) -> (r: Vec<Issue>)
    ensures
        r@.map_values(|i: Issue| issue_view(i)) == spec_diff_issues(
            file@,
            old_content@,
            match new_content {
                Some(n) => Some(n@),
                None => None,
            },
        ),
{
    let ghost newv = match new_content {
        Some(n) => Some(n@),
        None => None,
    };
    let deletions = removed_lines(old_content, new_content);
    let range = frontmatter_range(old_content);
    let ghost rv = deletions@.map_values(|x: RemovedLine| (x.line_number as nat, x.content@));
    let ghost f = |r: (nat, Seq<char>)| deletion_issue(file@, range, r);
    let mut out: Vec<Issue> = Vec::new();
    let mut k: usize = 0;
    while k < deletions.len()
        invariant
            k <= deletions.len(),
            rv == deletions@.map_values(|x: RemovedLine| (x.line_number as nat, x.content@)),
            f == (|r: (nat, Seq<char>)| deletion_issue(file@, range, r)),
            out@.map_values(|i: Issue| issue_view(i)) == rv.take(k as int).filter_map(f),
        decreases deletions.len() - k,
    {
        proof {
            rv.lemma_filter_map_take_succ(f, k as int);
        }
        let d = &deletions[k];
        assert(rv[k as int] == (d.line_number as nat, d.content@));
        let ghost before = out@.map_values(|i: Issue| issue_view(i));
        if !line_in_frontmatter(d.line_number, range) {
            let mut msg = to_chars("staged deletion outside frontmatter at line ");
            let num = decimal_chars(d.line_number as u64);
            push_all(&mut msg, &num);
            out.push(
                Issue {
                    severity: Severity::Error,
                    code: IssueCode::AppendOnlyViolation,
                    file: String::from_str(file),
                    message: from_chars(&msg),
                },
            );
            assert(out@.map_values(|i: Issue| issue_view(i)) =~= before.push(f(rv[k as int])->0));
        } else if is_managed_field(d.content.as_str()) {
            let mut msg = to_chars("managed field modified in frontmatter at line ");
            let num = decimal_chars(d.line_number as u64);
            push_all(&mut msg, &num);
            out.push(
                Issue {
                    severity: Severity::Error,
                    code: IssueCode::ManagedFieldTampering,
                    file: String::from_str(file),
                    message: from_chars(&msg),
                },
            );
            assert(out@.map_values(|i: Issue| issue_view(i)) =~= before.push(f(rv[k as int])->0));
        }
        k += 1;
    }
    assert(rv.take(deletions.len() as int) =~= rv);
    out
}

// ---------------------------------------------------------------------------
// Issues from the registry
// ---------------------------------------------------------------------------

pub open spec fn registry_file() -> Seq<char> {
    ".context/.registry.json"@
}

pub type IssueView = (Severity, IssueCode, Seq<char>, Seq<char>);

pub open spec fn issues_view(v: Seq<Issue>) -> Seq<IssueView> {
    v.map_values(|i: Issue| issue_view(i))
}

pub open spec fn orphan_issue(sev: Severity) -> spec_fn(Seq<char>) -> IssueView {
    |c: Seq<char>| (sev, IssueCode::OrphanedConcern, registry_file(), "concern "@ + c + " has no active owner"@)
}

pub open spec fn stale_issue(sev: Severity) -> spec_fn((String, crate::registry::DocumentEntry)) -> IssueView {
    |p: (String, crate::registry::DocumentEntry)| (
        sev,
        IssueCode::StaleDocument,
        p.1.file@,
        "document "@ + p.0@ + " appears stale relative to its scoped paths"@,
    )
}

/// The owners of concern `c` in `roster`, joined by `, `.
pub open spec fn roster_owners_text(roster: Seq<(String, crate::registry::ConcernRosterEntry)>, c: Seq<char>) -> Seq<char> {
    let j = choose|j: int| 0 <= j < roster.len() && roster[j].0@ == c;
    crate::text::join(roster[j].1.owners.deep_view(), seq![',', ' '])
}

pub open spec fn multi_issue(
    sev: Severity,
    roster: Seq<(String, crate::registry::ConcernRosterEntry)>,
) -> spec_fn(Seq<char>) -> IssueView {
    |c: Seq<char>| (
        sev,
        IssueCode::MultiOwnedConcern,
        registry_file(),
        "concern "@ + c + " has multiple active owners: "@ + roster_owners_text(roster, c),
    )
}

/// The documents of `docs` marked in `stale`, in order.
pub open spec fn stale_docs(docs: Seq<(String, crate::registry::DocumentEntry)>, stale: Seq<bool>) -> Seq<
    (String, crate::registry::DocumentEntry),
>
    decreases docs.len(),
{
    if docs.len() == 0 {
        Seq::empty()
    } else {
        stale_docs(docs.drop_last(), stale) + if stale[docs.len() - 1] {
            seq![docs.last()]
        } else {
            Seq::empty()
        }
    }
}

/// The registry's issues: each orphaned concern, each stale document (in
/// registry order), each concern with several owners.
pub open spec fn spec_registry_issues(r: crate::registry::Registry, sev: Severity, stale: Seq<bool>) -> Seq<IssueView> {
    r.orphaned_concerns.deep_view().map_values(orphan_issue(sev)) + stale_docs(
        r.documents@,
        stale,
    ).map_values(stale_issue(sev)) + r.multi_owned_concerns.deep_view().map_values(
        multi_issue(sev, r.concern_roster@),
    )
}

/// The severity of warning-class findings.
pub open spec fn spec_severity(strict: bool) -> Severity {
    if strict {
        Severity::Error
    } else {
        Severity::Warning
    }
}

/// The owners of roster concern `c`, joined by `, `.
fn owners_text(registry: &crate::registry::Registry, c: &str) -> (r: String)
    requires
        registry.wf(),
        crate::registry::roster_keys(registry.concern_roster@).contains(c@),
    ensures
        r@ == roster_owners_text(registry.concern_roster@, c@),
{
    let j = match registry.roster_index(c) {
        Some(j) => j,
        None => {
            assert(false);
            0
        },
    };
    let ghost rs = registry.concern_roster@;
    proof {
        assert(rs[j as int].0@ == c@);
        let k = choose|k: int| 0 <= k < rs.len() && rs[k].0@ == c@;
        if k != j {
            let keys = crate::registry::roster_keys(rs);
            assert(keys[k] == c@ && keys[j as int] == c@);
            crate::text::lemma_seq_lt_irreflexive(c@);
            if k < j {
                assert(crate::text::seq_lt(keys[k], keys[j as int]));
            } else {
                assert(crate::text::seq_lt(keys[j as int], keys[k]));
            }
        }
    }
    let parts = crate::text::strings_to_chars(&registry.concern_roster[j].1.owners);
    let sep = vec![',', ' '];
    assert(sep@ =~= seq![',', ' ']);
    let out = crate::text::join_chars(&parts, &sep);
    from_chars(&out)
}

fn push_issue(out: &mut Vec<Issue>, i: Issue)
    ensures
        issues_view(final(out)@) == issues_view(old(out)@).push(issue_view(i)),
{
    let ghost prev = out@;
    out.push(i);
    assert(issues_view(out@) =~= issues_view(prev).push(issue_view(i)));
}

/// The issues the registry raises: orphaned concerns, stale documents
/// (`stale[j]` for the `j`th document) and concerns with several owners.
pub fn registry_issues(registry: &crate::registry::Registry, strict: bool, stale: &Vec<bool>) -> (r:
    Vec<Issue>)
    requires
        stale.len() == registry.documents.len(),
        registry.wf(),
        forall|k: int|
            0 <= k < registry.multi_owned_concerns.len() ==> crate::registry::roster_keys(
                registry.concern_roster@,
            ).contains(#[trigger] registry.multi_owned_concerns.deep_view()[k]),
    ensures
        issues_view(r@) == spec_registry_issues(*registry, spec_severity(strict), stale@),
{
    let sev = as_severity(strict);
    let ghost ov = registry.orphaned_concerns.deep_view();
    let ghost mv = registry.multi_owned_concerns.deep_view();
    let ghost docs = registry.documents@;
    let mut out: Vec<Issue> = Vec::new();
    let mut k: usize = 0;
    while k < registry.orphaned_concerns.len()
        invariant
            k <= registry.orphaned_concerns.len(),
            ov == registry.orphaned_concerns.deep_view(),
            sev == spec_severity(strict),
            issues_view(out@) == ov.take(k as int).map_values(orphan_issue(sev)),
        decreases registry.orphaned_concerns.len() - k,
    {
        let c = &registry.orphaned_concerns[k];
        assert(c@ == ov[k as int]);
        let mut m = to_chars("concern ");
        push_str(&mut m, c.as_str());
        push_str(&mut m, " has no active owner");
        proof {
            reveal_strlit("concern ");
        }
        push_issue(
            &mut out,
            Issue {
                severity: sev,
                code: IssueCode::OrphanedConcern,
                file: String::from_str(".context/.registry.json"),
                message: from_chars(&m),
            },
        );
        assert(ov.take(k + 1).map_values(orphan_issue(sev)) =~= ov.take(k as int).map_values(
            orphan_issue(sev),
        ).push(orphan_issue(sev)(ov[k as int])));
        k += 1;
    }
    assert(ov.take(registry.orphaned_concerns.len() as int) =~= ov);
    let ghost after_orphans = issues_view(out@);
    let mut j: usize = 0;
    while j < registry.documents.len()
        invariant
            j <= registry.documents.len(),
            stale.len() == registry.documents.len(),
            docs == registry.documents@,
            sev == spec_severity(strict),
            issues_view(out@) == after_orphans + stale_docs(docs.take(j as int), stale@).map_values(
                stale_issue(sev),
            ),
        decreases registry.documents.len() - j,
    {
        assert(docs.take(j + 1).drop_last() =~= docs.take(j as int));
        if stale[j] {
            let mut m = to_chars("document ");
            push_str(&mut m, registry.documents[j].0.as_str());
            push_str(&mut m, " appears stale relative to its scoped paths");
            proof {
                reveal_strlit("document ");
            }
            push_issue(
                &mut out,
                Issue {
                    severity: sev,
                    code: IssueCode::StaleDocument,
                    file: crate::text::clone_string(&registry.documents[j].1.file),
                    message: from_chars(&m),
                },
            );
            assert(stale_docs(docs.take(j + 1), stale@).map_values(stale_issue(sev)) =~= stale_docs(
                docs.take(j as int),
                stale@,
            ).map_values(stale_issue(sev)).push(stale_issue(sev)(docs[j as int])));
        } else {
            assert(stale_docs(docs.take(j + 1), stale@) =~= stale_docs(docs.take(j as int), stale@));
        }
        j += 1;
    }
    assert(docs.take(registry.documents.len() as int) =~= docs);
    let ghost after_stale = issues_view(out@);
    let mut k: usize = 0;
    while k < registry.multi_owned_concerns.len()
        invariant
            k <= registry.multi_owned_concerns.len(),
            mv == registry.multi_owned_concerns.deep_view(),
            registry.wf(),
            forall|q: int|
                0 <= q < registry.multi_owned_concerns.len() ==> crate::registry::roster_keys(
                    registry.concern_roster@,
                ).contains(#[trigger] registry.multi_owned_concerns.deep_view()[q]),
            sev == spec_severity(strict),
            issues_view(out@) == after_stale + mv.take(k as int).map_values(
                multi_issue(sev, registry.concern_roster@),
            ),
        decreases registry.multi_owned_concerns.len() - k,
    {
        let c = &registry.multi_owned_concerns[k];
        assert(c@ == mv[k as int]);
        let owners = owners_text(registry, c.as_str());
        let mut m = to_chars("concern ");
        push_str(&mut m, c.as_str());
        push_str(&mut m, " has multiple active owners: ");
        push_str(&mut m, owners.as_str());
        proof {
            reveal_strlit("concern ");
        }
        push_issue(
            &mut out,
            Issue {
                severity: sev,
                code: IssueCode::MultiOwnedConcern,
                file: String::from_str(".context/.registry.json"),
                message: from_chars(&m),
            },
        );
        assert(mv.take(k + 1).map_values(multi_issue(sev, registry.concern_roster@)) =~= mv.take(
            k as int,
        ).map_values(multi_issue(sev, registry.concern_roster@)).push(
            multi_issue(sev, registry.concern_roster@)(mv[k as int]),
        ));
        k += 1;
    }
    assert(mv.take(registry.multi_owned_concerns.len() as int) =~= mv);
    out
}

// ---------------------------------------------------------------------------
// Ordering and staged files
// ---------------------------------------------------------------------------

/// `(a1, a2) <= (b1, b2)` in lexicographic order of text.
pub open spec fn lex2_le(a1: Seq<char>, a2: Seq<char>, b1: Seq<char>, b2: Seq<char>) -> bool {
    crate::text::seq_lt(a1, b1) || (a1 == b1 && crate::text::seq_le(a2, b2))
}

proof fn lemma_lex2_total(a1: Seq<char>, a2: Seq<char>, b1: Seq<char>, b2: Seq<char>)
    ensures
        lex2_le(a1, a2, b1, b2) || lex2_le(b1, b2, a1, a2),
{
    crate::text::lemma_seq_lt_trichotomy(a1, b1);
    crate::text::lemma_seq_le_total(a2, b2);
}

proof fn lemma_lex2_trans(
    a1: Seq<char>,
    a2: Seq<char>,
    b1: Seq<char>,
    b2: Seq<char>,
    c1: Seq<char>,
    c2: Seq<char>,
)
    requires
        lex2_le(a1, a2, b1, b2),
        lex2_le(b1, b2, c1, c2),
    ensures
        lex2_le(a1, a2, c1, c2),
{
    if crate::text::seq_lt(a1, b1) && crate::text::seq_lt(b1, c1) {
        crate::text::lemma_seq_lt_transitive(a1, b1, c1);
    }
    if a1 == b1 && b1 == c1 {
        crate::text::lemma_seq_lt_irreflexive(a1);
        crate::text::lemma_seq_le_transitive(a2, b2, c2);
    }
}

/// Issues are ordered by file, then code, then message.
impl crate::sort::SortKey for Issue {
    open spec fn key_le(&self, other: &Self) -> bool {
        crate::text::seq_lt(self.file@, other.file@) || (self.file@ == other.file@ && lex2_le(
            self.code.spec_text(),
            self.message@,
            other.code.spec_text(),
            other.message@,
        ))
    }

    fn key_le_exec(&self, other: &Self) -> (r: bool) {
        let a = self.code.as_str();
        let b = other.code.as_str();
        crate::text::str_lt(self.file.as_str(), other.file.as_str()) || (crate::text::str_eq(
            self.file.as_str(),
            other.file.as_str(),
        ) && (crate::text::str_lt(a, b) || (crate::text::str_eq(a, b) && crate::text::str_le(
            self.message.as_str(),
            other.message.as_str(),
        ))))
    }

    proof fn lemma_key_total(a: &Self, b: &Self) {
        crate::text::lemma_seq_lt_trichotomy(a.file@, b.file@);
        lemma_lex2_total(a.code.spec_text(), a.message@, b.code.spec_text(), b.message@);
    }

    proof fn lemma_key_trans(a: &Self, b: &Self, c: &Self) {
        if crate::text::seq_lt(a.file@, b.file@) && crate::text::seq_lt(b.file@, c.file@) {
            crate::text::lemma_seq_lt_transitive(a.file@, b.file@, c.file@);
        }
        if a.file@ == b.file@ && b.file@ == c.file@ {
            crate::text::lemma_seq_lt_irreflexive(a.file@);
            lemma_lex2_trans(
                a.code.spec_text(),
                a.message@,
                b.code.spec_text(),
                b.message@,
                c.code.spec_text(),
                c.message@,
            );
        }
    }
}

/// The issues ordered by file, then code, then message.
pub fn sort_issues(issues: Vec<Issue>) -> (r: Vec<Issue>)
    ensures
        crate::sort::stable_sort_of(r@, issues@),
{
    crate::sort::stable_sort(issues)
}

pub open spec fn md_suffix() -> Seq<char> {
    seq!['.', 'm', 'd']
}

pub open spec fn is_md_line() -> spec_fn(Seq<char>) -> bool {
    |l: Seq<char>| l.len() > 0 && md_suffix().is_suffix_of(l)
}

pub open spec fn trim_line() -> spec_fn(Seq<char>) -> Seq<char> {
    |l: Seq<char>| crate::text::trim(l)
}

/// The Markdown files named in `git diff --name-only` output, trimmed,
/// sorted, without repeats.
pub fn staged_files_from_output(text: &str) -> (r: Vec<String>)
    ensures
        crate::sort::strictly_sorted(r.deep_view()),
        r.deep_view().to_set() == lines(text@).map_values(trim_line()).filter(is_md_line()).to_set(),
{
    let c = to_chars(text);
    let ls = split_lines(&c);
    let ghost lv = ls.deep_view();
    let ghost mv = lv.map_values(trim_line());
    let md = vec!['.', 'm', 'd'];
    assert(md@ =~= md_suffix());
    let mut files: Vec<String> = Vec::new();
    let mut i: usize = 0;
    while i < ls.len()
        invariant
            i <= ls.len(),
            lv == ls.deep_view(),
            mv == lv.map_values(trim_line()),
            md@ == md_suffix(),
            files.deep_view() == mv.take(i as int).filter(is_md_line()),
        decreases ls.len() - i,
    {
        assert(lv[i as int] == ls@[i as int]@);
        assert(mv.take(i + 1) =~= mv.take(i as int).push(mv[i as int]));
        proof {
            mv.take(i as int).lemma_filter_push(mv[i as int], is_md_line());
        }
        let t = crate::text::trim_chars(&ls[i]);
        if t.len() > 0 && crate::text::ends_with(&t, &md) {
            crate::text::push_string(&mut files, from_chars(&t));
        }
        i += 1;
    }
    assert(mv.take(ls.len() as int) =~= mv);
    crate::sort::sort_dedup_strings(&files)
}

/// The object name `git show` reads: `:{file}` from the index, else
/// `{revision}:{file}`.
pub fn git_object_spec(revision_prefix: &str, file: &str) -> (r: String)
    ensures
        r@ == (if revision_prefix@ == ":"@ {
            ":"@ + file@
        } else {
            revision_prefix@ + ":"@ + file@
        }),
{
    let mut out: Vec<char> = Vec::new();
    if crate::text::str_eq(revision_prefix, ":") {
        push_str(&mut out, ":");
        push_str(&mut out, file);
    } else {
        push_str(&mut out, revision_prefix);
        push_str(&mut out, ":");
        push_str(&mut out, file);
    }
    from_chars(&out)
}

} // verus!
