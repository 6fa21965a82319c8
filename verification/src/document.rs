//! Context documents: frontmatter fields, concern ownership, and the
//! `### concern [rN]` sections of a document body.
use vstd::prelude::*;
use crate::text::{
    chars_eq, decimal, decimal_chars, ends_with, find, from_chars, is_ws, join, join_chars,
    lemma_find, lemma_rfind, occurs_at, lemma_trim_end_len, lines, parse_u8, parse_u8_chars, push_all,
    push_line, push_str, push_string, rfind, rfind_chars, seq_lt, slice, split_lines, digit_char,
    split_str, split_str_chars, starts_with, str_eq, strings_contain, to_chars, trim,
    trim_chars, trim_end, trim_end_chars, trim_end_matches, trim_end_matches_chars,
};

verus! {

broadcast use crate::views::lemma_char_vec_deep_view;

/// Whether a document still owns all, some, or none of its concerns.
#[derive(Clone, Copy, Debug, PartialEq, Eq, Structural)]
pub enum Status {
    Current,
    PartiallySuperseded,
    Superseded,
}

/// Repository paths (globs) and component labels a document is scoped to.
#[derive(Clone, Debug)]
pub struct Scope {
    pub paths: Vec<String>,
    pub components: Vec<String>,
}

/// A record that document `id` replaced this one for `concerns`.
#[derive(Clone, Debug)]
pub struct SupersededBy {
    pub id: String,
    pub concerns: Vec<String>,
}

/// The managed metadata at the head of a context document. `created` holds
/// the creation time as RFC 3339 text.
#[derive(Clone, Debug)]
pub struct Frontmatter {
    pub id: String,
    pub created: String,
    pub status: Status,
    pub concerns: Vec<String>,
    pub scope: Scope,
    pub superseded_by: Vec<SupersededBy>,
}

/// `c` is among the concerns that some entry of `sb` took over.
pub open spec fn superseded_concern(sb: Seq<SupersededBy>, c: Seq<char>) -> bool {
    exists|i: int| 0 <= i < sb.len() && (#[trigger] sb[i]).concerns.deep_view().contains(c)
}

/// No record of `sb` took `c` over.
pub open spec fn not_superseded(sb: Seq<SupersededBy>) -> spec_fn(Seq<char>) -> bool {
    |c: Seq<char>| !superseded_concern(sb, c)
}

/// The concerns of `fm` that no supersession record took over, in order.
pub open spec fn spec_active_concerns(fm: Frontmatter) -> Seq<Seq<char>> {
    fm.concerns.deep_view().filter(not_superseded(fm.superseded_by@))
}

/// The status that the concerns and supersession records of `fm` call for.
pub open spec fn spec_status(fm: Frontmatter) -> Status {
    if spec_active_concerns(fm).len() == 0 {
        Status::Superseded
    } else if fm.superseded_by.len() == 0 {
        Status::Current
    } else {
        Status::PartiallySuperseded
    }
}

fn is_superseded(sb: &Vec<SupersededBy>, c: &str) -> (r: bool)
    ensures
        r == superseded_concern(sb@, c@),
{
    let mut i: usize = 0;
    while i < sb.len()
        invariant
            i <= sb.len(),
            forall|k: int| 0 <= k < i ==> !(#[trigger] sb@[k]).concerns.deep_view().contains(c@),
        decreases sb.len() - i,
    {
        if strings_contain(&sb[i].concerns, c) {
            return true;
        }
        i += 1;
    }
    false
}

/// The concerns that `frontmatter` still owns.
pub fn active_concerns(frontmatter: &Frontmatter) -> (r: Vec<String>)
    ensures
        r.deep_view() == spec_active_concerns(*frontmatter),
{
    let ghost f = not_superseded(frontmatter.superseded_by@);
    let mut out: Vec<String> = Vec::new();
    let mut i: usize = 0;
    while i < frontmatter.concerns.len()
        invariant
            i <= frontmatter.concerns.len(),
            f == not_superseded(frontmatter.superseded_by@),
            out.deep_view() == frontmatter.concerns.deep_view().take(i as int).filter(f),
        decreases frontmatter.concerns.len() - i,
    {
        let ghost cs = frontmatter.concerns.deep_view();
        assert(cs.take(i + 1) =~= cs.take(i as int).push(cs[i as int]));
        proof {
            cs.take(i as int).lemma_filter_push(cs[i as int], f);
        }
        let c = &frontmatter.concerns[i];
        if !is_superseded(&frontmatter.superseded_by, c.as_str()) {
            let copy = crate::text::clone_string(c);
            push_string(&mut out, copy);
        }
        i += 1;
    }
    assert(frontmatter.concerns.deep_view().take(frontmatter.concerns.len() as int)
        =~= frontmatter.concerns.deep_view());
    out
}

/// Sets `status` from the concerns still owned: superseded when none are,
/// current when nothing was superseded, partially superseded otherwise.
pub fn recompute_status(frontmatter: &mut Frontmatter)
    ensures
        final(frontmatter).status == spec_status(*old(frontmatter)),
        final(frontmatter).id == old(frontmatter).id,
        final(frontmatter).created == old(frontmatter).created,
        final(frontmatter).concerns == old(frontmatter).concerns,
        final(frontmatter).scope == old(frontmatter).scope,
        final(frontmatter).superseded_by == old(frontmatter).superseded_by,
{
    let active = active_concerns(frontmatter);
    if active.len() == 0 {
        frontmatter.status = Status::Superseded;
    } else if frontmatter.superseded_by.len() == 0 {
        frontmatter.status = Status::Current;
    } else {
        frontmatter.status = Status::PartiallySuperseded;
    }
}

// ---------------------------------------------------------------------------
// Ranks
// ---------------------------------------------------------------------------

/// A rank outside the allowed range 1 to 5.
#[derive(Clone, Copy, Debug, PartialEq, Eq, Structural)]
pub enum RankError {
    OutOfRange,
}

impl RankError {
    pub fn message(&self) -> (r: String)
        ensures
            r@ == "rank must be between 1 and 5 inclusive"@,
    {
        String::from_str("rank must be between 1 and 5 inclusive")
    }
}

/// Ranks run from 1 to 5 inclusive.
pub fn validate_rank(rank: u8) -> (r: Result<(), RankError>)
    ensures
        r is Ok <==> 1 <= rank <= 5,
        r is Err ==> r == Err::<(), RankError>(RankError::OutOfRange),
{
    if 1 <= rank && rank <= 5 {
        Ok(())
    } else {
        Err(RankError::OutOfRange)
    }
}

/// `### ` as characters.
pub open spec fn heading_marker() -> Seq<char> {
    seq!['#', '#', '#', ' ']
}

pub fn heading_marker_chars() -> (r: Vec<char>)
    ensures
        r@ == heading_marker(),
{
    let r = vec!['#', '#', '#', ' '];
    assert(r@ =~= heading_marker());
    r
}

/// The block `### {concern} [r{rank}]`, a blank line, the trimmed text and a
/// final newline.
pub open spec fn spec_ranked_block(concern: Seq<char>, text: Seq<char>, rank: u8) -> Seq<char> {
    heading_marker() + concern + seq![' ', '[', 'r'] + decimal(rank as nat) + seq![']', '\n', '\n']
        + trim(text) + seq!['\n']
}

/// A new concern section carrying its rank in the heading.
pub fn format_ranked_concern_block(concern: &str, text: &str, rank: u8) -> (r: String)
    ensures
        r@ == spec_ranked_block(concern@, text@, rank),
{
    let mut out = heading_marker_chars();
    push_str(&mut out, concern);
    let open = vec![' ', '[', 'r'];
    push_all(&mut out, &open);
    let digits = decimal_chars(rank as u64);
    push_all(&mut out, &digits);
    let close = vec![']', '\n', '\n'];
    push_all(&mut out, &close);
    let t = to_chars(text);
    let tt = trim_chars(&t);
    push_all(&mut out, &tt);
    out.push('\n');
    assert(out@ =~= spec_ranked_block(concern@, text@, rank));
    from_chars(&out)
}

// ---------------------------------------------------------------------------
// Concern headings
// ---------------------------------------------------------------------------

/// ` [` as characters.
pub open spec fn meta_open() -> Seq<char> {
    seq![' ', '[']
}

/// `h` with trailing ` [...]` metadata suffixes removed, each time trimming
/// the whitespace before the suffix.
pub open spec fn strip_heading_metadata(h: Seq<char>) -> Seq<char>
    decreases h.len(),
{
    match rfind(h, meta_open()) {
        Some(i) => if 0 <= i && i + 2 <= h.len() && seq![']'].is_suffix_of(h.skip(i + 2)) {
            proof {
                lemma_trim_end_len(h.take(i));
            }
            strip_heading_metadata(trim_end(h.take(i)))
        } else {
            h
        },
        None => h,
    }
}

/// The concern a `### ` heading line names: the trimmed heading without its
/// metadata suffixes, when that is not empty.
pub open spec fn spec_concern_heading(line: Seq<char>) -> Option<Seq<char>> {
    if heading_marker().is_prefix_of(line) {
        let h = trim(line.skip(4));
        let c = trim(strip_heading_metadata(h));
        if h.len() == 0 || c.len() == 0 {
            None
        } else {
            Some(c)
        }
    } else {
        None
    }
}

fn strip_heading_metadata_chars(h: &Vec<char>) -> (r: Vec<char>)
    ensures
        r@ == strip_heading_metadata(h@),
{
    let open = vec![' ', '['];
    assert(open@ =~= meta_open());
    let close = vec![']'];
    assert(close@ =~= seq![']']);
    let mut cur = h.clone();
    loop
        invariant
            open@ == meta_open(),
            close@ == seq![']'],
            strip_heading_metadata(h@) == strip_heading_metadata(cur@),
        ensures
            cur@ == strip_heading_metadata(h@),
        decreases cur@.len(),
    {
        proof {
            lemma_rfind(cur@, open@);
        }
        match rfind_chars(&cur, &open) {
            None => {
                break ;
            },
            Some(i) => {
                assert(crate::text::occurs_at(cur@, open@, i as int));
                let n = cur.len();
                let suffix = slice(&cur, i + 2, n);
                assert(suffix@ =~= cur@.skip(i + 2));
                if ends_with(&suffix, &close) {
                    let prefix = slice(&cur, 0, i);
                    assert(prefix@ =~= cur@.take(i as int));
                    proof {
                        lemma_trim_end_len(cur@.take(i as int));
                    }
                    cur = trim_end_chars(&prefix);
                } else {
                    break ;
                }
            },
        }
    }
    cur
}

fn concern_heading_chars(line: &Vec<char>) -> (r: Option<Vec<char>>)
    ensures
        r matches Some(c) ==> spec_concern_heading(line@) == Some(c@),
        r is None ==> spec_concern_heading(line@) is None,
{
    let marker = heading_marker_chars();
    if !starts_with(line, &marker) {
        return None;
    }
    let rest = slice(line, 4, line.len());
    assert(rest@ =~= line@.skip(4));
    let h = trim_chars(&rest);
    if h.len() == 0 {
        return None;
    }
    let stripped = strip_heading_metadata_chars(&h);
    let c = trim_chars(&stripped);
    if c.len() == 0 {
        None
    } else {
        Some(c)
    }
}

/// The concern named by a `### concern [meta]...` heading line.
pub fn parse_concern_heading(line: &str) -> (r: Option<String>)
    ensures
        r matches Some(c) ==> spec_concern_heading(line@) == Some(c@),
        r is None ==> spec_concern_heading(line@) is None,
{
    let l = to_chars(line);
    match concern_heading_chars(&l) {
        Some(c) => Some(from_chars(&c)),
        None => None,
    }
}

/// The concerns that the heading lines of `body` name, in order.
pub open spec fn spec_concern_headings(body: Seq<char>) -> Seq<Seq<char>> {
    lines(body).filter_map(|l: Seq<char>| spec_concern_heading(l))
}

/// The concerns named by the section headings of `body`.
pub fn concern_headings(body: &str) -> (r: Vec<String>)
    ensures
        r.deep_view() == spec_concern_headings(body@),
{
    let b = to_chars(body);
    let ls = split_lines(&b);
    let ghost f = |l: Seq<char>| spec_concern_heading(l);
    let mut out: Vec<String> = Vec::new();
    let mut i: usize = 0;
    while i < ls.len()
        invariant
            i <= ls.len(),
            ls.deep_view() == lines(body@),
            f == (|l: Seq<char>| spec_concern_heading(l)),
            out.deep_view() == ls.deep_view().take(i as int).filter_map(f),
        decreases ls.len() - i,
    {
        let ghost lv = ls.deep_view();
        assert(lv.take(i + 1) =~= lv.take(i as int).push(lv[i as int]));
        assert(lv[i as int] == ls@[i as int]@);
        proof {
            lv.lemma_filter_map_take_succ(f, i as int);
        }
        match concern_heading_chars(&ls[i]) {
            Some(c) => {
                push_string(&mut out, from_chars(&c));
            },
            None => {},
        }
        i += 1;
    }
    assert(ls.deep_view().take(ls.len() as int) =~= ls.deep_view());
    out
}

} // verus!

verus! {

// ---------------------------------------------------------------------------
// Extracting one concern's section
// ---------------------------------------------------------------------------

/// Index of the first line whose heading names `concern`.
pub open spec fn find_heading(ls: Seq<Seq<char>>, concern: Seq<char>) -> Option<int>
    decreases ls.len(),
{
    if ls.len() == 0 {
        None
    } else if spec_concern_heading(ls[0]) == Some(concern) {
        Some(0)
    } else {
        match find_heading(ls.drop_first(), concern) {
            Some(k) => Some(k + 1),
            None => None,
        }
    }
}

/// The lines after a section's heading that still belong to it: up to the
/// next `### ` line that names another concern.
pub open spec fn section_tail(rest: Seq<Seq<char>>, concern: Seq<char>) -> Seq<Seq<char>>
    decreases rest.len(),
{
    if rest.len() == 0 {
        Seq::empty()
    } else if spec_concern_heading(rest[0]) == Some(concern) || !heading_marker().is_prefix_of(
        rest[0],
    ) {
        seq![rest[0]] + section_tail(rest.drop_first(), concern)
    } else {
        Seq::empty()
    }
}

/// The section of `body` headed by `concern`, trimmed, with one final newline.
pub open spec fn spec_extract_section(body: Seq<char>, concern: Seq<char>) -> Option<Seq<char>> {
    let ls = lines(body);
    match find_heading(ls, concern) {
        None => None,
        Some(k) => Some(
            trim(join(seq![ls[k]] + section_tail(ls.skip(k + 1), concern), seq!['\n'])) + seq![
                '\n',
            ],
        ),
    }
}

proof fn lemma_find_heading_bound(ls: Seq<Seq<char>>, concern: Seq<char>)
    ensures
        find_heading(ls, concern) matches Some(k) ==> 0 <= k < ls.len(),
    decreases ls.len(),
{
    if ls.len() > 0 {
        lemma_find_heading_bound(ls.drop_first(), concern);
    }
}

fn heading_is(line: &Vec<char>, concern: &Vec<char>) -> (r: bool)
    ensures
        r == (spec_concern_heading(line@) == Some(concern@)),
{
    match concern_heading_chars(line) {
        Some(c) => chars_eq(&c, concern),
        None => false,
    }
}

/// The section of `body` that belongs to `concern`: its heading line and
/// what follows up to the next heading of another concern.
pub fn extract_concern_section(body: &str, concern: &str) -> (r: Option<String>)
    ensures
        r matches Some(s) ==> spec_extract_section(body@, concern@) == Some(s@),
        r is None ==> spec_extract_section(body@, concern@) is None,
{
    let b = to_chars(body);
    let c = to_chars(concern);
    let ls = split_lines(&b);
    let ghost lv = ls.deep_view();
    let mut k: usize = 0;
    assert(lv.skip(0) =~= lv);
    loop
        invariant
            k <= ls.len(),
            lv == ls.deep_view(),
            lv == lines(body@),
            c@ == concern@,
            find_heading(lv, c@) == (match find_heading(lv.skip(k as int), c@) {
                Some(j) => Some(j + k),
                None => None,
            }),
        ensures
            k < ls.len(),
            lv == ls.deep_view(),
            find_heading(lv, c@) == Some(k as int),
        decreases ls.len() - k,
    {
        if k == ls.len() {
            assert(lv.skip(k as int).len() == 0);
            return None;
        }
        assert(lv[k as int] == ls@[k as int]@);
        assert(lv.skip(k as int)[0] == lv[k as int]);
        if heading_is(&ls[k], &c) {
            assert(find_heading(lv.skip(k as int), c@) == Some(0int));
            break ;
        }
        assert(lv.skip(k as int).drop_first() =~= lv.skip(k + 1));
        k += 1;
    }
    let mut section: Vec<Vec<char>> = Vec::new();
    push_line(&mut section, ls[k].clone());
    let mut m: usize = k + 1;
    assert(lv.skip(k + 1) =~= lv.skip(m as int));
    loop
        invariant
            k < m <= ls.len(),
            lv == ls.deep_view(),
            c@ == concern@,
            seq![lv[k as int]] + section_tail(lv.skip(k + 1), c@) == section.deep_view()
                + section_tail(lv.skip(m as int), c@),
        ensures
            seq![lv[k as int]] + section_tail(lv.skip(k + 1), c@) == section.deep_view(),
        decreases ls.len() - m,
    {
        if m == ls.len() {
            assert(lv.skip(m as int).len() == 0);
            assert(section.deep_view() + Seq::<Seq<char>>::empty() =~= section.deep_view());
            break ;
        }
        let ghost rest = lv.skip(m as int);
        assert(rest[0] == ls@[m as int]@);
        let marker = heading_marker_chars();
        if heading_is(&ls[m], &c) || !starts_with(&ls[m], &marker) {
            let ghost before = section.deep_view();
            push_line(&mut section, ls[m].clone());
            assert(rest.drop_first() =~= lv.skip(m + 1));
            assert(before + section_tail(rest, c@) =~= section.deep_view() + section_tail(
                lv.skip(m + 1),
                c@,
            ));
            m += 1;
        } else {
            assert(section_tail(rest, c@) =~= Seq::<Seq<char>>::empty());
            assert(section.deep_view() + Seq::<Seq<char>>::empty() =~= section.deep_view());
            break ;
        }
    }
    let nl = vec!['\n'];
    let joined = join_chars(&section, &nl);
    let mut out = trim_chars(&joined);
    out.push('\n');
    assert(nl@ =~= seq!['\n']);
    Some(from_chars(&out))
}

// ---------------------------------------------------------------------------
// Ranks in headings and ordering sections by rank
// ---------------------------------------------------------------------------

/// The first rank in `segs` (the pieces after each ` [`) that is written
/// `r{n}]`: the first such piece decides, and a piece whose number does not
/// parse ends the search; a number outside 1..=5 is passed over.
pub open spec fn rank_from_suffixes(segs: Seq<Seq<char>>) -> Option<u8>
    decreases segs.len(),
{
    if segs.len() == 0 {
        None
    } else {
        let suf = segs[0];
        if suf.len() > 0 && suf.last() == ']' && suf.drop_last().len() > 0 && suf.drop_last()[0]
            == 'r' {
            match parse_u8(suf.drop_last().drop_first()) {
                None => None,
                Some(r) => if 1 <= r <= 5 {
                    Some(r)
                } else {
                    rank_from_suffixes(segs.drop_first())
                },
            }
        } else {
            rank_from_suffixes(segs.drop_first())
        }
    }
}

/// The rank carried by a `### ` heading line.
pub open spec fn spec_concern_rank(line: Seq<char>) -> Option<u8> {
    if heading_marker().is_prefix_of(line) {
        rank_from_suffixes(split_str(trim(line.skip(4)), meta_open()).drop_first())
    } else {
        None
    }
}

/// A rank read from heading suffixes is from 1 to 5.
pub proof fn lemma_rank_from_suffixes_range(segs: Seq<Seq<char>>)
    ensures
        rank_from_suffixes(segs) matches Some(r) ==> 1 <= r <= 5,
    decreases segs.len(),
{
    if segs.len() > 0 {
        lemma_rank_from_suffixes_range(segs.drop_first());
    }
}

fn concern_rank_chars(line: &Vec<char>) -> (r: Option<u8>)
    ensures
        r == spec_concern_rank(line@),
{
    let marker = heading_marker_chars();
    if !starts_with(line, &marker) {
        return None;
    }
    let rest = slice(line, 4, line.len());
    assert(rest@ =~= line@.skip(4));
    let h = trim_chars(&rest);
    let open = vec![' ', '['];
    assert(open@ =~= meta_open());
    let segs = split_str_chars(&h, &open);
    let ghost all = segs.deep_view();
    assert(spec_concern_rank(line@) == rank_from_suffixes(all.drop_first()));
    let mut j: usize = 1;
    if segs.len() == 0 {
        assert(all.drop_first().len() == 0);
        return None;
    }
    assert(all.drop_first() =~= all.skip(1));
    loop
        invariant
            1 <= j <= segs.len(),
            all == segs.deep_view(),
            spec_concern_rank(line@) == rank_from_suffixes(all.drop_first()),
            rank_from_suffixes(all.drop_first()) == rank_from_suffixes(all.skip(j as int)),
        decreases segs.len() - j,
    {
        if j == segs.len() {
            assert(all.skip(j as int).len() == 0);
            return None;
        }
        let suf = &segs[j];
        let ghost sv = all.skip(j as int)[0];
        assert(sv == suf@);
        assert(all.skip(j as int).drop_first() =~= all.skip(j + 1));
        let n = suf.len();
        if n > 0 && suf[n - 1] == ']' && n - 1 > 0 && suf[0] == 'r' {
            let value = slice(suf, 1, n - 1);
            assert(value@ =~= sv.drop_last().drop_first());
            match parse_u8_chars(&value) {
                None => {
                    return None;
                },
                Some(r) => {
                    if 1 <= r && r <= 5 {
                        return Some(r);
                    }
                },
            }
        }
        j += 1;
    }
}

/// The rank in a heading's `[rN]` metadata, when it has one from 1 to 5.
pub fn parse_concern_rank(line: &str) -> (r: Option<u8>)
    ensures
        r == spec_concern_rank(line@),
{
    let l = to_chars(line);
    concern_rank_chars(&l)
}

} // verus!

verus! {

/// The rank a section is ordered by: its heading's rank, or 0 without one.
pub open spec fn rank_key(r: Option<u8>) -> int {
    match r {
        Some(x) => x as int,
        None => 0,
    }
}

/// Indices of the lines among the first `n` that start with `### `.
pub open spec fn heading_starts_upto(ls: Seq<Seq<char>>, n: int) -> Seq<int>
    decreases n,
{
    if n <= 0 {
        Seq::empty()
    } else {
        let prev = heading_starts_upto(ls, n - 1);
        if heading_marker().is_prefix_of(ls[n - 1]) {
            prev.push(n - 1)
        } else {
            prev
        }
    }
}

/// Indices of the lines of `ls` that start with `### `.
pub open spec fn heading_starts(ls: Seq<Seq<char>>) -> Seq<int> {
    heading_starts_upto(ls, ls.len() as int)
}

/// Where section `j` ends: at the next heading, or at the end.
pub open spec fn section_end(ls: Seq<Seq<char>>, st: Seq<int>, j: int) -> int {
    if j + 1 < st.len() {
        st[j + 1]
    } else {
        ls.len() as int
    }
}

/// Each section of the body as its rank key and its lines joined.
pub open spec fn spec_sections(ls: Seq<Seq<char>>) -> Seq<(int, Seq<char>)> {
    let st = heading_starts(ls);
    Seq::new(
        st.len(),
        |j: int|
            (
                rank_key(spec_concern_rank(ls[st[j]])),
                join(ls.subrange(st[j], section_end(ls, st, j)), seq!['\n']),
            ),
    )
}

/// The texts of the sections with rank key `k`, in body order, without
/// trailing newlines.
pub open spec fn ranked_texts(secs: Seq<(int, Seq<char>)>, k: int) -> Seq<Seq<char>>
    decreases secs.len(),
{
    if secs.len() == 0 {
        Seq::empty()
    } else {
        let prev = ranked_texts(secs.drop_last(), k);
        if secs.last().0 == k {
            prev.push(trim_end_matches(secs.last().1, seq!['\n']))
        } else {
            prev
        }
    }
}

/// The sections from rank 5 down to unranked; equal ranks keep body order.
pub open spec fn by_descending_rank(secs: Seq<(int, Seq<char>)>) -> Seq<Seq<char>> {
    ranked_texts(secs, 5) + ranked_texts(secs, 4) + ranked_texts(secs, 3) + ranked_texts(secs, 2)
        + ranked_texts(secs, 1) + ranked_texts(secs, 0)
}

/// `body` with its concern sections reordered by descending rank. Text
/// before the first heading stays first; the pieces are separated by one blank
/// line and the result ends in a newline. A body without headings is
/// returned unchanged.
pub open spec fn spec_sort_sections(body: Seq<char>) -> Seq<char> {
    let ls = lines(body);
    let st = heading_starts(ls);
    if st.len() == 0 {
        body
    } else {
        let pre = if st[0] > 0 {
            seq![trim_end_matches(join(ls.take(st[0]), seq!['\n']), seq!['\n'])]
        } else {
            Seq::<Seq<char>>::empty()
        };
        join(pre + by_descending_rank(spec_sections(ls)), seq!['\n', '\n']) + seq!['\n']
    }
}

/// Heading positions among the first `n` lines increase and lie below `n`.
pub proof fn lemma_heading_starts_props(ls: Seq<Seq<char>>, n: int)
    requires
        0 <= n <= ls.len(),
    ensures
        forall|a: int, b: int|
            0 <= a < b < heading_starts_upto(ls, n).len() ==> heading_starts_upto(ls, n)[a]
                < heading_starts_upto(ls, n)[b],
        forall|a: int|
            0 <= a < heading_starts_upto(ls, n).len() ==> 0 <= #[trigger] heading_starts_upto(
                ls,
                n,
            )[a] < n,
    decreases n,
{
    if n > 0 {
        lemma_heading_starts_props(ls, n - 1);
        let prev = heading_starts_upto(ls, n - 1);
        let cur = heading_starts_upto(ls, n);
        if heading_marker().is_prefix_of(ls[n - 1]) {
            assert(cur == prev.push(n - 1));
            assert forall|a: int| 0 <= a < cur.len() implies 0 <= #[trigger] cur[a] < n by {
                if a < prev.len() {
                    assert(cur[a] == prev[a]);
                }
            }
            assert forall|a: int, b: int| 0 <= a < b < cur.len() implies cur[a] < cur[b] by {
                assert(cur[a] == prev[a]);
                if b < prev.len() {
                    assert(cur[b] == prev[b]);
                } else {
                    assert(0 <= prev[a] < n - 1);
                }
            }
        } else {
            assert(cur == prev);
            assert forall|a: int| 0 <= a < cur.len() implies 0 <= #[trigger] cur[a] < n by {
                assert(0 <= prev[a] < n - 1);
            }
        }
    }
}

/// A copy of `ls[from..to]`.
fn slice_lines(ls: &Vec<Vec<char>>, from: usize, to: usize) -> (r: Vec<Vec<char>>)
    requires
        from <= to <= ls.len(),
    ensures
        r.deep_view() == ls.deep_view().subrange(from as int, to as int),
{
    let mut out: Vec<Vec<char>> = Vec::new();
    let mut i = from;
    while i < to
        invariant
            from <= i <= to <= ls.len(),
            out.deep_view() == ls.deep_view().subrange(from as int, i as int),
        decreases to - i,
    {
        assert(ls.deep_view()[i as int] == ls@[i as int]@);
        push_line(&mut out, ls[i].clone());
        assert(ls.deep_view().subrange(from as int, i + 1) =~= ls.deep_view().subrange(
            from as int,
            i as int,
        ).push(ls.deep_view()[i as int]));
        i += 1;
    }
    out
}

/// Reorders the concern sections of `body` so that higher ranks come first;
/// sections of equal rank, and unranked ones after all ranked ones, keep
/// their order.
pub fn sort_concern_sections_by_rank(body: &str) -> (r: String)
    ensures
        r@ == spec_sort_sections(body@),
{
    let b = to_chars(body);
    let ls = split_lines(&b);
    let ghost lv = ls.deep_view();
    let marker = heading_marker_chars();
    // heading positions
    let mut st: Vec<usize> = Vec::new();
    let mut i: usize = 0;
    while i < ls.len()
        invariant
            i <= ls.len(),
            lv == ls.deep_view(),
            marker@ == heading_marker(),
            st@.len() == heading_starts_upto(lv, i as int).len(),
            forall|a: int| 0 <= a < st@.len() ==> st@[a] as int == heading_starts_upto(lv, i as int)[a],
        decreases ls.len() - i,
    {
        assert(lv[i as int] == ls@[i as int]@);
        let ghost prev = st@;
        if starts_with(&ls[i], &marker) {
            st.push(i);
            assert(heading_starts_upto(lv, i + 1) == heading_starts_upto(lv, i as int).push(
                i as int,
            ));
        } else {
            assert(heading_starts_upto(lv, i + 1) == heading_starts_upto(lv, i as int));
        }
        i += 1;
    }
    let ghost gst = heading_starts(lv);
    proof {
        lemma_heading_starts_props(lv, lv.len() as int);
    }
    if st.len() == 0 {
        assert(lines(body@) == lv);
        return String::from_str(body);
    }
    // sections
    let nl = vec!['\n'];
    assert(nl@ =~= seq!['\n']);
    let ghost secs = spec_sections(lv);
    let mut keys: Vec<u8> = Vec::new();
    let mut texts: Vec<Vec<char>> = Vec::new();
    let mut j: usize = 0;
    while j < st.len()
        invariant
            j <= st.len(),
            lv == ls.deep_view(),
            nl@ == seq!['\n'],
            gst == heading_starts(lv),
            secs == spec_sections(lv),
            st@.len() == gst.len(),
            forall|a: int| 0 <= a < st@.len() ==> st@[a] as int == gst[a],
            forall|a: int, c: int| 0 <= a < c < gst.len() ==> gst[a] < gst[c],
            forall|a: int| 0 <= a < gst.len() ==> 0 <= #[trigger] gst[a] < lv.len(),
            keys@.len() == j,
            texts@.len() == j,
            forall|a: int| 0 <= a < j ==> keys@[a] as int == (#[trigger] secs[a]).0,
            forall|a: int| 0 <= a < j ==> texts@[a]@ == (#[trigger] secs[a]).1,
        decreases st.len() - j,
    {
        let start = st[j];
        assert(start as int == gst[j as int]);
        assert(lv.len() == ls@.len());
        let end = if j + 1 < st.len() {
            assert(st@[j + 1] as int == gst[j + 1]);
            st[j + 1]
        } else {
            ls.len()
        };
        assert(end as int == section_end(lv, gst, j as int));
        let part = slice_lines(&ls, start, end);
        let text = join_chars(&part, &nl);
        assert(lv[start as int] == ls@[start as int]@);
        let rank = concern_rank_chars(&ls[start]);
        proof {
            lemma_rank_from_suffixes_range(
                split_str(trim(lv[start as int].skip(4)), meta_open()).drop_first(),
            );
        }
        let key: u8 = match rank {
            Some(x) => x,
            None => 0,
        };
        keys.push(key);
        texts.push(text);
        j += 1;
    }
    // pieces in output order
    let mut parts: Vec<Vec<char>> = Vec::new();
    let ghost mut pre: Seq<Seq<char>> = Seq::empty();
    if st[0] > 0 {
        let head = slice_lines(&ls, 0, st[0]);
        assert(head.deep_view() =~= lv.take(gst[0]));
        let joined = join_chars(&head, &nl);
        let trimmed = trim_end_matches_chars(&joined, &nl);
        push_line(&mut parts, trimmed);
        proof {
            pre = parts.deep_view();
        }
    }
    assert(parts.deep_view() == pre);
    let ghost mut acc: Seq<Seq<char>> = Seq::empty();
    let mut k: u8 = 6;
    while k > 0
        invariant
            k <= 6,
            keys@.len() == secs.len(),
            texts@.len() == secs.len(),
            nl@ == seq!['\n'],
            forall|a: int| 0 <= a < secs.len() ==> keys@[a] as int == (#[trigger] secs[a]).0,
            forall|a: int| 0 <= a < secs.len() ==> texts@[a]@ == (#[trigger] secs[a]).1,
            parts.deep_view() == pre + acc,
            k == 6 ==> acc == Seq::<Seq<char>>::empty(),
            k == 5 ==> acc == ranked_texts(secs, 5),
            k == 4 ==> acc == ranked_texts(secs, 5) + ranked_texts(secs, 4),
            k == 3 ==> acc == ranked_texts(secs, 5) + ranked_texts(secs, 4) + ranked_texts(
                secs,
                3,
            ),
            k == 2 ==> acc == ranked_texts(secs, 5) + ranked_texts(secs, 4) + ranked_texts(secs, 3)
                + ranked_texts(secs, 2),
            k == 1 ==> acc == ranked_texts(secs, 5) + ranked_texts(secs, 4) + ranked_texts(secs, 3)
                + ranked_texts(secs, 2) + ranked_texts(secs, 1),
            k == 0 ==> acc == by_descending_rank(secs),
        decreases k,
    {
        k -= 1;
        let ghost before = acc;
        let mut m: usize = 0;
        assert(secs.take(0) =~= Seq::<(int, Seq<char>)>::empty());
        while m < keys.len()
            invariant
                m <= keys@.len(),
                keys@.len() == secs.len(),
                texts@.len() == secs.len(),
                nl@ == seq!['\n'],
                forall|a: int| 0 <= a < secs.len() ==> keys@[a] as int == (#[trigger] secs[a]).0,
                forall|a: int| 0 <= a < secs.len() ==> texts@[a]@ == (#[trigger] secs[a]).1,
                parts.deep_view() == pre + before + ranked_texts(secs.take(m as int), k as int),
            decreases keys.len() - m,
        {
            assert(secs.take(m + 1).drop_last() =~= secs.take(m as int));
            assert(secs.take(m + 1).last() == secs[m as int]);
            if keys[m] == k {
                let t = trim_end_matches_chars(&texts[m], &nl);
                let ghost pv = parts.deep_view();
                push_line(&mut parts, t);
                assert(parts.deep_view() =~= pre + before + ranked_texts(secs.take(m + 1), k as int));
            }
            m += 1;
        }
        assert(secs.take(keys.len() as int) =~= secs);
        proof {
            acc = before + ranked_texts(secs, k as int);
        }
        assert(parts.deep_view() =~= pre + acc);
    }
    let sep = vec!['\n', '\n'];
    assert(sep@ =~= seq!['\n', '\n']);
    let mut out = join_chars(&parts, &sep);
    out.push('\n');
    proof {
        assert(lines(body@) == lv);
        assert(spec_sections(lv) == secs);
        if gst[0] > 0 {
            assert(pre =~= seq![trim_end_matches(join(lv.take(gst[0]), seq!['\n']), seq!['\n'])]);
        } else {
            assert(pre =~= Seq::<Seq<char>>::empty());
        }
    }
    from_chars(&out)
}

// ---------------------------------------------------------------------------
// Views and copies
// ---------------------------------------------------------------------------

pub open spec fn scope_view(s: Scope) -> (Seq<Seq<char>>, Seq<Seq<char>>) {
    (s.paths.deep_view(), s.components.deep_view())
}

pub open spec fn sb_view(x: SupersededBy) -> (Seq<char>, Seq<Seq<char>>) {
    (x.id@, x.concerns.deep_view())
}

pub open spec fn sbs_view(s: Seq<SupersededBy>) -> Seq<(Seq<char>, Seq<Seq<char>>)> {
    s.map_values(|x: SupersededBy| sb_view(x))
}

/// Frontmatter as plain values.
pub open spec fn fm_view(f: Frontmatter) -> (
    Seq<char>,
    Seq<char>,
    Status,
    Seq<Seq<char>>,
    (Seq<Seq<char>>, Seq<Seq<char>>),
    Seq<(Seq<char>, Seq<Seq<char>>)>,
) {
    (f.id@, f.created@, f.status, f.concerns.deep_view(), scope_view(f.scope), sbs_view(f.superseded_by@))
}

pub fn copy_scope(s: &Scope) -> (r: Scope)
    ensures
        scope_view(r) == scope_view(*s),
{
    Scope { paths: crate::text::clone_strings(&s.paths), components: crate::text::clone_strings(&s.components) }
}

pub fn copy_superseded_by(x: &SupersededBy) -> (r: SupersededBy)
    ensures
        sb_view(r) == sb_view(*x),
{
    SupersededBy { id: crate::text::clone_string(&x.id), concerns: crate::text::clone_strings(&x.concerns) }
}

pub fn copy_superseded(v: &Vec<SupersededBy>) -> (r: Vec<SupersededBy>)
    ensures
        sbs_view(r@) == sbs_view(v@),
{
    let mut out: Vec<SupersededBy> = Vec::new();
    let mut i: usize = 0;
    while i < v.len()
        invariant
            i <= v.len(),
            out.len() == i,
            forall|k: int| 0 <= k < i ==> sb_view(#[trigger] out@[k]) == sb_view(v@[k]),
        decreases v.len() - i,
    {
        let c = copy_superseded_by(&v[i]);
        out.push(c);
        i += 1;
    }
    assert(sbs_view(out@) =~= sbs_view(v@));
    out
}

pub fn copy_frontmatter(f: &Frontmatter) -> (r: Frontmatter)
    ensures
        fm_view(r) == fm_view(*f),
{
    Frontmatter {
        id: crate::text::clone_string(&f.id),
        created: crate::text::clone_string(&f.created),
        status: f.status,
        concerns: crate::text::clone_strings(&f.concerns),
        scope: copy_scope(&f.scope),
        superseded_by: copy_superseded(&f.superseded_by),
    }
}

// ---------------------------------------------------------------------------
// Framing: `---` frontmatter `---` body
// ---------------------------------------------------------------------------

/// Why a document's frontmatter could not be framed.
#[derive(Clone, Copy, Debug, PartialEq, Eq, Structural)]
pub enum DocumentError {
    MissingOpening,
    MissingClosing,
}

impl DocumentError {
    pub fn message(&self) -> (r: String)
        ensures
            *self == DocumentError::MissingOpening ==> r@
                == "document must start with frontmatter delimiter"@,
            *self == DocumentError::MissingClosing ==> r@
                == "document must contain a closing frontmatter delimiter"@,
    {
        match self {
            DocumentError::MissingOpening => String::from_str(
                "document must start with frontmatter delimiter",
            ),
            DocumentError::MissingClosing => String::from_str(
                "document must contain a closing frontmatter delimiter",
            ),
        }
    }
}

/// `---\n`, which opens a document.
pub open spec fn open_delim() -> Seq<char> {
    seq!['-', '-', '-', '\n']
}

/// `\n---\n`, which ends the frontmatter.
pub open spec fn close_delim() -> Seq<char> {
    seq!['\n', '-', '-', '-', '\n']
}

/// The frontmatter text and the body of `content`: after the opening
/// `---\n`, up to the first `\n---\n`, and after it.
pub open spec fn spec_split_document(content: Seq<char>) -> Result<(Seq<char>, Seq<char>), DocumentError> {
    if !open_delim().is_prefix_of(content) {
        Err(DocumentError::MissingOpening)
    } else {
        let rest = content.skip(4);
        match find(rest, close_delim()) {
            None => Err(DocumentError::MissingClosing),
            Some(i) => Ok((rest.take(i), rest.skip(i + 5))),
        }
    }
}

/// Splits a document into its frontmatter text and its body.
pub fn split_document(content: &str) -> (r: Result<(String, String), DocumentError>)
    ensures
        r matches Ok((y, b)) ==> spec_split_document(content@) == Ok::<(Seq<char>, Seq<char>), DocumentError>((y@, b@)),
        r matches Err(e) ==> spec_split_document(content@) == Err::<(Seq<char>, Seq<char>), DocumentError>(e),
{
    let c = to_chars(content);
    let open = vec!['-', '-', '-', '\n'];
    assert(open@ =~= open_delim());
    if !starts_with(&c, &open) {
        return Err(DocumentError::MissingOpening);
    }
    let rest = slice(&c, 4, c.len());
    assert(rest@ =~= c@.skip(4));
    let close = vec!['\n', '-', '-', '-', '\n'];
    assert(close@ =~= close_delim());
    proof {
        lemma_find(rest@, close@);
    }
    match crate::text::find_chars(&rest, &close) {
        None => Err(DocumentError::MissingClosing),
        Some(i) => {
            let y = slice(&rest, 0, i);
            let b = slice(&rest, i + 5, rest.len());
            assert(y@ =~= rest@.take(i as int));
            assert(b@ =~= rest@.skip(i + 5));
            Ok((from_chars(&y), from_chars(&b)))
        },
    }
}

/// `---\n{yaml}---\n{body}`.
pub open spec fn spec_assemble_document(yaml: Seq<char>, body: Seq<char>) -> Seq<char> {
    open_delim() + yaml + seq!['-', '-', '-', '\n'] + body
}

/// A document from serialized frontmatter (ending in a newline) and a body.
pub fn assemble_document(yaml: &str, body: &str) -> (r: String)
    ensures
        r@ == spec_assemble_document(yaml@, body@),
{
    let mut out: Vec<char> = vec!['-', '-', '-', '\n'];
    push_str(&mut out, yaml);
    out.push('-');
    out.push('-');
    out.push('-');
    out.push('\n');
    push_str(&mut out, body);
    assert(out@ =~= spec_assemble_document(yaml@, body@));
    from_chars(&out)
}

/// `find` gives the first occurrence.
proof fn lemma_find_first(s: Seq<char>, p: Seq<char>, i: int)
    requires
        occurs_at(s, p, i),
        forall|j: int| 0 <= j < i ==> !occurs_at(s, p, j),
    ensures
        find(s, p) == Some(i),
{
    lemma_find(s, p);
    match find(s, p) {
        None => {},
        Some(k) => {
            if k < i {
                assert(!occurs_at(s, p, k));
            } else if i < k {
                assert(!occurs_at(s, p, i));
            }
        },
    }
}

/// Writing a document and splitting it again gives back the frontmatter and
/// the body, when the frontmatter (with its last newline) holds no line `---`
/// before its end.
pub proof fn lemma_split_assemble(yaml: Seq<char>, body: Seq<char>)
    requires
        find(yaml + close_delim(), close_delim()) == Some(yaml.len() as int),
    ensures
        spec_split_document(spec_assemble_document(yaml.push('\n'), body)) == Ok::<
            (Seq<char>, Seq<char>),
            DocumentError,
        >((yaml, body)),
{
    let doc = spec_assemble_document(yaml.push('\n'), body);
    let pre = yaml + close_delim();
    assert(open_delim().is_prefix_of(doc)) by {
        assert forall|k: int| 0 <= k < 4 implies open_delim()[k] == doc[k] by {}
    }
    let rest = doc.skip(4);
    assert(rest =~= pre + body);
    lemma_find(pre, close_delim());
    let n = yaml.len() as int;
    assert(occurs_at(rest, close_delim(), n)) by {
        assert(rest.subrange(n, n + 5) =~= pre.subrange(n, n + 5));
    }
    assert forall|j: int| 0 <= j < n implies !occurs_at(rest, close_delim(), j) by {
        assert(!occurs_at(pre, close_delim(), j));
        assert(rest.subrange(j, j + 5) =~= pre.subrange(j, j + 5));
    }
    lemma_find_first(rest, close_delim(), n);
    assert(rest.take(n) =~= yaml);
    assert(rest.skip(n + 5) =~= body);
}

/// A document that splits is the frontmatter text, a newline and the body
/// written together again.
pub proof fn lemma_assemble_split(content: Seq<char>)
    requires
        spec_split_document(content) is Ok,
    ensures
        spec_split_document(content) matches Ok((y, b)) && spec_assemble_document(y.push('\n'), b)
            == content,
{
    let rest = content.skip(4);
    lemma_find(rest, close_delim());
    let i = find(rest, close_delim())->Some_0;
    assert(rest.subrange(i, i + 5) == close_delim());
    assert(spec_assemble_document(rest.take(i).push('\n'), rest.skip(i + 5)) =~= content) by {
        assert forall|k: int| 0 <= k < content.len() implies spec_assemble_document(
            rest.take(i).push('\n'),
            rest.skip(i + 5),
        )[k] == content[k] by {
            if 4 + i <= k < 4 + i + 5 {
                assert(rest.subrange(i, i + 5)[k - 4 - i] == rest[k - 4]);
            }
        }
    }
}

/// The body of `content`, or all of it when it has no frontmatter.
pub open spec fn spec_strip_frontmatter(content: Seq<char>) -> Seq<char> {
    match spec_split_document(content) {
        Ok((_, b)) => b,
        Err(_) => content,
    }
}

// ---------------------------------------------------------------------------
// Appending notes
// ---------------------------------------------------------------------------

/// `body` without its trailing newlines, a blank line unless that is empty,
/// then `### concern`, a blank line, the trimmed text and a newline.
pub open spec fn spec_append_block(body: Seq<char>, concern: Seq<char>, text: Seq<char>) -> Seq<char> {
    let t = trim_end_matches(body, seq!['\n']);
    let head = if t.len() == 0 {
        t
    } else {
        t + seq!['\n', '\n']
    };
    head + heading_marker() + concern + seq!['\n', '\n'] + trim(text) + seq!['\n']
}

// ---------------------------------------------------------------------------
// Ranked headings read back
// ---------------------------------------------------------------------------

/// `### {concern} [r{rank}]`.
pub open spec fn ranked_heading(concern: Seq<char>, rank: u8) -> Seq<char> {
    heading_marker() + concern + seq![' ', '[', 'r'] + decimal(rank as nat) + seq![']']
}

/// A concern name that a heading can carry unchanged: not empty, no
/// whitespace at either end, and no ` [` inside.
pub open spec fn plain_concern(c: Seq<char>) -> bool {
    &&& c.len() > 0
    &&& !is_ws(c[0])
    &&& !is_ws(c.last())
    &&& find(c, meta_open()) is None
}

proof fn lemma_trim_plain(s: Seq<char>)
    requires
        s.len() > 0,
        !is_ws(s[0]),
        !is_ws(s.last()),
    ensures
        trim(s) == s,
{
    assert(crate::text::trim_start(s) == s);
    assert(trim_end(s) == s);
}

/// `rfind` gives the last occurrence.
proof fn lemma_rfind_last(s: Seq<char>, p: Seq<char>, i: int)
    requires
        occurs_at(s, p, i),
        forall|j: int| i < j ==> !occurs_at(s, p, j),
    ensures
        rfind(s, p) == Some(i),
{
    lemma_rfind(s, p);
    match rfind(s, p) {
        None => {},
        Some(k) => {
            if k < i {
                assert(!occurs_at(s, p, i));
            } else if i < k {
                assert(!occurs_at(s, p, k));
            }
        },
    }
}

proof fn lemma_digit_parse(rank: u8)
    requires
        1 <= rank <= 5,
    ensures
        parse_u8(seq![digit_char(rank as nat)]) == Some(rank),
        decimal(rank as nat) == seq![digit_char(rank as nat)],
{
    let d = seq![digit_char(rank as nat)];
    assert(d.drop_last() =~= Seq::<char>::empty());
    assert(crate::text::digits_value(Seq::<char>::empty()) == 0);
    assert(crate::text::all_digits(d));
    if rank == 1 {
        assert(crate::text::digits_value(d) == 1);
    } else if rank == 2 {
        assert(crate::text::digits_value(d) == 2);
    } else if rank == 3 {
        assert(crate::text::digits_value(d) == 3);
    } else if rank == 4 {
        assert(crate::text::digits_value(d) == 4);
    } else {
        assert(crate::text::digits_value(d) == 5);
    }
}

/// The ` [` of the rank is the only one in `c` followed by the rank.
proof fn lemma_single_meta_open(c: Seq<char>, dc: char)
    requires
        plain_concern(c),
        dc != ' ',
    ensures
        find(c + seq![' ', '[', 'r', dc, ']'], meta_open()) == Some(c.len() as int),
        rfind(c + seq![' ', '[', 'r', dc, ']'], meta_open()) == Some(c.len() as int),
{
    let n = c.len() as int;
    let x = c + seq![' ', '[', 'r', dc, ']'];
    let p = meta_open();
    lemma_find(c, p);
    assert(occurs_at(x, p, n)) by {
        assert(x.subrange(n, n + 2) =~= p);
    }
    assert forall|j: int| 0 <= j < n implies !occurs_at(x, p, j) by {
        if j + 2 <= n {
            if occurs_at(x, p, j) {
                assert(x.subrange(j, j + 2) =~= c.subrange(j, j + 2));
                assert(occurs_at(c, p, j));
            }
        } else {
            assert(x[j] == c.last());
            if occurs_at(x, p, j) {
                assert(x.subrange(j, j + 2)[0] == x[j]);
            }
        }
    }
    assert forall|j: int| n < j implies !occurs_at(x, p, j) by {
        if occurs_at(x, p, j) {
            assert(x.subrange(j, j + 2)[0] == x[j]);
        }
    }
    lemma_find_first(x, p, n);
    lemma_rfind_last(x, p, n);
}

/// The rank part of a ranked heading reads back.
proof fn lemma_rank_read_back(c: Seq<char>, rank: u8)
    requires
        plain_concern(c),
        1 <= rank <= 5,
    ensures
        spec_concern_rank(ranked_heading(c, rank)) == Some(rank),
{
    let n = c.len() as int;
    lemma_digit_parse(rank);
    let dc = digit_char(rank as nat);
    let line = ranked_heading(c, rank);
    let x = c + seq![' ', '[', 'r', dc, ']'];
    let p = meta_open();
    assert(line.skip(4) =~= x);
    assert(heading_marker().is_prefix_of(line)) by {
        assert forall|k: int| 0 <= k < 4 implies heading_marker()[k] == line[k] by {}
    }
    lemma_trim_plain(x);
    lemma_single_meta_open(c, dc);
    assert(x.take(n) =~= c);
    let y = x.skip(n + 2);
    assert(y =~= seq!['r', dc, ']']);
    lemma_find(y, p);
    if let Some(i) = find(y, p) {
        assert(y.subrange(i, i + 2)[0] == y[i]);
    }
    assert(split_str(y, p) == seq![y]);
    assert(split_str(x, p) =~= seq![c, y]);
    assert(split_str(x, p).drop_first() =~= seq![y]);
    assert(y.drop_last().drop_first() =~= seq![dc]);
    assert(seq![y].drop_first() =~= Seq::<Seq<char>>::empty());
}

/// The decimal digits of a number are digits, at least one of them.
pub proof fn lemma_decimal_digits(n: nat)
    ensures
        decimal(n).len() > 0,
        crate::text::all_digits(decimal(n)),
    decreases n,
{
    if n >= 10 {
        lemma_decimal_digits(n / 10);
        assert forall|i: int| 0 <= i < decimal(n).len() implies crate::text::is_digit(
            #[trigger] decimal(n)[i],
        ) by {
            if i < decimal(n / 10).len() {
                assert(decimal(n)[i] == decimal(n / 10)[i]);
            }
        }
    }
}

/// After a plain concern, ` [r` and digits and `]`, the last ` [` is the one
/// that follows the concern.
proof fn lemma_last_meta_open(c: Seq<char>, ds: Seq<char>)
    requires
        plain_concern(c),
        crate::text::all_digits(ds),
    ensures
        rfind(c + seq![' ', '[', 'r'] + ds + seq![']'], meta_open()) == Some(c.len() as int),
{
    let n = c.len() as int;
    let x = c + seq![' ', '[', 'r'] + ds + seq![']'];
    let p = meta_open();
    assert(occurs_at(x, p, n)) by {
        assert(x.subrange(n, n + 2) =~= p);
    }
    assert forall|j: int| n < j implies !occurs_at(x, p, j) by {
        if occurs_at(x, p, j) {
            assert(x.subrange(j, j + 2)[0] == x[j]);
            if j >= n + 3 && j < n + 3 + ds.len() {
                assert(x[j] == ds[j - n - 3]);
                assert(crate::text::is_digit(ds[j - n - 3]));
            }
        }
    }
    lemma_rfind_last(x, p, n);
}

/// The concern part of a ranked heading reads back, whatever the rank.
proof fn lemma_concern_read_back(c: Seq<char>, rank: u8)
    requires
        plain_concern(c),
    ensures
        spec_concern_heading(ranked_heading(c, rank)) == Some(c),
{
    let n = c.len() as int;
    let ds = decimal(rank as nat);
    lemma_decimal_digits(rank as nat);
    let line = ranked_heading(c, rank);
    let x = c + seq![' ', '[', 'r'] + ds + seq![']'];
    let p = meta_open();
    assert(line.skip(4) =~= x);
    assert(heading_marker().is_prefix_of(line)) by {
        assert forall|k: int| 0 <= k < 4 implies heading_marker()[k] == line[k] by {}
    }
    lemma_trim_plain(x);
    lemma_trim_plain(c);
    lemma_last_meta_open(c, ds);
    assert(x.take(n) =~= c);
    assert(trim_end(c) == c);
    lemma_find(c, p);
    lemma_rfind(c, p);
    assert(rfind(c, p) is None) by {
        if let Some(i) = rfind(c, p) {
            assert(occurs_at(c, p, i));
        }
    }
    assert(strip_heading_metadata(c) == c);
    assert(seq![']'].is_suffix_of(x.skip(n + 2))) by {
        assert(x.skip(n + 2).last() == ']');
    }
    assert(strip_heading_metadata(x) == strip_heading_metadata(trim_end(x.take(n))));
}

/// A heading written with a rank names its concern again when read, for
/// every rank, and its rank for the ranks 1 to 5; the block that
/// `format_ranked_concern_block` writes starts with that heading.
pub proof fn lemma_ranked_heading_read_back(concern: Seq<char>, text: Seq<char>, rank: u8)
    requires
        plain_concern(concern),
    ensures
        spec_ranked_block(concern, text, rank) == ranked_heading(concern, rank) + seq!['\n', '\n']
            + trim(text) + seq!['\n'],
        spec_concern_heading(ranked_heading(concern, rank)) == Some(concern),
        1 <= rank <= 5 ==> spec_concern_rank(ranked_heading(concern, rank)) == Some(rank),
{
    if 1 <= rank <= 5 {
        lemma_rank_read_back(concern, rank);
    }
    lemma_concern_read_back(concern, rank);
    assert(spec_ranked_block(concern, text, rank) =~= ranked_heading(concern, rank) + seq![
        '\n',
        '\n',
    ] + trim(text) + seq!['\n']);
}

/// The first line of a ranked block is its ranked heading, which names the
/// concern again, and the block ends with a newline.
pub proof fn lemma_ranked_block_first_line(concern: Seq<char>, text: Seq<char>, rank: u8)
    requires
        plain_concern(concern),
        !concern.contains('\n'),
    ensures
        lines(spec_ranked_block(concern, text, rank)).len() > 0,
        lines(spec_ranked_block(concern, text, rank))[0] == ranked_heading(concern, rank),
        spec_concern_heading(lines(spec_ranked_block(concern, text, rank))[0]) == Some(concern),
        spec_ranked_block(concern, text, rank).last() == '\n',
{
    let b = spec_ranked_block(concern, text, rank);
    let h = ranked_heading(concern, rank);
    lemma_ranked_heading_read_back(concern, text, rank);
    lemma_decimal_digits(rank as nat);
    let ds = decimal(rank as nat);
    let k = h.len() as int;
    assert(b =~= h + seq!['\n', '\n'] + trim(text) + seq!['\n']);
    assert forall|j: int| 0 <= j < k implies b[j] != '\n' by {
        assert(b[j] == h[j]);
        if 4 <= j < 4 + concern.len() {
            assert(h[j] == concern[j - 4]);
            if concern[j - 4] == '\n' {
                assert(concern.contains('\n'));
            }
        } else if 4 + concern.len() + 3 <= j < 4 + concern.len() + 3 + ds.len() {
            assert(h[j] == ds[j - 4 - concern.len() - 3]);
            assert(crate::text::is_digit(ds[j - 4 - concern.len() - 3]));
        }
    }
    assert(b[k] == '\n');
    crate::text::lemma_split_char_first(b, '\n', k);
    crate::text::lemma_split_char_two(b, '\n', k);
    assert(b.take(k) =~= h);
    let segs = crate::text::split_char(b, '\n');
    assert(b.last() == '\n');
    assert(lines(b) == segs.drop_last().map_values(|l: Seq<char>| crate::text::strip_cr(l)));
    assert(h.last() == ']');
    assert(crate::text::strip_cr(h) == h);
    assert(lines(b)[0] == crate::text::strip_cr(segs[0]));
}

} // verus!
