//! Recording that one document replaces another for some of its concerns.
use vstd::prelude::*;
use crate::cli::SupersedeArgs;
use crate::document::{
    active_concerns, fm_view, not_superseded, recompute_status, superseded_concern, sb_view, sbs_view, scope_view,
    spec_active_concerns, spec_status, Frontmatter, SupersededBy,
};
use crate::registry::{doc_keys, Registry};
use crate::sort::{sort_dedup_strings, stable_sort, stable_sort_of, strictly_sorted, SortKey};
use crate::text::{
    clone_string, clone_strings, extend_strings, from_chars, lemma_seq_le_total,
    lemma_seq_le_transitive, push_str, push_string, seq_le, split_str, split_str_chars, str_eq,
    str_le, strings_contain, to_chars, trim, trim_chars,
};

verus! {

broadcast use vstd::seq_lib::group_seq_properties, vstd::seq_lib::group_filter_ensures, crate::views::lemma_char_vec_deep_view;

// ---------------------------------------------------------------------------
// Concern lists from the command line
// ---------------------------------------------------------------------------

pub open spec fn trim_fn() -> spec_fn(Seq<char>) -> Seq<char> {
    |p: Seq<char>| trim(p)
}

pub open spec fn non_empty() -> spec_fn(Seq<char>) -> bool {
    |p: Seq<char>| p.len() > 0
}

/// The trimmed, non-empty, comma-separated pieces of `values`, in order.
pub open spec fn csv_pieces(values: Seq<Seq<char>>) -> Seq<Seq<char>>
    decreases values.len(),
{
    if values.len() == 0 {
        Seq::empty()
    } else {
        csv_pieces(values.drop_last()) + split_str(values.last(), seq![',']).map_values(
            trim_fn(),
        ).filter(non_empty())
    }
}

/// The distinct concerns named by `values` (each may list several, separated
/// by commas), trimmed, in increasing order.
pub fn normalize_values(values: &[String]) -> (r: Vec<String>)
    ensures
        strictly_sorted(r.deep_view()),
        r.deep_view().to_set() == csv_pieces(values.deep_view()).to_set(),
{
    let ghost vv = values.deep_view();
    let comma = vec![','];
    assert(comma@ =~= seq![',']);
    let mut pieces: Vec<String> = Vec::new();
    let mut i: usize = 0;
    while i < values.len()
        invariant
            i <= values.len(),
            vv == values.deep_view(),
            comma@ == seq![','],
            pieces.deep_view() == csv_pieces(vv.take(i as int)),
        decreases values.len() - i,
    {
        let v = to_chars(values[i].as_str());
        let parts = split_str_chars(&v, &comma);
        let ghost pv = parts.deep_view();
        let ghost before = pieces.deep_view();
        let mut k: usize = 0;
        while k < parts.len()
            invariant
                k <= parts.len(),
                pv == parts.deep_view(),
                pieces.deep_view() == before + pv.take(k as int).map_values(trim_fn()).filter(
                    non_empty(),
                ),
            decreases parts.len() - k,
        {
            let ghost mv = pv.take(k as int).map_values(trim_fn());
            assert(pv.take(k + 1).map_values(trim_fn()) =~= mv.push(trim(pv[k as int])));
            proof {
                mv.lemma_filter_push(trim(pv[k as int]), non_empty());
            }
            assert(parts@[k as int]@ == pv[k as int]);
            let t = trim_chars(&parts[k]);
            if t.len() > 0 {
                push_string(&mut pieces, from_chars(&t));
            }
            k += 1;
        }
        assert(pv.take(parts.len() as int) =~= pv);
        assert(vv.take(i + 1).drop_last() =~= vv.take(i as int));
        assert(values@[i as int]@ == vv[i as int]);
        i += 1;
    }
    assert(vv.take(values.len() as int) =~= vv);
    sort_dedup_strings(&pieces)
}

// ---------------------------------------------------------------------------
// Supersession records
// ---------------------------------------------------------------------------

/// Records are ordered by the replacing document's id.
impl SortKey for SupersededBy {
    open spec fn key_le(&self, other: &Self) -> bool {
        seq_le(self.id@, other.id@)
    }

    fn key_le_exec(&self, other: &Self) -> (r: bool) {
        str_le(self.id.as_str(), other.id.as_str())
    }

    proof fn lemma_key_total(a: &Self, b: &Self) {
        lemma_seq_le_total(a.id@, b.id@);
    }

    proof fn lemma_key_trans(a: &Self, b: &Self, c: &Self) {
        lemma_seq_le_transitive(a.id@, b.id@, c.id@);
    }
}

/// The first record of `sb` from document `id`.
pub open spec fn first_with_id(sb: Seq<SupersededBy>, id: Seq<char>) -> Option<int>
    decreases sb.len(),
{
    if sb.len() == 0 {
        None
    } else if sb[0].id@ == id {
        Some(0)
    } else {
        match first_with_id(sb.drop_first(), id) {
            Some(k) => Some(k + 1),
            None => None,
        }
    }
}

pub proof fn lemma_first_with_id(sb: Seq<SupersededBy>, id: Seq<char>)
    ensures
        first_with_id(sb, id) matches Some(k) ==> 0 <= k < sb.len() && sb[k].id@ == id && forall|
            j: int,
        | 0 <= j < k ==> (#[trigger] sb[j]).id@ != id,
        first_with_id(sb, id) is None ==> forall|j: int| 0 <= j < sb.len() ==> (#[trigger] sb[j]).id@ != id,
    decreases sb.len(),
{
    if sb.len() > 0 {
        lemma_first_with_id(sb.drop_first(), id);
        assert forall|j: int| 1 <= j < sb.len() implies sb[j] == sb.drop_first()[j - 1] by {}
    }
}

/// `sb` is `old` after recording that document `by_id` replaced it for
/// `concerns`: an existing record from `by_id` gains them (its list kept
/// sorted without repeats); otherwise a new record is added and the records
/// are stably sorted by id.
pub open spec fn supersession_recorded(
    sb: Seq<SupersededBy>,
    old: Seq<SupersededBy>,
    by_id: Seq<char>,
    concerns: Seq<Seq<char>>,
) -> bool {
    match first_with_id(old, by_id) {
        Some(k) => {
            &&& sb.len() == old.len()
            &&& forall|j: int| 0 <= j < sb.len() && j != k ==> sb_view(#[trigger] sb[j]) == sb_view(old[j])
            &&& sb[k].id@ == by_id
            &&& strictly_sorted(sb[k].concerns.deep_view())
            &&& sb[k].concerns.deep_view().to_set() == old[k].concerns.deep_view().to_set().union(
                concerns.to_set(),
            )
        },
        None => exists|x: SupersededBy|
            sb_view(x) == (by_id, concerns) && #[trigger] stable_sort_of(sb, old.push(x)),
    }
}

/// Records that document `by_id` replaced this one for `concerns`.
pub fn record_supersession(sb: &mut Vec<SupersededBy>, by_id: &str, concerns: &Vec<String>)
    ensures
        supersession_recorded(final(sb)@, old(sb)@, by_id@, concerns.deep_view()),
{
    proof {
        lemma_first_with_id(sb@, by_id@);
    }
    let ghost old_sb = sb@;
    let found = find_record(sb, by_id);
    match found {
        Some(k) => {
            let mut merged = clone_strings(&sb[k].concerns);
            extend_strings(&mut merged, concerns);
            let sorted = sort_dedup_strings(&merged);
            assert(merged.deep_view().to_set() =~= old_sb[k as int].concerns.deep_view().to_set().union(
                concerns.deep_view().to_set(),
            ));
            let record = SupersededBy { id: clone_string(&sb[k].id), concerns: sorted };
            sb.set(k, record);
            assert(forall|j: int| 0 <= j < sb.len() && j != k ==> sb_view(#[trigger] sb@[j]) == sb_view(old_sb[j]));
        },
        None => {
            let record = SupersededBy { id: String::from_str(by_id), concerns: clone_strings(concerns) };
            let ghost x = record;
            let mut all: Vec<SupersededBy> = Vec::new();
            std::mem::swap(&mut all, sb);
            assert(all@ == old_sb);
            all.push(record);
            let sorted = stable_sort(all);
            *sb = sorted;
            assert(stable_sort_of(sb@, old_sb.push(x)));
        },
    }
}

/// The position of the first record from `by_id`.
pub fn find_record(sb: &Vec<SupersededBy>, by_id: &str) -> (r: Option<usize>)
    ensures
        r matches Some(k) ==> first_with_id(sb@, by_id@) == Some(k as int) && k < sb.len(),
        r is None ==> first_with_id(sb@, by_id@) is None,
{
    proof {
        lemma_first_with_id(sb@, by_id@);
    }
    let mut k: usize = 0;
    while k < sb.len()
        invariant
            k <= sb.len(),
            forall|j: int| 0 <= j < k ==> (#[trigger] sb@[j]).id@ != by_id@,
        decreases sb.len() - k,
    {
        if str_eq(sb[k].id.as_str(), by_id) {
            proof {
                lemma_first_with_id(sb@, by_id@);
                if let Some(m) = first_with_id(sb@, by_id@) {
                    if m < k {
                        assert(sb@[m].id@ != by_id@);
                    } else if m > k {
                        assert(sb@[k as int].id@ != by_id@);
                    }
                }
            }
            return Some(k);
        }
        k += 1;
    }
    None
}

// ---------------------------------------------------------------------------
// Superseding a document
// ---------------------------------------------------------------------------

/// Why a supersession could not be recorded.
#[derive(Clone, Debug)]
pub enum SupersedeError {
    ConcernsRequired,
    DocumentNotFound { id: String },
    ReplacementNotFound { id: String },
    InactiveConcern { concern: String, id: String },
}

impl SupersedeError {
    pub fn message(&self) -> (r: String)
        ensures
            self matches SupersedeError::ConcernsRequired ==> r@ == "--concerns is required"@,
            self matches SupersedeError::DocumentNotFound { id } ==> r@ == "document "@ + id@
                + " not found"@,
            self matches SupersedeError::ReplacementNotFound { id } ==> r@
                == "replacement document "@ + id@ + " not found"@,
            self matches SupersedeError::InactiveConcern { concern, id } ==> r@ == "concern "@
                + concern@ + " is not active in document "@ + id@,
    {
        let mut out: Vec<char> = Vec::new();
        match self {
            SupersedeError::ConcernsRequired => {
                push_str(&mut out, "--concerns is required");
            },
            SupersedeError::DocumentNotFound { id } => {
                push_str(&mut out, "document ");
                push_str(&mut out, id.as_str());
                push_str(&mut out, " not found");
            },
            SupersedeError::ReplacementNotFound { id } => {
                push_str(&mut out, "replacement document ");
                push_str(&mut out, id.as_str());
                push_str(&mut out, " not found");
            },
            SupersedeError::InactiveConcern { concern, id } => {
                push_str(&mut out, "concern ");
                push_str(&mut out, concern.as_str());
                push_str(&mut out, " is not active in document ");
                push_str(&mut out, id.as_str());
            },
        }
        from_chars(&out)
    }
}

/// The first of `concerns` that `fm` does not hold as active is at `k`.
pub open spec fn first_inactive(fm: Frontmatter, concerns: Seq<Seq<char>>, k: int) -> bool {
    &&& 0 <= k < concerns.len()
    &&& !spec_active_concerns(fm).contains(concerns[k])
    &&& forall|j: int| 0 <= j < k ==> spec_active_concerns(fm).contains(#[trigger] concerns[j])
}

/// Records in `frontmatter` that document `by_id` replaced it for
/// `concerns`, which must all be active, and recomputes its status.
pub fn supersede_frontmatter(frontmatter: &mut Frontmatter, by_id: &str, concerns: &Vec<String>) -> (r:
    Result<(), SupersedeError>)
    ensures
        r is Ok <==> forall|k: int|
            0 <= k < concerns.len() ==> spec_active_concerns(*old(frontmatter)).contains(
                #[trigger] concerns.deep_view()[k],
            ),
        r matches Err(e) ==> fm_view(*final(frontmatter)) == fm_view(*old(frontmatter)) && exists|
            k: int,
        |
            first_inactive(*old(frontmatter), concerns.deep_view(), k) && (e matches SupersedeError::InactiveConcern {
                concern: c,
                id,
            } && c@ == concerns.deep_view()[k] && id@ == old(frontmatter).id@),
        r is Ok ==> {
            &&& final(frontmatter).id == old(frontmatter).id
            &&& final(frontmatter).created == old(frontmatter).created
            &&& final(frontmatter).concerns == old(frontmatter).concerns
            &&& final(frontmatter).scope == old(frontmatter).scope
            &&& supersession_recorded(
                final(frontmatter).superseded_by@,
                old(frontmatter).superseded_by@,
                by_id@,
                concerns.deep_view(),
            )
            &&& final(frontmatter).status == spec_status(*final(frontmatter))
            &&& spec_active_concerns(*final(frontmatter)) == spec_active_concerns(
                *old(frontmatter),
            ).filter(not_in(concerns.deep_view()))
        },
{
    let active = active_concerns(frontmatter);
    let mut k: usize = 0;
    while k < concerns.len()
        invariant
            k <= concerns.len(),
            active.deep_view() == spec_active_concerns(*frontmatter),
            forall|j: int| 0 <= j < k ==> spec_active_concerns(*frontmatter).contains(#[trigger] concerns.deep_view()[j]),
        decreases concerns.len() - k,
    {
        assert(concerns@[k as int]@ == concerns.deep_view()[k as int]);
        if !strings_contain(&active, concerns[k].as_str()) {
            assert(first_inactive(*frontmatter, concerns.deep_view(), k as int));
            return Err(
                SupersedeError::InactiveConcern {
                    concern: clone_string(&concerns[k]),
                    id: clone_string(&frontmatter.id),
                },
            );
        }
        k += 1;
    }
    let ghost before = *frontmatter;
    record_supersession(&mut frontmatter.superseded_by, by_id, concerns);
    recompute_status(frontmatter);
    proof {
        lemma_supersede_active(*frontmatter, before, by_id@, concerns.deep_view());
    }
    Ok(())
}

/// Checks a supersession request against the registry: the normalized
/// concerns (at least one), and that both documents are known. Gives the
/// file of the superseded document and the concerns.
pub fn plan_supersede(args: &SupersedeArgs, registry: &Registry) -> (r: Result<
    (String, Vec<String>),
    SupersedeError,
>)
    ensures
        r matches Ok((file, cs)) ==> {
            &&& csv_pieces(args.concerns.deep_view()).len() > 0
            &&& strictly_sorted(cs.deep_view())
            &&& cs.deep_view().to_set() == csv_pieces(args.concerns.deep_view()).to_set()
            &&& doc_keys(registry.documents@).contains(args.by_id@)
            &&& exists|j: int|
                0 <= j < registry.documents.len() && (#[trigger] registry.documents@[j]).0@
                    == args.id@ && registry.documents@[j].1.file@ == file@
        },
        r matches Err(SupersedeError::ConcernsRequired) ==> csv_pieces(args.concerns.deep_view()).len()
            == 0,
        r matches Err(SupersedeError::DocumentNotFound { id }) ==> csv_pieces(
            args.concerns.deep_view(),
        ).len() > 0 && !doc_keys(registry.documents@).contains(args.id@) && id@ == args.id@,
        r matches Err(SupersedeError::ReplacementNotFound { id }) ==> csv_pieces(
            args.concerns.deep_view(),
        ).len() > 0 && doc_keys(registry.documents@).contains(args.id@) && !doc_keys(
            registry.documents@,
        ).contains(args.by_id@) && id@ == args.by_id@,
        !(r matches Err(SupersedeError::InactiveConcern { .. })),
{
    let concerns = normalize_values(&args.concerns);
    if concerns.len() == 0 {
        proof {
            let p = csv_pieces(args.concerns.deep_view());
            if p.len() > 0 {
                assert(p.to_set().contains(p[0]));
                assert(concerns.deep_view().to_set().contains(p[0]));
            }
        }
        return Err(SupersedeError::ConcernsRequired);
    }
    proof {
        let p = csv_pieces(args.concerns.deep_view());
        assert(concerns.deep_view().to_set().contains(concerns.deep_view()[0]));
        assert(p.to_set().contains(concerns.deep_view()[0]));
    }
    let file = match registry.document_index(args.id.as_str()) {
        Some(j) => clone_string(&registry.documents[j].1.file),
        None => {
            return Err(SupersedeError::DocumentNotFound { id: clone_string(&args.id) });
        },
    };
    match registry.document_index(args.by_id.as_str()) {
        Some(j) => {
            assert(doc_keys(registry.documents@)[j as int] == args.by_id@);
        },
        None => {
            proof {
                let j = choose|j: int|
                    0 <= j < registry.documents.len() && (#[trigger] registry.documents@[j]).0@
                        == args.id@ && registry.documents@[j].1.file@ == file@;
                assert(doc_keys(registry.documents@)[j] == args.id@);
            }
            return Err(SupersedeError::ReplacementNotFound { id: clone_string(&args.by_id) });
        },
    }
    Ok((file, concerns))
}

// ---------------------------------------------------------------------------
// Laws
// ---------------------------------------------------------------------------

pub open spec fn not_in(cs: Seq<Seq<char>>) -> spec_fn(Seq<char>) -> bool {
    |c: Seq<char>| !cs.contains(c)
}

/// After a supersession by `cs` is recorded, a concern is superseded exactly
/// when it was before or is among `cs`.
pub proof fn lemma_recorded_supersedes(
    sb: Seq<SupersededBy>,
    old: Seq<SupersededBy>,
    by_id: Seq<char>,
    cs: Seq<Seq<char>>,
    c: Seq<char>,
)
    requires
        supersession_recorded(sb, old, by_id, cs),
    ensures
        superseded_concern(sb, c) <==> superseded_concern(old, c) || cs.contains(c),
{
    lemma_first_with_id(old, by_id);
    match first_with_id(old, by_id) {
        Some(k) => {
            assert(sb[k].concerns.deep_view().to_set() == old[k].concerns.deep_view().to_set().union(
                cs.to_set(),
            ));
            if superseded_concern(sb, c) {
                let i = choose|i: int| 0 <= i < sb.len() && (#[trigger] sb[i]).concerns.deep_view().contains(c);
                if i != k {
                    assert(sb_view(sb[i]) == sb_view(old[i]));
                    assert(old[i].concerns.deep_view().contains(c));
                } else {
                    assert(sb[k].concerns.deep_view().to_set().contains(c));
                    if old[k].concerns.deep_view().to_set().contains(c) {
                        assert(old[k].concerns.deep_view().contains(c));
                    } else {
                        assert(cs.to_set().contains(c));
                    }
                }
            }
            if superseded_concern(old, c) {
                let i = choose|i: int| 0 <= i < old.len() && (#[trigger] old[i]).concerns.deep_view().contains(c);
                if i != k {
                    assert(sb_view(sb[i]) == sb_view(old[i]));
                    assert(sb[i].concerns.deep_view().contains(c));
                } else {
                    assert(old[k].concerns.deep_view().to_set().contains(c));
                    assert(sb[k].concerns.deep_view().to_set().contains(c));
                    assert(sb[k].concerns.deep_view().contains(c));
                }
            }
            if cs.contains(c) {
                assert(cs.to_set().contains(c));
                assert(sb[k].concerns.deep_view().to_set().contains(c));
                assert(sb[k].concerns.deep_view().contains(c));
            }
        },
        None => {
            let x = choose|x: SupersededBy|
                sb_view(x) == (by_id, cs) && #[trigger] stable_sort_of(sb, old.push(x));
            let s = old.push(x);
            if superseded_concern(sb, c) {
                let i = choose|i: int| 0 <= i < sb.len() && (#[trigger] sb[i]).concerns.deep_view().contains(c);
                crate::sort::lemma_stable_sort_contains(sb, s, sb[i]);
                assert(sb.contains(sb[i]));
                let j = choose|j: int| 0 <= j < s.len() && s[j] == sb[i];
                if j < old.len() {
                    assert(old[j].concerns.deep_view().contains(c));
                } else {
                    assert(x.concerns.deep_view() == cs);
                }
            }
            if superseded_concern(old, c) {
                let i = choose|i: int| 0 <= i < old.len() && (#[trigger] old[i]).concerns.deep_view().contains(c);
                assert(s[i] == old[i]);
                assert(s.contains(old[i]));
                crate::sort::lemma_stable_sort_contains(sb, s, old[i]);
                let j = choose|j: int| 0 <= j < sb.len() && sb[j] == old[i];
                assert(sb[j].concerns.deep_view().contains(c));
            }
            if cs.contains(c) {
                assert(s[old.len() as int] == x);
                assert(s.contains(x));
                crate::sort::lemma_stable_sort_contains(sb, s, x);
                let j = choose|j: int| 0 <= j < sb.len() && sb[j] == x;
                assert(sb[j].concerns.deep_view().contains(c));
            }
        },
    }
}

/// Concern-level supersession: once a supersession by `cs` is recorded, the
/// document's active concerns are the ones it had, in order, except `cs`;
/// every other concern stays active.
pub proof fn lemma_supersede_active(
    new_fm: Frontmatter,
    old_fm: Frontmatter,
    by_id: Seq<char>,
    cs: Seq<Seq<char>>,
)
    requires
        new_fm.concerns.deep_view() == old_fm.concerns.deep_view(),
        supersession_recorded(new_fm.superseded_by@, old_fm.superseded_by@, by_id, cs),
    ensures
        spec_active_concerns(new_fm) == spec_active_concerns(old_fm).filter(not_in(cs)),
{
    let p = not_superseded(old_fm.superseded_by@);
    let q = not_in(cs);
    let r = not_superseded(new_fm.superseded_by@);
    assert forall|c: Seq<char>| #[trigger] r(c) == (p(c) && q(c)) by {
        lemma_recorded_supersedes(new_fm.superseded_by@, old_fm.superseded_by@, by_id, cs, c);
    }
    crate::sort::lemma_filter_and(old_fm.concerns.deep_view(), p, q, r);
}

} // verus!
