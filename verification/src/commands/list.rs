//! The concern roster as rows, the documents ready for removal, and the
//! summaries of `sync` and `init`.
use vstd::prelude::*;
use crate::document::Status;
use crate::registry::{doc_keys, DocumentEntry, Registry};
use crate::sort::{sort_dedup_strings, stable_sort, stable_sort_of, strictly_sorted, SortKey};
use crate::text::{
    clone_string, clone_strings, decimal, decimal_chars, from_chars, lemma_seq_le_total,
    lemma_seq_le_transitive, lines, push_all, push_str, push_string, seq_le, split_lines, str_eq,
    str_le, to_chars, trim, trim_chars,
};

verus! {

broadcast use vstd::seq_lib::group_seq_properties, vstd::seq_lib::group_filter_ensures, crate::views::lemma_char_vec_deep_view;

// ---------------------------------------------------------------------------
// Roster rows
// ---------------------------------------------------------------------------

/// One concern with its owners and notes (`multi-owned`, `stale:<id>`).
#[derive(Clone, Debug)]
pub struct ListRow {
    pub concern: String,
    pub owners: Vec<String>,
    pub notes: Vec<String>,
}

/// `stale:` and the owner's id.
pub open spec fn stale_note(owner: Seq<char>) -> Seq<char> {
    "stale:"@ + owner
}

/// The document `id` is registered and marked stale in `stale`.
pub open spec fn owner_stale(docs: Seq<(String, DocumentEntry)>, stale: Seq<bool>, id: Seq<char>) -> bool {
    exists|m: int| 0 <= m < docs.len() && (#[trigger] docs[m]).0@ == id && stale[m]
}

pub open spec fn stale_in(docs: Seq<(String, DocumentEntry)>, stale: Seq<bool>) -> spec_fn(Seq<char>) -> bool {
    |o: Seq<char>| owner_stale(docs, stale, o)
}

pub open spec fn stale_label() -> spec_fn(Seq<char>) -> Seq<char> {
    |o: Seq<char>| stale_note(o)
}

/// The notes of a concern with `owners`: `multi-owned` for several owners,
/// then `stale:<id>` for each stale owner in order.
pub open spec fn row_notes(
    owners: Seq<Seq<char>>,
    docs: Seq<(String, DocumentEntry)>,
    stale: Seq<bool>,
) -> Seq<Seq<char>> {
    (if owners.len() > 1 {
        seq!["multi-owned"@]
    } else {
        Seq::empty()
    }) + owners.filter(stale_in(docs, stale)).map_values(stale_label())
}

/// Whether registered document `id` is stale.
fn is_owner_stale(registry: &Registry, stale: &Vec<bool>, id: &str) -> (r: bool)
    requires
        stale.len() == registry.documents.len(),
        registry.wf(),
    ensures
        r == owner_stale(registry.documents@, stale@, id@),
{
    match registry.document_index(id) {
        Some(j) => {
            proof {
                if owner_stale(registry.documents@, stale@, id@) && !stale@[j as int] {
                    let m = choose|m: int|
                        0 <= m < registry.documents.len() && (#[trigger] registry.documents@[m]).0@
                            == id@ && stale@[m];
                    if m < j {
                        assert(crate::text::seq_lt(doc_keys(registry.documents@)[m], doc_keys(registry.documents@)[j as int]));
                        crate::text::lemma_seq_lt_irreflexive(id@);
                    } else if m > j {
                        assert(crate::text::seq_lt(doc_keys(registry.documents@)[j as int], doc_keys(registry.documents@)[m]));
                        crate::text::lemma_seq_lt_irreflexive(id@);
                    }
                }
            }
            stale[j]
        },
        None => {
            proof {
                if owner_stale(registry.documents@, stale@, id@) {
                    let m = choose|m: int|
                        0 <= m < registry.documents.len() && (#[trigger] registry.documents@[m]).0@
                            == id@ && stale@[m];
                    assert(doc_keys(registry.documents@)[m] == id@);
                }
            }
            false
        },
    }
}

/// The rows of the concern roster, in roster order. `stale[j]` tells
/// whether the `j`th registered document is stale.
pub fn build_rows(registry: &Registry, stale: &Vec<bool>) -> (r: Vec<ListRow>)
    requires
        stale.len() == registry.documents.len(),
        registry.wf(),
    ensures
        r.len() == registry.concern_roster.len(),
        forall|j: int|
            0 <= j < r.len() ==> {
                let row = #[trigger] r@[j];
                let entry = registry.concern_roster@[j];
                &&& row.concern@ == entry.0@
                &&& row.owners.deep_view() == entry.1.owners.deep_view()
                &&& strictly_sorted(row.notes.deep_view())
                &&& row.notes.deep_view().to_set() == row_notes(
                    entry.1.owners.deep_view(),
                    registry.documents@,
                    stale@,
                ).to_set()
            },
{
    let mut rows: Vec<ListRow> = Vec::new();
    let mut j: usize = 0;
    while j < registry.concern_roster.len()
        invariant
            j <= registry.concern_roster.len(),
            stale.len() == registry.documents.len(),
            registry.wf(),
            rows.len() == j,
            forall|m: int|
                0 <= m < j ==> {
                    let row = #[trigger] rows@[m];
                    let entry = registry.concern_roster@[m];
                    &&& row.concern@ == entry.0@
                    &&& row.owners.deep_view() == entry.1.owners.deep_view()
                    &&& strictly_sorted(row.notes.deep_view())
                    &&& row.notes.deep_view().to_set() == row_notes(
                        entry.1.owners.deep_view(),
                        registry.documents@,
                        stale@,
                    ).to_set()
                },
        decreases registry.concern_roster.len() - j,
    {
        let owners = &registry.concern_roster[j].1.owners;
        let ghost ov = owners.deep_view();
        let ghost f = stale_in(registry.documents@, stale@);
        let ghost g = stale_label();
        let mut notes: Vec<String> = Vec::new();
        if owners.len() > 1 {
            push_string(&mut notes, String::from_str("multi-owned"));
        }
        let ghost base = notes.deep_view();
        let mut k: usize = 0;
        while k < owners.len()
            invariant
                k <= owners.len(),
                ov == owners.deep_view(),
                f == stale_in(registry.documents@, stale@),
                g == stale_label(),
                stale.len() == registry.documents.len(),
                registry.wf(),
                base == (if ov.len() > 1 {
                    seq!["multi-owned"@]
                } else {
                    Seq::<Seq<char>>::empty()
                }),
                notes.deep_view() == base + ov.take(k as int).filter(f).map_values(g),
            decreases owners.len() - k,
        {
            assert(owners@[k as int]@ == ov[k as int]);
            assert(ov.take(k + 1) =~= ov.take(k as int).push(ov[k as int]));
            proof {
                ov.take(k as int).lemma_filter_push(ov[k as int], f);
            }
            if is_owner_stale(registry, stale, owners[k].as_str()) {
                let mut note = to_chars("stale:");
                push_str(&mut note, owners[k].as_str());
                push_string(&mut notes, from_chars(&note));
                assert(ov.take(k + 1).filter(f).map_values(g) =~= ov.take(k as int).filter(f).map_values(
                    g,
                ).push(g(ov[k as int])));
            } else {
                assert(ov.take(k + 1).filter(f) == ov.take(k as int).filter(f));
            }
            k += 1;
        }
        assert(ov.take(owners.len() as int) =~= ov);
        let sorted = sort_dedup_strings(&notes);
        rows.push(
            ListRow {
                concern: clone_string(&registry.concern_roster[j].0),
                owners: clone_strings(owners),
                notes: sorted,
            },
        );
        j += 1;
    }
    rows
}

} // verus!
