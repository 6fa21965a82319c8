//! Documents that no longer own any concern, ready to be removed.
use vstd::prelude::*;
use crate::document::Status;
use crate::registry::{DocumentEntry, Registry};
use crate::sort::{stable_sort, stable_sort_of, SortKey};
use crate::text::{clone_string, lemma_seq_le_total, lemma_seq_le_transitive, seq_le, str_le};

verus! {

broadcast use vstd::seq_lib::group_seq_properties, vstd::seq_lib::group_filter_ensures;

/// A fully superseded document.
#[derive(Clone, Debug)]
pub struct GcEntry {
    pub id: String,
    pub file: String,
}

impl SortKey for GcEntry {
    open spec fn key_le(&self, other: &Self) -> bool {
        seq_le(self.file@, other.file@)
    }

    fn key_le_exec(&self, other: &Self) -> (r: bool) {
        str_le(self.file.as_str(), other.file.as_str())
    }

    proof fn lemma_key_total(a: &Self, b: &Self) {
        lemma_seq_le_total(a.file@, b.file@);
    }

    proof fn lemma_key_trans(a: &Self, b: &Self, c: &Self) {
        lemma_seq_le_transitive(a.file@, b.file@, c.file@);
    }
}

pub open spec fn is_superseded() -> spec_fn((String, DocumentEntry)) -> bool {
    |p: (String, DocumentEntry)| p.1.status == Status::Superseded
}

pub open spec fn gc_view(e: GcEntry) -> (Seq<char>, Seq<char>) {
    (e.id@, e.file@)
}

pub open spec fn gc_views(s: Seq<GcEntry>) -> Seq<(Seq<char>, Seq<char>)> {
    s.map_values(|e: GcEntry| gc_view(e))
}

pub open spec fn id_and_file() -> spec_fn((String, DocumentEntry)) -> (Seq<char>, Seq<char>) {
    |p: (String, DocumentEntry)| (p.0@, p.1.file@)
}

/// The fully superseded documents of the registry, in registry order.
pub open spec fn superseded_docs(docs: Seq<(String, DocumentEntry)>) -> Seq<(Seq<char>, Seq<char>)> {
    docs.filter(is_superseded()).map_values(id_and_file())
}

/// The fully superseded documents, ordered by file.
pub fn gc_entries(registry: &Registry) -> (r: Vec<GcEntry>)
    ensures
        exists|pre: Seq<GcEntry>|
            #[trigger] gc_views(pre) == superseded_docs(registry.documents@)
                && stable_sort_of(r@, pre),
{
    let ghost docs = registry.documents@;
    let ghost f = is_superseded();
    let mut pre: Vec<GcEntry> = Vec::new();
    let mut j: usize = 0;
    while j < registry.documents.len()
        invariant
            j <= registry.documents.len(),
            docs == registry.documents@,
            f == is_superseded(),
            gc_views(pre@) == docs.take(j as int).filter(f).map_values(id_and_file()),
        decreases registry.documents.len() - j,
    {
        assert(docs.take(j + 1) =~= docs.take(j as int).push(docs[j as int]));
        proof {
            docs.take(j as int).lemma_filter_push(docs[j as int], f);
        }
        if registry.documents[j].1.status == Status::Superseded {
            let e = GcEntry {
                id: clone_string(&registry.documents[j].0),
                file: clone_string(&registry.documents[j].1.file),
            };
            let ghost prev = pre@;
            pre.push(e);
            assert(gc_views(pre@) =~= gc_views(prev).push(gc_view(e)));
            assert(docs.take(j + 1).filter(f).map_values(id_and_file()) =~= docs.take(j as int).filter(
                f,
            ).map_values(id_and_file()).push((docs[j as int].0@, docs[j as int].1.file@)));
        } else {
            assert(docs.take(j + 1).filter(f) == docs.take(j as int).filter(f));
        }
        j += 1;
    }
    assert(docs.take(registry.documents.len() as int) =~= docs);
    let ghost pv = pre@;
    let out = stable_sort(pre);
    assert(gc_views(pv) == superseded_docs(registry.documents@) && stable_sort_of(out@, pv));
    out
}

} // verus!
