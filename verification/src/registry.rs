//! The derived registry: every document's metadata, who owns each concern,
//! and the concerns that lost or share their owners.
use vstd::prelude::*;
use crate::document::{
    active_concerns, copy_scope, copy_superseded, sbs_view, scope_view, spec_active_concerns,
    Frontmatter, Scope, Status, SupersededBy,
};
use crate::paths::{join_path, path_join};
use crate::sort::{sort_dedup_strings, strictly_sorted};
use crate::text::{clone_string, extend_strings, push_string, str_eq, strings_contain};

verus! {

broadcast use vstd::seq_lib::group_seq_properties, vstd::seq_lib::group_filter_ensures;

pub const SCHEMA_VERSION: u32 = 1;

/// `./.context`.
pub fn context_dir() -> (r: String)
    ensures
        r@ == path_join("."@, ".context"@),
{
    context_dir_from(".")
}

/// `{base}/.context`.
pub fn context_dir_from(base: &str) -> (r: String)
    ensures
        r@ == path_join(base@, ".context"@),
{
    join_path(base, ".context")
}

/// `./.context/.registry.json`.
pub fn registry_path() -> (r: String)
    ensures
        r@ == path_join(path_join("."@, ".context"@), ".registry.json"@),
{
    registry_path_from(".")
}

/// `{base}/.context/.registry.json`.
pub fn registry_path_from(base: &str) -> (r: String)
    ensures
        r@ == path_join(path_join(base@, ".context"@), ".registry.json"@),
{
    let dir = context_dir_from(base);
    join_path(dir.as_str(), ".registry.json")
}

// ---------------------------------------------------------------------------
// The registry
// ---------------------------------------------------------------------------

/// What the registry records of one document.
#[derive(Clone, Debug)]
pub struct DocumentEntry {
    pub file: String,
    pub created: String,
    pub status: Status,
    pub concerns: Vec<String>,
    pub active_concerns: Vec<String>,
    pub scope: Scope,
    pub superseded_by: Vec<SupersededBy>,
}

/// The documents that actively own a concern, in increasing order.
#[derive(Clone, Debug)]
pub struct ConcernRosterEntry {
    pub owners: Vec<String>,
}

/// The derived view of a corpus. `documents` and `concern_roster` are maps
/// held as pairs in strictly increasing key order.
#[derive(Clone, Debug)]
pub struct Registry {
    pub schema_version: u32,
    pub generated_at: String,
    pub generated_from_commit: Option<String>,
    pub documents: Vec<(String, DocumentEntry)>,
    pub concern_roster: Vec<(String, ConcernRosterEntry)>,
    pub orphaned_concerns: Vec<String>,
    pub multi_owned_concerns: Vec<String>,
}

pub type EntryView = (
    Seq<char>,
    Seq<char>,
    Status,
    Seq<Seq<char>>,
    Seq<Seq<char>>,
    (Seq<Seq<char>>, Seq<Seq<char>>),
    Seq<(Seq<char>, Seq<Seq<char>>)>,
);

pub open spec fn entry_view(e: DocumentEntry) -> EntryView {
    (
        e.file@,
        e.created@,
        e.status,
        e.concerns.deep_view(),
        e.active_concerns.deep_view(),
        scope_view(e.scope),
        sbs_view(e.superseded_by@),
    )
}

/// The entry that the document at `path` with frontmatter `fm` gets.
pub open spec fn spec_entry(path: Seq<char>, fm: Frontmatter) -> EntryView {
    (
        path,
        fm.created@,
        fm.status,
        fm.concerns.deep_view(),
        spec_active_concerns(fm),
        scope_view(fm.scope),
        sbs_view(fm.superseded_by@),
    )
}

pub open spec fn doc_keys(docs: Seq<(String, DocumentEntry)>) -> Seq<Seq<char>> {
    docs.map_values(|p: (String, DocumentEntry)| p.0@)
}

pub open spec fn roster_keys(roster: Seq<(String, ConcernRosterEntry)>) -> Seq<Seq<char>> {
    roster.map_values(|p: (String, ConcernRosterEntry)| p.0@)
}

/// The ids of the documents read, in order.
pub open spec fn input_ids(d: Seq<(String, Frontmatter)>) -> Seq<Seq<char>> {
    d.map_values(|p: (String, Frontmatter)| p.1.id@)
}

/// `d[i]` is the last document read with id `id`.
pub open spec fn is_last_with_id(d: Seq<(String, Frontmatter)>, i: int, id: Seq<char>) -> bool {
    &&& 0 <= i < d.len()
    &&& d[i].1.id@ == id
    &&& forall|j: int| i < j < d.len() ==> (#[trigger] d[j]).1.id@ != id
}

/// The index of the last document read with id `id`.
pub open spec fn last_index(d: Seq<(String, Frontmatter)>, id: Seq<char>) -> int {
    choose|i: int| is_last_with_id(d, i, id)
}

proof fn lemma_last_unique(d: Seq<(String, Frontmatter)>, i: int, k: int, id: Seq<char>)
    requires
        is_last_with_id(d, i, id),
        is_last_with_id(d, k, id),
    ensures
        i == k,
{
    if i < k {
        assert(d[k].1.id@ != id);
    } else if k < i {
        assert(d[i].1.id@ != id);
    }
}

/// The active concerns of every document, one document after the other.
pub open spec fn all_active(d: Seq<(String, Frontmatter)>) -> Seq<Seq<char>>
    decreases d.len(),
{
    if d.len() == 0 {
        Seq::empty()
    } else {
        all_active(d.drop_last()) + spec_active_concerns(d.last().1)
    }
}

/// The concerns named by supersession records, record after record.
pub open spec fn sb_concerns(sb: Seq<SupersededBy>) -> Seq<Seq<char>>
    decreases sb.len(),
{
    if sb.len() == 0 {
        Seq::empty()
    } else {
        sb_concerns(sb.drop_last()) + sb.last().concerns.deep_view()
    }
}

/// The superseded concerns of every document.
pub open spec fn all_superseded(d: Seq<(String, Frontmatter)>) -> Seq<Seq<char>>
    decreases d.len(),
{
    if d.len() == 0 {
        Seq::empty()
    } else {
        all_superseded(d.drop_last()) + sb_concerns(d.last().1.superseded_by@)
    }
}

/// The ids of the documents that hold `c` among their active concerns.
pub open spec fn owner_ids(d: Seq<(String, Frontmatter)>, c: Seq<char>) -> Seq<Seq<char>> {
    d.filter(|p: (String, Frontmatter)| spec_active_concerns(p.1).contains(c)).map_values(
        |p: (String, Frontmatter)| p.1.id@,
    )
}

/// Superseded concerns that no document actively owns.
pub open spec fn orphan_candidates(d: Seq<(String, Frontmatter)>) -> Seq<Seq<char>> {
    all_superseded(d).filter(|c: Seq<char>| !all_active(d).contains(c))
}

/// The concerns of a roster with more than one owner, in roster order.
pub open spec fn multi_of(roster: Seq<(String, ConcernRosterEntry)>) -> Seq<Seq<char>> {
    roster.filter(|p: (String, ConcernRosterEntry)| p.1.owners.len() > 1).map_values(
        |p: (String, ConcernRosterEntry)| p.0@,
    )
}

impl Registry {
    /// Both maps are in strictly increasing key order.
    pub open spec fn wf(&self) -> bool {
        &&& strictly_sorted(doc_keys(self.documents@))
        &&& strictly_sorted(roster_keys(self.concern_roster@))
    }

    /// What `build` makes of the documents `d` (path, frontmatter).
    pub open spec fn built_from(&self, d: Seq<(String, Frontmatter)>) -> bool {
        &&& self.wf()
        &&& doc_keys(self.documents@).to_set() == input_ids(d).to_set()
        &&& forall|j: int|
            0 <= j < self.documents.len() ==> {
                let id = (#[trigger] self.documents@[j]).0@;
                let i = last_index(d, id);
                is_last_with_id(d, i, id) && entry_view(self.documents@[j].1) == spec_entry(
                    d[i].0@,
                    d[i].1,
                )
            }
        &&& roster_keys(self.concern_roster@).to_set() == all_active(d).to_set()
        &&& forall|j: int|
            0 <= j < self.concern_roster.len() ==> {
                let owners = (#[trigger] self.concern_roster@[j]).1.owners.deep_view();
                strictly_sorted(owners) && owners.to_set() == owner_ids(
                    d,
                    self.concern_roster@[j].0@,
                ).to_set()
            }
        &&& strictly_sorted(self.orphaned_concerns.deep_view())
        &&& self.orphaned_concerns.deep_view().to_set() == orphan_candidates(d).to_set()
        &&& self.multi_owned_concerns.deep_view() == multi_of(self.concern_roster@)
    }
}

/// The active concerns of every document.
fn collect_active(docs: &Vec<(String, Frontmatter)>) -> (r: Vec<String>)
    ensures
        r.deep_view() == all_active(docs@),
{
    let mut out: Vec<String> = Vec::new();
    let mut i: usize = 0;
    while i < docs.len()
        invariant
            i <= docs.len(),
            out.deep_view() == all_active(docs@.take(i as int)),
        decreases docs.len() - i,
    {
        let a = active_concerns(&docs[i].1);
        extend_strings(&mut out, &a);
        assert(docs@.take(i + 1).drop_last() =~= docs@.take(i as int));
        i += 1;
    }
    assert(docs@.take(docs.len() as int) =~= docs@);
    out
}

/// The superseded concerns of every document.
fn collect_superseded(docs: &Vec<(String, Frontmatter)>) -> (r: Vec<String>)
    ensures
        r.deep_view() == all_superseded(docs@),
{
    let mut out: Vec<String> = Vec::new();
    let mut i: usize = 0;
    while i < docs.len()
        invariant
            i <= docs.len(),
            out.deep_view() == all_superseded(docs@.take(i as int)),
        decreases docs.len() - i,
    {
        let sb = &docs[i].1.superseded_by;
        let ghost before = out.deep_view();
        let mut k: usize = 0;
        while k < sb.len()
            invariant
                k <= sb.len(),
                out.deep_view() == before + sb_concerns(sb@.take(k as int)),
            decreases sb.len() - k,
        {
            extend_strings(&mut out, &sb[k].concerns);
            assert(sb@.take(k + 1).drop_last() =~= sb@.take(k as int));
            k += 1;
        }
        assert(sb@.take(sb.len() as int) =~= sb@);
        assert(docs@.take(i + 1).drop_last() =~= docs@.take(i as int));
        i += 1;
    }
    assert(docs@.take(docs.len() as int) =~= docs@);
    out
}

/// The ids of the documents that actively own `c`, in document order.
fn collect_owners(docs: &Vec<(String, Frontmatter)>, c: &str) -> (r: Vec<String>)
    ensures
        r.deep_view() == owner_ids(docs@, c@),
{
    let ghost f = |p: (String, Frontmatter)| spec_active_concerns(p.1).contains(c@);
    let ghost g = |p: (String, Frontmatter)| p.1.id@;
    let mut out: Vec<String> = Vec::new();
    let mut i: usize = 0;
    while i < docs.len()
        invariant
            i <= docs.len(),
            f == (|p: (String, Frontmatter)| spec_active_concerns(p.1).contains(c@)),
            g == (|p: (String, Frontmatter)| p.1.id@),
            out.deep_view() == docs@.take(i as int).filter(f).map_values(g),
        decreases docs.len() - i,
    {
        let ghost d = docs@;
        assert(d.take(i + 1) =~= d.take(i as int).push(d[i as int]));
        proof {
            d.take(i as int).lemma_filter_push(d[i as int], f);
        }
        let a = active_concerns(&docs[i].1);
        if strings_contain(&a, c) {
            let id = clone_string(&docs[i].1.id);
            push_string(&mut out, id);
            assert(d.take(i + 1).filter(f).map_values(g) =~= d.take(i as int).filter(f).map_values(
                g,
            ).push(d[i as int].1.id@));
        } else {
            assert(d.take(i + 1).filter(f) == d.take(i as int).filter(f));
        }
        i += 1;
    }
    assert(docs@.take(docs.len() as int) =~= docs@);
    out
}

/// Superseded concerns that are not among `active`.
fn collect_orphans(superseded: &Vec<String>, active: &Vec<String>) -> (r: Vec<String>)
    ensures
        r.deep_view() == superseded.deep_view().filter(
            |c: Seq<char>| !active.deep_view().contains(c),
        ),
{
    let ghost f = |c: Seq<char>| !active.deep_view().contains(c);
    let mut out: Vec<String> = Vec::new();
    let mut i: usize = 0;
    while i < superseded.len()
        invariant
            i <= superseded.len(),
            f == (|c: Seq<char>| !active.deep_view().contains(c)),
            out.deep_view() == superseded.deep_view().take(i as int).filter(f),
        decreases superseded.len() - i,
    {
        let ghost s = superseded.deep_view();
        assert(s.take(i + 1) =~= s.take(i as int).push(s[i as int]));
        proof {
            s.take(i as int).lemma_filter_push(s[i as int], f);
        }
        if !strings_contain(active, superseded[i].as_str()) {
            let c = clone_string(&superseded[i]);
            push_string(&mut out, c);
        }
        i += 1;
    }
    assert(superseded.deep_view().take(superseded.len() as int) =~= superseded.deep_view());
    out
}

/// The index of the last document read with id `id`, which one has.
fn last_with_id(docs: &Vec<(String, Frontmatter)>, id: &str) -> (r: usize)
    requires
        input_ids(docs@).contains(id@),
    ensures
        is_last_with_id(docs@, r as int, id@),
{
    let ghost w = choose|w: int| 0 <= w < input_ids(docs@).len() && input_ids(docs@)[w] == id@;
    let mut i: usize = docs.len();
    while i > 0
        invariant
            i <= docs.len(),
            0 <= w < docs.len(),
            docs@[w].1.id@ == id@,
            w < i,
            forall|j: int| i <= j < docs.len() ==> (#[trigger] docs@[j]).1.id@ != id@,
        decreases i,
    {
        if str_eq(docs[i - 1].1.id.as_str(), id) {
            return i - 1;
        }
        i -= 1;
    }
    0
}

/// A copy of an entry built from a document.
fn make_entry(path: &String, fm: &Frontmatter) -> (r: DocumentEntry)
    ensures
        entry_view(r) == spec_entry(path@, *fm),
{
    DocumentEntry {
        file: clone_string(path),
        created: clone_string(&fm.created),
        status: fm.status,
        concerns: crate::text::clone_strings(&fm.concerns),
        active_concerns: active_concerns(fm),
        scope: copy_scope(&fm.scope),
        superseded_by: copy_superseded(&fm.superseded_by),
    }
}

impl Registry {
    /// The registry of the documents read: every document under its id (the
    /// last one read wins), the owners of each active concern, the superseded
    /// concerns left without an owner, and the concerns with several owners.
    /// The time and the commit are those of the caller.
    pub fn build(
        docs: &Vec<(String, Frontmatter)>,
        generated_at: &str,
        generated_from_commit: Option<String>,
    ) -> (r: Registry)
        ensures
            r.schema_version == SCHEMA_VERSION,
            r.generated_at@ == generated_at@,
            r.generated_from_commit == generated_from_commit,
            r.built_from(docs@),
    {
        let ghost d = docs@;
        // Documents, by id.
        let mut ids: Vec<String> = Vec::new();
        let mut i: usize = 0;
        while i < docs.len()
            invariant
                i <= docs.len(),
                d == docs@,
                ids.deep_view() == input_ids(d).take(i as int),
            decreases docs.len() - i,
        {
            let id = clone_string(&docs[i].1.id);
            push_string(&mut ids, id);
            assert(input_ids(d).take(i + 1) =~= input_ids(d).take(i as int).push(d[i as int].1.id@));
            i += 1;
        }
        assert(input_ids(d).take(docs.len() as int) =~= input_ids(d));
        let keys = sort_dedup_strings(&ids);
        let mut documents: Vec<(String, DocumentEntry)> = Vec::new();
        let ghost mut src: Seq<int> = Seq::empty();
        let mut j: usize = 0;
        while j < keys.len()
            invariant
                j <= keys.len(),
                d == docs@,
                keys.deep_view().to_set() == input_ids(d).to_set(),
                documents.len() == j,
                src.len() == j,
                forall|m: int| 0 <= m < j ==> (#[trigger] documents@[m]).0@ == keys.deep_view()[m],
                forall|m: int|
                    0 <= m < j ==> is_last_with_id(d, src[m], (#[trigger] documents@[m]).0@)
                        && entry_view(documents@[m].1) == spec_entry(d[src[m]].0@, d[src[m]].1),
            decreases keys.len() - j,
        {
            assert(keys.deep_view().to_set().contains(keys.deep_view()[j as int]));
            assert(keys@[j as int]@ == keys.deep_view()[j as int]);
            let k = last_with_id(docs, keys[j].as_str());
            let e = make_entry(&docs[k].0, &docs[k].1);
            let key = clone_string(&keys[j]);
            documents.push((key, e));
            proof {
                src = src.push(k as int);
            }
            j += 1;
        }
        assert(doc_keys(documents@) =~= keys.deep_view());
        // Concern roster.
        let active = collect_active(docs);
        let ckeys = sort_dedup_strings(&active);
        let mut roster: Vec<(String, ConcernRosterEntry)> = Vec::new();
        let mut j: usize = 0;
        while j < ckeys.len()
            invariant
                j <= ckeys.len(),
                d == docs@,
                roster.len() == j,
                forall|m: int| 0 <= m < j ==> (#[trigger] roster@[m]).0@ == ckeys.deep_view()[m],
                forall|m: int|
                    0 <= m < j ==> {
                        let owners = (#[trigger] roster@[m]).1.owners.deep_view();
                        strictly_sorted(owners) && owners.to_set() == owner_ids(
                            d,
                            roster@[m].0@,
                        ).to_set()
                    },
            decreases ckeys.len() - j,
        {
            let found = collect_owners(docs, ckeys[j].as_str());
            let owners = sort_dedup_strings(&found);
            let key = clone_string(&ckeys[j]);
            roster.push((key, ConcernRosterEntry { owners }));
            j += 1;
        }
        assert(roster_keys(roster@) =~= ckeys.deep_view());
        // Orphaned concerns.
        let superseded = collect_superseded(docs);
        let candidates = collect_orphans(&superseded, &active);
        let orphaned = sort_dedup_strings(&candidates);
        // Concerns with several owners.
        let ghost f = |p: (String, ConcernRosterEntry)| p.1.owners.len() > 1;
        let ghost g = |p: (String, ConcernRosterEntry)| p.0@;
        let mut multi: Vec<String> = Vec::new();
        let mut j: usize = 0;
        while j < roster.len()
            invariant
                j <= roster.len(),
                f == (|p: (String, ConcernRosterEntry)| p.1.owners.len() > 1),
                g == (|p: (String, ConcernRosterEntry)| p.0@),
                multi.deep_view() == roster@.take(j as int).filter(f).map_values(g),
            decreases roster.len() - j,
        {
            let ghost rs = roster@;
            assert(rs.take(j + 1) =~= rs.take(j as int).push(rs[j as int]));
            proof {
                rs.take(j as int).lemma_filter_push(rs[j as int], f);
            }
            if roster[j].1.owners.len() > 1 {
                let key = clone_string(&roster[j].0);
                push_string(&mut multi, key);
                assert(rs.take(j + 1).filter(f).map_values(g) =~= rs.take(j as int).filter(
                    f,
                ).map_values(g).push(rs[j as int].0@));
            } else {
                assert(rs.take(j + 1).filter(f) == rs.take(j as int).filter(f));
            }
            j += 1;
        }
        assert(roster@.take(roster.len() as int) =~= roster@);
        let r = Registry {
            schema_version: SCHEMA_VERSION,
            generated_at: String::from_str(generated_at),
            generated_from_commit,
            documents,
            concern_roster: roster,
            orphaned_concerns: orphaned,
            multi_owned_concerns: multi,
        };
        assert(r.wf());
        assert forall|j: int| 0 <= j < r.documents.len() implies {
            let id = (#[trigger] r.documents@[j]).0@;
            let i = last_index(d, id);
            is_last_with_id(d, i, id) && entry_view(r.documents@[j].1) == spec_entry(
                d[i].0@,
                d[i].1,
            )
        } by {
            let id = r.documents@[j].0@;
            assert(is_last_with_id(d, src[j], id));
            lemma_last_unique(d, src[j], last_index(d, id), id);
        }
        assert(doc_keys(r.documents@).to_set() == input_ids(d).to_set());
        assert(roster_keys(r.concern_roster@).to_set() == all_active(d).to_set());
        assert(r.orphaned_concerns.deep_view().to_set() == orphan_candidates(d).to_set());
        assert(r.multi_owned_concerns.deep_view() == multi_of(r.concern_roster@));
        r
    }
}

impl Registry {
    /// The position of document `id` in `documents`.
    pub fn document_index(&self, id: &str) -> (r: Option<usize>)
        ensures
            r matches Some(j) ==> j < self.documents.len() && self.documents@[j as int].0@ == id@,
            r is None ==> !doc_keys(self.documents@).contains(id@),
    {
        let mut j: usize = 0;
        while j < self.documents.len()
            invariant
                j <= self.documents.len(),
                forall|m: int| 0 <= m < j ==> (#[trigger] self.documents@[m]).0@ != id@,
            decreases self.documents.len() - j,
        {
            if str_eq(self.documents[j].0.as_str(), id) {
                return Some(j);
            }
            j += 1;
        }
        proof {
            if doc_keys(self.documents@).contains(id@) {
                let m = choose|m: int| 0 <= m < doc_keys(self.documents@).len() && doc_keys(self.documents@)[m] == id@;
                assert(self.documents@[m].0@ != id@);
            }
        }
        None
    }

    /// The position of `concern` in `concern_roster`.
    pub fn roster_index(&self, concern: &str) -> (r: Option<usize>)
        ensures
            r matches Some(j) ==> j < self.concern_roster.len() && self.concern_roster@[j as int].0@
                == concern@,
            r is None ==> !roster_keys(self.concern_roster@).contains(concern@),
    {
        let mut j: usize = 0;
        while j < self.concern_roster.len()
            invariant
                j <= self.concern_roster.len(),
                forall|m: int| 0 <= m < j ==> (#[trigger] self.concern_roster@[m]).0@ != concern@,
            decreases self.concern_roster.len() - j,
        {
            if str_eq(self.concern_roster[j].0.as_str(), concern) {
                return Some(j);
            }
            j += 1;
        }
        proof {
            if roster_keys(self.concern_roster@).contains(concern@) {
                let m = choose|m: int| 0 <= m < roster_keys(self.concern_roster@).len() && roster_keys(self.concern_roster@)[m] == concern@;
                assert(self.concern_roster@[m].0@ != concern@);
            }
        }
        None
    }
}

// ---------------------------------------------------------------------------
// Laws of a built registry
// ---------------------------------------------------------------------------

/// Every document read has an entry under its id.
pub proof fn lemma_every_document_listed(r: Registry, d: Seq<(String, Frontmatter)>, i: int)
    requires
        r.built_from(d),
        0 <= i < d.len(),
    ensures
        doc_keys(r.documents@).contains(d[i].1.id@),
{
    assert(input_ids(d)[i] == d[i].1.id@);
    assert(input_ids(d).to_set().contains(d[i].1.id@));
}

/// Each owner listed for a concern is a document read that holds the concern
/// as active, and each such document is listed.
pub proof fn lemma_roster_owners(r: Registry, d: Seq<(String, Frontmatter)>, j: int, id: Seq<char>)
    requires
        r.built_from(d),
        0 <= j < r.concern_roster.len(),
    ensures
        r.concern_roster@[j].1.owners.deep_view().contains(id) <==> exists|i: int|
            0 <= i < d.len() && d[i].1.id@ == id && spec_active_concerns(d[i].1).contains(
                #[trigger] r.concern_roster@[j].0@,
            ),
{
    let c = r.concern_roster@[j].0@;
    let f = |p: (String, Frontmatter)| spec_active_concerns(p.1).contains(c);
    let g = |p: (String, Frontmatter)| p.1.id@;
    let owners = r.concern_roster@[j].1.owners.deep_view();
    let oi = owner_ids(d, c);
    assert(oi == d.filter(f).map_values(g));
    assert(owners.to_set() == oi.to_set());
    if owners.contains(id) {
        assert(owners.to_set().contains(id));
        assert(oi.contains(id));
        let k = choose|k: int| 0 <= k < oi.len() && oi[k] == id;
        let p = d.filter(f)[k];
        assert(f(p));
        assert(d.filter(f).contains(p));
        d.lemma_filter_contains_rev(f, p);
        let i = choose|i: int| 0 <= i < d.len() && d[i] == p;
        assert(d[i].1.id@ == id && spec_active_concerns(d[i].1).contains(c));
    }
    if exists|i: int| 0 <= i < d.len() && d[i].1.id@ == id && spec_active_concerns(d[i].1).contains(c) {
        let i = choose|i: int| 0 <= i < d.len() && d[i].1.id@ == id && spec_active_concerns(d[i].1).contains(c);
        assert(f(d[i]));
        d.lemma_filter_contains(f, i);
        let k = choose|k: int| 0 <= k < d.filter(f).len() && d.filter(f)[k] == d[i];
        assert(oi[k] == id);
        assert(oi.contains(id));
        assert(oi.to_set().contains(id));
        assert(owners.to_set().contains(id));
    }
}

/// An orphaned concern has no owner, and some supersession record names it.
pub proof fn lemma_orphans_unowned(r: Registry, d: Seq<(String, Frontmatter)>, c: Seq<char>)
    requires
        r.built_from(d),
        r.orphaned_concerns.deep_view().contains(c),
    ensures
        !roster_keys(r.concern_roster@).contains(c),
        all_superseded(d).contains(c),
{
    assert(r.orphaned_concerns.deep_view().to_set().contains(c));
    assert(orphan_candidates(d).to_set().contains(c));
    assert(orphan_candidates(d).contains(c));
    let f = |x: Seq<char>| !all_active(d).contains(x);
    assert(orphan_candidates(d) == all_superseded(d).filter(f));
    all_superseded(d).lemma_filter_contains_rev(f, c);
    let k = choose|k: int| 0 <= k < orphan_candidates(d).len() && orphan_candidates(d)[k] == c;
    assert(f(all_superseded(d).filter(f)[k]));
    assert(!all_active(d).contains(c));
    if roster_keys(r.concern_roster@).contains(c) {
        assert(roster_keys(r.concern_roster@).to_set().contains(c));
        assert(all_active(d).to_set().contains(c));
    }
}

/// A concern is listed as multi-owned exactly when the roster lists it with
/// two or more distinct owning documents.
pub proof fn lemma_multi_owned(r: Registry, d: Seq<(String, Frontmatter)>, c: Seq<char>)
    requires
        r.built_from(d),
    ensures
        r.multi_owned_concerns.deep_view().contains(c) <==> exists|j: int|
            0 <= j < r.concern_roster.len() && (#[trigger] r.concern_roster@[j]).0@ == c
                && owner_ids(d, c).to_set().len() > 1,
{
    let f = |p: (String, ConcernRosterEntry)| p.1.owners.len() > 1;
    let g = |p: (String, ConcernRosterEntry)| p.0@;
    let rs = r.concern_roster@;
    assert forall|j: int| 0 <= j < rs.len() implies (#[trigger] rs[j]).1.owners.len() > 1
        <==> owner_ids(d, rs[j].0@).to_set().len() > 1 by {
        let owners = rs[j].1.owners.deep_view();
        assert(strictly_sorted(owners));
        assert(owners.no_duplicates()) by {
            assert forall|a: int, b: int| 0 <= a < owners.len() && 0 <= b < owners.len() && a != b
                implies owners[a] != owners[b] by {
                if a < b {
                    crate::text::lemma_seq_lt_irreflexive(owners[a]);
                } else {
                    crate::text::lemma_seq_lt_irreflexive(owners[b]);
                }
            }
        }
        owners.unique_seq_to_set();
    }
    if r.multi_owned_concerns.deep_view().contains(c) {
        let k = choose|k: int| 0 <= k < rs.filter(f).map_values(g).len() && rs.filter(f).map_values(g)[k] == c;
        let p = rs.filter(f)[k];
        assert(f(p));
        assert(rs.filter(f).contains(p));
        rs.lemma_filter_contains_rev(f, p);
        let j = choose|j: int| 0 <= j < rs.len() && rs[j] == p;
        assert(rs[j].0@ == c && f(rs[j]));
    }
    if exists|j: int| 0 <= j < rs.len() && (#[trigger] rs[j]).0@ == c && owner_ids(d, c).to_set().len() > 1 {
        let j = choose|j: int| 0 <= j < rs.len() && (#[trigger] rs[j]).0@ == c && owner_ids(d, c).to_set().len() > 1;
        assert(f(rs[j]));
        rs.lemma_filter_contains(f, j);
        let k = choose|k: int| 0 <= k < rs.filter(f).len() && rs.filter(f)[k] == rs[j];
        assert(rs.filter(f).map_values(g)[k] == c);
    }
}

} // verus!
