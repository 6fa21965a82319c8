//! Refreshing a concern: a successor document takes the concern over from
//! its current owner, which records the supersession.
use vstd::prelude::*;
use crate::cli::RefreshArgs;
use crate::commands::supersede::{
    first_with_id, lemma_supersede_active, not_in, record_supersession,
    supersession_recorded,
};
use crate::document::{
    active_concerns, copy_scope, extract_concern_section, fm_view, not_superseded, recompute_status,
    superseded_concern,
    sbs_view, scope_view, spec_active_concerns, spec_extract_section, spec_status, Frontmatter,
    Scope, Status, SupersededBy,
};
use crate::id::{generate_id, spec_generate_id};
use crate::paths::{join_path, path_join};
use crate::registry::{doc_keys, roster_keys, Registry};
use crate::text::{
    clone_string, clone_strings, find, from_chars, join, push_str, push_string,
    slice, str_eq, strings_contain, to_chars, trim, trim_chars,
};

verus! {

broadcast use crate::views::lemma_char_vec_deep_view;

/// Why a concern could not be refreshed.
#[derive(Clone, Debug)]
pub enum RefreshError {
    ConcernRequired,
    AlreadyExists { path: String },
    NoActiveOwner { concern: String },
    NotAnOwner { from: String, concern: String },
    MultipleOwners { concern: String, owners: String },
    DocumentNotFound { id: String },
    InactiveConcern { concern: String, id: String },
}

impl RefreshError {
    pub fn message(&self) -> (r: String)
        ensures
            self matches RefreshError::ConcernRequired ==> r@ == "--concern is required"@,
            self matches RefreshError::AlreadyExists { path } ==> r@ == "document already exists at "@
                + path@,
            self matches RefreshError::NoActiveOwner { concern } ==> r@ == "concern "@ + concern@
                + " has no active owner"@,
            self matches RefreshError::NotAnOwner { from, concern } ==> r@ == "document "@ + from@
                + " is not an active owner of concern "@ + concern@,
            self matches RefreshError::MultipleOwners { concern, owners } ==> r@ == "concern "@
                + concern@ + " has multiple active owners: "@ + owners@
                + "; use --from to disambiguate"@,
            self matches RefreshError::DocumentNotFound { id } ==> r@ == "document "@ + id@
                + " not found"@,
            self matches RefreshError::InactiveConcern { concern, id } ==> r@ == "concern "@
                + concern@ + " is not active in document "@ + id@,
    {
        let mut out: Vec<char> = Vec::new();
        match self {
            RefreshError::ConcernRequired => {
                push_str(&mut out, "--concern is required");
            },
            RefreshError::AlreadyExists { path } => {
                push_str(&mut out, "document already exists at ");
                push_str(&mut out, path.as_str());
            },
            RefreshError::NoActiveOwner { concern } => {
                push_str(&mut out, "concern ");
                push_str(&mut out, concern.as_str());
                push_str(&mut out, " has no active owner");
            },
            RefreshError::NotAnOwner { from, concern } => {
                push_str(&mut out, "document ");
                push_str(&mut out, from.as_str());
                push_str(&mut out, " is not an active owner of concern ");
                push_str(&mut out, concern.as_str());
            },
            RefreshError::MultipleOwners { concern, owners } => {
                push_str(&mut out, "concern ");
                push_str(&mut out, concern.as_str());
                push_str(&mut out, " has multiple active owners: ");
                push_str(&mut out, owners.as_str());
                push_str(&mut out, "; use --from to disambiguate");
            },
            RefreshError::DocumentNotFound { id } => {
                push_str(&mut out, "document ");
                push_str(&mut out, id.as_str());
                push_str(&mut out, " not found");
            },
            RefreshError::InactiveConcern { concern, id } => {
                push_str(&mut out, "concern ");
                push_str(&mut out, concern.as_str());
                push_str(&mut out, " is not active in document ");
                push_str(&mut out, id.as_str());
            },
        }
        from_chars(&out)
    }
}

// ---------------------------------------------------------------------------
// Names and paths
// ---------------------------------------------------------------------------

/// A document name as given, trimmed, without a trailing `.md` when
/// something precedes it.
pub open spec fn spec_normalize_name(name: Seq<char>) -> Seq<char> {
    let t = trim(name);
    if t.len() > 3 && t.skip(t.len() - 3) == seq!['.', 'm', 'd'] {
        t.take(t.len() - 3)
    } else {
        t
    }
}

/// The name a new document is stored under.
pub fn normalize_name(name: &str) -> (r: String)
    ensures
        r@ == spec_normalize_name(name@),
{
    let n = to_chars(name);
    let t = trim_chars(&n);
    let len = t.len();
    if len > 3 && t[len - 3] == '.' && t[len - 2] == 'm' && t[len - 1] == 'd' {
        assert(t@.skip(len - 3) =~= seq!['.', 'm', 'd']);
        let base = slice(&t, 0, len - 3);
        assert(base@ =~= t@.take(len - 3));
        from_chars(&base)
    } else {
        proof {
            if len > 3 && t@.skip(len - 3) == seq!['.', 'm', 'd'] {
                assert(t@.skip(len - 3)[0] == t@[len - 3]);
                assert(t@.skip(len - 3)[1] == t@[len - 2]);
                assert(t@.skip(len - 3)[2] == t@[len - 1]);
            }
        }
        from_chars(&t)
    }
}

/// What a refresh is about to write.
#[derive(Clone, Debug)]
pub struct RefreshPlan {
    pub concern: String,
    pub name: String,
    pub file: String,
}

/// The trimmed concern, the normalized name and the new document's path
/// `{base}/.context/{name}.md`.
pub fn plan_refresh(args: &RefreshArgs, base: &str) -> (r: Result<RefreshPlan, RefreshError>)
    ensures
        r is Err <==> trim(args.concern@).len() == 0,
        r matches Err(e) ==> e matches RefreshError::ConcernRequired,
        r matches Ok(p) ==> {
            &&& p.concern@ == trim(args.concern@)
            &&& p.name@ == spec_normalize_name(args.name@)
            &&& p.file@ == path_join(path_join(base@, ".context"@), spec_normalize_name(args.name@) + ".md"@)
        },
{
    let c = to_chars(args.concern.as_str());
    let t = trim_chars(&c);
    if t.len() == 0 {
        return Err(RefreshError::ConcernRequired);
    }
    let name = normalize_name(args.name.as_str());
    let mut file_name = to_chars(name.as_str());
    push_str(&mut file_name, ".md");
    let dir = join_path(base, ".context");
    let fname = from_chars(&file_name);
    let file = join_path(dir.as_str(), fname.as_str());
    Ok(RefreshPlan { concern: from_chars(&t), name, file })
}

// ---------------------------------------------------------------------------
// The source document
// ---------------------------------------------------------------------------

/// The texts of `parts` separated by `, `.
fn join_comma(parts: &Vec<String>) -> (r: String)
    ensures
        r@ == join(parts.deep_view(), seq![',', ' ']),
{
    let cs = crate::text::strings_to_chars(parts);
    let sep = vec![',', ' '];
    assert(sep@ =~= seq![',', ' ']);
    let out = crate::text::join_chars(&cs, &sep);
    from_chars(&out)
}

/// Which owner of `concern` a refresh starts from: the only owner when no
/// `from` is given, else `from` when it is an owner.
pub open spec fn spec_source(owners: Seq<Seq<char>>, from: Option<Seq<char>>) -> Option<Seq<char>> {
    match from {
        None => if owners.len() == 1 {
            Some(owners[0])
        } else {
            None
        },
        Some(f) => if owners.contains(f) {
            Some(f)
        } else {
            None
        },
    }
}

pub open spec fn opt_str_view(o: Option<&str>) -> Option<Seq<char>> {
    match o {
        Some(s) => Some(s@),
        None => None,
    }
}

/// The id and file of the document a refresh of `concern` starts from.
pub fn refresh_source(registry: &Registry, concern: &str, from: Option<&str>) -> (r: Result<
    (String, String),
    RefreshError,
>)
    ensures
        r matches Err(RefreshError::NoActiveOwner { concern: c }) ==> c@ == concern@
            && !roster_keys(registry.concern_roster@).contains(concern@),
        r matches Ok((id, file)) ==> exists|j: int, m: int|
            0 <= j < registry.concern_roster.len() && 0 <= m < registry.documents.len() && (
            #[trigger] registry.concern_roster@[j]).0@ == concern@ && spec_source(
                registry.concern_roster@[j].1.owners.deep_view(),
                opt_str_view(from),
            ) == Some(id@) && (#[trigger] registry.documents@[m]).0@ == id@
                && registry.documents@[m].1.file@ == file@,
        r matches Err(RefreshError::NotAnOwner { from: f, concern: c }) ==> opt_str_view(from)
            == Some(f@) && c@ == concern@ && exists|j: int|
            0 <= j < registry.concern_roster.len() && (#[trigger] registry.concern_roster@[j]).0@
                == concern@ && !registry.concern_roster@[j].1.owners.deep_view().contains(f@),
        r matches Err(RefreshError::MultipleOwners { concern: c, owners: o }) ==> from is None
            && c@ == concern@ && exists|j: int|
            0 <= j < registry.concern_roster.len() && (#[trigger] registry.concern_roster@[j]).0@
                == concern@ && registry.concern_roster@[j].1.owners.len() != 1 && o@ == join(
                registry.concern_roster@[j].1.owners.deep_view(),
                seq![',', ' '],
            ),
        r matches Err(RefreshError::DocumentNotFound { id }) ==> exists|j: int|
            0 <= j < registry.concern_roster.len() && (#[trigger] registry.concern_roster@[j]).0@
                == concern@ && spec_source(
                registry.concern_roster@[j].1.owners.deep_view(),
                opt_str_view(from),
            ) == Some(id@) && !doc_keys(registry.documents@).contains(id@),
        r is Ok || r matches Err(RefreshError::NoActiveOwner { .. }) || r matches Err(
            RefreshError::NotAnOwner { .. },
        ) || r matches Err(RefreshError::MultipleOwners { .. }) || r matches Err(
            RefreshError::DocumentNotFound { .. },
        ),
{
    let j = match registry.roster_index(concern) {
        Some(j) => j,
        None => {
            return Err(RefreshError::NoActiveOwner { concern: String::from_str(concern) });
        },
    };
    let owners = &registry.concern_roster[j].1.owners;
    let source_id = match from {
        None => {
            if owners.len() == 1 {
                assert(owners@[0]@ == owners.deep_view()[0]);
                clone_string(&owners[0])
            } else {
                return Err(
                    RefreshError::MultipleOwners {
                        concern: String::from_str(concern),
                        owners: join_comma(owners),
                    },
                );
            }
        },
        Some(f) => {
            if strings_contain(owners, f) {
                String::from_str(f)
            } else {
                return Err(
                    RefreshError::NotAnOwner { from: String::from_str(f), concern: String::from_str(concern) },
                );
            }
        },
    };
    match registry.document_index(source_id.as_str()) {
        Some(m) => Ok((source_id, clone_string(&registry.documents[m].1.file))),
        None => Err(RefreshError::DocumentNotFound { id: source_id }),
    }
}

// ---------------------------------------------------------------------------
// The new document and the updated source
// ---------------------------------------------------------------------------

/// The successor document, its body, and the source document after the
/// supersession was recorded.
#[derive(Clone, Debug)]
pub struct RefreshOutcome {
    pub new_frontmatter: Frontmatter,
    pub new_body: String,
    pub source_frontmatter: Frontmatter,
}

/// The body a successor starts with: the concern's section of the source
/// (all of the source body when it has none) as a draft, or nothing.
pub open spec fn spec_draft(source_body: Seq<char>, concern: Seq<char>, draft_body: bool) -> Seq<char> {
    if draft_body {
        match spec_extract_section(source_body, concern) {
            Some(s) => s,
            None => source_body,
        }
    } else {
        Seq::empty()
    }
}

/// The successor of `source` for `concern`, named `name` and created at
/// `created` (RFC 3339 text), and `source` with the concern handed over. The
/// concern is active in `source`, so no record from the successor can hold it
/// yet: recording the supersession adds it.
pub fn refresh_documents(
    source: Frontmatter,
    source_body: &str,
    concern: &str,
    name: &str,
    created: &str,
    draft_body: bool,
) -> (r: Result<RefreshOutcome, RefreshError>)
    ensures
        r is Ok <==> spec_active_concerns(source).contains(concern@),
        r matches Err(e) ==> (e matches RefreshError::InactiveConcern { concern: c, id } && c@
            == concern@ && id@ == source.id@),
        r matches Ok(o) ==> {
            let new_id = spec_generate_id(name@, created@);
            let n = o.new_frontmatter;
            let s = o.source_frontmatter;
            &&& n.id@ == new_id
            &&& n.created@ == created@
            &&& n.status == Status::Current
            &&& n.concerns.deep_view() == seq![concern@]
            &&& scope_view(n.scope) == scope_view(source.scope)
            &&& n.superseded_by.len() == 0
            &&& o.new_body@ == spec_draft(source_body@, concern@, draft_body)
            &&& s.id == source.id
            &&& s.created == source.created
            &&& s.concerns == source.concerns
            &&& s.scope == source.scope
            &&& supersession_recorded(
                s.superseded_by@,
                source.superseded_by@,
                new_id,
                seq![concern@],
            )
            &&& s.status == spec_status(s)
            &&& spec_active_concerns(s) == spec_active_concerns(source).filter(
                not_in(seq![concern@]),
            )
            &&& !spec_active_concerns(s).contains(concern@)
            &&& spec_active_concerns(n) == seq![concern@]
        },
{
    let active = active_concerns(&source);
    if !strings_contain(&active, concern) {
        return Err(
            RefreshError::InactiveConcern {
                concern: String::from_str(concern),
                id: clone_string(&source.id),
            },
        );
    }
    let new_id = generate_id(name, created);
    let mut concerns: Vec<String> = Vec::new();
    push_string(&mut concerns, String::from_str(concern));
    assert(concerns.deep_view() =~= seq![concern@]);
    let new_frontmatter = Frontmatter {
        id: clone_string(&new_id),
        created: String::from_str(created),
        status: Status::Current,
        concerns,
        scope: copy_scope(&source.scope),
        superseded_by: Vec::new(),
    };
    let new_body = if draft_body {
        match extract_concern_section(source_body, concern) {
            Some(section) => section,
            None => String::from_str(source_body),
        }
    } else {
        String::new()
    };
    let mut src = source;
    let ghost old_src = src;
    let mut handed: Vec<String> = Vec::new();
    push_string(&mut handed, String::from_str(concern));
    assert(handed.deep_view() =~= seq![concern@]);
    record_supersession(&mut src.superseded_by, new_id.as_str(), &handed);
    recompute_status(&mut src);
    proof {
        lemma_supersede_active(src, old_src, new_id@, seq![concern@]);
        if spec_active_concerns(src).contains(concern@) {
            let i = choose|i: int| 0 <= i < spec_active_concerns(src).len() && spec_active_concerns(src)[i] == concern@;
            assert(not_in(seq![concern@])(spec_active_concerns(src)[i]));
            assert(seq![concern@][0] == concern@);
        }
        assert(spec_active_concerns(new_frontmatter) =~= seq![concern@]) by {
            assert(new_frontmatter.superseded_by@.len() == 0);
            assert(not_superseded(new_frontmatter.superseded_by@)(concern@));
            reveal_with_fuel(Seq::filter, 2);
        }
    }
    Ok(RefreshOutcome { new_frontmatter, new_body, source_frontmatter: src })
}

} // verus!
