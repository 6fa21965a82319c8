//! Appending a note under an active concern of a document.
use vstd::prelude::*;
use crate::document::{
    active_concerns, format_ranked_concern_block, heading_marker, spec_active_concerns,
    spec_append_block, spec_ranked_block, Frontmatter,
};
use crate::registry::{doc_keys, Registry};
use crate::text::{
    clone_string, from_chars, push_all, push_str, strings_contain, to_chars, trim_chars,
    trim_end_matches_chars,
};

verus! {

/// Why a note could not be appended.
#[derive(Clone, Debug)]
pub enum AppendError {
    DocumentNotFound { id: String },
    InactiveConcern { concern: String, id: String },
}

impl AppendError {
    pub fn message(&self) -> (r: String)
        ensures
            self matches AppendError::DocumentNotFound { id } ==> r@ == "document "@ + id@
                + " not found"@,
            self matches AppendError::InactiveConcern { concern, id } ==> r@ == "concern "@
                + concern@ + " is not active in document "@ + id@,
    {
        let mut out: Vec<char> = Vec::new();
        match self {
            AppendError::DocumentNotFound { id } => {
                push_str(&mut out, "document ");
                push_str(&mut out, id.as_str());
                push_str(&mut out, " not found");
            },
            AppendError::InactiveConcern { concern, id } => {
                push_str(&mut out, "concern ");
                push_str(&mut out, concern.as_str());
                push_str(&mut out, " is not active in document ");
                push_str(&mut out, id.as_str());
            },
        }
        from_chars(&out)
    }
}

/// `body` with a `### concern` block holding the trimmed `text` at its end.
pub fn append_block(body: &str, concern: &str, text: &str) -> (r: String)
    ensures
        r@ == spec_append_block(body@, concern@, text@),
{
    let b = to_chars(body);
    let nl = vec!['\n'];
    assert(nl@ =~= seq!['\n']);
    let mut out = trim_end_matches_chars(&b, &nl);
    if out.len() > 0 {
        out.push('\n');
        out.push('\n');
    }
    push_str(&mut out, "### ");
    push_str(&mut out, concern);
    out.push('\n');
    out.push('\n');
    let t = to_chars(text);
    let tt = trim_chars(&t);
    push_all(&mut out, &tt);
    out.push('\n');
    proof {
        reveal_strlit("### ");
    }
    assert(out@ =~= spec_append_block(body@, concern@, text@));
    from_chars(&out)
}

/// The file of document `id`, as the registry records it.
pub fn document_file(registry: &Registry, id: &str) -> (r: Result<String, AppendError>)
    ensures
        r matches Ok(f) ==> exists|j: int|
            0 <= j < registry.documents.len() && (#[trigger] registry.documents@[j]).0@ == id@
                && registry.documents@[j].1.file@ == f@,
        r matches Err(e) ==> (e matches AppendError::DocumentNotFound { id: i } && i@ == id@),
        r is Ok <==> doc_keys(registry.documents@).contains(id@),
{
    match registry.document_index(id) {
        Some(j) => {
            assert(doc_keys(registry.documents@)[j as int] == id@);
            Ok(clone_string(&registry.documents[j].1.file))
        },
        None => Err(AppendError::DocumentNotFound { id: String::from_str(id) }),
    }
}

/// `body` with its trailing newlines removed, a blank line when anything is
/// left, then the ranked block `### {concern} [r{rank}]` holding the trimmed
/// `text`.
pub open spec fn spec_append_ranked(body: Seq<char>, concern: Seq<char>, text: Seq<char>, rank: u8) -> Seq<char> {
    let t = crate::text::trim_end_matches(body, seq!['\n']);
    let head = if t.len() == 0 {
        t
    } else {
        t + seq!['\n', '\n']
    };
    head + spec_ranked_block(concern, text, rank)
}

/// The new body of a document after a note of rank `rank` under `concern`,
/// which must be one of its active concerns.
pub fn append_note(frontmatter: &Frontmatter, body: &str, concern: &str, text: &str, rank: u8) -> (r: Result<
    String,
    AppendError,
>)
    ensures
        r is Ok <==> spec_active_concerns(*frontmatter).contains(concern@),
        r matches Ok(b) ==> b@ == spec_append_ranked(body@, concern@, text@, rank),
        r matches Err(e) ==> (e matches AppendError::InactiveConcern { concern: c, id } && c@
            == concern@ && id@ == frontmatter.id@),
{
    let active = active_concerns(frontmatter);
    if !strings_contain(&active, concern) {
        return Err(
            AppendError::InactiveConcern {
                concern: String::from_str(concern),
                id: clone_string(&frontmatter.id),
            },
        );
    }
    let b = to_chars(body);
    let nl = vec!['\n'];
    assert(nl@ =~= seq!['\n']);
    let mut out = trim_end_matches_chars(&b, &nl);
    if out.len() > 0 {
        out.push('\n');
        out.push('\n');
    }
    let block = format_ranked_concern_block(concern, text, rank);
    push_str(&mut out, block.as_str());
    assert(out@ =~= spec_append_ranked(body@, concern@, text@, rank));
    Ok(from_chars(&out))
}

/// Appending never rewrites what a body held: the body without its trailing
/// newlines starts the new body, ranked or not.
pub proof fn lemma_append_keeps_body(body: Seq<char>, concern: Seq<char>, text: Seq<char>, rank: u8)
    ensures
        crate::text::trim_end_matches(body, seq!['\n']).is_prefix_of(
            spec_append_ranked(body, concern, text, rank),
        ),
        crate::text::trim_end_matches(body, seq!['\n']).is_prefix_of(
            spec_append_block(body, concern, text),
        ),
{
    let t = crate::text::trim_end_matches(body, seq!['\n']);
    let out = spec_append_ranked(body, concern, text, rank);
    let out2 = spec_append_block(body, concern, text);
    assert forall|i: int| 0 <= i < t.len() implies t[i] == out[i] by {}
    assert forall|i: int| 0 <= i < t.len() implies t[i] == out2[i] by {}
}

} // verus!
