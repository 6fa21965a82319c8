//! Assembling context: which documents a request selects, why, and in what
//! order they are shown.
use vstd::prelude::*;
use crate::cli::AssembleArgs;
use crate::document::{
    active_concerns, sort_concern_sections_by_rank, spec_active_concerns, spec_sort_sections,
    spec_split_document, spec_strip_frontmatter, split_document, Frontmatter, Status,
};
use crate::registry::{DocumentEntry, Registry};
use crate::subtree::{rebase_scope_path, spec_rebase};
use crate::glob_match::{glob_matches, glob_pattern_valid, GlobPattern};
use crate::sort::{sort_dedup_strings, stable_sort, stable_sort_of, strictly_sorted, SortKey};
use crate::text::{
    clone_string, clone_strings, join, lemma_seq_le_total, lemma_seq_le_transitive, push_all,
    push_str, seq_le, str_eq, str_le, strings_contain, to_chars, from_chars,
};

verus! {

broadcast use vstd::seq_lib::group_seq_properties, vstd::seq_lib::group_filter_ensures;

// ---------------------------------------------------------------------------
// Reasons
// ---------------------------------------------------------------------------

/// What kind of predicate selected a document.
#[derive(Clone, Copy, Debug, PartialEq, Eq, Structural)]
pub enum ReasonKind {
    PathMatch,
    ComponentMatch,
    ConcernMatch,
    DefaultActive,
}

pub open spec fn kind_text(k: ReasonKind) -> Seq<char> {
    match k {
        ReasonKind::PathMatch => "path-match"@,
        ReasonKind::ComponentMatch => "component-match"@,
        ReasonKind::ConcernMatch => "concern-match"@,
        ReasonKind::DefaultActive => "default-active"@,
    }
}

impl ReasonKind {
    /// The name of the kind as reports print it.
    pub fn as_str(&self) -> (r: &'static str)
        ensures
            r@ == kind_text(*self),
    {
        match self {
            ReasonKind::PathMatch => "path-match",
            ReasonKind::ComponentMatch => "component-match",
            ReasonKind::ConcernMatch => "concern-match",
            ReasonKind::DefaultActive => "default-active",
        }
    }
}

/// One reason a document was included: the kind, what was requested and what
/// in the document matched it.
#[derive(Clone, Debug)]
pub struct InclusionReason {
    pub kind: ReasonKind,
    pub requested: String,
    pub matched: String,
}

pub type ReasonView = (ReasonKind, Seq<char>, Seq<char>);

pub open spec fn reason_view(r: InclusionReason) -> ReasonView {
    (r.kind, r.requested@, r.matched@)
}

pub open spec fn reasons_view(rs: Seq<InclusionReason>) -> Seq<ReasonView> {
    rs.map_values(|r: InclusionReason| reason_view(r))
}

/// How one reason reads in an explanation.
pub open spec fn reason_text(r: ReasonView) -> Seq<char> {
    match r.0 {
        ReasonKind::ConcernMatch => "concern "@ + r.2,
        ReasonKind::ComponentMatch => "component "@ + r.2,
        ReasonKind::PathMatch => "path "@ + r.2,
        ReasonKind::DefaultActive => "default active corpus"@,
    }
}

/// The reasons as one line, separated by `, `.
pub open spec fn spec_format_reasons(rs: Seq<ReasonView>) -> Seq<char> {
    join(rs.map_values(|r: ReasonView| reason_text(r)), seq![',', ' '])
}

/// The reasons as one line of text.
pub fn format_reasons(reasons: &Vec<InclusionReason>) -> (r: String)
    ensures
        r@ == spec_format_reasons(reasons_view(reasons@)),
{
    let ghost texts = reasons_view(reasons@).map_values(|r: ReasonView| reason_text(r));
    let mut out: Vec<char> = Vec::new();
    let mut i: usize = 0;
    while i < reasons.len()
        invariant
            i <= reasons.len(),
            texts == reasons_view(reasons@).map_values(|r: ReasonView| reason_text(r)),
            out@ == join(texts.take(i as int), seq![',', ' ']),
        decreases reasons.len() - i,
    {
        let ghost before = out@;
        if i > 0 {
            out.push(',');
            out.push(' ');
        }
        let r = &reasons[i];
        match r.kind {
            ReasonKind::ConcernMatch => {
                push_str(&mut out, "concern ");
                push_str(&mut out, r.matched.as_str());
            },
            ReasonKind::ComponentMatch => {
                push_str(&mut out, "component ");
                push_str(&mut out, r.matched.as_str());
            },
            ReasonKind::PathMatch => {
                push_str(&mut out, "path ");
                push_str(&mut out, r.matched.as_str());
            },
            ReasonKind::DefaultActive => {
                push_str(&mut out, "default active corpus");
            },
        }
        assert(texts[i as int] == reason_text(reason_view(reasons@[i as int])));
        assert(texts.take(i + 1).drop_last() =~= texts.take(i as int));
        if i > 0 {
            assert(out@ =~= join(texts.take(i as int), seq![',', ' ']) + seq![',', ' '] + texts[i as int]);
        } else {
            assert(out@ =~= texts[0]);
        }
        i += 1;
    }
    assert(texts.take(reasons.len() as int) =~= texts);
    from_chars(&out)
}

// ---------------------------------------------------------------------------
// Candidates and assembled documents
// ---------------------------------------------------------------------------

/// A document that an assembly may include, with its body already prepared.
#[derive(Clone, Debug)]
pub struct AssemblyCandidate {
    pub id: String,
    pub file: String,
    pub status: Status,
    pub active_concerns: Vec<String>,
    pub scope_paths: Vec<String>,
    pub components: Vec<String>,
    pub content: String,
}

/// A document an assembly included, and why.
#[derive(Clone, Debug)]
pub struct AssembledDocument {
    pub id: String,
    pub file: String,
    pub active_concerns: Vec<String>,
    pub matched_concerns: Vec<String>,
    pub reasons: Vec<InclusionReason>,
    pub content: String,
}

impl SortKey for AssembledDocument {
    open spec fn key_le(&self, other: &Self) -> bool {
        seq_le(self.file@, other.file@)
    }

    fn key_le_exec(&self, other: &Self) -> (r: bool) {
        str_le(self.file.as_str(), other.file.as_str())
    }

    proof fn lemma_key_total(a: &Self, b: &Self) {
        lemma_seq_le_total(a.file@, b.file@);
    }

    proof fn lemma_key_trans(a: &Self, b: &Self, c: &Self) {
        lemma_seq_le_transitive(a.file@, b.file@, c.file@);
    }
}

impl SortKey for AssemblyCandidate {
    open spec fn key_le(&self, other: &Self) -> bool {
        seq_le(self.file@, other.file@)
    }

    fn key_le_exec(&self, other: &Self) -> (r: bool) {
        str_le(self.file.as_str(), other.file.as_str())
    }

    proof fn lemma_key_total(a: &Self, b: &Self) {
        lemma_seq_le_total(a.file@, b.file@);
    }

    proof fn lemma_key_trans(a: &Self, b: &Self, c: &Self) {
        lemma_seq_le_transitive(a.file@, b.file@, c.file@);
    }
}

/// A path pattern that `glob` refuses.
#[derive(Clone, Debug)]
pub enum AssembleError {
    InvalidPattern { pattern: String },
}

impl AssembleError {
    pub fn message(&self) -> (r: String)
        ensures
            self matches AssembleError::InvalidPattern { pattern } ==> r@ == "invalid path pattern "@
                + pattern@,
    {
        match self {
            AssembleError::InvalidPattern { pattern } => {
                let mut out: Vec<char> = Vec::new();
                push_str(&mut out, "invalid path pattern ");
                push_str(&mut out, pattern.as_str());
                from_chars(&out)
            },
        }
    }
}

// ---------------------------------------------------------------------------
// Selection
// ---------------------------------------------------------------------------

/// A path, component or concern was requested.
pub open spec fn has_predicate(args: AssembleArgs) -> bool {
    args.path.len() > 0 || args.component is Some || args.concern.len() > 0
}

/// For each requested pattern in turn, each scope path it matches.
pub open spec fn path_reasons(requested: Seq<Seq<char>>, scope: Seq<Seq<char>>) -> Seq<ReasonView>
    decreases requested.len(),
{
    if requested.len() == 0 {
        Seq::empty()
    } else {
        let p = requested.last();
        path_reasons(requested.drop_last(), scope) + scope.filter(
            |s: Seq<char>| glob_matches(p, s),
        ).map_values(|s: Seq<char>| (ReasonKind::PathMatch, p, s))
    }
}

pub open spec fn equal_to(c: Seq<char>) -> spec_fn(Seq<char>) -> bool {
    |x: Seq<char>| x == c
}

pub open spec fn component_reason(c: Seq<char>) -> spec_fn(Seq<char>) -> ReasonView {
    |x: Seq<char>| (ReasonKind::ComponentMatch, c, x)
}

/// Each component equal to the requested one.
pub open spec fn component_reasons(component: Option<Seq<char>>, comps: Seq<Seq<char>>) -> Seq<
    ReasonView,
> {
    match component {
        None => Seq::empty(),
        Some(c) => comps.filter(equal_to(c)).map_values(component_reason(c)),
    }
}

/// The requested concerns that are active, in increasing order without
/// repeats (`mc` is exactly that list).
pub open spec fn matched_ok(mc: Seq<Seq<char>>, requested: Seq<Seq<char>>, active: Seq<Seq<char>>) -> bool {
    &&& strictly_sorted(mc)
    &&& mc.to_set() == requested.filter(|c: Seq<char>| active.contains(c)).to_set()
}

pub open spec fn default_reason() -> ReasonView {
    (ReasonKind::DefaultActive, "active-corpus"@, "active-corpus"@)
}

pub open spec fn opt_view(o: Option<String>) -> Option<Seq<char>> {
    match o {
        Some(s) => Some(s@),
        None => None,
    }
}

/// All the reasons for `c`, given its matched concerns `mc`.
pub open spec fn candidate_reasons(c: AssemblyCandidate, args: AssembleArgs, mc: Seq<Seq<char>>) -> Seq<
    ReasonView,
> {
    path_reasons(args.path.deep_view(), c.scope_paths.deep_view()) + component_reasons(
        opt_view(args.component),
        c.components.deep_view(),
    ) + mc.map_values(|x: Seq<char>| (ReasonKind::ConcernMatch, x, x)) + if has_predicate(args) {
        Seq::<ReasonView>::empty()
    } else {
        seq![default_reason()]
    }
}

/// Some requested concern is active in `c`.
pub open spec fn concern_hit(c: AssemblyCandidate, args: AssembleArgs) -> bool {
    exists|k: int|
        0 <= k < args.concern.len() && c.active_concerns.deep_view().contains(
            #[trigger] args.concern.deep_view()[k],
        )
}

/// `c` is included: not superseded, and selected by a predicate or by the
/// absence of any.
pub open spec fn included(c: AssemblyCandidate, args: AssembleArgs) -> bool {
    &&& c.status != Status::Superseded
    &&& {
        ||| !has_predicate(args)
        ||| path_reasons(args.path.deep_view(), c.scope_paths.deep_view()).len() > 0
        ||| component_reasons(opt_view(args.component), c.components.deep_view()).len() > 0
        ||| concern_hit(c, args)
    }
}

pub open spec fn included_in(args: AssembleArgs) -> spec_fn(AssemblyCandidate) -> bool {
    |c: AssemblyCandidate| included(c, args)
}

/// `doc` is what the assembly shows of candidate `c`.
pub open spec fn doc_for(c: AssemblyCandidate, args: AssembleArgs, doc: AssembledDocument) -> bool {
    &&& doc.id@ == c.id@
    &&& doc.file@ == c.file@
    &&& doc.active_concerns.deep_view() == c.active_concerns.deep_view()
    &&& matched_ok(
        doc.matched_concerns.deep_view(),
        args.concern.deep_view(),
        c.active_concerns.deep_view(),
    )
    &&& reasons_view(doc.reasons@) == candidate_reasons(c, args, doc.matched_concerns.deep_view())
    &&& doc.content@ == c.content@
}

/// `pre` holds, in candidate order, a document for each included candidate.
pub open spec fn selection_of(pre: Seq<AssembledDocument>, cands: Seq<AssemblyCandidate>, args: AssembleArgs) -> bool {
    let sel = cands.filter(included_in(args));
    &&& pre.len() == sel.len()
    &&& forall|k: int| 0 <= k < pre.len() ==> doc_for(sel[k], args, #[trigger] pre[k])
}

/// Every requested path pattern compiles.
pub open spec fn patterns_valid(args: AssembleArgs) -> bool {
    forall|k: int| 0 <= k < args.path.len() ==> glob_pattern_valid(#[trigger] args.path.deep_view()[k])
}

/// The first requested pattern that does not compile is at `k`.
pub open spec fn first_invalid(args: AssembleArgs, k: int) -> bool {
    &&& 0 <= k < args.path.len()
    &&& !glob_pattern_valid(args.path.deep_view()[k])
    &&& forall|j: int| 0 <= j < k ==> glob_pattern_valid(#[trigger] args.path.deep_view()[j])
}

/// Compiles the requested patterns, or names the first invalid one.
fn compile_patterns(args: &AssembleArgs) -> (r: Result<Vec<GlobPattern>, AssembleError>)
    ensures
        r is Ok <==> patterns_valid(*args),
        r matches Ok(ps) ==> ps.len() == args.path.len() && forall|k: int|
            0 <= k < ps.len() ==> (#[trigger] ps@[k]).source() == args.path.deep_view()[k],
        r matches Err(AssembleError::InvalidPattern { pattern }) ==> exists|k: int|
            first_invalid(*args, k) && pattern@ == args.path.deep_view()[k],
{
    let mut out: Vec<GlobPattern> = Vec::new();
    let mut k: usize = 0;
    while k < args.path.len()
        invariant
            k <= args.path.len(),
            out.len() == k,
            forall|j: int| 0 <= j < k ==> glob_pattern_valid(#[trigger] args.path.deep_view()[j]),
            forall|j: int| 0 <= j < k ==> (#[trigger] out@[j]).source() == args.path.deep_view()[j],
        decreases args.path.len() - k,
    {
        assert(args.path@[k as int]@ == args.path.deep_view()[k as int]);
        match GlobPattern::new(args.path[k].as_str()) {
            Some(p) => {
                out.push(p);
            },
            None => {
                let pattern = clone_string(&args.path[k]);
                assert(first_invalid(*args, k as int));
                return Err(AssembleError::InvalidPattern { pattern });
            },
        }
        k += 1;
    }
    Ok(out)
}

/// The path reasons of a candidate's scope paths.
fn path_reasons_for(scope: &Vec<String>, args: &AssembleArgs, compiled: &Vec<GlobPattern>) -> (r:
    Vec<InclusionReason>)
    requires
        compiled.len() == args.path.len(),
        forall|k: int| 0 <= k < compiled.len() ==> (#[trigger] compiled@[k]).source() == args.path.deep_view()[k],
    ensures
        reasons_view(r@) == path_reasons(args.path.deep_view(), scope.deep_view()),
{
    let ghost req = args.path.deep_view();
    let ghost sv = scope.deep_view();
    let mut out: Vec<InclusionReason> = Vec::new();
    let mut k: usize = 0;
    assert(req.take(0) =~= Seq::<Seq<char>>::empty());
    while k < compiled.len()
        invariant
            k <= compiled.len(),
            compiled.len() == args.path.len(),
            req == args.path.deep_view(),
            sv == scope.deep_view(),
            forall|j: int| 0 <= j < compiled.len() ==> (#[trigger] compiled@[j]).source() == req[j],
            reasons_view(out@) == path_reasons(req.take(k as int), sv),
        decreases compiled.len() - k,
    {
        let ghost p = req[k as int];
        let ghost f = |x: Seq<char>| glob_matches(p, x);
        let ghost g = |x: Seq<char>| (ReasonKind::PathMatch, p, x);
        let ghost before = reasons_view(out@);
        let mut m: usize = 0;
        while m < scope.len()
            invariant
                m <= scope.len(),
                k < compiled.len(),
                compiled.len() == args.path.len(),
                req == args.path.deep_view(),
                sv == scope.deep_view(),
                p == req[k as int],
                compiled@[k as int].source() == p,
                f == (|x: Seq<char>| glob_matches(p, x)),
                g == (|x: Seq<char>| (ReasonKind::PathMatch, p, x)),
                reasons_view(out@) == before + sv.take(m as int).filter(f).map_values(g),
            decreases scope.len() - m,
        {
            assert(sv.take(m + 1) =~= sv.take(m as int).push(sv[m as int]));
            proof {
                sv.take(m as int).lemma_filter_push(sv[m as int], f);
            }
            assert(scope@[m as int]@ == sv[m as int]);
            if compiled[k].matches(scope[m].as_str()) {
                assert(args.path@[k as int]@ == p);
                let reason = InclusionReason {
                    kind: ReasonKind::PathMatch,
                    requested: clone_string(&args.path[k]),
                    matched: clone_string(&scope[m]),
                };
                let ghost prev = out@;
                out.push(reason);
                assert(reasons_view(out@) =~= reasons_view(prev).push(reason_view(reason)));
                assert(sv.take(m + 1).filter(f).map_values(g) =~= sv.take(m as int).filter(
                    f,
                ).map_values(g).push(g(sv[m as int])));
            } else {
                assert(sv.take(m + 1).filter(f) == sv.take(m as int).filter(f));
            }
            m += 1;
        }
        assert(sv.take(scope.len() as int) =~= sv);
        assert(req.take(k + 1).drop_last() =~= req.take(k as int));
        assert(req.take(k + 1).last() == p);
        k += 1;
    }
    assert(req.take(compiled.len() as int) =~= req);
    out
}

/// The component reasons of a candidate's components.
fn component_reasons_for(comps: &Vec<String>, component: &Option<String>) -> (r: Vec<
    InclusionReason,
>)
    ensures
        reasons_view(r@) == component_reasons(opt_view(*component), comps.deep_view()),
{
    let mut out: Vec<InclusionReason> = Vec::new();
    match component {
        None => {
            assert(opt_view(*component) == None::<Seq<char>>);
            assert(component_reasons(opt_view(*component), comps.deep_view()) =~= Seq::<
                ReasonView,
            >::empty());
            assert(reasons_view(out@) =~= Seq::<ReasonView>::empty());
            out
        },
        Some(c) => {
            let ghost cv = comps.deep_view();
            let ghost f = equal_to(c@);
            let ghost g = component_reason(c@);
            let mut m: usize = 0;
            while m < comps.len()
                invariant
                    m <= comps.len(),
                    cv == comps.deep_view(),
                    f == equal_to(c@),
                    g == component_reason(c@),
                    reasons_view(out@) == cv.take(m as int).filter(f).map_values(g),
                decreases comps.len() - m,
            {
                assert(cv.take(m + 1) =~= cv.take(m as int).push(cv[m as int]));
                proof {
                    cv.take(m as int).lemma_filter_push(cv[m as int], f);
                }
                assert(comps@[m as int]@ == cv[m as int]);
                if str_eq(comps[m].as_str(), c.as_str()) {
                    let reason = InclusionReason {
                        kind: ReasonKind::ComponentMatch,
                        requested: clone_string(c),
                        matched: clone_string(&comps[m]),
                    };
                    let ghost prev = out@;
                    out.push(reason);
                    assert(reasons_view(out@) =~= reasons_view(prev).push(reason_view(reason)));
                    assert(cv.take(m + 1).filter(f).map_values(g) =~= cv.take(m as int).filter(
                        f,
                    ).map_values(g).push(g(cv[m as int])));
                } else {
                    assert(cv.take(m + 1).filter(f) == cv.take(m as int).filter(f));
                }
                m += 1;
            }
            assert(cv.take(comps.len() as int) =~= cv);
            out
        },
    }
}

/// The requested concerns that are active, sorted and without repeats.
fn matched_concerns_for(requested: &Vec<String>, active: &Vec<String>) -> (r: Vec<String>)
    ensures
        matched_ok(r.deep_view(), requested.deep_view(), active.deep_view()),
{
    let ghost rv = requested.deep_view();
    let ghost f = |c: Seq<char>| active.deep_view().contains(c);
    let mut hits: Vec<String> = Vec::new();
    let mut i: usize = 0;
    while i < requested.len()
        invariant
            i <= requested.len(),
            rv == requested.deep_view(),
            f == (|c: Seq<char>| active.deep_view().contains(c)),
            hits.deep_view() == rv.take(i as int).filter(f),
        decreases requested.len() - i,
    {
        assert(rv.take(i + 1) =~= rv.take(i as int).push(rv[i as int]));
        proof {
            rv.take(i as int).lemma_filter_push(rv[i as int], f);
        }
        if strings_contain(active, requested[i].as_str()) {
            crate::text::push_string(&mut hits, clone_string(&requested[i]));
        }
        i += 1;
    }
    assert(rv.take(requested.len() as int) =~= rv);
    sort_dedup_strings(&hits)
}

/// The concern reasons of the matched concerns.
fn concern_reasons_for(mc: &Vec<String>) -> (r: Vec<InclusionReason>)
    ensures
        reasons_view(r@) == mc.deep_view().map_values(
            |x: Seq<char>| (ReasonKind::ConcernMatch, x, x),
        ),
{
    let mut out: Vec<InclusionReason> = Vec::new();
    let mut i: usize = 0;
    while i < mc.len()
        invariant
            i <= mc.len(),
            reasons_view(out@) == mc.deep_view().take(i as int).map_values(
                |x: Seq<char>| (ReasonKind::ConcernMatch, x, x),
            ),
        decreases mc.len() - i,
    {
        let reason = InclusionReason {
            kind: ReasonKind::ConcernMatch,
            requested: clone_string(&mc[i]),
            matched: clone_string(&mc[i]),
        };
        let ghost prev = out@;
        out.push(reason);
        assert(reasons_view(out@) =~= reasons_view(prev).push(reason_view(reason)));
        assert(mc@[i as int]@ == mc.deep_view()[i as int]);
        assert(mc.deep_view().take(i + 1) =~= mc.deep_view().take(i as int).push(
            mc.deep_view()[i as int],
        ));
        i += 1;
    }
    assert(mc.deep_view().take(mc.len() as int) =~= mc.deep_view());
    out
}

/// Appends copies of the reasons of `xs` to `out`.
fn append_reasons(out: &mut Vec<InclusionReason>, xs: &Vec<InclusionReason>)
    ensures
        reasons_view(final(out)@) == reasons_view(old(out)@) + reasons_view(xs@),
{
    let ghost start = reasons_view(out@);
    let ghost xv = reasons_view(xs@);
    let mut i: usize = 0;
    while i < xs.len()
        invariant
            i <= xs.len(),
            xv == reasons_view(xs@),
            reasons_view(out@) == start + xv.take(i as int),
        decreases xs.len() - i,
    {
        let x = InclusionReason {
            kind: xs[i].kind,
            requested: clone_string(&xs[i].requested),
            matched: clone_string(&xs[i].matched),
        };
        let ghost prev = out@;
        out.push(x);
        assert(reasons_view(out@) =~= reasons_view(prev).push(reason_view(x)));
        assert(xv.take(i + 1) =~= xv.take(i as int).push(xv[i as int]));
        i += 1;
    }
    assert(xv.take(xs.len() as int) =~= xv);
}

/// Whether some requested concern is active: exactly when the matched list
/// is not empty.
proof fn lemma_concern_hit(c: AssemblyCandidate, args: AssembleArgs, mc: Seq<Seq<char>>)
    requires
        matched_ok(mc, args.concern.deep_view(), c.active_concerns.deep_view()),
    ensures
        concern_hit(c, args) <==> mc.len() > 0,
{
    let rv = args.concern.deep_view();
    let f = |x: Seq<char>| c.active_concerns.deep_view().contains(x);
    if concern_hit(c, args) {
        let k = choose|k: int| 0 <= k < args.concern.len() && c.active_concerns.deep_view().contains(
            #[trigger] args.concern.deep_view()[k],
        );
        rv.lemma_filter_contains(f, k);
        assert(rv.filter(f).to_set().contains(rv[k]));
        assert(mc.to_set().contains(rv[k]));
        assert(mc.contains(rv[k]));
    }
    if mc.len() > 0 {
        assert(mc.to_set().contains(mc[0]));
        assert(rv.filter(f).to_set().contains(mc[0]));
        assert(rv.filter(f).contains(mc[0]));
        let j = choose|j: int| 0 <= j < rv.filter(f).len() && rv.filter(f)[j] == mc[0];
        assert(f(rv.filter(f)[j]));
        rv.lemma_filter_contains_rev(f, mc[0]);
        let k = choose|k: int| 0 <= k < rv.len() && rv[k] == mc[0];
        assert(c.active_concerns.deep_view().contains(args.concern.deep_view()[k]));
    }
}

/// The document an assembly shows for `c`, when it includes `c`.
fn candidate_document(c: &AssemblyCandidate, args: &AssembleArgs, compiled: &Vec<GlobPattern>) -> (r:
    Option<AssembledDocument>)
    requires
        compiled.len() == args.path.len(),
        forall|k: int| 0 <= k < compiled.len() ==> (#[trigger] compiled@[k]).source() == args.path.deep_view()[k],
    ensures
        r is Some <==> included(*c, *args),
        r matches Some(doc) ==> doc_for(*c, *args, doc),
{
    if c.status == Status::Superseded {
        return None;
    }
    let mut reasons = path_reasons_for(&c.scope_paths, args, compiled);
    let comp = component_reasons_for(&c.components, &args.component);
    append_reasons(&mut reasons, &comp);
    let mc = matched_concerns_for(&args.concern, &c.active_concerns);
    let cr = concern_reasons_for(&mc);
    append_reasons(&mut reasons, &cr);
    let has_pred = args.path.len() > 0 || args.component.is_some() || args.concern.len() > 0;
    if !has_pred {
        let d = InclusionReason {
            kind: ReasonKind::DefaultActive,
            requested: String::from_str("active-corpus"),
            matched: String::from_str("active-corpus"),
        };
        let ghost prev = reasons@;
        reasons.push(d);
        assert(reasons_view(reasons@) =~= reasons_view(prev).push(reason_view(d)));
    }
    proof {
        lemma_concern_hit(*c, *args, mc.deep_view());
    }
    assert(reasons_view(reasons@) =~= candidate_reasons(*c, *args, mc.deep_view()));
    if reasons.len() == 0 {
        return None;
    }
    Some(
        AssembledDocument {
            id: clone_string(&c.id),
            file: clone_string(&c.file),
            active_concerns: clone_strings(&c.active_concerns),
            matched_concerns: mc,
            reasons,
            content: clone_string(&c.content),
        },
    )
}

/// The documents that `args` selects from `candidates`, ordered by file (a
/// stable sort, so candidates with the same file keep their order), or the
/// first path pattern that does not compile.
pub fn select_candidates(candidates: &Vec<AssemblyCandidate>, args: &AssembleArgs) -> (r: Result<
    Vec<AssembledDocument>,
    AssembleError,
>)
    ensures
        r is Ok <==> patterns_valid(*args),
        r matches Err(AssembleError::InvalidPattern { pattern }) ==> exists|k: int|
            first_invalid(*args, k) && pattern@ == args.path.deep_view()[k],
        r matches Ok(docs) ==> exists|pre: Seq<AssembledDocument>|
            #[trigger] selection_of(pre, candidates@, *args) && stable_sort_of(docs@, pre),
{
    let compiled = match compile_patterns(args) {
        Ok(c) => c,
        Err(e) => {
            return Err(e);
        },
    };
    let ghost f = included_in(*args);
    let ghost cs = candidates@;
    let mut pre: Vec<AssembledDocument> = Vec::new();
    let mut i: usize = 0;
    while i < candidates.len()
        invariant
            i <= candidates.len(),
            cs == candidates@,
            f == included_in(*args),
            compiled.len() == args.path.len(),
            forall|k: int| 0 <= k < compiled.len() ==> (#[trigger] compiled@[k]).source() == args.path.deep_view()[k],
            selection_of(pre@, cs.take(i as int), *args),
        decreases candidates.len() - i,
    {
        assert(cs.take(i + 1) =~= cs.take(i as int).push(cs[i as int]));
        proof {
            cs.take(i as int).lemma_filter_push(cs[i as int], f);
        }
        let ghost prev = pre@;
        match candidate_document(&candidates[i], args, &compiled) {
            Some(doc) => {
                pre.push(doc);
                assert forall|k: int| 0 <= k < pre.len() implies doc_for(
                    cs.take(i + 1).filter(f)[k],
                    *args,
                    #[trigger] pre@[k],
                ) by {
                    if k < prev.len() {
                        assert(pre@[k] == prev[k]);
                        assert(cs.take(i + 1).filter(f)[k] == cs.take(i as int).filter(f)[k]);
                    }
                }
            },
            None => {
                assert(cs.take(i + 1).filter(f) == cs.take(i as int).filter(f));
            },
        }
        i += 1;
    }
    assert(cs.take(candidates.len() as int) =~= cs);
    let ghost pv = pre@;
    let docs = stable_sort(pre);
    assert(selection_of(pv, candidates@, *args) && stable_sort_of(docs@, pv));
    Ok(docs)
}

/// The body of `content`, or all of it when it has no frontmatter.
pub fn strip_frontmatter(content: &str) -> (r: String)
    ensures
        r@ == spec_strip_frontmatter(content@),
{
    match split_document(content) {
        Ok((_, body)) => body,
        Err(_) => String::from_str(content),
    }
}

// ---------------------------------------------------------------------------
// Candidates from the registry and from descendant corpora
// ---------------------------------------------------------------------------

/// `c` is the candidate for registry document `id` whose file holds `content`.
pub open spec fn candidate_from_entry(
    c: AssemblyCandidate,
    id: Seq<char>,
    e: DocumentEntry,
    content: Seq<char>,
) -> bool {
    &&& c.id@ == id
    &&& c.file@ == e.file@
    &&& c.status == e.status
    &&& c.active_concerns.deep_view() == e.active_concerns.deep_view()
    &&& c.scope_paths.deep_view() == e.scope.paths.deep_view()
    &&& c.components.deep_view() == e.scope.components.deep_view()
    &&& c.content@ == spec_sort_sections(spec_strip_frontmatter(content))
}

/// The candidate for a registry document, given the text of its file: the
/// body without frontmatter, its sections ordered by rank.
pub fn registry_candidate(id: &str, entry: &DocumentEntry, content: &str) -> (r: AssemblyCandidate)
    ensures
        candidate_from_entry(r, id@, *entry, content@),
{
    let body = strip_frontmatter(content);
    AssemblyCandidate {
        id: String::from_str(id),
        file: clone_string(&entry.file),
        status: entry.status,
        active_concerns: clone_strings(&entry.active_concerns),
        scope_paths: clone_strings(&entry.scope.paths),
        components: clone_strings(&entry.scope.components),
        content: sort_concern_sections_by_rank(body.as_str()),
    }
}

/// What `args` selects from the documents of `registry`, where `contents[j]`
/// is the text of the file of the `j`th document.
pub fn select_documents(registry: &Registry, contents: &Vec<String>, args: &AssembleArgs) -> (r:
    Result<Vec<AssembledDocument>, AssembleError>)
    requires
        contents.len() == registry.documents.len(),
    ensures
        r is Ok <==> patterns_valid(*args),
        r matches Err(AssembleError::InvalidPattern { pattern }) ==> exists|k: int|
            first_invalid(*args, k) && pattern@ == args.path.deep_view()[k],
        r matches Ok(docs) ==> exists|cands: Seq<AssemblyCandidate>, pre: Seq<AssembledDocument>|
            {
                &&& cands.len() == registry.documents.len()
                &&& forall|j: int|
                    0 <= j < cands.len() ==> candidate_from_entry(
                        #[trigger] cands[j],
                        registry.documents@[j].0@,
                        registry.documents@[j].1,
                        contents@[j]@,
                    )
                &&& #[trigger] selection_of(pre, cands, *args)
                &&& stable_sort_of(docs@, pre)
            },
{
    let mut cands: Vec<AssemblyCandidate> = Vec::new();
    let mut j: usize = 0;
    while j < registry.documents.len()
        invariant
            j <= registry.documents.len(),
            contents.len() == registry.documents.len(),
            cands.len() == j,
            forall|m: int|
                0 <= m < j ==> candidate_from_entry(
                    #[trigger] cands@[m],
                    registry.documents@[m].0@,
                    registry.documents@[m].1,
                    contents@[m]@,
                ),
        decreases registry.documents.len() - j,
    {
        let c = registry_candidate(
            registry.documents[j].0.as_str(),
            &registry.documents[j].1,
            contents[j].as_str(),
        );
        cands.push(c);
        j += 1;
    }
    let r = select_candidates(&cands, args);
    match r {
        Ok(docs) => {
            proof {
                let pre = choose|pre: Seq<AssembledDocument>|
                    #[trigger] selection_of(pre, cands@, *args) && stable_sort_of(docs@, pre);
                assert(selection_of(pre, cands@, *args) && stable_sort_of(docs@, pre));
            }
            Ok(docs)
        },
        Err(e) => Err(e),
    }
}

/// Scope paths rebased onto `relative`, in increasing order without repeats.
pub open spec fn rebased_ok(r: Seq<Seq<char>>, relative: Seq<char>, paths: Seq<Seq<char>>) -> bool {
    &&& strictly_sorted(r)
    &&& r.to_set() == paths.map_values(|p: Seq<char>| spec_rebase(relative, p)).to_set()
}

/// `c` is the candidate for a document of the corpus at `relative` (from the
/// directory the assembly started in), read from `file`.
pub open spec fn subtree_candidate_of(
    c: AssemblyCandidate,
    relative: Seq<char>,
    file: Seq<char>,
    fm: Frontmatter,
    body: Seq<char>,
) -> bool {
    &&& c.id@ == fm.id@
    &&& c.file@ == file
    &&& c.status == fm.status
    &&& c.active_concerns.deep_view() == spec_active_concerns(fm)
    &&& rebased_ok(c.scope_paths.deep_view(), relative, fm.scope.paths.deep_view())
    &&& c.components.deep_view() == fm.scope.components.deep_view()
    &&& c.content@ == spec_sort_sections(body)
}

/// The candidate for a document of a descendant corpus: its scope paths
/// rebased onto the corpus's directory, its sections ordered by rank.
pub fn subtree_candidate(relative: &str, file: &str, fm: &Frontmatter, body: &str) -> (r:
    AssemblyCandidate)
    ensures
        subtree_candidate_of(r, relative@, file@, *fm, body@),
{
    let ghost pv = fm.scope.paths.deep_view();
    let ghost f = |p: Seq<char>| spec_rebase(relative@, p);
    let mut rebased: Vec<String> = Vec::new();
    let mut i: usize = 0;
    while i < fm.scope.paths.len()
        invariant
            i <= fm.scope.paths.len(),
            pv == fm.scope.paths.deep_view(),
            f == (|p: Seq<char>| spec_rebase(relative@, p)),
            rebased.deep_view() == pv.take(i as int).map_values(f),
        decreases fm.scope.paths.len() - i,
    {
        let x = rebase_scope_path(relative, fm.scope.paths[i].as_str());
        crate::text::push_string(&mut rebased, x);
        assert(fm.scope.paths@[i as int]@ == pv[i as int]);
        assert(pv.take(i + 1).map_values(f) =~= pv.take(i as int).map_values(f).push(f(pv[i as int])));
        i += 1;
    }
    assert(pv.take(fm.scope.paths.len() as int) =~= pv);
    let scope_paths = sort_dedup_strings(&rebased);
    AssemblyCandidate {
        id: clone_string(&fm.id),
        file: String::from_str(file),
        status: fm.status,
        active_concerns: active_concerns(fm),
        scope_paths,
        components: clone_strings(&fm.scope.components),
        content: sort_concern_sections_by_rank(body),
    }
}

// ---------------------------------------------------------------------------
// Laws
// ---------------------------------------------------------------------------

/// A fully superseded document is never assembled.
pub proof fn lemma_superseded_never_included(c: AssemblyCandidate, args: AssembleArgs)
    requires
        c.status == Status::Superseded,
    ensures
        !included(c, args),
{
}

/// With no path, component or concern requested, an assembly holds every
/// document that is not fully superseded, each with the one reason
/// `default-active`.
pub proof fn lemma_default_assembly(c: AssemblyCandidate, args: AssembleArgs, mc: Seq<Seq<char>>)
    requires
        !has_predicate(args),
        matched_ok(mc, args.concern.deep_view(), c.active_concerns.deep_view()),
    ensures
        included(c, args) <==> c.status != Status::Superseded,
        candidate_reasons(c, args, mc) == seq![default_reason()],
{
    assert(args.path.deep_view() =~= Seq::<Seq<char>>::empty());
    assert(args.concern.deep_view() =~= Seq::<Seq<char>>::empty());
    lemma_concern_hit(c, args, mc);
    assert(mc.len() == 0) by {
        if mc.len() > 0 {
            assert(mc.to_set().contains(mc[0]));
            let f = |x: Seq<char>| c.active_concerns.deep_view().contains(x);
            assert(args.concern.deep_view().filter(f).to_set().contains(mc[0]));
            args.concern.deep_view().filter(f).lemma_filter_len(f);
        }
    }
    assert(path_reasons(args.path.deep_view(), c.scope_paths.deep_view()) =~= Seq::<ReasonView>::empty());
    assert(candidate_reasons(c, args, mc) =~= seq![default_reason()]);
}

/// Supersession is per concern: a document that is not fully superseded is
/// assembled whenever a requested concern is still active in it, or a
/// requested path or component matches it, whatever else it has lost.
pub proof fn lemma_request_includes(c: AssemblyCandidate, args: AssembleArgs, k: int)
    requires
        c.status != Status::Superseded,
        (0 <= k < args.concern.len() && c.active_concerns.deep_view().contains(
            args.concern.deep_view()[k],
        )) || path_reasons(args.path.deep_view(), c.scope_paths.deep_view()).len() > 0
            || component_reasons(opt_view(args.component), c.components.deep_view()).len() > 0,
    ensures
        included(c, args),
{
    if 0 <= k < args.concern.len() && c.active_concerns.deep_view().contains(
        args.concern.deep_view()[k],
    ) {
        assert(concern_hit(c, args));
    }
}

/// Inclusion depends on a document's status only through whether it is
/// fully superseded: a partially superseded document is assembled exactly
/// when the same document, current, would be.
pub proof fn lemma_status_only_superseded(c: AssemblyCandidate, args: AssembleArgs)
    requires
        c.status != Status::Superseded,
    ensures
        included(c, args) == included(AssemblyCandidate { status: Status::Current, ..c }, args),
{
    let d = AssemblyCandidate { status: Status::Current, ..c };
    assert(d.active_concerns == c.active_concerns);
    assert(concern_hit(c, args) == concern_hit(d, args));
}

/// A selection holds a document for every candidate that is not fully
/// superseded and still owns a requested concern.
pub proof fn lemma_selection_keeps_owner(
    pre: Seq<AssembledDocument>,
    cands: Seq<AssemblyCandidate>,
    args: AssembleArgs,
    i: int,
    k: int,
)
    requires
        selection_of(pre, cands, args),
        0 <= i < cands.len(),
        cands[i].status != Status::Superseded,
        0 <= k < args.concern.len(),
        cands[i].active_concerns.deep_view().contains(args.concern.deep_view()[k]),
    ensures
        exists|m: int| 0 <= m < pre.len() && (#[trigger] pre[m]).id@ == cands[i].id@ && pre[m].file@
            == cands[i].file@,
{
    lemma_request_includes(cands[i], args, k);
    let sel = cands.filter(included_in(args));
    cands.lemma_filter_contains(included_in(args), i);
    let m = choose|m: int| 0 <= m < sel.len() && sel[m] == cands[i];
    assert(doc_for(sel[m], args, pre[m]));
}

} // verus!
