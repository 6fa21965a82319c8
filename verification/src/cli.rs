//! The command line: global flags, subcommands and their arguments, and the
//! assembled help text.
use vstd::prelude::*;
use crate::text::{from_chars, join, join_chars, push_all, push_line, str_eq, to_chars, trim_end_matches, trim_end_matches_chars};

verus! {

broadcast use crate::views::lemma_char_vec_deep_view;

/// Global flags and the chosen subcommand.
#[derive(Debug)]
pub struct Cli {
    pub json: bool,
    pub porcelain: bool,
    pub command: Command,
}

#[derive(Debug)]
pub enum Command {
    Init,
    New(NewArgs),
    Index,
    List,
    Guidance(GuidanceArgs),
    Search(SearchArgs),
    Suggest(SuggestArgs),
    Append(AppendArgs),
    BackfillRanks(BackfillRanksArgs),
    Assemble(AssembleArgs),
    Supersede(SupersedeArgs),
    Refresh(RefreshArgs),
    Sync(SyncArgs),
    Check(CheckArgs),
    Gc,
}

/// Whether `assemble` reads only this level's corpus or every descendant one.
#[derive(Clone, Copy, Debug, PartialEq, Eq, Structural)]
pub enum AssembleScope {
    Current,
    Subtree,
}

#[derive(Debug)]
pub struct NewArgs {
    pub name: String,
    pub non_interactive: bool,
    pub append: bool,
    pub concerns: Vec<String>,
    pub paths: Vec<String>,
    pub components: Vec<String>,
    pub text: Option<String>,
    pub rank: Option<u8>,
}

#[derive(Debug)]
pub struct AppendArgs {
    pub id: String,
    pub concern: String,
    pub text: String,
    pub rank: u8,
}

#[derive(Debug)]
pub struct BackfillRanksArgs {
    pub default_rank: u8,
}

#[derive(Debug)]
pub struct AssembleArgs {
    pub path: Vec<String>,
    pub component: Option<String>,
    pub concern: Vec<String>,
    pub paths_only: bool,
    pub explain: bool,
    pub scope: AssembleScope,
}

#[derive(Debug)]
pub struct SearchArgs {
    pub query: String,
    pub include_superseded: bool,
}

#[derive(Debug)]
pub struct SuggestArgs {
    pub path: Option<String>,
}

#[derive(Debug)]
pub struct GuidanceArgs {
    pub add: bool,
}

#[derive(Debug)]
pub struct SupersedeArgs {
    pub id: String,
    pub concerns: Vec<String>,
    pub by_id: String,
}

#[derive(Debug)]
pub struct RefreshArgs {
    pub concern: String,
    pub from: Option<String>,
    pub name: String,
    pub draft_body: bool,
}

#[derive(Debug)]
pub struct CheckArgs {
    pub strict: bool,
}

#[derive(Debug)]
pub struct SyncArgs {
    pub cascade: bool,
}

/// The long help of one command, named as the user types it.
#[derive(Debug)]
pub struct HelpText {
    pub name: String,
    pub text: String,
}

/// The subcommands whose help the help dump holds, in order.
pub fn help_subcommands() -> (r: Vec<&'static str>)
    ensures
        r@ == seq![
            "init",
            "new",
            "index",
            "list",
            "guidance",
            "search",
            "suggest",
            "append",
            "backfill-ranks",
            "assemble",
            "supersede",
            "refresh",
            "sync",
            "check",
            "gc",
        ],
{
    vec![
        "init",
        "new",
        "index",
        "list",
        "guidance",
        "search",
        "suggest",
        "append",
        "backfill-ranks",
        "assemble",
        "supersede",
        "refresh",
        "sync",
        "check",
        "gc",
    ]
}

/// The markdown section for one command's help: a `# ctx ... --help` title,
/// then the help without trailing newlines in a `text` code fence.
pub open spec fn spec_help_section(name: Seq<char>, help: Seq<char>) -> Seq<char> {
    let title = if name == "ctx"@ {
        "# ctx --help"@
    } else {
        "# ctx "@ + name + " --help"@
    };
    title + "\n\n```text\n"@ + trim_end_matches(help, seq!['\n']) + "\n```"@
}

pub fn render_help_for(name: &str, help: &str) -> (r: String)
    ensures
        r@ == spec_help_section(name@, help@),
{
    let mut out: Vec<char> = Vec::new();
    if str_eq(name, "ctx") {
        crate::text::push_str(&mut out, "# ctx --help");
    } else {
        crate::text::push_str(&mut out, "# ctx ");
        crate::text::push_str(&mut out, name);
        crate::text::push_str(&mut out, " --help");
    }
    crate::text::push_str(&mut out, "\n\n```text\n");
    let h = to_chars(help);
    let nl = vec!['\n'];
    assert(nl@ =~= seq!['\n']);
    let t = trim_end_matches_chars(&h, &nl);
    push_all(&mut out, &t);
    crate::text::push_str(&mut out, "\n```");
    assert(out@ =~= spec_help_section(name@, help@));
    from_chars(&out)
}

/// Every command's help section, separated by blank lines.
pub fn render_help_dump(helps: &Vec<HelpText>) -> (r: String)
    ensures
        r@ == join(
            helps@.map_values(|h: HelpText| spec_help_section(h.name@, h.text@)),
            "\n\n"@,
        ),
{
    let mut sections: Vec<Vec<char>> = Vec::new();
    let mut i: usize = 0;
    let ghost f = |h: HelpText| spec_help_section(h.name@, h.text@);
    while i < helps.len()
        invariant
            i <= helps.len(),
            f == (|h: HelpText| spec_help_section(h.name@, h.text@)),
            sections.deep_view() == helps@.take(i as int).map_values(f),
        decreases helps.len() - i,
    {
        let s = render_help_for(helps[i].name.as_str(), helps[i].text.as_str());
        let c = to_chars(s.as_str());
        push_line(&mut sections, c);
        assert(helps@.take(i + 1).map_values(f) =~= helps@.take(i as int).map_values(f).push(
            f(helps@[i as int]),
        ));
        i += 1;
    }
    assert(helps@.take(helps.len() as int) =~= helps@);
    let sep = to_chars("\n\n");
    let out = join_chars(&sections, &sep);
    from_chars(&out)
}

} // verus!
