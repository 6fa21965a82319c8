//! Setting up a corpus: the `.gitignore` entry for the derived registry, and
//! the summary that `sync` reports.
use vstd::prelude::*;
use crate::text::{
    decimal, decimal_chars, from_chars, lines, push_all, push_str, split_lines, str_eq, to_chars,
    trim, trim_chars,
};

verus! {

broadcast use crate::views::lemma_char_vec_deep_view;

/// Some line of `content`, trimmed, is `entry`.
pub open spec fn has_entry(content: Seq<char>, entry: Seq<char>) -> bool {
    exists|i: int| 0 <= i < lines(content).len() && trim(#[trigger] lines(content)[i]) == entry
}

/// `content` with `entry` on a line of its own at the end.
pub open spec fn spec_with_entry(content: Seq<char>, entry: Seq<char>) -> Seq<char> {
    let sep = if content.len() > 0 && content.last() != '\n' {
        seq!['\n']
    } else {
        Seq::empty()
    };
    content + sep + entry + seq!['\n']
}

/// The new text of `.gitignore` when it lacks `entry`; `None` when a line
/// already names it.
pub fn gitignore_update(content: &str, entry: &str) -> (r: Option<String>)
    ensures
        r is None <==> has_entry(content@, entry@),
        r matches Some(t) ==> t@ == spec_with_entry(content@, entry@),
{
    let c = to_chars(content);
    let ls = split_lines(&c);
    let ghost lv = ls.deep_view();
    let e = to_chars(entry);
    let mut i: usize = 0;
    while i < ls.len()
        invariant
            i <= ls.len(),
            lv == ls.deep_view(),
            lv == lines(content@),
            e@ == entry@,
            forall|k: int| 0 <= k < i ==> trim(#[trigger] lv[k]) != entry@,
        decreases ls.len() - i,
    {
        assert(lv[i as int] == ls@[i as int]@);
        let t = trim_chars(&ls[i]);
        if crate::text::chars_eq(&t, &e) {
            return None;
        }
        i += 1;
    }
    let mut out = c;
    if out.len() > 0 && out[out.len() - 1] != '\n' {
        out.push('\n');
    }
    push_str(&mut out, entry);
    out.push('\n');
    assert(out@ =~= spec_with_entry(content@, entry@));
    Some(from_chars(&out))
}

/// `Synced N context document(s)`.
pub open spec fn spec_sync_summary(count: nat) -> Seq<char> {
    "Synced "@ + decimal(count) + " context document"@ + if count == 1 {
        Seq::<char>::empty()
    } else {
        seq!['s']
    }
}

/// What `sync` reports for `count` documents.
pub fn sync_summary(count: u64) -> (r: String)
    ensures
        r@ == spec_sync_summary(count as nat),
{
    let mut out = to_chars("Synced ");
    let n = decimal_chars(count);
    push_all(&mut out, &n);
    push_str(&mut out, " context document");
    if count != 1 {
        out.push('s');
    }
    proof {
        reveal_strlit("Synced ");
    }
    from_chars(&out)
}

} // verus!
