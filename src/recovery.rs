//! The recovering parser: parse, and on failure drop the offending line and retry.

use crate::lines::{lemma_line_removed_shrinks, line_removed, lines_of, remove_line};
use crate::syntax::{module_parse, parse_module, ParseOutcome, ParseView, Tree, TreeView};
use vstd::prelude::*;

verus! {

/// Recovery of `t`: the tree it ends with, if any, and the number of parse attempts
/// it makes. A failed parse at byte `off` removes the line holding `off`; recovery
/// stops with no tree when that leaves nothing.
pub open spec fn recovery(t: Seq<char>) -> (Option<TreeView>, nat)
    decreases t.len() via recovery_decreases
{
    match module_parse(t) {
        ParseView::Parsed(tree) => (Some(tree), 1),
        ParseView::Failed(off) => {
            let s = line_removed(t, off, 0);
            if s.len() == 0 {
                (None, 1)
            } else {
                (recovery(s).0, recovery(s).1 + 1)
            }
        },
    }
}

#[via_fn]
proof fn recovery_decreases(t: Seq<char>) {
    if let ParseView::Failed(off) = module_parse(t) {
        lemma_line_removed_shrinks(t, off, 0);
    }
}

/// The tree that recovery of `t` ends with, if any.
pub open spec fn recovered(t: Seq<char>) -> Option<TreeView> {
    recovery(t).0
}

/// The number of parse attempts that recovery of `t` makes.
pub open spec fn parse_attempts(t: Seq<char>) -> nat {
    recovery(t).1
}

pub open spec fn tree_of(r: Option<Tree>) -> Option<TreeView> {
    match r {
        Some(tree) => Some(tree@),
        None => None,
    }
}

/// Recovery always ends, after at most one attempt more than the text has lines.
pub proof fn lemma_recovery_attempts(t: Seq<char>)
    ensures
        1 <= parse_attempts(t) <= lines_of(t).len() + 1,
    decreases t.len(),
{
    if let ParseView::Failed(off) = module_parse(t) {
        let s = line_removed(t, off, 0);
        lemma_line_removed_shrinks(t, off, 0);
        if s.len() > 0 {
            lemma_recovery_attempts(s);
        }
    }
}

/// Parses `source`, removing the line at which each attempt fails until a parse
/// succeeds (`Some`) or no text is left (`None`).
pub fn strip_parse(source: &str) -> (r: Option<Tree>)
    ensures
        tree_of(r) == recovered(source@),
        r matches Some(t) ==> t is Module,
{
    let mut text = source.to_owned();
    loop
        invariant
            recovered(text@) == recovered(source@),
        decreases text@.len(),
    {
        match parse_module(text.as_str()) {
            ParseOutcome::Parsed(tree) => {
                return Some(tree);
            },
            ParseOutcome::Failed(off) => {
                let shortened = remove_line(text.as_str(), off, 0);
                proof {
                    lemma_line_removed_shrinks(text@, off as nat, 0);
                }
                if shortened.as_str().is_empty() {
                    return None;
                }
                text = shortened;
            },
        }
    }
}

} // verus!
