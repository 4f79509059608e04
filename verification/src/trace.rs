//! From lines of preprocessor output to the tree: each line is read, and what
//! it says, if anything, is one transition.

use crate::directive::{is_candidate, parse_line, parsed_line, MarkerError};
use crate::text::strings_view;
use crate::tree::{lemma_step_wf, InclusionTree, TreeView};
use vstd::prelude::*;

verus! {

/// The state after one line: unchanged by a line that is no marker, one
/// transition further after a marker, and an error for a marker that cannot be
/// read or that returns from the root.
pub open spec fn fed(state: TreeView, prefixes: Seq<Seq<char>>, line: Seq<char>) -> Result<
    TreeView,
    MarkerError,
> {
    match parsed_line(prefixes, line) {
        Ok(Some(event)) => state.step(event),
        Ok(None) => Ok(state),
        Err(e) => Err(e),
    }
}

/// The state after a run of lines, taken one after the other up to the first
/// error.
pub open spec fn fed_all(
    state: TreeView,
    prefixes: Seq<Seq<char>>,
    lines: Seq<Seq<char>>,
) -> Result<TreeView, MarkerError>
    decreases lines.len(),
{
    if lines.len() == 0 {
        Ok(state)
    } else {
        match fed_all(state, prefixes, lines.drop_last()) {
            Ok(before) => fed(before, prefixes, lines.last()),
            Err(e) => Err(e),
        }
    }
}

/// The lines that can be markers, in their order: those that begin with `#`.
pub open spec fn candidates(lines: Seq<Seq<char>>) -> Seq<Seq<char>> {
    lines.filter(|line: Seq<char>| is_candidate(line))
}

/// Lines that do not begin with `#` are transparent: with them or without
/// them, a run of lines ends in the same state or in the same error.
pub proof fn lemma_other_lines_transparent(
    state: TreeView,
    prefixes: Seq<Seq<char>>,
    lines: Seq<Seq<char>>,
)
    ensures
        fed_all(state, prefixes, lines) == fed_all(state, prefixes, candidates(lines)),
    decreases lines.len(),
{
    reveal(Seq::filter);
    if lines.len() > 0 {
        lemma_other_lines_transparent(state, prefixes, lines.drop_last());
        if is_candidate(lines.last()) {
            assert(candidates(lines).drop_last() =~= candidates(lines.drop_last()));
        }
    }
}

/// Two inputs with the same lines that begin with `#`, in the same order, end
/// alike: whatever stands between those lines plays no part.
pub proof fn lemma_same_candidates_same_outcome(
    state: TreeView,
    prefixes: Seq<Seq<char>>,
    first: Seq<Seq<char>>,
    second: Seq<Seq<char>>,
)
    requires
        candidates(first) == candidates(second),
    ensures
        fed_all(state, prefixes, first) == fed_all(state, prefixes, second),
{
    lemma_other_lines_transparent(state, prefixes, first);
    lemma_other_lines_transparent(state, prefixes, second);
}

/// A run of lines keeps the state well formed.
pub proof fn lemma_fed_all_wf(state: TreeView, prefixes: Seq<Seq<char>>, lines: Seq<Seq<char>>)
    requires
        state.wf(),
    ensures
        fed_all(state, prefixes, lines) matches Ok(last) ==> last.wf(),
    decreases lines.len(),
{
    if lines.len() > 0 {
        lemma_fed_all_wf(state, prefixes, lines.drop_last());
        if let Ok(before) = fed_all(state, prefixes, lines.drop_last()) {
            if let Ok(Some(event)) = parsed_line(prefixes, lines.last()) {
                lemma_step_wf(before, event);
            }
        }
    }
}

/// A run of lines that has failed stays failed, with the same error.
pub proof fn lemma_fed_all_stays_failed(
    state: TreeView,
    prefixes: Seq<Seq<char>>,
    lines: Seq<Seq<char>>,
    k: int,
)
    requires
        0 <= k <= lines.len(),
        fed_all(state, prefixes, lines.take(k)) is Err,
    ensures
        fed_all(state, prefixes, lines) == fed_all(state, prefixes, lines.take(k)),
    decreases lines.len() - k,
{
    if k < lines.len() {
        assert(lines.take(k + 1).drop_last() =~= lines.take(k));
        lemma_fed_all_stays_failed(state, prefixes, lines, k + 1);
    } else {
        assert(lines.take(k) =~= lines);
    }
}

impl InclusionTree {
    /// Reads one line and makes the transition that it asks for, if any. On an
    /// error the tree stays as it was.
    pub fn feed_line(&mut self, prefixes: &[String], line: &str) -> (r: Result<(), MarkerError>)
        requires
            old(self)@.wf(),
        ensures
            final(self)@.wf(),
            match fed(old(self)@, strings_view(prefixes@), line@) {
                Ok(next) => r is Ok && final(self)@ == next,
                Err(e) => r == Err::<(), MarkerError>(e) && final(self)@ == old(self)@,
            },
    {
        match parse_line(prefixes, line) {
            Ok(Some(event)) => self.apply(&event),
            Ok(None) => Ok(()),
            Err(e) => Err(e),
        }
    }
}

/// Builds the tree of a whole input, line by line from the start, and stops
/// at the first error: no tree is made then.
pub fn build_tree(prefixes: &[String], lines: &Vec<String>) -> (r: Result<
    InclusionTree,
    MarkerError,
>)
    ensures
        match fed_all(TreeView::initial(), strings_view(prefixes@), strings_view(lines@)) {
            Ok(last) => r matches Ok(tree) && tree@ == last && tree@.wf(),
            Err(e) => r matches Err(err) && err == e,
        },
{
    let mut tree = InclusionTree::new();
    let ghost all = strings_view(lines@);
    let ghost start = TreeView::initial();
    let ghost names = strings_view(prefixes@);
    let mut i: usize = 0;
    assert(all.take(0) =~= Seq::<Seq<char>>::empty());
    while i < lines.len()
        invariant
            i <= lines.len(),
            all == strings_view(lines@),
            start == TreeView::initial(),
            names == strings_view(prefixes@),
            tree@.wf(),
            fed_all(start, names, all.take(i as int)) == Ok::<TreeView, MarkerError>(tree@),
        decreases lines.len() - i,
    {
        proof {
            assert(all.take(i + 1).drop_last() =~= all.take(i as int));
            assert(all.take(i + 1).last() == lines@[i as int]@);
        }
        match tree.feed_line(prefixes, lines[i].as_str()) {
            Ok(()) => {},
            Err(e) => {
                proof {
                    lemma_fed_all_stays_failed(start, names, all, i + 1);
                }
                return Err(e);
            },
        }
        i += 1;
    }
    assert(all.take(i as int) =~= all);
    Ok(tree)
}

} // verus!
