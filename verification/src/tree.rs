//! The tree of files, and the state machine that grows it.
//!
//! The nodes live in one list, in the order in which they were made; a node is
//! known by its place in that list. The stack holds the places of the open
//! files, from the root to the file that the preprocessor is reading.

use crate::directive::{DirectiveEvent, DirectiveView, MarkerError};
use crate::flags::Flag;
use crate::text::{decimal_text, push_decimal};
use vstd::prelude::*;

verus! {

/// The label of the root, which stands for the translation unit itself.
pub const ROOT_LABEL: &'static str = "root";

/// A node as plain values.
pub struct NodeView {
    /// The text shown for the node.
    pub label: Seq<char>,
    /// The place of the node's parent; the root is its own parent.
    pub parent: int,
    /// How far the node is from the root.
    pub depth: int,
    /// The places of the node's children, oldest first.
    pub children: Seq<int>,
}

/// The whole state as plain values.
pub struct TreeView {
    /// Every node, in the order of its making; the root is first.
    pub nodes: Seq<NodeView>,
    /// The places of the open nodes, from the root to the active one.
    pub stack: Seq<int>,
    /// The line reached in the active file.
    pub current_line: nat,
}

/// The label of a node made while the counter stood at `line`, for the file `path`.
pub open spec fn label_text(line: nat, path: Seq<char>) -> Seq<char> {
    decimal_text(line) + seq![' '] + path
}

/// A list of places as mathematical integers.
pub open spec fn places(v: Seq<usize>) -> Seq<int> {
    v.map_values(|c: usize| c as int)
}

impl TreeView {
    /// The state before any marker: the root alone, open, at line 0.
    pub open spec fn initial() -> TreeView {
        TreeView {
            nodes: seq![
                NodeView { label: ROOT_LABEL@, parent: 0, depth: 0, children: Seq::empty() },
            ],
            stack: seq![0int],
            current_line: 0,
        }
    }

    /// The place of the active node: the top of the stack.
    pub open spec fn active(self) -> int {
        self.stack.last()
    }

    /// Entering a file: a new node, labelled with the counter and the path,
    /// becomes the last child of the active node and the new active node. The
    /// counter stays.
    pub open spec fn enter(self, path: Seq<char>) -> TreeView {
        let child = self.nodes.len() as int;
        let top = self.active();
        let parent = self.nodes[top];
        TreeView {
            nodes: self.nodes.update(
                top,
                NodeView { children: parent.children.push(child), ..parent },
            ).push(
                NodeView {
                    label: label_text(self.current_line, path),
                    parent: top,
                    depth: self.stack.len() as int,
                    children: Seq::empty(),
                },
            ),
            stack: self.stack.push(child),
            current_line: self.current_line,
        }
    }

    /// Returning to the enclosing file: the active node is closed, its parent
    /// is active again, and the counter is the marker's line.
    pub open spec fn leave(self, line: nat) -> TreeView {
        TreeView { nodes: self.nodes, stack: self.stack.drop_last(), current_line: line }
    }

    /// A marker inside the active file: only the counter moves.
    pub open spec fn mark(self, line: nat) -> TreeView {
        TreeView { nodes: self.nodes, stack: self.stack, current_line: line }
    }

    /// One transition. Entering comes before returning, and returning before a
    /// plain marker; the other flags play no part. Returning while only the
    /// root is open is an error.
    pub open spec fn step(self, event: DirectiveView) -> Result<TreeView, MarkerError> {
        if event.flags.contains(Flag::StartNewFile) {
            Ok(self.enter(event.path))
        } else if event.flags.contains(Flag::ReturnToFile) {
            if self.stack.len() > 1 {
                Ok(self.leave(event.line_number))
            } else {
                Err(MarkerError::UnbalancedReturn)
            }
        } else {
            Ok(self.mark(event.line_number))
        }
    }

    /// The transitions of a run of events, one after the other, up to the
    /// first error.
    pub open spec fn run(self, events: Seq<DirectiveView>) -> Result<TreeView, MarkerError>
        decreases events.len(),
    {
        if events.len() == 0 {
            Ok(self)
        } else {
            match self.run(events.drop_last()) {
                Ok(state) => state.step(events.last()),
                Err(e) => Err(e),
            }
        }
    }

    /// What holds of every state that the transitions reach.
    pub open spec fn wf(self) -> bool {
        &&& root_wf(self.nodes)
        &&& parents_wf(self.nodes)
        &&& children_wf(self.nodes)
        &&& walk_wf(self.nodes)
        &&& stack_wf(self.nodes, self.stack)
        &&& open_wf(self.nodes, self.stack)
    }

    /// The nodes in the order of their making, each with its depth and label.
    pub open spec fn listing(self) -> Seq<(nat, Seq<char>)> {
        Seq::new(self.nodes.len(), |i: int| (self.nodes[i].depth as nat, self.nodes[i].label))
    }
}

/// The root is there, first, with its fixed label.
pub open spec fn root_wf(nodes: Seq<NodeView>) -> bool {
    &&& nodes.len() >= 1
    &&& nodes[0].label == ROOT_LABEL@
    &&& nodes[0].parent == 0
    &&& nodes[0].depth == 0
}

/// Every node but the root has a parent that was made before it, lies one step
/// nearer to the root, and counts it among its children.
#[verifier::opaque]
pub open spec fn parents_wf(nodes: Seq<NodeView>) -> bool {
    forall|i: int|
        1 <= i < nodes.len() ==> {
            let p = #[trigger] nodes[i].parent;
            &&& 0 <= p < i
            &&& nodes[i].depth == nodes[p].depth + 1
            &&& nodes[p].children.contains(i)
        }
}

/// Every child was made after its parent and names it as its parent; the
/// children of a node stand in the order of their making.
#[verifier::opaque]
pub open spec fn children_wf(nodes: Seq<NodeView>) -> bool {
    &&& forall|p: int, k: int|
        0 <= p < nodes.len() && 0 <= k < nodes[p].children.len() ==> {
            let c = #[trigger] nodes[p].children[k];
            &&& p < c < nodes.len()
            &&& nodes[c].parent == p
        }
    &&& forall|p: int, k: int, l: int|
        0 <= p < nodes.len() && 0 <= k < l < nodes[p].children.len()
            ==> #[trigger] nodes[p].children[k] < #[trigger] nodes[p].children[l]
}

/// The order of making is the order of a walk that visits a node before its
/// children: between a node and its parent stand only nodes at least as deep
/// as the node itself.
#[verifier::opaque]
pub open spec fn walk_wf(nodes: Seq<NodeView>) -> bool {
    forall|i: int, j: int|
        1 <= i < nodes.len() && #[trigger] nodes[i].parent < j < i ==> #[trigger] nodes[j].depth
            >= nodes[i].depth
}

/// The stack is never empty: it leads from the root, child by child, to the
/// active node, and each entry is the youngest child of the one below it.
#[verifier::opaque]
pub open spec fn stack_wf(nodes: Seq<NodeView>, stack: Seq<int>) -> bool {
    &&& stack.len() >= 1
    &&& stack[0] == 0
    &&& forall|k: int|
        0 <= k < stack.len() ==> {
            &&& 0 <= #[trigger] stack[k] < nodes.len()
            &&& nodes[stack[k]].depth == k
        }
    &&& forall|k: int, l: int|
        0 <= k && l == k + 1 && l < stack.len() ==> {
            &&& nodes[#[trigger] stack[l]].parent == #[trigger] stack[k]
            &&& nodes[stack[k]].children.len() > 0
            &&& nodes[stack[k]].children.last() == stack[l]
        }
}

/// After an open node come only nodes that lie below it.
#[verifier::opaque]
pub open spec fn open_wf(nodes: Seq<NodeView>, stack: Seq<int>) -> bool {
    forall|k: int, j: int|
        0 <= k < stack.len() && #[trigger] stack[k] < j < nodes.len() ==> #[trigger] nodes[j].depth
            > k
}

/// The state before any marker is well formed.
pub proof fn lemma_initial_wf()
    ensures
        TreeView::initial().wf(),
{
    reveal(parents_wf);
    reveal(children_wf);
    reveal(walk_wf);
    reveal(stack_wf);
    reveal(open_wf);
}

/// A new last child keeps the nodes well formed.
proof fn lemma_enter_nodes_wf(state: TreeView, path: Seq<char>)
    requires
        state.wf(),
    ensures
        root_wf(state.enter(path).nodes),
        parents_wf(state.enter(path).nodes),
        children_wf(state.enter(path).nodes),
        walk_wf(state.enter(path).nodes),
{
    reveal(parents_wf);
    reveal(children_wf);
    reveal(walk_wf);
    reveal(stack_wf);
    reveal(open_wf);
    let old_nodes = state.nodes;
    let nodes = state.enter(path).nodes;
    let top = state.active();
    let child = old_nodes.len() as int;
    assert(state.stack[state.stack.len() - 1] == top);
    assert(old_nodes[top].depth == state.stack.len() - 1);
    assert forall|i: int| 1 <= i < nodes.len() implies {
        let p = #[trigger] nodes[i].parent;
        &&& 0 <= p < i
        &&& nodes[i].depth == nodes[p].depth + 1
        &&& nodes[p].children.contains(i)
    } by {
        if i < child {
            let p = old_nodes[i].parent;
            let k = choose|k: int|
                0 <= k < old_nodes[p].children.len() && old_nodes[p].children[k] == i;
            assert(nodes[p].children[k] == i);
        } else {
            assert(nodes[top].children[nodes[top].children.len() - 1] == i);
        }
    }
    assert forall|p: int, k: int| 0 <= p < nodes.len() && 0 <= k < nodes[p].children.len() implies {
        let c = #[trigger] nodes[p].children[k];
        &&& p < c < nodes.len()
        &&& nodes[c].parent == p
    } by {
        if p == top && k == old_nodes[top].children.len() {
        } else {
            assert(nodes[p].children[k] == old_nodes[p].children[k]);
        }
    }
    assert forall|p: int, k: int, l: int|
        0 <= p < nodes.len() && 0 <= k < l < nodes[p].children.len() implies #[trigger] nodes[p].children[k]
        < #[trigger] nodes[p].children[l] by {
        assert(nodes[p].children[k] == old_nodes[p].children[k]);
        if p == top && l == old_nodes[top].children.len() {
        } else {
            assert(nodes[p].children[l] == old_nodes[p].children[l]);
        }
    }
    assert forall|i: int, j: int|
        1 <= i < nodes.len() && #[trigger] nodes[i].parent < j < i implies #[trigger] nodes[j].depth
        >= nodes[i].depth by {
        if i < child {
            assert(old_nodes[i].parent < j < i);
            assert(old_nodes[j].depth >= old_nodes[i].depth);
        } else {
            assert(state.stack[state.stack.len() - 1] < j < old_nodes.len());
            assert(old_nodes[j].depth > state.stack.len() - 1);
        }
    }
}

/// A new active node keeps the stack well formed.
proof fn lemma_enter_stack_wf(state: TreeView, path: Seq<char>)
    requires
        state.wf(),
    ensures
        stack_wf(state.enter(path).nodes, state.enter(path).stack),
        open_wf(state.enter(path).nodes, state.enter(path).stack),
{
    reveal(stack_wf);
    reveal(open_wf);
    let old_nodes = state.nodes;
    let next = state.enter(path);
    let nodes = next.nodes;
    let stack = next.stack;
    let top = state.active();
    let child = old_nodes.len() as int;
    let last = state.stack.len() - 1;
    assert(state.stack[last] == top);
    assert(old_nodes[top].depth == last);
    assert(nodes[top].children.last() == child);
    assert forall|k: int| 0 <= k < stack.len() implies {
        &&& 0 <= #[trigger] stack[k] < nodes.len()
        &&& nodes[stack[k]].depth == k
    } by {
        if k <= last {
            assert(stack[k] == state.stack[k]);
        }
    }
    assert forall|k: int, l: int| 0 <= k && l == k + 1 && l < stack.len() implies {
        &&& nodes[#[trigger] stack[l]].parent == #[trigger] stack[k]
        &&& nodes[stack[k]].children.len() > 0
        &&& nodes[stack[k]].children.last() == stack[l]
    } by {
        assert(stack[k] == state.stack[k]);
        if l <= last {
            assert(stack[l] == state.stack[l]);
            assert(old_nodes[state.stack[k]].depth == k);
            assert(state.stack[k] != top);
        }
    }
    assert forall|k: int, j: int|
        0 <= k < stack.len() && #[trigger] stack[k] < j < nodes.len() implies #[trigger] nodes[j].depth
        > k by {
        if k <= last {
            assert(stack[k] == state.stack[k]);
            if j < child {
                assert(old_nodes[j].depth > k);
            }
        }
    }
}

/// Entering a file keeps the state well formed.
pub proof fn lemma_enter_wf(state: TreeView, path: Seq<char>)
    requires
        state.wf(),
    ensures
        state.enter(path).wf(),
{
    lemma_enter_nodes_wf(state, path);
    lemma_enter_stack_wf(state, path);
}

/// Returning to the enclosing file keeps the state well formed.
pub proof fn lemma_leave_wf(state: TreeView, line: nat)
    requires
        state.wf(),
        state.stack.len() > 1,
    ensures
        state.leave(line).wf(),
{
    reveal(stack_wf);
    reveal(open_wf);
    let nodes = state.nodes;
    let stack = state.leave(line).stack;
    assert forall|k: int| 0 <= k < stack.len() implies {
        &&& 0 <= #[trigger] stack[k] < nodes.len()
        &&& nodes[stack[k]].depth == k
    } by {
        assert(stack[k] == state.stack[k]);
    }
    assert forall|k: int, l: int| 0 <= k && l == k + 1 && l < stack.len() implies {
        &&& nodes[#[trigger] stack[l]].parent == #[trigger] stack[k]
        &&& nodes[stack[k]].children.len() > 0
        &&& nodes[stack[k]].children.last() == stack[l]
    } by {
        assert(stack[k] == state.stack[k]);
        assert(stack[l] == state.stack[l]);
    }
    assert forall|k: int, j: int|
        0 <= k < stack.len() && #[trigger] stack[k] < j < nodes.len() implies #[trigger] nodes[j].depth
        > k by {
        assert(stack[k] == state.stack[k]);
    }
}

/// One transition keeps the state well formed.
pub proof fn lemma_step_wf(state: TreeView, event: DirectiveView)
    requires
        state.wf(),
    ensures
        state.step(event) matches Ok(next) ==> next.wf(),
{
    if event.flags.contains(Flag::StartNewFile) {
        lemma_enter_wf(state, event.path);
    } else if event.flags.contains(Flag::ReturnToFile) {
        if state.stack.len() > 1 {
            lemma_leave_wf(state, event.line_number);
        }
    }
}

/// A whole run keeps the state well formed.
pub proof fn lemma_run_wf(state: TreeView, events: Seq<DirectiveView>)
    requires
        state.wf(),
    ensures
        state.run(events) matches Ok(last) ==> last.wf(),
    decreases events.len(),
{
    if events.len() > 0 {
        lemma_run_wf(state, events.drop_last());
        if let Ok(before) = state.run(events.drop_last()) {
            lemma_step_wf(before, events.last());
        }
    }
}

/// No node lies above the root.
pub proof fn lemma_depth_nonnegative(state: TreeView, i: int)
    requires
        state.wf(),
        0 <= i < state.nodes.len(),
    ensures
        state.nodes[i].depth >= 0,
        i >= 1 ==> state.nodes[i].depth >= 1,
    decreases i,
{
    reveal(parents_wf);
    if i >= 1 {
        lemma_depth_nonnegative(state, state.nodes[i].parent);
    }
}

/// From one node to the next in the order of making, the depth grows by one
/// at most.
pub proof fn lemma_depth_steps(state: TreeView, i: int)
    requires
        state.wf(),
        1 <= i < state.nodes.len(),
    ensures
        1 <= state.nodes[i].depth <= state.nodes[i - 1].depth + 1,
{
    reveal(parents_wf);
    reveal(walk_wf);
    lemma_depth_nonnegative(state, i);
    let p = state.nodes[i].parent;
    if p < i - 1 {
        assert(state.nodes[i - 1].depth >= state.nodes[i].depth);
    }
}

/// The parent of a node is the nearest node before it that lies one step
/// nearer to the root: the depths in the order of making fix the whole tree.
pub proof fn lemma_parent_is_nearest(state: TreeView, i: int, j: int)
    requires
        state.wf(),
        1 <= i < state.nodes.len(),
        0 <= j < i,
        state.nodes[j].depth == state.nodes[i].depth - 1,
    ensures
        j <= state.nodes[i].parent < i,
        state.nodes[state.nodes[i].parent].depth == state.nodes[i].depth - 1,
{
    reveal(parents_wf);
    reveal(walk_wf);
}

/// The stack is never empty: the root is always open, at the bottom, and the
/// active node is one of the nodes.
pub proof fn lemma_stack_never_empty(state: TreeView)
    requires
        state.wf(),
    ensures
        state.stack.len() >= 1,
        state.stack[0] == 0,
        0 <= state.active() < state.nodes.len(),
        state.nodes[state.active()].depth == state.stack.len() - 1,
{
    reveal(stack_wf);
    assert(state.stack[state.stack.len() - 1] == state.active());
}

/// Whether `later` keeps everything of `earlier`: no node is lost or
/// relabelled, and each list of children only grows at its end.
pub open spec fn extends(earlier: Seq<NodeView>, later: Seq<NodeView>) -> bool {
    &&& earlier.len() <= later.len()
    &&& forall|i: int|
        0 <= i < earlier.len() ==> {
            &&& (#[trigger] later[i]).label == earlier[i].label
            &&& later[i].parent == earlier[i].parent
            &&& later[i].depth == earlier[i].depth
            &&& earlier[i].children.is_prefix_of(later[i].children)
        }
}

/// The tree only grows: one transition loses no node, changes no label and
/// reorders no children.
pub proof fn lemma_step_only_appends(state: TreeView, event: DirectiveView)
    requires
        state.wf(),
    ensures
        state.step(event) matches Ok(next) ==> extends(state.nodes, next.nodes),
{
    lemma_stack_never_empty(state);
    if let Ok(next) = state.step(event) {
        assert forall|i: int| 0 <= i < state.nodes.len() implies {
            &&& (#[trigger] next.nodes[i]).label == state.nodes[i].label
            &&& next.nodes[i].parent == state.nodes[i].parent
            &&& next.nodes[i].depth == state.nodes[i].depth
            &&& state.nodes[i].children.is_prefix_of(next.nodes[i].children)
        } by {
            assert(state.nodes[i].children.is_prefix_of(state.nodes[i].children));
            if event.flags.contains(Flag::StartNewFile) && i == state.active() {
                let grown = state.nodes[i].children.push(state.nodes.len() as int);
                assert(grown.subrange(0, state.nodes[i].children.len() as int)
                    =~= state.nodes[i].children);
            }
        }
    }
}

/// The tree only grows over a whole run, too.
pub proof fn lemma_run_only_appends(state: TreeView, events: Seq<DirectiveView>)
    requires
        state.wf(),
    ensures
        state.run(events) matches Ok(last) ==> extends(state.nodes, last.nodes),
    decreases events.len(),
{
    if events.len() == 0 {
        assert forall|i: int| 0 <= i < state.nodes.len() implies state.nodes[i].children.is_prefix_of(
            (#[trigger] state.nodes[i]).children,
        ) by {}
    } else {
        lemma_run_only_appends(state, events.drop_last());
        lemma_run_wf(state, events.drop_last());
        if let Ok(before) = state.run(events.drop_last()) {
            lemma_step_only_appends(before, events.last());
            if let Ok(last) = before.step(events.last()) {
                assert forall|i: int| 0 <= i < state.nodes.len() implies {
                    &&& (#[trigger] last.nodes[i]).label == state.nodes[i].label
                    &&& last.nodes[i].parent == state.nodes[i].parent
                    &&& last.nodes[i].depth == state.nodes[i].depth
                    &&& state.nodes[i].children.is_prefix_of(last.nodes[i].children)
                } by {
                    let a = state.nodes[i].children;
                    let b = before.nodes[i].children;
                    let c = last.nodes[i].children;
                    assert(a.is_prefix_of(b));
                    assert(b.is_prefix_of(c));
                    assert(a =~= c.subrange(0, a.len() as int)) by {
                        assert forall|k: int| 0 <= k < a.len() implies a[k] == c[k] by {
                            assert(a[k] == b.subrange(0, a.len() as int)[k]);
                            assert(b[k] == c.subrange(0, b.len() as int)[k]);
                        }
                    }
                }
            }
        }
    }
}

/// The node reached from `place` by going to the parent `steps` times.
pub open spec fn ancestor(nodes: Seq<NodeView>, place: int, steps: nat) -> int
    decreases steps,
{
    if steps == 0 {
        place
    } else {
        ancestor(nodes, nodes[place].parent, (steps - 1) as nat)
    }
}

/// The nodes are one tree: from every node, as many steps up as it is deep
/// lead to the root, and only the root has depth 0.
pub proof fn lemma_hangs_from_root(state: TreeView, place: int)
    requires
        state.wf(),
        0 <= place < state.nodes.len(),
    ensures
        state.nodes[place].depth >= 0,
        ancestor(state.nodes, place, state.nodes[place].depth as nat) == 0,
        state.nodes[place].depth == 0 <==> place == 0,
    decreases place,
{
    reveal(parents_wf);
    lemma_depth_nonnegative(state, place);
    if place >= 1 {
        lemma_hangs_from_root(state, state.nodes[place].parent);
    }
}

/// The node that entering a file makes: it carries the counter and the path
/// in its label, it is the last child of the node that was active, and it is
/// the active node afterwards. Nothing else changes but that one list of
/// children; the counter stays.
pub proof fn lemma_enter_makes_node(state: TreeView, path: Seq<char>)
    requires
        state.wf(),
    ensures
        ({
            let next = state.enter(path);
            let child = state.nodes.len() as int;
            let top = state.active();
            &&& 0 <= top < child
            &&& next.nodes.len() == child + 1
            &&& next.nodes[child].label == decimal_text(state.current_line) + seq![' '] + path
            &&& next.nodes[child].children.len() == 0
            &&& next.nodes[child].parent == top
            &&& next.nodes[top].children == state.nodes[top].children.push(child)
            &&& next.nodes[top].label == state.nodes[top].label
            &&& next.active() == child
            &&& next.stack.len() == state.stack.len() + 1
            &&& next.current_line == state.current_line
            &&& forall|i: int| 0 <= i < child && i != top ==> next.nodes[i] == state.nodes[i]
        }),
{
    reveal(stack_wf);
    assert(state.stack[state.stack.len() - 1] == state.active());
}

/// Whether the event enters a file.
pub open spec fn enters(event: DirectiveView) -> bool {
    event.flags.contains(Flag::StartNewFile)
}

/// Whether the event returns to the enclosing file.
pub open spec fn leaves(event: DirectiveView) -> bool {
    !event.flags.contains(Flag::StartNewFile) && event.flags.contains(Flag::ReturnToFile)
}

/// How many files a run of events leaves open: those entered less those left.
pub open spec fn nesting(events: Seq<DirectiveView>) -> int
    decreases events.len(),
{
    if events.len() == 0 {
        0
    } else if enters(events.last()) {
        nesting(events.drop_last()) + 1
    } else if leaves(events.last()) {
        nesting(events.drop_last()) - 1
    } else {
        nesting(events.drop_last())
    }
}

/// How many events of a run enter a file.
pub open spec fn entered(events: Seq<DirectiveView>) -> nat
    decreases events.len(),
{
    if events.len() == 0 {
        0
    } else if enters(events.last()) {
        entered(events.drop_last()) + 1
    } else {
        entered(events.drop_last())
    }
}

/// A run is well nested when it never leaves a file that it did not enter,
/// and leaves every file that it entered.
pub open spec fn well_nested(events: Seq<DirectiveView>) -> bool {
    &&& forall|k: int| 0 <= k <= events.len() ==> nesting(#[trigger] events.take(k)) >= 0
    &&& nesting(events) == 0
}

/// A run that never returns from the root succeeds; it leaves as many more
/// files open as its nesting says, and makes one node for each event that
/// enters a file.
pub proof fn lemma_run_counts(state: TreeView, events: Seq<DirectiveView>)
    requires
        state.wf(),
        forall|k: int|
            0 <= k <= events.len() ==> state.stack.len() + nesting(#[trigger] events.take(k)) >= 1,
    ensures
        state.run(events) matches Ok(last) && last.wf() && last.stack.len() == state.stack.len()
            + nesting(events) && last.nodes.len() == state.nodes.len() + entered(events),
    decreases events.len(),
{
    if events.len() > 0 {
        let before = events.drop_last();
        assert forall|k: int| 0 <= k <= before.len() implies state.stack.len() + nesting(
            #[trigger] before.take(k),
        ) >= 1 by {
            assert(before.take(k) =~= events.take(k));
        }
        lemma_run_counts(state, before);
        let middle = state.run(before)->Ok_0;
        assert(events.take(events.len() as int) =~= events);
        assert(events.take(events.len() - 1) =~= before);
        lemma_step_wf(middle, events.last());
        reveal(stack_wf);
    }
}

/// Balanced round trip: after a well-nested run from the start, only the root
/// is open, and the tree has one node for each event that entered a file,
/// besides the root.
pub proof fn lemma_balanced_round_trip(events: Seq<DirectiveView>)
    requires
        well_nested(events),
    ensures
        TreeView::initial().run(events) matches Ok(last) && last.stack.len() == 1
            && last.nodes.len() - 1 == entered(events),
{
    lemma_initial_wf();
    lemma_run_counts(TreeView::initial(), events);
}

/// Whether two events differ at most in the flags that say what kind of file
/// it is: the same line, the same path, and both or neither enter, both or
/// neither return.
pub open spec fn same_but_kind_flags(a: DirectiveView, b: DirectiveView) -> bool {
    &&& a.line_number == b.line_number
    &&& a.path == b.path
    &&& a.flags.contains(Flag::StartNewFile) == b.flags.contains(Flag::StartNewFile)
    &&& a.flags.contains(Flag::ReturnToFile) == b.flags.contains(Flag::ReturnToFile)
}

/// The flags for a system header and for a wrapped file change nothing: two
/// runs that differ only in them go through the same states.
pub proof fn lemma_kind_flags_inert(
    state: TreeView,
    first: Seq<DirectiveView>,
    second: Seq<DirectiveView>,
)
    requires
        first.len() == second.len(),
        forall|i: int| 0 <= i < first.len() ==> same_but_kind_flags(first[i], second[i]),
    ensures
        state.run(first) == state.run(second),
    decreases first.len(),
{
    if first.len() > 0 {
        lemma_kind_flags_inert(state, first.drop_last(), second.drop_last());
        assert(same_but_kind_flags(first[first.len() - 1], second[second.len() - 1]));
    }
}

/// The events of a list as plain values.
pub open spec fn events_view(events: Seq<DirectiveEvent>) -> Seq<DirectiveView> {
    events.map_values(|e: DirectiveEvent| e@)
}

/// A run that has failed stays failed, with the same error, whatever follows.
pub proof fn lemma_run_stays_failed(state: TreeView, events: Seq<DirectiveView>, k: int)
    requires
        0 <= k <= events.len(),
        state.run(events.take(k)) is Err,
    ensures
        state.run(events) == state.run(events.take(k)),
    decreases events.len() - k,
{
    if k < events.len() {
        assert(events.take(k + 1).drop_last() =~= events.take(k));
        lemma_run_stays_failed(state, events, k + 1);
    } else {
        assert(events.take(k) =~= events);
    }
}

/// One file of the tree.
#[derive(Debug)]
pub struct Node {
    label: String,
    parent: usize,
    depth: usize,
    children: Vec<usize>,
}

impl View for Node {
    type V = NodeView;

    closed spec fn view(&self) -> NodeView {
        NodeView {
            label: self.label@,
            parent: self.parent as int,
            depth: self.depth as int,
            children: places(self.children@),
        }
    }
}

impl Node {
    /// The text shown for the node.
    pub fn label(&self) -> (r: &str)
        ensures
            r@ == self@.label,
    {
        self.label.as_str()
    }

    /// The place of the node's parent; the root is its own parent.
    pub fn parent(&self) -> (r: usize)
        ensures
            r == self@.parent,
    {
        self.parent
    }

    /// How far the node is from the root.
    pub fn depth(&self) -> (r: usize)
        ensures
            r == self@.depth,
    {
        self.depth
    }

    /// The places of the node's children, oldest first.
    pub fn children(&self) -> (r: &Vec<usize>)
        ensures
            places(r@) == self@.children,
    {
        &self.children
    }
}

/// The tree of files under construction: the nodes, the stack of open files
/// and the line counter.
#[derive(Debug)]
pub struct InclusionTree {
    nodes: Vec<Node>,
    stack: Vec<usize>,
    current_line: usize,
}

impl View for InclusionTree {
    type V = TreeView;

    closed spec fn view(&self) -> TreeView {
        TreeView {
            nodes: self.nodes@.map_values(|n: Node| n@),
            stack: places(self.stack@),
            current_line: self.current_line as nat,
        }
    }
}

impl InclusionTree {
    /// The tree before any marker: the root alone, open, at line 0.
    pub fn new() -> (tree: InclusionTree)
        ensures
            tree@ == TreeView::initial(),
            tree@.wf(),
    {
        let root = Node {
            label: ROOT_LABEL.to_owned(),
            parent: 0,
            depth: 0,
            children: Vec::new(),
        };
        let mut nodes: Vec<Node> = Vec::new();
        nodes.push(root);
        let mut stack: Vec<usize> = Vec::new();
        stack.push(0);
        let tree = InclusionTree { nodes, stack, current_line: 0 };
        proof {
            assert(tree@.nodes[0].children =~= Seq::<int>::empty());
            assert(tree@.nodes =~= TreeView::initial().nodes);
            assert(tree@.stack =~= TreeView::initial().stack);
            lemma_initial_wf();
        }
        tree
    }

    /// How many nodes the tree has, the root among them.
    pub fn len(&self) -> (n: usize)
        ensures
            n == self@.nodes.len(),
    {
        self.nodes.len()
    }

    /// How many files were entered: every node but the root.
    pub fn node_count(&self) -> (n: usize)
        requires
            self@.wf(),
        ensures
            n == self@.nodes.len() - 1,
    {
        self.nodes.len() - 1
    }

    /// The node at `place`.
    pub fn node(&self, place: usize) -> (node: &Node)
        requires
            place < self@.nodes.len(),
        ensures
            node@ == self@.nodes[place as int],
    {
        &self.nodes[place]
    }

    /// How many files are open, the root among them: the size of the stack.
    pub fn stack_depth(&self) -> (n: usize)
        ensures
            n == self@.stack.len(),
    {
        self.stack.len()
    }

    /// The place of the active node: the top of the stack.
    pub fn active(&self) -> (place: usize)
        requires
            self@.wf(),
        ensures
            place == self@.active(),
            place < self@.nodes.len(),
    {
        proof {
            reveal(stack_wf);
        }
        let place = self.stack[self.stack.len() - 1];
        assert(self@.stack[self@.stack.len() - 1] == place);
        place
    }

    /// The line reached in the active file.
    pub fn current_line(&self) -> (line: usize)
        ensures
            line == self@.current_line,
    {
        self.current_line
    }

    /// Makes one transition. On an error the tree stays as it was.
    pub fn apply(&mut self, event: &DirectiveEvent) -> (r: Result<(), MarkerError>)
        requires
            old(self)@.wf(),
        ensures
            final(self)@.wf(),
            match old(self)@.step(event@) {
                Ok(next) => r is Ok && final(self)@ == next,
                Err(e) => r == Err::<(), MarkerError>(e) && final(self)@ == old(self)@,
            },
    {
        proof {
            lemma_step_wf(self@, event@);
        }
        if event.flags.contains(Flag::StartNewFile) {
            let top = self.active();
            let child = self.nodes.len();
            let depth = self.stack.len();
            let mut label = String::new();
            push_decimal(&mut label, self.current_line);
            proof {
                reveal_strlit(" ");
            }
            label.append(" ");
            label.append(event.path.as_str());
            assert(label@ =~= label_text(self@.current_line, event@.path));
            self.nodes[top].children.push(child);
            self.nodes.push(Node { label, parent: top, depth, children: Vec::new() });
            self.stack.push(child);
            proof {
                let next = old(self)@.enter(event@.path);
                assert(self@.nodes[child as int].children =~= Seq::<int>::empty());
                assert(self@.nodes[top as int].children =~= old(self)@.nodes[top as int].children.push(
                    child as int,
                ));
                assert(self@.nodes =~= next.nodes);
                assert(self@.stack =~= next.stack);
            }
            Ok(())
        } else if event.flags.contains(Flag::ReturnToFile) {
            if self.stack.len() > 1 {
                self.stack.pop();
                self.current_line = event.line_number;
                proof {
                    let next = old(self)@.leave(event@.line_number);
                    assert(self@.nodes =~= next.nodes);
                    assert(self@.stack =~= next.stack);
                }
                Ok(())
            } else {
                Err(MarkerError::UnbalancedReturn)
            }
        } else {
            self.current_line = event.line_number;
            proof {
                let next = old(self)@.mark(event@.line_number);
                assert(self@.nodes =~= next.nodes);
                assert(self@.stack =~= next.stack);
            }
            Ok(())
        }
    }

    /// Makes the transitions of a run of events, one after the other, and
    /// stops at the first error: no tree is left then.
    pub fn run(self, events: &Vec<DirectiveEvent>) -> (r: Result<InclusionTree, MarkerError>)
        requires
            self@.wf(),
        ensures
            match self@.run(events_view(events@)) {
                Ok(last) => r matches Ok(tree) && tree@ == last && tree@.wf(),
                Err(e) => r matches Err(err) && err == e,
            },
    {
        let mut tree = self;
        let ghost all = events_view(events@);
        let mut i: usize = 0;
        assert(all.take(0) =~= Seq::<DirectiveView>::empty());
        while i < events.len()
            invariant
                i <= events.len(),
                all == events_view(events@),
                tree@.wf(),
                self@.run(all.take(i as int)) == Ok::<TreeView, MarkerError>(tree@),
            decreases events.len() - i,
        {
            proof {
                assert(all.take(i + 1).drop_last() =~= all.take(i as int));
                assert(all.take(i + 1).last() == events@[i as int]@);
            }
            match tree.apply(&events[i]) {
                Ok(()) => {},
                Err(e) => {
                    proof {
                        lemma_run_stays_failed(self@, all, i + 1);
                    }
                    return Err(e);
                },
            }
            i += 1;
        }
        assert(all.take(i as int) =~= all);
        Ok(tree)
    }
}

} // verus!
