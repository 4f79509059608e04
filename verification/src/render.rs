//! The finished tree as an item of the `ptree` crate, which prints it.
//!
//! The item is made by `ptree::TreeBuilder`. Nothing is proved of the builder:
//! the functions that call it state what its source shows, and the walk that
//! drives it is proved against those statements.

use crate::tree::{lemma_depth_steps, InclusionTree, TreeView};
use ptree::item::StringItem;
use ptree::TreeBuilder;
use vstd::prelude::*;

verus! {

/// `ptree::TreeBuilder`, which makes a tree of items child by child.
#[verifier::external_type_specification]
#[verifier::external_body]
pub struct ExTreeBuilder(ptree::TreeBuilder);

/// `ptree::item::StringItem`, an item of a finished tree: a text and the
/// items below it.
#[verifier::external_type_specification]
#[verifier::external_body]
pub struct ExStringItem(ptree::item::StringItem);

/// The items that a builder holds, in the order of a walk that visits an item
/// before its children and the children oldest first: each with its distance
/// from the top item and its text.
pub uninterp spec fn builder_listing(builder: TreeBuilder) -> Seq<(nat, Seq<char>)>;

/// How many children of a builder are begun and not yet ended.
pub uninterp spec fn builder_level(builder: TreeBuilder) -> nat;

/// The items of a finished tree, listed as [`builder_listing`] lists them.
pub uninterp spec fn item_listing(item: StringItem) -> Seq<(nat, Seq<char>)>;

/// Calls `ptree::TreeBuilder::new`.
///
/// Taken on trust: the new builder holds the top item alone, with the given
/// text, and no child is begun.
#[verifier::external_body]
fn builder_new(text: String) -> (builder: TreeBuilder)
    ensures
        builder_listing(builder) == seq![(0nat, text@)],
        builder_level(builder) == 0,
{
    TreeBuilder::new(text)
}

/// Calls `ptree::TreeBuilder::begin_child`.
///
/// Taken on trust: the new item becomes the last child of the item that the
/// walk down the last children reaches after as many steps as children are
/// begun, so it comes last in the listing, one step deeper than that count;
/// and one more child is begun. The builder counts in `u32` and walks down
/// last children without looking, hence the two demands.
#[verifier::external_body]
fn builder_begin_child(builder: &mut TreeBuilder, text: String)
    requires
        builder_level(*old(builder)) < u32::MAX,
        builder_listing(*old(builder)).len() > 0,
        builder_level(*old(builder)) <= builder_listing(*old(builder)).last().0,
    ensures
        builder_listing(*final(builder)) == builder_listing(*old(builder)).push(
            (builder_level(*old(builder)) + 1, text@),
        ),
        builder_level(*final(builder)) == builder_level(*old(builder)) + 1,
{
    builder.begin_child(text);
}

/// Calls `ptree::TreeBuilder::end_child`.
///
/// Taken on trust: the items stay, and one child fewer is begun. The builder
/// subtracts without looking, hence the demand.
#[verifier::external_body]
fn builder_end_child(builder: &mut TreeBuilder)
    requires
        builder_level(*old(builder)) > 0,
    ensures
        builder_listing(*final(builder)) == builder_listing(*old(builder)),
        builder_level(*final(builder)) == builder_level(*old(builder)) - 1,
{
    builder.end_child();
}

/// Calls `ptree::TreeBuilder::build`.
///
/// Taken on trust: the item handed out is a copy of the builder's top item
/// with everything below it, and the builder stays as it was.
#[verifier::external_body]
fn builder_build(builder: &mut TreeBuilder) -> (item: StringItem)
    ensures
        item_listing(item) == builder_listing(*old(builder)),
        builder_listing(*final(builder)) == builder_listing(*old(builder)),
        builder_level(*final(builder)) == builder_level(*old(builder)),
{
    builder.build()
}

/// Whether the printer's builder can hold the tree: it counts depth in `u32`.
pub open spec fn renderable(state: TreeView) -> bool {
    forall|i: int| 0 <= i < state.nodes.len() ==> (#[trigger] state.nodes[i]).depth <= u32::MAX
}

impl InclusionTree {
    /// The whole tree, from the root, as an item that `ptree` prints; `None`
    /// for a tree too deep for its builder. Files that are still open when the
    /// input ends are part of the tree like any other.
    pub fn to_item(&self) -> (r: Option<StringItem>)
        requires
            self@.wf(),
        ensures
            r is Some <==> renderable(self@),
            r matches Some(item) ==> item_listing(item) == self@.listing(),
    {
        let n = self.len();
        let mut builder = builder_new(self.node(0).label().to_owned());
        let mut level: u32 = 0;
        let mut i: usize = 1;
        assert(builder_listing(builder) =~= self@.listing().take(1));
        while i < n
            invariant
                1 <= i <= n,
                n == self@.nodes.len(),
                self@.wf(),
                builder_listing(builder) == self@.listing().take(i as int),
                builder_level(builder) == level,
                level == self@.nodes[i - 1].depth,
                forall|j: int| 0 <= j < i ==> (#[trigger] self@.nodes[j]).depth <= u32::MAX,
            decreases n - i,
        {
            let node = self.node(i);
            let depth = node.depth();
            if depth > u32::MAX as usize {
                return None;
            }
            proof {
                lemma_depth_steps(self@, i as int);
            }
            while level as usize >= depth
                invariant
                    1 <= i < n,
                    n == self@.nodes.len(),
                    depth == self@.nodes[i as int].depth,
                    1 <= depth,
                    depth - 1 <= level,
                    builder_listing(builder) == self@.listing().take(i as int),
                    builder_level(builder) == level,
                decreases level,
            {
                builder_end_child(&mut builder);
                level = level - 1;
            }
            builder_begin_child(&mut builder, node.label().to_owned());
            level = level + 1;
            assert(builder_listing(builder) =~= self@.listing().take(i + 1));
            i += 1;
        }
        assert(self@.listing().take(i as int) =~= self@.listing());
        Some(builder_build(&mut builder))
    }
}

} // verus!
