use vstd::prelude::*;

use ahash::AHashMap;

use crate::hashing::char_positions;

verus! {

/// A node of the n-gram tree: the gram at the end of a path of grams, how
/// often that path occurs in the indexed texts, and the paths one gram
/// longer, most frequent first.
///
/// The weight of the node is `occurrences / parent_occurrences`: how often
/// the path continues with this gram, out of how often the path before it
/// occurs (for a first gram, out of all grams).
pub struct GramNode {
    pub item: char,
    pub occurrences: u32,
    pub parent_occurrences: u32,
    pub by_occurances: Vec<GramNode>,
    /// The position in `by_occurances` of the child with each gram.
    pub items: AHashMap<char, usize>,
}

/// The model of a node: its gram, its two counts, its children in order and
/// its lookup map from gram to child position.
pub struct GramNodeView {
    pub item: char,
    pub occurrences: u32,
    pub parent_occurrences: u32,
    pub children: Seq<GramNodeView>,
    pub positions: Map<char, usize>,
}

/// The model of a node, children included.
pub open spec fn node_view(n: GramNode) -> GramNodeView
    decreases n,
{
    GramNodeView {
        item: n.item,
        occurrences: n.occurrences,
        parent_occurrences: n.parent_occurrences,
        children: Seq::new(
            n.by_occurances@.len(),
            |i: int|
                if 0 <= i < n.by_occurances@.len() {
                    node_view(n.by_occurances@[i])
                } else {
                    leaf_view()
                },
        ),
        positions: char_positions(n.items),
    }
}

/// A node without children or counts (a filler value only).
pub open spec fn leaf_view() -> GramNodeView {
    GramNodeView {
        item: '\0',
        occurrences: 0,
        parent_occurrences: 0,
        children: Seq::empty(),
        positions: Map::empty(),
    }
}

impl DeepView for GramNode {
    type V = GramNodeView;

    open spec fn deep_view(&self) -> GramNodeView {
        node_view(*self)
    }
}

/// The children of a model node have distinct grams.
pub open spec fn distinct_items(children: Seq<GramNodeView>) -> bool {
    forall|i: int, j: int|
        0 <= i < j < children.len() ==> #[trigger] children[i].item != #[trigger] children[j].item
}

/// The map from each child's gram to its position.
pub open spec fn item_positions(children: Seq<GramNodeView>) -> Map<char, usize> {
    Map::new(
        |c: char| exists|i: int| 0 <= i < children.len() && children[i].item == c,
        |c: char| (choose|i: int| 0 <= i < children.len() && children[i].item == c) as usize,
    )
}

/// A node whose lookup maps agree with its children, all the way down.
pub open spec fn view_wf(v: GramNodeView) -> bool
    decreases v,
{
    &&& distinct_items(v.children)
    &&& v.positions == item_positions(v.children)
    &&& forall|i: int| 0 <= i < v.children.len() ==> view_wf(#[trigger] v.children[i])
}

impl GramNode {
    /// The node's weight as a fraction: how often its path occurs, out of
    /// how often the path before it occurs.
    pub fn weight(&self) -> (res: (u32, u32))
        ensures
            res == (self.occurrences, self.parent_occurrences),
    {
        (self.occurrences, self.parent_occurrences)
    }
}

} // verus!
