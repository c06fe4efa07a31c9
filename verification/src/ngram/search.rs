//! The steps of the fuzzy search over the n-gram tree. From each node the
//! search may follow the gram typed next, try another child in its place, or
//! drop the gram before it; which of these are open, and in which order they
//! are tried, is decided here. Weighing the paths found is left to the
//! caller.
use vstd::prelude::*;

use super::node::{GramNode, GramNodeView};
use crate::hashing::{char_positions, char_positions_get};

verus! {

/// One way the fuzzy search may go on from a node of the tree.
#[derive(Clone, Copy, Debug, PartialEq, Eq, Structural)]
pub enum SearchMove {
    /// To the child (by position) whose gram is the one typed next; the
    /// input moves on.
    Typed(usize),
    /// To another child (by position) in place of the typed gram. It is tried
    /// twice: with the input moving on (a mistyped gram) and with the input
    /// kept (a forgotten gram).
    Changed(usize),
    /// To the child (by position) of the previous node whose gram is the one
    /// typed next, in place of the gram before it (a gram typed too many).
    Dropped(usize),
}

/// The position of the child that the lookup map gives for the typed gram,
/// if there is a typed gram and such a child.
pub open spec fn typed_child(node: GramNodeView, typed: Option<char>) -> Option<usize> {
    match typed {
        Some(c) => if node.positions.contains_key(c) && node.positions[c] < node.children.len() {
            Some(node.positions[c])
        } else {
            None
        },
        None => None,
    }
}

/// The gram of that child.
pub open spec fn typed_gram(node: GramNodeView, typed: Option<char>) -> Option<char> {
    match typed_child(node, typed) {
        Some(p) => Some(node.children[p as int].item),
        None => None,
    }
}

/// A change to each child, in order, but the one with gram `skip`.
pub open spec fn changed_moves(children: Seq<GramNodeView>, skip: Option<char>) -> Seq<SearchMove>
    decreases children.len(),
{
    if children.len() == 0 {
        Seq::empty()
    } else if skip == Some(children.last().item) {
        changed_moves(children.drop_last(), skip)
    } else {
        changed_moves(children.drop_last(), skip).push(SearchMove::Changed((children.len() - 1) as usize))
    }
}

/// The moves open at `node`, in the order they are tried: the typed gram
/// first; then, while changes are left, every other child, most frequent
/// first, and last the typed gram under the previous node.
pub open spec fn open_moves(
    node: GramNodeView,
    previous: Option<GramNodeView>,
    typed: Option<char>,
    may_change: bool,
) -> Seq<SearchMove> {
    let typed_move = match typed_child(node, typed) {
        Some(p) => seq![SearchMove::Typed(p)],
        None => Seq::empty(),
    };
    let dropped = match previous {
        Some(prev) => match typed_child(prev, typed) {
            Some(p) => seq![SearchMove::Dropped(p)],
            None => Seq::empty(),
        },
        None => Seq::empty(),
    };
    if may_change {
        typed_move + changed_moves(node.children, typed_gram(node, typed)) + dropped
    } else {
        typed_move
    }
}

/// The position of the child that the lookup map of `node` gives for `gram`,
/// if it names a child.
fn child_position(node: &GramNode, gram: char) -> (res: Option<usize>)
    ensures
        res == typed_child(node.deep_view(), Some(gram)),
{
    match char_positions_get(&node.items, gram) {
        Some(p) => {
            if p < node.by_occurances.len() {
                Some(p)
            } else {
                None
            }
        },
        None => None,
    }
}

/// The moves the fuzzy search tries at `node` (reached from `previous`),
/// with `input` left to read and `changes` of `changes_limit` changes made.
pub fn search_moves(node: &GramNode, previous: Option<&GramNode>, input: &[char], changes: u8, changes_limit: u8) -> (res:
    Vec<SearchMove>)
    ensures
        res@ == open_moves(
            node.deep_view(),
            match previous {
                Some(p) => Some(p.deep_view()),
                None => None,
            },
            if input@.len() > 0 {
                Some(input@[0])
            } else {
                None
            },
            changes < changes_limit,
        ),
{
    let ghost typed: Option<char> = if input@.len() > 0 {
        Some(input@[0])
    } else {
        None
    };
    let ghost v = node.deep_view();
    let typed_pos = if input.len() > 0 {
        child_position(node, input[0])
    } else {
        None
    };
    assert(typed_pos == typed_child(v, typed));
    let mut moves: Vec<SearchMove> = Vec::new();
    let skip: Option<char> = match typed_pos {
        Some(p) => {
            moves.push(SearchMove::Typed(p));
            assert(v.children[p as int] == node.by_occurances@[p as int].deep_view());
            Some(node.by_occurances[p].item)
        },
        None => None,
    };
    assert(skip == typed_gram(v, typed));
    if changes >= changes_limit {
        return moves;
    }
    let ghost head = moves@;
    let n = node.by_occurances.len();
    let mut i: usize = 0;
    assert(v.children.take(0) =~= Seq::<GramNodeView>::empty());
    while i < n
        invariant
            n == node.by_occurances@.len(),
            v == node.deep_view(),
            v.children.len() == n,
            i <= n,
            moves@ == head + changed_moves(v.children.take(i as int), skip),
        decreases n - i,
    {
        let item = node.by_occurances[i].item;
        proof {
            assert(v.children[i as int] == node.by_occurances@[i as int].deep_view());
            assert(v.children.take(i + 1).drop_last() =~= v.children.take(i as int));
            assert(v.children.take(i + 1).last() == v.children[i as int]);
        }
        if skip != Some(item) {
            moves.push(SearchMove::Changed(i));
        }
        i = i + 1;
    }
    assert(v.children.take(n as int) =~= v.children);
    if input.len() > 0 {
        match previous {
            Some(prev) => {
                match child_position(prev, input[0]) {
                    Some(p) => moves.push(SearchMove::Dropped(p)),
                    None => {},
                }
            },
            None => {},
        }
    }
    proof {
        let dropped = match previous {
            Some(prev) => match typed_child(prev.deep_view(), typed) {
                Some(p) => seq![SearchMove::Dropped(p)],
                None => Seq::<SearchMove>::empty(),
            },
            None => Seq::<SearchMove>::empty(),
        };
        assert(moves@ =~= head + changed_moves(v.children, skip) + dropped);
    }
    moves
}

} // verus!
