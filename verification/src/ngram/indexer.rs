use vstd::prelude::*;

use ahash::AHashMap;

use super::counting::{
    lemma_occurrences_bound, lemma_occurrences_in_bound, lemma_total_grams_prefix,
    lemma_total_grams_push, occurrences, occurrences_in, starts_at, total_grams,
};
use super::feed::IndexFeed;
use super::node::{distinct_items, item_positions, node_view, view_wf, GramNode, GramNodeView};
use crate::hashing::{
    char_positions, char_positions_entries, char_positions_get, char_positions_insert,
    char_positions_new, gram_roots, gram_roots_insert, gram_roots_new,
};

verus! {

/// A node of the tree while it is counted: its gram, how often its path has
/// been seen, and its children by gram (positions in the builder's list).
struct MutableGramNode {
    item: char,
    occurrences: u32,
    items: AHashMap<char, usize>,
}

/// The tree of paths of at most `n` grams while it is counted, its nodes
/// kept in one list.
struct TrieBuilder {
    nodes: Vec<MutableGramNode>,
    roots: AHashMap<char, usize>,
    n: usize,
    /// The path of grams that leads to each node.
    paths: Ghost<Seq<Seq<char>>>,
}

impl TrieBuilder {
    spec fn child(self, i: int) -> Map<char, usize> {
        char_positions(self.nodes@[i].items)
    }

    /// The nodes hold distinct paths of 1 to `n` grams, each ending with the
    /// node's gram, and the path of each node without its last gram has a
    /// node too.
    #[verifier::opaque]
    spec fn paths_ok(self) -> bool {
        let paths = self.paths@;
        let len = self.nodes@.len();
        &&& paths.len() == len
        &&& forall|i: int|
            #![trigger paths[i]]
            0 <= i < len ==> 1 <= paths[i].len() <= self.n && paths[i].last() == self.nodes@[i].item
        &&& forall|i: int, j: int| 0 <= i < j < len ==> #[trigger] paths[i] != #[trigger] paths[j]
        &&& forall|j: int|
            0 <= j < len && #[trigger] paths[j].len() >= 2 ==> exists|i: int|
                0 <= i < len && paths[i] == paths[j].drop_last()
    }

    /// The roots map each first gram to the node of that one-gram path.
    #[verifier::opaque]
    spec fn roots_ok(self) -> bool {
        let paths = self.paths@;
        let len = self.nodes@.len();
        &&& forall|c: char|
            #[trigger] char_positions(self.roots).contains_key(c) ==> {
                &&& char_positions(self.roots)[c] < len
                &&& paths[char_positions(self.roots)[c] as int] == seq![c]
            }
        &&& forall|i: int|
            0 <= i < len && #[trigger] paths[i].len() == 1 ==> char_positions(
                self.roots,
            ).contains_key(paths[i][0])
    }

    /// Each node maps the grams that continue its path to their nodes, which
    /// come later in the list.
    #[verifier::opaque]
    spec fn children_ok(self) -> bool {
        let paths = self.paths@;
        let len = self.nodes@.len();
        &&& forall|i: int, c: char|
            0 <= i < len && #[trigger] self.child(i).contains_key(c) ==> {
                &&& i < self.child(i)[c] < len
                &&& paths[self.child(i)[c] as int] == paths[i].push(c)
            }
        &&& forall|i: int, j: int|
            0 <= i < len && 0 <= j < len && #[trigger] paths[j].len() >= 2
                && paths[j].drop_last() == #[trigger] paths[i] ==> self.child(i).contains_key(
                paths[j].last(),
            )
    }

    /// The nodes hold distinct paths of 1 to `n` grams, each linked from the
    /// roots (one gram) or from the node of its path without the last gram.
    #[verifier::opaque]
    spec fn links_ok(self) -> bool {
        self.paths_ok() && self.roots_ok() && self.children_ok()
    }

    /// Each node holds the count of its path, and every path of 1 to `n`
    /// grams with a positive count has a node.
    #[verifier::opaque]
    spec fn counts_ok(self, count: spec_fn(Seq<char>) -> nat) -> bool {
        let paths = self.paths@;
        let len = self.nodes@.len();
        &&& forall|i: int|
            #![trigger paths[i]]
            0 <= i < len ==> self.nodes@[i].occurrences == count(paths[i]) && count(paths[i]) > 0
        &&& forall|s: Seq<char>|
            1 <= s.len() <= self.n && #[trigger] count(s) > 0 ==> exists|i: int|
                0 <= i < len && paths[i] == s
    }

    /// The nodes are exactly the paths of 1 to `n` grams that `count` gives
    /// a positive count, each with that count.
    spec fn inv(self, count: spec_fn(Seq<char>) -> nat) -> bool {
        self.links_ok() && self.counts_ok(count)
    }

    /// Only the counts of paths of 1 to `n` grams matter.
    proof fn lemma_inv_same_counts(
        self,
        f: spec_fn(Seq<char>) -> nat,
        g: spec_fn(Seq<char>) -> nat,
    )
        requires
            self.inv(f),
            forall|s: Seq<char>| 1 <= s.len() <= self.n ==> #[trigger] f(s) == g(s),
        ensures
            self.inv(g),
    {
        reveal(TrieBuilder::counts_ok);
        reveal(TrieBuilder::links_ok);
        reveal(TrieBuilder::paths_ok);
        reveal(TrieBuilder::roots_ok);
        reveal(TrieBuilder::children_ok);
        assert forall|i: int| 0 <= i < self.nodes@.len() implies g(#[trigger] self.paths@[i])
            == f(self.paths@[i]) by {
            assert(1 <= self.paths@[i].len() <= self.n);
        }
        assert forall|s: Seq<char>| 1 <= s.len() <= self.n && #[trigger] g(s) > 0 implies exists|i: int|
            0 <= i < self.nodes@.len() && self.paths@[i] == s by {
            assert(f(s) > 0);
        }
    }

    fn new(n: usize) -> (res: TrieBuilder)
        requires
            n >= 1,
        ensures
            res.inv(|s: Seq<char>| 0nat),
            res.n == n,
    {
        reveal(TrieBuilder::counts_ok);
        reveal(TrieBuilder::links_ok);
        reveal(TrieBuilder::paths_ok);
        reveal(TrieBuilder::roots_ok);
        reveal(TrieBuilder::children_ok);
        TrieBuilder {
            nodes: Vec::new(),
            roots: char_positions_new(),
            n,
            paths: Ghost(Seq::empty()),
        }
    }
}


impl TrieBuilder {
    /// Counting a path that has a node: only that node's count changes.
    proof fn lemma_counted_again(
        old_b: TrieBuilder,
        new_b: TrieBuilder,
        f: spec_fn(Seq<char>) -> nat,
        f2: spec_fn(Seq<char>) -> nat,
        p: Seq<char>,
        idx: int,
    )
        requires
            old_b.inv(f),
            0 <= idx < old_b.nodes@.len(),
            old_b.paths@[idx] == p,
            forall|s: Seq<char>| 1 <= s.len() <= old_b.n ==> #[trigger] f2(s) == f(s) + one_if_same(s, p),
            new_b.n == old_b.n,
            new_b.paths == old_b.paths,
            new_b.roots == old_b.roots,
            new_b.nodes@.len() == old_b.nodes@.len(),
            forall|i: int| 0 <= i < old_b.nodes@.len() && i != idx ==> #[trigger] new_b.nodes@[i] == old_b.nodes@[i],
            new_b.nodes@[idx].item == old_b.nodes@[idx].item,
            new_b.nodes@[idx].items == old_b.nodes@[idx].items,
            new_b.nodes@[idx].occurrences == old_b.nodes@[idx].occurrences + 1,
        ensures
            new_b.inv(f2),
    {
        let paths = old_b.paths@;
        let len = old_b.nodes@.len();
        assert forall|i: int| 0 <= i < len implies #[trigger] new_b.child(i) == old_b.child(i)
            && new_b.nodes@[i].item == old_b.nodes@[i].item by {
            if i != idx {
                assert(new_b.nodes@[i] == old_b.nodes@[i]);
            }
        }
        TrieBuilder::lemma_same_links(old_b, new_b);
        reveal(TrieBuilder::counts_ok);
        reveal(TrieBuilder::links_ok);
        reveal(TrieBuilder::paths_ok);
        assert forall|i: int| #![trigger paths[i]] 0 <= i < len implies {
            &&& new_b.nodes@[i].occurrences == f2(paths[i])
            &&& f2(paths[i]) > 0
        } by {
            assert(1 <= paths[i].len() <= old_b.n);
            if i != idx {
                assert(new_b.nodes@[i] == old_b.nodes@[i]);
                assert(paths[i] != p);
            }
        }
        assert forall|s: Seq<char>| 1 <= s.len() <= new_b.n && #[trigger] f2(s) > 0 implies exists|i: int|
            0 <= i < len && paths[i] == s by {
            if s != p {
                assert(f(s) > 0);
            }
        }
    }

    /// Changing only counts keeps the links.
    proof fn lemma_same_links(old_b: TrieBuilder, new_b: TrieBuilder)
        requires
            old_b.links_ok(),
            new_b.n == old_b.n,
            new_b.paths == old_b.paths,
            new_b.roots == old_b.roots,
            new_b.nodes@.len() == old_b.nodes@.len(),
            forall|i: int| 0 <= i < old_b.nodes@.len() ==> #[trigger] new_b.child(i) == old_b.child(i)
                && new_b.nodes@[i].item == old_b.nodes@[i].item,
        ensures
            new_b.links_ok(),
    {
        reveal(TrieBuilder::links_ok);
        reveal(TrieBuilder::paths_ok);
        reveal(TrieBuilder::roots_ok);
        reveal(TrieBuilder::children_ok);
        let paths = old_b.paths@;
        let len = old_b.nodes@.len();
        assert forall|i: int| #![trigger paths[i]] 0 <= i < len implies 1 <= paths[i].len() <= new_b.n
            && paths[i].last() == new_b.nodes@[i].item by {
            assert(new_b.child(i) == old_b.child(i));
        }
        assert forall|i: int, c: char| 0 <= i < len && #[trigger] new_b.child(i).contains_key(c) implies {
            &&& i < new_b.child(i)[c] < len
            &&& paths[new_b.child(i)[c] as int] == paths[i].push(c)
        } by {
            assert(old_b.child(i).contains_key(c));
        }
        assert forall|i: int, j: int|
            0 <= i < len && 0 <= j < len && #[trigger] paths[j].len() >= 2 && paths[j].drop_last()
                == #[trigger] paths[i] implies new_b.child(i).contains_key(paths[j].last()) by {
            assert(old_b.child(i).contains_key(paths[j].last()));
        }
    }

    /// Each node holds the count of its path.
    proof fn lemma_count_at(self, count: spec_fn(Seq<char>) -> nat, i: int)
        requires
            self.inv(count),
            0 <= i < self.nodes@.len(),
        ensures
            self.nodes@[i].occurrences == count(self.paths@[i]),
    {
        reveal(TrieBuilder::counts_ok);
        reveal(TrieBuilder::links_ok);
        reveal(TrieBuilder::paths_ok);
        assert(self.paths@[i] == self.paths@[i]);
    }

    /// What a lookup in the roots or in a node's children finds.
    #[verifier::rlimit(30)]
    proof fn lemma_lookup(self, count: spec_fn(Seq<char>) -> nat, first: bool, cur: int, c: char, p: Seq<char>)
        requires
            self.inv(count),
            1 <= p.len(),
            p.last() == c,
            first <==> p.len() == 1,
            !first ==> 0 <= cur < self.nodes@.len() && self.paths@[cur] == p.drop_last(),
        ensures
            first ==> (char_positions(self.roots).contains_key(c) <==> exists|i: int|
                0 <= i < self.nodes@.len() && self.paths@[i] == p),
            first && char_positions(self.roots).contains_key(c) ==> char_positions(self.roots)[c] < self.nodes@.len()
                && self.paths@[char_positions(self.roots)[c] as int] == p,
            !first ==> (self.child(cur).contains_key(c) <==> exists|i: int|
                0 <= i < self.nodes@.len() && self.paths@[i] == p),
            !first && self.child(cur).contains_key(c) ==> self.child(cur)[c] < self.nodes@.len()
                && self.paths@[self.child(cur)[c] as int] == p,
    {
        reveal(TrieBuilder::links_ok);
        reveal(TrieBuilder::paths_ok);
        reveal(TrieBuilder::roots_ok);
        reveal(TrieBuilder::children_ok);
        if first {
            assert(p =~= seq![c]);
            if exists|i: int| 0 <= i < self.nodes@.len() && self.paths@[i] == p {
                let i = choose|i: int| 0 <= i < self.nodes@.len() && self.paths@[i] == p;
                assert(self.paths@[i].len() == 1);
            }
        } else {
            assert(p =~= p.drop_last().push(c));
            if exists|i: int| 0 <= i < self.nodes@.len() && self.paths@[i] == p {
                let i = choose|i: int| 0 <= i < self.nodes@.len() && self.paths@[i] == p;
                assert(self.paths@[i].drop_last() == self.paths@[cur]);
            }
        }
    }

    /// The facts about a new node for path `p`, linked from its parent (or
    /// the roots), that the lemmas below share.
    spec fn adds_node(old_b: TrieBuilder, new_b: TrieBuilder, p: Seq<char>, parent: int) -> bool {
        &&& old_b.links_ok()
        &&& 1 <= p.len() <= old_b.n
        &&& forall|i: int| 0 <= i < old_b.nodes@.len() ==> old_b.paths@[i] != p
        &&& p.len() >= 2 ==> 0 <= parent < old_b.nodes@.len() && old_b.paths@[parent] == p.drop_last()
        &&& new_b.n == old_b.n
        &&& new_b.paths@ == old_b.paths@.push(p)
        &&& new_b.nodes@.len() == old_b.nodes@.len() + 1
        &&& old_b.nodes@.len() < usize::MAX
        &&& new_b.nodes@.last().item == p.last()
        &&& new_b.nodes@.last().occurrences == 1
        &&& char_positions(new_b.nodes@.last().items).is_empty()
        &&& forall|i: int| 0 <= i < old_b.nodes@.len() ==> #[trigger] new_b.nodes@[i].item == old_b.nodes@[i].item
            && new_b.nodes@[i].occurrences == old_b.nodes@[i].occurrences
        &&& p.len() == 1 ==> char_positions(new_b.roots) == char_positions(old_b.roots).insert(
            p[0],
            old_b.nodes@.len() as usize,
        )
        &&& p.len() == 1 ==> forall|i: int| 0 <= i < old_b.nodes@.len() ==> #[trigger] new_b.child(i) == old_b.child(i)
        &&& p.len() >= 2 ==> new_b.roots == old_b.roots
        &&& p.len() >= 2 ==> forall|i: int|
            0 <= i < old_b.nodes@.len() && i != parent ==> #[trigger] new_b.child(i) == old_b.child(i)
        &&& p.len() >= 2 ==> new_b.child(parent) == old_b.child(parent).insert(p.last(), old_b.nodes@.len() as usize)
    }

    /// A new node keeps the paths distinct and prefix-closed.
    #[verifier::rlimit(40)]
    proof fn lemma_new_paths(old_b: TrieBuilder, new_b: TrieBuilder, p: Seq<char>, parent: int)
        requires
            TrieBuilder::adds_node(old_b, new_b, p, parent),
        ensures
            new_b.paths_ok(),
    {
        reveal(TrieBuilder::links_ok);
        reveal(TrieBuilder::paths_ok);
        let paths = new_b.paths@;
        let len = new_b.nodes@.len();
        let old_len = old_b.nodes@.len();
        assert forall|i: int| #![trigger paths[i]] 0 <= i < len implies 1 <= paths[i].len() <= new_b.n
            && paths[i].last() == new_b.nodes@[i].item by {
            if i < old_len {
                assert(paths[i] == old_b.paths@[i]);
            }
        }
        assert forall|i: int, j: int| 0 <= i < j < len implies #[trigger] paths[i] != #[trigger] paths[j] by {
            assert(paths[i] == old_b.paths@[i]);
            if j < old_len {
                assert(paths[j] == old_b.paths@[j]);
            }
        }
        assert forall|j: int| 0 <= j < len && #[trigger] paths[j].len() >= 2 implies exists|i: int|
            0 <= i < len && paths[i] == paths[j].drop_last() by {
            if j == old_len {
                assert(paths[parent] == old_b.paths@[parent]);
            } else {
                assert(paths[j] == old_b.paths@[j]);
                let k = choose|k: int| 0 <= k < old_len && old_b.paths@[k] == old_b.paths@[j].drop_last();
                assert(paths[k] == old_b.paths@[k]);
            }
        }
    }

    /// A new node keeps the roots linked.
    #[verifier::rlimit(40)]
    proof fn lemma_new_roots(old_b: TrieBuilder, new_b: TrieBuilder, p: Seq<char>, parent: int)
        requires
            TrieBuilder::adds_node(old_b, new_b, p, parent),
        ensures
            new_b.roots_ok(),
    {
        reveal(TrieBuilder::links_ok);
        reveal(TrieBuilder::paths_ok);
        reveal(TrieBuilder::roots_ok);
        let paths = new_b.paths@;
        let len = new_b.nodes@.len();
        let old_len = old_b.nodes@.len();
        assert forall|c: char| #[trigger] char_positions(new_b.roots).contains_key(c) implies {
            &&& char_positions(new_b.roots)[c] < len
            &&& paths[char_positions(new_b.roots)[c] as int] == seq![c]
        } by {
            assert(old_b.paths@.len() == old_len);
            if p.len() == 1 && c == p[0] {
                assert(p =~= seq![c]);
                assert(char_positions(new_b.roots)[c] == old_len);
                assert(paths[old_len as int] == p);
            } else {
                assert(char_positions(old_b.roots).contains_key(c));
                let k = char_positions(old_b.roots)[c] as int;
                assert(char_positions(new_b.roots)[c] == k);
                assert(k < old_len);
                assert(paths[k] == old_b.paths@[k]);
                assert(old_b.paths@[k] == seq![c]);
            }
        }
        assert forall|i: int| 0 <= i < len && #[trigger] paths[i].len() == 1 implies char_positions(
            new_b.roots,
        ).contains_key(paths[i][0]) by {
            if i < old_len {
                assert(paths[i] == old_b.paths@[i]);
            }
        }
    }

    /// A new node keeps each node's children linked.
    #[verifier::rlimit(40)]
    proof fn lemma_new_children(old_b: TrieBuilder, new_b: TrieBuilder, p: Seq<char>, parent: int)
        requires
            TrieBuilder::adds_node(old_b, new_b, p, parent),
        ensures
            new_b.children_ok(),
    {
        reveal(TrieBuilder::links_ok);
        reveal(TrieBuilder::paths_ok);
        reveal(TrieBuilder::children_ok);
        let paths = new_b.paths@;
        let len = new_b.nodes@.len();
        let old_len = old_b.nodes@.len();
        assert forall|i: int, c: char| 0 <= i < len && #[trigger] new_b.child(i).contains_key(c) implies {
            &&& i < new_b.child(i)[c] < len
            &&& paths[new_b.child(i)[c] as int] == paths[i].push(c)
        } by {
            if i < old_len {
                assert(paths[i] == old_b.paths@[i]);
                if p.len() >= 2 && i == parent && c == p.last() {
                    assert(p =~= p.drop_last().push(c));
                } else {
                    assert(old_b.child(i).contains_key(c));
                    let k = old_b.child(i)[c] as int;
                    assert(new_b.child(i)[c] == k);
                    assert(paths[k] == old_b.paths@[k]);
                }
            }
        }
        assert forall|i: int, j: int|
            0 <= i < len && 0 <= j < len && #[trigger] paths[j].len() >= 2 && paths[j].drop_last()
                == #[trigger] paths[i] implies new_b.child(i).contains_key(paths[j].last()) by {
            if i == old_len {
                assert(j < old_len);
                assert(paths[j] == old_b.paths@[j]);
                let k = choose|k: int| 0 <= k < old_len && old_b.paths@[k] == old_b.paths@[j].drop_last();
                assert(old_b.paths@[k] == p);
            } else if j == old_len {
                assert(paths[i] == old_b.paths@[i]);
                if i != parent {
                    assert(old_b.paths@[i] != old_b.paths@[parent]);
                }
            } else {
                assert(paths[i] == old_b.paths@[i]);
                assert(paths[j] == old_b.paths@[j]);
                assert(old_b.child(i).contains_key(old_b.paths@[j].last()));
            }
        }
    }

    /// A new node keeps the paths distinct and linked.
    proof fn lemma_new_links(old_b: TrieBuilder, new_b: TrieBuilder, p: Seq<char>, parent: int)
        requires
            TrieBuilder::adds_node(old_b, new_b, p, parent),
        ensures
            new_b.links_ok(),
    {
        TrieBuilder::lemma_new_paths(old_b, new_b, p, parent);
        TrieBuilder::lemma_new_roots(old_b, new_b, p, parent);
        TrieBuilder::lemma_new_children(old_b, new_b, p, parent);
        reveal(TrieBuilder::links_ok);
    }

    /// Counting a path that has no node yet: the new node's count is one.
    proof fn lemma_new_counts(
        old_b: TrieBuilder,
        new_b: TrieBuilder,
        f: spec_fn(Seq<char>) -> nat,
        f2: spec_fn(Seq<char>) -> nat,
        p: Seq<char>,
        parent: int,
    )
        requires
            old_b.inv(f),
            TrieBuilder::adds_node(old_b, new_b, p, parent),
            forall|s: Seq<char>| 1 <= s.len() <= old_b.n ==> #[trigger] f2(s) == f(s) + one_if_same(s, p),
        ensures
            new_b.inv(f2),
    {
        TrieBuilder::lemma_new_links(old_b, new_b, p, parent);
        reveal(TrieBuilder::counts_ok);
        reveal(TrieBuilder::links_ok);
        reveal(TrieBuilder::paths_ok);
        reveal(TrieBuilder::roots_ok);
        reveal(TrieBuilder::children_ok);
        let paths = new_b.paths@;
        let len = new_b.nodes@.len();
        let old_len = old_b.nodes@.len();
        assert(f(p) == 0) by {
            if f(p) > 0 {
                let i = choose|i: int| 0 <= i < old_len && old_b.paths@[i] == p;
            }
        }
        assert forall|i: int| #![trigger paths[i]] 0 <= i < len implies new_b.nodes@[i].occurrences
            == f2(paths[i]) && f2(paths[i]) > 0 by {
            if i < old_len {
                assert(paths[i] == old_b.paths@[i]);
                assert(1 <= old_b.paths@[i].len() <= old_b.n);
                assert(old_b.paths@[i] != p);
            }
        }
        assert forall|s: Seq<char>| 1 <= s.len() <= new_b.n && #[trigger] f2(s) > 0 implies exists|i: int|
            0 <= i < len && paths[i] == s by {
            if s == p {
                assert(paths[old_len as int] == p);
            } else {
                assert(f(s) > 0);
                let k = choose|k: int| 0 <= k < old_len && old_b.paths@[k] == s;
                assert(paths[k] == old_b.paths@[k]);
            }
        }
    }
}

/// One when `s` is `p`.
pub open spec fn one_if_same(s: Seq<char>, p: Seq<char>) -> nat {
    if s == p {
        1
    } else {
        0
    }
}

/// One more for the paths of 1 to `l` grams that start at `q` in `g`.
pub open spec fn started_within(g: Seq<char>, q: int, l: int, s: Seq<char>) -> nat {
    if 1 <= s.len() <= l && starts_at(g, q, s) {
        1
    } else {
        0
    }
}

impl TrieBuilder {
    /// Counts one occurrence of `p`, the path of `cur` followed by `c` (or
    /// just `c` when `first`), and gives the position of its node.
    fn count_path(
        &mut self,
        first: bool,
        cur: usize,
        c: char,
        Ghost(p): Ghost<Seq<char>>,
        Ghost(f): Ghost<spec_fn(Seq<char>) -> nat>,
        Ghost(f2): Ghost<spec_fn(Seq<char>) -> nat>,
    ) -> (idx: usize)
        requires
            old(self).inv(f),
            1 <= p.len() <= old(self).n,
            p.last() == c,
            first <==> p.len() == 1,
            !first ==> cur < old(self).nodes@.len() && old(self).paths@[cur as int] == p.drop_last(),
            f(p) < u32::MAX,
            forall|s: Seq<char>| 1 <= s.len() <= old(self).n ==> #[trigger] f2(s) == f(s) + one_if_same(s, p),
        ensures
            final(self).inv(f2),
            final(self).n == old(self).n,
            idx < final(self).nodes@.len(),
            final(self).paths@[idx as int] == p,
    {
        let ghost old_b = *self;
        proof {
            self.lemma_lookup(f, first, cur as int, c, p);
        }
        let found = if first {
            char_positions_get(&self.roots, c)
        } else {
            char_positions_get(&self.nodes[cur].items, c)
        };
        match found {
            Some(idx) => {
                proof {
                    self.lemma_count_at(f, idx as int);
                }
                self.nodes[idx].occurrences = self.nodes[idx].occurrences + 1;
                proof {
                    TrieBuilder::lemma_counted_again(old_b, *self, f, f2, p, idx as int);
                }
                idx
            },
            None => {
                let idx = self.nodes.len();
                self.nodes.push(MutableGramNode { item: c, occurrences: 1, items: char_positions_new() });
                assert(self.nodes@.len() == idx + 1 && self.nodes.len() <= usize::MAX);
                if first {
                    char_positions_insert(&mut self.roots, c, idx);
                } else {
                    char_positions_insert(&mut self.nodes[cur].items, c, idx);
                }
                self.paths = Ghost(self.paths@.push(p));
                proof {
                    assert forall|i: int| 0 <= i < old_b.nodes@.len() implies #[trigger] self.nodes@[i].item
                        == old_b.nodes@[i].item && self.nodes@[i].occurrences == old_b.nodes@[i].occurrences
                        && (i != cur || first ==> self.child(i) == old_b.child(i)) by {
                    }
                    reveal(TrieBuilder::links_ok);
        reveal(TrieBuilder::paths_ok);
        reveal(TrieBuilder::roots_ok);
        reveal(TrieBuilder::children_ok);
                    assert(TrieBuilder::adds_node(old_b, *self, p, cur as int));
                    TrieBuilder::lemma_new_counts(old_b, *self, f, f2, p, cur as int);
                }
                idx
            },
        }
    }

    /// Counts once each path of 1 to `n` grams that starts at position `q`
    /// of `g`.
    fn add_start(&mut self, g: &Vec<char>, q: usize, Ghost(base): Ghost<spec_fn(Seq<char>) -> nat>)
        requires
            old(self).inv(base),
            old(self).n >= 1,
            q < g@.len(),
            forall|s: Seq<char>| 1 <= s.len() <= old(self).n ==> #[trigger] base(s) < u32::MAX,
        ensures
            final(self).n == old(self).n,
            final(self).inv(|s: Seq<char>| base(s) + started_within(g@, q as int, final(self).n as int, s)),
    {
        let ghost n = self.n;
        let w = if self.n < g.len() - q {
            self.n
        } else {
            g.len() - q
        };
        let mut cur: usize = 0;
        let mut l: usize = 0;
        proof {
            self.lemma_inv_same_counts(base, |s: Seq<char>| base(s) + started_within(g@, q as int, 0, s));
        }
        while l < w
            invariant
                self.n == n,
                n >= 1,
                w <= n,
                q + w <= g.len(),
                w == n || q + w == g@.len(),
                l <= w,
                self.inv(|s: Seq<char>| base(s) + started_within(g@, q as int, l as int, s)),
                l > 0 ==> cur < self.nodes@.len() && self.paths@[cur as int] == g@.subrange(
                    q as int,
                    q + l,
                ),
                forall|s: Seq<char>| 1 <= s.len() <= n ==> #[trigger] base(s) < u32::MAX,
            decreases w - l,
        {
            let ghost f = |s: Seq<char>| base(s) + started_within(g@, q as int, l as int, s);
            let ghost f2 = |s: Seq<char>| base(s) + started_within(g@, q as int, l + 1, s);
            let ghost p = g@.subrange(q as int, q + l + 1);
            proof {
                assert forall|s: Seq<char>| 1 <= s.len() <= n implies #[trigger] f2(s) == f(s)
                    + one_if_same(s, p) by {
                    if s == p {
                        assert(starts_at(g@, q as int, s));
                    }
                    if s.len() == l + 1 && starts_at(g@, q as int, s) {
                        assert(s == p);
                    }
                }
                assert(p.drop_last() =~= g@.subrange(q as int, q + l));
                assert(f(p) == base(p));
            }
            assert(q + l < g@.len());
            let c = g[q + l];
            cur = self.count_path(l == 0, cur, c, Ghost(p), Ghost(f), Ghost(f2));
            l = l + 1;
        }
        proof {
            self.lemma_inv_same_counts(
                |s: Seq<char>| base(s) + started_within(g@, q as int, l as int, s),
                |s: Seq<char>| base(s) + started_within(g@, q as int, n as int, s),
            );
        }
    }
}

/// The texts of the feeds.
pub open spec fn feed_texts(feeds: Seq<IndexFeed>) -> Seq<Seq<char>> {
    feeds.map_values(|f: IndexFeed| f.grams@)
}

/// Counts every path of 1 to `n` grams of every text.
fn count_paths(feeds: &Vec<IndexFeed>, n: usize) -> (res: TrieBuilder)
    requires
        n >= 1,
        total_grams(feed_texts(feeds@)) <= u32::MAX,
    ensures
        res.n == n,
        res.inv(|s: Seq<char>| occurrences(feed_texts(feeds@), s)),
{
    let ghost texts = feed_texts(feeds@);
    let mut b = TrieBuilder::new(n);
    let mut fi: usize = 0;
    proof {
        assert(texts.take(0) =~= Seq::<Seq<char>>::empty());
        b.lemma_inv_same_counts(|s: Seq<char>| 0nat, |s: Seq<char>| occurrences(texts.take(0), s));
    }
    while fi < feeds.len()
        invariant
            b.n == n,
            n >= 1,
            texts == feed_texts(feeds@),
            fi <= feeds@.len(),
            total_grams(texts) <= u32::MAX,
            b.inv(|s: Seq<char>| occurrences(texts.take(fi as int), s)),
        decreases feeds@.len() - fi,
    {
        let g = &feeds[fi].grams;
        let ghost done = texts.take(fi as int);
        assert(g@ == texts[fi as int]);
        proof {
            lemma_total_grams_prefix(texts, fi + 1);
            assert(texts.take(fi + 1) =~= done.push(g@));
            lemma_total_grams_push(done, g@);
            b.lemma_inv_same_counts(
                |s: Seq<char>| occurrences(done, s),
                |s: Seq<char>| occurrences(done, s) + occurrences_in(g@, 0, s),
            );
        }
        let mut q: usize = 0;
        while q < g.len()
            invariant
                b.n == n,
                n >= 1,
                q <= g@.len(),
                total_grams(done) + g@.len() <= u32::MAX,
                b.inv(|s: Seq<char>| occurrences(done, s) + occurrences_in(g@, q as int, s)),
            decreases g@.len() - q,
        {
            let ghost base = |s: Seq<char>| occurrences(done, s) + occurrences_in(g@, q as int, s);
            proof {
                assert forall|s: Seq<char>| 1 <= s.len() <= n implies #[trigger] base(s) < u32::MAX by {
                    lemma_occurrences_bound(done, s);
                    lemma_occurrences_in_bound(g@, q as int, s);
                }
            }
            b.add_start(g, q, Ghost(base));
            proof {
                b.lemma_inv_same_counts(
                    |s: Seq<char>| base(s) + started_within(g@, q as int, n as int, s),
                    |s: Seq<char>| occurrences(done, s) + occurrences_in(g@, q + 1, s),
                );
            }
            q = q + 1;
        }
        proof {
            b.lemma_inv_same_counts(
                |s: Seq<char>| occurrences(done, s) + occurrences_in(g@, q as int, s),
                |s: Seq<char>| occurrences(texts.take(fi + 1), s),
            );
        }
        fi = fi + 1;
    }
    proof {
        assert(texts.take(fi as int) =~= texts);
    }
    b
}

/// A model node is the tree node of `path` for the texts: its gram ends
/// the path, its count is how often the path occurs (more than never), its
/// parent count is `parent`, and its children are the grams that continue
/// the path somewhere (when the path is shorter than `n`), each once, most
/// frequent first, each the tree node of its own path.
pub open spec fn node_matches(
    v: GramNodeView,
    texts: Seq<Seq<char>>,
    path: Seq<char>,
    parent: nat,
    n: nat,
) -> bool
    decreases v,
{
    &&& 1 <= path.len() <= n
    &&& v.item == path.last()
    &&& v.occurrences == occurrences(texts, path)
    &&& occurrences(texts, path) > 0
    &&& v.parent_occurrences == parent
    &&& distinct_items(v.children)
    &&& forall|c: char|
        (path.len() < n && #[trigger] occurrences(texts, path.push(c)) > 0) <==> exists|i: int|
            0 <= i < v.children.len() && v.children[i].item == c
    &&& forall|i: int, j: int|
        0 <= i < j < v.children.len() ==> #[trigger] v.children[i].occurrences
            >= #[trigger] v.children[j].occurrences
    &&& forall|i: int|
        0 <= i < v.children.len() ==> node_matches(
            #[trigger] v.children[i],
            texts,
            path.push(v.children[i].item),
            v.occurrences as nat,
            n,
        )
}

impl TrieBuilder {
    /// The children of a node are the nodes of the paths one gram longer.
    proof fn lemma_children_of(self, count: spec_fn(Seq<char>) -> nat, idx: int)
        requires
            self.inv(count),
            0 <= idx < self.nodes@.len(),
        ensures
            1 <= self.paths@[idx].len() <= self.n,
            self.paths@[idx].last() == self.nodes@[idx].item,
            self.nodes@[idx].occurrences == count(self.paths@[idx]),
            count(self.paths@[idx]) > 0,
            forall|c: char| #[trigger] self.child(idx).contains_key(c) ==> {
                let j = self.child(idx)[c] as int;
                &&& idx < j < self.nodes@.len()
                &&& self.paths@[j] == self.paths@[idx].push(c)
                &&& self.nodes@[j].occurrences == count(self.paths@[j])
                &&& self.paths@[idx].len() < self.n
            },
            forall|c: char|
                self.paths@[idx].len() < self.n && #[trigger] count(self.paths@[idx].push(c)) > 0
                    ==> self.child(idx).contains_key(c),
    {
        self.lemma_children_entries(count, idx);
        self.lemma_children_complete(count, idx);
        reveal(TrieBuilder::counts_ok);
        reveal(TrieBuilder::links_ok);
        reveal(TrieBuilder::paths_ok);
        assert(1 <= self.paths@[idx].len() <= self.n);
    }

    #[verifier::rlimit(30)]
    proof fn lemma_children_entries(self, count: spec_fn(Seq<char>) -> nat, idx: int)
        requires
            self.inv(count),
            0 <= idx < self.nodes@.len(),
        ensures
            forall|c: char| #[trigger] self.child(idx).contains_key(c) ==> {
                let j = self.child(idx)[c] as int;
                &&& idx < j < self.nodes@.len()
                &&& self.paths@[j] == self.paths@[idx].push(c)
                &&& self.nodes@[j].occurrences == count(self.paths@[j])
                &&& self.paths@[idx].len() < self.n
            },
    {
        reveal(TrieBuilder::links_ok);
        assert forall|c: char| #[trigger] self.child(idx).contains_key(c) implies {
            let j = self.child(idx)[c] as int;
            &&& idx < j < self.nodes@.len()
            &&& self.paths@[j] == self.paths@[idx].push(c)
            &&& self.nodes@[j].occurrences == count(self.paths@[j])
            &&& self.paths@[idx].len() < self.n
        } by {
            reveal(TrieBuilder::children_ok);
            let j = self.child(idx)[c] as int;
            assert(idx < j < self.nodes@.len() && self.paths@[j] == self.paths@[idx].push(c));
            self.lemma_count_at(count, j);
            reveal(TrieBuilder::paths_ok);
            assert(1 <= self.paths@[j].len() <= self.n);
        }
    }

    #[verifier::rlimit(30)]
    proof fn lemma_children_complete(self, count: spec_fn(Seq<char>) -> nat, idx: int)
        requires
            self.inv(count),
            0 <= idx < self.nodes@.len(),
        ensures
            forall|c: char|
                self.paths@[idx].len() < self.n && #[trigger] count(self.paths@[idx].push(c)) > 0
                    ==> self.child(idx).contains_key(c),
    {
        reveal(TrieBuilder::counts_ok);
        reveal(TrieBuilder::links_ok);
        reveal(TrieBuilder::paths_ok);
        reveal(TrieBuilder::children_ok);
        let paths = self.paths@;
        assert forall|c: char|
            self.paths@[idx].len() < self.n && #[trigger] count(self.paths@[idx].push(c)) > 0
                implies self.child(idx).contains_key(c) by {
            let s = paths[idx].push(c);
            let j = choose|j: int| 0 <= j < self.nodes@.len() && paths[j] == s;
            assert(paths[j].drop_last() =~= paths[idx]);
        }
    }

    /// The children of node `idx` as (gram, position) entries, most frequent
    /// first.
    fn children_by_occurrences(&self, idx: usize, Ghost(count): Ghost<spec_fn(Seq<char>) -> nat>) -> (res:
        Vec<(char, usize)>)
        requires
            self.inv(count),
            idx < self.nodes@.len(),
        ensures
            forall|k: int|
                0 <= k < res@.len() ==> #[trigger] self.child(idx as int).contains_key(res@[k].0)
                    && self.child(idx as int)[res@[k].0] == res@[k].1,
            forall|c: char| #[trigger] self.child(idx as int).contains_key(c) ==> exists|k: int|
                0 <= k < res@.len() && res@[k].0 == c,
            forall|i: int, j: int| 0 <= i < j < res@.len() ==> #[trigger] res@[i].0 != #[trigger] res@[j].0,
            forall|i: int, j: int|
                0 <= i < j < res@.len() ==> self.nodes@[#[trigger] res@[i].1 as int].occurrences
                    >= self.nodes@[#[trigger] res@[j].1 as int].occurrences,
    {
        proof {
            self.lemma_children_of(count, idx as int);
        }
        let entries = char_positions_entries(&self.nodes[idx].items);
        let mut sorted: Vec<(char, usize)> = Vec::new();
        let mut k: usize = 0;
        while k < entries.len()
            invariant
                self.inv(count),
                idx < self.nodes@.len(),
                k <= entries@.len(),
                forall|c: char| #[trigger] self.child(idx as int).contains_key(c) ==> exists|i: int|
                    0 <= i < entries@.len() && entries@[i].0 == c,
                forall|i: int| 0 <= i < entries@.len() ==> self.child(idx as int).contains_key(#[trigger] entries@[i].0)
                    && self.child(idx as int)[entries@[i].0] == entries@[i].1,
                forall|i: int, j: int| 0 <= i < j < entries@.len() ==> #[trigger] entries@[i].0 != #[trigger] entries@[j].0,
                forall|c: char| #[trigger] self.child(idx as int).contains_key(c) ==> idx < self.child(idx as int)[c] < self.nodes@.len(),
                forall|x: (char, usize)| #[trigger] sorted@.contains(x) <==> entries@.take(k as int).contains(x),
                forall|i: int, j: int| 0 <= i < j < sorted@.len() ==> #[trigger] sorted@[i].0 != #[trigger] sorted@[j].0,
                forall|i: int, j: int|
                    0 <= i < j < sorted@.len() ==> self.nodes@[#[trigger] sorted@[i].1 as int].occurrences
                        >= self.nodes@[#[trigger] sorted@[j].1 as int].occurrences,
                forall|i: int| 0 <= i < sorted@.len() ==> #[trigger] sorted@[i].1 < self.nodes@.len(),
            decreases entries@.len() - k,
        {
            let e = entries[k];
            assert(self.child(idx as int).contains_key(e.0));
            let occ = self.nodes[e.1].occurrences;
            let mut j = sorted.len();
            while j > 0 && self.nodes[sorted[j - 1].1].occurrences < occ
                invariant
                    j <= sorted@.len(),
                    forall|i: int| 0 <= i < sorted@.len() ==> #[trigger] sorted@[i].1 < self.nodes@.len(),
                    forall|m: int| j <= m < sorted@.len() ==> self.nodes@[#[trigger] sorted@[m].1 as int].occurrences < occ,
                decreases j,
            {
                j = j - 1;
            }
            let ghost before = sorted@;
            proof {
                assert forall|i: int| 0 <= i < before.len() implies #[trigger] before[i].0 != e.0 by {
                    assert(before[i] == sorted@[i]);
                    assert(sorted@.contains(before[i]));
                    assert(entries@.take(k as int).contains(before[i]));
                    let m = choose|m: int| 0 <= m < k && entries@.take(k as int)[m] == before[i];
                    assert(entries@[m] == before[i]);
                }
                if j > 0 {
                    assert(self.nodes@[before[j - 1].1 as int].occurrences >= occ);
                }
            }
            sorted.insert(j, e);
            proof {
                assert(sorted@ == before.insert(j as int, e));
                let ghost done = entries@.take(k as int);
                let ghost done2 = entries@.take(k + 1);
                assert(done2 =~= done.push(e));
                assert forall|x: (char, usize)| #[trigger] sorted@.contains(x) implies done2.contains(x) by {
                    let m = choose|m: int| 0 <= m < sorted@.len() && sorted@[m] == x;
                    if m == j {
                        assert(done2[k as int] == x);
                    } else {
                        let m2 = if m < j {
                            m
                        } else {
                            m - 1
                        };
                        assert(before[m2] == x);
                        assert(before.contains(x));
                        assert(done.contains(x));
                        let w = choose|w: int| 0 <= w < done.len() && done[w] == x;
                        assert(done2[w] == x);
                    }
                }
                assert forall|x: (char, usize)| #[trigger] done2.contains(x) implies sorted@.contains(x) by {
                    let w = choose|w: int| 0 <= w < done2.len() && done2[w] == x;
                    if w == k {
                        assert(sorted@[j as int] == x);
                    } else {
                        assert(done[w] == x);
                        assert(done.contains(x));
                        assert(before.contains(x));
                        let m = choose|m: int| 0 <= m < before.len() && before[m] == x;
                        if m < j {
                            assert(sorted@[m] == x);
                        } else {
                            assert(sorted@[m + 1] == x);
                        }
                    }
                }
                assert forall|a: int, b: int| 0 <= a < b < sorted@.len() implies #[trigger] sorted@[a].0
                    != #[trigger] sorted@[b].0 by {
                    if a < j && b > j {
                        assert(before[a].0 != before[b - 1].0);
                    } else if b < j {
                        assert(before[a].0 != before[b].0);
                    } else if a > j {
                        assert(before[a - 1].0 != before[b - 1].0);
                    } else if a == j {
                        assert(before[b - 1].0 != e.0);
                    } else {
                        assert(before[a].0 != e.0);
                    }
                }
                assert forall|a: int, b: int| 0 <= a < b < sorted@.len() implies self.nodes@[#[trigger] sorted@[a].1 as int].occurrences
                    >= self.nodes@[#[trigger] sorted@[b].1 as int].occurrences by {
                    if a < j && b > j {
                        if j > 0 && a < j - 1 {
                            assert(self.nodes@[before[a].1 as int].occurrences >= self.nodes@[before[j - 1].1 as int].occurrences);
                        }
                    } else if b < j {
                        assert(before[a] == sorted@[a] && before[b] == sorted@[b]);
                    } else if a > j {
                        assert(before[a - 1] == sorted@[a] && before[b - 1] == sorted@[b]);
                    } else if a == j {
                        assert(sorted@[b] == before[b - 1]);
                    } else {
                        if a < j - 1 {
                            assert(self.nodes@[before[a].1 as int].occurrences >= self.nodes@[before[j - 1].1 as int].occurrences);
                        }
                    }
                }
            }
            k = k + 1;
        }
        proof {
            assert(entries@.take(k as int) =~= entries@);
            assert forall|m: int| 0 <= m < sorted@.len() implies #[trigger] self.child(idx as int).contains_key(sorted@[m].0)
                && self.child(idx as int)[sorted@[m].0] == sorted@[m].1 by {
                assert(sorted@.contains(sorted@[m]));
                let i = choose|i: int| 0 <= i < entries@.len() && entries@[i] == sorted@[m];
            }
            assert forall|c: char| #[trigger] self.child(idx as int).contains_key(c) implies exists|m: int|
                0 <= m < sorted@.len() && sorted@[m].0 == c by {
                let i = choose|i: int| 0 <= i < entries@.len() && entries@[i].0 == c;
                assert(entries@.contains(entries@[i]));
                assert(sorted@.contains(entries@[i]));
                let m = choose|m: int| 0 <= m < sorted@.len() && sorted@[m] == entries@[i];
            }
        }
        sorted
    }
}

impl TrieBuilder {
    /// The finished tree node of node `idx`, whose parent's path occurs
    /// `parent` times.
    fn immutalize(&self, idx: usize, parent: u32, Ghost(texts): Ghost<Seq<Seq<char>>>) -> (res: GramNode)
        requires
            self.inv(|s: Seq<char>| occurrences(texts, s)),
            idx < self.nodes@.len(),
        ensures
            node_matches(res.deep_view(), texts, self.paths@[idx as int], parent as nat, self.n as nat),
            view_wf(res.deep_view()),
        decreases self.nodes@.len() - idx,
    {
        let ghost count = |s: Seq<char>| occurrences(texts, s);
        let ghost path = self.paths@[idx as int];
        proof {
            self.lemma_children_of(count, idx as int);
        }
        let sorted = self.children_by_occurrences(idx, Ghost(count));
        let occ = self.nodes[idx].occurrences;
        let mut children: Vec<GramNode> = Vec::new();
        let mut items = char_positions_new();
        let mut k: usize = 0;
        while k < sorted.len()
            invariant
                self.inv(count),
                count == (|s: Seq<char>| occurrences(texts, s)),
                idx < self.nodes@.len(),
                path == self.paths@[idx as int],
                occ == self.nodes@[idx as int].occurrences,
                k <= sorted@.len(),
                children@.len() == k,
                forall|m: int|
                    0 <= m < sorted@.len() ==> #[trigger] self.child(idx as int).contains_key(sorted@[m].0)
                        && self.child(idx as int)[sorted@[m].0] == sorted@[m].1,
                forall|c: char| #[trigger] self.child(idx as int).contains_key(c) ==> {
                    let j = self.child(idx as int)[c] as int;
                    &&& idx < j < self.nodes@.len()
                    &&& self.paths@[j] == path.push(c)
                    &&& self.nodes@[j].occurrences == count(self.paths@[j])
                },
                forall|m: int|
                    0 <= m < k ==> {
                        let v = node_view(#[trigger] children@[m]);
                        &&& node_matches(v, texts, path.push(sorted@[m].0), occ as nat, self.n as nat)
                        &&& view_wf(v)
                        &&& v.item == sorted@[m].0
                        &&& v.occurrences == self.nodes@[sorted@[m].1 as int].occurrences
                    },
                char_positions(items) == Map::new(
                    |c: char| exists|m: int| 0 <= m < k && sorted@[m].0 == c,
                    |c: char| (choose|m: int| 0 <= m < k && sorted@[m].0 == c) as usize,
                ),
                forall|i: int, j: int| 0 <= i < j < sorted@.len() ==> #[trigger] sorted@[i].0 != #[trigger] sorted@[j].0,
            decreases sorted@.len() - k,
        {
            let (c, child_idx) = sorted[k];
            assert(self.child(idx as int).contains_key(c));
            let child = self.immutalize(child_idx, occ, Ghost(texts));
            proof {
                self.lemma_children_of(count, child_idx as int);
            }
            children.push(child);
            char_positions_insert(&mut items, c, k);
            proof {
                assert forall|m: int| 0 <= m < k + 1 implies {
                    let v = node_view(#[trigger] children@[m]);
                    &&& node_matches(v, texts, path.push(sorted@[m].0), occ as nat, self.n as nat)
                    &&& view_wf(v)
                    &&& v.item == sorted@[m].0
                    &&& v.occurrences == self.nodes@[sorted@[m].1 as int].occurrences
                } by {
                    if m == k {
                        assert(children@[m] == child);
                    }
                }
                assert(char_positions(items) =~= Map::new(
                    |c2: char| exists|m: int| 0 <= m < k + 1 && sorted@[m].0 == c2,
                    |c2: char| (choose|m: int| 0 <= m < k + 1 && sorted@[m].0 == c2) as usize,
                )) by {
                    assert forall|c2: char| #[trigger] char_positions(items).contains_key(c2) <==> exists|m: int| 0 <= m < k + 1 && sorted@[m].0 == c2 by {
                        if c2 == c {
                            assert(sorted@[k as int].0 == c2);
                        } else if exists|m: int| 0 <= m < k + 1 && sorted@[m].0 == c2 {
                            let m = choose|m: int| 0 <= m < k + 1 && sorted@[m].0 == c2;
                            assert(m < k);
                        }
                    }
                    assert forall|c2: char| #[trigger] char_positions(items).contains_key(c2) implies char_positions(items)[c2]
                        == (choose|m: int| 0 <= m < k + 1 && sorted@[m].0 == c2) as usize by {
                        let m = choose|m: int| 0 <= m < k + 1 && sorted@[m].0 == c2;
                        if c2 == c {
                            assert(sorted@[k as int].0 == c2);
                            assert(m == k);
                        } else {
                            let m0 = choose|m: int| 0 <= m < k && sorted@[m].0 == c2;
                            assert(m == m0);
                        }
                    }
                }
            }
            k = k + 1;
        }
        let res = GramNode {
            item: self.nodes[idx].item,
            occurrences: occ,
            parent_occurrences: parent,
            by_occurances: children,
            items,
        };
        proof {
            let v = node_view(res);
            assert forall|m: int| 0 <= m < v.children.len() implies #[trigger] v.children[m] == node_view(children@[m]) by {
            }
            assert forall|a: int, b: int| 0 <= a < b < v.children.len() implies #[trigger] v.children[a].item
                != #[trigger] v.children[b].item by {
                assert(v.children[a] == node_view(children@[a]));
                assert(v.children[b] == node_view(children@[b]));
            }
            assert forall|c: char|
                (path.len() < self.n && #[trigger] occurrences(texts, path.push(c)) > 0) <==> exists|i: int|
                    0 <= i < v.children.len() && v.children[i].item == c by {
                if path.len() < self.n && occurrences(texts, path.push(c)) > 0 {
                    assert(count(path.push(c)) > 0);
                    assert(self.child(idx as int).contains_key(c));
                    let m = choose|m: int| 0 <= m < sorted@.len() && sorted@[m].0 == c;
                    assert(v.children[m] == node_view(children@[m]));
                }
                if exists|i: int| 0 <= i < v.children.len() && v.children[i].item == c {
                    let i = choose|i: int| 0 <= i < v.children.len() && v.children[i].item == c;
                    assert(v.children[i] == node_view(children@[i]));
                    assert(self.child(idx as int).contains_key(c));
                    let j = self.child(idx as int)[c] as int;
                    assert(self.paths@[j] == path.push(c));
                    self.lemma_children_of(count, j);
                }
            }
            assert forall|a: int, b: int| 0 <= a < b < v.children.len() implies #[trigger] v.children[a].occurrences
                >= #[trigger] v.children[b].occurrences by {
                assert(v.children[a] == node_view(children@[a]));
                assert(v.children[b] == node_view(children@[b]));
            }
            assert forall|i: int| 0 <= i < v.children.len() implies node_matches(
                #[trigger] v.children[i],
                texts,
                path.push(v.children[i].item),
                v.occurrences as nat,
                self.n as nat,
            ) && view_wf(v.children[i]) by {
                assert(v.children[i] == node_view(children@[i]));
            }
            assert(v.positions =~= item_positions(v.children)) by {
                assert forall|c: char| #[trigger] v.positions.contains_key(c) <==> item_positions(v.children).contains_key(c) by {
                    if exists|m: int| 0 <= m < k && sorted@[m].0 == c {
                        let m = choose|m: int| 0 <= m < k && sorted@[m].0 == c;
                        assert(v.children[m] == node_view(children@[m]));
                    }
                    if exists|i: int| 0 <= i < v.children.len() && v.children[i].item == c {
                        let i = choose|i: int| 0 <= i < v.children.len() && v.children[i].item == c;
                        assert(v.children[i] == node_view(children@[i]));
                    }
                }
                assert forall|c: char| #[trigger] v.positions.contains_key(c) implies v.positions[c]
                    == item_positions(v.children)[c] by {
                    let m = choose|m: int| 0 <= m < k && sorted@[m].0 == c;
                    let i = choose|i: int| 0 <= i < v.children.len() && v.children[i].item == c;
                    assert(v.children[i] == node_view(children@[i]));
                    assert(v.children[m] == node_view(children@[m]));
                    assert(i == m);
                }
            }
        }
        res
    }
}

/// The roots of the tree of the texts: a node for each gram that occurs,
/// each the tree node of its one-gram path below all `total_grams` grams.
pub open spec fn roots_match(roots: Map<char, GramNodeView>, texts: Seq<Seq<char>>, n: nat) -> bool {
    &&& forall|c: char| #[trigger] roots.contains_key(c) <==> occurrences(texts, seq![c]) > 0
    &&& forall|c: char|
        #[trigger] roots.contains_key(c) ==> node_matches(roots[c], texts, seq![c], total_grams(texts), n)
            && view_wf(roots[c])
}

impl TrieBuilder {
    /// The roots are the nodes of the one-gram paths that occur.
    proof fn lemma_roots_of(self, count: spec_fn(Seq<char>) -> nat)
        requires
            self.inv(count),
            self.n >= 1,
        ensures
            forall|c: char| #[trigger] char_positions(self.roots).contains_key(c) <==> count(seq![c]) > 0,
            forall|c: char| #[trigger] char_positions(self.roots).contains_key(c) ==> {
                &&& char_positions(self.roots)[c] < self.nodes@.len()
                &&& self.paths@[char_positions(self.roots)[c] as int] == seq![c]
            },
    {
        reveal(TrieBuilder::counts_ok);
        reveal(TrieBuilder::links_ok);
        reveal(TrieBuilder::paths_ok);
        reveal(TrieBuilder::roots_ok);
        assert forall|c: char| #[trigger] char_positions(self.roots).contains_key(c) <==> count(seq![c]) > 0 by {
            if char_positions(self.roots).contains_key(c) {
                let k = char_positions(self.roots)[c] as int;
                assert(count(self.paths@[k]) > 0);
            }
            if count(seq![c]) > 0 {
                assert(seq![c].len() == 1);
                let k = choose|k: int| 0 <= k < self.nodes@.len() && self.paths@[k] == seq![c];
                assert(self.paths@[k].len() == 1);
                assert(self.paths@[k][0] == c);
            }
        }
    }
}

/// The number of grams of all feeds.
fn count_grams(feeds: &Vec<IndexFeed>) -> (res: u32)
    requires
        total_grams(feed_texts(feeds@)) <= u32::MAX,
    ensures
        res == total_grams(feed_texts(feeds@)),
{
    let ghost texts = feed_texts(feeds@);
    let mut total: u32 = 0;
    let mut i: usize = 0;
    while i < feeds.len()
        invariant
            texts == feed_texts(feeds@),
            i <= feeds@.len(),
            total_grams(texts) <= u32::MAX,
            total == total_grams(texts.take(i as int)),
        decreases feeds@.len() - i,
    {
        proof {
            assert(texts.take(i + 1) =~= texts.take(i as int).push(texts[i as int]));
            lemma_total_grams_push(texts.take(i as int), texts[i as int]);
            lemma_total_grams_prefix(texts, i + 1);
        }
        total = total + feeds[i].grams.len() as u32;
        i = i + 1;
    }
    assert(texts.take(i as int) =~= texts);
    total
}

/// The tree of the paths of 1 to `n` grams of the texts: each path that
/// occurs has a node with its count, children most frequent first.
pub fn build_tree(feeds: &Vec<IndexFeed>, n: usize) -> (res: AHashMap<char, GramNode>)
    requires
        n >= 1,
        total_grams(feed_texts(feeds@)) <= u32::MAX,
    ensures
        roots_match(gram_roots(res), feed_texts(feeds@), n as nat),
{
    let ghost texts = feed_texts(feeds@);
    let ghost count = |s: Seq<char>| occurrences(texts, s);
    let trie = count_paths(feeds, n);
    let total = count_grams(feeds);
    proof {
        trie.lemma_roots_of(count);
    }
    let entries = char_positions_entries(&trie.roots);
    let mut roots = gram_roots_new();
    let mut i: usize = 0;
    while i < entries.len()
        invariant
            trie.inv(count),
            trie.n == n,
            n >= 1,
            count == (|s: Seq<char>| occurrences(texts, s)),
            total == total_grams(texts),
            i <= entries@.len(),
            forall|c: char| #[trigger] char_positions(trie.roots).contains_key(c) ==> exists|k: int|
                0 <= k < entries@.len() && entries@[k].0 == c,
            forall|k: int| 0 <= k < entries@.len() ==> char_positions(trie.roots).contains_key(#[trigger] entries@[k].0)
                && char_positions(trie.roots)[entries@[k].0] == entries@[k].1,
            forall|c: char| #[trigger] char_positions(trie.roots).contains_key(c) <==> count(seq![c]) > 0,
            forall|c: char| #[trigger] char_positions(trie.roots).contains_key(c) ==> {
                &&& char_positions(trie.roots)[c] < trie.nodes@.len()
                &&& trie.paths@[char_positions(trie.roots)[c] as int] == seq![c]
            },
            forall|c: char| #[trigger] gram_roots(roots).contains_key(c) <==> exists|k: int|
                0 <= k < i && entries@[k].0 == c,
            forall|c: char| #[trigger] gram_roots(roots).contains_key(c) ==> node_matches(
                gram_roots(roots)[c],
                texts,
                seq![c],
                total_grams(texts),
                n as nat,
            ) && view_wf(gram_roots(roots)[c]),
        decreases entries@.len() - i,
    {
        let (c, idx) = entries[i];
        assert(char_positions(trie.roots).contains_key(c));
        let node = trie.immutalize(idx, total, Ghost(texts));
        gram_roots_insert(&mut roots, c, node);
        proof {
            assert forall|c2: char| #[trigger] gram_roots(roots).contains_key(c2) <==> exists|k: int|
                0 <= k < i + 1 && entries@[k].0 == c2 by {
                if c2 == c {
                    assert(entries@[i as int].0 == c2);
                } else if exists|k: int| 0 <= k < i + 1 && entries@[k].0 == c2 {
                    let k = choose|k: int| 0 <= k < i + 1 && entries@[k].0 == c2;
                    assert(k < i);
                }
            }
        }
        i = i + 1;
    }
    proof {
        assert forall|c: char| #[trigger] gram_roots(roots).contains_key(c) <==> occurrences(texts, seq![c]) > 0 by {
            if occurrences(texts, seq![c]) > 0 {
                assert(count(seq![c]) > 0);
                assert(char_positions(trie.roots).contains_key(c));
                let k = choose|k: int| 0 <= k < entries@.len() && entries@[k].0 == c;
            }
            if gram_roots(roots).contains_key(c) {
                let k = choose|k: int| 0 <= k < i && entries@[k].0 == c;
                assert(char_positions(trie.roots).contains_key(entries@[k].0));
            }
        }
    }
    roots
}

} // verus!
