use vstd::prelude::*;

use ahash::AHashMap;

use super::counting::{occurrences, occurrences_in, total_grams};
use super::feed::IndexFeed;
use super::hits::{collect_hits, data_matches, feed_views, hits, hits_in};
use super::indexer::{build_tree, feed_texts, node_matches, roots_match};
use super::node::{distinct_items, view_wf, GramNode, GramNodeView};
use crate::data::container::ProductContainer;
use crate::data::product::Product;
use crate::hashing::{gram_data, gram_data_new, gram_roots, gram_roots_get, gram_roots_new};
use crate::sorting::{text_key, text_key_exec};

verus! {

/// The n-gram index: the tree of paths of up to `N` grams with their
/// counts, the products hit by each window of `N` grams, and the products.
pub struct GramIndex<const N: usize> {
    pub roots: AHashMap<char, GramNode>,
    pub data: AHashMap<Vec<char>, Vec<usize>>,
    pub product_container: ProductContainer,
}

/// The number of hits at which a window is dropped from the hit lists for
/// `count` products: four fifths of them (a window found in that many
/// products tells them too little apart).
pub open spec fn data_cutoff(count: nat) -> nat {
    count * 4 / 5
}

/// The key each product is ordered by in the hit lists: its id.
pub open spec fn id_keys(products: Seq<Product>) -> Seq<Seq<u32>> {
    products.map_values(|p: Product| text_key(p.id@))
}

/// The grams of a tree path that always goes on with the most frequent
/// child.
pub open spec fn popular_chain(v: GramNodeView) -> Seq<char>
    decreases v,
{
    if v.children.len() == 0 {
        seq![v.item]
    } else {
        seq![v.item] + popular_chain(v.children[0])
    }
}

/// Children come most frequent first, at every node of the tree.
pub open spec fn by_frequency(v: GramNodeView) -> bool
    decreases v,
{
    &&& forall|i: int, j: int|
        0 <= i < j < v.children.len() ==> #[trigger] v.children[i].occurrences >= #[trigger] v.children[j].occurrences
    &&& forall|i: int| 0 <= i < v.children.len() ==> by_frequency(#[trigger] v.children[i])
}

/// The node reached from `v` along `path`: the path starts with the gram of
/// `v`, and each later gram is that of a child of the node before it.
pub open spec fn node_along(v: GramNodeView, path: Seq<char>) -> Option<GramNodeView>
    decreases path.len(),
{
    if path.len() == 0 || path[0] != v.item {
        None
    } else if path.len() == 1 {
        Some(v)
    } else if exists|i: int| 0 <= i < v.children.len() && v.children[i].item == path[1] {
        let i = choose|i: int| 0 <= i < v.children.len() && v.children[i].item == path[1];
        node_along(v.children[i], path.drop_first())
    } else {
        None
    }
}

/// Gram `i` of `path` goes on from the node that the first `i` grams lead
/// to, to a child seen at least as often as any other child of that node.
pub open spec fn most_frequent_step(v: GramNodeView, path: Seq<char>, i: int) -> bool {
    &&& node_along(v, path.take(i)) matches Some(n)
    &&& node_along(v, path.take(i + 1)) matches Some(m)
    &&& forall|d: int| 0 <= d < n.children.len() ==> #[trigger] n.children[d].occurrences <= m.occurrences
}

/// The most popular chain of a node whose children come most frequent
/// first starts with the node's gram, goes on at each step with a most
/// frequent continuation of the path so far, and stops only at a node
/// without children.
pub proof fn lemma_popular_chain_most_frequent(v: GramNodeView)
    requires
        view_wf(v),
        by_frequency(v),
    ensures
        popular_chain(v).len() >= 1,
        popular_chain(v)[0] == v.item,
        forall|i: int| 1 <= i < popular_chain(v).len() ==> #[trigger] most_frequent_step(v, popular_chain(v), i),
        node_along(v, popular_chain(v)) matches Some(last) && last.children.len() == 0,
    decreases v,
{
    let chain = popular_chain(v);
    if v.children.len() == 0 {
        assert(chain =~= seq![v.item]);
    } else {
        let c0 = v.children[0];
        assert(view_wf(c0));
        assert(by_frequency(c0));
        lemma_popular_chain_most_frequent(c0);
        let sub = popular_chain(c0);
        assert(chain == seq![v.item] + sub);
        assert(chain[1] == c0.item);
        assert(distinct_items(v.children));
        // Along a path through the first child, the first child is the one taken.
        assert forall|p: Seq<char>| p.len() >= 2 && p[0] == v.item && p[1] == c0.item implies #[trigger] node_along(v, p)
            == node_along(c0, p.drop_first()) by {
            assert(v.children[0].item == p[1]);
            let i = choose|i: int| 0 <= i < v.children.len() && v.children[i].item == p[1];
            if i != 0 {
                assert(v.children[0].item != v.children[i].item);
            }
        }
        assert(chain.drop_first() =~= sub);
        assert(node_along(v, chain) == node_along(c0, sub));
        assert forall|i: int| 1 <= i < chain.len() implies #[trigger] most_frequent_step(v, chain, i) by {
            if i == 1 {
                assert(chain.take(1) =~= seq![v.item]);
                assert(node_along(v, chain.take(1)) == Some(v));
                let p2 = chain.take(2);
                assert(p2[0] == v.item && p2[1] == c0.item);
                assert(p2.drop_first() =~= seq![c0.item]);
                assert(node_along(c0, seq![c0.item]) == Some(c0));
                assert(node_along(v, p2) == Some(c0));
                assert forall|d: int| 0 <= d < v.children.len() implies #[trigger] v.children[d].occurrences
                    <= c0.occurrences by {
                    if d > 0 {
                        assert(v.children[0].occurrences >= v.children[d].occurrences);
                    }
                }
            } else {
                let p = chain.take(i);
                let q = chain.take(i + 1);
                assert(p[0] == v.item && p[1] == c0.item);
                assert(q[0] == v.item && q[1] == c0.item);
                assert(p.drop_first() =~= sub.take(i - 1));
                assert(q.drop_first() =~= sub.take(i));
                assert(node_along(v, p) == node_along(c0, sub.take(i - 1)));
                assert(node_along(v, q) == node_along(c0, sub.take(i)));
                assert(most_frequent_step(c0, sub, i - 1));
            }
        }
    }
}

/// A tree node that counts the texts has its children most frequent first,
/// all the way down.
pub proof fn lemma_matching_node_by_frequency(
    v: GramNodeView,
    texts: Seq<Seq<char>>,
    path: Seq<char>,
    parent: nat,
    n: nat,
)
    requires
        node_matches(v, texts, path, parent, n),
    ensures
        by_frequency(v),
    decreases v,
{
    assert forall|i: int| 0 <= i < v.children.len() implies by_frequency(#[trigger] v.children[i]) by {
        lemma_matching_node_by_frequency(v.children[i], texts, path.push(v.children[i].item), v.occurrences as nat, n);
    }
}

/// In the tree of an index built over `texts`, the most popular chain of a
/// gram starts with that gram, goes on at each step with a most frequent
/// continuation of the path so far, and stops only where the path has no
/// continuation in the tree.
pub proof fn lemma_most_popular_chain_of_index(roots: Map<char, GramNodeView>, texts: Seq<Seq<char>>, n: nat, c: char)
    requires
        roots_match(roots, texts, n),
        roots.contains_key(c),
    ensures
        popular_chain(roots[c]).len() >= 1,
        popular_chain(roots[c])[0] == c,
        forall|i: int|
            1 <= i < popular_chain(roots[c]).len() ==> #[trigger] most_frequent_step(roots[c], popular_chain(roots[c]), i),
        node_along(roots[c], popular_chain(roots[c])) matches Some(last) && last.children.len() == 0,
{
    let v = roots[c];
    assert(node_matches(v, texts, seq![c], total_grams(texts), n) && view_wf(v));
    lemma_matching_node_by_frequency(v, texts, seq![c], total_grams(texts), n);
    lemma_popular_chain_most_frequent(v);
}

/// Appends the most popular chain from `node`.
fn push_chain(node: &GramNode, out: &mut Vec<char>)
    ensures
        final(out)@ == old(out)@ + popular_chain(node.deep_view()),
    decreases node,
{
    out.push(node.item);
    if node.by_occurances.len() > 0 {
        let ghost before = out@;
        assert(node.deep_view().children[0] == node.by_occurances@[0].deep_view());
        push_chain(&node.by_occurances[0], out);
        assert(out@ =~= old(out)@ + popular_chain(node.deep_view()));
    } else {
        assert(out@ =~= old(out)@ + popular_chain(node.deep_view()));
    }
}

/// Four fifths of `count`, rounded down.
fn cutoff_for(count: usize) -> (res: usize)
    ensures
        res == data_cutoff(count as nat),
{
    let q = count / 5;
    let r = count % 5;
    let res = q * 4 + r * 4 / 5;
    assert(res == count * 4 / 5) by (nonlinear_arith)
        requires
            count == 5 * q + r,
            0 <= r < 5,
            res == q * 4 + r * 4 / 5,
    ;
    res
}

/// Feeds without a single gram make no counts and no hits.
proof fn lemma_no_grams_no_counts(feeds: Seq<IndexFeed>)
    requires
        total_grams(feed_texts(feeds)) == 0,
    ensures
        forall|s: Seq<char>| #[trigger] occurrences(feed_texts(feeds), s) == 0,
        forall|w: Seq<char>, n: nat| (#[trigger] hits(feed_views(feeds), w, n)).len() == 0,
    decreases feeds.len(),
{
    if feeds.len() > 0 {
        let init = feeds.drop_last();
        assert(feed_texts(init) =~= feed_texts(feeds).drop_last());
        assert(feed_views(init) =~= feed_views(feeds).drop_last());
        assert(feed_texts(feeds).last().len() == 0);
        lemma_no_grams_no_counts(init);
        assert forall|s: Seq<char>| #[trigger] occurrences(feed_texts(feeds), s) == 0 by {
            assert(occurrences(feed_texts(init), s) == 0);
            assert(occurrences_in(feed_texts(feeds).last(), 0, s) == 0);
        }
        assert forall|w: Seq<char>, n: nat| (#[trigger] hits(feed_views(feeds), w, n)).len() == 0 by {
            assert(feed_views(feeds).last().0 == feed_texts(feeds).last());
            assert(hits_in(feed_views(feeds).last().0, 0, w, n, feed_views(feeds).last().1).len() == 0);
            assert(hits(feed_views(init), w, n).len() == 0);
        }
    }
}

impl<const N: usize> GramIndex<N> {
    /// The tree nodes of the first grams.
    pub closed spec fn root_nodes(&self) -> Map<char, GramNodeView> {
        gram_roots(self.roots)
    }

    /// The hit list of each window.
    pub closed spec fn hit_lists(&self) -> Map<Seq<char>, Seq<usize>> {
        gram_data(self.data)
    }

    /// Indexes the feeds: counts every path of 1 to `N` grams of each text
    /// into the tree, and lists for each window of `N` grams (padded in front)
    /// the product of each position that ends it, dropping windows hit four
    /// fifths as often as there are products, ordered by product id.
    pub fn index_from(source_iter: Vec<IndexFeed>, product_container: ProductContainer) -> (res: GramIndex<N>)
        requires
            N >= 1 || total_grams(feed_texts(source_iter@)) == 0,
            total_grams(feed_texts(source_iter@)) <= u32::MAX,
            forall|i: int|
                0 <= i < source_iter@.len() ==> #[trigger] source_iter@[i].data
                    < product_container.products@.len(),
        ensures
            roots_match(res.root_nodes(), feed_texts(source_iter@), N as nat),
            data_matches(
                res.hit_lists(),
                feed_views(source_iter@),
                N as nat,
                data_cutoff(product_container.products@.len()),
                id_keys(product_container.products@),
            ),
            res.product_container == product_container,
    {
        if N == 0 {
            proof {
                lemma_no_grams_no_counts(source_iter@);
            }
            return GramIndex { roots: gram_roots_new(), data: gram_data_new(), product_container };
        }
        let roots = build_tree(&source_iter, N);
        let mut keys: Vec<Vec<u32>> = Vec::new();
        let n = product_container.products.len();
        let mut i: usize = 0;
        while i < n
            invariant
                n == product_container.products@.len(),
                i <= n,
                keys.deep_view() == id_keys(product_container.products@).take(i as int),
            decreases n - i,
        {
            let key = text_key_exec(product_container.products[i].id.as_str());
            assert(key.deep_view() =~= key@);
            let ghost before = keys.deep_view();
            keys.push(key);
            assert(keys.deep_view() =~= before.push(key@));
            i = i + 1;
            assert(id_keys(product_container.products@).take(i as int) =~= id_keys(
                product_container.products@,
            ).take(i - 1).push(text_key(product_container.products@[i - 1].id@)));
            assert(keys.deep_view() =~= id_keys(product_container.products@).take(i as int));
        }
        assert(id_keys(product_container.products@).take(n as int) =~= id_keys(product_container.products@));
        let maximum = cutoff_for(n);
        let data = collect_hits(&source_iter, N, &keys, maximum);
        GramIndex { roots, data, product_container }
    }

    /// The tree node of the first gram `gram`, if the texts hold it.
    pub fn root(&self, gram: char) -> (res: Option<&GramNode>)
        ensures
            res is Some <==> self.root_nodes().contains_key(gram),
            res matches Some(node) ==> node.deep_view() == self.root_nodes()[gram],
    {
        gram_roots_get(&self.roots, gram)
    }

    /// The grams that follow `input` most often, one after the other: from
    /// its tree node, always on to the most frequent child.
    pub fn most_popular_chain(&self, input: char) -> (res: Vec<char>)
        ensures
            self.root_nodes().contains_key(input) ==> res@ == popular_chain(self.root_nodes()[input]),
            !self.root_nodes().contains_key(input) ==> res@.len() == 0,
            self.root_nodes().contains_key(input) && view_wf(self.root_nodes()[input]) && by_frequency(
                self.root_nodes()[input],
            ) ==> {
                &&& res@.len() >= 1
                &&& res@[0] == self.root_nodes()[input].item
                &&& forall|i: int| 1 <= i < res@.len() ==> #[trigger] most_frequent_step(self.root_nodes()[input], res@, i)
                &&& node_along(self.root_nodes()[input], res@) matches Some(last) && last.children.len() == 0
            },
    {
        let mut out: Vec<char> = Vec::new();
        match gram_roots_get(&self.roots, input) {
            Some(node) => {
                push_chain(node, &mut out);
                assert(out@ =~= popular_chain(self.root_nodes()[input]));
                proof {
                    if view_wf(self.root_nodes()[input]) && by_frequency(self.root_nodes()[input]) {
                        lemma_popular_chain_most_frequent(self.root_nodes()[input]);
                    }
                }
            },
            None => {},
        }
        out
    }
}

} // verus!
