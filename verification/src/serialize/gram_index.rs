//! The binary form of the n-gram index: its products, its tree roots and
//! its hit lists.
use vstd::prelude::*;

use crate::data::container::{parse_container, spec_serialize_container, ContainerView, ProductContainer};
use crate::data::features::FeatureView;
use crate::data::product::{
    lemma_positions_round_trip, positions_round_trip, spec_deserialize_positions, spec_serialize_positions, Product,
};
use crate::hashing::{
    gram_data, gram_data_entries, gram_data_insert, gram_data_new, gram_roots, gram_roots_entries,
    gram_roots_insert, gram_roots_new,
};
use crate::ngram::index::GramIndex;
use crate::ngram::node::GramNodeView;
use crate::serialize::nodes::{deserialize_node, parse_node, serialize_node, spec_serialize_node};
use crate::serialize::primitives::encode_varint;
use crate::data::container::{container_matches, container_round_trips, lemma_container_round_trip};
use crate::ngram::node::view_wf;
use crate::serialize::nodes::{lemma_node_round_trip, node_round_trips};
use crate::serialize::primitives::{lemma_char_round_trip, lemma_usize_round_trip};
use crate::serialize::vectors::all_round_trip;
use crate::serialize::RoundTrip;
use crate::serialize::vectors::{
    after_prefix, lemma_after_prefix_twice, lemma_pairs_to_map_contains, lists_map, pairs_to_map,
};
use crate::serialize::{Decoding, Deserializable, Serializable};

verus! {

/// The model of an n-gram index: tree roots, hit lists and products.
pub struct GramIndexView {
    pub roots: Map<char, GramNodeView>,
    pub data: Map<Seq<char>, Seq<usize>>,
    pub container: ContainerView,
}

/// The written form of one root: its gram, then its node.
pub open spec fn spec_serialize_root(k: char, v: GramNodeView) -> Seq<u8> {
    char::spec_serialize(k) + spec_serialize_node(v)
}

/// The written forms of roots, one after the other.
pub open spec fn spec_serialize_root_list(pairs: Seq<(char, GramNodeView)>) -> Seq<u8>
    decreases pairs.len(),
{
    if pairs.len() == 0 {
        Seq::empty()
    } else {
        spec_serialize_root_list(pairs.drop_last()) + spec_serialize_root(pairs.last().0, pairs.last().1)
    }
}

/// The written form of one hit list: its window as a list of grams, then
/// the positions of its products, in the list's order.
pub open spec fn spec_serialize_hits(k: Seq<char>, v: Seq<usize>) -> Seq<u8> {
    Vec::<char>::spec_serialize(k) + spec_serialize_positions(v)
}

/// The written forms of hit lists, one after the other.
pub open spec fn spec_serialize_hit_list(pairs: Seq<(Seq<char>, Seq<usize>)>) -> Seq<u8>
    decreases pairs.len(),
{
    if pairs.len() == 0 {
        Seq::empty()
    } else {
        spec_serialize_hit_list(pairs.drop_last()) + spec_serialize_hits(pairs.last().0, pairs.last().1)
    }
}

/// The written form of an n-gram index: its products (features listed as
/// `features`), its roots listed as `roots`, its hit lists listed as
/// `hits`.
pub open spec fn spec_serialize_gram_index(
    v: GramIndexView,
    features: Seq<(Seq<char>, FeatureView)>,
    roots: Seq<(char, GramNodeView)>,
    hits: Seq<(Seq<char>, Seq<usize>)>,
) -> Seq<u8> {
    spec_serialize_container(v.container, features) + encode_varint(roots.len()) + spec_serialize_root_list(roots)
        + encode_varint(hits.len()) + spec_serialize_hit_list(hits)
}

/// What reading `count` roots gives.
#[verifier::opaque]
pub open spec fn parse_roots(input: Seq<u8>, count: nat) -> Decoding<Seq<(char, GramNodeView)>>
    decreases count,
{
    if count == 0 {
        Decoding::Complete(Seq::empty(), 0)
    } else {
        match char::spec_deserialize(input) {
            Decoding::Complete(k, a) => match parse_node(input.skip(a as int)) {
                Decoding::Complete(v, b) => after_prefix(
                    seq![(k, v)],
                    a + b,
                    parse_roots(input.skip((a + b) as int), (count - 1) as nat),
                ),
                Decoding::Rejected => Decoding::Rejected,
                Decoding::Aborts => Decoding::Aborts,
            },
            Decoding::Rejected => Decoding::Rejected,
            Decoding::Aborts => Decoding::Aborts,
        }
    }
}

/// What reading one hit list gives, for windows of `n` grams and
/// `product_count` products: a window of another length is malformed,
/// a product that does not exist rejects the input.
#[verifier::opaque]
pub open spec fn parse_hits(input: Seq<u8>, n: nat, product_count: nat) -> Decoding<(Seq<char>, Seq<usize>)> {
    match Vec::<char>::spec_deserialize(input) {
        Decoding::Complete(k, a) => if k.len() != n {
            Decoding::Aborts
        } else {
            match spec_deserialize_positions(input.skip(a as int)) {
                Decoding::Complete(ids, b) => if forall|i: int| 0 <= i < ids.len() ==> #[trigger] ids[i] < product_count {
                    Decoding::Complete((k, ids), a + b)
                } else {
                    Decoding::Rejected
                },
                Decoding::Rejected => Decoding::Rejected,
                Decoding::Aborts => Decoding::Aborts,
            }
        },
        Decoding::Rejected => Decoding::Rejected,
        Decoding::Aborts => Decoding::Aborts,
    }
}

/// What reading `count` hit lists gives.
#[verifier::opaque]
pub open spec fn parse_hit_lists(input: Seq<u8>, count: nat, n: nat, product_count: nat) -> Decoding<
    Seq<(Seq<char>, Seq<usize>)>,
>
    decreases count,
{
    if count == 0 {
        Decoding::Complete(Seq::empty(), 0)
    } else {
        match parse_hits(input, n, product_count) {
            Decoding::Complete(e, a) => after_prefix(
                seq![e],
                a,
                parse_hit_lists(input.skip(a as int), (count - 1) as nat, n, product_count),
            ),
            Decoding::Rejected => Decoding::Rejected,
            Decoding::Aborts => Decoding::Aborts,
        }
    }
}

/// What reading an n-gram index gives: its products, a count and that many
/// roots (inserted in order), a count and that many hit lists (inserted in
/// order).
#[verifier::opaque]
pub open spec fn parse_gram_index(input: Seq<u8>, n: nat) -> Decoding<GramIndexView> {
    match parse_container(input) {
        Decoding::Complete(container, a) => match usize::spec_deserialize(input.skip(a as int)) {
            Decoding::Complete(root_count, b) => match parse_roots(input.skip((a + b) as int), root_count as nat) {
                Decoding::Complete(roots, c) => match usize::spec_deserialize(input.skip((a + b + c) as int)) {
                    Decoding::Complete(hit_count, d) => match parse_hit_lists(
                        input.skip((a + b + c + d) as int),
                        hit_count as nat,
                        n,
                        container.products.len(),
                    ) {
                        Decoding::Complete(hits, e) => Decoding::Complete(
                            GramIndexView { roots: pairs_to_map(roots), data: pairs_to_map(hits), container },
                            a + b + c + d + e,
                        ),
                        Decoding::Rejected => Decoding::Rejected,
                        Decoding::Aborts => Decoding::Aborts,
                    },
                    Decoding::Rejected => Decoding::Rejected,
                    Decoding::Aborts => Decoding::Aborts,
                },
                Decoding::Rejected => Decoding::Rejected,
                Decoding::Aborts => Decoding::Aborts,
            },
            Decoding::Rejected => Decoding::Rejected,
            Decoding::Aborts => Decoding::Aborts,
        },
        Decoding::Rejected => Decoding::Rejected,
        Decoding::Aborts => Decoding::Aborts,
    }
}

/// The model of an n-gram index.
pub open spec fn index_view<const N: usize>(g: GramIndex<N>) -> GramIndexView {
    GramIndexView { roots: gram_roots(g.roots), data: gram_data(g.data), container: g.product_container.view() }
}

/// The entries of a root listing are those of the map, each key once.
proof fn lemma_listing<K, V>(pairs: Seq<(K, V)>, m: Map<K, V>)
    requires
        forall|k: K| #[trigger] m.contains_key(k) ==> exists|i: int| 0 <= i < pairs.len() && pairs[i].0 == k,
        forall|i: int| 0 <= i < pairs.len() ==> m.contains_key(#[trigger] pairs[i].0) && m[pairs[i].0] == pairs[i].1,
        forall|i: int, j: int| 0 <= i < j < pairs.len() ==> #[trigger] pairs[i].0 != #[trigger] pairs[j].0,
    ensures
        lists_map(pairs, m),
{
    lemma_pairs_to_map_contains(pairs);
    assert forall|k: K| #[trigger] pairs_to_map(pairs).contains_key(k) <== m.contains_key(k) by {
        if m.contains_key(k) {
            let j = choose|j: int| 0 <= j < pairs.len() && pairs[j].0 == k;
            assert(pairs_to_map(pairs).contains_key(pairs[j].0));
        }
    }
    assert forall|k: K| #[trigger] pairs_to_map(pairs).contains_key(k) implies m.contains_key(k)
        && pairs_to_map(pairs)[k] == m[k] by {
        let j = choose|j: int| 0 <= j < pairs.len() && pairs[j].0 == k;
        assert(pairs_to_map(pairs)[pairs[j].0] == pairs[j].1);
    }
    assert(pairs_to_map(pairs) =~= m);
}

impl<const N: usize> GramIndex<N> {
    /// Writes the products, the roots (in the map's own order) and the hit
    /// lists (in the map's own order, each window with its length, then its
    /// products as a sorted difference list).
    pub fn serialize(&self, output: &mut Vec<u8>)
        ensures
            exists|features: Seq<(Seq<char>, FeatureView)>, roots: Seq<(char, GramNodeView)>, hits: Seq<(Seq<char>, Seq<usize>)>|
                #![trigger spec_serialize_gram_index(index_view(*self), features, roots, hits)]
                lists_map(features, index_view(*self).container.features) && lists_map(roots, index_view(*self).roots)
                    && lists_map(hits, index_view(*self).data) && final(output)@ == old(output)@
                    + spec_serialize_gram_index(index_view(*self), features, roots, hits),
    {
        let ghost start = output@;
        self.product_container.serialize(output);
        let ghost after_container = output@;
        let ghost features = choose|features: Seq<(Seq<char>, FeatureView)>|
            lists_map(features, self.product_container.view().features) && after_container == start
                + spec_serialize_container(self.product_container.view(), features);
        let root_entries = gram_roots_entries(&self.roots);
        let ghost roots = root_entries@.map_values(|e: (char, &crate::ngram::node::GramNode)| (e.0, e.1.deep_view()));
        root_entries.len().serialize(output);
        let ghost head = output@;
        let mut i: usize = 0;
        assert(roots.take(0) =~= Seq::<(char, GramNodeView)>::empty());
        while i < root_entries.len()
            invariant
                roots == root_entries@.map_values(|e: (char, &crate::ngram::node::GramNode)| (e.0, e.1.deep_view())),
                i <= root_entries@.len(),
                output@ == head + spec_serialize_root_list(roots.take(i as int)),
            decreases root_entries@.len() - i,
        {
            let (k, node) = root_entries[i];
            k.serialize(output);
            serialize_node(node, output);
            proof {
                assert(roots.take(i + 1).drop_last() =~= roots.take(i as int));
                assert(roots[i as int] == (k, node.deep_view()));
            }
            i = i + 1;
        }
        assert(roots.take(i as int) =~= roots);
        proof {
            assert forall|k: char| #[trigger] gram_roots(self.roots).contains_key(k) implies exists|x: int|
                0 <= x < roots.len() && roots[x].0 == k by {
                let x = choose|x: int| 0 <= x < root_entries@.len() && root_entries@[x].0 == k;
                assert(roots[x].0 == k);
            }
            lemma_listing(roots, gram_roots(self.roots));
        }
        let ghost after_roots = output@;
        let hit_entries = gram_data_entries(&self.data);
        let ghost hits = hit_entries@.map_values(|e: (&Vec<char>, &Vec<usize>)| (e.0@, e.1@));
        hit_entries.len().serialize(output);
        let ghost head2 = output@;
        let mut j: usize = 0;
        assert(hits.take(0) =~= Seq::<(Seq<char>, Seq<usize>)>::empty());
        while j < hit_entries.len()
            invariant
                hits == hit_entries@.map_values(|e: (&Vec<char>, &Vec<usize>)| (e.0@, e.1@)),
                j <= hit_entries@.len(),
                output@ == head2 + spec_serialize_hit_list(hits.take(j as int)),
            decreases hit_entries@.len() - j,
        {
            let (key, list) = hit_entries[j];
            key.serialize(output);
            Product::serialize_positions(list, output);
            proof {
                assert(key.deep_view() =~= key@);
                assert(hits.take(j + 1).drop_last() =~= hits.take(j as int));
                assert(hits[j as int] == (key@, list@));
            }
            j = j + 1;
        }
        assert(hits.take(j as int) =~= hits);
        proof {
            assert forall|k: Seq<char>| #[trigger] gram_data(self.data).contains_key(k) implies exists|x: int|
                0 <= x < hits.len() && hits[x].0 == k by {
                let x = choose|x: int| 0 <= x < hit_entries@.len() && hit_entries@[x].0@ == k;
                assert(hits[x].0 == k);
            }
            lemma_listing(hits, gram_data(self.data));
            assert(output@ =~= start + spec_serialize_gram_index(index_view(*self), features, roots, hits));
        }
    }
}

proof fn lemma_parse_roots_step(input: Seq<u8>, count: nat)
    requires
        count > 0,
    ensures
        parse_roots(input, count) == match char::spec_deserialize(input) {
            Decoding::Complete(k, a) => match parse_node(input.skip(a as int)) {
                Decoding::Complete(v, b) => after_prefix(
                    seq![(k, v)],
                    a + b,
                    parse_roots(input.skip((a + b) as int), (count - 1) as nat),
                ),
                Decoding::Rejected => Decoding::Rejected,
                Decoding::Aborts => Decoding::Aborts,
            },
            Decoding::Rejected => Decoding::Rejected,
            Decoding::Aborts => Decoding::Aborts,
        },
{
    reveal(parse_roots);
}

proof fn lemma_parse_hit_lists_step(input: Seq<u8>, count: nat, n: nat, product_count: nat)
    requires
        count > 0,
    ensures
        parse_hit_lists(input, count, n, product_count) == match parse_hits(input, n, product_count) {
            Decoding::Complete(e, a) => after_prefix(
                seq![e],
                a,
                parse_hit_lists(input.skip(a as int), (count - 1) as nat, n, product_count),
            ),
            Decoding::Rejected => Decoding::Rejected,
            Decoding::Aborts => Decoding::Aborts,
        },
{
    reveal(parse_hit_lists);
}

/// Reads `count` roots, each a gram and its node, inserted in order.
fn read_roots(input: &[u8], count: usize) -> (res: Option<(&[u8], ahash::AHashMap<char, crate::ngram::node::GramNode>)>)
    ensures
        match parse_roots(input@, count as nat) {
            Decoding::Complete(pairs, n) => res matches Some((rest, m)) && n <= input@.len() && rest@
                == input@.skip(n as int) && gram_roots(m) == pairs_to_map(pairs),
            _ => res is None,
        },
{
    let ghost whole = parse_roots(input@, count as nat);
    let mut rest = input;
    let mut map = gram_roots_new();
    let ghost mut done: Seq<(char, GramNodeView)> = Seq::empty();
    let mut k: usize = 0;
    assert(after_prefix(Seq::<(char, GramNodeView)>::empty(), 0, whole) == whole);
    assert(input@.skip(0) =~= input@);
    assert(gram_roots(map) =~= pairs_to_map(done));
    while k < count
        invariant
            k <= count,
            rest@.len() <= input@.len(),
            rest@ == input@.skip(input@.len() - rest@.len()),
            done.len() == k,
            gram_roots(map) == pairs_to_map(done),
            whole == parse_roots(input@, count as nat),
            whole == after_prefix(done, (input@.len() - rest@.len()) as nat, parse_roots(rest@, (count - k) as nat)),
        decreases count - k,
    {
        let ghost before = rest@;
        let ghost consumed = (input@.len() - rest@.len()) as nat;
        proof {
            lemma_parse_roots_step(before, (count - k) as nat);
        }
        let (r1, key) = char::deserialize(rest)?;
        let ghost a = (before.len() - r1@.len()) as nat;
        let (r2, node) = deserialize_node(r1)?;
        let ghost b = (r1@.len() - r2@.len()) as nat;
        assert(r2@ =~= before.skip((a + b) as int));
        let ghost entry = (key, node.deep_view());
        proof {
            lemma_after_prefix_twice(done, consumed, seq![entry], a + b, parse_roots(r2@, (count - k - 1) as nat));
        }
        gram_roots_insert(&mut map, key, node);
        proof {
            let next = done + seq![entry];
            assert(next.drop_last() =~= done);
            assert(next.last() == entry);
            done = next;
        }
        rest = r2;
        assert(rest@ =~= input@.skip(input@.len() - rest@.len()));
        k = k + 1;
    }
    assert(done + Seq::<(char, GramNodeView)>::empty() =~= done);
    assert(parse_roots(rest@, 0) == Decoding::<Seq<(char, GramNodeView)>>::Complete(Seq::empty(), 0)) by {
        reveal(parse_roots);
    }
    Some((rest, map))
}

/// Reads one hit list: a window of `n` grams and its products, which must
/// all exist.
fn read_hits<'i>(input: &'i [u8], n: usize, products: &[Product]) -> (res: Option<(&'i [u8], Vec<char>, Vec<usize>)>)
    ensures
        match parse_hits(input@, n as nat, products@.len()) {
            Decoding::Complete(e, m) => res matches Some((rest, key, ids)) && m <= input@.len() && rest@
                == input@.skip(m as int) && key@ == e.0 && ids@ == e.1,
            _ => res is None,
        },
{
    reveal(parse_hits);
    let (r1, key) = Vec::<char>::deserialize(input)?;
    let ghost a = (input@.len() - r1@.len()) as nat;
    assert(key.deep_view() =~= key@);
    if key.len() != n {
        return None;
    }
    let (r2, ids) = Product::deserialize_positions(r1, products.len())?;
    let ghost b = (r1@.len() - r2@.len()) as nat;
    assert(r2@ =~= input@.skip((a + b) as int));
    Some((r2, key, ids))
}

/// Reads `count` hit lists, inserted in order.
fn read_hit_lists<'i>(input: &'i [u8], count: usize, n: usize, products: &[Product]) -> (res: Option<
    (&'i [u8], ahash::AHashMap<Vec<char>, Vec<usize>>),
>)
    ensures
        match parse_hit_lists(input@, count as nat, n as nat, products@.len()) {
            Decoding::Complete(pairs, m) => res matches Some((rest, map)) && m <= input@.len() && rest@
                == input@.skip(m as int) && gram_data(map) == pairs_to_map(pairs),
            _ => res is None,
        },
{
    let ghost pc = products@.len();
    let ghost whole = parse_hit_lists(input@, count as nat, n as nat, pc);
    let mut rest = input;
    let mut map = gram_data_new();
    let ghost mut done: Seq<(Seq<char>, Seq<usize>)> = Seq::empty();
    let mut k: usize = 0;
    assert(after_prefix(Seq::<(Seq<char>, Seq<usize>)>::empty(), 0, whole) == whole);
    assert(input@.skip(0) =~= input@);
    assert(gram_data(map) =~= pairs_to_map(done));
    while k < count
        invariant
            k <= count,
            pc == products@.len(),
            rest@.len() <= input@.len(),
            rest@ == input@.skip(input@.len() - rest@.len()),
            done.len() == k,
            gram_data(map) == pairs_to_map(done),
            whole == parse_hit_lists(input@, count as nat, n as nat, pc),
            whole == after_prefix(
                done,
                (input@.len() - rest@.len()) as nat,
                parse_hit_lists(rest@, (count - k) as nat, n as nat, pc),
            ),
        decreases count - k,
    {
        let ghost before = rest@;
        let ghost consumed = (input@.len() - rest@.len()) as nat;
        proof {
            lemma_parse_hit_lists_step(before, (count - k) as nat, n as nat, pc);
        }
        let (r1, key, ids) = read_hits(rest, n, products)?;
        let ghost a = (before.len() - r1@.len()) as nat;
        let ghost entry = (key@, ids@);
        proof {
            lemma_after_prefix_twice(done, consumed, seq![entry], a, parse_hit_lists(r1@, (count - k - 1) as nat, n as nat, pc));
        }
        gram_data_insert(&mut map, key, ids);
        proof {
            let next = done + seq![entry];
            assert(next.drop_last() =~= done);
            assert(next.last() == entry);
            done = next;
        }
        rest = r1;
        assert(rest@ =~= input@.skip(input@.len() - rest@.len()));
        k = k + 1;
    }
    assert(done + Seq::<(Seq<char>, Seq<usize>)>::empty() =~= done);
    assert(parse_hit_lists(rest@, 0, n as nat, pc) == Decoding::<Seq<(Seq<char>, Seq<usize>)>>::Complete(Seq::empty(), 0)) by {
        reveal(parse_hit_lists);
    }
    Some((rest, map))
}

impl<const N: usize> GramIndex<N> {
    /// Reads an n-gram index: its products, its roots and its hit lists
    /// (each window of `N` grams, each product existing).
    pub fn deserialize(input: &[u8]) -> (res: Option<(&[u8], GramIndex<N>)>)
        ensures
            match parse_gram_index(input@, N as nat) {
                Decoding::Complete(v, n) => res matches Some((rest, g)) && n <= input@.len() && rest@
                    == input@.skip(n as int) && index_view(g) == v && g.product_container.vendors.wf(),
                _ => res is None,
            },
    {
        let (r1, container) = match ProductContainer::deserialize(input) {
            Some(found) => found,
            None => {
                assert(!(parse_gram_index(input@, N as nat) is Complete)) by {
                    reveal(parse_gram_index);
                }
                return None;
            },
        };
        let ghost a = (input@.len() - r1@.len()) as nat;
        let (r2, root_count) = match usize::deserialize(r1) {
            Some(found) => found,
            None => {
                assert(!(parse_gram_index(input@, N as nat) is Complete)) by {
                    reveal(parse_gram_index);
                }
                return None;
            },
        };
        let ghost b = (r1@.len() - r2@.len()) as nat;
        assert(r2@ =~= input@.skip((a + b) as int));
        let (r3, roots) = match read_roots(r2, root_count) {
            Some(found) => found,
            None => {
                assert(!(parse_gram_index(input@, N as nat) is Complete)) by {
                    reveal(parse_gram_index);
                }
                return None;
            },
        };
        let ghost c = (r2@.len() - r3@.len()) as nat;
        assert(r3@ =~= input@.skip((a + b + c) as int));
        let (r4, hit_count) = match usize::deserialize(r3) {
            Some(found) => found,
            None => {
                assert(!(parse_gram_index(input@, N as nat) is Complete)) by {
                    reveal(parse_gram_index);
                }
                return None;
            },
        };
        let ghost d = (r3@.len() - r4@.len()) as nat;
        assert(r4@ =~= input@.skip((a + b + c + d) as int));
        let (r5, data) = match read_hit_lists(r4, hit_count, N, container.products.as_slice()) {
            Some(found) => found,
            None => {
                assert(!(parse_gram_index(input@, N as nat) is Complete)) by {
                    reveal(parse_gram_index);
                }
                return None;
            },
        };
        let ghost e = (r4@.len() - r5@.len()) as nat;
        assert(r5@ =~= input@.skip((a + b + c + d + e) as int));
        let res = GramIndex { roots, data, product_container: container };
        assert(parse_gram_index(input@, N as nat) == Decoding::Complete(index_view(res), a + b + c + d + e)) by {
            reveal(parse_gram_index);
        }
        Some((r5, res))
    }
}

/// A hit list that reads back: a window of `n` grams and products that
/// exist, in numbers the readers give back.
pub open spec fn hits_round_trip(k: Seq<char>, v: Seq<usize>, n: nat, product_count: nat) -> bool {
    &&& k.len() == n
    &&& n <= usize::MAX
    &&& positions_round_trip(v)
    &&& forall|i: int| 0 <= i < v.len() ==> #[trigger] v[i] < product_count
}

/// An n-gram index whose written form reads back (its features listed as
/// `features`): its products read back, its roots are well formed and read
/// back, its hit lists read back, and the counts are ones the reader gives
/// back.
pub open spec fn gram_index_round_trips(v: GramIndexView, features: Seq<(Seq<char>, FeatureView)>, n: nat) -> bool {
    &&& container_round_trips(v.container, features)
    &&& forall|c: char| #[trigger] v.roots.contains_key(c) ==> view_wf(v.roots[c]) && node_round_trips(v.roots[c])
    &&& forall|k: Seq<char>| #[trigger] v.data.contains_key(k) ==> hits_round_trip(k, v.data[k], n, v.container.products.len())
    &&& v.roots.dom().finite() && v.roots.len() <= usize::MAX
    &&& v.data.dom().finite() && v.data.len() <= usize::MAX
}

proof fn lemma_root_list_cons(e: (char, GramNodeView), pairs: Seq<(char, GramNodeView)>)
    ensures
        spec_serialize_root_list(seq![e] + pairs) == spec_serialize_root(e.0, e.1) + spec_serialize_root_list(pairs),
    decreases pairs.len(),
{
    if pairs.len() == 0 {
        assert((seq![e] + pairs).drop_last() =~= Seq::<(char, GramNodeView)>::empty());
        assert((seq![e] + pairs).last() == e);
        assert(spec_serialize_root_list(pairs) == Seq::<u8>::empty());
        assert(spec_serialize_root_list(Seq::<(char, GramNodeView)>::empty()) == Seq::<u8>::empty());
        assert(Seq::<u8>::empty() + spec_serialize_root(e.0, e.1) =~= spec_serialize_root(e.0, e.1) + Seq::<u8>::empty());
    } else {
        lemma_root_list_cons(e, pairs.drop_last());
        assert((seq![e] + pairs).drop_last() =~= seq![e] + pairs.drop_last());
        assert((seq![e] + pairs).last() == pairs.last());
        let a = spec_serialize_root(e.0, e.1);
        let b = spec_serialize_root_list(pairs.drop_last());
        let c = spec_serialize_root(pairs.last().0, pairs.last().1);
        assert(spec_serialize_root_list(pairs) == b + c);
        assert((a + b) + c =~= a + (b + c));
    }
}

proof fn lemma_hit_list_cons(e: (Seq<char>, Seq<usize>), pairs: Seq<(Seq<char>, Seq<usize>)>)
    ensures
        spec_serialize_hit_list(seq![e] + pairs) == spec_serialize_hits(e.0, e.1) + spec_serialize_hit_list(pairs),
    decreases pairs.len(),
{
    if pairs.len() == 0 {
        assert((seq![e] + pairs).drop_last() =~= Seq::<(Seq<char>, Seq<usize>)>::empty());
        assert((seq![e] + pairs).last() == e);
        assert(spec_serialize_hit_list(pairs) == Seq::<u8>::empty());
        assert(spec_serialize_hit_list(Seq::<(Seq<char>, Seq<usize>)>::empty()) == Seq::<u8>::empty());
        assert(Seq::<u8>::empty() + spec_serialize_hits(e.0, e.1) =~= spec_serialize_hits(e.0, e.1) + Seq::<u8>::empty());
    } else {
        lemma_hit_list_cons(e, pairs.drop_last());
        assert((seq![e] + pairs).drop_last() =~= seq![e] + pairs.drop_last());
        assert((seq![e] + pairs).last() == pairs.last());
        let a = spec_serialize_hits(e.0, e.1);
        let b = spec_serialize_hit_list(pairs.drop_last());
        let c = spec_serialize_hits(pairs.last().0, pairs.last().1);
        assert(spec_serialize_hit_list(pairs) == b + c);
        assert((a + b) + c =~= a + (b + c));
    }
}

/// Reading roots written one after the other: the first root, then the
/// others.
#[verifier::spinoff_prover]
proof fn lemma_root_step(e: (char, GramNodeView), tail: Seq<(char, GramNodeView)>, rest: Seq<u8>)
    requires
        view_wf(e.1),
        node_round_trips(e.1),
    ensures
        parse_roots(spec_serialize_root_list(seq![e] + tail) + rest, tail.len() + 1) == after_prefix(
            seq![e],
            spec_serialize_root(e.0, e.1).len(),
            parse_roots(spec_serialize_root_list(tail) + rest, tail.len()),
        ),
{
    lemma_root_list_cons(e, tail);
    let a = char::spec_serialize(e.0);
    let b = spec_serialize_node(e.1);
    let c = spec_serialize_root_list(tail);
    let input = spec_serialize_root_list(seq![e] + tail) + rest;
    assert(input =~= a + (b + (c + rest)));
    lemma_char_round_trip(e.0, b + (c + rest));
    assert(input.skip(a.len() as int) =~= b + (c + rest));
    lemma_node_round_trip(e.1, c + rest);
    assert(input.skip((a.len() + b.len()) as int) =~= c + rest);
    assert(parse_roots(input, tail.len() + 1) == after_prefix(
        seq![e],
        a.len() + b.len(),
        parse_roots(input.skip((a.len() + b.len()) as int), tail.len()),
    )) by {
        reveal(parse_roots);
    }
}

/// Roots written one after the other read back unchanged.
proof fn lemma_roots_round_trip(pairs: Seq<(char, GramNodeView)>, rest: Seq<u8>)
    requires
        forall|i: int| 0 <= i < pairs.len() ==> view_wf(#[trigger] pairs[i].1) && node_round_trips(pairs[i].1),
    ensures
        parse_roots(spec_serialize_root_list(pairs) + rest, pairs.len()) == Decoding::Complete(
            pairs,
            spec_serialize_root_list(pairs).len(),
        ),
    decreases pairs.len(),
{
    if pairs.len() == 0 {
        assert(spec_serialize_root_list(pairs) + rest =~= rest);
        assert(pairs =~= Seq::<(char, GramNodeView)>::empty());
        reveal(parse_roots);
    } else {
        let e = pairs[0];
        let tail = pairs.drop_first();
        assert(seq![e] + tail =~= pairs);
        assert(view_wf(pairs[0].1) && node_round_trips(pairs[0].1));
        assert forall|i: int| 0 <= i < tail.len() implies view_wf(#[trigger] tail[i].1) && node_round_trips(tail[i].1) by {
            assert(tail[i] == pairs[i + 1]);
        }
        lemma_roots_round_trip(tail, rest);
        lemma_root_step(e, tail, rest);
        lemma_root_list_cons(e, tail);
        assert(seq![e] + tail == pairs);
    }
}

/// Hit lists written one after the other read back unchanged.
proof fn lemma_hit_lists_round_trip(pairs: Seq<(Seq<char>, Seq<usize>)>, n: nat, product_count: nat, rest: Seq<u8>)
    requires
        forall|i: int| 0 <= i < pairs.len() ==> hits_round_trip(#[trigger] pairs[i].0, pairs[i].1, n, product_count),
    ensures
        parse_hit_lists(spec_serialize_hit_list(pairs) + rest, pairs.len(), n, product_count) == Decoding::Complete(
            pairs,
            spec_serialize_hit_list(pairs).len(),
        ),
    decreases pairs.len(),
{
    reveal(parse_hit_lists);
    if pairs.len() == 0 {
        assert(spec_serialize_hit_list(pairs) + rest =~= rest);
        assert(pairs =~= Seq::<(Seq<char>, Seq<usize>)>::empty());
    } else {
        let e = pairs[0];
        let tail = pairs.drop_first();
        assert(seq![e] + tail =~= pairs);
        lemma_hit_list_cons(e, tail);
        let a = Vec::<char>::spec_serialize(e.0);
        let b = spec_serialize_positions(e.1);
        let c = spec_serialize_hit_list(tail);
        let input = spec_serialize_hit_list(pairs) + rest;
        assert(input =~= a + (b + (c + rest)));
        assert(hits_round_trip(pairs[0].0, pairs[0].1, n, product_count));
        assert(all_round_trip::<char>(e.0));
        <Vec<char> as RoundTrip>::lemma_round_trip(e.0, b + (c + rest));
        assert(input.skip(a.len() as int) =~= b + (c + rest));
        lemma_positions_round_trip(e.1, c + rest);
        assert(parse_hits(input, n, product_count) == Decoding::Complete((e.0, e.1), a.len() + b.len())) by {
            reveal(parse_hits);
        }
        assert(input.skip((a.len() + b.len()) as int) =~= c + rest);
        assert forall|i: int| 0 <= i < tail.len() implies hits_round_trip(#[trigger] tail[i].0, tail[i].1, n, product_count) by {
            assert(tail[i] == pairs[i + 1]);
        }
        lemma_hit_lists_round_trip(tail, n, product_count, rest);
    }
}

/// A listing of distinct keys has as many entries as its map.
pub proof fn lemma_pairs_to_map_len<K, V>(pairs: Seq<(K, V)>)
    requires
        forall|i: int, j: int| 0 <= i < j < pairs.len() ==> #[trigger] pairs[i].0 != #[trigger] pairs[j].0,
    ensures
        pairs_to_map(pairs).dom().finite(),
        pairs_to_map(pairs).len() == pairs.len(),
    decreases pairs.len(),
{
    if pairs.len() > 0 {
        let init = pairs.drop_last();
        assert forall|i: int, j: int| 0 <= i < j < init.len() implies #[trigger] init[i].0 != #[trigger] init[j].0 by {
            assert(init[i] == pairs[i] && init[j] == pairs[j]);
        }
        lemma_pairs_to_map_len(init);
        lemma_pairs_to_map_contains(init);
        if pairs_to_map(init).contains_key(pairs.last().0) {
            let i = choose|i: int| 0 <= i < init.len() && init[i].0 == pairs.last().0;
            assert(pairs[i].0 == pairs[pairs.len() - 1].0);
        }
    }
}

/// An n-gram index written with its maps listed as `features`, `roots`
/// and `hits` reads back with products equal to its own (descriptions may
/// be cut), the same roots and the same hit lists, having read every byte
/// written.
#[verifier::rlimit(80)]
#[verifier::spinoff_prover]
pub proof fn lemma_gram_index_round_trip(
    v: GramIndexView,
    features: Seq<(Seq<char>, FeatureView)>,
    roots: Seq<(char, GramNodeView)>,
    hits: Seq<(Seq<char>, Seq<usize>)>,
    n: nat,
    rest: Seq<u8>,
)
    requires
        lists_map(features, v.container.features),
        lists_map(roots, v.roots),
        lists_map(hits, v.data),
        gram_index_round_trips(v, features, n),
    ensures
        parse_gram_index(spec_serialize_gram_index(v, features, roots, hits) + rest, n) matches Decoding::Complete(
            w,
            m,
        ) && m == spec_serialize_gram_index(v, features, roots, hits).len() && container_matches(
            w.container,
            v.container,
        ) && w.roots == v.roots && w.data == v.data,
{
    let a = spec_serialize_container(v.container, features);
    let b = encode_varint(roots.len());
    let c = spec_serialize_root_list(roots);
    let d = encode_varint(hits.len());
    let e = spec_serialize_hit_list(hits);
    let input = spec_serialize_gram_index(v, features, roots, hits) + rest;
    assert(input =~= a + (b + (c + (d + (e + rest)))));
    lemma_container_round_trip(v.container, features, b + (c + (d + (e + rest))));
    let wc = parse_container(a + (b + (c + (d + (e + rest)))))->Complete_0;
    assert(input.skip(a.len() as int) =~= b + (c + (d + (e + rest))));
    lemma_pairs_to_map_len(roots);
    lemma_pairs_to_map_contains(roots);
    lemma_usize_round_trip(roots.len() as usize, c + (d + (e + rest)));
    assert(input.skip((a.len() + b.len()) as int) =~= c + (d + (e + rest)));
    assert forall|i: int| 0 <= i < roots.len() implies view_wf(#[trigger] roots[i].1) && node_round_trips(roots[i].1) by {
        assert(v.roots.contains_key(roots[i].0));
    }
    lemma_roots_round_trip(roots, d + (e + rest));
    assert(input.skip((a.len() + b.len() + c.len()) as int) =~= d + (e + rest));
    lemma_pairs_to_map_len(hits);
    lemma_pairs_to_map_contains(hits);
    lemma_usize_round_trip(hits.len() as usize, e + rest);
    assert(input.skip((a.len() + b.len() + c.len() + d.len()) as int) =~= e + rest);
    let pc = v.container.products.len();
    assert forall|i: int| 0 <= i < hits.len() implies hits_round_trip(#[trigger] hits[i].0, hits[i].1, n, pc) by {
        assert(v.data.contains_key(hits[i].0));
    }
    lemma_hit_lists_round_trip(hits, n, pc, rest);
    lemma_parse_gram_index_parts(input, n, wc, roots, hits, a.len(), b.len(), c.len(), d.len(), e.len());
}

/// Reading an n-gram index whose parts each read as given.
proof fn lemma_parse_gram_index_parts(
    input: Seq<u8>,
    n: nat,
    container: ContainerView,
    roots: Seq<(char, GramNodeView)>,
    hits: Seq<(Seq<char>, Seq<usize>)>,
    a: nat,
    b: nat,
    c: nat,
    d: nat,
    e: nat,
)
    requires
        parse_container(input) == Decoding::Complete(container, a),
        usize::spec_deserialize(input.skip(a as int)) == Decoding::Complete(roots.len() as usize, b),
        roots.len() <= usize::MAX,
        parse_roots(input.skip((a + b) as int), roots.len()) == Decoding::Complete(roots, c),
        usize::spec_deserialize(input.skip((a + b + c) as int)) == Decoding::Complete(hits.len() as usize, d),
        hits.len() <= usize::MAX,
        parse_hit_lists(input.skip((a + b + c + d) as int), hits.len(), n, container.products.len())
            == Decoding::Complete(hits, e),
    ensures
        parse_gram_index(input, n) == Decoding::Complete(
            GramIndexView { roots: pairs_to_map(roots), data: pairs_to_map(hits), container },
            a + b + c + d + e,
        ),
{
    reveal(parse_gram_index);
}

} // verus!
