//! The binary form of a whole search index: the n-gram index, then the
//! classic indexes.
use vstd::prelude::*;

use crate::classic_indexes::{
    classic_round_trips, lemma_classic_round_trip, parse_classic, spec_serialize_classic, ClassicIndexes,
    ClassicView,
};
use crate::data::container::container_matches;
use crate::data::features::FeatureView;
use crate::ngram::index::GramIndex;
use crate::ngram::node::GramNodeView;
use crate::serialize::gram_index::{
    gram_index_round_trips, index_view, lemma_gram_index_round_trip, parse_gram_index,
    spec_serialize_gram_index, GramIndexView,
};
use crate::serialize::vectors::lists_map;
use crate::serialize::Decoding;

verus! {

/// What reading a whole index gives: the n-gram index, then the classic
/// indexes over its products.
pub open spec fn parse_all(input: Seq<u8>, n: nat) -> Decoding<(GramIndexView, ClassicView)> {
    match parse_gram_index(input, n) {
        Decoding::Complete(g, a) => match parse_classic(input.skip(a as int), g.container.products.len()) {
            Decoding::Complete(c, b) => Decoding::Complete((g, c), a + b),
            Decoding::Rejected => Decoding::Rejected,
            Decoding::Aborts => Decoding::Aborts,
        },
        Decoding::Rejected => Decoding::Rejected,
        Decoding::Aborts => Decoding::Aborts,
    }
}

/// The written form of a whole index, its maps listed in the given orders.
pub open spec fn spec_serialize_all(
    g: GramIndexView,
    c: ClassicView,
    features: Seq<(Seq<char>, FeatureView)>,
    roots: Seq<(char, GramNodeView)>,
    hits: Seq<(Seq<char>, Seq<usize>)>,
    orders: Seq<(Seq<char>, Seq<usize>)>,
) -> Seq<u8> {
    spec_serialize_gram_index(g, features, roots, hits) + spec_serialize_classic(c, orders)
}

/// The written form of the n-gram index and the classic indexes, its maps
/// listed in their own orders.
pub fn serialize_all<const N: usize>(ngram: &GramIndex<N>, classic: &ClassicIndexes) -> (res: Vec<u8>)
    ensures
        exists|
            features: Seq<(Seq<char>, FeatureView)>,
            roots: Seq<(char, GramNodeView)>,
            hits: Seq<(Seq<char>, Seq<usize>)>,
            orders: Seq<(Seq<char>, Seq<usize>)>,
        |
            #![trigger spec_serialize_all(index_view(*ngram), classic.view(), features, roots, hits, orders)]
            lists_map(features, index_view(*ngram).container.features) && lists_map(roots, index_view(*ngram).roots)
                && lists_map(hits, index_view(*ngram).data) && lists_map(orders, classic.view().orders) && res@
                == spec_serialize_all(index_view(*ngram), classic.view(), features, roots, hits, orders),
{
    let mut out: Vec<u8> = Vec::new();
    ngram.serialize(&mut out);
    let ghost first = out@;
    classic.serialize(&mut out);
    proof {
        let (features, roots, hits) = choose|
            features: Seq<(Seq<char>, FeatureView)>,
            roots: Seq<(char, GramNodeView)>,
            hits: Seq<(Seq<char>, Seq<usize>)>,
        |
            lists_map(features, index_view(*ngram).container.features) && lists_map(roots, index_view(*ngram).roots)
                && lists_map(hits, index_view(*ngram).data) && first == Seq::<u8>::empty()
                + spec_serialize_gram_index(index_view(*ngram), features, roots, hits);
        let orders = choose|orders: Seq<(Seq<char>, Seq<usize>)>|
            lists_map(orders, classic.view().orders) && out@ == first + spec_serialize_classic(classic.view(), orders);
        assert(Seq::<u8>::empty() + spec_serialize_gram_index(index_view(*ngram), features, roots, hits)
            =~= spec_serialize_gram_index(index_view(*ngram), features, roots, hits));
        assert(out@ == spec_serialize_all(index_view(*ngram), classic.view(), features, roots, hits, orders));
    }
    out
}

/// Reads the n-gram index, then the classic indexes over its products.
pub fn deserialize_all<const N: usize>(input: &[u8]) -> (res: Option<(GramIndex<N>, ClassicIndexes)>)
    ensures
        match parse_all(input@, N as nat) {
            Decoding::Complete((g, c), _) => res matches Some((ngram, classic)) && index_view(ngram) == g
                && classic.view() == c && classic.wf(),
            _ => res is None,
        },
{
    let (rest, ngram) = GramIndex::<N>::deserialize(input)?;
    let ghost a = (input@.len() - rest@.len()) as nat;
    assert(ngram.product_container.view().products.len() == ngram.product_container.products@.len());
    let (_, classic) = ClassicIndexes::deserialize(rest, &ngram.product_container)?;
    Some((ngram, classic))
}

/// A whole index written and read back gives back the index written: the
/// products equal the written ones (a description may come back cut to
/// its written length), and the vendors, features, n-gram trees, hit
/// lists, categories, tags and orderings are the same. Every byte written
/// is read.
pub proof fn lemma_all_round_trip(
    g: GramIndexView,
    c: ClassicView,
    features: Seq<(Seq<char>, FeatureView)>,
    roots: Seq<(char, GramNodeView)>,
    hits: Seq<(Seq<char>, Seq<usize>)>,
    orders: Seq<(Seq<char>, Seq<usize>)>,
    n: nat,
    rest: Seq<u8>,
)
    requires
        lists_map(features, g.container.features),
        lists_map(roots, g.roots),
        lists_map(hits, g.data),
        gram_index_round_trips(g, features, n),
        classic_round_trips(c, orders, g.container.products.len()),
    ensures
        parse_all(spec_serialize_all(g, c, features, roots, hits, orders) + rest, n) matches Decoding::Complete(
            (w, d),
            m,
        ) && m == spec_serialize_all(g, c, features, roots, hits, orders).len()
            && container_matches(w.container, g.container) && w.roots == g.roots && w.data == g.data
            && d == c,
{
    let a = spec_serialize_gram_index(g, features, roots, hits);
    let b = spec_serialize_classic(c, orders);
    let input = spec_serialize_all(g, c, features, roots, hits, orders) + rest;
    assert(input =~= a + (b + rest));
    lemma_gram_index_round_trip(g, features, roots, hits, n, b + rest);
    assert(input.skip(a.len() as int) =~= b + rest);
    lemma_classic_round_trip(c, orders, g.container.products.len(), rest);
}

} // verus!
