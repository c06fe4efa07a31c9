pub mod categorical;
pub mod order;
pub mod tag;

use vstd::prelude::*;

use crate::data::container::ProductContainer;
use crate::data::product::positions_round_trip;
use crate::serialize::primitives::encode_varint;
use crate::serialize::vectors::lists_map;
use crate::serialize::traits::{Deserializable, RoundTrip, Serializable};
use crate::serialize::Decoding;
use categorical::{
    category_round_trips, lemma_category_index_round_trip, option_count, option_numbers, parse_category_index,
    spec_serialize_category_index, CategoryIndex, CategoryView,
};
use order::{spec_deserialize_orders, spec_serialize_order_listing, OrderEntry, OrderIndex};
use tag::{
    lemma_tag_index_round_trip, parse_tag_index, spec_serialize_tags, tag_round_trips, TagIndex,
    TagView,
};

verus! {

/// The classic indexes: categories, tags and orderings.
pub struct ClassicIndexes {
    pub categories: CategoryIndex,
    pub tags: TagIndex,
    pub order: OrderIndex,
}

/// The model of the classic indexes.
pub struct ClassicView {
    pub categories: Seq<CategoryView>,
    pub tags: Seq<TagView>,
    pub orders: Map<Seq<char>, Seq<usize>>,
}

/// The written form of the classic indexes: the categories, the tags, then
/// the orderings listed in the order `pairs`.
pub open spec fn spec_serialize_classic(v: ClassicView, pairs: Seq<(Seq<char>, Seq<usize>)>) -> Seq<u8> {
    spec_serialize_category_index(v.categories) + encode_varint(v.tags.len()) + spec_serialize_tags(v.tags)
        + spec_serialize_order_listing(pairs)
}

/// What reading the classic indexes gives, for `product_count` products.
pub open spec fn parse_classic(input: Seq<u8>, product_count: nat) -> Decoding<ClassicView> {
    match parse_category_index(input, product_count) {
        Decoding::Complete(categories, a) => match parse_tag_index(input.skip(a as int), product_count) {
            Decoding::Complete(tags, b) => match spec_deserialize_orders(input.skip((a + b) as int)) {
                Decoding::Complete(orders, c) => Decoding::Complete(ClassicView { categories, tags, orders }, a + b + c),
                Decoding::Rejected => Decoding::Rejected,
                Decoding::Aborts => Decoding::Aborts,
            },
            Decoding::Rejected => Decoding::Rejected,
            Decoding::Aborts => Decoding::Aborts,
        },
        Decoding::Rejected => Decoding::Rejected,
        Decoding::Aborts => Decoding::Aborts,
    }
}

impl ClassicIndexes {
    pub closed spec fn view(&self) -> ClassicView {
        ClassicView { categories: self.categories.view(), tags: self.tags.view(), orders: self.order.orders() }
    }

    /// The categories and the tags are well formed.
    pub open spec fn wf(&self) -> bool {
        self.categories.wf() && self.tags.wf()
    }

    /// The classic indexes of the given parts.
    pub fn new(categories: CategoryIndex, tags: TagIndex, order: OrderIndex) -> (res: ClassicIndexes)
        ensures
            res.categories == categories,
            res.tags == tags,
            res.order == order,
    {
        ClassicIndexes { categories, tags, order }
    }

    /// Writes the categories, the tags, then the orderings.
    pub fn serialize(&self, output: &mut Vec<u8>)
        ensures
            exists|pairs: Seq<(Seq<char>, Seq<usize>)>|
                lists_map(pairs, self.view().orders) && final(output)@ == old(output)@
                    + spec_serialize_classic(self.view(), pairs),
    {
        let ghost start = output@;
        self.categories.serialize(output);
        self.tags.serialize(output);
        let ghost middle = output@;
        self.order.serialize(output);
        proof {
            let pairs = choose|pairs: Seq<(Seq<char>, Seq<usize>)>|
                lists_map(pairs, self.order.orders()) && output@ == middle + spec_serialize_order_listing(pairs);
            assert(output@ =~= start + spec_serialize_classic(self.view(), pairs));
            assert(lists_map(pairs, self.view().orders));
        }
    }

    /// Reads the categories, the tags and the orderings of the products of
    /// `data`.
    pub fn deserialize<'i>(input: &'i [u8], data: &ProductContainer) -> (res: Option<(&'i [u8], ClassicIndexes)>)
        ensures
            match parse_classic(input@, data.products@.len()) {
                Decoding::Complete(v, n) => res matches Some((rest, indexes)) && n <= input@.len() && rest@
                    == input@.skip(n as int) && indexes.view() == v && indexes.wf(),
                _ => res is None,
            },
    {
        let (r1, categories) = CategoryIndex::deserialize_many(input, data.products.as_slice())?;
        let ghost a = (input@.len() - r1@.len()) as nat;
        let (r2, tags) = TagIndex::deserialize(r1, data.products.as_slice())?;
        let ghost b = (r1@.len() - r2@.len()) as nat;
        assert(r2@ =~= input@.skip((a + b) as int));
        let (r3, order) = OrderIndex::deserialize(r2)?;
        let ghost c = (r2@.len() - r3@.len()) as nat;
        assert(r3@ =~= input@.skip((a + b + c) as int));
        Some((r3, ClassicIndexes { categories, tags, order }))
    }
}

/// Classic indexes whose written form, with the orderings listed as
/// `pairs`, reads back: every name and number fits its encoding, the
/// products named exist, and the tags are numbered by position.
pub open spec fn classic_round_trips(
    v: ClassicView,
    pairs: Seq<(Seq<char>, Seq<usize>)>,
    product_count: nat,
) -> bool {
    &&& option_count(v.categories) <= usize::MAX
    &&& v.categories.len() <= usize::MAX
    &&& forall|i: int| 0 <= i < v.categories.len() ==> category_round_trips(#[trigger] v.categories[i], product_count)
    &&& positions_round_trip(option_numbers(v.categories))
    &&& v.tags.len() <= usize::MAX
    &&& forall|i: int| 0 <= i < v.tags.len() ==> tag_round_trips(#[trigger] v.tags[i], product_count, i as nat)
    &&& lists_map(pairs, v.orders)
    &&& <Vec<OrderEntry> as RoundTrip>::round_trips(pairs)
}

/// Classic indexes written and read back are the same: categories, tags
/// and orderings. Every byte written is read.
pub proof fn lemma_classic_round_trip(
    v: ClassicView,
    pairs: Seq<(Seq<char>, Seq<usize>)>,
    product_count: nat,
    rest: Seq<u8>,
)
    requires
        classic_round_trips(v, pairs, product_count),
    ensures
        parse_classic(spec_serialize_classic(v, pairs) + rest, product_count) == Decoding::Complete(
            v,
            spec_serialize_classic(v, pairs).len(),
        ),
{
    let a = spec_serialize_category_index(v.categories);
    let b = encode_varint(v.tags.len()) + spec_serialize_tags(v.tags);
    let c = spec_serialize_order_listing(pairs);
    let input = spec_serialize_classic(v, pairs) + rest;
    assert(input =~= a + (b + (c + rest)));
    lemma_category_index_round_trip(v.categories, product_count, b + (c + rest));
    assert(input.skip(a.len() as int) =~= b + (c + rest));
    assert(b + (c + rest) =~= b + (c + rest));
    lemma_tag_index_round_trip(v.tags, product_count, c + rest);
    assert(input.skip((a.len() + b.len()) as int) =~= c + rest);
    <Vec<OrderEntry> as RoundTrip>::lemma_round_trip(pairs, rest);
    assert(spec_serialize_classic(v, pairs).len() == a.len() + b.len() + c.len());
}

} // verus!
