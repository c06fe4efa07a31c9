use vstd::prelude::*;

use super::features::{
    spec_deserialize_feature_map, spec_serialize_feature_listing, FeatureSet, FeatureView,
};
use super::product::{
    lemma_product_round_trip, products_match, spec_deserialize_product, spec_serialize_product, Product,
    ProductView, DESCRIPTION_LIMIT,
};
use super::features::FeatureEntry;
use crate::serialize::collections::limited_chars;
use crate::serialize::vectors::pairs_to_map;
use crate::serialize::RoundTrip;
use super::vendor::VendorManager;
use crate::serialize::primitives::encode_varint;
use crate::serialize::vectors::{after_prefix, lemma_after_prefix_twice, lists_map};
use crate::serialize::{Decoding, Deserializable, Serializable};

verus! {

/// The products of an index, with their vendors and extra features.
pub struct ProductContainer {
    pub products: Vec<Product>,
    pub vendors: VendorManager,
    pub extra_features: FeatureSet,
}

impl ProductContainer {
    /// A container of the given parts.
    pub fn new(products: Vec<Product>, vendors: VendorManager, extra_features: FeatureSet) -> (res:
        ProductContainer)
        ensures
            res.products@ == products@,
            res.vendors == vendors,
            res.extra_features == extra_features,
    {
        ProductContainer { products, vendors, extra_features }
    }
}

/// The model of a product container: products, vendor names, features.
pub struct ContainerView {
    pub products: Seq<ProductView>,
    pub vendors: Seq<Seq<char>>,
    pub features: Map<Seq<char>, FeatureView>,
}

/// The models of products.
pub open spec fn products_view(s: Seq<Product>) -> Seq<ProductView> {
    s.map_values(|p: Product| p@)
}

/// The written forms of products, one after the other.
pub open spec fn spec_serialize_products(ps: Seq<ProductView>) -> Seq<u8>
    decreases ps.len(),
{
    if ps.len() == 0 {
        Seq::empty()
    } else {
        spec_serialize_products(ps.drop_last()) + spec_serialize_product(ps.last())
    }
}

/// The written form of a container: the vendor names, the number of
/// products, the products, then the features listed in the order `pairs`.
pub open spec fn spec_serialize_container(v: ContainerView, pairs: Seq<(Seq<char>, FeatureView)>) -> Seq<u8> {
    VendorManager::spec_serialize(v.vendors) + encode_varint(v.products.len()) + spec_serialize_products(v.products)
        + spec_serialize_feature_listing(pairs)
}

/// What reading `count` products gives, positioned from `id` on, their
/// vendors looked up in `vendors`.
#[verifier::opaque]
pub open spec fn parse_products(input: Seq<u8>, count: nat, id: nat, vendors: Seq<Seq<char>>) -> Decoding<
    Seq<ProductView>,
>
    decreases count,
{
    if count == 0 {
        Decoding::Complete(Seq::empty(), 0)
    } else if id > usize::MAX {
        Decoding::Rejected
    } else {
        match spec_deserialize_product(input, id as usize, vendors) {
            Decoding::Complete(p, a) => after_prefix(
                seq![p],
                a,
                parse_products(input.skip(a as int), (count - 1) as nat, id + 1, vendors),
            ),
            Decoding::Rejected => Decoding::Rejected,
            Decoding::Aborts => Decoding::Aborts,
        }
    }
}

/// What reading a container gives: vendors, a count, the products and the
/// features.
#[verifier::opaque]
pub open spec fn parse_container(input: Seq<u8>) -> Decoding<ContainerView> {
    match VendorManager::spec_deserialize(input) {
        Decoding::Complete(vendors, a) => match usize::spec_deserialize(input.skip(a as int)) {
            Decoding::Complete(count, b) => match parse_products(input.skip((a + b) as int), count as nat, 0, vendors) {
                Decoding::Complete(products, c) => match spec_deserialize_feature_map(input.skip((a + b + c) as int)) {
                    Decoding::Complete(features, d) => Decoding::Complete(
                        ContainerView { products, vendors, features },
                        a + b + c + d,
                    ),
                    Decoding::Rejected => Decoding::Rejected,
                    Decoding::Aborts => Decoding::Aborts,
                },
                Decoding::Rejected => Decoding::Rejected,
                Decoding::Aborts => Decoding::Aborts,
            },
            Decoding::Rejected => Decoding::Rejected,
            Decoding::Aborts => Decoding::Aborts,
        },
        Decoding::Rejected => Decoding::Rejected,
        Decoding::Aborts => Decoding::Aborts,
    }
}

proof fn lemma_parse_products_step(input: Seq<u8>, count: nat, id: nat, vendors: Seq<Seq<char>>)
    requires
        count > 0,
        id <= usize::MAX,
    ensures
        parse_products(input, count, id, vendors) == match spec_deserialize_product(input, id as usize, vendors) {
            Decoding::Complete(p, a) => after_prefix(
                seq![p],
                a,
                parse_products(input.skip(a as int), (count - 1) as nat, id + 1, vendors),
            ),
            Decoding::Rejected => Decoding::Rejected,
            Decoding::Aborts => Decoding::Aborts,
        },
{
    reveal(parse_products);
}

/// Reads `count` products positioned from 0 on, each vendor looked up by
/// position in `vendors`.
fn read_products<'i>(input: &'i [u8], count: usize, vendors: &VendorManager) -> (res: Option<(&'i [u8], Vec<Product>)>)
    requires
        vendors.wf(),
    ensures
        match parse_products(input@, count as nat, 0, vendors.names()) {
            Decoding::Complete(ps, n) => res matches Some((rest, products)) && n <= input@.len() && rest@
                == input@.skip(n as int) && products_view(products@) == ps && forall|i: int|
                0 <= i < products@.len() ==> #[trigger] products@[i].serialization_id == i,
            _ => res is None,
        },
{
    let ghost names = vendors.names();
    let ghost whole = parse_products(input@, count as nat, 0, names);
    proof {
        reveal(parse_products);
    }
    let mut rest = input;
    let mut products: Vec<Product> = Vec::new();
    let mut id: usize = 0;
    assert(products_view(products@) =~= Seq::<ProductView>::empty());
    assert(after_prefix(Seq::<ProductView>::empty(), 0, whole) == whole);
    assert(input@.skip(0) =~= input@);
    while id < count
        invariant
            id <= count,
            vendors.wf(),
            names == vendors.names(),
            rest@.len() <= input@.len(),
            rest@ == input@.skip(input@.len() - rest@.len()),
            products@.len() == id,
            forall|i: int| 0 <= i < products@.len() ==> #[trigger] products@[i].serialization_id == i,
            whole == parse_products(input@, count as nat, 0, names),
            whole == after_prefix(
                products_view(products@),
                (input@.len() - rest@.len()) as nat,
                parse_products(rest@, (count - id) as nat, id as nat, names),
            ),
        decreases count - id,
    {
        let ghost before = rest@;
        let ghost consumed = (input@.len() - rest@.len()) as nat;
        proof {
            lemma_parse_products_step(before, (count - id) as nat, id as nat, names);
        }
        let (after, product) = Product::deserialize(rest, id, vendors)?;
        let ghost pv = product@;
        let ghost prev = products_view(products@);
        let ghost m = (before.len() - after@.len()) as nat;
        proof {
            lemma_after_prefix_twice(prev, consumed, seq![pv], m, parse_products(after@, (count - id - 1) as nat, (id + 1) as nat, names));
        }
        products.push(product);
        rest = after;
        proof {
            assert(products_view(products@) =~= prev.push(pv));
            assert(prev + seq![pv] =~= products_view(products@));
            assert(rest@ =~= input@.skip(input@.len() - rest@.len()));
        }
        id = id + 1;
    }
    proof {
        assert(products_view(products@) + Seq::<ProductView>::empty() =~= products_view(products@));
    }
    Some((rest, products))
}

impl ProductContainer {
    pub open spec fn view(&self) -> ContainerView {
        ContainerView {
            products: products_view(self.products@),
            vendors: self.vendors.names(),
            features: self.extra_features.features(),
        }
    }

    /// Writes the vendors, the number of products, each product, then the
    /// features.
    pub fn serialize(&self, output: &mut Vec<u8>)
        ensures
            exists|pairs: Seq<(Seq<char>, FeatureView)>|
                lists_map(pairs, self.view().features) && final(output)@ == old(output)@
                    + spec_serialize_container(self.view(), pairs),
    {
        let ghost start = output@;
        let ghost ps = products_view(self.products@);
        self.vendors.serialize(output);
        self.products.len().serialize(output);
        let ghost head = output@;
        let mut i: usize = 0;
        assert(ps.take(0) =~= Seq::<ProductView>::empty());
        while i < self.products.len()
            invariant
                ps == products_view(self.products@),
                i <= self.products@.len(),
                output@ == head + spec_serialize_products(ps.take(i as int)),
            decreases self.products@.len() - i,
        {
            self.products[i].serialize(output);
            proof {
                assert(ps.take(i + 1).drop_last() =~= ps.take(i as int));
                assert(ps[i as int] == self.products@[i as int]@);
            }
            i = i + 1;
        }
        assert(ps.take(i as int) =~= ps);
        let ghost middle = output@;
        self.extra_features.serialize(output);
        proof {
            let pairs = choose|pairs: Seq<(Seq<char>, FeatureView)>|
                lists_map(pairs, self.extra_features.features()) && output@ == middle
                    + spec_serialize_feature_listing(pairs);
            assert(output@ =~= start + spec_serialize_container(self.view(), pairs));
            assert(lists_map(pairs, self.view().features));
        }
    }

    /// Reads the vendors, a count, that many products (positioned in order,
    /// each vendor looked up by position), then the features.
    #[verifier::rlimit(100)]
    pub fn deserialize(input: &[u8]) -> (res: Option<(&[u8], ProductContainer)>)
        ensures
            match parse_container(input@) {
                Decoding::Complete(v, n) => res matches Some((rest, c)) && n <= input@.len() && rest@
                    == input@.skip(n as int) && c.view() == v && c.vendors.wf() && forall|i: int|
                    0 <= i < c.products@.len() ==> #[trigger] c.products@[i].serialization_id == i,
                _ => res is None,
            },
    {
        let (r1, vendors) = match VendorManager::deserialize_arena(input) {
            Some(found) => found,
            None => {
                assert(!(parse_container(input@) is Complete)) by {
                    reveal(parse_container);
                }
                return None;
            },
        };
        let ghost a = (input@.len() - r1@.len()) as nat;
        let ghost names = vendors.names();
        assert(VendorManager::spec_deserialize(input@) == Decoding::Complete(names, a));
        let (r2, product_count) = match usize::deserialize(r1) {
            Some(found) => found,
            None => {
                assert(!(parse_container(input@) is Complete)) by {
                    reveal(parse_container);
                }
                return None;
            },
        };
        let ghost b = (r1@.len() - r2@.len()) as nat;
        assert(r2@ =~= input@.skip((a + b) as int));
        assert(usize::spec_deserialize(input@.skip(a as int)) == Decoding::Complete(product_count, b));
        let (rest, products) = match read_products(r2, product_count, &vendors) {
            Some(found) => found,
            None => {
                assert(!(parse_container(input@) is Complete)) by {
                    reveal(parse_container);
                }
                return None;
            },
        };
        let ghost c = (r2@.len() - rest@.len()) as nat;
        assert(parse_products(r2@, product_count as nat, 0, names) == Decoding::Complete(products_view(products@), c));
        assert(rest@ =~= input@.skip((a + b + c) as int));
        let (r4, extra_features) = match FeatureSet::deserialize(rest) {
            Some(found) => found,
            None => {
                assert(!(parse_container(input@) is Complete)) by {
                    reveal(parse_container);
                }
                return None;
            },
        };
        let ghost d = (rest@.len() - r4@.len()) as nat;
        assert(r4@ =~= input@.skip((a + b + c + d) as int));
        let res = ProductContainer { products, vendors, extra_features };
        assert(parse_container(input@) == Decoding::Complete(res.view(), a + b + c + d)) by {
            reveal(parse_container);
        }
        Some((r4, res))
    }
}

/// A product that reads back against `vendors`: its vendor is the one at
/// its position, its texts read back, and the cut does not empty its
/// description.
pub open spec fn product_round_trips(p: ProductView, vendors: Seq<Seq<char>>) -> bool {
    &&& p.vendor.1 < vendors.len()
    &&& vendors[p.vendor.1 as int] == p.vendor.0
    &&& <String as RoundTrip>::round_trips(limited_chars(p.description, DESCRIPTION_LIMIT as nat))
    &&& <String as RoundTrip>::round_trips(p.title)
    &&& <String as RoundTrip>::round_trips(p.id)
    &&& (p.description.len() == 0 || limited_chars(p.description, DESCRIPTION_LIMIT as nat).len() > 0)
}

/// A container whose written form reads back: vendor names and products
/// that read back, each product at its own position, and features (listed
/// as `features`) that read back.
pub open spec fn container_round_trips(v: ContainerView, features: Seq<(Seq<char>, FeatureView)>) -> bool {
    &&& <Vec<String> as RoundTrip>::round_trips(v.vendors)
    &&& v.products.len() <= usize::MAX
    &&& forall|i: int|
        0 <= i < v.products.len() ==> product_round_trips(#[trigger] v.products[i], v.vendors)
            && v.products[i].serialization_id == i
    &&& <Vec<FeatureEntry> as RoundTrip>::round_trips(features)
}

/// A container read back from a written one: the same vendors and
/// features, and products that equal the written ones (descriptions may be
/// cut).
pub open spec fn container_matches(read: ContainerView, written: ContainerView) -> bool {
    &&& read.vendors == written.vendors
    &&& read.features == written.features
    &&& read.products.len() == written.products.len()
    &&& forall|i: int| 0 <= i < read.products.len() ==> products_match(#[trigger] read.products[i], written.products[i])
}

proof fn lemma_serialize_products_cons(p: ProductView, ps: Seq<ProductView>)
    ensures
        spec_serialize_products(seq![p] + ps) == spec_serialize_product(p) + spec_serialize_products(ps),
    decreases ps.len(),
{
    if ps.len() == 0 {
        assert(seq![p] + ps =~= seq![p]);
        assert(seq![p].drop_last() =~= Seq::<ProductView>::empty());
        assert(seq![p].last() == p);
        assert(spec_serialize_products(Seq::<ProductView>::empty()) == Seq::<u8>::empty());
        assert(spec_serialize_products(ps) == Seq::<u8>::empty());
        assert(spec_serialize_products(seq![p]) == Seq::<u8>::empty() + spec_serialize_product(p));
        assert(Seq::<u8>::empty() + spec_serialize_product(p) =~= spec_serialize_product(p) + Seq::<u8>::empty());
    } else {
        lemma_serialize_products_cons(p, ps.drop_last());
        assert((seq![p] + ps).drop_last() =~= seq![p] + ps.drop_last());
        assert((seq![p] + ps).last() == ps.last());
        let a = spec_serialize_product(p);
        let b = spec_serialize_products(ps.drop_last());
        let c = spec_serialize_product(ps.last());
        assert(spec_serialize_products(ps) == b + c);
        assert(spec_serialize_products(seq![p] + ps) == spec_serialize_products(seq![p] + ps.drop_last()) + c);
        assert((a + b) + c =~= a + (b + c));
    }
}

/// Products written one after the other read back, positioned from `id`
/// on, as products equal to them.
#[verifier::rlimit(80)]
#[verifier::spinoff_prover]
proof fn lemma_products_round_trip(ps: Seq<ProductView>, id: nat, vendors: Seq<Seq<char>>, rest: Seq<u8>)
    requires
        id + ps.len() <= usize::MAX + 1,
        forall|i: int| 0 <= i < ps.len() ==> product_round_trips(#[trigger] ps[i], vendors) && ps[i].serialization_id == id + i,
    ensures
        parse_products(spec_serialize_products(ps) + rest, ps.len(), id, vendors) matches Decoding::Complete(qs, n)
            && n == spec_serialize_products(ps).len() && qs.len() == ps.len() && forall|i: int|
            0 <= i < ps.len() ==> products_match(#[trigger] qs[i], ps[i]),
    decreases ps.len(),
{
    reveal(parse_products);
    if ps.len() == 0 {
        assert(spec_serialize_products(ps) + rest =~= rest);
    } else {
        let p = ps[0];
        let tail = ps.drop_first();
        assert(seq![p] + tail =~= ps);
        lemma_serialize_products_cons(p, tail);
        let a = spec_serialize_product(p);
        let b = spec_serialize_products(tail);
        let input = spec_serialize_products(ps) + rest;
        assert(input =~= a + (b + rest));
        assert(product_round_trips(ps[0], vendors));
        lemma_product_round_trip(p, vendors, b + rest);
        assert(input.skip(a.len() as int) =~= b + rest);
        assert forall|i: int| 0 <= i < tail.len() implies product_round_trips(#[trigger] tail[i], vendors)
            && tail[i].serialization_id == (id + 1) + i by {
            assert(tail[i] == ps[i + 1]);
        }
        lemma_products_round_trip(tail, id + 1, vendors, rest);
        let q = spec_deserialize_product(input, id as usize, vendors)->Complete_0;
        let qs2 = parse_products(b + rest, tail.len(), id + 1, vendors)->Complete_0;
        assert forall|i: int| 0 <= i < ps.len() implies products_match(#[trigger] (seq![q] + qs2)[i], ps[i]) by {
            if i > 0 {
                assert((seq![q] + qs2)[i] == qs2[i - 1]);
                assert(ps[i] == tail[i - 1]);
            }
        }
    }
}

/// A container written with its features listed as `features` reads back
/// as a container equal to it, having read every byte written.
#[verifier::rlimit(100)]
pub proof fn lemma_container_round_trip(v: ContainerView, features: Seq<(Seq<char>, FeatureView)>, rest: Seq<u8>)
    requires
        lists_map(features, v.features),
        container_round_trips(v, features),
    ensures
        parse_container(spec_serialize_container(v, features) + rest) matches Decoding::Complete(w, n)
            && n == spec_serialize_container(v, features).len() && container_matches(w, v),
{
    let a = VendorManager::spec_serialize(v.vendors);
    let b = encode_varint(v.products.len());
    let c = spec_serialize_products(v.products);
    let d = spec_serialize_feature_listing(features);
    let input = spec_serialize_container(v, features) + rest;
    assert(input =~= a + (b + (c + (d + rest))));
    <Vec<String> as RoundTrip>::lemma_round_trip(v.vendors, b + (c + (d + rest)));
    assert(VendorManager::spec_deserialize(input) == Decoding::Complete(v.vendors, a.len()));
    assert(input.skip(a.len() as int) =~= b + (c + (d + rest)));
    crate::serialize::primitives::lemma_usize_round_trip(v.products.len() as usize, c + (d + rest));
    assert(usize::spec_deserialize(input.skip(a.len() as int)) == Decoding::Complete(
        v.products.len() as usize,
        b.len(),
    ));
    assert(input.skip((a.len() + b.len()) as int) =~= c + (d + rest));
    lemma_products_round_trip(v.products, 0, v.vendors, d + rest);
    let qs = parse_products(c + (d + rest), v.products.len(), 0, v.vendors)->Complete_0;
    assert(input.skip((a.len() + b.len() + c.len()) as int) =~= d + rest);
    <Vec<FeatureEntry> as RoundTrip>::lemma_round_trip(features, rest);
    assert(spec_deserialize_feature_map(d + rest) == Decoding::Complete(v.features, d.len()));
    let w = ContainerView { products: qs, vendors: v.vendors, features: v.features };
    assert(parse_container(input) == Decoding::Complete(w, a.len() + b.len() + c.len() + d.len())) by {
        reveal(parse_container);
    }
}

} // verus!
