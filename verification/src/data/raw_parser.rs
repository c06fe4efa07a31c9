use vstd::prelude::*;

use ahash::AHashMap;

use super::container::ProductContainer;
use super::features::{accepts_kind, FeatureSet, FeatureValue, FeatureView};
use super::product::{Product, ProductView};
use super::vendor::{last_position, VendorManager};
use crate::classic_indexes::categorical::{
    index_categories, lemma_total_values_prefix, lemma_values_in_prefix, raw_lists, raw_option_view, total_values,
    values_in,
    CategoryIndex,
};
use crate::classic_indexes::order::{indexes, order_of, OrderIndex};
use crate::classic_indexes::tag::{lists_tags, tag_lists, tag_names, TagIndex};
use crate::classic_indexes::ClassicIndexes;
use crate::sorting::{text_key, text_key_exec};
use crate::hashing::{
    number_values, number_values_insert, number_values_into_entries, number_values_with_capacity, text_values,
    text_values_insert, text_values_into_entries, text_values_with_capacity,
};
use crate::serialize::primitives::FloatBits;

verus! {

/// An amount of money as the product feed writes it.
pub struct CurrencyAmount {
    pub amount: String,
    pub currency_code: String,
}

/// The price range of a product.
pub struct ProductPrice {
    pub min: CurrencyAmount,
    pub max: CurrencyAmount,
}

/// A picture of a product.
pub struct MediaItem {
    pub url: String,
}

/// A named option of a product and the values it comes in (size: S, M, L).
pub struct RawProductOption {
    pub name: String,
    pub values: Vec<String>,
}

/// A product as the feed describes it.
pub struct RawProduct {
    pub description: String,
    pub tags: Vec<String>,
    pub title: String,
    pub vendor: String,
    pub id: String,
    pub options: Vec<RawProductOption>,
    pub price: ProductPrice,
    pub media: Vec<MediaItem>,
}

/// A product from the feed with its picture and price taken out as extra
/// features: the picture under `image_url` (if it has one), the price under
/// `price`.
pub struct IntermediateRawProduct {
    pub title: String,
    pub description: String,
    pub tags: Vec<String>,
    pub vendor: String,
    pub id: String,
    pub options: Vec<RawProductOption>,
    pub other_string: AHashMap<String, String>,
    pub other_numeric: AHashMap<String, FloatBits>,
}

/// The text features of a feed product: its first picture, if it has one.
pub open spec fn text_features_of(p: RawProduct) -> Map<Seq<char>, Seq<char>> {
    if p.media@.len() > 0 {
        Map::empty().insert("image_url"@, p.media@[0].url@)
    } else {
        Map::empty()
    }
}

/// `m` is feed product `p` with its extra features taken out, its price
/// being the float with bit pattern `price`.
pub open spec fn intermediate_of(m: IntermediateRawProduct, p: RawProduct, price: u32) -> bool {
    &&& m.title == p.title
    &&& m.description == p.description
    &&& m.tags == p.tags
    &&& m.vendor == p.vendor
    &&& m.id == p.id
    &&& m.options == p.options
    &&& text_values(m.other_string) == text_features_of(p)
    &&& number_values(m.other_numeric) == Map::<Seq<char>, u32>::empty().insert("price"@, price)
}

/// Takes the first picture and the price of each feed product out as extra
/// features; `prices` holds each product's lowest price as a float bit
/// pattern, in product order.
pub fn to_intermediate(input: Vec<RawProduct>, prices: &Vec<FloatBits>) -> (res: Vec<IntermediateRawProduct>)
    requires
        prices@.len() == input@.len(),
    ensures
        res@.len() == input@.len(),
        forall|i: int| 0 <= i < input@.len() ==> intermediate_of(#[trigger] res@[i], input@[i], prices@[i].bits),
{
    let ghost all = input@;
    let n = input.len();
    let mut res: Vec<IntermediateRawProduct> = Vec::new();
    let mut i: usize = 0;
    for raw in it: input.into_iter()
        invariant
            it.seq() == all,
            all.len() == n,
            i == it.index(),
            prices@.len() == all.len(),
            res@.len() == i,
            forall|j: int| 0 <= j < i ==> intermediate_of(#[trigger] res@[j], all[j], prices@[j].bits),
    {
        assert(i < all.len());
        assert(raw == all[i as int]);
        let RawProduct { description, tags, title, vendor, id, options, mut media, price: _ } = raw;
        let mut other_string = text_values_with_capacity(1);
        if media.len() > 0 {
            let first = media.swap_remove(0);
            text_values_insert(&mut other_string, "image_url".to_string(), first.url);
        }
        let mut other_numeric = number_values_with_capacity(1);
        number_values_insert(&mut other_numeric, "price".to_string(), prices[i]);
        let item = IntermediateRawProduct {
            title,
            description,
            tags,
            vendor,
            id,
            options,
            other_string,
            other_numeric,
        };
        proof {
            assert(text_values(item.other_string) =~= text_features_of(all[i as int]));
            let p = all[i as int];
            assert(item.title == p.title);
            assert(item.tags == p.tags);
            assert(item.options == p.options);
            assert(number_values(item.other_numeric) == Map::<Seq<char>, u32>::empty().insert("price"@, prices@[i as int].bits));
            assert(intermediate_of(item, all[i as int], prices@[i as int].bits));
        }
        res.push(item);
        i = i + 1;
    }
    res
}

/// The vendors of the feed products, each once, in order of first
/// appearance.
pub open spec fn first_seen_vendors(input: Seq<RawProduct>) -> Seq<Seq<char>>
    decreases input.len(),
{
    if input.len() == 0 {
        Seq::empty()
    } else {
        let seen = first_seen_vendors(input.drop_last());
        if seen.contains(input.last().vendor@) {
            seen
        } else {
            seen.push(input.last().vendor@)
        }
    }
}

/// The first pictures of the feed products that have one, in product order.
pub open spec fn image_urls(input: Seq<RawProduct>) -> Seq<Seq<char>>
    decreases input.len(),
{
    if input.len() == 0 {
        Seq::empty()
    } else if input.last().media@.len() > 0 {
        image_urls(input.drop_last()).push(input.last().media@[0].url@)
    } else {
        image_urls(input.drop_last())
    }
}

/// The extra features of an index of the feed products: `price`, the
/// prices of all products (given as float bit patterns, in product order),
/// and `image_url`, the first pictures of those that have one; a feature
/// that no product has a value for is absent.
pub open spec fn extra_features_of(input: Seq<RawProduct>, prices: Seq<u32>) -> Map<Seq<char>, FeatureView> {
    let priced = if input.len() > 0 {
        Map::empty().insert("price"@, FeatureView::Float(prices))
    } else {
        Map::empty()
    };
    if image_urls(input).len() > 0 {
        priced.insert("image_url"@, FeatureView::String(image_urls(input)))
    } else {
        priced
    }
}

/// Text `v` added to feature `key`.
spec fn with_text(m: Map<Seq<char>, FeatureView>, key: Seq<char>, v: Seq<char>) -> Map<Seq<char>, FeatureView> {
    m.insert(
        key,
        FeatureView::String(
            if m.contains_key(key) {
                m[key]->String_0.push(v)
            } else {
                seq![v]
            },
        ),
    )
}

/// Float bit pattern `v` added to feature `key`.
spec fn with_float(m: Map<Seq<char>, FeatureView>, key: Seq<char>, v: u32) -> Map<Seq<char>, FeatureView> {
    m.insert(
        key,
        FeatureView::Float(
            if m.contains_key(key) {
                m[key]->Float_0.push(v)
            } else {
                seq![v]
            },
        ),
    )
}

/// The features after one more product adds its picture, if it has one,
/// then its price.
spec fn with_product(m: Map<Seq<char>, FeatureView>, p: RawProduct, price: u32) -> Map<Seq<char>, FeatureView> {
    let pictured = if p.media@.len() > 0 {
        with_text(m, "image_url"@, p.media@[0].url@)
    } else {
        m
    };
    with_float(pictured, "price"@, price)
}

proof fn lemma_feature_names_differ()
    ensures
        "image_url"@ != "price"@,
{
    reveal_strlit("image_url");
    reveal_strlit("price");
    assert("image_url"@.len() != "price"@.len());
}

/// The extra features of one more product.
proof fn lemma_extra_features_step(input: Seq<RawProduct>, prices: Seq<u32>, i: int)
    requires
        0 <= i < input.len(),
        prices.len() == input.len(),
    ensures
        extra_features_of(input.take(i + 1), prices.take(i + 1)) == with_product(
            extra_features_of(input.take(i), prices.take(i)),
            input[i],
            prices[i],
        ),
        accepts_kind(extra_features_of(input.take(i), prices.take(i)), "image_url"@, 0),
        accepts_kind(extra_features_of(input.take(i), prices.take(i)), "price"@, 1),
{
    lemma_feature_names_differ();
    let before = input.take(i);
    let after = input.take(i + 1);
    assert(after.drop_last() =~= before);
    assert(after.last() == input[i]);
    assert(prices.take(i).push(prices[i]) =~= prices.take(i + 1));
    let m = extra_features_of(before, prices.take(i));
    let pictured = if input[i].media@.len() > 0 {
        with_text(m, "image_url"@, input[i].media@[0].url@)
    } else {
        m
    };
    assert(pictured.contains_key("price"@) == m.contains_key("price"@));
    assert(m.contains_key("price"@) <==> i > 0);
    if i > 0 {
        assert(pictured["price"@] == FeatureView::Float(prices.take(i)));
    } else {
        assert(seq![prices[i]] =~= prices.take(i + 1));
    }
    let urls = image_urls(before);
    if input[i].media@.len() > 0 {
        assert(image_urls(after) == urls.push(input[i].media@[0].url@));
        if urls.len() == 0 {
            assert(seq![input[i].media@[0].url@] =~= urls.push(input[i].media@[0].url@));
        } else {
            assert(m["image_url"@] == FeatureView::String(urls));
        }
    } else {
        assert(image_urls(after) == urls);
    }
    assert(extra_features_of(after, prices.take(i + 1)) =~= with_product(m, input[i], prices[i]));
}

/// Every feed product's vendor is among the vendors seen.
proof fn lemma_vendor_seen(input: Seq<RawProduct>, i: int)
    requires
        0 <= i < input.len(),
    ensures
        first_seen_vendors(input).contains(input[i].vendor@),
    decreases input.len(),
{
    let init = input.drop_last();
    if i < input.len() - 1 {
        lemma_vendor_seen(init, i);
        assert(init[i] == input[i]);
        let seen = first_seen_vendors(init);
        let k = choose|k: int| 0 <= k < seen.len() && seen[k] == input[i].vendor@;
        if !seen.contains(input.last().vendor@) {
            assert(seen.push(input.last().vendor@)[k] == input[i].vendor@);
        }
    } else {
        let seen = first_seen_vendors(init);
        if !seen.contains(input.last().vendor@) {
            assert(seen.push(input.last().vendor@)[seen.len() as int] == input[i].vendor@);
        }
    }
}

/// The vendors of the feed products, each once, in order of first
/// appearance.
fn collect_vendors(input: &Vec<RawProduct>) -> (res: VendorManager)
    ensures
        res.wf(),
        res.names() == first_seen_vendors(input@),
{
    let mut vendors = VendorManager::new();
    let mut k: usize = 0;
    assert(input@.take(0) =~= Seq::<RawProduct>::empty());
    while k < input.len()
        invariant
            k <= input@.len(),
            vendors.wf(),
            vendors.names() == first_seen_vendors(input@.take(k as int)),
        decreases input@.len() - k,
    {
        vendors.insert(input[k].vendor.as_str());
        proof {
            assert(input@.take(k + 1).drop_last() =~= input@.take(k as int));
        }
        k = k + 1;
    }
    assert(input@.take(k as int) =~= input@);
    vendors
}

/// Adds a product's extra features: its picture, if it has one, then its
/// price.
fn add_extra_features(
    features: &mut FeatureSet,
    other_string: AHashMap<String, String>,
    other_numeric: AHashMap<String, FloatBits>,
    Ghost(p): Ghost<RawProduct>,
    Ghost(price): Ghost<u32>,
)
    requires
        text_values(other_string) == text_features_of(p),
        number_values(other_numeric) == Map::<Seq<char>, u32>::empty().insert("price"@, price),
        accepts_kind(old(features).features(), "image_url"@, 0),
        accepts_kind(old(features).features(), "price"@, 1),
    ensures
        final(features).features() == with_product(old(features).features(), p, price),
{
    proof {
        lemma_feature_names_differ();
    }
    let ghost start = features.features();
    let texts = text_values_into_entries(other_string);
    let ghost ts = texts@;
    proof {
        if ts.len() > 0 {
            assert(text_values(other_string).contains_key(ts[0].0@));
        }
        if ts.len() > 1 {
            assert(text_values(other_string).contains_key(ts[1].0@));
            assert(ts[0].0@ != ts[1].0@);
        }
        if p.media@.len() > 0 {
            assert(text_values(other_string).contains_key("image_url"@));
        }
    }
    for entry in it: texts.into_iter()
        invariant
            it.seq() == ts,
            ts.len() <= 1,
            ts.len() == 1 ==> ts[0].0@ == "image_url"@ && ts[0].1@ == p.media@[0].url@,
            ts.len() == 1 <==> p.media@.len() > 0,
            accepts_kind(start, "image_url"@, 0),
            features.features() == if it.index() == 0 {
                start
            } else {
                with_text(start, "image_url"@, p.media@[0].url@)
            },
    {
        let (key, value) = entry;
        features.add_string(key.as_str(), value);
    }
    let ghost pictured = features.features();
    assert(pictured == if p.media@.len() > 0 {
        with_text(start, "image_url"@, p.media@[0].url@)
    } else {
        start
    });
    assert(accepts_kind(pictured, "price"@, 1));
    let numbers = number_values_into_entries(other_numeric);
    let ghost ns = numbers@;
    proof {
        assert(number_values(other_numeric).contains_key("price"@));
        if ns.len() > 1 {
            assert(number_values(other_numeric).contains_key(ns[1].0@));
            assert(number_values(other_numeric).contains_key(ns[0].0@));
            assert(ns[0].0@ != ns[1].0@);
        }
        assert(ns.len() > 0);
        assert(number_values(other_numeric).contains_key(ns[0].0@));
    }
    for entry in it: numbers.into_iter()
        invariant
            it.seq() == ns,
            ns.len() == 1,
            ns[0].0@ == "price"@,
            ns[0].1.bits == price,
            accepts_kind(pictured, "price"@, 1),
            features.features() == if it.index() == 0 {
                pictured
            } else {
                with_float(pictured, "price"@, price)
            },
    {
        let (key, value) = entry;
        features.add_float(key.as_str(), value);
    }
}

/// The product that feed product `p` becomes at position `i`, its vendor
/// numbered in `vendors`.
pub open spec fn indexed_product(p: RawProduct, vendors: Seq<Seq<char>>, i: int) -> ProductView {
    ProductView {
        description: p.description@,
        title: p.title@,
        vendor: (p.vendor@, last_position(vendors, p.vendor@) as usize),
        id: p.id@,
        serialization_id: i as usize,
    }
}

/// The place of a float, given by its bit pattern, in the order of float
/// values: both zeros share a key, negative numbers come below positive
/// ones, and within a sign the order of the magnitudes is that of the bit
/// patterns (a NaN comes beyond the infinity of its sign).
pub open spec fn price_key(bits: u32) -> u32 {
    if bits & 0x7fff_ffff == 0 {
        0x8000_0000
    } else if bits & 0x8000_0000 != 0 {
        !bits
    } else {
        bits | 0x8000_0000
    }
}

/// The key that orders a price.
pub fn price_order_key(bits: u32) -> (res: u32)
    ensures
        res == price_key(bits),
{
    if bits & 0x7fff_ffff == 0 {
        0x8000_0000
    } else if bits & 0x8000_0000 != 0 {
        !bits
    } else {
        bits | 0x8000_0000
    }
}

/// The keys that order products by title.
pub open spec fn title_keys(products: Seq<Product>) -> Seq<Seq<u32>> {
    products.map_values(|p: Product| text_key(p.title@))
}

/// The keys that order products by price.
pub open spec fn price_keys(prices: Seq<u32>) -> Seq<Seq<u32>> {
    prices.map_values(|b: u32| seq![price_key(b)])
}

/// The orderings of a fresh index: by title, by price from low to high and
/// by price from high to low (equal keys in product order).
pub open spec fn default_orders(products: Seq<Product>, prices: Seq<u32>) -> Map<Seq<char>, Seq<usize>> {
    Map::empty().insert("Alphabetical"@, order_of(products, title_keys(products), false)).insert(
        "Price low to high"@,
        order_of(products, price_keys(prices), false),
    ).insert("Price high to low"@, order_of(products, price_keys(prices), true))
}

/// The tags of each feed product.
pub open spec fn feed_tags(input: Seq<RawProduct>) -> Seq<Vec<String>> {
    input.map_values(|p: RawProduct| p.tags)
}

/// The options of each feed product.
pub open spec fn feed_options(input: Seq<RawProduct>) -> Seq<Vec<RawProductOption>> {
    input.map_values(|p: RawProduct| p.options)
}

/// The title keys of the products, in product order.
fn title_keys_of(container: &ProductContainer) -> (res: Vec<Vec<u32>>)
    ensures
        res@.len() == container.products@.len(),
        res.deep_view() == title_keys(container.products@),
{
    let mut res: Vec<Vec<u32>> = Vec::new();
    let mut k: usize = 0;
    while k < container.products.len()
        invariant
            k <= container.products@.len(),
            res@.len() == k,
            res.deep_view() == title_keys(container.products@).take(k as int),
        decreases container.products@.len() - k,
    {
        let key = text_key_exec(container.products[k].title.as_str());
        let ghost before = res.deep_view();
        assert(key.deep_view() =~= key@);
        res.push(key);
        assert(res.deep_view() =~= before.push(key@));
        k = k + 1;
        assert(res.deep_view() =~= title_keys(container.products@).take(k as int));
    }
    assert(title_keys(container.products@).take(k as int) =~= title_keys(container.products@));
    res
}

/// The price keys of the products, in product order, read from their
/// `price` feature.
fn price_keys_of(container: &ProductContainer, Ghost(bits): Ghost<Seq<u32>>) -> (res: Vec<Vec<u32>>)
    requires
        bits.len() == container.products@.len(),
        forall|j: int| 0 <= j < bits.len() ==> (#[trigger] container.products@[j]).serialization_id == j,
        bits.len() > 0 ==> container.extra_features.features().contains_key("price"@)
            && container.extra_features.features()["price"@] == FeatureView::Float(bits),
    ensures
        res@.len() == bits.len(),
        res.deep_view() == price_keys(bits),
{
    let mut res: Vec<Vec<u32>> = Vec::new();
    let mut k: usize = 0;
    while k < container.products.len()
        invariant
            k <= container.products@.len(),
            bits.len() == container.products@.len(),
            forall|j: int| 0 <= j < bits.len() ==> (#[trigger] container.products@[j]).serialization_id == j,
            bits.len() > 0 ==> container.extra_features.features().contains_key("price"@)
                && container.extra_features.features()["price"@] == FeatureView::Float(bits),
            res@.len() == k,
            res.deep_view() == price_keys(bits).take(k as int),
        decreases container.products@.len() - k,
    {
        let product = &container.products[k];
        assert(product.serialization_id == k);
        let key = match container.extra_features.get(product, "price") {
            Some(FeatureValue::Float(v)) => price_order_key(v.bits),
            _ => {
                proof {
                    assert(false);
                }
                0
            },
        };
        let single = vec![key];
        assert(single.deep_view() =~= seq![key]);
        let ghost before = res.deep_view();
        res.push(single);
        assert(res.deep_view() =~= before.push(seq![key]));
        k = k + 1;
        assert(res.deep_view() =~= price_keys(bits).take(k as int));
    }
    assert(price_keys(bits).take(k as int) =~= price_keys(bits));
    res
}

/// Adds an ordering with the largest keys first.
fn add_descending(order: &mut OrderIndex, products: &ProductContainer, keys: &Vec<Vec<u32>>, key: String)
    requires
        keys@.len() == products.products@.len(),
        forall|i: int|
            0 <= i < products.products@.len() ==> #[trigger] products.products@[i].serialization_id
                < products.products@.len(),
    ensures
        final(order).orders() == old(order).orders().insert(
            key@,
            order_of(products.products@, keys.deep_view(), true),
        ),
{
    order.add_custom_cmp(products, keys, true, key);
}

/// The number of option values of all feed products, when it is below
/// `usize::MAX` (so that every value can be numbered).
pub fn count_option_values(input: &Vec<RawProduct>) -> (res: Option<usize>)
    ensures
        res matches Some(n) ==> n == total_values(raw_lists(feed_options(input@))),
        res is None ==> total_values(raw_lists(feed_options(input@))) >= usize::MAX,
{
    let ghost list = raw_lists(feed_options(input@));
    let mut sum: usize = 0;
    let mut i: usize = 0;
    assert(list.take(0) =~= Seq::<Seq<(Seq<char>, Seq<Seq<char>>)>>::empty());
    while i < input.len()
        invariant
            list == raw_lists(feed_options(input@)),
            list.len() == input@.len(),
            i <= input@.len(),
            sum == total_values(list.take(i as int)),
            sum < usize::MAX,
        decreases input@.len() - i,
    {
        let options = &input[i].options;
        let ghost opts = list[i as int];
        assert(opts == options@.map_values(|o: RawProductOption| raw_option_view(o)));
        let mut j: usize = 0;
        assert(opts.take(0) =~= Seq::<(Seq<char>, Seq<Seq<char>>)>::empty());
        while j < options.len()
            invariant
                list == raw_lists(feed_options(input@)),
                list.len() == input@.len(),
                i < input@.len(),
                opts == list[i as int],
                opts == options@.map_values(|o: RawProductOption| raw_option_view(o)),
                j <= options@.len(),
                sum == total_values(list.take(i as int)) + values_in(opts.take(j as int)),
                sum < usize::MAX,
            decreases options@.len() - j,
        {
            let count = options[j].values.len();
            proof {
                lemma_values_in_prefix(opts, j as int);
                lemma_total_values_prefix(list, i as int);
                assert(opts[j as int].1.len() == count);
            }
            if count >= usize::MAX - sum {
                proof {
                    lemma_values_in_prefix(opts, j as int);
                }
                return None;
            }
            sum = sum + count;
            j = j + 1;
        }
        proof {
            assert(opts.take(j as int) =~= opts);
            lemma_total_values_prefix(list, i as int);
        }
        i = i + 1;
    }
    assert(list.take(i as int) =~= list);
    Some(sum)
}

/// Builds the product container and the classic indexes of the feed
/// products: the vendors in order of first appearance, each product at its
/// position with its picture and price as extra features, the tags and
/// categories of the products, and the orderings by title and by price.
/// `prices` holds each product's lowest price as a float bit pattern, in
/// product order.
pub fn optimize(input: Vec<RawProduct>, prices: &Vec<FloatBits>) -> (res: (ProductContainer, ClassicIndexes))
    requires
        prices@.len() == input@.len(),
        total_values(raw_lists(feed_options(input@))) < usize::MAX,
    ensures
        res.0.vendors.wf(),
        res.0.vendors.names() == first_seen_vendors(input@),
        res.0.products@.len() == input@.len(),
        forall|i: int|
            0 <= i < input@.len() ==> (#[trigger] res.0.products@[i])@ == indexed_product(
                input@[i],
                first_seen_vendors(input@),
                i,
            ),
        res.0.extra_features.features() == extra_features_of(input@, prices.deep_view()),
        res.1.tags.wf(),
        lists_tags(res.1.tags.view(), tag_lists(tag_names(feed_tags(input@)), indexes(input@.len()))),
        res.1.categories.wf(),
        res.1.categories.view() == index_categories(raw_lists(feed_options(input@)), indexes(input@.len())).0,
        res.1.order.orders() == default_orders(res.0.products@, prices.deep_view()),
{
    let ghost all = input@;
    let ghost bits = prices.deep_view();
    let n = input.len();
    let vendors = collect_vendors(&input);
    let mut products: Vec<Product> = Vec::new();
    let mut extra_features = FeatureSet::new_empty();
    let mut options_list: Vec<Vec<RawProductOption>> = Vec::new();
    let mut tags_for_product: Vec<Vec<String>> = Vec::new();
    let items = to_intermediate(input, prices);
    let ghost itms = items@;
    let mut i: usize = 0;
    proof {
        assert(all.take(0) =~= Seq::<RawProduct>::empty());
        assert(bits.take(0) =~= Seq::<u32>::empty());
        assert(extra_features.features() =~= extra_features_of(all.take(0), bits.take(0)));
        assert(feed_tags(all.take(0)) =~= tags_for_product@);
        assert(feed_options(all.take(0)) =~= options_list@);
    }
    for item in it: items.into_iter()
        invariant
            it.seq() == itms,
            i == it.index(),
            itms.len() == n,
            all.len() == n,
            bits.len() == n,
            bits == prices.deep_view(),
            forall|j: int| 0 <= j < n ==> intermediate_of(#[trigger] itms[j], all[j], bits[j]),
            vendors.wf(),
            vendors.names() == first_seen_vendors(all),
            products@.len() == i,
            forall|j: int| 0 <= j < i ==> (#[trigger] products@[j])@ == indexed_product(all[j], vendors.names(), j),
            extra_features.features() == extra_features_of(all.take(i as int), bits.take(i as int)),
            tags_for_product@ == feed_tags(all.take(i as int)),
            options_list@ == feed_options(all.take(i as int)),
    {
        assert(item == itms[i as int]);
        let ghost raw = all[i as int];
        let IntermediateRawProduct { title, description, tags, vendor, id, options, other_string, other_numeric } =
            item;
        proof {
            lemma_vendor_seen(all, i as int);
            lemma_extra_features_step(all, bits, i as int);
        }
        let my_vendor = vendors.get(vendor.as_str()).unwrap().copy();
        tags_for_product.push(tags);
        options_list.push(options);
        let p = Product { description, vendor: my_vendor, title, id, serialization_id: i };
        add_extra_features(&mut extra_features, other_string, other_numeric, Ghost(raw), Ghost(bits[i as int]));
        products.push(p);
        proof {
            assert(feed_tags(all.take(i + 1)) =~= feed_tags(all.take(i as int)).push(raw.tags));
            assert(feed_options(all.take(i + 1)) =~= feed_options(all.take(i as int)).push(raw.options));
        }
        i = i + 1;
    }
    proof {
        assert(all.take(n as int) =~= all);
        assert(bits.take(n as int) =~= bits);
    }
    let out = ProductContainer::new(products, vendors, extra_features);
    proof {
        assert(out.products@.map_values(|p: Product| p.serialization_id) =~= indexes(n as nat));
    }
    let tag_index = TagIndex::index(tags_for_product, &out);
    let mut order = OrderIndex::new();
    let titles = title_keys_of(&out);
    order.add(&out, &titles, "Alphabetical".to_string());
    proof {
        lemma_feature_names_differ();
    }
    let price_order = price_keys_of(&out, Ghost(bits));
    order.add(&out, &price_order, "Price low to high".to_string());
    add_descending(&mut order, &out, &price_order, "Price high to low".to_string());
    let categories = CategoryIndex::index(options_list, &out);
    proof {
        assert(out.products@.map_values(|p: Product| p.serialization_id) =~= indexes(n as nat));
        assert(order.orders() =~= default_orders(out.products@, bits));
    }
    (out, ClassicIndexes::new(categories, tag_index, order))
}

} // verus!
