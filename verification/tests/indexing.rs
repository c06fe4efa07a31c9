use indexer_lib::classic_indexes::ClassicIndexes;
use indexer_lib::data::container::ProductContainer;
use indexer_lib::data::features::{Feature, FeatureValue};
use indexer_lib::data::raw_parser::{
    optimize, price_order_key, CurrencyAmount, MediaItem, ProductPrice, RawProduct, RawProductOption,
};
use indexer_lib::ngram::feed::IndexFeed;
use indexer_lib::ngram::index::GramIndex;
use indexer_lib::ngram::node::GramNode;
use indexer_lib::ngram::search::{search_moves, SearchMove};
use indexer_lib::serialize::all_indexes::{deserialize_all, serialize_all};
use indexer_lib::serialize::collections::limit_string_len;
use indexer_lib::serialize::primitives::FloatBits;

fn amount(v: &str) -> CurrencyAmount {
    CurrencyAmount { amount: v.to_string(), currency_code: "DKK".to_string() }
}

fn raw(
    title: &str,
    description: &str,
    vendor: &str,
    id: &str,
    tags: &[&str],
    options: &[(&str, &[&str])],
    price: &str,
    media: &[&str],
) -> RawProduct {
    RawProduct {
        description: description.to_string(),
        tags: tags.iter().map(|t| t.to_string()).collect(),
        title: title.to_string(),
        vendor: vendor.to_string(),
        id: id.to_string(),
        options: options
            .iter()
            .map(|(name, values)| RawProductOption {
                name: name.to_string(),
                values: values.iter().map(|v| v.to_string()).collect(),
            })
            .collect(),
        price: ProductPrice { min: amount(price), max: amount(price) },
        media: media.iter().map(|u| MediaItem { url: u.to_string() }).collect(),
    }
}

fn sample_products() -> Vec<RawProduct> {
    vec![
        raw(
            "Red Wool Sweater",
            "A warm sweater knitted from the softest lambswool, perfect for long winter evenings by the fire and brisk walks outside in the snow.",
            "Nordic Knits",
            "gid://shopify/Product/7001",
            &["wool", "winter"],
            &[("Size", &["S", "M", "L"]), ("Color", &["Red"])],
            "499.95",
            &["https://img.example/sweater.jpg", "https://img.example/sweater2.jpg"],
        ),
        raw(
            "Blue Cotton Shirt",
            "Light cotton shirt.",
            "Shirt Co",
            "gid://shopify/Product/7002",
            &["cotton", "summer"],
            &[("Size", &["M", "XL"]), ("Color", &["Blue"])],
            "199",
            &[],
        ),
        raw(
            "Green Wool Scarf",
            "A long scarf in green wool.",
            "Nordic Knits",
            "gid://shopify/Product/7003",
            &["wool", "winter", "accessories"],
            &[("Color", &["Green"])],
            "149.5",
            &["https://img.example/scarf.jpg"],
        ),
        raw(
            "Æble Mug",
            "En kop til æblemost og kaffe, håndlavet i Danmark.",
            "Keramik Ærø",
            "gid://shopify/Product/7004",
            &["kitchen"],
            &[],
            "89",
            &["https://img.example/mug.jpg"],
        ),
        raw(
            "Blue Wool Socks",
            "Socks 👽 for cold feet.",
            "Nordic Knits",
            "gid://shopify/Product/7005",
            &["wool", "winter"],
            &[("Size", &["S", "M"])],
            "79.95",
            &[],
        ),
    ]
}

fn prices_of(products: &[RawProduct]) -> Vec<FloatBits> {
    products
        .iter()
        .map(|p| FloatBits { bits: p.price.min.amount.parse::<f32>().unwrap().to_bits() })
        .collect()
}

fn build(products: Vec<RawProduct>) -> (ProductContainer, ClassicIndexes) {
    let prices = prices_of(&products);
    optimize(products, &prices)
}

fn feeds_of(container: &ProductContainer) -> Vec<IndexFeed> {
    container
        .products
        .iter()
        .map(|p| IndexFeed {
            grams: [p.description.as_str(), p.title.as_str(), p.vendor.name.as_str()]
                .into_iter()
                .flat_map(|s| s.chars())
                .flat_map(char::to_lowercase)
                .collect(),
            data: p.serialization_id,
        })
        .collect()
}

fn make_index<const N: usize>() -> (GramIndex<N>, ClassicIndexes) {
    let (container, classic) = build(sample_products());
    let feeds = feeds_of(&container);
    (GramIndex::<N>::index_from(feeds, container), classic)
}

fn same_node(a: &GramNode, b: &GramNode) -> bool {
    a.item == b.item
        && a.occurrences == b.occurrences
        && a.parent_occurrences == b.parent_occurrences
        && a.items == b.items
        && a.by_occurances.len() == b.by_occurances.len()
        && a.by_occurances.iter().zip(b.by_occurances.iter()).all(|(x, y)| same_node(x, y))
}


#[test]
fn test_index_generation() {
    let (index, _) = make_index::<5>();
    std::mem::drop(index);
}

#[test]
fn test_serialize_deserialize_wasm() {
    check_round_trip::<8>();
}

#[test]
fn test_serialize_and_deserialize() {
    check_round_trip::<8>();
    check_round_trip::<3>();
}

fn check_round_trip<const N: usize>() {
    let (index, classic) = make_index::<N>();
    let buff = serialize_all(&index, &classic);
    let (ngram, read_classic): (GramIndex<N>, ClassicIndexes) = deserialize_all(&buff[..]).unwrap();

    // The n-gram tree and the hit lists.
    assert_eq!(index.roots.len(), ngram.roots.len());
    for (c, node) in index.roots.iter() {
        assert!(same_node(node, ngram.roots.get(c).unwrap()), "tree of {c:?} differs");
    }
    assert_eq!(index.data.len(), ngram.data.len());
    for (window, hits) in index.data.iter() {
        assert_eq!(hits, ngram.data.get(window).unwrap());
    }

    // The products, vendors and features.
    let (a, b) = (&index.product_container, &ngram.product_container);
    assert_eq!(a.products.len(), b.products.len());
    for (p, q) in a.products.iter().zip(b.products.iter()) {
        assert_eq!(p.title, q.title);
        assert_eq!(p.id, q.id);
        assert_eq!(p.vendor, q.vendor);
        assert_eq!(p.serialization_id, q.serialization_id);
        assert_eq!(limit_string_len(&p.description, 100), q.description);
    }
    assert_eq!(a.vendors.len(), b.vendors.len());
    for key in ["price", "image_url"] {
        match (a.extra_features.get_feature(key), b.extra_features.get_feature(key)) {
            (Some(Feature::Float(x)), Some(Feature::Float(y))) => assert_eq!(x, y),
            (Some(Feature::String(x)), Some(Feature::String(y))) => assert_eq!(x, y),
            _ => panic!("feature {key} differs"),
        }
    }

    // The classic indexes.
    assert_eq!(classic.categories.0.len(), read_classic.categories.0.len());
    for (x, y) in classic.categories.0.iter().zip(read_classic.categories.0.iter()) {
        assert_eq!(x.name, y.name);
        assert_eq!(x.exclusive, y.exclusive);
        assert_eq!(x.options.len(), y.options.len());
        for (o, p) in x.options.iter().zip(y.options.iter()) {
            assert_eq!(o.name, p.name);
            assert_eq!(o.serialization_id, p.serialization_id);
            assert_eq!(o.content(), p.content());
        }
    }
    assert_eq!(classic.tags.iter().len(), read_classic.tags.iter().len());
    for (x, y) in classic.tags.iter().iter().zip(read_classic.tags.iter().iter()) {
        assert_eq!(x.name, y.name);
        assert_eq!(x.get_id(), y.get_id());
        assert_eq!(x.products(), y.products());
    }
    let mut names: Vec<String> = classic.order.options().into_iter().cloned().collect();
    let mut read_names: Vec<String> = read_classic.order.options().into_iter().cloned().collect();
    names.sort();
    read_names.sort();
    assert_eq!(names, read_names);
    for name in names.iter() {
        assert_eq!(classic.order.get_orders(name), read_classic.order.get_orders(name));
    }
}

#[test]
fn optimize_numbers_products_and_vendors_in_order() {
    let (container, _) = build(sample_products());
    assert_eq!(container.products.len(), 5);
    let vendors: Vec<(&str, usize)> =
        container.products.iter().map(|p| (p.vendor.name.as_str(), p.vendor.id)).collect();
    assert_eq!(
        vendors,
        vec![("Nordic Knits", 0), ("Shirt Co", 1), ("Nordic Knits", 0), ("Keramik Ærø", 2), ("Nordic Knits", 0)]
    );
    assert_eq!(container.vendors.len(), 3);
    for (i, p) in container.products.iter().enumerate() {
        assert_eq!(p.serialization_id, i);
    }
    assert_eq!(container.products[3].title, "Æble Mug");
}

#[test]
fn optimize_keeps_prices_and_first_pictures() {
    let products = sample_products();
    let prices = prices_of(&products);
    let (container, _) = optimize(products, &prices);
    match container.extra_features.get_feature("price") {
        Some(Feature::Float(list)) => assert_eq!(list, &prices),
        _ => panic!("no prices"),
    }
    match container.extra_features.get_feature("image_url") {
        Some(Feature::String(list)) => assert_eq!(
            list,
            &vec![
                "https://img.example/sweater.jpg".to_string(),
                "https://img.example/scarf.jpg".to_string(),
                "https://img.example/mug.jpg".to_string(),
            ]
        ),
        _ => panic!("no pictures"),
    }
    match container.extra_features.get(&container.products[1], "price") {
        Some(FeatureValue::Float(f)) => assert_eq!(f32::from_bits(f.bits), 199.0),
        _ => panic!("no price for the shirt"),
    }
}

#[test]
fn optimize_of_no_products_has_no_features() {
    let (container, classic) = optimize(Vec::new(), &Vec::new());
    assert!(container.products.is_empty());
    assert!(container.extra_features.get_feature("price").is_none());
    assert!(container.extra_features.get_feature("image_url").is_none());
    assert!(classic.tags.iter().is_empty());
    assert!(classic.categories.0.is_empty());
}

#[test]
fn optimize_orders_by_title_and_price() {
    let (_, classic) = build(sample_products());
    // Titles: Red Wool Sweater, Blue Cotton Shirt, Green Wool Scarf, Æble Mug, Blue Wool Socks.
    assert_eq!(classic.order.get_orders("Alphabetical").unwrap(), &vec![3, 0, 2, 4, 1]);
    // Prices: 499.95, 199, 149.5, 89, 79.95.
    assert_eq!(classic.order.get_orders("Price low to high").unwrap(), &vec![4, 3, 2, 1, 0]);
    assert_eq!(classic.order.get_orders("Price high to low").unwrap(), &vec![0, 1, 2, 3, 4]);
    assert_eq!(classic.order.options().len(), 3);
}

#[test]
fn equal_prices_keep_product_order_both_ways() {
    let mut products = sample_products();
    for p in products.iter_mut() {
        p.price.min.amount = "10".to_string();
    }
    let (_, classic) = build(products);
    assert_eq!(classic.order.get_orders("Price low to high").unwrap(), &vec![0, 1, 2, 3, 4]);
    assert_eq!(classic.order.get_orders("Price high to low").unwrap(), &vec![0, 1, 2, 3, 4]);
}

#[test]
fn optimize_collects_tags_and_categories() {
    let (_, classic) = build(sample_products());
    let wool = classic.tags.iter().iter().find(|t| t.name == "wool").unwrap();
    assert_eq!(wool.products(), &vec![0, 2, 4]);
    let kitchen = classic.tags.iter().iter().find(|t| t.name == "kitchen").unwrap();
    assert_eq!(kitchen.products(), &vec![3]);
    for (i, t) in classic.tags.iter().iter().enumerate() {
        assert_eq!(t.get_id(), i);
    }
    let names: Vec<&str> = classic.categories.0.iter().map(|c| c.name.as_str()).collect();
    assert_eq!(names, vec!["Size", "Color"]);
    let size = &classic.categories.0[0];
    let values: Vec<(&str, usize)> =
        size.options.iter().map(|o| (o.name.as_str(), o.serialization_id)).collect();
    assert_eq!(values, vec![("S", 0), ("M", 1), ("L", 2), ("XL", 4)]);
    assert_eq!(size.options[1].content(), &vec![0, 1, 4]);
    let color = &classic.categories.0[1];
    let colors: Vec<(&str, usize)> =
        color.options.iter().map(|o| (o.name.as_str(), o.serialization_id)).collect();
    assert_eq!(colors, vec![("Red", 3), ("Blue", 5), ("Green", 6)]);
}

#[test]
fn price_keys_follow_the_order_of_values() {
    let values = [-1.0e9f32, -2.5, -0.0, 0.0, 1.0e-9, 3.0, 7.5e20, f32::INFINITY];
    let keys: Vec<u32> = values.iter().map(|v| price_order_key(v.to_bits())).collect();
    for w in keys.windows(2) {
        assert!(w[0] <= w[1], "{keys:?}");
    }
    assert_eq!(price_order_key((-0.0f32).to_bits()), price_order_key(0.0f32.to_bits()));
    assert!(price_order_key((-1.0f32).to_bits()) < price_order_key(0.0f32.to_bits()));
    assert!(price_order_key(f32::NEG_INFINITY.to_bits()) < price_order_key((-1.0f32).to_bits()));
}

#[test]
fn most_popular_chain_follows_the_tree() {
    let (index, _) = make_index::<3>();
    let chain = index.most_popular_chain('w');
    assert_eq!(chain[0], 'w');
    assert!(chain.len() <= 3);
    assert!(index.most_popular_chain('#').is_empty());
}

#[test]
fn reading_an_empty_index_fails() {
    assert!(deserialize_all::<5>(&[]).is_none());
    assert!(ProductContainer::deserialize(&[]).is_none());
}

#[test]
fn an_index_of_no_grams_is_empty_for_any_window_size() {
    let (container, _) = build(sample_products());
    let feeds: Vec<IndexFeed> = container
        .products
        .iter()
        .map(|p| IndexFeed { grams: Vec::new(), data: p.serialization_id })
        .collect();
    let index = GramIndex::<0>::index_from(feeds, container);
    assert!(index.roots.is_empty());
    assert!(index.data.is_empty());
    assert!(index.most_popular_chain('a').is_empty());
}

fn tree_of_three() -> GramIndex<3> {
    let (container, _) = build(sample_products());
    let feeds = vec![
        IndexFeed { grams: "abc".chars().collect(), data: 0 },
        IndexFeed { grams: "abd".chars().collect(), data: 1 },
        IndexFeed { grams: "abd".chars().collect(), data: 2 },
    ];
    GramIndex::<3>::index_from(feeds, container)
}

#[test]
fn search_moves_follow_the_typed_gram_first() {
    let index = tree_of_three();
    let a = index.root('a').unwrap();
    assert!(index.root('x').is_none());
    assert_eq!(search_moves(a, None, &['b'], 0, 1), vec![SearchMove::Typed(0)]);
    let b = &a.by_occurances[0];
    assert_eq!(b.item, 'b');
    assert_eq!(b.by_occurances[0].item, 'd');
    assert_eq!(b.by_occurances[1].item, 'c');
    assert_eq!(
        search_moves(b, Some(a), &['c', 'x'], 0, 1),
        vec![SearchMove::Typed(1), SearchMove::Changed(0)]
    );
    assert_eq!(
        search_moves(b, Some(a), &['b'], 0, 1),
        vec![SearchMove::Changed(0), SearchMove::Changed(1), SearchMove::Dropped(0)]
    );
    assert_eq!(search_moves(b, Some(a), &[], 0, 1), vec![SearchMove::Changed(0), SearchMove::Changed(1)]);
}

#[test]
fn search_moves_without_changes_left_only_follow_the_input() {
    let index = tree_of_three();
    let a = index.root('a').unwrap();
    let b = &a.by_occurances[0];
    assert_eq!(search_moves(b, Some(a), &['c'], 1, 1), vec![SearchMove::Typed(1)]);
    assert!(search_moves(b, Some(a), &['b'], 1, 1).is_empty());
    assert!(search_moves(b, Some(a), &[], 0, 0).is_empty());
}

#[test]
fn round_trip_keeps_hit_lists_in_product_id_order() {
    // Ten products in title order whose ids run the other way; the first
    // two share a word.
    let products: Vec<RawProduct> = (0..10)
        .map(|k| {
            let description = if k < 2 { "zqx" } else { "plain" };
            raw(
                &format!("Item {k}"),
                description,
                "Shop",
                &format!("gid://shopify/Product/{}", 50 - k),
                &[],
                &[],
                "10",
                &[],
            )
        })
        .collect();
    let (container, classic) = build(products);
    let feeds = feeds_of(&container);
    let index = GramIndex::<3>::index_from(feeds, container);
    let hits = index.data.get(&"zqx".chars().collect::<Vec<char>>()).unwrap();
    assert_eq!(hits, &vec![1, 0]);
    let buff = serialize_all(&index, &classic);
    let (ngram, _) = deserialize_all::<3>(&buff[..]).unwrap();
    assert_eq!(ngram.data.len(), index.data.len());
    for (window, hits) in index.data.iter() {
        assert_eq!(hits, ngram.data.get(window).unwrap());
    }
}

#[test]
fn round_trip_keeps_option_numbers_across_categories() {
    let (index, classic) = make_index::<3>();
    let numbers: Vec<usize> =
        classic.categories.0.iter().flat_map(|c| c.options.iter().map(|o| o.serialization_id)).collect();
    // Options are numbered as they were first seen, across categories.
    assert!(numbers.windows(2).any(|w| w[0] > w[1]));
    let buff = serialize_all(&index, &classic);
    let (_, read) = deserialize_all::<3>(&buff[..]).unwrap();
    let read_numbers: Vec<usize> =
        read.categories.0.iter().flat_map(|c| c.options.iter().map(|o| o.serialization_id)).collect();
    assert_eq!(numbers, read_numbers);
}
