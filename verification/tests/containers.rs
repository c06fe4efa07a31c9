use indexer_lib::classic_indexes::categorical::{Category, CategoryOption};
use indexer_lib::classic_indexes::order::OrderIndex;
use indexer_lib::classic_indexes::tag::{Tag, TagIndex};
use indexer_lib::data::container::ProductContainer;
use indexer_lib::data::features::{Feature, FeatureSet, FeatureValue};
use indexer_lib::data::product::Product;
use indexer_lib::data::vendor::{Vendor, VendorManager};
use indexer_lib::serialize::primitives::FloatBits;
use indexer_lib::sorting::{lex_less_exec, sort_positions_exec};

fn product(id: &str, position: usize) -> Product {
    Product {
        description: "d".to_string(),
        title: format!("title {position}"),
        vendor: Vendor { name: "v".to_string(), id: 0 },
        id: id.to_string(),
        serialization_id: position,
    }
}

#[test]
fn vendors_are_numbered_once_in_order() {
    let mut vendors = VendorManager::new();
    vendors.insert("b");
    vendors.insert("a");
    vendors.insert("b");
    assert_eq!(vendors.len(), 2);
    assert_eq!(vendors.get("b").unwrap().id, 0);
    assert_eq!(vendors.get("a").unwrap().id, 1);
    assert!(vendors.get("c").is_none());
    let c = vendors.get_or_insert("c");
    assert_eq!((c.name.as_str(), c.id), ("c", 2));
    assert_eq!(vendors.get_or_insert("a").id, 1);
    assert_eq!(vendors.len(), 3);
    assert_eq!(vendors.by_id(2).unwrap().name, "c");
    assert!(vendors.by_id(3).is_none());
}

#[test]
fn an_option_lists_a_product_once() {
    let mut option = CategoryOption::new("M".to_string(), 4);
    let p = product("x", 3);
    assert!(!option.contains(&p));
    option.add(&p);
    option.add(&p);
    option.add(&product("y", 1));
    assert!(option.contains(&p));
    assert_eq!(option.content(), &vec![3, 1]);
}

#[test]
fn features_read_back_by_position() {
    let mut features = FeatureSet::new_empty();
    features.add_int("stock", 5);
    features.add_int("stock", 7);
    features.add_float("price", FloatBits { bits: 2.5f32.to_bits() });
    features.add_string("image_url", "u".to_string());
    match features.get(&product("x", 1), "stock") {
        Some(FeatureValue::Integer(v)) => assert_eq!(v, 7),
        _ => panic!("no stock"),
    }
    assert!(features.get(&product("x", 2), "stock").is_none());
    assert!(features.get(&product("x", 0), "colour").is_none());
    match features.get(&product("x", 0), "price") {
        Some(FeatureValue::Float(f)) => assert_eq!(f32::from_bits(f.bits), 2.5),
        _ => panic!("no price"),
    }
    match features.get_feature("image_url") {
        Some(Feature::String(list)) => assert_eq!(list, &vec!["u".to_string()]),
        _ => panic!("no pictures"),
    }
}

#[test]
fn product_number_is_the_trailing_digits_of_its_id() {
    assert_eq!(product("gid://shopify/Product/7001", 0).get_id(), 7001);
    assert_eq!(product("abc", 0).get_id(), 0);
    assert_eq!(product("a12b34", 0).get_id(), 34);
    assert_eq!(product("9999999999999999999", 0).get_id(), 9_999_999_999_999_999_999);
}

#[test]
fn products_written_as_a_sorted_position_list() {
    let products = vec![product("a", 0), product("b", 1), product("c", 2)];
    let refs: Vec<&Product> = vec![&products[2], &products[0]];
    let mut out = Vec::new();
    Product::serialize_to_sequential_array(&refs, &mut out);
    let (rest, read, ids) = Product::deserialize_from_sequential_ids(&out, &products).unwrap();
    assert!(rest.is_empty());
    assert_eq!(ids, vec![0, 2]);
    assert_eq!(read.iter().map(|p| p.id.as_str()).collect::<Vec<_>>(), vec!["a", "c"]);
    let too_far = vec![product("a", 0)];
    assert!(Product::deserialize_from_sequential_ids(&out, &too_far).is_none());
}

#[test]
fn tags_list_their_products() {
    let products = vec![product("a", 0), product("b", 1)];
    let container = ProductContainer::new(products, VendorManager::new(), FeatureSet::new_empty());
    let index = TagIndex::index(
        vec![vec!["x".to_string(), "y".to_string()], vec!["x".to_string()]],
        &container,
    );
    assert_eq!(index.len(), 2);
    let x = index.iter().iter().find(|t| t.name == "x").unwrap();
    assert_eq!(x.products(), &vec![0, 1]);
    assert!(x.contains(&container.products[1]));
    let y = index.iter().iter().find(|t| t.name == "y").unwrap();
    assert!(!y.contains(&container.products[1]));
    let tag = Tag::new("z", vec![1], 5);
    assert_eq!(tag.get_id(), 5);
    assert!(tag.contains(&container.products[1]));
}

#[test]
fn orderings_store_each_products_place() {
    let products = vec![product("a", 0), product("b", 1), product("c", 2)];
    let container = ProductContainer::new(products, VendorManager::new(), FeatureSet::new_empty());
    let mut order = OrderIndex::new();
    order.add(&container, &vec![vec![30], vec![10], vec![20]], "by key".to_string());
    assert_eq!(order.get_orders("by key").unwrap(), &vec![2, 0, 1]);
    order.add_custom_cmp(&container, &vec![vec![30], vec![10], vec![20]], true, "by key down".to_string());
    assert_eq!(order.get_orders("by key down").unwrap(), &vec![0, 2, 1]);
    assert!(order.get_orders("missing").is_none());
    assert_eq!(order.options().len(), 2);
}

#[test]
fn positions_sort_by_their_keys_keeping_ties_in_order() {
    let keys = vec![vec![2, 1], vec![1], vec![2], vec![1], vec![]];
    assert_eq!(sort_positions_exec(&vec![0, 1, 2, 3, 4], &keys, false), vec![4, 1, 3, 2, 0]);
    assert_eq!(sort_positions_exec(&vec![0, 1, 2, 3, 4], &keys, true), vec![0, 2, 1, 3, 4]);
    assert_eq!(sort_positions_exec(&vec![3, 1, 1], &keys, false), vec![3, 1, 1]);
    assert!(lex_less_exec(&vec![1, 2], &vec![1, 3]));
    assert!(lex_less_exec(&vec![1], &vec![1, 0]));
    assert!(!lex_less_exec(&vec![1, 0], &vec![1, 0]));
}

fn two_option_category() -> Category {
    let mut small = CategoryOption::new("S".to_string(), 0);
    small.add(&product("a", 0));
    small.add(&product("b", 1));
    let mut medium = CategoryOption::new("M".to_string(), 1);
    medium.add(&product("c", 2));
    Category { name: "size".to_string(), options: vec![small, medium], exclusive: true }
}

#[test]
fn category_reads_back_with_options_numbered_on() {
    let products = vec![product("a", 0), product("b", 1), product("c", 2)];
    let mut bytes = Vec::new();
    two_option_category().serialize(&mut bytes);
    let mut next = 5usize;
    let (rest, read) = Category::deserialize(&bytes, &products, &mut next).unwrap();
    assert!(rest.is_empty());
    assert_eq!(next, 7);
    assert_eq!(read.name, "size");
    assert!(read.exclusive);
    assert_eq!(read.options.len(), 2);
    assert_eq!((read.options[0].name.as_str(), read.options[0].serialization_id), ("S", 5));
    assert_eq!((read.options[1].name.as_str(), read.options[1].serialization_id), ("M", 6));
    assert_eq!(read.options[0].content(), &vec![0, 1]);
    assert_eq!(read.options[1].content(), &vec![2]);
}

#[test]
fn failed_category_read_counts_the_options_read_whole() {
    let products = vec![product("a", 0), product("b", 1), product("c", 2)];
    let mut bytes = Vec::new();
    two_option_category().serialize(&mut bytes);
    // The second option's product list (a count and one difference) is cut off.
    let cut = &bytes[..bytes.len() - 2];
    let mut next = 5usize;
    assert!(Category::deserialize(cut, &products, &mut next).is_none());
    assert_eq!(next, 6);
    // The second option names a product that does not exist.
    let mut next = 5usize;
    assert!(Category::deserialize(&bytes, &products[..2], &mut next).is_none());
    assert_eq!(next, 6);
    // Already the first option does.
    let mut next = 5usize;
    assert!(Category::deserialize(&bytes, &products[..1], &mut next).is_none());
    assert_eq!(next, 5);
}
