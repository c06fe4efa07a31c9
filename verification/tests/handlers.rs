use indexer_lib::classic_indexes::ClassicIndexes;
use indexer_lib::data::container::ProductContainer;
use indexer_lib::data::raw_parser::{
    count_option_values, optimize, CurrencyAmount, ProductPrice, RawProduct, RawProductOption,
};
use indexer_lib::js_interactable::category_handler::{CategoryHandler, ExportCategoryOption};
use indexer_lib::js_interactable::product_producer::ProductProducer;
use indexer_lib::js_interactable::tag_handler::TagHandler;
use indexer_lib::serialize::primitives::FloatBits;
use indexer_lib::{overlap_parts, search_results, split_words};

fn product(title: &str, tags: &[&str], options: &[(&str, &[&str])], price: f32) -> RawProduct {
    let amount = CurrencyAmount { amount: price.to_string(), currency_code: "EUR".to_string() };
    RawProduct {
        description: format!("About {title}"),
        tags: tags.iter().map(|t| t.to_string()).collect(),
        title: title.to_string(),
        vendor: "Shop".to_string(),
        id: title.to_lowercase(),
        options: options
            .iter()
            .map(|(n, v)| RawProductOption { name: n.to_string(), values: v.iter().map(|x| x.to_string()).collect() })
            .collect(),
        price: ProductPrice { min: amount.clone_amount(), max: amount },
        media: Vec::new(),
    }
}

trait CloneAmount {
    fn clone_amount(&self) -> CurrencyAmount;
}

impl CloneAmount for CurrencyAmount {
    fn clone_amount(&self) -> CurrencyAmount {
        CurrencyAmount { amount: self.amount.clone(), currency_code: self.currency_code.clone() }
    }
}

fn shop() -> (ProductContainer, ClassicIndexes) {
    let products = vec![
        product("Cap", &["hat", "sale"], &[("Size", &["S", "M"])], 10.0),
        product("Beanie", &["hat"], &[("Size", &["M"])], 15.0),
        product("Boots", &["shoe", "sale"], &[("Size", &["L"])], 80.0),
        product("Apron", &["sale"], &[], 5.0),
    ];
    let prices: Vec<FloatBits> =
        products.iter().map(|p| FloatBits { bits: p.price.min.amount.parse::<f32>().unwrap().to_bits() }).collect();
    optimize(products, &prices)
}

fn options_of(classic: &ClassicIndexes) -> Vec<ExportCategoryOption> {
    let mut out = Vec::new();
    let mut cats = CategoryHandler::new().iter();
    while let Some(mut opts) = cats.next_item(classic) {
        while let Some(o) = opts.next_item(classic) {
            out.push(o);
        }
    }
    out
}

fn tag_id(classic: &ClassicIndexes, name: &str) -> usize {
    classic.tags.iter().iter().find(|t| t.name == name).unwrap().get_id()
}

#[test]
fn category_walk_lists_every_option_once() {
    let (_, classic) = shop();
    let names: Vec<(String, usize, usize)> =
        options_of(&classic).iter().map(|o| (o.get_name(), o.keys().0, o.keys().1)).collect();
    assert_eq!(
        names,
        vec![("S".to_string(), 0, 0), ("M".to_string(), 0, 1), ("L".to_string(), 0, 2)]
    );
    let mut cats = CategoryHandler::new().iter();
    let first = cats.next_item(&classic).unwrap();
    assert_eq!(first.name(&classic), "Size");
    assert!(cats.next_item(&classic).is_none());
    assert!(cats.next_item(&classic).is_none());
}

#[test]
fn toggling_an_option_twice_unselects_it() {
    let (container, classic) = shop();
    let options = options_of(&classic);
    let mut handler = CategoryHandler::new();
    assert!(!handler.get_status(&options[1]));
    assert!(handler.toggle(&options[1]));
    assert!(handler.get_status(&options[1]));
    let fits: Vec<bool> = container.products.iter().map(|p| handler.is_valid(&classic, p)).collect();
    assert_eq!(fits, vec![true, true, false, false]);
    assert!(!handler.toggle(&options[1]));
    assert!(!handler.get_status(&options[1]));
    assert!(container.products.iter().all(|p| handler.is_valid(&classic, p)));
}

#[test]
fn two_selected_options_must_both_fit() {
    let (container, classic) = shop();
    let options = options_of(&classic);
    let mut handler = CategoryHandler::new();
    handler.toggle(&options[0]);
    handler.toggle(&options[1]);
    let fits: Vec<bool> = container.products.iter().map(|p| handler.is_valid(&classic, p)).collect();
    assert_eq!(fits, vec![true, false, false, false]);
    assert_eq!(handler.selected_keys().len(), 2);
}

#[test]
fn tags_narrow_the_products() {
    let (container, classic) = shop();
    let mut tags = TagHandler::new();
    let sale = tag_id(&classic, "sale");
    assert!(tags.toggle(sale));
    assert!(tags.get_status(sale));
    let fits: Vec<bool> = container.products.iter().map(|p| tags.is_valid(&classic, p)).collect();
    assert_eq!(fits, vec![true, false, true, true]);
    let hat = tag_id(&classic, "hat");
    tags.toggle(hat);
    let fits: Vec<bool> = container.products.iter().map(|p| tags.is_valid(&classic, p)).collect();
    assert_eq!(fits, vec![true, false, false, false]);
    assert!(!tags.toggle(hat));
    let mut walk = tags.tags();
    let mut seen = Vec::new();
    while let Some(t) = walk.next_tag(&classic) {
        seen.push(t);
    }
    assert_eq!(seen, (0..classic.tags.len()).collect::<Vec<_>>());
}

#[test]
fn search_results_filter_then_order() {
    let (container, classic) = shop();
    let mut tags = TagHandler::new();
    tags.toggle(tag_id(&classic, "sale"));
    let categories = CategoryHandler::new();
    let found = vec![2, 0, 1, 3];
    let kept = search_results(&found, &container, &classic, &categories, &tags, None);
    assert_eq!(kept, vec![2, 0, 3]);
    let by_price = classic.order.get_orders("Price low to high").unwrap();
    let ordered = search_results(&found, &container, &classic, &categories, &tags, Some(by_price));
    assert_eq!(ordered, vec![3, 0, 2]);
    let by_title = classic.order.get_orders("Alphabetical").unwrap();
    let ordered = search_results(&found, &container, &classic, &categories, &tags, Some(by_title));
    assert_eq!(ordered, vec![3, 2, 0]);
}

#[test]
fn producer_walks_the_results_and_stops_at_a_missing_product() {
    let (container, _) = shop();
    let mut walk = ProductProducer::new(vec![2, 0, 9, 1]);
    assert_eq!(walk.next_product(&container), Some(2));
    assert_eq!(walk.next_product(&container), Some(0));
    assert_eq!(walk.next_product(&container), None);
    assert_eq!(walk.next_product(&container), None);
    assert_eq!(walk.index, 2);
}

#[test]
fn overlap_counts_agreeing_places() {
    assert_eq!(overlap_parts("sale", "sole", 3), Some((3, 4)));
    assert_eq!(overlap_parts("sale", "sa", 3), None);
    assert_eq!(overlap_parts("æble", "æbler", 3), Some((4, 5)));
    assert_eq!(overlap_parts("", "", 0), Some((0, 0)));
}

#[test]
fn words_are_split_at_each_space() {
    let words: Vec<String> = split_words("red  wool hat").into_iter().map(|w| w.into_iter().collect()).collect();
    assert_eq!(words, vec!["red", "", "wool", "hat"]);
    let words: Vec<String> = split_words("").into_iter().map(|w| w.into_iter().collect()).collect();
    assert_eq!(words, vec![""]);
    let words: Vec<String> = split_words(" x ").into_iter().map(|w| w.into_iter().collect()).collect();
    assert_eq!(words, vec!["", "x", ""]);
}

#[test]
fn option_values_are_counted() {
    let products = vec![
        product("A", &[], &[("Size", &["S", "M"]), ("Color", &["Red"])], 1.0),
        product("B", &[], &[], 1.0),
        product("C", &[], &[("Size", &["S"])], 1.0),
    ];
    assert_eq!(count_option_values(&products), Some(4));
    assert_eq!(count_option_values(&Vec::new()), Some(0));
}
