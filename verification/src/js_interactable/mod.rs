//! The state behind the browser-facing handles: which categories and tags
//! are selected, the walks over categories, options and tags, and the walk
//! over the products of a result.
pub mod category_handler;
pub mod product_producer;
pub mod tag_handler;
