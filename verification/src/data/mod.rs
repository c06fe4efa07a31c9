pub mod container;
pub mod features;
pub mod product;
pub mod raw_parser;
pub mod vendor;
