pub mod counting;
pub mod feed;
pub mod hits;
pub mod index;
pub mod indexer;
pub mod node;
pub mod result_ranker;
pub mod search;
