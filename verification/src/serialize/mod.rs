pub mod traits;
pub mod primitives;
pub mod collections;
pub mod vectors;
pub mod sequential_array;
pub mod nodes;
pub mod gram_index;
pub mod all_indexes;

pub use traits::{Decoding, Deserializable, RoundTrip, Serializable};
