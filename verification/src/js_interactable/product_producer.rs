use vstd::prelude::*;

use crate::data::container::ProductContainer;

verus! {

/// A walk over the products of a result, by position.
pub struct ProductProducer {
    pub to_export: Vec<usize>,
    pub index: usize,
}

impl ProductProducer {
    /// A walk over `to_export` from its start.
    pub fn new(to_export: Vec<usize>) -> (res: ProductProducer)
        ensures
            res.to_export@ == to_export@,
            res.index == 0,
    {
        ProductProducer { to_export, index: 0 }
    }

    /// The position of the next product, while there is one and it is a
    /// product of the container; the walk stays put otherwise.
    pub fn next_product(&mut self, container: &ProductContainer) -> (res: Option<usize>)
        ensures
            final(self).to_export@ == old(self).to_export@,
            ({
                let i = old(self).index as int;
                let list = old(self).to_export@;
                if i < list.len() && list[i] < container.products@.len() {
                    res == Some(list[i]) && final(self).index == i + 1
                } else {
                    res is None && final(self).index == i
                }
            }),
    {
        if self.index >= self.to_export.len() {
            return None;
        }
        let next_id = self.to_export[self.index];
        if next_id >= container.products.len() {
            return None;
        }
        self.index = self.index + 1;
        Some(next_id)
    }
}

} // verus!
