use vstd::prelude::*;

use crate::data::product::Product;

verus! {

/// A value that has a part to tell equal values apart by.
pub trait HashExtractable {
    type Inner;

    fn extract(&self) -> &Self::Inner;
}

impl HashExtractable for Product {
    type Inner = String;

    /// A product is told apart by its id.
    fn extract(&self) -> (res: &String)
        ensures
            res@ == self.id@,
    {
        &self.id
    }
}

impl HashExtractable for String {
    type Inner = String;

    fn extract(&self) -> (res: &String)
        ensures
            res@ == self@,
    {
        self
    }
}

} // verus!
