use vstd::prelude::*;

use ahash::AHashMap;

use super::category_handler::toggled;
use crate::classic_indexes::ClassicIndexes;
use crate::data::product::Product;
use crate::hashing::{
    selected_tags, selected_tags_contains, selected_tags_insert, selected_tags_keys, selected_tags_new,
    selected_tags_remove,
};

verus! {

/// The tags a search is narrowed to, by number.
pub struct TagHandler {
    active: AHashMap<usize, ()>,
}

/// The product carries every selected tag.
pub open spec fn fits_tags(classic: ClassicIndexes, selected: Set<usize>, product: usize) -> bool {
    forall|t: usize| #[trigger] selected.contains(t) ==> classic.tags.view()[t as int].products.contains(product)
}

/// Every selected tag exists.
pub open spec fn tags_exist(classic: ClassicIndexes, selected: Set<usize>) -> bool {
    forall|t: usize| #[trigger] selected.contains(t) ==> t < classic.tags.view().len()
}

impl TagHandler {
    /// The selected tags.
    pub closed spec fn selected(&self) -> Set<usize> {
        selected_tags(self.active)
    }

    /// Nothing selected.
    pub fn new() -> (res: TagHandler)
        ensures
            res.selected().is_empty(),
    {
        TagHandler { active: selected_tags_new() }
    }

    /// A walk over the tags, from the first.
    pub fn tags(&self) -> (res: TagIter)
        ensures
            res.index == 0,
    {
        TagIter { index: 0 }
    }

    /// The selected tags, each once.
    pub fn selected_ids(&self) -> (res: Vec<usize>)
        ensures
            forall|t: usize| #[trigger] self.selected().contains(t) <==> res@.contains(t),
            res@.no_duplicates(),
    {
        selected_tags_keys(&self.active)
    }

    /// Selects tag `id` if it was not selected and unselects it if it was;
    /// gives whether it is selected now.
    pub fn toggle(&mut self, id: usize) -> (res: bool)
        ensures
            res == !old(self).selected().contains(id),
            final(self).selected() == toggled(old(self).selected(), id),
    {
        if selected_tags_contains(&self.active, id) {
            selected_tags_remove(&mut self.active, id);
            false
        } else {
            selected_tags_insert(&mut self.active, id);
            true
        }
    }

    /// Whether tag `id` is selected.
    pub fn get_status(&self, id: usize) -> (res: bool)
        ensures
            res == self.selected().contains(id),
    {
        selected_tags_contains(&self.active, id)
    }

    /// Whether the product carries every selected tag.
    pub fn is_valid(&self, classic: &ClassicIndexes, product: &Product) -> (res: bool)
        requires
            classic.wf(),
            tags_exist(*classic, self.selected()),
        ensures
            res == fits_tags(*classic, self.selected(), product.serialization_id),
    {
        let keys = selected_tags_keys(&self.active);
        let mut i: usize = 0;
        while i < keys.len()
            invariant
                classic.wf(),
                tags_exist(*classic, self.selected()),
                i <= keys@.len(),
                forall|t: usize| #[trigger] self.selected().contains(t) <==> keys@.contains(t),
                forall|j: int|
                    0 <= j < i ==> classic.tags.view()[keys@[j] as int].products.contains(product.serialization_id),
            decreases keys@.len() - i,
        {
            let id = keys[i];
            assert(self.selected().contains(keys@[i as int]));
            if !classic.tags.tag_contains(id, product) {
                return false;
            }
            i = i + 1;
        }
        proof {
            assert forall|t: usize| #[trigger] self.selected().contains(t) implies classic.tags.view()[t as int].products.contains(
                product.serialization_id,
            ) by {
                assert(keys@.contains(t));
                let j = choose|j: int| 0 <= j < keys@.len() && keys@[j] == t;
            }
        }
        true
    }
}

/// A walk over the tags.
pub struct TagIter {
    pub index: usize,
}

impl TagIter {
    /// The number of the next tag, if there is one.
    pub fn next_tag(&mut self, classic: &ClassicIndexes) -> (res: Option<usize>)
        ensures
            old(self).index < classic.tags.view().len() ==> res == Some(old(self).index) && final(self).index == old(
                self,
            ).index + 1,
            old(self).index >= classic.tags.view().len() ==> res is None && final(self).index == old(self).index,
    {
        if self.index >= classic.tags.len() {
            return None;
        }
        let tag = self.index;
        self.index = self.index + 1;
        Some(tag)
    }
}

} // verus!
