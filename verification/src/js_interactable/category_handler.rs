use vstd::prelude::*;

use ahash::AHashMap;

use crate::classic_indexes::ClassicIndexes;
use crate::data::product::Product;
use crate::hashing::{
    selected_options, selected_options_contains, selected_options_insert, selected_options_keys,
    selected_options_new, selected_options_remove,
};

verus! {

/// The category options a search is narrowed to, by (category, option)
/// position.
pub struct CategoryHandler {
    active: AHashMap<(usize, usize), ()>,
}

/// An option of a category as handed out: its name and its positions.
pub struct ExportCategoryOption {
    pub name: String,
    pub cat_id: usize,
    pub option_id: usize,
}

impl ExportCategoryOption {
    /// The name of the option.
    pub fn get_name(&self) -> (res: String)
        ensures
            res@ == self.name@,
    {
        self.name.clone()
    }

    /// The (category, option) positions of the option.
    pub fn keys(&self) -> (res: (usize, usize))
        ensures
            res == (self.cat_id, self.option_id),
    {
        (self.cat_id, self.option_id)
    }
}

/// The selection with `k` flipped: taken out if it was in, put in if not.
pub open spec fn toggled<K>(s: Set<K>, k: K) -> Set<K> {
    if s.contains(k) {
        s.remove(k)
    } else {
        s.insert(k)
    }
}

/// Toggling the same key twice gives the selection back.
pub proof fn lemma_toggle_twice<K>(s: Set<K>, k: K)
    ensures
        toggled(toggled(s, k), k) == s,
{
    if s.contains(k) {
        assert(s.remove(k).insert(k) =~= s);
    } else {
        assert(s.insert(k).remove(k) =~= s);
    }
}

/// The product fits every selected option: each lists it.
pub open spec fn fits_options(classic: ClassicIndexes, selected: Set<(usize, usize)>, product: usize) -> bool {
    forall|k: (usize, usize)|
        #[trigger] selected.contains(k) ==> classic.categories.view()[k.0 as int].options[k.1 as int].content.contains(
            product,
        )
}

/// Every selected option exists in the categories.
pub open spec fn options_exist(classic: ClassicIndexes, selected: Set<(usize, usize)>) -> bool {
    forall|k: (usize, usize)|
        #[trigger] selected.contains(k) ==> k.0 < classic.categories.view().len() && k.1
            < classic.categories.view()[k.0 as int].options.len()
}

impl CategoryHandler {
    /// The selected options.
    pub closed spec fn selected(&self) -> Set<(usize, usize)> {
        selected_options(self.active)
    }

    /// Nothing selected.
    pub fn new() -> (res: CategoryHandler)
        ensures
            res.selected().is_empty(),
    {
        CategoryHandler { active: selected_options_new() }
    }

    /// Selects the option if it was not selected and unselects it if it was;
    /// gives whether it is selected now.
    pub fn toggle(&mut self, item: &ExportCategoryOption) -> (res: bool)
        ensures
            res == !old(self).selected().contains((item.cat_id, item.option_id)),
            final(self).selected() == toggled(old(self).selected(), (item.cat_id, item.option_id)),
    {
        let key = item.keys();
        if selected_options_contains(&self.active, key) {
            selected_options_remove(&mut self.active, key);
            false
        } else {
            selected_options_insert(&mut self.active, key);
            true
        }
    }

    /// Whether the option is selected.
    pub fn get_status(&self, item: &ExportCategoryOption) -> (res: bool)
        ensures
            res == self.selected().contains((item.cat_id, item.option_id)),
    {
        selected_options_contains(&self.active, item.keys())
    }

    /// The selected options, each once.
    pub fn selected_keys(&self) -> (res: Vec<(usize, usize)>)
        ensures
            forall|k: (usize, usize)| #[trigger] self.selected().contains(k) <==> res@.contains(k),
            res@.no_duplicates(),
    {
        selected_options_keys(&self.active)
    }

    /// A walk over the categories, from the first.
    pub fn iter(&self) -> (res: CategoryIter)
        ensures
            res.index == 0,
    {
        CategoryIter { index: 0 }
    }

    /// Whether every selected option lists the product.
    pub fn is_valid(&self, classic: &ClassicIndexes, product: &Product) -> (res: bool)
        requires
            classic.wf(),
            options_exist(*classic, self.selected()),
        ensures
            res == fits_options(*classic, self.selected(), product.serialization_id),
    {
        let keys = selected_options_keys(&self.active);
        let mut i: usize = 0;
        while i < keys.len()
            invariant
                classic.wf(),
                options_exist(*classic, self.selected()),
                i <= keys@.len(),
                forall|k: (usize, usize)| #[trigger] self.selected().contains(k) <==> keys@.contains(k),
                forall|j: int|
                    0 <= j < i ==> classic.categories.view()[keys@[j].0 as int].options[keys@[j].1 as int].content.contains(
                        product.serialization_id,
                    ),
            decreases keys@.len() - i,
        {
            let (category, option) = keys[i];
            assert(self.selected().contains(keys@[i as int]));
            if !classic.categories.option_contains(category, option, product) {
                return false;
            }
            i = i + 1;
        }
        proof {
            assert forall|k: (usize, usize)| #[trigger] self.selected().contains(k) implies classic.categories.view()[k.0 as int].options[k.1 as int].content.contains(
                product.serialization_id,
            ) by {
                assert(keys@.contains(k));
                let j = choose|j: int| 0 <= j < keys@.len() && keys@[j] == k;
            }
        }
        true
    }
}

/// A walk over the categories.
pub struct CategoryIter {
    pub index: usize,
}

impl CategoryIter {
    /// A walk over the options of the next category, if there is one.
    pub fn next_item(&mut self, classic: &ClassicIndexes) -> (res: Option<CategoryOptionIter>)
        ensures
            old(self).index < classic.categories.view().len() ==> res == Some(
                CategoryOptionIter { category_index: old(self).index, index: 0 },
            ) && final(self).index == old(self).index + 1,
            old(self).index >= classic.categories.view().len() ==> res is None && final(self).index == old(
                self,
            ).index,
    {
        if self.index >= classic.categories.len() {
            return None;
        }
        self.index = self.index + 1;
        Some(CategoryOptionIter { category_index: self.index - 1, index: 0 })
    }
}

/// A walk over the options of one category.
pub struct CategoryOptionIter {
    pub category_index: usize,
    pub index: usize,
}

impl CategoryOptionIter {
    /// The next option of the category, if there is one.
    pub fn next_item(&mut self, classic: &ClassicIndexes) -> (res: Option<ExportCategoryOption>)
        ensures
            final(self).category_index == old(self).category_index,
            ({
                let cats = classic.categories.view();
                let (c, o) = (old(self).category_index as int, old(self).index as int);
                if c < cats.len() && o < cats[c].options.len() {
                    &&& res matches Some(e)
                    &&& e.name@ == cats[c].options[o].name
                    &&& e.cat_id == c
                    &&& e.option_id == o
                    &&& final(self).index == o + 1
                } else {
                    res is None && final(self).index == o
                }
            }),
    {
        if self.category_index >= classic.categories.len() || self.index >= classic.categories.options_len(
            self.category_index,
        ) {
            return None;
        }
        let name = classic.categories.option_name(self.category_index, self.index).unwrap().clone();
        let out = ExportCategoryOption { name, cat_id: self.category_index, option_id: self.index };
        self.index = self.index + 1;
        Some(out)
    }

    /// The name of the category.
    pub fn name(&self, classic: &ClassicIndexes) -> (res: String)
        requires
            self.category_index < classic.categories.view().len(),
        ensures
            res@ == classic.categories.view()[self.category_index as int].name,
    {
        classic.categories.category_name(self.category_index).unwrap().clone()
    }
}

} // verus!
