use vstd::prelude::*;

use ahash::AHashSet;

use crate::data::container::ProductContainer;
use crate::data::product::{
    lemma_positions_round_trip, positions_round_trip, spec_deserialize_positions, spec_serialize_positions, Product,
};
use crate::data::raw_parser::RawProductOption;
use crate::hashing::{position_set, position_set_contains, position_set_insert, position_set_new};
use crate::serialize::collections::{same_text, serialize_str, spec_serialize_str};
use crate::serialize::primitives::encode_varint;
use crate::serialize::collections::text_round_trips;
use crate::serialize::primitives::{lemma_bool_round_trip, lemma_usize_round_trip};
use crate::serialize::RoundTrip;
use crate::serialize::vectors::{after_prefix, lemma_after_prefix_twice};
use crate::serialize::{Decoding, Deserializable, Serializable};

verus! {

/// One value of a category (a size, a colour) and the products that have it.
pub struct CategoryOption {
    pub name: String,
    pub serialization_id: usize,
    content: Vec<usize>,
    products_by_serialization_id: AHashSet<usize>,
}

/// The model of a category option: its name, number and products in the
/// order they were added.
pub struct OptionView {
    pub name: Seq<char>,
    pub serialization_id: usize,
    pub content: Seq<usize>,
}

/// A category (size, colour) with its options.
pub struct Category {
    pub name: String,
    pub options: Vec<CategoryOption>,
    pub exclusive: bool,
}

/// The model of a category.
pub struct CategoryView {
    pub name: Seq<char>,
    pub options: Seq<OptionView>,
    pub exclusive: bool,
}

/// All categories of the products.
pub struct CategoryIndex(pub Vec<Category>);

impl CategoryOption {
    pub closed spec fn view(&self) -> OptionView {
        OptionView { name: self.name@, serialization_id: self.serialization_id, content: self.content@ }
    }

    /// The lookup set holds exactly the listed products.
    pub closed spec fn wf(&self) -> bool {
        position_set(self.products_by_serialization_id) == self.content@.to_set()
    }

    /// An option with no products yet.
    pub fn new(name: String, serialization_id: usize) -> (res: CategoryOption)
        ensures
            res.wf(),
            res.view() == (OptionView { name: name@, serialization_id, content: Seq::empty() }),
    {
        let res = CategoryOption {
            name,
            content: Vec::new(),
            products_by_serialization_id: position_set_new(),
            serialization_id,
        };
        assert(res.content@.to_set() =~= Set::<usize>::empty());
        res
    }

    /// Adds the product, unless it is there already.
    pub fn add(&mut self, product: &Product)
        requires
            old(self).wf(),
        ensures
            final(self).wf(),
            final(self).view() == (OptionView {
                content: add_once(old(self).view().content, product.serialization_id),
                ..old(self).view()
            }),
    {
        let ghost before = self.content@;
        if position_set_insert(&mut self.products_by_serialization_id, product.serialization_id) {
            self.content.push(product.serialization_id);
            proof {
                before.lemma_push_to_set_commute(product.serialization_id);
            }
            assert(self.content@.to_set() =~= before.to_set().insert(product.serialization_id));
        } else {
            assert(before.to_set().contains(product.serialization_id));
            assert(before.to_set().insert(product.serialization_id) =~= before.to_set());
        }
    }

    /// Whether the product has this option.
    pub fn contains(&self, product: &Product) -> (res: bool)
        requires
            self.wf(),
        ensures
            res == self.view().content.contains(product.serialization_id),
    {
        position_set_contains(&self.products_by_serialization_id, product.serialization_id)
    }

    /// The products of the option, in the order they were added.
    pub fn content(&self) -> (res: &Vec<usize>)
        ensures
            res@ == self.view().content,
    {
        &self.content
    }
}

/// The list with `p` added at the end, unless it is there already.
pub open spec fn add_once(s: Seq<usize>, p: usize) -> Seq<usize> {
    if s.contains(p) {
        s
    } else {
        s.push(p)
    }
}

/// Adding a product that an option already lists changes nothing: each
/// product is listed once.
pub proof fn lemma_add_once_twice(s: Seq<usize>, p: usize)
    ensures
        add_once(add_once(s, p), p) == add_once(s, p),
        add_once(s, p).contains(p),
{
    if !s.contains(p) {
        assert(s.push(p)[s.len() as int] == p);
    }
}

impl Category {
    pub closed spec fn view(&self) -> CategoryView {
        CategoryView {
            name: self.name@,
            options: self.options@.map_values(|o: CategoryOption| o.view()),
            exclusive: self.exclusive,
        }
    }

    pub closed spec fn wf(&self) -> bool {
        forall|i: int| 0 <= i < self.options@.len() ==> #[trigger] self.options@[i].wf()
    }

    /// A category with no options, not exclusive.
    pub fn new(name: String) -> (res: Category)
        ensures
            res.wf(),
            res.view() == (CategoryView { name: name@, options: Seq::empty(), exclusive: false }),
    {
        let res = Category { name, options: Vec::new(), exclusive: false };
        assert(res.view().options =~= Seq::<OptionView>::empty());
        res
    }
}

impl CategoryIndex {
    pub closed spec fn view(&self) -> Seq<CategoryView> {
        self.0@.map_values(|c: Category| c.view())
    }

    pub closed spec fn wf(&self) -> bool {
        forall|i: int| 0 <= i < self.0@.len() ==> #[trigger] self.0@[i].wf()
    }

    /// The number of categories.
    pub fn len(&self) -> (res: usize)
        ensures
            res == self.view().len(),
    {
        self.0.len()
    }

    /// The number of options of category `category`.
    pub fn options_len(&self, category: usize) -> (res: usize)
        requires
            category < self.view().len(),
        ensures
            res == self.view()[category as int].options.len(),
    {
        self.0[category].options.len()
    }

    /// The name of category `category`, if there is one.
    pub fn category_name(&self, category: usize) -> (res: Option<&String>)
        ensures
            category < self.view().len() ==> (res matches Some(n) && n@ == self.view()[category as int].name),
            category >= self.view().len() ==> res is None,
    {
        if category < self.0.len() {
            Some(&self.0[category].name)
        } else {
            None
        }
    }

    /// The name of option `option` of category `category`, if there is one.
    pub fn option_name(&self, category: usize, option: usize) -> (res: Option<&String>)
        ensures
            category < self.view().len() && option < self.view()[category as int].options.len() ==> (res matches Some(
                n,
            ) && n@ == self.view()[category as int].options[option as int].name),
            !(category < self.view().len() && option < self.view()[category as int].options.len()) ==> res is None,
    {
        if category < self.0.len() && option < self.0[category].options.len() {
            Some(&self.0[category].options[option].name)
        } else {
            None
        }
    }

    /// Whether option `option` of category `category` lists the product.
    pub fn option_contains(&self, category: usize, option: usize, product: &Product) -> (res: bool)
        requires
            self.wf(),
            category < self.view().len(),
            option < self.view()[category as int].options.len(),
        ensures
            res == self.view()[category as int].options[option as int].content.contains(product.serialization_id),
    {
        let c = &self.0[category];
        assert(c.wf());
        let o = &c.options[option];
        assert(o.wf());
        o.contains(product)
    }

    /// The category at `index`, if there is one.
    pub fn get(&self, index: usize) -> (res: Option<&Category>)
        ensures
            index < self.view().len() ==> (res matches Some(c) && c.view() == self.view()[index as int]),
            index >= self.view().len() ==> res is None,
    {
        if index < self.0.len() {
            Some(&self.0[index])
        } else {
            None
        }
    }
}

/// A raw option as names: the category and its values.
pub open spec fn raw_option_view(o: RawProductOption) -> (Seq<char>, Seq<Seq<char>>) {
    (o.name@, o.values.deep_view())
}

/// The position of the first category named `name`, or -1.
pub open spec fn category_position(cats: Seq<CategoryView>, name: Seq<char>) -> int
    decreases cats.len(),
{
    if cats.len() == 0 {
        -1
    } else if category_position(cats.drop_last(), name) >= 0 {
        category_position(cats.drop_last(), name)
    } else if cats.last().name == name {
        cats.len() - 1
    } else {
        -1
    }
}

/// The position of the first option named `name`, or -1.
pub open spec fn option_position(opts: Seq<OptionView>, name: Seq<char>) -> int
    decreases opts.len(),
{
    if opts.len() == 0 {
        -1
    } else if option_position(opts.drop_last(), name) >= 0 {
        option_position(opts.drop_last(), name)
    } else if opts.last().name == name {
        opts.len() - 1
    } else {
        -1
    }
}

/// The categories with one named `name` (added at the end if there is
/// none), and its position.
pub open spec fn with_category(cats: Seq<CategoryView>, name: Seq<char>) -> (Seq<CategoryView>, int) {
    if category_position(cats, name) >= 0 {
        (cats, category_position(cats, name))
    } else {
        (cats.push(CategoryView { name, options: Seq::empty(), exclusive: false }), cats.len() as int)
    }
}

/// Product `pid` added to option `value` of category `ci`; a new option,
/// numbered `next`, when the category has none of that name.
pub open spec fn add_value(cats: Seq<CategoryView>, next: nat, ci: int, value: Seq<char>, pid: usize) -> (
    Seq<CategoryView>,
    nat,
) {
    let cat = cats[ci];
    let oi = option_position(cat.options, value);
    if oi >= 0 {
        let opt = cat.options[oi];
        (
            cats.update(
                ci,
                CategoryView {
                    options: cat.options.update(oi, OptionView { content: add_once(opt.content, pid), ..opt }),
                    ..cat
                },
            ),
            next,
        )
    } else {
        (
            cats.update(
                ci,
                CategoryView {
                    options: cat.options.push(
                        OptionView { name: value, serialization_id: next as usize, content: seq![pid] },
                    ),
                    ..cat
                },
            ),
            next + 1,
        )
    }
}

/// Product `pid` added to each of `values` of category `ci`, in order.
pub open spec fn add_values(
    cats: Seq<CategoryView>,
    next: nat,
    ci: int,
    values: Seq<Seq<char>>,
    pid: usize,
) -> (Seq<CategoryView>, nat)
    decreases values.len(),
{
    if values.len() == 0 {
        (cats, next)
    } else {
        let (c, n) = add_values(cats, next, ci, values.drop_last(), pid);
        add_value(c, n, ci, values.last(), pid)
    }
}

/// Product `pid` added under each of its raw options, in order.
pub open spec fn add_raw_options(
    cats: Seq<CategoryView>,
    next: nat,
    options: Seq<(Seq<char>, Seq<Seq<char>>)>,
    pid: usize,
) -> (Seq<CategoryView>, nat)
    decreases options.len(),
{
    if options.len() == 0 {
        (cats, next)
    } else {
        let (c, n) = add_raw_options(cats, next, options.drop_last(), pid);
        let (c2, ci) = with_category(c, options.last().0);
        add_values(c2, n, ci, options.last().1, pid)
    }
}

/// The categories of products whose raw options are `list`, product `i`
/// having position `pids[i]`, with the next option number.
pub open spec fn index_categories(list: Seq<Seq<(Seq<char>, Seq<Seq<char>>)>>, pids: Seq<usize>) -> (
    Seq<CategoryView>,
    nat,
)
    decreases list.len(),
{
    if list.len() == 0 {
        (Seq::empty(), 0)
    } else {
        let (c, n) = index_categories(list.drop_last(), pids);
        add_raw_options(c, n, list.last(), pids[list.len() - 1])
    }
}

/// The number of option values in `list`.
pub open spec fn total_values(list: Seq<Seq<(Seq<char>, Seq<Seq<char>>)>>) -> nat
    decreases list.len(),
{
    if list.len() == 0 {
        0
    } else {
        total_values(list.drop_last()) + values_in(list.last())
    }
}

/// The number of values of the options.
pub open spec fn values_in(options: Seq<(Seq<char>, Seq<Seq<char>>)>) -> nat
    decreases options.len(),
{
    if options.len() == 0 {
        0
    } else {
        values_in(options.drop_last()) + options.last().1.len()
    }
}

/// The models of categories.
pub open spec fn cats_view(s: Seq<Category>) -> Seq<CategoryView> {
    s.map_values(|c: Category| c.view())
}

/// The models of options.
pub open spec fn opts_view(s: Seq<CategoryOption>) -> Seq<OptionView> {
    s.map_values(|o: CategoryOption| o.view())
}

proof fn lemma_category_position(cats: Seq<CategoryView>, name: Seq<char>)
    ensures
        -1 <= category_position(cats, name) < cats.len(),
        category_position(cats, name) >= 0 ==> cats[category_position(cats, name)].name == name,
        forall|j: int| 0 <= j < cats.len() && (category_position(cats, name) == -1 || j < category_position(cats, name))
            ==> #[trigger] cats[j].name != name,
    decreases cats.len(),
{
    if cats.len() > 0 {
        lemma_category_position(cats.drop_last(), name);
        assert forall|j: int| 0 <= j < cats.len() - 1 implies #[trigger] cats[j] == cats.drop_last()[j] by {}
    }
}

proof fn lemma_option_position(opts: Seq<OptionView>, name: Seq<char>)
    ensures
        -1 <= option_position(opts, name) < opts.len(),
        option_position(opts, name) >= 0 ==> opts[option_position(opts, name)].name == name,
        forall|j: int| 0 <= j < opts.len() && (option_position(opts, name) == -1 || j < option_position(opts, name))
            ==> #[trigger] opts[j].name != name,
    decreases opts.len(),
{
    if opts.len() > 0 {
        lemma_option_position(opts.drop_last(), name);
        assert forall|j: int| 0 <= j < opts.len() - 1 implies #[trigger] opts[j] == opts.drop_last()[j] by {}
    }
}

/// The position of the first category named `name`, if any.
fn find_category(categories: &Vec<Category>, name: &str) -> (res: Option<usize>)
    ensures
        res matches Some(i) ==> category_position(cats_view(categories@), name@) == i,
        res is None ==> category_position(cats_view(categories@), name@) == -1,
{
    proof {
        lemma_category_position(cats_view(categories@), name@);
    }
    let mut i: usize = 0;
    while i < categories.len()
        invariant
            i <= categories@.len(),
            forall|j: int| 0 <= j < i ==> #[trigger] categories@[j].name@ != name@,
            -1 <= category_position(cats_view(categories@), name@) < categories@.len(),
            category_position(cats_view(categories@), name@) >= 0 ==> cats_view(categories@)[category_position(cats_view(categories@), name@)].name == name@,
            forall|j: int| 0 <= j < categories@.len() && (category_position(cats_view(categories@), name@) == -1 || j < category_position(cats_view(categories@), name@))
                ==> #[trigger] cats_view(categories@)[j].name != name@,
        decreases categories@.len() - i,
    {
        if same_text(categories[i].name.as_str(), name) {
            assert(cats_view(categories@)[i as int].name == name@);
            return Some(i);
        }
        assert(cats_view(categories@)[i as int].name != name@);
        i = i + 1;
    }
    proof {
        let p = category_position(cats_view(categories@), name@);
        if p >= 0 {
            assert(categories@[p].name@ != name@);
        }
    }
    None
}

/// The position of the first option named `name`, if any.
fn find_option(options: &Vec<CategoryOption>, name: &str) -> (res: Option<usize>)
    ensures
        res matches Some(i) ==> option_position(opts_view(options@), name@) == i,
        res is None ==> option_position(opts_view(options@), name@) == -1,
{
    proof {
        lemma_option_position(opts_view(options@), name@);
    }
    let mut i: usize = 0;
    while i < options.len()
        invariant
            i <= options@.len(),
            forall|j: int| 0 <= j < i ==> #[trigger] options@[j].name@ != name@,
            -1 <= option_position(opts_view(options@), name@) < options@.len(),
            option_position(opts_view(options@), name@) >= 0 ==> opts_view(options@)[option_position(opts_view(options@), name@)].name == name@,
            forall|j: int| 0 <= j < options@.len() && (option_position(opts_view(options@), name@) == -1 || j < option_position(opts_view(options@), name@))
                ==> #[trigger] opts_view(options@)[j].name != name@,
        decreases options@.len() - i,
    {
        if same_text(options[i].name.as_str(), name) {
            assert(opts_view(options@)[i as int].name == name@);
            return Some(i);
        }
        assert(opts_view(options@)[i as int].name != name@);
        i = i + 1;
    }
    proof {
        let p = option_position(opts_view(options@), name@);
        if p >= 0 {
            assert(options@[p].name@ != name@);
        }
    }
    None
}

/// The position of the category named `name`, which is added when there is
/// none.
fn category_slot(categories: &mut Vec<Category>, name: &str) -> (ci: usize)
    requires
        forall|i: int| 0 <= i < old(categories)@.len() ==> #[trigger] old(categories)@[i].wf(),
    ensures
        forall|i: int| 0 <= i < final(categories)@.len() ==> #[trigger] final(categories)@[i].wf(),
        cats_view(final(categories)@) == with_category(cats_view(old(categories)@), name@).0,
        ci == with_category(cats_view(old(categories)@), name@).1,
        ci < final(categories)@.len(),
{
    match find_category(categories, name) {
        Some(i) => {
            proof {
                lemma_category_position(cats_view(categories@), name@);
            }
            i
        },
        None => {
            let ghost before = categories@;
            let c = Category::new(name.to_string());
            categories.push(c);
            assert(cats_view(categories@) =~= cats_view(before).push(
                CategoryView { name: name@, options: Seq::empty(), exclusive: false },
            ));
            categories.len() - 1
        },
    }
}

/// Adds `product` to option `value` of category `ci` (a new option numbered
/// `*next` when there is none).
fn add_value_exec(categories: &mut Vec<Category>, ci: usize, next: &mut usize, value: &str, product: &Product)
    requires
        ci < old(categories)@.len(),
        forall|i: int| 0 <= i < old(categories)@.len() ==> #[trigger] old(categories)@[i].wf(),
        *old(next) < usize::MAX,
    ensures
        forall|i: int| 0 <= i < final(categories)@.len() ==> #[trigger] final(categories)@[i].wf(),
        final(categories)@.len() == old(categories)@.len(),
        (cats_view(final(categories)@), *final(next) as nat) == add_value(
            cats_view(old(categories)@),
            *old(next) as nat,
            ci as int,
            value@,
            product.serialization_id,
        ),
{
    let ghost before = categories@;
    let ghost cat = cats_view(before)[ci as int];
    proof {
        assert(before[ci as int].wf());
        lemma_option_position(cat.options, value@);
        assert(cat.options == opts_view(before[ci as int].options@));
    }
    match find_option(&categories[ci].options, value) {
        Some(oi) => {
            proof {
                assert(categories@[ci as int].options@[oi as int].wf());
            }
            categories[ci].options[oi].add(product);
            proof {
                let opt = cat.options[oi as int];
                assert(opts_view(categories@[ci as int].options@) =~= cat.options.update(
                    oi as int,
                    OptionView { content: add_once(opt.content, product.serialization_id), ..opt },
                ));
                assert(cats_view(categories@) =~= cats_view(before).update(
                    ci as int,
                    CategoryView {
                        options: cat.options.update(
                            oi as int,
                            OptionView { content: add_once(opt.content, product.serialization_id), ..opt },
                        ),
                        ..cat
                    },
                ));
                assert forall|i: int| 0 <= i < categories@.len() implies #[trigger] categories@[i].wf() by {
                    if i == ci {
                        assert forall|k: int| 0 <= k < categories@[i].options@.len() implies #[trigger] categories@[i].options@[k].wf() by {
                            if k != oi {
                                assert(categories@[i].options@[k] == before[i].options@[k]);
                            }
                        }
                    } else {
                        assert(categories@[i] == before[i]);
                    }
                }
            }
        },
        None => {
            let mut opt = CategoryOption::new(value.to_string(), *next);
            opt.add(product);
            *next = *next + 1;
            let ghost added = opt.view();
            categories[ci].options.push(opt);
            proof {
                assert(added.content =~= seq![product.serialization_id]);
                assert(opts_view(categories@[ci as int].options@) =~= cat.options.push(added));
                assert(cats_view(categories@) =~= cats_view(before).update(
                    ci as int,
                    CategoryView { options: cat.options.push(added), ..cat },
                ));
                assert forall|i: int| 0 <= i < categories@.len() implies #[trigger] categories@[i].wf() by {
                    if i == ci {
                        assert forall|k: int| 0 <= k < categories@[i].options@.len() implies #[trigger] categories@[i].options@[k].wf() by {
                            if k < before[i].options@.len() {
                                assert(categories@[i].options@[k] == before[i].options@[k]);
                            }
                        }
                    } else {
                        assert(categories@[i] == before[i]);
                    }
                }
            }
        },
    }
}

/// The raw options of each product, as names.
pub open spec fn raw_lists(l: Seq<Vec<RawProductOption>>) -> Seq<Seq<(Seq<char>, Seq<Seq<char>>)>> {
    l.map_values(|v: Vec<RawProductOption>| v@.map_values(|o: RawProductOption| raw_option_view(o)))
}

/// The positions of the products.
pub open spec fn product_positions(products: Seq<Product>) -> Seq<usize> {
    products.map_values(|p: Product| p.serialization_id)
}

pub proof fn lemma_total_values_prefix(list: Seq<Seq<(Seq<char>, Seq<Seq<char>>)>>, i: int)
    requires
        0 <= i < list.len(),
    ensures
        total_values(list.take(i)) + values_in(list[i]) == total_values(list.take(i + 1)),
        total_values(list.take(i + 1)) <= total_values(list),
    decreases list.len() - i,
{
    assert(list.take(i + 1).drop_last() =~= list.take(i));
    if i + 1 < list.len() {
        lemma_total_values_prefix(list, i + 1);
    } else {
        assert(list.take(i + 1) =~= list);
    }
}

pub proof fn lemma_values_in_prefix(opts: Seq<(Seq<char>, Seq<Seq<char>>)>, j: int)
    requires
        0 <= j < opts.len(),
    ensures
        values_in(opts.take(j)) + opts[j].1.len() == values_in(opts.take(j + 1)),
        values_in(opts.take(j + 1)) <= values_in(opts),
    decreases opts.len() - j,
{
    assert(opts.take(j + 1).drop_last() =~= opts.take(j));
    if j + 1 < opts.len() {
        lemma_values_in_prefix(opts, j + 1);
    } else {
        assert(opts.take(j + 1) =~= opts);
    }
}

impl CategoryIndex {
    /// Builds the categories from each product's raw options: a category per
    /// option name, in order of first appearance, with an option per value,
    /// numbered in order of first appearance over all categories, each
    /// listing the products that have it once, in the order they came.
    pub fn index(options_list: Vec<Vec<RawProductOption>>, container: &ProductContainer) -> (res: CategoryIndex)
        requires
            options_list@.len() <= container.products@.len(),
            total_values(raw_lists(options_list@)) < usize::MAX,
        ensures
            res.wf(),
            res.view() == index_categories(
                raw_lists(options_list@),
                product_positions(container.products@),
            ).0,
    {
        let ghost list = raw_lists(options_list@);
        let ghost pids = product_positions(container.products@);
        let mut categories: Vec<Category> = Vec::new();
        let mut next: usize = 0;
        let mut i: usize = 0;
        assert(cats_view(categories@) =~= Seq::<CategoryView>::empty());
        assert(list.take(0) =~= Seq::<Seq<(Seq<char>, Seq<Seq<char>>)>>::empty());
        while i < options_list.len()
            invariant
                list == raw_lists(options_list@),
                pids == product_positions(container.products@),
                options_list@.len() <= container.products@.len(),
                total_values(list) < usize::MAX,
                i <= options_list@.len(),
                forall|k: int| 0 <= k < categories@.len() ==> #[trigger] categories@[k].wf(),
                (cats_view(categories@), next as nat) == index_categories(list.take(i as int), pids),
                next <= total_values(list.take(i as int)),
            decreases options_list@.len() - i,
        {
            let options = &options_list[i];
            let product = &container.products[i];
            let ghost opts = list[i as int];
            let ghost base = (cats_view(categories@), next as nat);
            let ghost base_next = next as nat;
            proof {
                lemma_total_values_prefix(list, i as int);
                assert(opts == options@.map_values(|o: RawProductOption| raw_option_view(o)));
                assert(opts.take(0) =~= Seq::<(Seq<char>, Seq<Seq<char>>)>::empty());
            }
            let mut j: usize = 0;
            while j < options.len()
                invariant
                    opts == options@.map_values(|o: RawProductOption| raw_option_view(o)),
                    j <= options@.len(),
                    forall|k: int| 0 <= k < categories@.len() ==> #[trigger] categories@[k].wf(),
                    (cats_view(categories@), next as nat) == add_raw_options(base.0, base.1, opts.take(j as int), product.serialization_id),
                    next <= base_next + values_in(opts.take(j as int)),
                    base_next + values_in(opts) < usize::MAX,
                decreases options@.len() - j,
            {
                let raw = &options[j];
                proof {
                    lemma_values_in_prefix(opts, j as int);
                    assert(opts.take(j + 1).drop_last() =~= opts.take(j as int));
                    assert(opts[j as int] == raw_option_view(*raw));
                }
                let ghost mid_next = next as nat;
                let ci = category_slot(&mut categories, raw.name.as_str());
                let ghost c2 = cats_view(categories@);
                let ghost values = raw.values.deep_view();
                let mut k: usize = 0;
                assert(values.take(0) =~= Seq::<Seq<char>>::empty());
                while k < raw.values.len()
                    invariant
                        values == raw.values.deep_view(),
                        k <= raw.values@.len(),
                        ci < categories@.len(),
                        c2.len() <= categories@.len(),
                        forall|m: int| 0 <= m < categories@.len() ==> #[trigger] categories@[m].wf(),
                        (cats_view(categories@), next as nat) == add_values(c2, mid_next, ci as int, values.take(k as int), product.serialization_id),
                        next <= mid_next + k,
                        mid_next + values.len() < usize::MAX,
                    decreases raw.values@.len() - k,
                {
                    proof {
                        assert(values.take(k + 1).drop_last() =~= values.take(k as int));
                        assert(values[k as int] == raw.values@[k as int]@);
                    }
                    add_value_exec(&mut categories, ci, &mut next, raw.values[k].as_str(), product);
                    k = k + 1;
                }
                proof {
                    assert(values.take(k as int) =~= values);
                }
                j = j + 1;
            }
            proof {
                assert(opts.take(j as int) =~= opts);
                assert(list.take(i + 1).drop_last() =~= list.take(i as int));
                assert(list.take(i + 1).last() == opts);
                assert(pids[i as int] == product.serialization_id);
            }
            i = i + 1;
        }
        proof {
            assert(list.take(i as int) =~= list);
        }
        CategoryIndex(categories)
    }
}

/// The written form of an option: its name, then the positions of its
/// products, in order.
pub open spec fn spec_serialize_option(o: OptionView) -> Seq<u8> {
    spec_serialize_str(o.name) + spec_serialize_positions(o.content)
}

/// The written forms of options, one after the other.
pub open spec fn spec_serialize_options(opts: Seq<OptionView>) -> Seq<u8>
    decreases opts.len(),
{
    if opts.len() == 0 {
        Seq::empty()
    } else {
        spec_serialize_options(opts.drop_last()) + spec_serialize_option(opts.last())
    }
}

/// The written form of a category: whether it is exclusive, its name, the
/// number of options and the options.
pub open spec fn spec_serialize_category(c: CategoryView) -> Seq<u8> {
    bool::spec_serialize(c.exclusive) + spec_serialize_str(c.name) + encode_varint(c.options.len())
        + spec_serialize_options(c.options)
}

/// The written forms of categories, one after the other.
pub open spec fn spec_serialize_categories(cats: Seq<CategoryView>) -> Seq<u8>
    decreases cats.len(),
{
    if cats.len() == 0 {
        Seq::empty()
    } else {
        spec_serialize_categories(cats.drop_last()) + spec_serialize_category(cats.last())
    }
}

/// What reading one option gives, numbered `next`, when there are
/// `product_count` products: every product it lists must exist.
#[verifier::opaque]
pub open spec fn parse_option(input: Seq<u8>, product_count: nat, next: nat) -> Decoding<OptionView> {
    match String::spec_deserialize(input) {
        Decoding::Complete(name, a) => match spec_deserialize_positions(input.skip(a as int)) {
            Decoding::Complete(ids, b) => if !(forall|k: int| 0 <= k < ids.len() ==> #[trigger] ids[k] < product_count) {
                Decoding::Rejected
            } else if next >= usize::MAX {
                Decoding::Aborts
            } else {
                Decoding::Complete(OptionView { name, serialization_id: next as usize, content: ids }, a + b)
            },
            Decoding::Rejected => Decoding::Rejected,
            Decoding::Aborts => Decoding::Aborts,
        },
        Decoding::Rejected => Decoding::Rejected,
        Decoding::Aborts => Decoding::Aborts,
    }
}

/// What reading `count` options gives, numbered on from `next`.
pub open spec fn parse_options(input: Seq<u8>, count: nat, product_count: nat, next: nat) -> Decoding<
    Seq<OptionView>,
>
    decreases count,
{
    if count == 0 {
        Decoding::Complete(Seq::empty(), 0)
    } else {
        match parse_option(input, product_count, next) {
            Decoding::Complete(o, a) => after_prefix(
                seq![o],
                a,
                parse_options(input.skip(a as int), (count - 1) as nat, product_count, next + 1),
            ),
            Decoding::Rejected => Decoding::Rejected,
            Decoding::Aborts => Decoding::Aborts,
        }
    }
}

/// What reading `count` categories gives, their options numbered on from
/// `next`.
pub open spec fn parse_categories(input: Seq<u8>, count: nat, product_count: nat, next: nat) -> Decoding<
    Seq<CategoryView>,
>
    decreases count,
{
    if count == 0 {
        Decoding::Complete(Seq::empty(), 0)
    } else {
        match parse_category(input, product_count, next) {
            Decoding::Complete(c, a) => after_prefix(
                seq![c],
                a,
                parse_categories(input.skip(a as int), (count - 1) as nat, product_count, next + c.options.len()),
            ),
            Decoding::Rejected => Decoding::Rejected,
            Decoding::Aborts => Decoding::Aborts,
        }
    }
}

/// The numbers of the options, category after category.
pub open spec fn option_numbers(cats: Seq<CategoryView>) -> Seq<usize>
    decreases cats.len(),
{
    if cats.len() == 0 {
        Seq::empty()
    } else {
        cats[0].options.map_values(|o: OptionView| o.serialization_id) + option_numbers(cats.drop_first())
    }
}

/// The categories with their options numbered by `ids`, category after
/// category: each option takes the number after those of the options
/// before it.
pub open spec fn numbered_categories(cats: Seq<CategoryView>, ids: Seq<usize>) -> Seq<CategoryView> {
    Seq::new(
        cats.len(),
        |c: int|
            CategoryView {
                options: Seq::new(
                    cats[c].options.len(),
                    |o: int| OptionView { serialization_id: ids[option_count(cats.take(c)) + o], ..cats[c].options[o] },
                ),
                ..cats[c]
            },
    )
}

/// The written form of a category index: the number of categories, the
/// categories, then the numbers of their options, category after category.
pub open spec fn spec_serialize_category_index(cats: Seq<CategoryView>) -> Seq<u8> {
    encode_varint(cats.len()) + spec_serialize_categories(cats) + spec_serialize_positions(option_numbers(cats))
}

/// What reading a category index gives: a count, the categories, then one
/// number for each of their options (another count of numbers rejects the
/// input), which the options take in order.
#[verifier::opaque]
pub open spec fn parse_category_index(input: Seq<u8>, product_count: nat) -> Decoding<Seq<CategoryView>> {
    match usize::spec_deserialize(input) {
        Decoding::Complete(len, a) => match parse_categories(input.skip(a as int), len as nat, product_count, 0) {
            Decoding::Complete(cats, b) => match spec_deserialize_positions(input.skip((a + b) as int)) {
                Decoding::Complete(ids, c) => if ids.len() == option_count(cats) {
                    Decoding::Complete(numbered_categories(cats, ids), a + b + c)
                } else {
                    Decoding::Rejected
                },
                Decoding::Rejected => Decoding::Rejected,
                Decoding::Aborts => Decoding::Aborts,
            },
            Decoding::Rejected => Decoding::Rejected,
            Decoding::Aborts => Decoding::Aborts,
        },
        Decoding::Rejected => Decoding::Rejected,
        Decoding::Aborts => Decoding::Aborts,
    }
}

impl Category {
    /// Writes the category: exclusive flag, name, option count, then each
    /// option's name and products.
    pub fn serialize(&self, output: &mut Vec<u8>)
        ensures
            final(output)@ == old(output)@ + spec_serialize_category(self.view()),
    {
        let ghost start = output@;
        let ghost v = self.view();
        self.exclusive.serialize(output);
        serialize_str(self.name.as_str(), output);
        self.options.len().serialize(output);
        let ghost head = output@;
        let mut i: usize = 0;
        assert(v.options.take(0) =~= Seq::<OptionView>::empty());
        while i < self.options.len()
            invariant
                v == self.view(),
                i <= self.options@.len(),
                output@ == head + spec_serialize_options(v.options.take(i as int)),
            decreases self.options@.len() - i,
        {
            let option = &self.options[i];
            serialize_str(option.name.as_str(), output);
            Product::serialize_positions(&option.content, output);
            proof {
                assert(v.options.take(i + 1).drop_last() =~= v.options.take(i as int));
                assert(v.options[i as int] == option.view());
            }
            i = i + 1;
        }
        assert(v.options.take(i as int) =~= v.options);
        assert(output@ =~= start + spec_serialize_category(v));
    }
}

/// Appending a category appends the numbers of its options.
proof fn lemma_option_numbers_push(cats: Seq<CategoryView>, c: CategoryView)
    ensures
        option_numbers(cats.push(c)) == option_numbers(cats) + c.options.map_values(|o: OptionView| o.serialization_id),
    decreases cats.len(),
{
    let ids = c.options.map_values(|o: OptionView| o.serialization_id);
    if cats.len() == 0 {
        assert(cats.push(c).drop_first() =~= Seq::<CategoryView>::empty());
        assert(option_numbers(Seq::<CategoryView>::empty()) == Seq::<usize>::empty());
        assert(ids + Seq::<usize>::empty() =~= Seq::<usize>::empty() + ids);
    } else {
        lemma_option_numbers_push(cats.drop_first(), c);
        assert(cats.push(c).drop_first() =~= cats.drop_first().push(c));
        assert(cats.push(c)[0] == cats[0]);
        let first = cats[0].options.map_values(|o: OptionView| o.serialization_id);
        assert(first + (option_numbers(cats.drop_first()) + ids) =~= (first + option_numbers(cats.drop_first())) + ids);
    }
}

/// The numbers of the options of a category index, category after category.
fn option_numbers_exec(cats: &Vec<Category>) -> (res: Vec<usize>)
    ensures
        res@ == option_numbers(cats_view(cats@)),
{
    let ghost v = cats_view(cats@);
    let mut numbers: Vec<usize> = Vec::new();
    let mut ci: usize = 0;
    assert(v.take(0) =~= Seq::<CategoryView>::empty());
    while ci < cats.len()
        invariant
            v == cats_view(cats@),
            ci <= cats@.len(),
            numbers@ == option_numbers(v.take(ci as int)),
        decreases cats@.len() - ci,
    {
        let opts = &cats[ci].options;
        let ghost c = v[ci as int];
        assert(c == cats@[ci as int].view());
        let ghost head = numbers@;
        let mut oi: usize = 0;
        while oi < opts.len()
            invariant
                c == cats@[ci as int].view(),
                opts@ == cats@[ci as int].options@,
                oi <= opts@.len(),
                numbers@ == head + c.options.take(oi as int).map_values(|o: OptionView| o.serialization_id),
            decreases opts@.len() - oi,
        {
            numbers.push(opts[oi].serialization_id);
            proof {
                assert(c.options[oi as int] == opts@[oi as int].view());
                assert(c.options.take(oi + 1).map_values(|o: OptionView| o.serialization_id) =~= c.options.take(
                    oi as int,
                ).map_values(|o: OptionView| o.serialization_id).push(opts@[oi as int].serialization_id));
            }
            oi = oi + 1;
        }
        proof {
            assert(c.options.take(oi as int) =~= c.options);
            lemma_option_numbers_push(v.take(ci as int), c);
            assert(v.take(ci + 1) =~= v.take(ci as int).push(c));
        }
        ci = ci + 1;
    }
    assert(v.take(ci as int) =~= v);
    numbers
}

impl CategoryIndex {
    /// Writes the number of categories, each category, then the numbers of
    /// their options.
    pub fn serialize(&self, output: &mut Vec<u8>)
        ensures
            final(output)@ == old(output)@ + spec_serialize_category_index(self.view()),
    {
        let ghost start = output@;
        let ghost v = self.view();
        self.0.len().serialize(output);
        let ghost head = output@;
        let mut i: usize = 0;
        assert(v.take(0) =~= Seq::<CategoryView>::empty());
        while i < self.0.len()
            invariant
                v == self.view(),
                i <= self.0@.len(),
                output@ == head + spec_serialize_categories(v.take(i as int)),
            decreases self.0@.len() - i,
        {
            self.0[i].serialize(output);
            proof {
                assert(v.take(i + 1).drop_last() =~= v.take(i as int));
                assert(v[i as int] == self.0@[i as int].view());
            }
            i = i + 1;
        }
        assert(v.take(i as int) =~= v);
        let numbers = option_numbers_exec(&self.0);
        Product::serialize_positions(&numbers, output);
        assert(output@ =~= start + spec_serialize_category_index(v));
    }
}

/// The lookup set of a list of positions.
fn set_of(ids: &Vec<usize>) -> (res: AHashSet<usize>)
    ensures
        position_set(res) == ids@.to_set(),
{
    let mut set = position_set_new();
    let mut i: usize = 0;
    while i < ids.len()
        invariant
            i <= ids@.len(),
            position_set(set) == ids@.take(i as int).to_set(),
        decreases ids@.len() - i,
    {
        position_set_insert(&mut set, ids[i]);
        proof {
            ids@.take(i as int).lemma_push_to_set_commute(ids@[i as int]);
            assert(ids@.take(i + 1) =~= ids@.take(i as int).push(ids@[i as int]));
        }
        i = i + 1;
    }
    assert(ids@.take(i as int) =~= ids@);
    set
}

proof fn lemma_parse_options_step(input: Seq<u8>, count: nat, product_count: nat, next: nat)
    requires
        count > 0,
    ensures
        parse_options(input, count, product_count, next) == match parse_option(input, product_count, next) {
            Decoding::Complete(o, a) => after_prefix(
                seq![o],
                a,
                parse_options(input.skip(a as int), (count - 1) as nat, product_count, next + 1),
            ),
            Decoding::Rejected => Decoding::Rejected,
            Decoding::Aborts => Decoding::Aborts,
        },
{
}

proof fn lemma_parse_categories_step(input: Seq<u8>, count: nat, product_count: nat, next: nat)
    requires
        count > 0,
    ensures
        parse_categories(input, count, product_count, next) == match parse_category(input, product_count, next) {
            Decoding::Complete(c, a) => after_prefix(
                seq![c],
                a,
                parse_categories(input.skip(a as int), (count - 1) as nat, product_count, next + c.options.len()),
            ),
            Decoding::Rejected => Decoding::Rejected,
            Decoding::Aborts => Decoding::Aborts,
        },
{
}

impl CategoryOption {
    /// Reads one option: its name and its products, which must all exist;
    /// it gets number `*next_serialization_id`, which moves on by one.
    fn read<'i>(input: &'i [u8], all_products: &[Product], next_serialization_id: &mut usize) -> (res:
        Option<(&'i [u8], CategoryOption)>)
        ensures
            match parse_option(input@, all_products@.len(), *old(next_serialization_id) as nat) {
                Decoding::Complete(o, n) => res matches Some((rest, opt)) && n <= input@.len() && rest@
                    == input@.skip(n as int) && opt.view() == o && opt.wf() && *final(next_serialization_id)
                    == *old(next_serialization_id) + 1,
                _ => res is None && *final(next_serialization_id) == *old(next_serialization_id),
            },
    {
        reveal(parse_option);
        let ghost pc = all_products@.len();
        let (after_name, name) = String::deserialize(input)?;
        let ghost a = (input@.len() - after_name@.len()) as nat;
        assert(String::spec_deserialize(input@) == Decoding::Complete(name@, a));
        assert(after_name@ == input@.skip(a as int));
        let (after_ids, ids) = Product::deserialize_positions(after_name, all_products.len())?;
        let ghost b = (after_name@.len() - after_ids@.len()) as nat;
        assert(spec_deserialize_positions(after_name@) == Decoding::Complete(ids@, b));
        assert(after_ids@ =~= input@.skip((a + b) as int));
        if *next_serialization_id == usize::MAX {
            return None;
        }
        let serialization_id = *next_serialization_id;
        *next_serialization_id = *next_serialization_id + 1;
        let set = set_of(&ids);
        Some((after_ids, CategoryOption { name, serialization_id, content: ids, products_by_serialization_id: set }))
    }
}

/// What reading a category's flag, name and option count gives.
#[verifier::opaque]
pub open spec fn parse_category_header(input: Seq<u8>) -> Decoding<(bool, Seq<char>, usize)> {
    match bool::spec_deserialize(input) {
        Decoding::Complete(exclusive, a) => match String::spec_deserialize(input.skip(a as int)) {
            Decoding::Complete(name, b) => match usize::spec_deserialize(input.skip((a + b) as int)) {
                Decoding::Complete(len, c) => Decoding::Complete((exclusive, name, len), a + b + c),
                Decoding::Rejected => Decoding::Rejected,
                Decoding::Aborts => Decoding::Aborts,
            },
            Decoding::Rejected => Decoding::Rejected,
            Decoding::Aborts => Decoding::Aborts,
        },
        Decoding::Rejected => Decoding::Rejected,
        Decoding::Aborts => Decoding::Aborts,
    }
}

/// The number of options read whole, of `count`, before reading one
/// fails (all `count` when none fails).
pub open spec fn options_read(input: Seq<u8>, count: nat, product_count: nat, next: nat) -> nat
    decreases count,
{
    if count == 0 {
        0
    } else {
        match parse_option(input, product_count, next) {
            Decoding::Complete(o, a) => 1 + options_read(
                input.skip(a as int),
                (count - 1) as nat,
                product_count,
                next + 1,
            ),
            _ => 0,
        }
    }
}

/// The number of options of a category read whole before reading it fails
/// (none when its flag, name or option count cannot be read).
pub open spec fn category_options_read(input: Seq<u8>, product_count: nat, next: nat) -> nat {
    match parse_category_header(input) {
        Decoding::Complete((_, _, len), h) => options_read(input.skip(h as int), len as nat, product_count, next),
        _ => 0,
    }
}

/// What reading a category gives, its options numbered from `next`.
pub open spec fn parse_category(input: Seq<u8>, product_count: nat, next: nat) -> Decoding<CategoryView> {
    match parse_category_header(input) {
        Decoding::Complete((exclusive, name, len), h) => match parse_options(
            input.skip(h as int),
            len as nat,
            product_count,
            next,
        ) {
            Decoding::Complete(options, d) => Decoding::Complete(CategoryView { name, options, exclusive }, h + d),
            Decoding::Rejected => Decoding::Rejected,
            Decoding::Aborts => Decoding::Aborts,
        },
        Decoding::Rejected => Decoding::Rejected,
        Decoding::Aborts => Decoding::Aborts,
    }
}

impl Category {
    /// Reads a category: exclusive flag, name, option count, then each
    /// option's name and products (which must all exist); the options are
    /// numbered on from `*next_serialization_id`.
    pub fn deserialize<'i>(input: &'i [u8], all_products: &[Product], next_serialization_id: &mut usize) -> (res:
        Option<(&'i [u8], Category)>)
        ensures
            match parse_category(input@, all_products@.len(), *old(next_serialization_id) as nat) {
                Decoding::Complete(c, n) => res matches Some((rest, cat)) && n <= input@.len() && rest@ == input@.skip(n as int)
                    && cat.view() == c && cat.wf() && *final(next_serialization_id) == *old(next_serialization_id) + c.options.len(),
                _ => res is None && *final(next_serialization_id) == *old(next_serialization_id)
                    + category_options_read(input@, all_products@.len(), *old(next_serialization_id) as nat),
            },
    {
        let ghost pc = all_products@.len();
        let ghost next0 = *next_serialization_id as nat;
        reveal(parse_category_header);
        let (r1, exclusive) = bool::deserialize(input)?;
        let (r2, name) = String::deserialize(r1)?;
        proof {
            assert(r2@ =~= input@.skip((input@.len() - r2@.len()) as int));
        }
        let (r3, len) = usize::deserialize(r2)?;
        let ghost h = (input@.len() - r3@.len()) as nat;
        proof {
            assert(r3@ =~= input@.skip(h as int));
            assert(parse_category_header(input@) == Decoding::Complete((exclusive, name@, len), h));
        }
        let ghost whole = parse_options(r3@, len as nat, pc, next0);
        let mut rest = r3;
        let mut options: Vec<CategoryOption> = Vec::new();
        let mut k: usize = 0;
        assert(opts_view(options@) =~= Seq::<OptionView>::empty());
        assert(after_prefix(Seq::<OptionView>::empty(), 0, whole) == whole);
        while k < len
            invariant
                k <= len,
                rest@.len() <= r3@.len(),
                rest@ == r3@.skip(r3@.len() - rest@.len()),
                options@.len() == k,
                pc == all_products@.len(),
                next0 == *old(next_serialization_id) as nat,
                *next_serialization_id == next0 + k,
                forall|i: int| 0 <= i < options@.len() ==> #[trigger] options@[i].wf(),
                parse_category(input@, pc, next0) == match whole {
                    Decoding::Complete(opts, d) => Decoding::Complete(CategoryView { name: name@, options: opts, exclusive }, h + d),
                    Decoding::Rejected => Decoding::Rejected,
                    Decoding::Aborts => Decoding::Aborts,
                },
                h == input@.len() - r3@.len(),
                category_options_read(input@, pc, next0) == k + options_read(rest@, (len - k) as nat, pc, (next0 + k) as nat),
                whole == after_prefix(
                    opts_view(options@),
                    (r3@.len() - rest@.len()) as nat,
                    parse_options(rest@, (len - k) as nat, pc, (next0 + k) as nat),
                ),
            decreases len - k,
        {
            let ghost before = rest@;
            let ghost tail = parse_options(before, (len - k - 1) as nat, pc, (next0 + k + 1) as nat);
            let ghost consumed = (r3@.len() - rest@.len()) as nat;
            proof {
                lemma_parse_options_step(before, (len - k) as nat, pc, (next0 + k) as nat);
                assert(*next_serialization_id as nat == (next0 + k) as nat);
            }
            let read = CategoryOption::read(rest, all_products, next_serialization_id);
            let (after, option) = match read {
                Some(found) => found,
                None => {
                    proof {
                        assert(options_read(before, (len - k) as nat, pc, (next0 + k) as nat) == 0);
                    }
                    return None;
                },
            };
            let ghost ov = option.view();
            let ghost prev = opts_view(options@);
            let ghost m = (before.len() - after@.len()) as nat;
            proof {
                assert(parse_options(before, (len - k) as nat, pc, (next0 + k) as nat) == after_prefix(
                    seq![ov],
                    m,
                    parse_options(after@, (len - k - 1) as nat, pc, (next0 + k + 1) as nat),
                ));
                lemma_after_prefix_twice(prev, consumed, seq![ov], m, parse_options(after@, (len - k - 1) as nat, pc, (next0 + k + 1) as nat));
            }
            proof {
                assert(options_read(before, (len - k) as nat, pc, (next0 + k) as nat) == 1 + options_read(
                    after@,
                    (len - k - 1) as nat,
                    pc,
                    (next0 + k + 1) as nat,
                ));
            }
            options.push(option);
            rest = after;
            proof {
                assert(opts_view(options@) =~= prev.push(ov));
                assert(prev + seq![ov] =~= opts_view(options@));
                assert(rest@ =~= r3@.skip(r3@.len() - rest@.len()));
            }
            k = k + 1;
        }
        proof {
            assert(opts_view(options@) + Seq::<OptionView>::empty() =~= opts_view(options@));
            assert(rest@ =~= input@.skip((input@.len() - rest@.len()) as int));
        }
        Some((rest, Category { name, options, exclusive }))
    }
}

impl Category {
    /// Gives the options, in order, the numbers that start at `ids[from]`.
    fn take_numbers(&mut self, ids: &Vec<usize>, from: usize)
        requires
            old(self).wf(),
            from + old(self).options@.len() <= ids@.len(),
        ensures
            final(self).wf(),
            final(self).view() == (CategoryView {
                options: Seq::new(
                    old(self).view().options.len(),
                    |o: int| OptionView { serialization_id: ids@[from + o], ..old(self).view().options[o] },
                ),
                ..old(self).view()
            }),
    {
        let ghost v0 = self.view();
        let total = ids.len();
        let k = self.options.len();
        let mut oi: usize = 0;
        while oi < k
            invariant
                total == ids@.len(),
                k == self.options@.len(),
                k == v0.options.len(),
                from + k <= ids@.len(),
                oi <= k,
                self.name@ == v0.name,
                self.exclusive == v0.exclusive,
                forall|o: int| 0 <= o < k ==> #[trigger] self.options@[o].wf(),
                forall|o: int| 0 <= o < oi ==> #[trigger] self.options@[o].view() == (OptionView {
                    serialization_id: ids@[from + o],
                    ..v0.options[o]
                }),
                forall|o: int| oi <= o < k ==> #[trigger] self.options@[o].view() == v0.options[o],
            decreases k - oi,
        {
            assert(from + oi < ids@.len());
            let index = from + oi;
            let number = ids[index];
            let ghost prev = self.options@;
            assert(prev[oi as int].view() == v0.options[oi as int]);
            self.options[oi].serialization_id = number;
            proof {
                assert(self.options@[oi as int].content == prev[oi as int].content);
                assert(self.options@[oi as int].products_by_serialization_id == prev[oi as int].products_by_serialization_id);
                assert(prev[oi as int].wf());
                assert forall|o: int| 0 <= o < k && o != oi implies #[trigger] self.options@[o] == prev[o] by {}
                assert(self.options@[oi as int].view() == (OptionView {
                    serialization_id: ids@[from + oi],
                    ..v0.options[oi as int]
                }));
            }
            oi = oi + 1;
        }
        assert(self.view().options =~= Seq::new(
            v0.options.len(),
            |o: int| OptionView { serialization_id: ids@[from + o], ..v0.options[o] },
        ));
    }
}

/// Gives the options of the categories, category after category, the
/// numbers `ids`; false when there are not as many numbers as options.
fn number_options(cats: &mut Vec<Category>, ids: &Vec<usize>) -> (ok: bool)
    requires
        forall|i: int| 0 <= i < old(cats)@.len() ==> #[trigger] old(cats)@[i].wf(),
    ensures
        ok == (ids@.len() == option_count(cats_view(old(cats)@))),
        ok ==> cats_view(final(cats)@) == numbered_categories(cats_view(old(cats)@), ids@),
        forall|i: int| 0 <= i < final(cats)@.len() ==> #[trigger] final(cats)@[i].wf(),
{
    let ghost v0 = cats_view(cats@);
    let ghost target = numbered_categories(v0, ids@);
    let n = cats.len();
    let mut j: usize = 0;
    let mut ci: usize = 0;
    assert(v0.take(0) =~= Seq::<CategoryView>::empty());
    while ci < n
        invariant
            n == cats@.len(),
            v0 == cats_view(old(cats)@),
            v0.len() == n,
            target == numbered_categories(v0, ids@),
            ci <= n,
            j == option_count(v0.take(ci as int)),
            j <= ids@.len(),
            forall|i: int| 0 <= i < cats@.len() ==> #[trigger] cats@[i].wf(),
            forall|c: int| 0 <= c < ci ==> #[trigger] cats@[c].view() == target[c],
            forall|c: int| ci <= c < n ==> #[trigger] cats@[c].view() == v0[c],
        decreases n - ci,
    {
        proof {
            lemma_option_count_prefix(v0, ci as int);
        }
        assert(cats@[ci as int].view() == v0[ci as int]);
        let k = cats[ci].options.len();
        assert(k == v0[ci as int].options.len());
        if k > ids.len() - j {
            assert(ids@.len() < option_count(v0));
            return false;
        }
        let ghost before = cats@;
        cats[ci].take_numbers(ids, j);
        proof {
            assert(cats@[ci as int].view().options =~= target[ci as int].options);
            assert forall|c: int| 0 <= c < n && c != ci implies #[trigger] cats@[c] == before[c] by {}
        }
        j = j + k;
        ci = ci + 1;
    }
    assert(v0.take(n as int) =~= v0);
    if j != ids.len() {
        return false;
    }
    assert(cats_view(cats@) =~= target);
    true
}

impl CategoryIndex {
    /// Reads a count, that many categories, then a number for each of their
    /// options, which the options take in order.
    pub fn deserialize_many<'i>(input: &'i [u8], products: &[Product]) -> (res: Option<(&'i [u8], CategoryIndex)>)
        ensures
            match parse_category_index(input@, products@.len()) {
                Decoding::Complete(cats, n) => res matches Some((rest, index)) && n <= input@.len() && rest@ == input@.skip(n as int)
                    && index.view() == cats && index.wf(),
                _ => res is None,
            },
    {
        reveal(parse_category_index);
        let ghost pc = products@.len();
        let (r1, len) = usize::deserialize(input)?;
        let ghost a = (input@.len() - r1@.len()) as nat;
        let ghost whole = parse_categories(r1@, len as nat, pc, 0);
        assert(usize::spec_deserialize(input@) == Decoding::Complete(len, a));
        assert(r1@ == input@.skip(a as int));
        let mut rest = r1;
        let mut cats: Vec<Category> = Vec::new();
        let mut next: usize = 0;
        let mut k: usize = 0;
        assert(cats_view(cats@) =~= Seq::<CategoryView>::empty());
        assert(after_prefix(Seq::<CategoryView>::empty(), 0, whole) == whole);
        while k < len
            invariant
                k <= len,
                rest@.len() <= r1@.len(),
                rest@ == r1@.skip(r1@.len() - rest@.len()),
                cats@.len() == k,
                pc == products@.len(),
                forall|i: int| 0 <= i < cats@.len() ==> #[trigger] cats@[i].wf(),
                a == input@.len() - r1@.len(),
                parse_category_index(input@, pc) == match whole {
                    Decoding::Complete(cs, b) => match spec_deserialize_positions(input@.skip((a + b) as int)) {
                        Decoding::Complete(ids, c) => if ids.len() == option_count(cs) {
                            Decoding::Complete(numbered_categories(cs, ids), a + b + c)
                        } else {
                            Decoding::Rejected
                        },
                        Decoding::Rejected => Decoding::Rejected,
                        Decoding::Aborts => Decoding::Aborts,
                    },
                    Decoding::Rejected => Decoding::Rejected,
                    Decoding::Aborts => Decoding::Aborts,
                },
                whole == after_prefix(
                    cats_view(cats@),
                    (r1@.len() - rest@.len()) as nat,
                    parse_categories(rest@, (len - k) as nat, pc, next as nat),
                ),
            decreases len - k,
        {
            let ghost before = rest@;
            let ghost next_before = next as nat;
            let ghost consumed = (r1@.len() - rest@.len()) as nat;
            proof {
                lemma_parse_categories_step(before, (len - k) as nat, pc, next_before);
            }
            let (after, cat) = Category::deserialize(rest, products, &mut next)?;
            let ghost cv = cat.view();
            let ghost prev = cats_view(cats@);
            let ghost m = (before.len() - after@.len()) as nat;
            proof {
                assert(parse_categories(before, (len - k) as nat, pc, next_before) == after_prefix(
                    seq![cv],
                    m,
                    parse_categories(after@, (len - k - 1) as nat, pc, next as nat),
                ));
                lemma_after_prefix_twice(prev, consumed, seq![cv], m, parse_categories(after@, (len - k - 1) as nat, pc, next as nat));
            }
            cats.push(cat);
            rest = after;
            proof {
                assert(cats_view(cats@) =~= prev.push(cv));
                assert(prev + seq![cv] =~= cats_view(cats@));
                assert(rest@ =~= r1@.skip(r1@.len() - rest@.len()));
            }
            k = k + 1;
        }
        let ghost b = (r1@.len() - rest@.len()) as nat;
        proof {
            assert(cats_view(cats@) + Seq::<CategoryView>::empty() =~= cats_view(cats@));
            assert(rest@ =~= input@.skip((input@.len() - r1@.len() + b) as int));
        }
        let (r2, ids) = Vec::<usize>::deserialize(rest)?;
        assert(ids.deep_view() =~= ids@);
        if !number_options(&mut cats, &ids) {
            return None;
        }
        proof {
            assert(r2@ =~= input@.skip((input@.len() - r2@.len()) as int));
        }
        Some((r2, CategoryIndex(cats)))
    }
}

/// The options as the category reader gives them: numbered on from `next`.
pub open spec fn renumbered_options(opts: Seq<OptionView>, next: nat) -> Seq<OptionView> {
    Seq::new(
        opts.len(),
        |i: int| OptionView {
            name: opts[i].name,
            serialization_id: (next + i) as usize,
            content: opts[i].content,
        },
    )
}

/// The categories as the category reader gives them: options numbered on
/// from `next` over all categories.
pub open spec fn renumbered_categories(cats: Seq<CategoryView>, next: nat) -> Seq<CategoryView>
    decreases cats.len(),
{
    if cats.len() == 0 {
        Seq::empty()
    } else {
        seq![CategoryView { options: renumbered_options(cats[0].options, next), ..cats[0] }]
            + renumbered_categories(cats.drop_first(), next + cats[0].options.len())
    }
}

/// The number of options of the categories.
pub open spec fn option_count(cats: Seq<CategoryView>) -> nat
    decreases cats.len(),
{
    if cats.len() == 0 {
        0
    } else {
        cats[0].options.len() + option_count(cats.drop_first())
    }
}

/// An option that reads back: its name does, its products exist and its
/// position list reads back.
pub open spec fn option_round_trips(o: OptionView, product_count: nat) -> bool {
    &&& text_round_trips(o.name)
    &&& positions_round_trip(o.content)
    &&& forall|i: int| 0 <= i < o.content.len() ==> #[trigger] o.content[i] < product_count
}

/// A category that reads back.
pub open spec fn category_round_trips(c: CategoryView, product_count: nat) -> bool {
    &&& text_round_trips(c.name)
    &&& c.options.len() <= usize::MAX
    &&& forall|i: int| 0 <= i < c.options.len() ==> option_round_trips(#[trigger] c.options[i], product_count)
}

proof fn lemma_options_cons(o: OptionView, opts: Seq<OptionView>)
    ensures
        spec_serialize_options(seq![o] + opts) == spec_serialize_option(o) + spec_serialize_options(opts),
    decreases opts.len(),
{
    if opts.len() == 0 {
        assert((seq![o] + opts).drop_last() =~= Seq::<OptionView>::empty());
        assert((seq![o] + opts).last() == o);
        assert(spec_serialize_options(opts) == Seq::<u8>::empty());
        assert(spec_serialize_options(Seq::<OptionView>::empty()) == Seq::<u8>::empty());
        assert(Seq::<u8>::empty() + spec_serialize_option(o) =~= spec_serialize_option(o) + Seq::<u8>::empty());
    } else {
        lemma_options_cons(o, opts.drop_last());
        assert((seq![o] + opts).drop_last() =~= seq![o] + opts.drop_last());
        assert((seq![o] + opts).last() == opts.last());
        let a = spec_serialize_option(o);
        let b = spec_serialize_options(opts.drop_last());
        let c = spec_serialize_option(opts.last());
        assert(spec_serialize_options(opts) == b + c);
        assert((a + b) + c =~= a + (b + c));
    }
}

proof fn lemma_categories_cons(x: CategoryView, cats: Seq<CategoryView>)
    ensures
        spec_serialize_categories(seq![x] + cats) == spec_serialize_category(x) + spec_serialize_categories(cats),
    decreases cats.len(),
{
    if cats.len() == 0 {
        assert((seq![x] + cats).drop_last() =~= Seq::<CategoryView>::empty());
        assert((seq![x] + cats).last() == x);
        assert(spec_serialize_categories(cats) == Seq::<u8>::empty());
        assert(spec_serialize_categories(Seq::<CategoryView>::empty()) == Seq::<u8>::empty());
        assert(Seq::<u8>::empty() + spec_serialize_category(x) =~= spec_serialize_category(x) + Seq::<u8>::empty());
    } else {
        lemma_categories_cons(x, cats.drop_last());
        assert((seq![x] + cats).drop_last() =~= seq![x] + cats.drop_last());
        assert((seq![x] + cats).last() == cats.last());
        let a = spec_serialize_category(x);
        let b = spec_serialize_categories(cats.drop_last());
        let c = spec_serialize_category(cats.last());
        assert(spec_serialize_categories(cats) == b + c);
        assert((a + b) + c =~= a + (b + c));
    }
}

/// Options written one after the other read back numbered on from `next`.
#[verifier::rlimit(40)]
proof fn lemma_options_round_trip(opts: Seq<OptionView>, product_count: nat, next: nat, rest: Seq<u8>)
    requires
        next + opts.len() <= usize::MAX,
        forall|i: int| 0 <= i < opts.len() ==> option_round_trips(#[trigger] opts[i], product_count),
    ensures
        parse_options(spec_serialize_options(opts) + rest, opts.len(), product_count, next) == Decoding::Complete(
            renumbered_options(opts, next),
            spec_serialize_options(opts).len(),
        ),
    decreases opts.len(),
{
    if opts.len() == 0 {
        assert(spec_serialize_options(opts) + rest =~= rest);
        assert(renumbered_options(opts, next) =~= Seq::<OptionView>::empty());
    } else {
        let o = opts[0];
        let tail = opts.drop_first();
        assert(seq![o] + tail =~= opts);
        lemma_options_cons(o, tail);
        let a = spec_serialize_str(o.name);
        let b = spec_serialize_positions(o.content);
        let c = spec_serialize_options(tail);
        let input = spec_serialize_options(opts) + rest;
        assert(input =~= a + (b + (c + rest)));
        assert(option_round_trips(opts[0], product_count));
        <String as RoundTrip>::lemma_round_trip(o.name, b + (c + rest));
        assert(input.skip(a.len() as int) =~= b + (c + rest));
        lemma_positions_round_trip(o.content, c + rest);
        let first = OptionView { name: o.name, serialization_id: next as usize, content: o.content };
        assert(parse_option(input, product_count, next) == Decoding::Complete(first, a.len() + b.len())) by {
            reveal(parse_option);
        }
        assert(input.skip((a.len() + b.len()) as int) =~= c + rest);
        assert forall|i: int| 0 <= i < tail.len() implies option_round_trips(#[trigger] tail[i], product_count) by {
            assert(tail[i] == opts[i + 1]);
        }
        lemma_options_round_trip(tail, product_count, next + 1, rest);
        assert(seq![first] + renumbered_options(tail, next + 1) =~= renumbered_options(opts, next));
    }
}

/// A category written and read back has its options numbered on from
/// `next`.
#[verifier::rlimit(40)]
proof fn lemma_category_round_trip(c: CategoryView, product_count: nat, next: nat, rest: Seq<u8>)
    requires
        next + c.options.len() <= usize::MAX,
        category_round_trips(c, product_count),
    ensures
        parse_category(spec_serialize_category(c) + rest, product_count, next) == Decoding::Complete(
            CategoryView { options: renumbered_options(c.options, next), ..c },
            spec_serialize_category(c).len(),
        ),
{
    let a = bool::spec_serialize(c.exclusive);
    let b = spec_serialize_str(c.name);
    let d = encode_varint(c.options.len());
    let e = spec_serialize_options(c.options);
    let input = spec_serialize_category(c) + rest;
    assert(input =~= a + (b + (d + (e + rest))));
    lemma_bool_round_trip(c.exclusive, b + (d + (e + rest)));
    assert(input.skip(a.len() as int) =~= b + (d + (e + rest)));
    <String as RoundTrip>::lemma_round_trip(c.name, d + (e + rest));
    assert(input.skip((a.len() + b.len()) as int) =~= d + (e + rest));
    lemma_usize_round_trip(c.options.len() as usize, e + rest);
    let h = a.len() + b.len() + d.len();
    assert(parse_category_header(input) == Decoding::Complete((c.exclusive, c.name, c.options.len() as usize), h)) by {
        reveal(parse_category_header);
    }
    assert(input.skip(h as int) =~= e + rest);
    lemma_options_round_trip(c.options, product_count, next, rest);
}

/// Categories written one after the other read back with their options
/// numbered on from `next`.
proof fn lemma_categories_round_trip(cats: Seq<CategoryView>, product_count: nat, next: nat, rest: Seq<u8>)
    requires
        next + option_count(cats) <= usize::MAX,
        forall|i: int| 0 <= i < cats.len() ==> category_round_trips(#[trigger] cats[i], product_count),
    ensures
        parse_categories(spec_serialize_categories(cats) + rest, cats.len(), product_count, next) == Decoding::Complete(
            renumbered_categories(cats, next),
            spec_serialize_categories(cats).len(),
        ),
    decreases cats.len(),
{
    if cats.len() == 0 {
        assert(spec_serialize_categories(cats) + rest =~= rest);
    } else {
        let x = cats[0];
        let tail = cats.drop_first();
        assert(seq![x] + tail =~= cats);
        lemma_categories_cons(x, tail);
        let a = spec_serialize_category(x);
        let b = spec_serialize_categories(tail);
        let input = spec_serialize_categories(cats) + rest;
        assert(input =~= a + (b + rest));
        assert(category_round_trips(cats[0], product_count));
        lemma_category_round_trip(x, product_count, next, b + rest);
        assert(input.skip(a.len() as int) =~= b + rest);
        assert forall|i: int| 0 <= i < tail.len() implies category_round_trips(#[trigger] tail[i], product_count) by {
            assert(tail[i] == cats[i + 1]);
        }
        lemma_categories_round_trip(tail, product_count, next + x.options.len(), rest);
        assert(renumbered_options(x.options, next).len() == x.options.len());
    }
}

/// The number of options depends only on how many each category has.
proof fn lemma_option_count_same(a: Seq<CategoryView>, b: Seq<CategoryView>)
    requires
        a.len() == b.len(),
        forall|i: int| 0 <= i < a.len() ==> #[trigger] a[i].options.len() == b[i].options.len(),
    ensures
        option_count(a) == option_count(b),
    decreases a.len(),
{
    if a.len() > 0 {
        assert forall|i: int| 0 <= i < a.drop_first().len() implies #[trigger] a.drop_first()[i].options.len()
            == b.drop_first()[i].options.len() by {
            assert(a.drop_first()[i] == a[i + 1] && b.drop_first()[i] == b[i + 1]);
        }
        lemma_option_count_same(a.drop_first(), b.drop_first());
        assert(a[0].options.len() == b[0].options.len());
    }
}

/// The options of two runs of categories, counted together.
proof fn lemma_option_count_append(a: Seq<CategoryView>, b: Seq<CategoryView>)
    ensures
        option_count(a + b) == option_count(a) + option_count(b),
    decreases a.len(),
{
    if a.len() == 0 {
        assert(a + b =~= b);
    } else {
        lemma_option_count_append(a.drop_first(), b);
        assert((a + b).drop_first() =~= a.drop_first() + b);
        assert((a + b)[0] == a[0]);
    }
}

/// The options before category `c`, then those of `c` itself.
proof fn lemma_option_count_prefix(cats: Seq<CategoryView>, c: int)
    requires
        0 <= c < cats.len(),
    ensures
        option_count(cats.take(c + 1)) == option_count(cats.take(c)) + cats[c].options.len(),
        option_count(cats.take(c + 1)) <= option_count(cats),
{
    let one = seq![cats[c]];
    assert(one.drop_first() =~= Seq::<CategoryView>::empty());
    assert(option_count(one) == cats[c].options.len() + option_count(one.drop_first()));
    assert(option_count(Seq::<CategoryView>::empty()) == 0);
    assert(cats.take(c + 1) =~= cats.take(c) + one);
    lemma_option_count_append(cats.take(c), one);
    assert(cats =~= cats.take(c + 1) + cats.skip(c + 1));
    lemma_option_count_append(cats.take(c + 1), cats.skip(c + 1));
}

/// Where the numbers of each category's options stand among all of them.
proof fn lemma_option_numbers_index(cats: Seq<CategoryView>)
    ensures
        option_numbers(cats).len() == option_count(cats),
        forall|c: int, o: int|
            #![trigger cats[c].options[o]]
            0 <= c < cats.len() && 0 <= o < cats[c].options.len() ==> option_numbers(cats)[option_count(cats.take(c)) + o]
                == cats[c].options[o].serialization_id,
    decreases cats.len(),
{
    if cats.len() > 0 {
        let tail = cats.drop_first();
        lemma_option_numbers_index(tail);
        let first = cats[0].options.map_values(|x: OptionView| x.serialization_id);
        assert(option_numbers(cats) == first + option_numbers(tail));
        assert forall|c: int, o: int|
            #![trigger cats[c].options[o]]
            0 <= c < cats.len() && 0 <= o < cats[c].options.len() implies option_numbers(cats)[option_count(cats.take(c)) + o]
                == cats[c].options[o].serialization_id by {
            if c == 0 {
                assert(cats.take(0) =~= Seq::<CategoryView>::empty());
                assert(option_count(cats.take(0)) == 0);
                assert(first[o] == cats[0].options[o].serialization_id);
            } else {
                assert(cats.take(c).drop_first() =~= tail.take(c - 1));
                assert(cats.take(c)[0] == cats[0]);
                assert(option_count(cats.take(c)) == cats[0].options.len() + option_count(tail.take(c - 1)));
                assert(tail[c - 1] == cats[c]);
                assert(tail[c - 1].options[o] == cats[c].options[o]);
                lemma_option_count_prefix(tail, c - 1);
            }
        }
    }
}

/// Each category as it reads back: its options numbered on from `next` and
/// the options of the categories before it.
proof fn lemma_renumbered_index(cats: Seq<CategoryView>, next: nat)
    ensures
        renumbered_categories(cats, next).len() == cats.len(),
        forall|c: int|
            0 <= c < cats.len() ==> #[trigger] renumbered_categories(cats, next)[c] == (CategoryView {
                options: renumbered_options(cats[c].options, next + option_count(cats.take(c))),
                ..cats[c]
            }),
    decreases cats.len(),
{
    if cats.len() > 0 {
        let tail = cats.drop_first();
        let k = cats[0].options.len();
        lemma_renumbered_index(tail, next + k);
        let head = seq![CategoryView { options: renumbered_options(cats[0].options, next), ..cats[0] }];
        assert(renumbered_categories(cats, next) == head + renumbered_categories(tail, next + k));
        assert forall|c: int| 0 <= c < cats.len() implies #[trigger] renumbered_categories(cats, next)[c] == (CategoryView {
            options: renumbered_options(cats[c].options, next + option_count(cats.take(c))),
            ..cats[c]
        }) by {
            if c == 0 {
                assert(cats.take(0) =~= Seq::<CategoryView>::empty());
                assert(option_count(cats.take(0)) == 0);
            } else {
                assert(cats.take(c).drop_first() =~= tail.take(c - 1));
                assert(cats.take(c)[0] == cats[0]);
                assert(option_count(cats.take(c)) == k + option_count(tail.take(c - 1)));
                assert(tail[c - 1] == cats[c]);
                assert(renumbered_categories(cats, next)[c] == renumbered_categories(tail, next + k)[c - 1]);
            }
        }
    }
}

/// Numbering the options of categories read back with the numbers written
/// gives the categories written.
proof fn lemma_numbers_restored(cats: Seq<CategoryView>)
    ensures
        numbered_categories(renumbered_categories(cats, 0), option_numbers(cats)) == cats,
        option_count(renumbered_categories(cats, 0)) == option_numbers(cats).len(),
{
    let r = renumbered_categories(cats, 0);
    lemma_renumbered_index(cats, 0);
    lemma_option_numbers_index(cats);
    assert forall|i: int| 0 <= i < r.len() implies #[trigger] r[i].options.len() == cats[i].options.len() by {
        assert(r[i] == renumbered_categories(cats, 0)[i]);
    }
    lemma_option_count_same(r, cats);
    let m = numbered_categories(r, option_numbers(cats));
    assert forall|c: int| 0 <= c < cats.len() implies #[trigger] m[c] == cats[c] by {
        assert(r[c] == renumbered_categories(cats, 0)[c]);
        assert forall|i: int| 0 <= i < r.take(c).len() implies #[trigger] r.take(c)[i].options.len()
            == cats.take(c)[i].options.len() by {
            assert(r.take(c)[i] == r[i] && cats.take(c)[i] == cats[i]);
            assert(r[i] == renumbered_categories(cats, 0)[i]);
        }
        lemma_option_count_same(r.take(c), cats.take(c));
        assert forall|o: int| 0 <= o < cats[c].options.len() implies #[trigger] m[c].options[o] == cats[c].options[o] by {
            assert(cats[c].options[o] == cats[c].options[o]);
        }
        assert(m[c].options =~= cats[c].options);
    }
    assert(m =~= cats);
}

/// A category index written and read back is the same: the options read
/// back numbered in the order written take the numbers written after the
/// categories. Every byte written is read.
pub proof fn lemma_category_index_round_trip(cats: Seq<CategoryView>, product_count: nat, rest: Seq<u8>)
    requires
        option_count(cats) <= usize::MAX,
        cats.len() <= usize::MAX,
        forall|i: int| 0 <= i < cats.len() ==> category_round_trips(#[trigger] cats[i], product_count),
        positions_round_trip(option_numbers(cats)),
    ensures
        parse_category_index(spec_serialize_category_index(cats) + rest, product_count) == Decoding::Complete(
            cats,
            spec_serialize_category_index(cats).len(),
        ),
{
    reveal(parse_category_index);
    let a = encode_varint(cats.len());
    let b = spec_serialize_categories(cats);
    let c = spec_serialize_positions(option_numbers(cats));
    let input = spec_serialize_category_index(cats) + rest;
    assert(input =~= a + (b + (c + rest)));
    lemma_usize_round_trip(cats.len() as usize, b + (c + rest));
    assert(input.skip(a.len() as int) =~= b + (c + rest));
    lemma_categories_round_trip(cats, product_count, 0, c + rest);
    assert(input.skip((a.len() + b.len()) as int) =~= c + rest);
    lemma_positions_round_trip(option_numbers(cats), rest);
    lemma_numbers_restored(cats);
}
} // verus!
