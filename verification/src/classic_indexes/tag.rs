use vstd::prelude::*;

use ahash::AHashSet;

use crate::data::container::ProductContainer;
use crate::data::product::{
    lemma_positions_round_trip, positions_round_trip, spec_deserialize_positions, spec_serialize_positions, Product,
};
use crate::hashing::{
    name_lists, name_lists_insert, name_lists_into_entries, name_lists_new, name_lists_remove,
    position_set, position_set_contains, position_set_insert, position_set_new,
};
use crate::serialize::collections::{serialize_str, spec_serialize_str};
use crate::serialize::primitives::encode_varint;
use crate::serialize::collections::text_round_trips;
use crate::serialize::primitives::{lemma_usize_round_trip};
use crate::serialize::RoundTrip;
use crate::serialize::vectors::{after_prefix, lemma_after_prefix_twice};
use crate::serialize::{Decoding, Deserializable, Serializable};

verus! {

/// A tag, the products that carry it and its number.
pub struct Tag {
    pub name: String,
    products: Vec<usize>,
    products_by_serialization_id: AHashSet<usize>,
    id: usize,
}

/// The model of a tag.
pub struct TagView {
    pub name: Seq<char>,
    pub products: Seq<usize>,
    pub id: usize,
}

/// All tags, each numbered by its position.
pub struct TagIndex(Vec<Tag>);

/// The lookup set of a list of positions.
fn position_set_of(ids: &Vec<usize>) -> (res: AHashSet<usize>)
    ensures
        position_set(res) == ids@.to_set(),
{
    let mut set = position_set_new();
    let mut i: usize = 0;
    while i < ids.len()
        invariant
            i <= ids@.len(),
            position_set(set) == ids@.take(i as int).to_set(),
        decreases ids@.len() - i,
    {
        position_set_insert(&mut set, ids[i]);
        proof {
            ids@.take(i as int).lemma_push_to_set_commute(ids@[i as int]);
            assert(ids@.take(i + 1) =~= ids@.take(i as int).push(ids@[i as int]));
        }
        i = i + 1;
    }
    assert(ids@.take(i as int) =~= ids@);
    set
}

impl Tag {
    pub closed spec fn view(&self) -> TagView {
        TagView { name: self.name@, products: self.products@, id: self.id }
    }

    /// The lookup set holds exactly the listed products.
    pub closed spec fn wf(&self) -> bool {
        position_set(self.products_by_serialization_id) == self.products@.to_set()
    }

    /// A tag with its products and number.
    pub fn new(name: &str, products: Vec<usize>, id: usize) -> (res: Tag)
        ensures
            res.wf(),
            res.view() == (TagView { name: name@, products: products@, id }),
    {
        let products_by_serialization_id = position_set_of(&products);
        Tag { name: name.to_string(), products, products_by_serialization_id, id }
    }

    /// The tag's number.
    pub fn get_id(&self) -> (res: usize)
        ensures
            res == self.view().id,
    {
        self.id
    }

    /// Whether the product carries the tag.
    pub fn contains(&self, product: &Product) -> (res: bool)
        requires
            self.wf(),
        ensures
            res == self.view().products.contains(product.serialization_id),
    {
        position_set_contains(&self.products_by_serialization_id, product.serialization_id)
    }

    /// The products that carry the tag.
    pub fn products(&self) -> (res: &Vec<usize>)
        ensures
            res@ == self.view().products,
    {
        &self.products
    }

    /// Writes the name, then the positions of the products, in order.
    pub fn serialize(&self, output: &mut Vec<u8>)
        ensures
            final(output)@ == old(output)@ + spec_serialize_tag(self.view()),
    {
        serialize_str(self.name.as_str(), output);
        Product::serialize_positions(&self.products, output);
    }
}

/// The written form of a tag: its name, then the positions of its
/// products, in order.
pub open spec fn spec_serialize_tag(t: TagView) -> Seq<u8> {
    spec_serialize_str(t.name) + spec_serialize_positions(t.products)
}

/// The written forms of tags, one after the other.
pub open spec fn spec_serialize_tags(tags: Seq<TagView>) -> Seq<u8>
    decreases tags.len(),
{
    if tags.len() == 0 {
        Seq::empty()
    } else {
        spec_serialize_tags(tags.drop_last()) + spec_serialize_tag(tags.last())
    }
}

/// The models of tags.
pub open spec fn tags_view(s: Seq<Tag>) -> Seq<TagView> {
    s.map_values(|t: Tag| t.view())
}

/// The products of each tag, for products that carry tags `list[i]` and have
/// positions `pids[i]`: a product once for each time it lists the tag.
pub open spec fn tag_lists(list: Seq<Seq<Seq<char>>>, pids: Seq<usize>) -> Map<Seq<char>, Seq<usize>>
    decreases list.len(),
{
    if list.len() == 0 {
        Map::empty()
    } else {
        add_tags(tag_lists(list.drop_last(), pids), list.last(), pids[list.len() - 1])
    }
}

/// Product `pid` added to each of `tags`, in order.
pub open spec fn add_tags(m: Map<Seq<char>, Seq<usize>>, tags: Seq<Seq<char>>, pid: usize) -> Map<
    Seq<char>,
    Seq<usize>,
>
    decreases tags.len(),
{
    if tags.len() == 0 {
        m
    } else {
        add_tag(add_tags(m, tags.drop_last(), pid), tags.last(), pid)
    }
}

/// Product `pid` added to tag `t`.
pub open spec fn add_tag(m: Map<Seq<char>, Seq<usize>>, t: Seq<char>, pid: usize) -> Map<Seq<char>, Seq<usize>> {
    m.insert(
        t,
        if m.contains_key(t) {
            m[t].push(pid)
        } else {
            seq![pid]
        },
    )
}

/// The tags list the entries of `m`, each once, numbered by position.
pub open spec fn lists_tags(tags: Seq<TagView>, m: Map<Seq<char>, Seq<usize>>) -> bool {
    &&& forall|i: int| 0 <= i < tags.len() ==> #[trigger] tags[i].id == i
    &&& forall|i: int|
        0 <= i < tags.len() ==> m.contains_key(#[trigger] tags[i].name) && m[tags[i].name] == tags[i].products
    &&& forall|k: Seq<char>| #[trigger] m.contains_key(k) ==> exists|i: int| 0 <= i < tags.len() && tags[i].name == k
    &&& forall|i: int, j: int| 0 <= i < j < tags.len() ==> #[trigger] tags[i].name != #[trigger] tags[j].name
}

/// What reading one tag gives, numbered `id`, when there are
/// `product_count` products: every product it lists must exist.
#[verifier::opaque]
pub open spec fn parse_tag(input: Seq<u8>, product_count: nat, id: nat) -> Decoding<TagView> {
    match String::spec_deserialize(input) {
        Decoding::Complete(name, a) => match spec_deserialize_positions(input.skip(a as int)) {
            Decoding::Complete(ids, b) => if forall|k: int| 0 <= k < ids.len() ==> #[trigger] ids[k] < product_count {
                Decoding::Complete(TagView { name, products: ids, id: id as usize }, a + b)
            } else {
                Decoding::Rejected
            },
            Decoding::Rejected => Decoding::Rejected,
            Decoding::Aborts => Decoding::Aborts,
        },
        Decoding::Rejected => Decoding::Rejected,
        Decoding::Aborts => Decoding::Aborts,
    }
}

/// What reading `count` tags gives, numbered on from `id`.
pub open spec fn parse_tags(input: Seq<u8>, count: nat, product_count: nat, id: nat) -> Decoding<Seq<TagView>>
    decreases count,
{
    if count == 0 {
        Decoding::Complete(Seq::empty(), 0)
    } else {
        match parse_tag(input, product_count, id) {
            Decoding::Complete(t, a) => after_prefix(
                seq![t],
                a,
                parse_tags(input.skip(a as int), (count - 1) as nat, product_count, id + 1),
            ),
            Decoding::Rejected => Decoding::Rejected,
            Decoding::Aborts => Decoding::Aborts,
        }
    }
}

/// What reading a tag index gives: a count, then the tags numbered from 0.
pub open spec fn parse_tag_index(input: Seq<u8>, product_count: nat) -> Decoding<Seq<TagView>> {
    match usize::spec_deserialize(input) {
        Decoding::Complete(len, a) => match parse_tags(input.skip(a as int), len as nat, product_count, 0) {
            Decoding::Complete(tags, b) => Decoding::Complete(tags, a + b),
            Decoding::Rejected => Decoding::Rejected,
            Decoding::Aborts => Decoding::Aborts,
        },
        Decoding::Rejected => Decoding::Rejected,
        Decoding::Aborts => Decoding::Aborts,
    }
}

proof fn lemma_parse_tags_step(input: Seq<u8>, count: nat, product_count: nat, id: nat)
    requires
        count > 0,
    ensures
        parse_tags(input, count, product_count, id) == match parse_tag(input, product_count, id) {
            Decoding::Complete(t, a) => after_prefix(
                seq![t],
                a,
                parse_tags(input.skip(a as int), (count - 1) as nat, product_count, id + 1),
            ),
            Decoding::Rejected => Decoding::Rejected,
            Decoding::Aborts => Decoding::Aborts,
        },
{
}

impl Tag {
    /// Reads one tag, numbered `id`: its name and its products, which must
    /// all exist.
    fn read<'i>(input: &'i [u8], existing_products: &[Product], id: usize) -> (res: Option<(&'i [u8], Tag)>)
        ensures
            match parse_tag(input@, existing_products@.len(), id as nat) {
                Decoding::Complete(t, n) => res matches Some((rest, tag)) && n <= input@.len() && rest@
                    == input@.skip(n as int) && tag.view() == t && tag.wf(),
                _ => res is None,
            },
    {
        reveal(parse_tag);
        let (after_name, name) = String::deserialize(input)?;
        let ghost a = (input@.len() - after_name@.len()) as nat;
        assert(after_name@ == input@.skip(a as int));
        let (after_ids, ids) = Product::deserialize_positions(after_name, existing_products.len())?;
        let ghost b = (after_name@.len() - after_ids@.len()) as nat;
        assert(spec_deserialize_positions(after_name@) == Decoding::Complete(ids@, b));
        assert(after_ids@ =~= input@.skip((a + b) as int));
        let products_by_serialization_id = position_set_of(&ids);
        Some((after_ids, Tag { name, products: ids, products_by_serialization_id, id }))
    }
}

impl TagIndex {
    pub closed spec fn view(&self) -> Seq<TagView> {
        tags_view(self.0@)
    }

    pub closed spec fn wf(&self) -> bool {
        forall|i: int| 0 <= i < self.0@.len() ==> #[trigger] self.0@[i].wf()
    }

    /// The tag with number `id`, if there is one.
    pub fn get(&self, id: usize) -> (res: Option<&Tag>)
        ensures
            id < self.view().len() ==> (res matches Some(t) && t.view() == self.view()[id as int]),
            id >= self.view().len() ==> res is None,
    {
        if id < self.0.len() {
            Some(&self.0[id])
        } else {
            None
        }
    }

    /// The number of tags.
    pub fn len(&self) -> (res: usize)
        ensures
            res == self.view().len(),
    {
        self.0.len()
    }

    /// Whether tag `id` lists the product.
    pub fn tag_contains(&self, id: usize, product: &Product) -> (res: bool)
        requires
            self.wf(),
            id < self.view().len(),
        ensures
            res == self.view()[id as int].products.contains(product.serialization_id),
    {
        let t = &self.0[id];
        assert(t.wf());
        t.contains(product)
    }

    /// All tags, in number order.
    pub fn iter(&self) -> (res: &Vec<Tag>)
        ensures
            tags_view(res@) == self.view(),
    {
        &self.0
    }

    /// Writes the number of tags, then each tag.
    pub fn serialize(&self, output: &mut Vec<u8>)
        ensures
            final(output)@ == old(output)@ + encode_varint(self.view().len()) + spec_serialize_tags(self.view()),
    {
        let ghost v = self.view();
        self.0.len().serialize(output);
        let ghost head = output@;
        let mut i: usize = 0;
        assert(v.take(0) =~= Seq::<TagView>::empty());
        while i < self.0.len()
            invariant
                v == self.view(),
                i <= self.0@.len(),
                output@ == head + spec_serialize_tags(v.take(i as int)),
            decreases self.0@.len() - i,
        {
            self.0[i].serialize(output);
            proof {
                assert(v.take(i + 1).drop_last() =~= v.take(i as int));
                assert(v[i as int] == self.0@[i as int].view());
            }
            i = i + 1;
        }
        assert(v.take(i as int) =~= v);
    }

    /// Reads a count, then that many tags, numbered from 0; every product a
    /// tag lists must exist.
    pub fn deserialize<'i>(input: &'i [u8], existing_products: &[Product]) -> (res: Option<(&'i [u8], TagIndex)>)
        ensures
            match parse_tag_index(input@, existing_products@.len()) {
                Decoding::Complete(tags, n) => res matches Some((rest, index)) && n <= input@.len() && rest@
                    == input@.skip(n as int) && index.view() == tags && index.wf(),
                _ => res is None,
            },
    {
        let ghost pc = existing_products@.len();
        let (r1, tag_len) = usize::deserialize(input)?;
        let ghost whole = parse_tags(r1@, tag_len as nat, pc, 0);
        let mut rest = r1;
        let mut tags: Vec<Tag> = Vec::new();
        let mut k: usize = 0;
        assert(tags_view(tags@) =~= Seq::<TagView>::empty());
        assert(after_prefix(Seq::<TagView>::empty(), 0, whole) == whole);
        while k < tag_len
            invariant
                k <= tag_len,
                pc == existing_products@.len(),
                rest@.len() <= r1@.len(),
                rest@ == r1@.skip(r1@.len() - rest@.len()),
                tags@.len() == k,
                forall|i: int| 0 <= i < tags@.len() ==> #[trigger] tags@[i].wf(),
                parse_tag_index(input@, pc) == match whole {
                    Decoding::Complete(ts, b) => Decoding::Complete(ts, ((input@.len() - r1@.len()) + b) as nat),
                    Decoding::Rejected => Decoding::Rejected,
                    Decoding::Aborts => Decoding::Aborts,
                },
                whole == after_prefix(
                    tags_view(tags@),
                    (r1@.len() - rest@.len()) as nat,
                    parse_tags(rest@, (tag_len - k) as nat, pc, k as nat),
                ),
            decreases tag_len - k,
        {
            let ghost before = rest@;
            let ghost consumed = (r1@.len() - rest@.len()) as nat;
            proof {
                lemma_parse_tags_step(before, (tag_len - k) as nat, pc, k as nat);
            }
            let (after, tag) = Tag::read(rest, existing_products, k)?;
            let ghost tv = tag.view();
            let ghost prev = tags_view(tags@);
            let ghost m = (before.len() - after@.len()) as nat;
            proof {
                lemma_after_prefix_twice(prev, consumed, seq![tv], m, parse_tags(after@, (tag_len - k - 1) as nat, pc, (k + 1) as nat));
            }
            tags.push(tag);
            rest = after;
            proof {
                assert(tags_view(tags@) =~= prev.push(tv));
                assert(prev + seq![tv] =~= tags_view(tags@));
                assert(rest@ =~= r1@.skip(r1@.len() - rest@.len()));
            }
            k = k + 1;
        }
        proof {
            assert(tags_view(tags@) + Seq::<TagView>::empty() =~= tags_view(tags@));
            assert(rest@ =~= input@.skip((input@.len() - rest@.len()) as int));
        }
        Some((rest, TagIndex(tags)))
    }
}

/// The tags of the products as names.
pub open spec fn tag_names(l: Seq<Vec<String>>) -> Seq<Seq<Seq<char>>> {
    l.map_values(|v: Vec<String>| v.deep_view())
}

impl TagIndex {
    /// Builds the tags from each product's tag names: one tag per name with
    /// the products that carry it, in the order they came (a product once
    /// for each time it lists the name); the tags come in the order of the
    /// map that collects them and are numbered by position.
    pub fn index(tags_for_product: Vec<Vec<String>>, container: &ProductContainer) -> (res: TagIndex)
        requires
            tags_for_product@.len() <= container.products@.len(),
        ensures
            res.wf(),
            lists_tags(
                res.view(),
                tag_lists(
                    tag_names(tags_for_product@),
                    container.products@.map_values(|p: Product| p.serialization_id),
                ),
            ),
    {
        let ghost list = tag_names(tags_for_product@);
        let ghost pids = container.products@.map_values(|p: Product| p.serialization_id);
        let mut products_for_tag = name_lists_new();
        let mut id: usize = 0;
        assert(name_lists(products_for_tag) =~= tag_lists(list.take(0), pids));
        while id < tags_for_product.len()
            invariant
                list == tag_names(tags_for_product@),
                pids == container.products@.map_values(|p: Product| p.serialization_id),
                tags_for_product@.len() <= container.products@.len(),
                id <= tags_for_product@.len(),
                name_lists(products_for_tag) == tag_lists(list.take(id as int), pids),
            decreases tags_for_product@.len() - id,
        {
            let product = &container.products[id];
            let tags = &tags_for_product[id];
            let ghost base = name_lists(products_for_tag);
            let ghost names = tags.deep_view();
            let mut j: usize = 0;
            assert(names.take(0) =~= Seq::<Seq<char>>::empty());
            while j < tags.len()
                invariant
                    names == tags.deep_view(),
                    j <= tags@.len(),
                    name_lists(products_for_tag) == add_tags(base, names.take(j as int), product.serialization_id),
                decreases tags@.len() - j,
            {
                let tag = tags[j].as_str();
                let ghost before = name_lists(products_for_tag);
                let list_now = match name_lists_remove(&mut products_for_tag, tag) {
                    Some(mut v) => {
                        v.push(product.serialization_id);
                        v
                    },
                    None => {
                        let mut v: Vec<usize> = Vec::new();
                        v.push(product.serialization_id);
                        v
                    },
                };
                name_lists_insert(&mut products_for_tag, tags[j].clone(), list_now);
                proof {
                    assert(names.take(j + 1).drop_last() =~= names.take(j as int));
                    assert(names[j as int] == tag@);
                    assert(name_lists(products_for_tag) =~= add_tag(before, tag@, product.serialization_id));
                }
                j = j + 1;
            }
            proof {
                assert(names.take(j as int) =~= names);
                assert(list.take(id + 1).drop_last() =~= list.take(id as int));
                assert(list[id as int] == names);
                assert(pids[id as int] == product.serialization_id);
            }
            id = id + 1;
        }
        assert(list.take(id as int) =~= list);
        let ghost m = name_lists(products_for_tag);
        let entries = name_lists_into_entries(products_for_tag);
        let mut tags: Vec<Tag> = Vec::new();
        let mut entries = entries;
        let n = entries.len();
        let ghost all = entries@;
        let mut k: usize = 0;
        while entries.len() > 0
            invariant
                all.len() == n,
                k + entries@.len() == n,
                entries@ == all.skip(k as int),
                tags@.len() == k,
                forall|i: int| 0 <= i < k ==> #[trigger] tags@[i].wf(),
                forall|i: int|
                    0 <= i < k ==> #[trigger] tags@[i].view() == (TagView { name: all[i].0@, products: all[i].1@, id: i as usize }),
            decreases entries@.len(),
        {
            let (name, products) = entries.remove(0);
            let tag = Tag::new(name.as_str(), products, k);
            tags.push(tag);
            proof {
                assert(entries@ =~= all.skip(k + 1));
            }
            k = k + 1;
        }
        proof {
            let tv = tags_view(tags@);
            assert forall|i: int| 0 <= i < tv.len() implies #[trigger] tv[i].id == i by {
                assert(tv[i] == tags@[i].view());
            }
            assert forall|i: int| 0 <= i < tv.len() implies m.contains_key(#[trigger] tv[i].name)
                && m[tv[i].name] == tv[i].products by {
                assert(tv[i] == tags@[i].view());
            }
            assert forall|key: Seq<char>| #[trigger] m.contains_key(key) implies exists|i: int|
                0 <= i < tv.len() && tv[i].name == key by {
                let i = choose|i: int| 0 <= i < all.len() && all[i].0@ == key;
                assert(tv[i] == tags@[i].view());
            }
            assert forall|i: int, j: int| 0 <= i < j < tv.len() implies #[trigger] tv[i].name != #[trigger] tv[j].name by {
                assert(tv[i] == tags@[i].view());
                assert(tv[j] == tags@[j].view());
            }
        }
        TagIndex(tags)
    }
}

/// A tag that reads back in place `id`: it has that number, its name reads
/// back, its products exist and its position list reads back.
pub open spec fn tag_round_trips(t: TagView, product_count: nat, id: nat) -> bool {
    &&& t.id == id
    &&& text_round_trips(t.name)
    &&& positions_round_trip(t.products)
    &&& forall|i: int| 0 <= i < t.products.len() ==> #[trigger] t.products[i] < product_count
}

proof fn lemma_tags_cons(t: TagView, tags: Seq<TagView>)
    ensures
        spec_serialize_tags(seq![t] + tags) == spec_serialize_tag(t) + spec_serialize_tags(tags),
    decreases tags.len(),
{
    if tags.len() == 0 {
        assert((seq![t] + tags).drop_last() =~= Seq::<TagView>::empty());
        assert((seq![t] + tags).last() == t);
        assert(spec_serialize_tags(tags) == Seq::<u8>::empty());
        assert(spec_serialize_tags(Seq::<TagView>::empty()) == Seq::<u8>::empty());
        assert(Seq::<u8>::empty() + spec_serialize_tag(t) =~= spec_serialize_tag(t) + Seq::<u8>::empty());
    } else {
        lemma_tags_cons(t, tags.drop_last());
        assert((seq![t] + tags).drop_last() =~= seq![t] + tags.drop_last());
        assert((seq![t] + tags).last() == tags.last());
        let a = spec_serialize_tag(t);
        let b = spec_serialize_tags(tags.drop_last());
        let c = spec_serialize_tag(tags.last());
        assert(spec_serialize_tags(tags) == b + c);
        assert((a + b) + c =~= a + (b + c));
    }
}

/// Tags written one after the other, numbered on from `id`, read back
/// unchanged.
#[verifier::rlimit(40)]
proof fn lemma_tags_round_trip(tags: Seq<TagView>, product_count: nat, id: nat, rest: Seq<u8>)
    requires
        id + tags.len() <= usize::MAX + 1,
        forall|i: int| 0 <= i < tags.len() ==> tag_round_trips(#[trigger] tags[i], product_count, (id + i) as nat),
    ensures
        parse_tags(spec_serialize_tags(tags) + rest, tags.len(), product_count, id) == Decoding::Complete(
            tags,
            spec_serialize_tags(tags).len(),
        ),
    decreases tags.len(),
{
    if tags.len() == 0 {
        assert(spec_serialize_tags(tags) + rest =~= rest);
        assert(tags =~= Seq::<TagView>::empty());
    } else {
        let t = tags[0];
        let tail = tags.drop_first();
        assert(seq![t] + tail =~= tags);
        lemma_tags_cons(t, tail);
        let a = spec_serialize_str(t.name);
        let b = spec_serialize_positions(t.products);
        let c = spec_serialize_tags(tail);
        let input = spec_serialize_tags(tags) + rest;
        assert(input =~= a + (b + (c + rest)));
        assert(tag_round_trips(tags[0], product_count, (id + 0) as nat));
        <String as RoundTrip>::lemma_round_trip(t.name, b + (c + rest));
        assert(input.skip(a.len() as int) =~= b + (c + rest));
        lemma_positions_round_trip(t.products, c + rest);
        assert(parse_tag(input, product_count, id) == Decoding::Complete(t, a.len() + b.len())) by {
            reveal(parse_tag);
        }
        assert(input.skip((a.len() + b.len()) as int) =~= c + rest);
        assert forall|i: int| 0 <= i < tail.len() implies tag_round_trips(#[trigger] tail[i], product_count, ((id + 1) + i) as nat) by {
            assert(tail[i] == tags[i + 1]);
        }
        lemma_tags_round_trip(tail, product_count, (id + 1) as nat, rest);
    }
}

/// A tag index written and read back is the same, and every byte written is
/// read.
pub proof fn lemma_tag_index_round_trip(tags: Seq<TagView>, product_count: nat, rest: Seq<u8>)
    requires
        tags.len() <= usize::MAX,
        forall|i: int| 0 <= i < tags.len() ==> tag_round_trips(#[trigger] tags[i], product_count, i as nat),
    ensures
        parse_tag_index(encode_varint(tags.len()) + spec_serialize_tags(tags) + rest, product_count)
            == Decoding::Complete(tags, (encode_varint(tags.len()) + spec_serialize_tags(tags)).len()),
{
    let a = encode_varint(tags.len());
    let b = spec_serialize_tags(tags);
    let input = a + b + rest;
    assert(input =~= a + (b + rest));
    lemma_usize_round_trip(tags.len() as usize, b + rest);
    assert(input.skip(a.len() as int) =~= b + rest);
    assert forall|i: int| 0 <= i < tags.len() implies tag_round_trips(#[trigger] tags[i], product_count, (0 + i) as nat) by {
    }
    lemma_tags_round_trip(tags, product_count, 0, rest);
}

} // verus!
