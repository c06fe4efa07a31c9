use vstd::prelude::*;

use ahash::AHashMap;

use crate::data::container::ProductContainer;
use crate::data::product::Product;
use crate::hashing::{name_lists, name_lists_entries, name_lists_get, name_lists_insert, name_lists_new};
use crate::serialize::traits::{reads_as, seq_result};
use crate::serialize::collections::{serialize_str, text_round_trips};
use crate::serialize::primitives::{encode_varint};
use crate::serialize::vectors::{
    all_round_trip, lemma_pairs_to_map_contains, lemma_serialize_items_push, lists_map, pairs_to_map,
    serialize_items,
};
use crate::serialize::{Decoding, Deserializable, RoundTrip, Serializable};
use crate::sorting::{lemma_sort_positions, precedes, sort_positions, sort_positions_exec, sorted_by};

verus! {

/// Named orderings of the products: for each product position, its place in
/// the ordering.
pub struct OrderIndex {
    orders: AHashMap<String, Vec<usize>>,
}

/// The places that an ordering `sorted` (product indexes, first to last)
/// gives the products: the product at index `sorted[k]` gets place `k`,
/// stored at its position `sids[sorted[k]]`, in a list of `n` places.
pub open spec fn ranks(sorted: Seq<usize>, sids: Seq<usize>, n: nat, k: int) -> Seq<usize>
    decreases k,
{
    if k <= 0 {
        Seq::new(n, |i: int| 0usize)
    } else {
        ranks(sorted, sids, n, k - 1).update(sids[sorted[k - 1] as int] as int, (k - 1) as usize)
    }
}

/// The indexes `0..n`.
pub open spec fn indexes(n: nat) -> Seq<usize> {
    Seq::new(n, |i: int| i as usize)
}

/// The places of the products when ordered by `keys` (one per product),
/// ties in product order.
pub open spec fn order_of(products: Seq<Product>, keys: Seq<Seq<u32>>, descending: bool) -> Seq<usize> {
    let sorted = sort_positions(indexes(products.len()), keys, descending);
    ranks(sorted, products.map_values(|p: Product| p.serialization_id), products.len(), products.len() as int)
}

/// A named ordering, as the index writes its entries.
pub struct OrderEntry {
    pub name: String,
    pub order: Vec<usize>,
}

impl DeepView for OrderEntry {
    type V = (Seq<char>, Seq<usize>);

    open spec fn deep_view(&self) -> (Seq<char>, Seq<usize>) {
        (self.name@, self.order@)
    }
}

impl Serializable for OrderEntry {
    /// The name, then the list of places.
    open spec fn spec_serialize(v: (Seq<char>, Seq<usize>)) -> Seq<u8> {
        String::spec_serialize(v.0) + Vec::<usize>::spec_serialize(v.1)
    }

    fn serialize(&self, output: &mut Vec<u8>) {
        self.name.serialize(output);
        self.order.serialize(output);
        assert(self.order.deep_view() =~= self.order@);
    }
}

impl Deserializable for OrderEntry {
    open spec fn spec_deserialize(input: Seq<u8>) -> Decoding<(Seq<char>, Seq<usize>)> {
        match String::spec_deserialize(input) {
            Decoding::Complete(k, n) => match Vec::<usize>::spec_deserialize(input.skip(n as int)) {
                Decoding::Complete(v, m) => Decoding::Complete((k, v), n + m),
                Decoding::Rejected => Decoding::Rejected,
                Decoding::Aborts => Decoding::Aborts,
            },
            Decoding::Rejected => Decoding::Rejected,
            Decoding::Aborts => Decoding::Aborts,
        }
    }

    fn deserialize(input: &[u8]) -> (res: Option<(&[u8], OrderEntry)>) {
        let (rest, name) = String::deserialize(input)?;
        let ghost n = (input@.len() - rest@.len()) as int;
        let (after, order) = Vec::<usize>::deserialize(rest)?;
        assert(order.deep_view() =~= order@);
        assert(after@ =~= input@.skip(n + (rest@.len() - after@.len())));
        Some((after, OrderEntry { name, order }))
    }
}

/// The orderings whose written form reads back unchanged.
pub open spec fn order_round_trips(v: Seq<usize>) -> bool {
    &&& v.len() <= usize::MAX
}

impl RoundTrip for OrderEntry {
    open spec fn round_trips(v: (Seq<char>, Seq<usize>)) -> bool {
        text_round_trips(v.0) && order_round_trips(v.1)
    }

    proof fn lemma_round_trip(v: (Seq<char>, Seq<usize>), rest: Seq<u8>) {
        let a = String::spec_serialize(v.0);
        let b = Vec::<usize>::spec_serialize(v.1);
        assert(a + b + rest == a + (b + rest));
        <String as RoundTrip>::lemma_round_trip(v.0, b + rest);
        assert(all_round_trip::<usize>(v.1));
        <Vec<usize> as RoundTrip>::lemma_round_trip(v.1, rest);
        assert((a + (b + rest)).skip(a.len() as int) == b + rest);
    }
}

/// The written form of the orderings, listed in the order `pairs`.
pub open spec fn spec_serialize_order_listing(pairs: Seq<(Seq<char>, Seq<usize>)>) -> Seq<u8> {
    Vec::<OrderEntry>::spec_serialize(pairs)
}

/// What reading the orderings gives: a list of entries, inserted in order.
pub open spec fn spec_deserialize_orders(input: Seq<u8>) -> Decoding<Map<Seq<char>, Seq<usize>>> {
    match Vec::<OrderEntry>::spec_deserialize(input) {
        Decoding::Complete(pairs, n) => Decoding::Complete(pairs_to_map(pairs), n),
        Decoding::Rejected => Decoding::Rejected,
        Decoding::Aborts => Decoding::Aborts,
    }
}

impl OrderIndex {
    /// The orderings by name.
    pub closed spec fn orders(&self) -> Map<Seq<char>, Seq<usize>> {
        name_lists(self.orders)
    }

    /// No orderings.
    pub fn new() -> (res: OrderIndex)
        ensures
            res.orders().is_empty(),
    {
        OrderIndex { orders: name_lists_new() }
    }

    /// Adds ordering `key`: the products sorted by `keys` (one per product,
    /// in product order), ties in product order, largest first when
    /// `descending`; each product's place is stored at its position.
    pub fn add_custom_cmp(&mut self, products: &ProductContainer, keys: &Vec<Vec<u32>>, descending: bool, key: String)
        requires
            keys@.len() == products.products@.len(),
            forall|i: int|
                0 <= i < products.products@.len() ==> #[trigger] products.products@[i].serialization_id
                    < products.products@.len(),
        ensures
            final(self).orders() == old(self).orders().insert(
                key@,
                order_of(products.products@, keys.deep_view(), descending),
            ),
    {
        self.insert_ordering(products, keys, descending, key);
    }

    /// Sorts, ranks and stores ordering `key`.
    fn insert_ordering(&mut self, products: &ProductContainer, keys: &Vec<Vec<u32>>, descending: bool, key: String)
        requires
            keys@.len() == products.products@.len(),
            forall|i: int|
                0 <= i < products.products@.len() ==> #[trigger] products.products@[i].serialization_id
                    < products.products@.len(),
        ensures
            final(self).orders() == old(self).orders().insert(
                key@,
                order_of(products.products@, keys.deep_view(), descending),
            ),
    {
        let n = products.products.len();
        let mut all: Vec<usize> = Vec::new();
        let mut i: usize = 0;
        while i < n
            invariant
                i <= n,
                all@ == indexes(i as nat),
            decreases n - i,
        {
            all.push(i);
            i = i + 1;
            assert(all@ =~= indexes(i as nat));
        }
        let sorted = sort_positions_exec(&all, keys, descending);
        let ghost sids = products.products@.map_values(|p: Product| p.serialization_id);
        proof {
            lemma_sorted_in_range(all@, keys.deep_view(), descending, n as nat);
        }
        let mut order: Vec<usize> = Vec::new();
        let mut k: usize = 0;
        while k < n
            invariant
                k <= n,
                order@ == Seq::new(k as nat, |j: int| 0usize),
            decreases n - k,
        {
            order.push(0);
            k = k + 1;
            assert(order@ =~= Seq::new(k as nat, |j: int| 0usize));
        }
        let mut position: usize = 0;
        while position < sorted.len()
            invariant
                n == products.products@.len(),
                sids == products.products@.map_values(|p: Product| p.serialization_id),
                forall|j: int| 0 <= j < n ==> #[trigger] products.products@[j].serialization_id < n,
                forall|j: int| 0 <= j < sorted@.len() ==> #[trigger] sorted@[j] < n,
                position <= sorted@.len(),
                order@ == ranks(sorted@, sids, n as nat, position as int),
                order@.len() == n,
            decreases sorted@.len() - position,
        {
            let index = sorted[position];
            let serialization_id = products.products[index].serialization_id;
            order.set(serialization_id, position);
            position = position + 1;
        }
        proof {
            assert(all@ == indexes(n as nat));
            lemma_sort_len(all@, keys.deep_view(), descending);
        }
        name_lists_insert(&mut self.orders, key, order);
    }

    /// Adds ordering `key`: the products sorted by `keys`, smallest first,
    /// ties in product order.
    pub fn add(&mut self, products: &ProductContainer, keys: &Vec<Vec<u32>>, key: String)
        requires
            keys@.len() == products.products@.len(),
            forall|i: int|
                0 <= i < products.products@.len() ==> #[trigger] products.products@[i].serialization_id
                    < products.products@.len(),
        ensures
            final(self).orders() == old(self).orders().insert(
                key@,
                order_of(products.products@, keys.deep_view(), false),
            ),
    {
        self.add_custom_cmp(products, keys, false, key);
    }

    /// The names of the orderings, each once, in the map's own order.
    pub fn options(&self) -> (res: Vec<&String>)
        ensures
            forall|k: Seq<char>| #[trigger] self.orders().contains_key(k) <==> exists|i: int|
                0 <= i < res@.len() && res@[i]@ == k,
            forall|i: int, j: int| 0 <= i < j < res@.len() ==> #[trigger] res@[i]@ != #[trigger] res@[j]@,
    {
        let entries = name_lists_entries(&self.orders);
        let mut out: Vec<&String> = Vec::new();
        let mut i: usize = 0;
        while i < entries.len()
            invariant
                i <= entries@.len(),
                out@.len() == i,
                forall|j: int| 0 <= j < i ==> #[trigger] out@[j]@ == entries@[j].0@,
            decreases entries@.len() - i,
        {
            out.push(entries[i].0);
            i = i + 1;
        }
        proof {
            assert forall|k: Seq<char>| #[trigger] self.orders().contains_key(k) <==> exists|j: int|
                0 <= j < out@.len() && out@[j]@ == k by {
                if self.orders().contains_key(k) {
                    let j = choose|j: int| 0 <= j < entries@.len() && entries@[j].0@ == k;
                    assert(out@[j]@ == k);
                }
                if exists|j: int| 0 <= j < out@.len() && out@[j]@ == k {
                    let j = choose|j: int| 0 <= j < out@.len() && out@[j]@ == k;
                    assert(name_lists(self.orders).contains_key(entries@[j].0@));
                }
            }
            assert forall|a: int, b: int| 0 <= a < b < out@.len() implies #[trigger] out@[a]@ != #[trigger] out@[b]@ by {
                assert(entries@[a].0@ != entries@[b].0@);
            }
        }
        out
    }

    /// The places of ordering `key`, if there is one.
    pub fn get_orders(&self, key: &str) -> (res: Option<&Vec<usize>>)
        ensures
            res is Some <==> self.orders().contains_key(key@),
            res matches Some(v) ==> v@ == self.orders()[key@],
    {
        name_lists_get(&self.orders, key)
    }
}

impl OrderIndex {
    /// Writes the orderings as a list of (name, places) entries in the map's
    /// own order.
    pub fn serialize(&self, output: &mut Vec<u8>)
        ensures
            exists|pairs: Seq<(Seq<char>, Seq<usize>)>|
                lists_map(pairs, self.orders()) && final(output)@ == old(output)@
                    + spec_serialize_order_listing(pairs),
    {
        let entries = name_lists_entries(&self.orders);
        let ghost pairs = entries@.map_values(|e: (&String, &Vec<usize>)| (e.0@, e.1@));
        let ghost start = output@;
        let n = entries.len();
        n.serialize(output);
        let mut i: usize = 0;
        while i < n
            invariant
                n == entries@.len(),
                pairs.len() == n,
                i <= n,
                forall|j: int| 0 <= j < n ==> #[trigger] pairs[j] == (entries@[j].0@, entries@[j].1@),
                output@ == start + encode_varint(n as nat) + serialize_items::<OrderEntry>(pairs.take(i as int)),
            decreases n - i,
        {
            proof {
                lemma_serialize_items_push::<OrderEntry>(pairs.take(i as int), pairs[i as int]);
                assert(pairs.take(i + 1) == pairs.take(i as int).push(pairs[i as int]));
            }
            serialize_str(entries[i].0.as_str(), output);
            entries[i].1.serialize(output);
            proof {
                assert(entries[i as int].1.deep_view() =~= entries[i as int].1@);
            }
            i = i + 1;
        }
        proof {
            assert(pairs.take(n as int) == pairs);
            assert forall|a: int, b: int| 0 <= a < b < pairs.len() implies #[trigger] pairs[a].0
                != #[trigger] pairs[b].0 by {
                assert(entries@[a].0@ != entries@[b].0@);
            }
            lemma_pairs_to_map_contains(pairs);
            assert forall|k: Seq<char>| #[trigger] pairs_to_map(pairs).contains_key(k)
                <== self.orders().contains_key(k) by {
                if self.orders().contains_key(k) {
                    let j = choose|j: int| 0 <= j < entries@.len() && entries@[j].0@ == k;
                    assert(pairs[j].0 == k);
                }
            }
            assert forall|k: Seq<char>| #[trigger] pairs_to_map(pairs).contains_key(k)
                implies self.orders().contains_key(k) && pairs_to_map(pairs)[k] == self.orders()[k] by {
                let j = choose|j: int| 0 <= j < pairs.len() && pairs[j].0 == k;
                assert(pairs_to_map(pairs)[pairs[j].0] == pairs[j].1);
            }
            assert(pairs_to_map(pairs) =~= self.orders());
            assert(lists_map(pairs, self.orders()));
            assert(output@ == start + spec_serialize_order_listing(pairs));
        }
    }

    /// Reads the orderings: a list of (name, places) entries, inserted in
    /// order.
    pub fn deserialize(input: &[u8]) -> (res: Option<(&[u8], OrderIndex)>)
        ensures
            match spec_deserialize_orders(input@) {
                Decoding::Complete(m, n) => res matches Some((rest, index)) && n <= input@.len() && rest@
                    == input@.skip(n as int) && index.orders() == m,
                _ => res is None,
            },
    {
        let (rest, pairs) = Vec::<OrderEntry>::deserialize(input)?;
        let mut map = name_lists_new();
        let n = pairs.len();
        let mut i: usize = 0;
        let mut pairs = pairs;
        let ghost all = pairs.deep_view();
        assert(pairs_to_map(all.take(0)) =~= Map::<Seq<char>, Seq<usize>>::empty());
        while pairs.len() > 0
            invariant
                all.len() == n,
                pairs.len() + i == n,
                pairs.deep_view() =~= all.skip(i as int),
                name_lists(map) == pairs_to_map(all.take(i as int)),
            decreases pairs.len(),
        {
            let ghost before = pairs@;
            let ghost before_dv = pairs.deep_view();
            let entry = pairs.remove(0);
            proof {
                assert(before_dv[0] == all[i as int]);
                assert(all[i as int] == (entry.name@, entry.order@));
                assert forall|j: int| 0 <= j < pairs@.len() implies pairs.deep_view()[j] == all.skip(i + 1)[j] by {
                    assert(pairs@[j] == before[j + 1]);
                    assert(before_dv[j + 1] == all.skip(i as int)[j + 1]);
                }
            }
            name_lists_insert(&mut map, entry.name, entry.order);
            proof {
                assert(all.take(i + 1).drop_last() == all.take(i as int));
            }
            i = i + 1;
        }
        assert(all.take(n as int) == all);
        Some((rest, OrderIndex { orders: map }))
    }
}

impl Default for OrderIndex {
    fn default() -> (res: OrderIndex)
        ensures
            res.orders().is_empty(),
    {
        OrderIndex::new()
    }
}

/// Sorting keeps the number of positions.
proof fn lemma_sort_len(s: Seq<usize>, keys: Seq<Seq<u32>>, descending: bool)
    ensures
        sort_positions(s, keys, descending).len() == s.len(),
    decreases s.len(),
{
    if s.len() > 0 {
        lemma_sort_len(s.drop_last(), keys, descending);
        lemma_insert_len(sort_positions(s.drop_last(), keys, descending), s.last(), keys, descending);
    }
}

proof fn lemma_insert_len(sorted: Seq<usize>, x: usize, keys: Seq<Seq<u32>>, descending: bool)
    ensures
        crate::sorting::insert_sorted(sorted, x, keys, descending).len() == sorted.len() + 1,
        forall|j: int| 0 <= j < crate::sorting::insert_sorted(sorted, x, keys, descending).len()
            ==> #[trigger] crate::sorting::insert_sorted(sorted, x, keys, descending)[j] == x
            || sorted.contains(crate::sorting::insert_sorted(sorted, x, keys, descending)[j]),
    decreases sorted.len(),
{
    if sorted.len() > 0 {
        lemma_insert_len(sorted.drop_last(), x, keys, descending);
        let r = crate::sorting::insert_sorted(sorted, x, keys, descending);
        assert forall|j: int| 0 <= j < r.len() implies #[trigger] r[j] == x || sorted.contains(r[j]) by {
            if !crate::sorting::precedes(keys[x as int], keys[sorted.last() as int], descending) {
                if j < sorted.len() {
                    assert(sorted[j] == r[j]);
                }
            } else {
                let r0 = crate::sorting::insert_sorted(sorted.drop_last(), x, keys, descending);
                if j < r0.len() {
                    assert(r[j] == r0[j]);
                    if r0[j] != x {
                        let m = choose|m: int| 0 <= m < sorted.drop_last().len() && sorted.drop_last()[m] == r0[j];
                        assert(sorted[m] == r[j]);
                    }
                } else {
                    assert(r[j] == sorted.last());
                    assert(sorted[sorted.len() - 1] == r[j]);
                }
            }
        }
    }
}

/// Sorting positions below `n` gives positions below `n`.
proof fn lemma_sorted_in_range(s: Seq<usize>, keys: Seq<Seq<u32>>, descending: bool, n: nat)
    requires
        forall|i: int| 0 <= i < s.len() ==> #[trigger] s[i] < n,
    ensures
        forall|j: int| 0 <= j < sort_positions(s, keys, descending).len() ==> #[trigger] sort_positions(
            s,
            keys,
            descending,
        )[j] < n,
    decreases s.len(),
{
    if s.len() > 0 {
        let init = s.drop_last();
        assert forall|i: int| 0 <= i < init.len() implies #[trigger] init[i] < n by {
            assert(init[i] == s[i]);
        }
        lemma_sorted_in_range(init, keys, descending, n);
        let sorted = sort_positions(init, keys, descending);
        lemma_insert_len(sorted, s.last(), keys, descending);
        let r = sort_positions(s, keys, descending);
        assert forall|j: int| 0 <= j < r.len() implies #[trigger] r[j] < n by {
            if r[j] != s.last() {
                let m = choose|m: int| 0 <= m < sorted.len() && sorted[m] == r[j];
            }
        }
    }
}

/// The places that `ranks` gives: the position at `sorted[m]` gets place
/// `m`, for the first `k` entries of a list without repeats.
proof fn lemma_ranks(sorted: Seq<usize>, n: nat, k: int)
    requires
        0 <= k <= sorted.len(),
        sorted.len() <= usize::MAX,
        sorted.no_duplicates(),
        forall|m: int| 0 <= m < sorted.len() ==> #[trigger] sorted[m] < n,
    ensures
        ranks(sorted, indexes(n), n, k).len() == n,
        forall|m: int| 0 <= m < k ==> ranks(sorted, indexes(n), n, k)[#[trigger] sorted[m] as int] == m,
    decreases k,
{
    if k > 0 {
        lemma_ranks(sorted, n, k - 1);
        let prev = ranks(sorted, indexes(n), n, k - 1);
        let last = sorted[k - 1];
        assert(indexes(n)[last as int] == last);
        assert(ranks(sorted, indexes(n), n, k) == prev.update(last as int, (k - 1) as usize));
        assert forall|m: int| 0 <= m < k implies ranks(sorted, indexes(n), n, k)[#[trigger] sorted[m] as int] == m by {
            if m < k - 1 {
                assert(sorted[m] != last);
                assert(prev[sorted[m] as int] == m);
            } else {
                assert(sorted[m] == last);
            }
        }
    }
}

/// The places of an ordering of the products at positions `0..n`: every
/// place from `0` to `n - 1` is given once, and a product whose key comes
/// strictly first gets the lower place.
pub proof fn lemma_order_places(products: Seq<Product>, keys: Seq<Seq<u32>>, descending: bool)
    requires
        keys.len() == products.len(),
        products.len() <= usize::MAX,
        forall|i: int| 0 <= i < products.len() ==> (#[trigger] products[i]).serialization_id == i,
    ensures
        order_of(products, keys, descending).len() == products.len(),
        forall|i: int|
            0 <= i < products.len() ==> #[trigger] order_of(products, keys, descending)[i] < products.len(),
        forall|i: int, j: int|
            0 <= i < j < products.len() ==> #[trigger] order_of(products, keys, descending)[i] != #[trigger] order_of(
                products,
                keys,
                descending,
            )[j],
        forall|i: int, j: int|
            0 <= i < products.len() && 0 <= j < products.len() && precedes(keys[i], keys[j], descending)
                ==> #[trigger] order_of(products, keys, descending)[i] < #[trigger] order_of(
                products,
                keys,
                descending,
            )[j],
{
    broadcast use vstd::seq_lib::group_to_multiset_ensures;

    let n = products.len();
    let s = indexes(n);
    let sorted = sort_positions(s, keys, descending);
    let sids = products.map_values(|p: Product| p.serialization_id);
    assert(sids =~= indexes(n));
    lemma_sort_positions(s, keys, descending);
    lemma_sort_len(s, keys, descending);
    assert(s.no_duplicates());
    s.lemma_multiset_has_no_duplicates();
    sorted.lemma_multiset_has_no_duplicates_conv();
    assert forall|m: int| 0 <= m < sorted.len() implies #[trigger] sorted[m] < n by {
        assert(sorted.to_multiset().count(sorted[m]) > 0);
        assert(s.contains(sorted[m]));
    }
    lemma_ranks(sorted, n, n as int);
    let order = order_of(products, keys, descending);
    assert(order == ranks(sorted, indexes(n), n, n as int));
    // Where each product stands in the sorted list.
    assert forall|i: int| 0 <= i < n implies #[trigger] sorted.contains(i as usize) by {
        assert(s[i] == i);
        assert(s.to_multiset().count(i as usize) > 0);
    }
    assert forall|i: int| 0 <= i < n implies #[trigger] order[i] < n by {
        assert(sorted.contains(i as usize));
        let m = choose|m: int| 0 <= m < n && sorted[m] == i;
        assert(order[sorted[m] as int] == m);
    }
    assert forall|i: int, j: int| 0 <= i < j < n implies #[trigger] order[i] != #[trigger] order[j] by {
        assert(sorted.contains(i as usize));
        assert(sorted.contains(j as usize));
        let a = choose|m: int| 0 <= m < n && sorted[m] == i;
        let b = choose|m: int| 0 <= m < n && sorted[m] == j;
        assert(order[sorted[a] as int] == a);
        assert(order[sorted[b] as int] == b);
    }
    assert forall|i: int, j: int|
        0 <= i < n && 0 <= j < n && precedes(keys[i], keys[j], descending) implies #[trigger] order[i]
        < #[trigger] order[j] by {
        assert(sorted.contains(i as usize));
        assert(sorted.contains(j as usize));
        let a = choose|m: int| 0 <= m < n && sorted[m] == i;
        let b = choose|m: int| 0 <= m < n && sorted[m] == j;
        assert(order[sorted[a] as int] == a);
        assert(order[sorted[b] as int] == b);
        crate::sorting::lemma_lex_order(keys[i], keys[i], keys[i]);
        if b < a {
            assert(sorted_by(sorted, keys, descending));
            assert(!precedes(keys[sorted[a] as int], keys[sorted[b] as int], descending));
        }
        if a == b {
            assert(i == j);
        }
    }
}

} // verus!
