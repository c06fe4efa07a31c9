use vstd::prelude::*;

use ahash::AHashMap;

use super::product::Product;
use crate::hashing::{
    feature_map, feature_map_entries, feature_map_get, feature_map_insert, feature_map_new,
    feature_map_remove,
};
use crate::serialize::collections::serialize_str;
use crate::serialize::collections::text_round_trips;
use crate::serialize::primitives::{encode_varint, FloatBits};
use crate::serialize::traits::{reads_as, seq_result};
use crate::serialize::vectors::{
    all_round_trip, lemma_pairs_to_map_contains, lemma_serialize_items_push, lists_map, pairs_to_map,
    serialize_items,
};
use crate::serialize::{Decoding, Deserializable, RoundTrip, Serializable};

verus! {

/// One extra feature of every product, by product position: texts, floats
/// (as their bit patterns) or integers.
pub enum Feature {
    String(Vec<String>),
    Float(Vec<FloatBits>),
    Integer(Vec<u32>),
}

/// The model of a feature.
pub enum FeatureView {
    String(Seq<Seq<char>>),
    Float(Seq<u32>),
    Integer(Seq<u32>),
}

impl DeepView for Feature {
    type V = FeatureView;

    open spec fn deep_view(&self) -> FeatureView {
        match self {
            Feature::String(l) => FeatureView::String(l.deep_view()),
            Feature::Float(l) => FeatureView::Float(l.deep_view()),
            Feature::Integer(l) => FeatureView::Integer(l.deep_view()),
        }
    }
}

/// The value of a feature for one product.
pub enum FeatureValue<'a> {
    String(&'a str),
    Float(FloatBits),
    Integer(u32),
}

/// The model of a feature value.
pub enum FeatureValueView {
    String(Seq<char>),
    Float(u32),
    Integer(u32),
}

impl<'a> View for FeatureValue<'a> {
    type V = FeatureValueView;

    open spec fn view(&self) -> FeatureValueView {
        match self {
            FeatureValue::String(s) => FeatureValueView::String(s@),
            FeatureValue::Float(f) => FeatureValueView::Float(f.bits),
            FeatureValue::Integer(i) => FeatureValueView::Integer(*i),
        }
    }
}

/// The value at `index` of a feature, if the feature has one there.
pub open spec fn feature_value_at(f: FeatureView, index: int) -> Option<FeatureValueView> {
    match f {
        FeatureView::String(l) => if 0 <= index < l.len() {
            Some(FeatureValueView::String(l[index]))
        } else {
            None
        },
        FeatureView::Float(l) => if 0 <= index < l.len() {
            Some(FeatureValueView::Float(l[index]))
        } else {
            None
        },
        FeatureView::Integer(l) => if 0 <= index < l.len() {
            Some(FeatureValueView::Integer(l[index]))
        } else {
            None
        },
    }
}

impl Feature {
    /// The value at `index`, if the feature has one there.
    pub fn get(&self, index: usize) -> (res: Option<FeatureValue<'_>>)
        ensures
            match res {
                Some(v) => feature_value_at(self.deep_view(), index as int) == Some(v@),
                None => feature_value_at(self.deep_view(), index as int) is None,
            },
    {
        match self {
            Feature::String(list) => {
                if index < list.len() {
                    Some(FeatureValue::String(list[index].as_str()))
                } else {
                    None
                }
            },
            Feature::Float(list) => {
                if index < list.len() {
                    Some(FeatureValue::Float(list[index]))
                } else {
                    None
                }
            },
            Feature::Integer(list) => {
                if index < list.len() {
                    Some(FeatureValue::Integer(list[index]))
                } else {
                    None
                }
            },
        }
    }
}

impl Serializable for Feature {
    /// A kind byte (0 texts, 1 floats, 2 integers), then the list.
    open spec fn spec_serialize(v: FeatureView) -> Seq<u8> {
        match v {
            FeatureView::String(l) => seq![0u8] + Vec::<String>::spec_serialize(l),
            FeatureView::Float(l) => seq![1u8] + Vec::<FloatBits>::spec_serialize(l),
            FeatureView::Integer(l) => seq![2u8] + Vec::<u32>::spec_serialize(l),
        }
    }

    fn serialize(&self, output: &mut Vec<u8>) {
        match self {
            Feature::String(list) => {
                0u8.serialize(output);
                list.serialize(output);
            },
            Feature::Float(list) => {
                1u8.serialize(output);
                list.serialize(output);
            },
            Feature::Integer(list) => {
                2u8.serialize(output);
                list.serialize(output);
            },
        }
    }
}

/// Puts the values read for a kind under that kind, keeping the byte count
/// of the kind byte.
pub open spec fn with_kind<A>(d: Decoding<A>, make: spec_fn(A) -> FeatureView) -> Decoding<
    FeatureView,
> {
    match d {
        Decoding::Complete(l, n) => Decoding::Complete(make(l), n + 1),
        Decoding::Rejected => Decoding::Rejected,
        Decoding::Aborts => Decoding::Aborts,
    }
}

impl Deserializable for Feature {
    open spec fn spec_deserialize(input: Seq<u8>) -> Decoding<FeatureView> {
        if input.len() == 0 {
            Decoding::Rejected
        } else if input[0] == 0 {
            with_kind(
                Vec::<String>::spec_deserialize(input.skip(1)),
                |l: Seq<Seq<char>>| FeatureView::String(l),
            )
        } else if input[0] == 1 {
            with_kind(
                Vec::<FloatBits>::spec_deserialize(input.skip(1)),
                |l: Seq<u32>| FeatureView::Float(l),
            )
        } else if input[0] == 2 {
            with_kind(
                Vec::<u32>::spec_deserialize(input.skip(1)),
                |l: Seq<u32>| FeatureView::Integer(l),
            )
        } else {
            Decoding::Rejected
        }
    }

    fn deserialize(input: &[u8]) -> (res: Option<(&[u8], Feature)>) {
        let (rest, id) = u8::deserialize(input)?;
        assert(rest@ == input@.skip(1));
        if id == 0 {
            let (after, data) = Vec::<String>::deserialize(rest)?;
            assert(after@ =~= input@.skip(1 + (rest@.len() - after@.len())));
            Some((after, Feature::String(data)))
        } else if id == 1 {
            let (after, data) = Vec::<FloatBits>::deserialize(rest)?;
            assert(after@ =~= input@.skip(1 + (rest@.len() - after@.len())));
            Some((after, Feature::Float(data)))
        } else if id == 2 {
            let (after, data) = Vec::<u32>::deserialize(rest)?;
            assert(after@ =~= input@.skip(1 + (rest@.len() - after@.len())));
            Some((after, Feature::Integer(data)))
        } else {
            None
        }
    }
}

/// The features whose written form reads back unchanged: lists with a length
/// that the length reader gives back, of texts that do too.
pub open spec fn feature_round_trips(v: FeatureView) -> bool {
    let len = match v {
        FeatureView::String(l) => l.len(),
        FeatureView::Float(l) => l.len(),
        FeatureView::Integer(l) => l.len(),
    };
    &&& len <= usize::MAX
    &&& v matches FeatureView::String(l) ==> forall|i: int|
        0 <= i < l.len() ==> text_round_trips(#[trigger] l[i])
}

impl RoundTrip for Feature {
    open spec fn round_trips(v: FeatureView) -> bool {
        feature_round_trips(v)
    }

    #[verifier::rlimit(80)]
    #[verifier::spinoff_prover]
    proof fn lemma_round_trip(v: FeatureView, rest: Seq<u8>) {
        assert(Self::round_trips(v));
        assert(feature_round_trips(v));
        let s = Self::spec_serialize(v) + rest;
        match v {
            FeatureView::String(l) => {
                assert(all_round_trip::<String>(l));
                <Vec<String> as RoundTrip>::lemma_round_trip(l, rest);
                assert(s.skip(1) == Vec::<String>::spec_serialize(l) + rest);
            },
            FeatureView::Float(l) => {
                assert(all_round_trip::<FloatBits>(l));
                <Vec<FloatBits> as RoundTrip>::lemma_round_trip(l, rest);
                assert(s.skip(1) == Vec::<FloatBits>::spec_serialize(l) + rest);
            },
            FeatureView::Integer(l) => {
                assert(all_round_trip::<u32>(l));
                <Vec<u32> as RoundTrip>::lemma_round_trip(l, rest);
                assert(s.skip(1) == Vec::<u32>::spec_serialize(l) + rest);
            },
        }
    }
}

/// A named feature, as the feature map writes its entries.
pub struct FeatureEntry {
    pub name: String,
    pub feature: Feature,
}

impl DeepView for FeatureEntry {
    type V = (Seq<char>, FeatureView);

    open spec fn deep_view(&self) -> (Seq<char>, FeatureView) {
        (self.name@, self.feature.deep_view())
    }
}

impl Serializable for FeatureEntry {
    /// The name, then the feature.
    open spec fn spec_serialize(v: (Seq<char>, FeatureView)) -> Seq<u8> {
        String::spec_serialize(v.0) + Feature::spec_serialize(v.1)
    }

    fn serialize(&self, output: &mut Vec<u8>) {
        self.name.serialize(output);
        self.feature.serialize(output);
    }
}

impl Deserializable for FeatureEntry {
    open spec fn spec_deserialize(input: Seq<u8>) -> Decoding<(Seq<char>, FeatureView)> {
        match String::spec_deserialize(input) {
            Decoding::Complete(k, n) => match Feature::spec_deserialize(input.skip(n as int)) {
                Decoding::Complete(v, m) => Decoding::Complete((k, v), n + m),
                Decoding::Rejected => Decoding::Rejected,
                Decoding::Aborts => Decoding::Aborts,
            },
            Decoding::Rejected => Decoding::Rejected,
            Decoding::Aborts => Decoding::Aborts,
        }
    }

    fn deserialize(input: &[u8]) -> (res: Option<(&[u8], FeatureEntry)>) {
        let (rest, name) = String::deserialize(input)?;
        let ghost n = (input@.len() - rest@.len()) as int;
        let (after, feature) = Feature::deserialize(rest)?;
        assert(after@ =~= input@.skip(n + (rest@.len() - after@.len())));
        Some((after, FeatureEntry { name, feature }))
    }
}

impl RoundTrip for FeatureEntry {
    open spec fn round_trips(v: (Seq<char>, FeatureView)) -> bool {
        text_round_trips(v.0) && feature_round_trips(v.1)
    }

    proof fn lemma_round_trip(v: (Seq<char>, FeatureView), rest: Seq<u8>) {
        let a = String::spec_serialize(v.0);
        let b = Feature::spec_serialize(v.1);
        assert(a + b + rest == a + (b + rest));
        <String as RoundTrip>::lemma_round_trip(v.0, b + rest);
        <Feature as RoundTrip>::lemma_round_trip(v.1, rest);
        assert((a + (b + rest)).skip(a.len() as int) == b + rest);
    }
}

/// The extra features of the products, by name.
pub struct FeatureSet(AHashMap<String, Feature>);

/// Whether `key` may get a value of the given kind: it has no feature yet, or
/// a feature of that kind.
pub open spec fn accepts_kind(m: Map<Seq<char>, FeatureView>, key: Seq<char>, kind: nat) -> bool {
    m.contains_key(key) ==> match m[key] {
        FeatureView::String(_) => kind == 0,
        FeatureView::Float(_) => kind == 1,
        FeatureView::Integer(_) => kind == 2,
    }
}

/// The written form of a feature map, listed in the order `pairs`.
pub open spec fn spec_serialize_feature_listing(pairs: Seq<(Seq<char>, FeatureView)>) -> Seq<u8> {
    Vec::<FeatureEntry>::spec_serialize(pairs)
}

/// What reading a feature map gives: a list of entries, inserted in order.
pub open spec fn spec_deserialize_feature_map(input: Seq<u8>) -> Decoding<Map<Seq<char>, FeatureView>> {
    match Vec::<FeatureEntry>::spec_deserialize(input) {
        Decoding::Complete(pairs, n) => Decoding::Complete(pairs_to_map(pairs), n),
        Decoding::Rejected => Decoding::Rejected,
        Decoding::Aborts => Decoding::Aborts,
    }
}

impl FeatureSet {
    /// The features by name.
    pub closed spec fn features(&self) -> Map<Seq<char>, FeatureView> {
        feature_map(self.0)
    }

    /// No features.
    pub fn new_empty() -> (res: FeatureSet)
        ensures
            res.features().is_empty(),
    {
        FeatureSet(feature_map_new())
    }

    /// The value of feature `key` for `product`, at the product's position.
    pub fn get<'a>(&'a self, product: &Product, key: &str) -> (res: Option<FeatureValue<'a>>)
        ensures
            match res {
                Some(v) => self.features().contains_key(key@) && feature_value_at(
                    self.features()[key@],
                    product.serialization_id as int,
                ) == Some(v@),
                None => !self.features().contains_key(key@) || feature_value_at(
                    self.features()[key@],
                    product.serialization_id as int,
                ) is None,
            },
    {
        let feature = feature_map_get(&self.0, key)?;
        feature.get(product.serialization_id)
    }

    /// The feature `key`, if there is one.
    pub fn get_feature(&self, key: &str) -> (res: Option<&Feature>)
        ensures
            res is Some <==> self.features().contains_key(key@),
            res matches Some(f) ==> f.deep_view() == self.features()[key@],
    {
        feature_map_get(&self.0, key)
    }

    /// Adds an integer to feature `key` (a new feature if there is none).
    pub fn add_int(&mut self, key: &str, value: u32)
        requires
            accepts_kind(old(self).features(), key@, 2),
        ensures
            final(self).features() == old(self).features().insert(
                key@,
                FeatureView::Integer(
                    if old(self).features().contains_key(key@) {
                        old(self).features()[key@]->Integer_0.push(value)
                    } else {
                        seq![value]
                    },
                ),
            ),
    {
        match feature_map_remove(&mut self.0, key) {
            Some(Feature::Integer(mut list)) => {
                let ghost before = list.deep_view();
                list.push(value);
                let ghost added = list.deep_view();
                assert(added =~= before.push(value));
                feature_map_insert(&mut self.0, key.to_string(), Feature::Integer(list));
                proof {
                    let m = old(self).features();
                    assert(before == m[key@]->Integer_0);
                    assert(self.features() == m.remove(key@).insert(key@, FeatureView::Integer(added)));
                    assert(m.remove(key@).insert(key@, FeatureView::Integer(added)) =~= m.insert(
                        key@,
                        FeatureView::Integer(added),
                    ));
                }
            },
            Some(_) => {
                proof {
                    assert(false);
                }
            },
            None => {
                let single = vec![value];
                let ghost one = single.deep_view();
                assert(one =~= seq![value]);
                feature_map_insert(&mut self.0, key.to_string(), Feature::Integer(single));
                proof {
                    let m = old(self).features();
                    assert(m.remove(key@) =~= m);
                    assert(self.features() == m.insert(key@, FeatureView::Integer(one)));
                }
            },
        }
    }

    /// Adds a float (as its bit pattern) to feature `key` (a new feature if
    /// there is none).
    pub fn add_float(&mut self, key: &str, value: FloatBits)
        requires
            accepts_kind(old(self).features(), key@, 1),
        ensures
            final(self).features() == old(self).features().insert(
                key@,
                FeatureView::Float(
                    if old(self).features().contains_key(key@) {
                        old(self).features()[key@]->Float_0.push(value.bits)
                    } else {
                        seq![value.bits]
                    },
                ),
            ),
    {
        match feature_map_remove(&mut self.0, key) {
            Some(Feature::Float(mut list)) => {
                let ghost before = list.deep_view();
                list.push(value);
                let ghost added = list.deep_view();
                assert(added =~= before.push(value.bits));
                feature_map_insert(&mut self.0, key.to_string(), Feature::Float(list));
                proof {
                    let m = old(self).features();
                    assert(before == m[key@]->Float_0);
                    assert(self.features() == m.remove(key@).insert(key@, FeatureView::Float(added)));
                    assert(m.remove(key@).insert(key@, FeatureView::Float(added)) =~= m.insert(
                        key@,
                        FeatureView::Float(added),
                    ));
                }
            },
            Some(_) => {
                proof {
                    assert(false);
                }
            },
            None => {
                let single = vec![value];
                let ghost one = single.deep_view();
                assert(one =~= seq![value.bits]);
                feature_map_insert(&mut self.0, key.to_string(), Feature::Float(single));
                proof {
                    let m = old(self).features();
                    assert(m.remove(key@) =~= m);
                    assert(self.features() == m.insert(key@, FeatureView::Float(one)));
                }
            },
        }
    }

    /// Adds a text to feature `key` (a new feature if there is none).
    pub fn add_string(&mut self, key: &str, value: String)
        requires
            accepts_kind(old(self).features(), key@, 0),
        ensures
            final(self).features() == old(self).features().insert(
                key@,
                FeatureView::String(
                    if old(self).features().contains_key(key@) {
                        old(self).features()[key@]->String_0.push(value@)
                    } else {
                        seq![value@]
                    },
                ),
            ),
    {
        let ghost v = value@;
        match feature_map_remove(&mut self.0, key) {
            Some(Feature::String(mut list)) => {
                let ghost before = list.deep_view();
                list.push(value);
                let ghost added = list.deep_view();
                assert(added =~= before.push(v));
                feature_map_insert(&mut self.0, key.to_string(), Feature::String(list));
                proof {
                    let m = old(self).features();
                    assert(before == m[key@]->String_0);
                    assert(self.features() == m.remove(key@).insert(key@, FeatureView::String(added)));
                    assert(m.remove(key@).insert(key@, FeatureView::String(added)) =~= m.insert(
                        key@,
                        FeatureView::String(added),
                    ));
                }
            },
            Some(_) => {
                proof {
                    assert(false);
                }
            },
            None => {
                let single = vec![value];
                let ghost one = single.deep_view();
                assert(one =~= seq![v]);
                feature_map_insert(&mut self.0, key.to_string(), Feature::String(single));
                proof {
                    let m = old(self).features();
                    assert(m.remove(key@) =~= m);
                    assert(self.features() == m.insert(key@, FeatureView::String(one)));
                }
            },
        }
    }

    /// Writes the features as a list of (name, feature) entries in the map's
    /// own order.
    pub fn serialize(&self, output: &mut Vec<u8>)
        ensures
            exists|pairs: Seq<(Seq<char>, FeatureView)>|
                lists_map(pairs, self.features()) && final(output)@ == old(output)@
                    + spec_serialize_feature_listing(pairs),
    {
        let entries = feature_map_entries(&self.0);
        let ghost pairs = entries@.map_values(|e: (&String, &Feature)| (e.0@, e.1.deep_view()));
        let ghost start = output@;
        let n = entries.len();
        n.serialize(output);
        let mut i: usize = 0;
        while i < n
            invariant
                n == entries@.len(),
                pairs.len() == n,
                i <= n,
                forall|j: int| 0 <= j < n ==> #[trigger] pairs[j] == (entries@[j].0@, entries@[j].1.deep_view()),
                output@ == start + encode_varint(n as nat) + serialize_items::<FeatureEntry>(
                    pairs.take(i as int),
                ),
            decreases n - i,
        {
            proof {
                lemma_serialize_items_push::<FeatureEntry>(pairs.take(i as int), pairs[i as int]);
                assert(pairs.take(i + 1) == pairs.take(i as int).push(pairs[i as int]));
            }
            serialize_str(entries[i].0.as_str(), output);
            entries[i].1.serialize(output);
            i = i + 1;
        }
        proof {
            assert(pairs.take(n as int) == pairs);
            assert forall|a: int, b: int| 0 <= a < b < pairs.len() implies #[trigger] pairs[a].0
                != #[trigger] pairs[b].0 by {
                assert(entries@[a].0@ != entries@[b].0@);
            }
            lemma_pairs_to_map_contains(pairs);
            assert forall|k: Seq<char>| #[trigger] pairs_to_map(pairs).contains_key(k)
                <== self.features().contains_key(k) by {
                if self.features().contains_key(k) {
                    let j = choose|j: int| 0 <= j < entries@.len() && entries@[j].0@ == k;
                    assert(pairs[j].0 == k);
                }
            }
            assert forall|k: Seq<char>| #[trigger] pairs_to_map(pairs).contains_key(k)
                implies self.features().contains_key(k) && pairs_to_map(pairs)[k]
                == self.features()[k] by {
                let j = choose|j: int| 0 <= j < pairs.len() && pairs[j].0 == k;
                assert(pairs_to_map(pairs)[pairs[j].0] == pairs[j].1);
            }
            assert(pairs_to_map(pairs) =~= self.features());
            assert(lists_map(pairs, self.features()));
            assert(output@ == start + spec_serialize_feature_listing(pairs));
        }
    }

    /// Reads a feature map: a list of (name, feature) entries, inserted in
    /// order.
    pub fn deserialize(input: &[u8]) -> (res: Option<(&[u8], FeatureSet)>)
        ensures
            match spec_deserialize_feature_map(input@) {
                Decoding::Complete(m, n) => res matches Some((rest, set)) && n <= input@.len() && rest@
                    == input@.skip(n as int) && set.features() == m,
                _ => res is None,
            },
    {
        let (rest, pairs) = Vec::<FeatureEntry>::deserialize(input)?;
        let mut map = feature_map_new();
        let n = pairs.len();
        let mut i: usize = 0;
        let mut pairs = pairs;
        let ghost all = pairs.deep_view();
        assert(pairs_to_map(all.take(0)) =~= Map::<Seq<char>, FeatureView>::empty());
        while pairs.len() > 0
            invariant
                all.len() == n,
                pairs.len() + i == n,
                pairs.deep_view() =~= all.skip(i as int),
                feature_map(map) == pairs_to_map(all.take(i as int)),
            decreases pairs.len(),
        {
            let ghost before = pairs@;
            let ghost before_dv = pairs.deep_view();
            let entry = pairs.remove(0);
            let k = entry.name;
            let v = entry.feature;
            proof {
                assert(before_dv[0] == all[i as int]);
                assert(all[i as int] == (k@, v.deep_view()));
                assert forall|j: int| 0 <= j < pairs@.len() implies pairs.deep_view()[j]
                    == all.skip(i + 1)[j] by {
                    assert(pairs@[j] == before[j + 1]);
                    assert(before_dv[j + 1] == all.skip(i as int)[j + 1]);
                }
            }
            feature_map_insert(&mut map, k, v);
            proof {
                assert(all.take(i + 1).drop_last() == all.take(i as int));
            }
            i = i + 1;
        }
        assert(all.take(n as int) == all);
        Some((rest, FeatureSet(map)))
    }
}

} // verus!
