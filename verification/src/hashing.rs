//! The hash maps and sets of `ahash` that the indexes keep, with what their
//! methods do to the contents.
use vstd::prelude::*;

use ahash::{AHashMap, AHashSet, RandomState};

use crate::data::features::{Feature, FeatureView};
use crate::ngram::node::{GramNode, GramNodeView};
use crate::serialize::primitives::FloatBits;



verus! {

#[verifier::external_type_specification]
#[verifier::external_body]
#[verifier::reject_recursive_types(K)]
#[verifier::reject_recursive_types(V)]
#[verifier::reject_recursive_types(S)]
pub struct ExAHashMap<K, V, S>(AHashMap<K, V, S>);

#[verifier::external_type_specification]
#[verifier::external_body]
pub struct ExRandomState(RandomState);

#[verifier::external_type_specification]
#[verifier::external_body]
#[verifier::reject_recursive_types(T)]
#[verifier::reject_recursive_types(S)]
pub struct ExAHashSet<T, S>(AHashSet<T, S>);

/// The entries of a map from texts to positions.
pub uninterp spec fn name_positions(m: AHashMap<String, usize>) -> Map<Seq<char>, usize>;

/// `AHashMap::new` for a map from texts to positions: an empty map.
#[verifier::external_body]
pub fn name_positions_new() -> (res: AHashMap<String, usize>)
    ensures
        name_positions(res).is_empty(),
{
    AHashMap::new()
}

/// `AHashMap::get`: the position stored under `key`, if any.
#[verifier::external_body]
pub fn name_positions_get(m: &AHashMap<String, usize>, key: &str) -> (res: Option<usize>)
    ensures
        res == name_positions(*m).get(key@),
{
    m.get(key).copied()
}

/// `AHashMap::insert`: stores `value` under `key`, replacing what was there.
#[verifier::external_body]
pub fn name_positions_insert(m: &mut AHashMap<String, usize>, key: String, value: usize)
    ensures
        name_positions(*final(m)) == name_positions(*old(m)).insert(key@, value),
{
    m.insert(key, value);
}

/// The entries of a map from feature names to features.
pub uninterp spec fn feature_map(m: AHashMap<String, Feature>) -> Map<Seq<char>, FeatureView>;

/// `AHashMap::new` for a map of features: an empty map.
#[verifier::external_body]
pub fn feature_map_new() -> (res: AHashMap<String, Feature>)
    ensures
        feature_map(res).is_empty(),
{
    AHashMap::new()
}

/// `AHashMap::get`: the feature stored under `key`, if any.
#[verifier::external_body]
pub fn feature_map_get<'a>(m: &'a AHashMap<String, Feature>, key: &str) -> (res: Option<&'a Feature>)
    ensures
        res is Some <==> feature_map(*m).contains_key(key@),
        res matches Some(f) ==> f.deep_view() == feature_map(*m)[key@],
{
    m.get(key)
}

/// `AHashMap::remove`: takes out the feature stored under `key`, if any.
#[verifier::external_body]
pub fn feature_map_remove(m: &mut AHashMap<String, Feature>, key: &str) -> (res: Option<Feature>)
    ensures
        res is Some <==> feature_map(*old(m)).contains_key(key@),
        res matches Some(f) ==> f.deep_view() == feature_map(*old(m))[key@],
        feature_map(*final(m)) == feature_map(*old(m)).remove(key@),
{
    m.remove(key)
}

/// `AHashMap::insert`: stores `value` under `key`, replacing what was there.
#[verifier::external_body]
pub fn feature_map_insert(m: &mut AHashMap<String, Feature>, key: String, value: Feature)
    ensures
        feature_map(*final(m)) == feature_map(*old(m)).insert(key@, value.deep_view()),
{
    m.insert(key, value);
}

/// `AHashMap::iter`: every entry once; the order, which follows the seeded hasher, is left unsaid.
#[verifier::external_body]
pub fn feature_map_entries<'a>(m: &'a AHashMap<String, Feature>) -> (res: Vec<(&'a String, &'a Feature)>)
    ensures
        forall|k: Seq<char>| #[trigger] feature_map(*m).contains_key(k) ==> exists|i: int|
            0 <= i < res@.len() && res@[i].0@ == k,
        forall|i: int| 0 <= i < res@.len() ==> feature_map(*m).contains_key(#[trigger] res@[i].0@)
            && feature_map(*m)[res@[i].0@] == res@[i].1.deep_view(),
        forall|i: int, j: int| 0 <= i < j < res@.len() ==> #[trigger] res@[i].0@ != #[trigger] res@[j].0@,
{
    m.iter().collect()
}

} // verus!

verus! {

/// The entries of a map from grams to positions.
pub uninterp spec fn char_positions(m: AHashMap<char, usize>) -> Map<char, usize>;

/// `AHashMap::new` for a map from grams to positions: an empty map.
#[verifier::external_body]
pub fn char_positions_new() -> (res: AHashMap<char, usize>)
    ensures
        char_positions(res).is_empty(),
{
    AHashMap::new()
}

/// `AHashMap::get`: the position stored under `key`, if any.
#[verifier::external_body]
pub fn char_positions_get(m: &AHashMap<char, usize>, key: char) -> (res: Option<usize>)
    ensures
        res == char_positions(*m).get(key),
{
    m.get(&key).copied()
}

/// `AHashMap::insert`: stores `value` under `key`, replacing what was there.
#[verifier::external_body]
pub fn char_positions_insert(m: &mut AHashMap<char, usize>, key: char, value: usize)
    ensures
        char_positions(*final(m)) == char_positions(*old(m)).insert(key, value),
{
    m.insert(key, value);
}

/// `AHashMap::iter`: every entry once; the order, which follows the seeded hasher, is left unsaid.
#[verifier::external_body]
pub fn char_positions_entries(m: &AHashMap<char, usize>) -> (res: Vec<(char, usize)>)
    ensures
        forall|k: char| #[trigger] char_positions(*m).contains_key(k) ==> exists|i: int|
            0 <= i < res@.len() && res@[i].0 == k,
        forall|i: int| 0 <= i < res@.len() ==> char_positions(*m).contains_key(#[trigger] res@[i].0)
            && char_positions(*m)[res@[i].0] == res@[i].1,
        forall|i: int, j: int| 0 <= i < j < res@.len() ==> #[trigger] res@[i].0 != #[trigger] res@[j].0,
{
    m.iter().map(|(k, v)| (*k, *v)).collect()
}

} // verus!

verus! {

/// The entries of a map from first grams to the tree nodes below them.
pub uninterp spec fn gram_roots(m: AHashMap<char, GramNode>) -> Map<char, GramNodeView>;

/// `AHashMap::new` for a map of tree roots: an empty map.
#[verifier::external_body]
pub fn gram_roots_new() -> (res: AHashMap<char, GramNode>)
    ensures
        gram_roots(res).is_empty(),
{
    AHashMap::new()
}

/// `AHashMap::get`: the node stored under `key`, if any.
#[verifier::external_body]
pub fn gram_roots_get(m: &AHashMap<char, GramNode>, key: char) -> (res: Option<&GramNode>)
    ensures
        res is Some <==> gram_roots(*m).contains_key(key),
        res matches Some(node) ==> node.deep_view() == gram_roots(*m)[key],
{
    m.get(&key)
}

/// `AHashMap::insert`: stores `value` under `key`, replacing what was there.
#[verifier::external_body]
pub fn gram_roots_insert(m: &mut AHashMap<char, GramNode>, key: char, value: GramNode)
    ensures
        gram_roots(*final(m)) == gram_roots(*old(m)).insert(key, value.deep_view()),
{
    m.insert(key, value);
}

/// `AHashMap::iter`: every entry once; the order, which follows the seeded hasher, is left unsaid.
#[verifier::external_body]
pub fn gram_roots_entries(m: &AHashMap<char, GramNode>) -> (res: Vec<(char, &GramNode)>)
    ensures
        forall|k: char| #[trigger] gram_roots(*m).contains_key(k) ==> exists|i: int|
            0 <= i < res@.len() && res@[i].0 == k,
        forall|i: int| 0 <= i < res@.len() ==> gram_roots(*m).contains_key(#[trigger] res@[i].0)
            && gram_roots(*m)[res@[i].0] == res@[i].1.deep_view(),
        forall|i: int, j: int| 0 <= i < j < res@.len() ==> #[trigger] res@[i].0 != #[trigger] res@[j].0,
{
    m.iter().map(|(k, v)| (*k, v)).collect()
}

} // verus!

verus! {

/// The entries of a map from n-grams to product positions.
pub uninterp spec fn gram_data(m: AHashMap<Vec<char>, Vec<usize>>) -> Map<Seq<char>, Seq<usize>>;

/// `AHashMap::new` for a map from n-grams to product positions: an empty map.
#[verifier::external_body]
pub fn gram_data_new() -> (res: AHashMap<Vec<char>, Vec<usize>>)
    ensures
        gram_data(res).is_empty(),
{
    AHashMap::new()
}

/// `AHashMap::remove`: takes out the positions stored under `key`, if any.
#[verifier::external_body]
pub fn gram_data_remove(m: &mut AHashMap<Vec<char>, Vec<usize>>, key: &[char]) -> (res: Option<Vec<usize>>)
    ensures
        res is Some <==> gram_data(*old(m)).contains_key(key@),
        res matches Some(v) ==> v@ == gram_data(*old(m))[key@],
        gram_data(*final(m)) == gram_data(*old(m)).remove(key@),
{
    m.remove(key)
}

/// `AHashMap::insert`: stores `value` under `key`, replacing what was there.
#[verifier::external_body]
pub fn gram_data_insert(m: &mut AHashMap<Vec<char>, Vec<usize>>, key: Vec<char>, value: Vec<usize>)
    ensures
        gram_data(*final(m)) == gram_data(*old(m)).insert(key@, value@),
{
    m.insert(key, value);
}

/// `AHashMap::into_iter`: every entry once; the order, which follows the seeded hasher, is left unsaid.
#[verifier::external_body]
pub fn gram_data_into_entries(m: AHashMap<Vec<char>, Vec<usize>>) -> (res: Vec<(Vec<char>, Vec<usize>)>)
    ensures
        forall|k: Seq<char>| #[trigger] gram_data(m).contains_key(k) ==> exists|i: int|
            0 <= i < res@.len() && res@[i].0@ == k,
        forall|i: int| 0 <= i < res@.len() ==> gram_data(m).contains_key(#[trigger] res@[i].0@)
            && gram_data(m)[res@[i].0@] == res@[i].1@,
        forall|i: int, j: int| 0 <= i < j < res@.len() ==> #[trigger] res@[i].0@ != #[trigger] res@[j].0@,
{
    m.into_iter().collect()
}

/// `AHashMap::iter`: every entry once; the order, which follows the seeded hasher, is left unsaid.
#[verifier::external_body]
pub fn gram_data_entries<'a>(m: &'a AHashMap<Vec<char>, Vec<usize>>) -> (res: Vec<(&'a Vec<char>, &'a Vec<usize>)>)
    ensures
        forall|k: Seq<char>| #[trigger] gram_data(*m).contains_key(k) ==> exists|i: int|
            0 <= i < res@.len() && res@[i].0@ == k,
        forall|i: int| 0 <= i < res@.len() ==> gram_data(*m).contains_key(#[trigger] res@[i].0@)
            && gram_data(*m)[res@[i].0@] == res@[i].1@,
        forall|i: int, j: int| 0 <= i < j < res@.len() ==> #[trigger] res@[i].0@ != #[trigger] res@[j].0@,
{
    m.iter().collect()
}

} // verus!

verus! {

/// The members of a set of product positions.
pub uninterp spec fn position_set(s: AHashSet<usize>) -> Set<usize>;

/// `AHashSet::new`: an empty set.
#[verifier::external_body]
pub fn position_set_new() -> (res: AHashSet<usize>)
    ensures
        position_set(res).is_empty(),
{
    AHashSet::new()
}

/// `AHashSet::insert`: adds `value`; tells whether it was not there yet.
#[verifier::external_body]
pub fn position_set_insert(s: &mut AHashSet<usize>, value: usize) -> (res: bool)
    ensures
        res == !position_set(*old(s)).contains(value),
        position_set(*final(s)) == position_set(*old(s)).insert(value),
{
    s.insert(value)
}

/// `AHashSet::contains`: whether `value` is a member.
#[verifier::external_body]
pub fn position_set_contains(s: &AHashSet<usize>, value: usize) -> (res: bool)
    ensures
        res == position_set(*s).contains(value),
{
    s.contains(&value)
}

} // verus!

verus! {

/// The entries of a map from names to lists of positions.
pub uninterp spec fn name_lists(m: AHashMap<String, Vec<usize>>) -> Map<Seq<char>, Seq<usize>>;

/// `AHashMap::new` for a map from names to lists: an empty map.
#[verifier::external_body]
pub fn name_lists_new() -> (res: AHashMap<String, Vec<usize>>)
    ensures
        name_lists(res).is_empty(),
{
    AHashMap::new()
}

/// `AHashMap::get`: the list stored under `key`, if any.
#[verifier::external_body]
pub fn name_lists_get<'a>(m: &'a AHashMap<String, Vec<usize>>, key: &str) -> (res: Option<&'a Vec<usize>>)
    ensures
        res is Some <==> name_lists(*m).contains_key(key@),
        res matches Some(v) ==> v@ == name_lists(*m)[key@],
{
    m.get(key)
}

/// `AHashMap::remove`: takes out the list stored under `key`, if any.
#[verifier::external_body]
pub fn name_lists_remove(m: &mut AHashMap<String, Vec<usize>>, key: &str) -> (res: Option<Vec<usize>>)
    ensures
        res is Some <==> name_lists(*old(m)).contains_key(key@),
        res matches Some(v) ==> v@ == name_lists(*old(m))[key@],
        name_lists(*final(m)) == name_lists(*old(m)).remove(key@),
{
    m.remove(key)
}

/// `AHashMap::insert`: stores `value` under `key`, replacing what was there.
#[verifier::external_body]
pub fn name_lists_insert(m: &mut AHashMap<String, Vec<usize>>, key: String, value: Vec<usize>)
    ensures
        name_lists(*final(m)) == name_lists(*old(m)).insert(key@, value@),
{
    m.insert(key, value);
}

/// `AHashMap::into_iter`: every entry once; the order, which follows the seeded hasher, is left unsaid.
#[verifier::external_body]
pub fn name_lists_into_entries(m: AHashMap<String, Vec<usize>>) -> (res: Vec<(String, Vec<usize>)>)
    ensures
        forall|k: Seq<char>| #[trigger] name_lists(m).contains_key(k) ==> exists|i: int|
            0 <= i < res@.len() && res@[i].0@ == k,
        forall|i: int| 0 <= i < res@.len() ==> name_lists(m).contains_key(#[trigger] res@[i].0@)
            && name_lists(m)[res@[i].0@] == res@[i].1@,
        forall|i: int, j: int| 0 <= i < j < res@.len() ==> #[trigger] res@[i].0@ != #[trigger] res@[j].0@,
{
    m.into_iter().collect()
}

/// `AHashMap::iter`: every entry once; the order, which follows the seeded hasher, is left unsaid.
#[verifier::external_body]
pub fn name_lists_entries<'a>(m: &'a AHashMap<String, Vec<usize>>) -> (res: Vec<(&'a String, &'a Vec<usize>)>)
    ensures
        forall|k: Seq<char>| #[trigger] name_lists(*m).contains_key(k) ==> exists|i: int|
            0 <= i < res@.len() && res@[i].0@ == k,
        forall|i: int| 0 <= i < res@.len() ==> name_lists(*m).contains_key(#[trigger] res@[i].0@)
            && name_lists(*m)[res@[i].0@] == res@[i].1@,
        forall|i: int, j: int| 0 <= i < j < res@.len() ==> #[trigger] res@[i].0@ != #[trigger] res@[j].0@,
{
    m.iter().collect()
}

/// The entries of a map from names to texts.
pub uninterp spec fn text_values(m: AHashMap<String, String>) -> Map<Seq<char>, Seq<char>>;

/// `AHashMap::with_capacity` for a map from names to texts: an empty map.
#[verifier::external_body]
pub fn text_values_with_capacity(capacity: usize) -> (res: AHashMap<String, String>)
    ensures
        text_values(res).is_empty(),
{
    AHashMap::with_capacity(capacity)
}

/// `AHashMap::insert`: stores `value` under `key`, replacing what was there.
#[verifier::external_body]
pub fn text_values_insert(m: &mut AHashMap<String, String>, key: String, value: String)
    ensures
        text_values(*final(m)) == text_values(*old(m)).insert(key@, value@),
{
    m.insert(key, value);
}

/// `AHashMap::into_iter`: every entry once; the order, which follows the seeded hasher, is left unsaid.
#[verifier::external_body]
pub fn text_values_into_entries(m: AHashMap<String, String>) -> (res: Vec<(String, String)>)
    ensures
        forall|k: Seq<char>| #[trigger] text_values(m).contains_key(k) ==> exists|i: int|
            0 <= i < res@.len() && res@[i].0@ == k,
        forall|i: int| 0 <= i < res@.len() ==> text_values(m).contains_key(#[trigger] res@[i].0@)
            && text_values(m)[res@[i].0@] == res@[i].1@,
        forall|i: int, j: int| 0 <= i < j < res@.len() ==> #[trigger] res@[i].0@ != #[trigger] res@[j].0@,
{
    m.into_iter().collect()
}

/// The entries of a map from names to floats (as their bit patterns).
pub uninterp spec fn number_values(m: AHashMap<String, FloatBits>) -> Map<Seq<char>, u32>;

/// `AHashMap::with_capacity` for a map from names to floats: an empty map.
#[verifier::external_body]
pub fn number_values_with_capacity(capacity: usize) -> (res: AHashMap<String, FloatBits>)
    ensures
        number_values(res).is_empty(),
{
    AHashMap::with_capacity(capacity)
}

/// `AHashMap::insert`: stores `value` under `key`, replacing what was there.
#[verifier::external_body]
pub fn number_values_insert(m: &mut AHashMap<String, FloatBits>, key: String, value: FloatBits)
    ensures
        number_values(*final(m)) == number_values(*old(m)).insert(key@, value.bits),
{
    m.insert(key, value);
}

/// `AHashMap::into_iter`: every entry once; the order, which follows the seeded hasher, is left unsaid.
#[verifier::external_body]
pub fn number_values_into_entries(m: AHashMap<String, FloatBits>) -> (res: Vec<(String, FloatBits)>)
    ensures
        forall|k: Seq<char>| #[trigger] number_values(m).contains_key(k) ==> exists|i: int|
            0 <= i < res@.len() && res@[i].0@ == k,
        forall|i: int| 0 <= i < res@.len() ==> number_values(m).contains_key(#[trigger] res@[i].0@)
            && number_values(m)[res@[i].0@] == res@[i].1.bits,
        forall|i: int, j: int| 0 <= i < j < res@.len() ==> #[trigger] res@[i].0@ != #[trigger] res@[j].0@,
{
    m.into_iter().collect()
}

/// The keys of a map from (category, option) positions to nothing, used
/// as a set.
pub uninterp spec fn selected_options(m: AHashMap<(usize, usize), ()>) -> Set<(usize, usize)>;

/// `AHashMap::new` for a set of (category, option) positions: an empty set.
#[verifier::external_body]
pub fn selected_options_new() -> (res: AHashMap<(usize, usize), ()>)
    ensures
        selected_options(res).is_empty(),
{
    AHashMap::new()
}

/// `AHashMap::contains_key`: whether `key` is in the set.
#[verifier::external_body]
pub fn selected_options_contains(m: &AHashMap<(usize, usize), ()>, key: (usize, usize)) -> (res: bool)
    ensures
        res == selected_options(*m).contains(key),
{
    m.contains_key(&key)
}

/// `AHashMap::insert`: adds `key` to the set.
#[verifier::external_body]
pub fn selected_options_insert(m: &mut AHashMap<(usize, usize), ()>, key: (usize, usize))
    ensures
        selected_options(*final(m)) == selected_options(*old(m)).insert(key),
{
    m.insert(key, ());
}

/// `AHashMap::remove`: takes `key` out of the set.
#[verifier::external_body]
pub fn selected_options_remove(m: &mut AHashMap<(usize, usize), ()>, key: (usize, usize))
    ensures
        selected_options(*final(m)) == selected_options(*old(m)).remove(key),
{
    m.remove(&key);
}

/// `AHashMap::keys`: every key once; the order, which follows the seeded hasher, is left unsaid.
#[verifier::external_body]
pub fn selected_options_keys(m: &AHashMap<(usize, usize), ()>) -> (res: Vec<(usize, usize)>)
    ensures
        forall|k: (usize, usize)| #[trigger] selected_options(*m).contains(k) <==> res@.contains(k),
        res@.no_duplicates(),
{
    m.keys().copied().collect()
}

/// The keys of a map from tag numbers to nothing, used as a set.
pub uninterp spec fn selected_tags(m: AHashMap<usize, ()>) -> Set<usize>;

/// `AHashMap::new` for a set of tag numbers: an empty set.
#[verifier::external_body]
pub fn selected_tags_new() -> (res: AHashMap<usize, ()>)
    ensures
        selected_tags(res).is_empty(),
{
    AHashMap::new()
}

/// `AHashMap::contains_key`: whether `key` is in the set.
#[verifier::external_body]
pub fn selected_tags_contains(m: &AHashMap<usize, ()>, key: usize) -> (res: bool)
    ensures
        res == selected_tags(*m).contains(key),
{
    m.contains_key(&key)
}

/// `AHashMap::insert`: adds `key` to the set.
#[verifier::external_body]
pub fn selected_tags_insert(m: &mut AHashMap<usize, ()>, key: usize)
    ensures
        selected_tags(*final(m)) == selected_tags(*old(m)).insert(key),
{
    m.insert(key, ());
}

/// `AHashMap::remove`: takes `key` out of the set.
#[verifier::external_body]
pub fn selected_tags_remove(m: &mut AHashMap<usize, ()>, key: usize)
    ensures
        selected_tags(*final(m)) == selected_tags(*old(m)).remove(key),
{
    m.remove(&key);
}

/// `AHashMap::keys`: every key once; the order, which follows the seeded hasher, is left unsaid.
#[verifier::external_body]
pub fn selected_tags_keys(m: &AHashMap<usize, ()>) -> (res: Vec<usize>)
    ensures
        forall|k: usize| #[trigger] selected_tags(*m).contains(k) <==> res@.contains(k),
        res@.no_duplicates(),
{
    m.keys().copied().collect()
}

} // verus!
