use vstd::prelude::*;

use super::primitives::{encode_varint};
use super::traits::{reads_as, seq_result, Decoding, Deserializable, RoundTrip, Serializable};

verus! {

/// The written forms of `items`, one after the other.
pub open spec fn serialize_items<T: Serializable>(items: Seq<T::V>) -> Seq<u8>
    decreases items.len(),
{
    if items.len() == 0 {
        Seq::empty()
    } else {
        T::spec_serialize(items[0]) + serialize_items::<T>(items.drop_first())
    }
}

/// Reading `count` values one after the other.
pub open spec fn parse_items<T: Deserializable>(input: Seq<u8>, count: nat) -> Decoding<Seq<T::V>>
    decreases count,
{
    if count == 0 {
        Decoding::Complete(Seq::empty(), 0)
    } else {
        match T::spec_deserialize(input) {
            Decoding::Complete(v, n) => match parse_items::<T>(input.skip(n as int), (count - 1) as nat) {
                Decoding::Complete(vs, m) => Decoding::Complete(seq![v] + vs, n + m),
                Decoding::Rejected => Decoding::Rejected,
                Decoding::Aborts => Decoding::Aborts,
            },
            Decoding::Rejected => Decoding::Rejected,
            Decoding::Aborts => Decoding::Aborts,
        }
    }
}

/// A reading that starts with the values `done` and `n` bytes, then goes on
/// as `tail`.
pub open spec fn after_prefix<V>(done: Seq<V>, n: nat, tail: Decoding<Seq<V>>) -> Decoding<Seq<V>> {
    match tail {
        Decoding::Complete(vs, m) => Decoding::Complete(done + vs, n + m),
        Decoding::Rejected => Decoding::Rejected,
        Decoding::Aborts => Decoding::Aborts,
    }
}

/// Two prefixes in a row are one prefix.
pub proof fn lemma_after_prefix_twice<V>(a: Seq<V>, n: nat, b: Seq<V>, m: nat, tail: Decoding<Seq<V>>)
    ensures
        after_prefix(a, n, after_prefix(b, m, tail)) == after_prefix(a + b, n + m, tail),
{
    match tail {
        Decoding::Complete(vs, k) => {
            assert(a + (b + vs) =~= (a + b) + vs);
        },
        _ => {},
    }
}

pub proof fn lemma_serialize_items_push<T: Serializable>(items: Seq<T::V>, x: T::V)
    ensures
        serialize_items::<T>(items.push(x)) == serialize_items::<T>(items) + T::spec_serialize(x),
    decreases items.len(),
{
    if items.len() == 0 {
        assert(items.push(x).drop_first() == Seq::<T::V>::empty());
        assert(serialize_items::<T>(Seq::<T::V>::empty()) == Seq::<u8>::empty());
        assert(T::spec_serialize(x) + Seq::<u8>::empty() == T::spec_serialize(x));
    } else {
        lemma_serialize_items_push::<T>(items.drop_first(), x);
        assert(items.push(x).drop_first() == items.drop_first().push(x));
    }
}

/// Writes each item in turn.
pub fn serialize_each<T: Serializable>(items: &Vec<T>, output: &mut Vec<u8>)
    ensures
        final(output)@ == old(output)@ + serialize_items::<T>(items.deep_view()),
{
    let ghost start = output@;
    let n = items.len();
    let mut i: usize = 0;
    while i < n
        invariant
            n == items@.len(),
            i <= n,
            output@ == start + serialize_items::<T>(items.deep_view().take(i as int)),
        decreases n - i,
    {
        proof {
            lemma_serialize_items_push::<T>(items.deep_view().take(i as int), items.deep_view()[i as int]);
            assert(items.deep_view().take(i + 1) == items.deep_view().take(i as int).push(
                items.deep_view()[i as int],
            ));
        }
        items[i].serialize(output);
        i = i + 1;
    }
    assert(items.deep_view().take(n as int) == items.deep_view());
}

impl<T: Serializable> Serializable for Vec<T> {
    open spec fn spec_serialize(v: Seq<T::V>) -> Seq<u8> {
        encode_varint(v.len()) + serialize_items::<T>(v)
    }

    fn serialize(&self, output: &mut Vec<u8>) {
        self.len().serialize(output);
        serialize_each(self, output);
    }
}

/// Reads `count` values one after the other from the front of `input`.
pub fn deserialize_each<T: Deserializable>(input: &[u8], count: usize) -> (res: Option<
    (&[u8], Vec<T>),
>)
    ensures
        reads_as::<Vec<T>>(parse_items::<T>(input@, count as nat), input@, seq_result(res)),
{
    let ghost s0 = input@;
    let mut out: Vec<T> = Vec::new();
    let mut cur = input;
    let mut i: usize = 0;
    while i < count
        invariant
            i <= count,
            out@.len() == i,
            s0 == input@,
            cur@.len() <= s0.len(),
            cur@ == s0.skip(s0.len() - cur@.len()),
            parse_items::<T>(s0, count as nat) == after_prefix(
                out.deep_view(),
                (s0.len() - cur@.len()) as nat,
                parse_items::<T>(cur@, (count - i) as nat),
            ),
        decreases count - i,
    {
        let ghost before = cur@;
        let ghost done = out.deep_view();
        match T::deserialize(cur) {
            Some((next, item)) => {
                proof {
                    let n = before.len() - next@.len();
                    assert(next@ == s0.skip(s0.len() - next@.len()));
                    assert(out.deep_view().push(item.deep_view()) == done + seq![item.deep_view()]);
                }
                out.push(item);
                proof {
                    assert(out.deep_view() == done.push(item.deep_view()));
                    assert(done + (seq![item.deep_view()] + Seq::<T::V>::empty()) == out.deep_view()
                        + Seq::<T::V>::empty());
                    match parse_items::<T>(next@, (count - i - 1) as nat) {
                        Decoding::Complete(vs, m) => {
                            assert(done + (seq![item.deep_view()] + vs) == out.deep_view() + vs);
                        },
                        _ => {},
                    }
                }
                cur = next;
            },
            None => {
                return None;
            },
        }
        i = i + 1;
    }
    proof {
        assert(out.deep_view() + Seq::<T::V>::empty() == out.deep_view());
    }
    Some((cur, out))
}

impl<T: Deserializable> Deserializable for Vec<T> {
    open spec fn spec_deserialize(input: Seq<u8>) -> Decoding<Seq<T::V>> {
        match usize::spec_deserialize(input) {
            Decoding::Complete(len, n) => after_prefix(
                Seq::empty(),
                n,
                parse_items::<T>(input.skip(n as int), len as nat),
            ),
            Decoding::Rejected => Decoding::Rejected,
            Decoding::Aborts => Decoding::Aborts,
        }
    }

    fn deserialize(input: &[u8]) -> (res: Option<(&[u8], Vec<T>)>) {
        let (rest, len) = usize::deserialize(input)?;
        let ghost n = (input@.len() - rest@.len()) as nat;
        proof {
            match parse_items::<T>(rest@, len as nat) {
                Decoding::Complete(vs, m) => {
                    assert(Seq::<T::V>::empty() + vs == vs);
                },
                _ => {},
            }
        }
        let (after, items) = deserialize_each(rest, len)?;
        proof {
            assert(after@ == input@.skip(n + (rest@.len() - after@.len())));
        }
        Some((after, items))
    }
}

/// The items of a sequence all round trip.
pub open spec fn all_round_trip<T: RoundTrip>(items: Seq<<T as DeepView>::V>) -> bool {
    forall|i: int| 0 <= i < items.len() ==> T::round_trips(#[trigger] items[i])
}

pub proof fn lemma_items_round_trip<T: RoundTrip>(items: Seq<<T as DeepView>::V>, rest: Seq<u8>)
    requires
        all_round_trip::<T>(items),
    ensures
        parse_items::<T>(serialize_items::<T>(items) + rest, items.len()) == Decoding::Complete(
            items,
            serialize_items::<T>(items).len(),
        ),
    decreases items.len(),
{
    if items.len() > 0 {
        let tail = items.drop_first();
        assert(T::round_trips(items[0]));
        assert forall|i: int| 0 <= i < tail.len() implies T::round_trips(#[trigger] tail[i]) by {
            assert(tail[i] == items[i + 1]);
        }
        lemma_items_round_trip::<T>(tail, rest);
        let first = T::spec_serialize(items[0]);
        let s = serialize_items::<T>(items) + rest;
        assert(s == first + (serialize_items::<T>(tail) + rest));
        T::lemma_round_trip(items[0], serialize_items::<T>(tail) + rest);
        assert(s.skip(first.len() as int) == serialize_items::<T>(tail) + rest);
        assert(seq![items[0]] + tail == items);
        assert((items.len() - 1) as nat == tail.len());
        assert(T::spec_deserialize(s) == Decoding::Complete(items[0], first.len()));
        assert(serialize_items::<T>(items).len() == first.len() + serialize_items::<T>(tail).len());
    } else {
        assert(serialize_items::<T>(items) + rest == rest);
        assert(items =~= Seq::<<T as DeepView>::V>::empty());
    }
}

impl<T: RoundTrip> RoundTrip for Vec<T> {
    open spec fn round_trips(v: Seq<<T as DeepView>::V>) -> bool {
        &&& v.len() <= usize::MAX
        &&& all_round_trip::<T>(v)
    }

    proof fn lemma_round_trip(v: Seq<<T as DeepView>::V>, rest: Seq<u8>) {
        let len = encode_varint(v.len());
        let body = serialize_items::<T>(v);
        let s = Self::spec_serialize(v) + rest;
        assert(s == len + (body + rest));
        <usize as RoundTrip>::lemma_round_trip(v.len() as usize, body + rest);
        lemma_items_round_trip::<T>(v, rest);
        assert(s.skip(len.len() as int) == body + rest);
        assert(Seq::<<T as DeepView>::V>::empty() + v == v);
    }
}

/// The map that a list of entries makes when inserted in order (a later
/// entry replaces an earlier one with the same key).
pub open spec fn pairs_to_map<A, B>(pairs: Seq<(A, B)>) -> Map<A, B>
    decreases pairs.len(),
{
    if pairs.len() == 0 {
        Map::empty()
    } else {
        pairs_to_map(pairs.drop_last()).insert(pairs.last().0, pairs.last().1)
    }
}

/// `pairs` lists the entries of `m`, each key once.
pub open spec fn lists_map<A, B>(pairs: Seq<(A, B)>, m: Map<A, B>) -> bool {
    &&& forall|i: int, j: int| 0 <= i < j < pairs.len() ==> #[trigger] pairs[i].0 != #[trigger] pairs[j].0
    &&& pairs_to_map(pairs) == m
}

/// The entries of a map keep their keys distinct when listed: every key of
/// the listing is in the map with its value.
pub proof fn lemma_pairs_to_map_contains<A, B>(pairs: Seq<(A, B)>)
    requires
        forall|i: int, j: int| 0 <= i < j < pairs.len() ==> #[trigger] pairs[i].0 != #[trigger] pairs[j].0,
    ensures
        forall|i: int| 0 <= i < pairs.len() ==> pairs_to_map(pairs).contains_key(#[trigger] pairs[i].0)
            && pairs_to_map(pairs)[pairs[i].0] == pairs[i].1,
        forall|k: A| #[trigger] pairs_to_map(pairs).contains_key(k) ==> exists|i: int|
            0 <= i < pairs.len() && pairs[i].0 == k,
    decreases pairs.len(),
{
    if pairs.len() > 0 {
        let init = pairs.drop_last();
        lemma_pairs_to_map_contains(init);
        assert forall|i: int| 0 <= i < pairs.len() implies pairs_to_map(pairs).contains_key(
            #[trigger] pairs[i].0,
        ) && pairs_to_map(pairs)[pairs[i].0] == pairs[i].1 by {
            if i < pairs.len() - 1 {
                assert(init[i] == pairs[i]);
                assert(pairs[i].0 != pairs[pairs.len() - 1].0);
            }
        }
        assert forall|k: A| #[trigger] pairs_to_map(pairs).contains_key(k) implies exists|i: int|
            0 <= i < pairs.len() && pairs[i].0 == k by {
            if k != pairs.last().0 {
                assert(pairs_to_map(init).contains_key(k));
                let i = choose|i: int| 0 <= i < init.len() && init[i].0 == k;
                assert(pairs[i] == init[i]);
            } else {
                assert(pairs[pairs.len() - 1].0 == k);
            }
        }
    }
}

} // verus!
