//! Sets of positions written as a sorted list of differences.
use vstd::prelude::*;
use vstd::relations::{sorted_by, total_ordering};

use super::primitives::{encode_varint};
use super::traits::{reads_as, seq_result, Decoding, Deserializable, RoundTrip, Serializable};
use super::vectors::{
    after_prefix, all_round_trip, deserialize_each, lemma_items_round_trip, parse_items, serialize_each,
    serialize_items,
};

verus! {

broadcast use vstd::seq_lib::group_to_multiset_ensures;

pub open spec fn usize_leq() -> spec_fn(usize, usize) -> bool {
    |a: usize, b: usize| a <= b
}

/// `xs` in ascending order.
pub open spec fn sorted_usizes(xs: Seq<usize>) -> Seq<usize> {
    xs.sort_by(usize_leq())
}

pub open spec fn is_ascending(xs: Seq<usize>) -> bool {
    forall|i: int, j: int| 0 <= i < j < xs.len() ==> xs[i] <= xs[j]
}

/// The differences between neighbours of `xs`, the first one taken from 0.
pub open spec fn deltas(xs: Seq<usize>) -> Seq<usize> {
    Seq::new(xs.len(), |i: int| if i == 0 { xs[0] } else { (xs[i] - xs[i - 1]) as usize })
}

/// The running sums of `ds`.
pub open spec fn running_sums(ds: Seq<usize>) -> Seq<int>
    decreases ds.len(),
{
    if ds.len() == 0 {
        Seq::empty()
    } else {
        let prev = running_sums(ds.drop_last());
        prev.push(if prev.len() == 0 { 0 } else { prev.last() } + ds.last())
    }
}

/// The written form of an ascending list: its length, then its differences.
pub open spec fn spec_serialize_ascending(xs: Seq<usize>) -> Seq<u8> {
    encode_varint(xs.len()) + serialize_items::<usize>(deltas(xs))
}

/// What reading a difference list gives: the running sums of the
/// differences. A sum past `usize::MAX` is malformed.
pub open spec fn spec_deserialize_ascending(input: Seq<u8>) -> Decoding<Seq<usize>> {
    match Vec::<usize>::spec_deserialize(input) {
        Decoding::Complete(ds, n) => {
            let sums = running_sums(ds);
            if forall|i: int| 0 <= i < sums.len() ==> #[trigger] sums[i] <= usize::MAX {
                Decoding::Complete(sums.map_values(|v: int| v as usize), n)
            } else {
                Decoding::Aborts
            }
        },
        Decoding::Rejected => Decoding::Rejected,
        Decoding::Aborts => Decoding::Aborts,
    }
}

proof fn lemma_usize_leq_total()
    ensures
        total_ordering(usize_leq()),
{
}

/// The ascending order of `xs` is ascending and has the same elements.
pub proof fn lemma_sorted_usizes(xs: Seq<usize>)
    ensures
        is_ascending(sorted_usizes(xs)),
        sorted_usizes(xs).len() == xs.len(),
        sorted_usizes(xs).to_multiset() == xs.to_multiset(),
{
    lemma_usize_leq_total();
    xs.lemma_sort_by_ensures(usize_leq());
    let ys = sorted_usizes(xs);
    vstd::seq_lib::to_multiset_len(xs);
    vstd::seq_lib::to_multiset_len(ys);
    assert forall|i: int, j: int| 0 <= i < j < ys.len() implies ys[i] <= ys[j] by {
        assert(usize_leq()(ys[i], ys[j]));
    }
}

/// Sorts positions in ascending order.
pub fn sort_positions(v: Vec<usize>) -> (res: Vec<usize>)
    ensures
        res@ == sorted_usizes(v@),
{
    let mut out: Vec<usize> = Vec::new();
    let n = v.len();
    let mut i: usize = 0;
    while i < n
        invariant
            n == v@.len(),
            i <= n,
            is_ascending(out@),
            out@.to_multiset() == v@.take(i as int).to_multiset(),
        decreases n - i,
    {
        let x = v[i];
        let mut pos: usize = 0;
        while pos < out.len() && out[pos] <= x
            invariant
                pos <= out@.len(),
                forall|k: int| 0 <= k < pos ==> out@[k] <= x,
            decreases out@.len() - pos,
        {
            pos = pos + 1;
        }
        let ghost before = out@;
        out.insert(pos, x);
        proof {
            vstd::seq_lib::to_multiset_insert(before, pos as int, x);
            assert(v@.take(i + 1) == v@.take(i as int).push(x));
            vstd::seq_lib::to_multiset_build(v@.take(i as int), x);
            assert forall|a: int, b: int| 0 <= a < b < out@.len() implies out@[a] <= out@[b] by {
                if b < pos {
                    assert(out@[a] == before[a] && out@[b] == before[b]);
                } else if b == pos {
                    assert(out@[a] == before[a]);
                } else if a == pos {
                    assert(out@[b] == before[b - 1]);
                    if b - 1 > pos as int {
                        assert(before[pos as int] <= before[b - 1]);
                    }
                } else if a < pos {
                    assert(out@[a] == before[a] && out@[b] == before[b - 1]);
                } else {
                    assert(out@[a] == before[a - 1] && out@[b] == before[b - 1]);
                }
            }
        }
        i = i + 1;
    }
    proof {
        assert(v@.take(n as int) == v@);
        lemma_usize_leq_total();
        v@.lemma_sort_by_ensures(usize_leq());
        assert(sorted_by(out@, usize_leq()));
        vstd::seq_lib::lemma_sorted_unique(out@, sorted_usizes(v@), usize_leq());
    }
    out
}

/// The differences of an ascending list.
fn compute_deltas(xs: &Vec<usize>) -> (res: Vec<usize>)
    requires
        is_ascending(xs@),
    ensures
        res@ == deltas(xs@),
{
    let mut out: Vec<usize> = Vec::new();
    let n = xs.len();
    let mut i: usize = 0;
    while i < n
        invariant
            n == xs@.len(),
            i <= n,
            is_ascending(xs@),
            out@ == deltas(xs@).take(i as int),
        decreases n - i,
    {
        let d = if i == 0 {
            xs[0]
        } else {
            xs[i] - xs[i - 1]
        };
        out.push(d);
        i = i + 1;
        assert(out@ == deltas(xs@).take(i as int));
    }
    assert(deltas(xs@).take(n as int) == deltas(xs@));
    out
}

/// Writes the positions as a sorted difference list.
pub fn serialize(input: Vec<usize>, output: &mut Vec<u8>)
    ensures
        final(output)@ == old(output)@ + spec_serialize_ascending(sorted_usizes(input@)),
{
    let content = sort_positions(input);
    proof {
        lemma_sorted_usizes(input@);
    }
    content.len().serialize(output);
    let ds = compute_deltas(&content);
    serialize_each(&ds, output);
    proof {
        assert(ds.deep_view() == ds@);
    }
}

/// The running sums of a list's differences give the list back.
proof fn lemma_running_sums_of_deltas(xs: Seq<usize>)
    requires
        is_ascending(xs),
    ensures
        running_sums(deltas(xs)) == xs.map_values(|v: usize| v as int),
    decreases xs.len(),
{
    if xs.len() > 0 {
        let init = xs.drop_last();
        lemma_running_sums_of_deltas(init);
        assert(deltas(xs).drop_last() == deltas(init));
        let prev = running_sums(deltas(init));
        assert(prev.len() == init.len());
        if init.len() > 0 {
            assert(prev.last() == init.last());
        }
    }
}

/// Reads a sorted difference list and gives back the positions.
pub fn deserialize(input: &[u8]) -> (res: Option<(&[u8], Vec<usize>)>)
    ensures
        reads_as::<Vec<usize>>(spec_deserialize_ascending(input@), input@, seq_result(res)),
{
    let (rest, ds) = Vec::<usize>::deserialize(input)?;
    let ghost sums = running_sums(ds@);
    assert(ds.deep_view() == ds@);
    let n = ds.len();
    proof {
        lemma_running_sums_len(ds@);
    }
    let mut output: Vec<usize> = Vec::new();
    let mut previous: usize = 0;
    let mut i: usize = 0;
    while i < n
        invariant
            n == ds@.len(),
            i <= n,
            sums == running_sums(ds@),
            sums.len() == n,
            Vec::<usize>::spec_deserialize(input@) is Complete,
            Vec::<usize>::spec_deserialize(input@)->Complete_0 == ds@,
            forall|k: int| 0 <= k < i ==> #[trigger] sums[k] <= usize::MAX,
            output@ == sums.take(i as int).map_values(|v: int| v as usize),
            i > 0 ==> previous == sums[i - 1],
        decreases n - i,
    {
        proof {
            lemma_running_sums_index(ds@, i as int);
        }
        let parsed = ds[i];
        if i > 0 && parsed > usize::MAX - previous {
            assert(sums[i as int] > usize::MAX);
            assert(spec_deserialize_ascending(input@) is Aborts);
            return None;
        }
        let item = if i == 0 {
            parsed
        } else {
            parsed + previous
        };
        output.push(item);
        previous = item;
        i = i + 1;
        assert(output@ == sums.take(i as int).map_values(|v: int| v as usize));
    }
    assert(sums.take(n as int) == sums);
    assert(output.deep_view() =~= output@);
    Some((rest, output))
}

/// One entry of the running sums.
proof fn lemma_running_sums_index(ds: Seq<usize>, i: int)
    requires
        0 <= i < ds.len(),
    ensures
        running_sums(ds).len() == ds.len(),
        running_sums(ds)[i] == if i == 0 {
            ds[0] as int
        } else {
            running_sums(ds)[i - 1] + ds[i]
        },
    decreases ds.len(),
{
    lemma_running_sums_len(ds);
    if i < ds.len() - 1 {
        lemma_running_sums_index(ds.drop_last(), i);
        lemma_running_sums_len(ds.drop_last());
    } else if i > 0 {
        lemma_running_sums_len(ds.drop_last());
    } else {
        lemma_running_sums_len(ds.drop_last());
    }
}

proof fn lemma_running_sums_len(ds: Seq<usize>)
    ensures
        running_sums(ds).len() == ds.len(),
    decreases ds.len(),
{
    if ds.len() > 0 {
        lemma_running_sums_len(ds.drop_last());
    }
}

/// Writing positions as a difference list and reading them back gives them
/// in ascending order.
pub proof fn lemma_sequential_array_round_trip(xs: Seq<usize>, rest: Seq<u8>)
    requires
        xs.len() <= usize::MAX,
    ensures
        spec_deserialize_ascending(spec_serialize_ascending(sorted_usizes(xs)) + rest)
            == Decoding::Complete(
            sorted_usizes(xs),
            spec_serialize_ascending(sorted_usizes(xs)).len(),
        ),
{
    lemma_sorted_usizes(xs);
    let ys = sorted_usizes(xs);
    let ds = deltas(ys);
    assert(all_round_trip::<usize>(ds)) by {
        assert forall|i: int| 0 <= i < ds.len() implies <usize as RoundTrip>::round_trips(
            #[trigger] ds[i],
        ) by {
        }
    }
    assert(Vec::<usize>::spec_serialize(ds) == spec_serialize_ascending(ys));
    <Vec<usize> as RoundTrip>::lemma_round_trip(ds, rest);
    lemma_running_sums_of_deltas(ys);
    assert(running_sums(ds).map_values(|v: int| v as usize) == ys);
}

/// Sorting keeps every position below a bound below it.
pub proof fn lemma_sorted_usizes_bound(xs: Seq<usize>, bound: nat)
    requires
        forall|i: int| 0 <= i < xs.len() ==> #[trigger] xs[i] < bound,
    ensures
        forall|i: int| 0 <= i < sorted_usizes(xs).len() ==> #[trigger] sorted_usizes(xs)[i] < bound,
{
    lemma_sorted_usizes(xs);
    let ys = sorted_usizes(xs);
    assert forall|i: int| 0 <= i < ys.len() implies #[trigger] ys[i] < bound by {
        vstd::seq_lib::to_multiset_contains(ys, ys[i]);
        vstd::seq_lib::to_multiset_contains(xs, ys[i]);
        assert(ys.contains(ys[i]));
        let j = choose|j: int| 0 <= j < xs.len() && xs[j] == ys[i];
    }
}

} // verus!
