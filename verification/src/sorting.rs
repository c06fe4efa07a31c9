//! Stable ordering of positions by keys that are compared item by item.
use vstd::prelude::*;

use crate::serialize::collections::chars_of;
use vstd::multiset::Multiset;

verus! {

/// `a` comes before `b` in dictionary order.
pub open spec fn lex_less(a: Seq<u32>, b: Seq<u32>) -> bool
    decreases a.len(),
{
    if a.len() == 0 {
        b.len() > 0
    } else if b.len() == 0 {
        false
    } else if a[0] != b[0] {
        a[0] < b[0]
    } else {
        lex_less(a.drop_first(), b.drop_first())
    }
}

/// A key that must come strictly before key `b`: smaller, or larger when
/// the order is descending.
pub open spec fn precedes(a: Seq<u32>, b: Seq<u32>, descending: bool) -> bool {
    if descending {
        lex_less(b, a)
    } else {
        lex_less(a, b)
    }
}

/// Puts `x` into `sorted` after every position whose key `x`'s key does
/// not strictly precede.
pub open spec fn insert_sorted(sorted: Seq<usize>, x: usize, keys: Seq<Seq<u32>>, descending: bool) -> Seq<usize>
    decreases sorted.len(),
{
    if sorted.len() == 0 {
        seq![x]
    } else if !precedes(keys[x as int], keys[sorted.last() as int], descending) {
        sorted.push(x)
    } else {
        insert_sorted(sorted.drop_last(), x, keys, descending).push(sorted.last())
    }
}

/// The positions in order of their keys; positions with equal keys keep
/// their order (a stable sort).
pub open spec fn sort_positions(s: Seq<usize>, keys: Seq<Seq<u32>>, descending: bool) -> Seq<usize>
    decreases s.len(),
{
    if s.len() == 0 {
        Seq::empty()
    } else {
        insert_sorted(sort_positions(s.drop_last(), keys, descending), s.last(), keys, descending)
    }
}

/// Whether `a` comes before `b` in dictionary order.
pub fn lex_less_exec(a: &Vec<u32>, b: &Vec<u32>) -> (res: bool)
    ensures
        res == lex_less(a@, b@),
{
    let mut i: usize = 0;
    assert(a@.skip(0) =~= a@ && b@.skip(0) =~= b@);
    while i < a.len() && i < b.len()
        invariant
            i <= a@.len(),
            i <= b@.len(),
            lex_less(a@, b@) == lex_less(a@.skip(i as int), b@.skip(i as int)),
        decreases a@.len() - i,
    {
        if a[i] != b[i] {
            assert(a@.skip(i as int)[0] == a@[i as int]);
            assert(b@.skip(i as int)[0] == b@[i as int]);
            return a[i] < b[i];
        }
        assert(a@.skip(i as int).drop_first() =~= a@.skip(i + 1));
        assert(b@.skip(i as int).drop_first() =~= b@.skip(i + 1));
        i = i + 1;
    }
    i < b.len()
}

/// Whether the key of position `a` must come strictly before that of `b`.
fn key_precedes(keys: &Vec<Vec<u32>>, a: usize, b: usize, descending: bool) -> (res: bool)
    requires
        a < keys@.len(),
        b < keys@.len(),
    ensures
        res == precedes(keys.deep_view()[a as int], keys.deep_view()[b as int], descending),
{
    assert(keys.deep_view()[a as int] == keys@[a as int]@);
    assert(keys.deep_view()[b as int] == keys@[b as int]@);
    if descending {
        lex_less_exec(&keys[b], &keys[a])
    } else {
        lex_less_exec(&keys[a], &keys[b])
    }
}

/// Inserting where the scan from the end stops is the specified insertion.
proof fn lemma_insert_at(sorted: Seq<usize>, x: usize, keys: Seq<Seq<u32>>, descending: bool, j: int)
    requires
        0 <= j <= sorted.len(),
        forall|m: int| j <= m < sorted.len() ==> precedes(keys[x as int], #[trigger] keys[sorted[m] as int], descending),
        j > 0 ==> !precedes(keys[x as int], keys[sorted[j - 1] as int], descending),
    ensures
        insert_sorted(sorted, x, keys, descending) == sorted.insert(j, x),
    decreases sorted.len(),
{
    if sorted.len() == 0 {
        assert(sorted.insert(j, x) =~= seq![x]);
    } else if j == sorted.len() {
        assert(sorted.insert(j, x) =~= sorted.push(x));
    } else {
        assert(precedes(keys[x as int], keys[sorted[sorted.len() - 1] as int], descending));
        lemma_insert_at(sorted.drop_last(), x, keys, descending, j);
        assert(sorted.drop_last().insert(j, x).push(sorted.last()) =~= sorted.insert(j, x));
    }
}

/// The positions in `s` in order of their keys, ties in their order in `s`.
pub fn sort_positions_exec(s: &Vec<usize>, keys: &Vec<Vec<u32>>, descending: bool) -> (res: Vec<usize>)
    requires
        forall|i: int| 0 <= i < s@.len() ==> #[trigger] s@[i] < keys@.len(),
    ensures
        res@ == sort_positions(s@, keys.deep_view(), descending),
{
    let ghost kv = keys.deep_view();
    let mut res: Vec<usize> = Vec::new();
    let mut i: usize = 0;
    while i < s.len()
        invariant
            i <= s@.len(),
            kv == keys.deep_view(),
            forall|k: int| 0 <= k < s@.len() ==> #[trigger] s@[k] < keys@.len(),
            res@ == sort_positions(s@.take(i as int), kv, descending),
            forall|k: int| 0 <= k < res@.len() ==> #[trigger] res@[k] < keys@.len(),
            res@.len() == i,
        decreases s@.len() - i,
    {
        let x = s[i];
        let mut j = res.len();
        while j > 0 && key_precedes(keys, x, res[j - 1], descending)
            invariant
                j <= res@.len(),
                x < keys@.len(),
                kv == keys.deep_view(),
                forall|k: int| 0 <= k < res@.len() ==> #[trigger] res@[k] < keys@.len(),
                forall|m: int| j <= m < res@.len() ==> precedes(kv[x as int], #[trigger] kv[res@[m] as int], descending),
            decreases j,
        {
            j = j - 1;
        }
        proof {
            assert(kv[x as int] == keys@[x as int]@);
            if j > 0 {
                assert(kv[res@[j - 1] as int] == keys@[res@[j - 1] as int]@);
            }
            lemma_insert_at(res@, x, kv, descending, j as int);
            assert(s@.take(i + 1).drop_last() =~= s@.take(i as int));
        }
        res.insert(j, x);
        i = i + 1;
    }
    assert(s@.take(i as int) =~= s@);
    res
}

/// The key of a text: its characters as numbers.
pub open spec fn text_key(s: Seq<char>) -> Seq<u32> {
    s.map_values(|c: char| c as u32)
}

/// The key of a text: its characters as numbers.
pub fn text_key_exec(s: &str) -> (res: Vec<u32>)
    ensures
        res@ == text_key(s@),
{
    let chars = chars_of(s);
    let mut out: Vec<u32> = Vec::new();
    let mut i: usize = 0;
    while i < chars.len()
        invariant
            i <= chars@.len(),
            chars@ == s@,
            out@ == text_key(s@).take(i as int),
        decreases chars@.len() - i,
    {
        out.push(chars[i] as u32);
        i = i + 1;
        assert(out@ =~= text_key(s@).take(i as int));
    }
    assert(text_key(s@).take(i as int) =~= text_key(s@));
    out
}

/// `s` is in order of the keys: no position is strictly preceded by a later
/// one.
pub open spec fn sorted_by(s: Seq<usize>, keys: Seq<Seq<u32>>, descending: bool) -> bool {
    forall|i: int, j: int|
        0 <= i < j < s.len() ==> !precedes(keys[#[trigger] s[j] as int], keys[#[trigger] s[i] as int], descending)
}

/// Dictionary order is a strict total order.
pub proof fn lemma_lex_order(a: Seq<u32>, b: Seq<u32>, c: Seq<u32>)
    ensures
        !lex_less(a, a),
        !(lex_less(a, b) && lex_less(b, a)),
        lex_less(a, b) || lex_less(b, a) || a =~= b,
        lex_less(a, b) && lex_less(b, c) ==> lex_less(a, c),
    decreases a.len(),
{
    if a.len() > 0 {
        if b.len() > 0 && c.len() > 0 {
            lemma_lex_order(a.drop_first(), b.drop_first(), c.drop_first());
            if a[0] == b[0] && !lex_less(a.drop_first(), b.drop_first()) && !lex_less(b.drop_first(), a.drop_first()) {
                assert(a =~= seq![a[0]] + a.drop_first());
                assert(b =~= seq![b[0]] + b.drop_first());
            }
        } else if b.len() > 0 {
            lemma_lex_order(a.drop_first(), b.drop_first(), a.drop_first());
            if a[0] == b[0] && !lex_less(a.drop_first(), b.drop_first()) && !lex_less(b.drop_first(), a.drop_first()) {
                assert(a =~= seq![a[0]] + a.drop_first());
                assert(b =~= seq![b[0]] + b.drop_first());
            }
        } else {
            lemma_lex_order(a.drop_first(), a.drop_first(), a.drop_first());
        }
    }
}

/// Not being strictly preceded is transitive: keys in order stay in order.
proof fn lemma_not_precedes_trans(x: Seq<u32>, y: Seq<u32>, z: Seq<u32>, descending: bool)
    requires
        !precedes(y, x, descending),
        !precedes(z, y, descending),
    ensures
        !precedes(z, x, descending),
{
    lemma_lex_order(x, y, z);
    lemma_lex_order(z, x, y);
    lemma_lex_order(y, z, x);
    lemma_lex_order(x, z, y);
    lemma_lex_order(z, y, x);
    lemma_lex_order(y, x, z);
}

/// Inserting into a sorted list keeps it sorted and adds exactly the
/// inserted position.
proof fn lemma_insert_sorted(sorted: Seq<usize>, x: usize, keys: Seq<Seq<u32>>, descending: bool)
    requires
        sorted_by(sorted, keys, descending),
    ensures
        sorted_by(insert_sorted(sorted, x, keys, descending), keys, descending),
        insert_sorted(sorted, x, keys, descending).to_multiset() == sorted.to_multiset().insert(x),
    decreases sorted.len(),
{
    broadcast use vstd::seq_lib::group_to_multiset_ensures;

    let r = insert_sorted(sorted, x, keys, descending);
    if sorted.len() == 0 {
        assert(seq![x] =~= Seq::<usize>::empty().push(x));
        assert(Seq::<usize>::empty().to_multiset() =~= Multiset::<usize>::empty());
    } else if !precedes(keys[x as int], keys[sorted.last() as int], descending) {
        assert forall|i: int, j: int| 0 <= i < j < r.len() implies !precedes(
            keys[#[trigger] r[j] as int],
            keys[#[trigger] r[i] as int],
            descending,
        ) by {
            if j == sorted.len() && i < sorted.len() - 1 {
                assert(r[i] == sorted[i]);
                lemma_not_precedes_trans(
                    keys[sorted[i] as int],
                    keys[sorted.last() as int],
                    keys[x as int],
                    descending,
                );
            } else if j < sorted.len() {
                assert(r[i] == sorted[i] && r[j] == sorted[j]);
            }
        }
    } else {
        let init = sorted.drop_last();
        let last = sorted.last();
        assert forall|i: int, j: int| 0 <= i < j < init.len() implies !precedes(
            keys[#[trigger] init[j] as int],
            keys[#[trigger] init[i] as int],
            descending,
        ) by {
            assert(init[i] == sorted[i] && init[j] == sorted[j]);
        }
        lemma_insert_sorted(init, x, keys, descending);
        let q = insert_sorted(init, x, keys, descending);
        assert(sorted =~= init.push(last));
        assert forall|e: usize| #[trigger] q.contains(e) implies !precedes(keys[last as int], keys[e as int], descending) by {
            assert(q.to_multiset().count(e) > 0);
            if e != x {
                assert(init.to_multiset().count(e) > 0);
                let k = choose|k: int| 0 <= k < init.len() && init[k] == e;
                assert(sorted[k] == e);
                assert(sorted[sorted.len() - 1] == last);
            } else {
                lemma_lex_order(keys[x as int], keys[last as int], keys[x as int]);
            }
        }
        assert forall|i: int, j: int| 0 <= i < j < r.len() implies !precedes(
            keys[#[trigger] r[j] as int],
            keys[#[trigger] r[i] as int],
            descending,
        ) by {
            if j == q.len() {
                assert(q.contains(r[i]));
            } else {
                assert(r[i] == q[i] && r[j] == q[j]);
            }
        }
    }
}

/// Sorting gives the positions in order of their keys, each as often as in
/// the input.
pub proof fn lemma_sort_positions(s: Seq<usize>, keys: Seq<Seq<u32>>, descending: bool)
    ensures
        sorted_by(sort_positions(s, keys, descending), keys, descending),
        sort_positions(s, keys, descending).to_multiset() == s.to_multiset(),
    decreases s.len(),
{
    broadcast use vstd::seq_lib::group_to_multiset_ensures;

    if s.len() == 0 {
        assert(Seq::<usize>::empty().to_multiset() =~= Multiset::<usize>::empty());
    } else {
        lemma_sort_positions(s.drop_last(), keys, descending);
        lemma_insert_sorted(sort_positions(s.drop_last(), keys, descending), s.last(), keys, descending);
        assert(s =~= s.drop_last().push(s.last()));
    }
}

} // verus!
