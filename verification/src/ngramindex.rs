//! A simpler n-gram index: for every gram, how often it was seen and, for
//! each of the `N` places after it, which grams followed it there and how
//! often.
use vstd::prelude::*;

use std::collections::HashMap;
use vstd::std_specs::iter::IteratorSpec;

use crate::ngram::feed::IndexFeed;

verus! {

broadcast use vstd::std_specs::hash::group_hash_axioms;

/// A gram and how often it followed another at one place.
pub struct GramOccurances {
    pub gram: char,
    pub occurances: usize,
}

/// What the index knows of one gram: for each of the `N` places after it,
/// the grams seen there with their counts, most frequent first; and how
/// often the gram itself was seen.
pub struct GramData<const N: usize> {
    pub followed_by: Vec<Vec<GramOccurances>>,
    pub occurances: usize,
}

/// The index: the data of each gram, by the gram's character code.
pub struct NGramIndex<const N: usize> {
    pub grams: HashMap<u32, GramData<N>>,
    pub data: Vec<usize>,
}

/// The counts of one gram while the index is built: the gram, how often it
/// was seen, and for each place after it the grams seen there (by character
/// code) with their counts.
pub struct GramStats {
    pub gram: char,
    pub occurrences: nat,
    pub followers: Seq<Map<u32, (char, nat)>>,
}

/// A gram not seen yet.
pub open spec fn fresh_stats(gram: char, n: nat) -> GramStats {
    GramStats { gram, occurrences: 0, followers: Seq::new(n, |j: int| Map::empty()) }
}

/// One more sighting of `c` among the counts `m`.
pub open spec fn bump(m: Map<u32, (char, nat)>, c: char) -> Map<u32, (char, nat)> {
    m.insert(
        c as u32,
        (
            c,
            if m.contains_key(c as u32) {
                m[c as u32].1 + 1
            } else {
                1
            },
        ),
    )
}

/// One sighting of `target`, followed at each place `j >= from` (of `n`) by
/// `after[j]`.
pub open spec fn record(m: Map<u32, GramStats>, target: char, after: Seq<char>, from: nat, n: nat) -> Map<
    u32,
    GramStats,
> {
    let prior = if m.contains_key(target as u32) {
        m[target as u32]
    } else {
        fresh_stats(target, n)
    };
    m.insert(
        target as u32,
        GramStats {
            gram: target,
            occurrences: prior.occurrences + 1,
            followers: Seq::new(
                n,
                |j: int|
                    if from <= j {
                        bump(prior.followers[j], after[j])
                    } else {
                        prior.followers[j]
                    },
            ),
        },
    )
}

/// The sightings that a text of grams makes, as (gram, the `n` grams after
/// the window, first place counted): every gram with the `n` grams after it
/// while there are `n` more; then each of the last `n` grams, counted at the
/// places after its own of the last window. A text of `n` grams or fewer
/// makes none.
pub open spec fn source_records(s: Seq<char>, n: nat) -> Seq<(char, Seq<char>, nat)> {
    if s.len() < n + 1 {
        Seq::empty()
    } else {
        Seq::new((s.len() - n) as nat, |t: int| (s[t], s.subrange(t + 1, t + 1 + n), 0nat)) + Seq::new(
            n,
            |i: int| (s[s.len() - n + i], s.subrange(s.len() - n, s.len() as int), (i + 1) as nat),
        )
    }
}

/// The counts after the sightings `recs`, in order.
pub open spec fn apply_records(m: Map<u32, GramStats>, recs: Seq<(char, Seq<char>, nat)>, n: nat) -> Map<
    u32,
    GramStats,
>
    decreases recs.len(),
{
    if recs.len() == 0 {
        m
    } else {
        let r = recs.last();
        record(apply_records(m, recs.drop_last(), n), r.0, r.1, r.2, n)
    }
}

/// The counts of a list of texts, read in order.
pub open spec fn feed_stats(sources: Seq<Seq<char>>, n: nat) -> Map<u32, GramStats>
    decreases sources.len(),
{
    if sources.len() == 0 {
        Map::empty()
    } else {
        apply_records(feed_stats(sources.drop_last(), n), source_records(sources.last(), n), n)
    }
}

/// The counts of a gram while the index is built.
struct HashGramData {
    gram: char,
    followed_by: Vec<HashMap<u32, (char, usize)>>,
    occurances: usize,
}

/// The model of a map of counts.
spec fn counts_view(h: Map<u32, (char, usize)>) -> Map<u32, (char, nat)> {
    h.map_values(|v: (char, usize)| (v.0, v.1 as nat))
}

spec fn hash_data_view(d: HashGramData) -> GramStats {
    GramStats {
        gram: d.gram,
        occurrences: d.occurances as nat,
        followers: d.followed_by@.map_values(|h: HashMap<u32, (char, usize)>| counts_view(h@)),
    }
}

spec fn stats_view(m: Map<u32, HashGramData>) -> Map<u32, GramStats> {
    m.map_values(|d: HashGramData| hash_data_view(d))
}

/// Every gram is stored under its own code and has `n` places of counts,
/// each count under the code of its gram, and no count is above `b`.
pub open spec fn stats_within(m: Map<u32, GramStats>, n: nat, b: nat) -> bool {
    forall|k: u32|
        #[trigger] m.contains_key(k) ==> {
            &&& m[k].gram as u32 == k
            &&& m[k].followers.len() == n
            &&& m[k].occurrences <= b
            &&& forall|j: int, g: u32|
                0 <= j < n && #[trigger] m[k].followers[j].contains_key(g) ==> m[k].followers[j][g].1 <= b
                    && m[k].followers[j][g].0 as u32 == g
        }
}

/// One more sighting of `c` in `counts`.
fn bump_exec(counts: &mut HashMap<u32, (char, usize)>, c: char, Ghost(b): Ghost<nat>)
    requires
        b < usize::MAX,
        forall|g: u32| #[trigger] old(counts)@.contains_key(g) ==> old(counts)@[g].1 <= b && old(counts)@[g].0 as u32 == g,
    ensures
        counts_view(final(counts)@) == bump(counts_view(old(counts)@), c),
        forall|g: u32| #[trigger] final(counts)@.contains_key(g) ==> final(counts)@[g].1 <= b + 1 && final(counts)@[g].0 as u32 == g,
{
    let code = c as u32;
    let count = match counts.get(&code) {
        Some(v) => v.1 + 1,
        None => 1,
    };
    counts.insert(code, (c, count));
    proof {
        assert(counts_view(counts@) =~= bump(counts_view(old(counts)@), c));
    }
}

impl HashGramData {
    /// A gram not seen yet.
    fn new(gram: char, n: usize) -> (res: HashGramData)
        ensures
            hash_data_view(res) == fresh_stats(gram, n as nat),
    {
        let mut followed_by: Vec<HashMap<u32, (char, usize)>> = Vec::new();
        let mut i: usize = 0;
        while i < n
            invariant
                i <= n,
                followed_by@.len() == i,
                forall|j: int| 0 <= j < i ==> (#[trigger] followed_by@[j])@ == Map::<u32, (char, usize)>::empty(),
            decreases n - i,
        {
            followed_by.push(HashMap::new());
            i = i + 1;
        }
        let res = HashGramData { gram, followed_by, occurances: 0 };
        assert(hash_data_view(res).followers =~= fresh_stats(gram, n as nat).followers) by {
            assert forall|j: int| 0 <= j < n implies #[trigger] counts_view(res.followed_by@[j]@) =~= Map::<
                u32,
                (char, nat),
            >::empty() by {}
        }
        res
    }
}

/// One sighting of `target`, followed at each place `j >= from` by
/// `after[j]`.
fn record_exec(
    grams: &mut HashMap<u32, HashGramData>,
    target: char,
    after: &Vec<char>,
    from: usize,
    n: usize,
    Ghost(b): Ghost<nat>,
)
    requires
        after@.len() == n,
        from <= n,
        b < usize::MAX,
        stats_within(stats_view(old(grams)@), n as nat, b),
    ensures
        stats_view(final(grams)@) == record(stats_view(old(grams)@), target, after@, from as nat, n as nat),
        stats_within(stats_view(final(grams)@), n as nat, b + 1),
{
    let ghost before = stats_view(grams@);
    let code = target as u32;
    let data = match grams.remove(&code) {
        Some(d) => d,
        None => HashGramData::new(target, n),
    };
    let ghost prior = hash_data_view(data);
    proof {
        if before.contains_key(code) {
            assert(prior == before[code]);
        }
    }
    assert(prior.followers.len() == n);
    assert(prior.occurrences <= b);
    let HashGramData { gram: _, followed_by, occurances } = data;
    let ghost old_fb = followed_by@;
    let mut updated: Vec<HashMap<u32, (char, usize)>> = Vec::new();
    let mut j: usize = 0;
    for counts in it: followed_by.into_iter()
        invariant
            it.seq() == old_fb,
            j == it.index(),
            old_fb.len() == n,
            from <= n,
            after@.len() == n,
            b < usize::MAX,
            prior.followers == old_fb.map_values(|h: HashMap<u32, (char, usize)>| counts_view(h@)),
            forall|i: int, g: u32|
                0 <= i < n && #[trigger] prior.followers[i].contains_key(g) ==> prior.followers[i][g].1 <= b
                    && prior.followers[i][g].0 as u32 == g,
            updated@.len() == j,
            forall|i: int|
                0 <= i < j ==> counts_view((#[trigger] updated@[i])@) == if from <= i {
                    bump(prior.followers[i], after@[i])
                } else {
                    prior.followers[i]
                },
            forall|i: int, g: u32|
                0 <= i < j && #[trigger] updated@[i]@.contains_key(g) ==> updated@[i]@[g].1 <= b + 1
                    && updated@[i]@[g].0 as u32 == g,
    {
        let mut counts = counts;
        assert(counts == old_fb[j as int]);
        assert(prior.followers[j as int] == counts_view(counts@));
        assert forall|g: u32| #[trigger] counts@.contains_key(g) implies counts@[g].1 <= b && counts@[g].0 as u32 == g by {
            assert(counts_view(counts@).contains_key(g));
        }
        if j >= from {
            bump_exec(&mut counts, after[j], Ghost(b));
        }
        updated.push(counts);
        j = j + 1;
    }
    let fresh = HashGramData { gram: target, followed_by: updated, occurances: occurances + 1 };
    grams.insert(code, fresh);
    proof {
        let expected = record(before, target, after@, from as nat, n as nat);
        assert(hash_data_view(fresh).followers =~= expected[code].followers);
        assert(stats_view(grams@) =~= expected);
        assert forall|k: u32| #[trigger] stats_view(grams@).contains_key(k) implies {
            &&& stats_view(grams@)[k].gram as u32 == k
            &&& stats_view(grams@)[k].followers.len() == n
            &&& stats_view(grams@)[k].occurrences <= b + 1
            &&& forall|i: int, g: u32|
                0 <= i < n && #[trigger] stats_view(grams@)[k].followers[i].contains_key(g)
                    ==> stats_view(grams@)[k].followers[i][g].1 <= b + 1
                    && stats_view(grams@)[k].followers[i][g].0 as u32 == g
        } by {
            if k != code {
                assert(stats_view(grams@)[k] == before[k]);
            } else {
                assert forall|i: int, g: u32|
                    0 <= i < n && #[trigger] stats_view(grams@)[k].followers[i].contains_key(g) implies
                        stats_view(grams@)[k].followers[i][g].1 <= b + 1
                        && stats_view(grams@)[k].followers[i][g].0 as u32 == g by {
                    assert(stats_view(grams@)[k].followers[i] == counts_view(updated@[i]@));
                }
            }
        }
    }
}

/// The grams of `s` from `start`, `n` of them.
fn window(s: &Vec<char>, start: usize, n: usize) -> (res: Vec<char>)
    requires
        start + n <= s@.len(),
    ensures
        res@ == s@.subrange(start as int, start + n),
{
    let mut res: Vec<char> = Vec::new();
    let l = s.len();
    let mut i: usize = 0;
    while i < n
        invariant
            i <= n,
            l == s@.len(),
            start + n <= s@.len(),
            res@ == s@.subrange(start as int, start + i),
        decreases n - i,
    {
        res.push(s[start + i]);
        i = i + 1;
        assert(res@ =~= s@.subrange(start as int, start + i));
    }
    res
}

/// Counts the sightings of one text.
fn index_source(grams: &mut HashMap<u32, HashGramData>, s: &Vec<char>, n: usize, Ghost(b): Ghost<nat>)
    requires
        stats_within(stats_view(old(grams)@), n as nat, b),
        b + s@.len() < usize::MAX,
    ensures
        stats_view(final(grams)@) == apply_records(
            stats_view(old(grams)@),
            source_records(s@, n as nat),
            n as nat,
        ),
        stats_within(stats_view(final(grams)@), n as nat, b + s@.len()),
{
    let ghost start = stats_view(grams@);
    let ghost recs = source_records(s@, n as nat);
    let len = s.len();
    if len <= n {
        assert(recs =~= Seq::<(char, Seq<char>, nat)>::empty());
        assert(stats_within(start, n as nat, b + s@.len()));
        return ;
    }
    assert(recs.len() == len);
    assert(recs.take(0) =~= Seq::<(char, Seq<char>, nat)>::empty());
    let mut t: usize = 0;
    while t < len - n
        invariant
            len == s@.len(),
            n < len,
            b + len < usize::MAX,
            recs == source_records(s@, n as nat),
            recs.len() == len,
            t <= len - n,
            stats_view(grams@) == apply_records(start, recs.take(t as int), n as nat),
            stats_within(stats_view(grams@), n as nat, (b + t) as nat),
        decreases len - n - t,
    {
        let after = window(s, t + 1, n);
        record_exec(grams, s[t], &after, 0, n, Ghost((b + t) as nat));
        proof {
            assert(recs.take(t + 1).drop_last() =~= recs.take(t as int));
            assert(recs[t as int] == (s@[t as int], s@.subrange(t + 1, t + 1 + n), 0nat));
        }
        t = t + 1;
    }
    let tail = window(s, len - n, n);
    let mut i: usize = 0;
    while i < n
        invariant
            len == s@.len(),
            n < len,
            b + len < usize::MAX,
            recs == source_records(s@, n as nat),
            recs.len() == len,
            tail@ == s@.subrange(len - n, len as int),
            i <= n,
            stats_view(grams@) == apply_records(start, recs.take(len - n + i), n as nat),
            stats_within(stats_view(grams@), n as nat, (b + len - n + i) as nat),
        decreases n - i,
    {
        record_exec(grams, tail[i], &tail, i + 1, n, Ghost((b + len - n + i) as nat));
        proof {
            assert(recs.take(len - n + i + 1).drop_last() =~= recs.take(len - n + i));
            assert(recs[len - n + i] == (s@[len - n + i], s@.subrange(len - n, len as int), (i + 1) as nat));
        }
        i = i + 1;
    }
    assert(recs.take(len as int) =~= recs);
}

/// The number of grams of all texts.
pub open spec fn total_grams(texts: Seq<Seq<char>>) -> nat
    decreases texts.len(),
{
    if texts.len() == 0 {
        0
    } else {
        total_grams(texts.drop_last()) + texts.last().len()
    }
}

/// The texts of a feed.
pub open spec fn feed_texts(feed: Seq<IndexFeed>) -> Seq<Seq<char>> {
    feed.map_values(|f: IndexFeed| f.grams@)
}

/// Counts the sightings of every text of the feed, in order.
fn count_sightings(feed: &Vec<IndexFeed>, n: usize) -> (res: HashMap<u32, HashGramData>)
    requires
        total_grams(feed_texts(feed@)) < usize::MAX,
    ensures
        stats_view(res@) == feed_stats(feed_texts(feed@), n as nat),
        stats_within(stats_view(res@), n as nat, total_grams(feed_texts(feed@))),
{
    let ghost texts = feed_texts(feed@);
    let mut grams: HashMap<u32, HashGramData> = HashMap::new();
    let mut k: usize = 0;
    assert(texts.take(0) =~= Seq::<Seq<char>>::empty());
    assert(stats_view(grams@) =~= Map::<u32, GramStats>::empty());
    while k < feed.len()
        invariant
            texts == feed_texts(feed@),
            total_grams(texts) < usize::MAX,
            k <= feed@.len(),
            stats_view(grams@) == feed_stats(texts.take(k as int), n as nat),
            stats_within(stats_view(grams@), n as nat, total_grams(texts.take(k as int))),
            total_grams(texts.take(k as int)) <= total_grams(texts),
        decreases feed@.len() - k,
    {
        proof {
            assert(texts.take(k + 1).drop_last() =~= texts.take(k as int));
            assert(texts[k as int] == feed@[k as int].grams@);
            lemma_total_grams_prefix(texts, k + 1);
        }
        index_source(&mut grams, &feed[k].grams, n, Ghost(total_grams(texts.take(k as int))));
        k = k + 1;
    }
    assert(texts.take(k as int) =~= texts);
    grams
}

proof fn lemma_total_grams_prefix(texts: Seq<Seq<char>>, k: int)
    requires
        0 <= k <= texts.len(),
    ensures
        total_grams(texts.take(k)) <= total_grams(texts),
    decreases texts.len() - k,
{
    if k < texts.len() {
        lemma_total_grams_prefix(texts, k + 1);
        assert(texts.take(k + 1).drop_last() =~= texts.take(k));
    } else {
        assert(texts.take(k) =~= texts);
    }
}

/// `list` holds the counts `m`: each gram once with its count, most
/// frequent first.
pub open spec fn lists_by_count(list: Seq<GramOccurances>, m: Map<u32, (char, nat)>) -> bool {
    &&& forall|i: int|
        0 <= i < list.len() ==> m.contains_key((#[trigger] list[i]).gram as u32) && m[list[i].gram as u32] == (
            list[i].gram,
            list[i].occurances as nat,
        )
    &&& forall|g: u32| #[trigger] m.contains_key(g) ==> exists|i: int| 0 <= i < list.len() && list[i].gram as u32 == g
    &&& forall|i: int, j: int| 0 <= i < j < list.len() ==> (#[trigger] list[i]).gram != (#[trigger] list[j]).gram
    &&& forall|i: int, j: int|
        0 <= i < j < list.len() ==> (#[trigger] list[i]).occurances >= (#[trigger] list[j]).occurances
}

/// The list ordered by count, most frequent first.
pub open spec fn by_count(list: Seq<GramOccurances>) -> bool {
    forall|i: int, j: int| 0 <= i < j < list.len() ==> (#[trigger] list[i]).occurances >= (#[trigger] list[j]).occurances
}

/// Puts `x` after every entry at least as frequent as it.
fn insert_by_count(list: &mut Vec<GramOccurances>, x: GramOccurances) -> (p: usize)
    requires
        by_count(old(list)@),
    ensures
        p <= old(list)@.len(),
        final(list)@ == old(list)@.insert(p as int, x),
        by_count(final(list)@),
{
    let mut p: usize = 0;
    while p < list.len() && list[p].occurances >= x.occurances
        invariant
            p <= list@.len(),
            list@ == old(list)@,
            forall|i: int| 0 <= i < p ==> (#[trigger] list@[i]).occurances >= x.occurances,
        decreases list@.len() - p,
    {
        p = p + 1;
    }
    let ghost before = list@;
    let ghost xo = x.occurances;
    list.insert(p, x);
    proof {
        before.insert_ensures(p as int, x);
        assert forall|i: int| p <= i < before.len() implies (#[trigger] before[i]).occurances < xo by {
            assert(before[p as int].occurances < xo);
            if i > p {
                assert(before[p as int].occurances >= before[i].occurances);
            }
        }
        assert forall|i: int, j: int| 0 <= i < j < list@.len() implies (#[trigger] list@[i]).occurances
            >= (#[trigger] list@[j]).occurances by {
            if j < p {
                assert(list@[i] == before[i] && list@[j] == before[j]);
            } else if j == p {
                assert(list@[i] == before[i]);
            } else if i < p {
                assert(list@[i] == before[i] && list@[j] == before[j - 1]);
            } else if i == p {
                assert(list@[j] == before[j - 1]);
            } else {
                assert(list@[i] == before[i - 1] && list@[j] == before[j - 1]);
            }
        }
    }
    p
}

/// Some entry of `list` is for gram code `g`.
spec fn has_gram(list: Seq<GramOccurances>, g: u32) -> bool {
    exists|i: int| 0 <= i < list.len() && list[i].gram as u32 == g
}

/// One of the first `n` entries of `all` has key `g`.
spec fn among_first<'a>(all: Seq<(&'a u32, &'a (char, usize))>, n: int, g: u32) -> bool {
    exists|idx: int| 0 <= idx < n && *all[idx].0 == g
}

/// The counts of `h`, most frequent first.
fn sorted_counts(h: &HashMap<u32, (char, usize)>) -> (res: Vec<GramOccurances>)
    requires
        forall|g: u32| #[trigger] h@.contains_key(g) ==> h@[g].0 as u32 == g,
    ensures
        lists_by_count(res@, counts_view(h@)),
{
    let mut res: Vec<GramOccurances> = Vec::new();
    let iter = h.iter();
    let ghost all = iter.remaining();
    assert(all.no_duplicates());
    assert(forall|g: u32| #[trigger] h@.contains_key(g) ==> all.contains((&g, &h@[g])));
    for entry in it: iter
        invariant
            it.seq() == all,
            all.no_duplicates(),
            forall|g: u32| #[trigger] h@.contains_key(g) ==> h@[g].0 as u32 == g,
            forall|idx: int|
                0 <= idx < all.len() ==> h@.contains_key(*(#[trigger] all[idx]).0) && h@[*all[idx].0] == *all[idx].1,
            forall|i: int|
                0 <= i < res@.len() ==> h@.contains_key((#[trigger] res@[i]).gram as u32) && h@[res@[i].gram as u32]
                    == (res@[i].gram, res@[i].occurances),
            forall|idx: int| 0 <= idx < it.index() ==> has_gram(res@, *(#[trigger] all[idx]).0),
            forall|i: int| 0 <= i < res@.len() ==> among_first(all, it.index() as int, (#[trigger] res@[i]).gram as u32),
            forall|i: int, j: int| 0 <= i < j < res@.len() ==> (#[trigger] res@[i]).gram != (#[trigger] res@[j]).gram,
            by_count(res@),
    {
        let ghost idx0 = it.index();
        assert(entry == all[idx0]);
        let (k, v) = entry;
        let x = GramOccurances { gram: v.0, occurances: v.1 };
        assert(h@.contains_key(*k) && h@[*k] == *v);
        assert(x.gram as u32 == *k);
        let ghost before = res@;
        proof {
            assert forall|i: int| 0 <= i < before.len() implies (#[trigger] before[i]).gram != x.gram by {
                assert(among_first(all, idx0 as int, before[i].gram as u32));
                let idx = choose|idx: int| 0 <= idx < idx0 && *all[idx].0 == before[i].gram as u32;
                if before[i].gram == x.gram {
                    assert(*all[idx].0 == *k);
                    assert(all[idx] == all[idx0]);
                }
            }
        }
        let p = insert_by_count(&mut res, x);
        proof {
            let now = res@;
            before.insert_ensures(p as int, x);
            assert forall|i: int| 0 <= i < now.len() implies h@.contains_key((#[trigger] now[i]).gram as u32)
                && h@[now[i].gram as u32] == (now[i].gram, now[i].occurances) by {
                if i < p {
                    assert(now[i] == before[i]);
                } else if i > p {
                    assert(now[i] == before[i - 1]);
                }
            }
            assert forall|idx: int| 0 <= idx < idx0 + 1 implies has_gram(now, *(#[trigger] all[idx]).0) by {
                if idx == idx0 {
                    assert(now[p as int] == x);
                } else {
                    assert(has_gram(before, *all[idx].0));
                    let i = choose|i: int| 0 <= i < before.len() && before[i].gram as u32 == *all[idx].0;
                    if i < p {
                        assert(now[i] == before[i]);
                    } else {
                        assert(now[i + 1] == before[i]);
                    }
                }
            }
            assert forall|i: int| 0 <= i < now.len() implies among_first(all, idx0 + 1, (#[trigger] now[i]).gram as u32) by {
                if i == p {
                    assert(*all[idx0].0 == now[i].gram as u32);
                } else if i < p {
                    assert(now[i] == before[i]);
                    assert(among_first(all, idx0 as int, before[i].gram as u32));
                    let idx = choose|idx: int| 0 <= idx < idx0 && *all[idx].0 == before[i].gram as u32;
                } else {
                    assert(now[i] == before[i - 1]);
                    assert(among_first(all, idx0 as int, before[i - 1].gram as u32));
                    let idx = choose|idx: int| 0 <= idx < idx0 && *all[idx].0 == before[i - 1].gram as u32;
                }
            }
            assert forall|i: int, j: int| 0 <= i < j < now.len() implies (#[trigger] now[i]).gram
                != (#[trigger] now[j]).gram by {
                if j < p {
                    assert(now[i] == before[i] && now[j] == before[j]);
                } else if j == p {
                    assert(now[i] == before[i]);
                } else if i < p {
                    assert(now[i] == before[i] && now[j] == before[j - 1]);
                } else if i == p {
                    assert(now[j] == before[j - 1]);
                } else {
                    assert(now[i] == before[i - 1] && now[j] == before[j - 1]);
                }
            }
        }
    }
    proof {
        let m = counts_view(h@);
        assert forall|g: u32| #[trigger] m.contains_key(g) implies exists|i: int|
            0 <= i < res@.len() && res@[i].gram as u32 == g by {
            assert(h@.contains_key(g));
            assert(all.contains((&g, &h@[g])));
            let idx = choose|idx: int| 0 <= idx < all.len() && all[idx] == (&g, &h@[g]);
            assert(*all[idx].0 == g);
            assert(has_gram(res@, *all[idx].0));
        }
    }
    res
}

/// `d` holds the counts `st` of a gram: how often it was seen, and for each
/// of the `N` places after it, the grams seen there, most frequent first.
pub open spec fn gram_data_matches<const N: usize>(d: GramData<N>, st: GramStats) -> bool {
    &&& d.occurances == st.occurrences
    &&& d.followed_by@.len() == N
    &&& forall|j: int| 0 <= j < N ==> lists_by_count((#[trigger] d.followed_by@[j])@, st.followers[j])
}

/// The index holds the counts `stats`, gram by gram.
pub open spec fn index_matches<const N: usize>(grams: Map<u32, GramData<N>>, stats: Map<u32, GramStats>) -> bool {
    &&& grams.dom() == stats.dom()
    &&& forall|k: u32| #[trigger] grams.contains_key(k) ==> gram_data_matches(grams[k], stats[k])
}

/// The data of one gram, each place's counts most frequent first.
fn freeze_gram<const N: usize>(d: &HashGramData) -> (res: GramData<N>)
    requires
        d.followed_by@.len() == N,
        forall|j: int, g: u32|
            0 <= j < N && #[trigger] counts_view(d.followed_by@[j]@).contains_key(g) ==> counts_view(
                d.followed_by@[j]@,
            )[g].0 as u32 == g,
    ensures
        gram_data_matches(res, hash_data_view(*d)),
{
    let mut followed_by: Vec<Vec<GramOccurances>> = Vec::new();
    let mut j: usize = 0;
    while j < N
        invariant
            j <= N,
            d.followed_by@.len() == N,
            forall|i: int, g: u32|
                0 <= i < N && #[trigger] counts_view(d.followed_by@[i]@).contains_key(g) ==> counts_view(
                    d.followed_by@[i]@,
                )[g].0 as u32 == g,
            followed_by@.len() == j,
            forall|i: int|
                0 <= i < j ==> lists_by_count((#[trigger] followed_by@[i])@, counts_view(d.followed_by@[i]@)),
        decreases N - j,
    {
        let h = &d.followed_by[j];
        assert forall|g: u32| #[trigger] h@.contains_key(g) implies h@[g].0 as u32 == g by {
            assert(counts_view(d.followed_by@[j as int]@).contains_key(g));
        }
        let list = sorted_counts(h);
        followed_by.push(list);
        j = j + 1;
    }
    GramData { followed_by, occurances: d.occurances }
}

/// The finished index of the counts.
fn freeze<const N: usize>(grams: &HashMap<u32, HashGramData>, Ghost(b): Ghost<nat>) -> (res: HashMap<
    u32,
    GramData<N>,
>)
    requires
        stats_within(stats_view(grams@), N as nat, b),
    ensures
        index_matches::<N>(res@, stats_view(grams@)),
{
    let ghost st = stats_view(grams@);
    let mut res: HashMap<u32, GramData<N>> = HashMap::new();
    let iter = grams.iter();
    let ghost all = iter.remaining();
    assert(forall|g: u32| #[trigger] grams@.contains_key(g) ==> all.contains((&g, &grams@[g])));
    for entry in it: iter
        invariant
            it.seq() == all,
            st == stats_view(grams@),
            stats_within(st, N as nat, b),
            forall|idx: int|
                0 <= idx < all.len() ==> grams@.contains_key(*(#[trigger] all[idx]).0) && grams@[*all[idx].0]
                    == *all[idx].1,
            forall|k: u32| #[trigger] res@.contains_key(k) ==> st.contains_key(k) && gram_data_matches(res@[k], st[k]),
            forall|idx: int| 0 <= idx < it.index() ==> res@.contains_key(*(#[trigger] all[idx]).0),
    {
        let ghost idx0 = it.index();
        assert(entry == all[idx0]);
        let (k, d) = entry;
        assert(st.contains_key(*k) && st[*k] == hash_data_view(*d));
        assert forall|j: int, g: u32|
            0 <= j < N && #[trigger] counts_view(d.followed_by@[j]@).contains_key(g) implies counts_view(
                d.followed_by@[j]@,
            )[g].0 as u32 == g by {
            assert(st[*k].followers[j] == counts_view(d.followed_by@[j]@));
        }
        let data = freeze_gram::<N>(d);
        res.insert(*k, data);
    }
    proof {
        assert forall|g: u32| #[trigger] st.contains_key(g) implies res@.contains_key(g) by {
            assert(grams@.contains_key(g));
            assert(all.contains((&g, &grams@[g])));
            let idx = choose|idx: int| 0 <= idx < all.len() && all[idx] == (&g, &grams@[g]);
            assert(*all[idx].0 == g);
        }
        assert(res@.dom() =~= st.dom());
    }
    res
}

impl<const N: usize> NGramIndex<N> {
    /// Counts, for every gram of the feed's texts, how often it was seen
    /// and which grams followed it at each of the `N` places after it,
    /// most frequent first; the feed's data is not kept.
    pub fn alomst_new(source_iter: Vec<IndexFeed>) -> (res: (HashMap<u32, GramData<N>>, Vec<usize>))
        requires
            N > 0 || forall|i: int| 0 <= i < source_iter@.len() ==> (#[trigger] source_iter@[i]).grams@.len() < 2,
            total_grams(feed_texts(source_iter@)) < usize::MAX,
        ensures
            index_matches::<N>(res.0@, feed_stats(feed_texts(source_iter@), N as nat)),
            res.1@.len() == 0,
    {
        let grams = count_sightings(&source_iter, N);
        let frozen = freeze::<N>(&grams, Ghost(total_grams(feed_texts(source_iter@))));
        (frozen, Vec::new())
    }
}

impl<const N: usize> NGramIndex<N> {
    /// The index of the feed: see [`NGramIndex::alomst_new`].
    pub fn new(source_iter: Vec<IndexFeed>) -> (res: NGramIndex<N>)
        requires
            N > 0 || forall|i: int| 0 <= i < source_iter@.len() ==> (#[trigger] source_iter@[i]).grams@.len() < 2,
            total_grams(feed_texts(source_iter@)) < usize::MAX,
        ensures
            index_matches::<N>(res.grams@, feed_stats(feed_texts(source_iter@), N as nat)),
            res.data@.len() == 0,
            res.wf(),
    {
        let (grams, data) = NGramIndex::<N>::alomst_new(source_iter);
        NGramIndex { grams, data }
    }
}

/// The gram at lookback place `i` (of `n`) once the first `k` grams of the
/// input are read: the `n` places hold the last `n` grams read, `None`
/// where the input had not started yet.
pub open spec fn lookback_at(input: Seq<char>, k: int, n: nat, i: int) -> Option<char> {
    if k - n + i >= 0 {
        Some(input[k - n + i])
    } else {
        None
    }
}

/// Lookback places `0..=i` all hold a gram that the index knows.
pub open spec fn known_through<const N: usize>(grams: Map<u32, GramData<N>>, input: Seq<char>, k: int, i: int) -> bool {
    forall|j: int|
        0 <= j <= i ==> #[trigger] lookback_at(input, k, N as nat, j) is Some && grams.contains_key(
            lookback_at(input, k, N as nat, j)->Some_0 as u32,
        )
}

/// The hint at lookback place `i` once `k` grams are read: the gram there
/// and the gram that most often followed it `i` places on, while every
/// place up to `i` holds a known gram.
pub open spec fn frame_at<const N: usize>(grams: Map<u32, GramData<N>>, input: Seq<char>, k: int, i: int) -> Option<
    (char, char),
> {
    if known_through(grams, input, k, i) {
        let c = lookback_at(input, k, N as nat, i)->Some_0;
        let list = grams[c as u32].followed_by@[i]@;
        if list.len() > 0 {
            Some((c, list[0].gram))
        } else {
            None
        }
    } else {
        None
    }
}

impl<const N: usize> NGramIndex<N> {
    /// Every gram has data for `N` places.
    pub open spec fn wf(&self) -> bool {
        forall|k: u32| #[trigger] self.grams@.contains_key(k) ==> self.grams@[k].followed_by@.len() == N
    }

    /// The hints for one lookback window.
    fn frame(&self, lookback: &Vec<Option<char>>, Ghost(input): Ghost<Seq<char>>, Ghost(k): Ghost<int>) -> (res: Vec<
        Option<(char, char)>,
    >)
        requires
            self.wf(),
            lookback@.len() == N,
            forall|i: int| 0 <= i < N ==> lookback@[i] == lookback_at(input, k, N as nat, i),
        ensures
            res@.len() == N,
            forall|i: int| 0 <= i < N ==> res@[i] == frame_at(self.grams@, input, k, i),
    {
        let mut res: Vec<Option<(char, char)>> = Vec::new();
        let mut i: usize = 0;
        while i < N
            invariant_except_break
                i <= N,
                res@.len() == i,
                i > 0 ==> known_through(self.grams@, input, k, i - 1),
            invariant
                self.wf(),
                lookback@.len() == N,
                forall|j: int| 0 <= j < N ==> lookback@[j] == lookback_at(input, k, N as nat, j),
                forall|j: int| 0 <= j < res@.len() ==> res@[j] == frame_at(self.grams@, input, k, j),
            ensures
                res@.len() <= N,
                forall|j: int| res@.len() <= j < N ==> frame_at(self.grams@, input, k, j) is None,
            decreases N - i,
        {
            let this = match lookback[i] {
                Some(v) => v,
                None => {
                    proof {
                        assert forall|j: int| res@.len() <= j < N implies frame_at(self.grams@, input, k, j) is None by {
                            assert(lookback_at(input, k, N as nat, i as int) is None);
                        }
                    }
                    break;
                },
            };
            let following = match self.grams.get(&(this as u32)) {
                Some(v) => v,
                None => {
                    proof {
                        assert forall|j: int| res@.len() <= j < N implies frame_at(self.grams@, input, k, j) is None by {
                            assert(!known_through(self.grams@, input, k, j)) by {
                                assert(lookback_at(input, k, N as nat, i as int) == Some(this));
                            }
                        }
                    }
                    break;
                },
            };
            proof {
                assert(known_through(self.grams@, input, k, i as int)) by {
                    assert forall|j: int| 0 <= j <= i implies #[trigger] lookback_at(input, k, N as nat, j) is Some
                        && self.grams@.contains_key(lookback_at(input, k, N as nat, j)->Some_0 as u32) by {
                        if j == i {
                            assert(lookback_at(input, k, N as nat, j) == Some(this));
                        }
                    }
                }
            }
            let list = &following.followed_by[i];
            let hint = if list.len() > 0 {
                Some((this, list[0].gram))
            } else {
                None
            };
            res.push(hint);
            i = i + 1;
        }
        while res.len() < N
            invariant
                res@.len() <= N,
                forall|j: int| 0 <= j < res@.len() ==> res@[j] == frame_at(self.grams@, input, k, j),
                forall|j: int| res@.len() <= j < N ==> frame_at(self.grams@, input, k, j) is None,
            decreases N - res@.len(),
        {
            res.push(None);
        }
        res
    }

    /// For each gram of the input in turn, the hints of the window of the
    /// last `N` grams read: at each place, the gram there and the gram that
    /// most often followed it that many places on (see [`frame_at`]).
    pub fn search(&self, input: &[char]) -> (res: Vec<Vec<Option<(char, char)>>>)
        requires
            N > 0 || input@.len() == 0,
            self.wf(),
        ensures
            res@.len() == input@.len(),
            forall|t: int|
                0 <= t < input@.len() ==> (#[trigger] res@[t])@.len() == N && forall|i: int|
                    0 <= i < N ==> res@[t]@[i] == frame_at(self.grams@, input@, t + 1, i),
    {
        let mut lookback: Vec<Option<char>> = Vec::new();
        let mut i: usize = 0;
        while i < N
            invariant
                i <= N,
                lookback@.len() == i,
                forall|j: int| 0 <= j < i ==> lookback@[j] == lookback_at(input@, 0, N as nat, j),
            decreases N - i,
        {
            lookback.push(None);
            i = i + 1;
        }
        let mut out: Vec<Vec<Option<(char, char)>>> = Vec::new();
        let mut t: usize = 0;
        while t < input.len()
            invariant
                N > 0 || input@.len() == 0,
                self.wf(),
                t <= input@.len(),
                lookback@.len() == N,
                forall|j: int| 0 <= j < N ==> lookback@[j] == lookback_at(input@, t as int, N as nat, j),
                out@.len() == t,
                forall|s: int|
                    0 <= s < t ==> (#[trigger] out@[s])@.len() == N && forall|i: int|
                        0 <= i < N ==> out@[s]@[i] == frame_at(self.grams@, input@, s + 1, i),
            decreases input@.len() - t,
        {
            let mut j: usize = 1;
            while j < N
                invariant
                    1 <= j <= N,
                    lookback@.len() == N,
                    forall|m: int| 0 <= m < j - 1 ==> lookback@[m] == lookback_at(input@, t + 1, N as nat, m),
                    forall|m: int| j - 1 <= m < N ==> lookback@[m] == lookback_at(input@, t as int, N as nat, m),
                decreases N - j,
            {
                let moved = lookback[j];
                lookback.set(j - 1, moved);
                j = j + 1;
            }
            lookback.set(N - 1, Some(input[t]));
            let frame = self.frame(&lookback, Ghost(input@), Ghost(t + 1));
            out.push(frame);
            t = t + 1;
        }
        out
    }
}

/// The texts long enough to make sightings (more than `n` grams), in order.
pub open spec fn long_texts(texts: Seq<Seq<char>>, n: nat) -> Seq<Seq<char>>
    decreases texts.len(),
{
    if texts.len() == 0 {
        Seq::empty()
    } else if texts.last().len() >= n + 1 {
        long_texts(texts.drop_last(), n).push(texts.last())
    } else {
        long_texts(texts.drop_last(), n)
    }
}

/// Texts of `n` grams or fewer make no sightings: the counts are those of
/// the long texts alone.
pub proof fn lemma_short_texts_count_nothing(texts: Seq<Seq<char>>, n: nat)
    ensures
        feed_stats(texts, n) == feed_stats(long_texts(texts, n), n),
    decreases texts.len(),
{
    if texts.len() > 0 {
        let init = texts.drop_last();
        lemma_short_texts_count_nothing(init, n);
        if texts.last().len() >= n + 1 {
            let longs = long_texts(init, n).push(texts.last());
            assert(longs.drop_last() =~= long_texts(init, n));
            assert(longs.last() == texts.last());
        } else {
            assert(source_records(texts.last(), n) =~= Seq::<(char, Seq<char>, nat)>::empty());
        }
    }
}

/// Feeds that differ only in texts too short for a sighting count the
/// same: adding or removing such texts anywhere changes nothing.
pub proof fn lemma_short_feeds_ignored(a: Seq<Seq<char>>, b: Seq<Seq<char>>, n: nat)
    requires
        long_texts(a, n) == long_texts(b, n),
    ensures
        feed_stats(a, n) == feed_stats(b, n),
{
    lemma_short_texts_count_nothing(a, n);
    lemma_short_texts_count_nothing(b, n);
}

/// Two indexes that hold the same counts agree: the same grams, the same
/// numbers of sightings, and at each place the same followers with the
/// same counts (only the order of equally frequent followers may differ).
/// So the index of `NGramIndex::new` is the one `alomst_new` gives, and
/// feeds that count the same give the same index.
pub proof fn lemma_same_counts_same_index<const N: usize>(
    g1: Map<u32, GramData<N>>,
    g2: Map<u32, GramData<N>>,
    stats: Map<u32, GramStats>,
)
    requires
        index_matches::<N>(g1, stats),
        index_matches::<N>(g2, stats),
    ensures
        g1.dom() == g2.dom(),
        forall|k: u32| #[trigger] g1.contains_key(k) ==> g1[k].occurances == g2[k].occurances,
        forall|k: u32, j: int|
            g1.contains_key(k) && 0 <= j < N ==> (#[trigger] g1[k].followed_by@[j])@.to_multiset()
                == g2[k].followed_by@[j]@.to_multiset(),
{
    assert forall|k: u32, j: int| g1.contains_key(k) && 0 <= j < N implies (#[trigger] g1[k].followed_by@[j])@.to_multiset()
        == g2[k].followed_by@[j]@.to_multiset() by {
        let l1 = g1[k].followed_by@[j]@;
        let l2 = g2[k].followed_by@[j]@;
        let m = stats[k].followers[j];
        assert(gram_data_matches(g1[k], stats[k]));
        assert(gram_data_matches(g2[k], stats[k]));
        assert(lists_by_count(l1, m));
        assert(lists_by_count(l2, m));
        assert forall|x: GramOccurances| l1.contains(x) implies l2.contains(x) by {
            let i = choose|i: int| 0 <= i < l1.len() && l1[i] == x;
            assert(m.contains_key(l1[i].gram as u32));
            let i2 = choose|i2: int| 0 <= i2 < l2.len() && l2[i2].gram as u32 == l1[i].gram as u32;
            assert(m[l2[i2].gram as u32] == (l2[i2].gram, l2[i2].occurances as nat));
            assert(l2[i2] == x);
        }
        assert forall|x: GramOccurances| l2.contains(x) implies l1.contains(x) by {
            let i = choose|i: int| 0 <= i < l2.len() && l2[i] == x;
            assert(m.contains_key(l2[i].gram as u32));
            let i2 = choose|i2: int| 0 <= i2 < l1.len() && l1[i2].gram as u32 == l2[i].gram as u32;
            assert(m[l1[i2].gram as u32] == (l1[i2].gram, l1[i2].occurances as nat));
            assert(l1[i2] == x);
        }
        assert(l1.no_duplicates()) by {
            assert forall|a: int, b: int| 0 <= a < l1.len() && 0 <= b < l1.len() && a != b implies l1[a] != l1[b] by {
                if a < b {
                    assert(l1[a].gram != l1[b].gram);
                } else {
                    assert(l1[b].gram != l1[a].gram);
                }
            }
        }
        assert(l2.no_duplicates()) by {
            assert forall|a: int, b: int| 0 <= a < l2.len() && 0 <= b < l2.len() && a != b implies l2[a] != l2[b] by {
                if a < b {
                    assert(l2[a].gram != l2[b].gram);
                } else {
                    assert(l2[b].gram != l2[a].gram);
                }
            }
        }
        l1.lemma_multiset_has_no_duplicates();
        l2.lemma_multiset_has_no_duplicates();
        assert forall|x: GramOccurances| l1.to_multiset().count(x) == l2.to_multiset().count(x) by {
            broadcast use vstd::seq_lib::group_to_multiset_ensures;

            if l1.contains(x) {
                assert(l1.to_multiset().contains(x));
                assert(l2.to_multiset().contains(x));
            } else {
                assert(!l2.contains(x));
                assert(l1.to_multiset().count(x) == 0);
                assert(l2.to_multiset().count(x) == 0);
            }
        }
        assert(l1.to_multiset() =~= l2.to_multiset());
    }
}

/// Feeds that hold the same texts of more than `N` grams, in the same order,
/// whatever shorter texts stand among them, give the same index: the same
/// grams, the same numbers of sightings, and at each place the same
/// followers with the same counts.
pub proof fn lemma_short_feeds_same_index<const N: usize>(
    a: Seq<IndexFeed>,
    b: Seq<IndexFeed>,
    g1: Map<u32, GramData<N>>,
    g2: Map<u32, GramData<N>>,
)
    requires
        long_texts(feed_texts(a), N as nat) == long_texts(feed_texts(b), N as nat),
        index_matches::<N>(g1, feed_stats(feed_texts(a), N as nat)),
        index_matches::<N>(g2, feed_stats(feed_texts(b), N as nat)),
    ensures
        g1.dom() == g2.dom(),
        forall|k: u32| #[trigger] g1.contains_key(k) ==> g1[k].occurances == g2[k].occurances,
        forall|k: u32, j: int|
            g1.contains_key(k) && 0 <= j < N ==> (#[trigger] g1[k].followed_by@[j])@.to_multiset()
                == g2[k].followed_by@[j]@.to_multiset(),
{
    lemma_short_feeds_ignored(feed_texts(a), feed_texts(b), N as nat);
    lemma_same_counts_same_index::<N>(g1, g2, feed_stats(feed_texts(a), N as nat));
}

} // verus!
