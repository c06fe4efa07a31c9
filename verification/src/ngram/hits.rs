use vstd::prelude::*;

use ahash::AHashMap;

use super::feed::{pad_gram, IndexFeed};
use crate::hashing::{gram_data, gram_data_insert, gram_data_into_entries, gram_data_new, gram_data_remove};
use crate::sorting::{sort_positions, sort_positions_exec};

verus! {

/// The `n` grams that end at position `p` of `g`, padded in front where
/// the text has fewer grams.
pub open spec fn window(g: Seq<char>, p: int, n: nat) -> Seq<char> {
    Seq::new(
        n,
        |k: int|
            if 0 <= p - (n - 1) + k < g.len() {
                g[p - (n - 1) + k]
            } else {
                pad_gram()
            },
    )
}

/// `d` once for each position before `upto` of `g` whose window is `w`.
pub open spec fn hits_in(g: Seq<char>, upto: int, w: Seq<char>, n: nat, d: usize) -> Seq<usize>
    decreases upto,
{
    if upto <= 0 {
        Seq::empty()
    } else if window(g, upto - 1, n) == w {
        hits_in(g, upto - 1, w, n, d).push(d)
    } else {
        hits_in(g, upto - 1, w, n, d)
    }
}

/// The product of each feed once for each position of its text whose window
/// is `w`, feed after feed.
pub open spec fn hits(feeds: Seq<(Seq<char>, usize)>, w: Seq<char>, n: nat) -> Seq<usize>
    decreases feeds.len(),
{
    if feeds.len() == 0 {
        Seq::empty()
    } else {
        hits(feeds.drop_last(), w, n) + hits_in(feeds.last().0, feeds.last().0.len() as int, w, n, feeds.last().1)
    }
}

/// The texts and products of the feeds.
pub open spec fn feed_views(feeds: Seq<IndexFeed>) -> Seq<(Seq<char>, usize)> {
    feeds.map_values(|f: IndexFeed| (f.grams@, f.data))
}

/// Every window of the feeds with its hits.
pub open spec fn hit_map(feeds: Seq<(Seq<char>, usize)>, n: nat) -> Map<Seq<char>, Seq<usize>> {
    Map::new(|w: Seq<char>| hits(feeds, w, n).len() > 0, |w: Seq<char>| hits(feeds, w, n))
}

/// The map of windows with hits, as far as `done` feeds and the first
/// `upto` positions of text `g` with product `d`.
pub open spec fn partial_hit_map(
    done: Seq<(Seq<char>, usize)>,
    g: Seq<char>,
    upto: int,
    d: usize,
    n: nat,
) -> Map<Seq<char>, Seq<usize>> {
    Map::new(
        |w: Seq<char>| (hits(done, w, n) + hits_in(g, upto, w, n, d)).len() > 0,
        |w: Seq<char>| hits(done, w, n) + hits_in(g, upto, w, n, d),
    )
}

/// Moves the window one gram on: drops the first gram, appends `gram`.
fn shift_in(lookback: &mut Vec<char>, gram: char)
    requires
        old(lookback)@.len() >= 1,
    ensures
        final(lookback)@ == old(lookback)@.drop_first().push(gram),
{
    let n = lookback.len();
    let mut i: usize = 1;
    while i < n
        invariant
            n == lookback@.len(),
            n == old(lookback)@.len(),
            1 <= i <= n,
            forall|k: int| 0 <= k < i - 1 ==> lookback@[k] == old(lookback)@[k + 1],
            forall|k: int| i - 1 <= k < n ==> lookback@[k] == old(lookback)@[k],
        decreases n - i,
    {
        let next = lookback[i];
        lookback.set(i - 1, next);
        i = i + 1;
    }
    lookback.set(n - 1, gram);
    assert(lookback@ =~= old(lookback)@.drop_first().push(gram));
}

/// A copy of a list of grams.
fn copy_grams(v: &Vec<char>) -> (res: Vec<char>)
    ensures
        res@ == v@,
{
    let res = v.clone();
    assert forall|i: int| 0 <= i < v@.len() implies res@[i] == v@[i] by {
        assert(vstd::pervasive::cloned(v@[i], res@[i]));
    }
    assert(res@ =~= v@);
    res
}

/// The window after position `p` is the window at `p` moved on by the gram
/// at `p + 1`.
proof fn lemma_window_next(g: Seq<char>, p: int, n: nat)
    requires
        n >= 1,
        -1 <= p,
        p + 1 < g.len(),
    ensures
        window(g, p + 1, n) == window(g, p, n).drop_first().push(g[p + 1]),
{
    assert(window(g, p + 1, n) =~= window(g, p, n).drop_first().push(g[p + 1]));
}

/// Adds to `map` one hit of product `d` for each position of `g`.
fn add_hits(
    map: &mut AHashMap<Vec<char>, Vec<usize>>,
    g: &Vec<char>,
    d: usize,
    n: usize,
    Ghost(done): Ghost<Seq<(Seq<char>, usize)>>,
)
    requires
        n >= 1,
        gram_data(*old(map)) == partial_hit_map(done, g@, 0, d, n as nat),
    ensures
        gram_data(*final(map)) == partial_hit_map(done, g@, g@.len() as int, d, n as nat),
{
    let mut lookback: Vec<char> = Vec::new();
    let mut k: usize = 0;
    while k < n
        invariant
            k <= n,
            lookback@.len() == k,
            forall|i: int| 0 <= i < k ==> lookback@[i] == pad_gram(),
        decreases n - k,
    {
        lookback.push('\0');
        k = k + 1;
    }
    assert(lookback@ =~= window(g@, -1, n as nat));
    let mut p: usize = 0;
    while p < g.len()
        invariant
            n >= 1,
            p <= g@.len(),
            lookback@ == window(g@, p - 1, n as nat),
            gram_data(*map) == partial_hit_map(done, g@, p as int, d, n as nat),
        decreases g@.len() - p,
    {
        proof {
            lemma_window_next(g@, p - 1, n as nat);
        }
        shift_in(&mut lookback, g[p]);
        let ghost w = lookback@;
        let key = copy_grams(&lookback);
        let ghost old_map = gram_data(*map);
        let products = match gram_data_remove(map, lookback.as_slice()) {
            Some(mut list) => {
                list.push(d);
                list
            },
            None => {
                let mut list: Vec<usize> = Vec::new();
                list.push(d);
                list
            },
        };
        gram_data_insert(map, key, products);
        proof {
            let next = partial_hit_map(done, g@, p + 1, d, n as nat);
            assert forall|v: Seq<char>| v != w implies #[trigger] hits_in(g@, p + 1, v, n as nat, d)
                == hits_in(g@, p as int, v, n as nat, d) by {
            }
            assert(hits_in(g@, p + 1, w, n as nat, d) == hits_in(g@, p as int, w, n as nat, d).push(d));
            assert(hits(done, w, n as nat) + hits_in(g@, p + 1, w, n as nat, d) =~= (hits(done, w, n as nat)
                + hits_in(g@, p as int, w, n as nat, d)).push(d));
            let before = hits(done, w, n as nat) + hits_in(g@, p as int, w, n as nat, d);
            if !old_map.contains_key(w) {
                assert(before.len() == 0);
                assert(before.push(d) =~= seq![d]);
            }
            assert(gram_data(*map)[w] == before.push(d));
            assert forall|v: Seq<char>| #[trigger] gram_data(*map).contains_key(v) <==> next.contains_key(v) by {
                if v != w {
                    assert(hits_in(g@, p + 1, v, n as nat, d) == hits_in(g@, p as int, v, n as nat, d));
                }
            }
            assert forall|v: Seq<char>| #[trigger] gram_data(*map).contains_key(v) implies gram_data(*map)[v]
                == next[v] by {
                if v != w {
                    assert(hits_in(g@, p + 1, v, n as nat, d) == hits_in(g@, p as int, v, n as nat, d));
                }
            }
            assert(gram_data(*map) =~= next);
        }
        p = p + 1;
    }
}

/// The n-gram hit lists of an index for the feeds: each window with at
/// least one and fewer than `maximum` hits, its hits in order of the keys
/// of their products.
pub open spec fn data_matches(
    data: Map<Seq<char>, Seq<usize>>,
    feeds: Seq<(Seq<char>, usize)>,
    n: nat,
    maximum: nat,
    keys: Seq<Seq<u32>>,
) -> bool {
    &&& forall|w: Seq<char>| #[trigger] data.contains_key(w) <==> 0 < hits(feeds, w, n).len() < maximum
    &&& forall|w: Seq<char>|
        #[trigger] data.contains_key(w) ==> data[w] == sort_positions(hits(feeds, w, n), keys, false)
}

/// Every hit is the product of some feed.
proof fn lemma_hits_below(feeds: Seq<(Seq<char>, usize)>, w: Seq<char>, n: nat, bound: nat)
    requires
        forall|i: int| 0 <= i < feeds.len() ==> #[trigger] feeds[i].1 < bound,
    ensures
        forall|k: int| 0 <= k < hits(feeds, w, n).len() ==> #[trigger] hits(feeds, w, n)[k] < bound,
    decreases feeds.len(),
{
    if feeds.len() > 0 {
        let init = feeds.drop_last();
        assert forall|i: int| 0 <= i < init.len() implies #[trigger] init[i].1 < bound by {
            assert(init[i] == feeds[i]);
        }
        lemma_hits_below(init, w, n, bound);
        let last = feeds.last();
        lemma_hits_in_all(last.0, last.0.len() as int, w, n, last.1);
        let a = hits(init, w, n);
        let b = hits_in(last.0, last.0.len() as int, w, n, last.1);
        assert forall|k: int| 0 <= k < (a + b).len() implies #[trigger] (a + b)[k] < bound by {
            if k >= a.len() {
                assert((a + b)[k] == b[k - a.len()]);
            }
        }
    }
}

/// Every hit in one text is its product.
proof fn lemma_hits_in_all(g: Seq<char>, upto: int, w: Seq<char>, n: nat, d: usize)
    ensures
        forall|k: int| 0 <= k < hits_in(g, upto, w, n, d).len() ==> #[trigger] hits_in(g, upto, w, n, d)[k] == d,
    decreases upto,
{
    if upto > 0 {
        lemma_hits_in_all(g, upto - 1, w, n, d);
        let prev = hits_in(g, upto - 1, w, n, d);
        assert forall|k: int| 0 <= k < hits_in(g, upto, w, n, d).len() implies #[trigger] hits_in(g, upto, w, n, d)[k]
            == d by {
            if window(g, upto - 1, n) == w && k == prev.len() {
                assert(hits_in(g, upto, w, n, d) == prev.push(d));
            } else if window(g, upto - 1, n) == w {
                assert(hits_in(g, upto, w, n, d)[k] == prev[k]);
            }
        }
    }
}

/// The n-gram hit lists of the feeds: for each window of `n` grams (padded
/// in front) with fewer than `maximum` hits, the products of its
/// positions, ordered by their keys.
pub fn collect_hits(feeds: &Vec<IndexFeed>, n: usize, keys: &Vec<Vec<u32>>, maximum: usize) -> (res:
    AHashMap<Vec<char>, Vec<usize>>)
    requires
        n >= 1,
        forall|i: int| 0 <= i < feeds@.len() ==> #[trigger] feeds@[i].data < keys@.len(),
    ensures
        data_matches(gram_data(res), feed_views(feeds@), n as nat, maximum as nat, keys.deep_view()),
{
    let ghost views = feed_views(feeds@);
    let mut map = gram_data_new();
    let mut fi: usize = 0;
    assert(gram_data(map) =~= hit_map(views.take(0), n as nat));
    while fi < feeds.len()
        invariant
            n >= 1,
            views == feed_views(feeds@),
            fi <= feeds@.len(),
            gram_data(map) == hit_map(views.take(fi as int), n as nat),
        decreases feeds@.len() - fi,
    {
        let ghost done = views.take(fi as int);
        let feed = &feeds[fi];
        proof {
            assert forall|w: Seq<char>| #[trigger] hits_in(feed.grams@, 0, w, n as nat, feed.data) == Seq::<usize>::empty() by {
            }
            assert forall|w: Seq<char>| #[trigger] hits(done, w, n as nat) + hits_in(feed.grams@, 0, w, n as nat, feed.data)
                == hits(done, w, n as nat) by {
                assert(hits(done, w, n as nat) + Seq::<usize>::empty() =~= hits(done, w, n as nat));
            }
            assert(gram_data(map) =~= partial_hit_map(done, feed.grams@, 0, feed.data, n as nat));
        }
        add_hits(&mut map, &feed.grams, feed.data, n, Ghost(done));
        proof {
            let next = views.take(fi + 1);
            assert(next.drop_last() =~= done);
            assert(next.last() == (feed.grams@, feed.data));
            assert forall|w: Seq<char>| #[trigger] hits(next, w, n as nat) == hits(done, w, n as nat) + hits_in(
                feed.grams@,
                feed.grams@.len() as int,
                w,
                n as nat,
                feed.data,
            ) by {
            }
            assert(gram_data(map) =~= hit_map(next, n as nat));
        }
        fi = fi + 1;
    }
    assert(views.take(fi as int) =~= views);
    let ghost raw = gram_data(map);
    proof {
        assert forall|i: int| 0 <= i < views.len() implies #[trigger] views[i].1 < keys@.len() by {
            assert(views[i].1 == feeds@[i].data);
        }
    }
    let entries = gram_data_into_entries(map);
    let mut out = gram_data_new();
    let mut i: usize = 0;
    while i < entries.len()
        invariant
            i <= entries@.len(),
            raw == hit_map(views, n as nat),
            forall|k: int| 0 <= k < views.len() ==> #[trigger] views[k].1 < keys@.len(),
            forall|w: Seq<char>| #[trigger] raw.contains_key(w) ==> exists|k: int|
                0 <= k < entries@.len() && entries@[k].0@ == w,
            forall|k: int| 0 <= k < entries@.len() ==> raw.contains_key(#[trigger] entries@[k].0@)
                && raw[entries@[k].0@] == entries@[k].1@,
            forall|a: int, b: int| 0 <= a < b < entries@.len() ==> #[trigger] entries@[a].0@ != #[trigger] entries@[b].0@,
            forall|w: Seq<char>| #[trigger] gram_data(out).contains_key(w) <==> exists|k: int|
                0 <= k < i && entries@[k].0@ == w && entries@[k].1@.len() < maximum,
            forall|w: Seq<char>| #[trigger] gram_data(out).contains_key(w) ==> gram_data(out)[w] == sort_positions(
                raw[w],
                keys.deep_view(),
                false,
            ),
        decreases entries@.len() - i,
    {
        let entry = &entries[i];
        if entry.1.len() < maximum {
            proof {
                lemma_hits_below(views, entry.0@, n as nat, keys@.len());
            }
            let sorted = sort_positions_exec(&entry.1, keys, false);
            let key = copy_grams(&entry.0);
            gram_data_insert(&mut out, key, sorted);
        }
        proof {
            assert forall|w: Seq<char>| #[trigger] gram_data(out).contains_key(w) <==> exists|k: int|
                0 <= k < i + 1 && entries@[k].0@ == w && entries@[k].1@.len() < maximum by {
                if exists|k: int| 0 <= k < i + 1 && entries@[k].0@ == w && entries@[k].1@.len() < maximum {
                    let k = choose|k: int| 0 <= k < i + 1 && entries@[k].0@ == w && entries@[k].1@.len() < maximum;
                    if k < i {
                        assert(exists|k2: int| 0 <= k2 < i && entries@[k2].0@ == w && entries@[k2].1@.len() < maximum);
                    }
                }
                if gram_data(out).contains_key(w) && w != entry.0@ {
                    let k = choose|k: int| 0 <= k < i && entries@[k].0@ == w && entries@[k].1@.len() < maximum;
                    assert(0 <= k < i + 1);
                }
            }
        }
        i = i + 1;
    }
    proof {
        assert forall|w: Seq<char>| #[trigger] gram_data(out).contains_key(w) <==> 0 < hits(views, w, n as nat).len()
            < maximum by {
            if 0 < hits(views, w, n as nat).len() < maximum {
                assert(raw.contains_key(w));
                let k = choose|k: int| 0 <= k < entries@.len() && entries@[k].0@ == w;
            }
            if gram_data(out).contains_key(w) {
                let k = choose|k: int| 0 <= k < i && entries@[k].0@ == w && entries@[k].1@.len() < maximum;
                assert(raw.contains_key(entries@[k].0@));
            }
        }
        assert forall|w: Seq<char>| #[trigger] gram_data(out).contains_key(w) implies gram_data(out)[w] == sort_positions(
            hits(views, w, n as nat),
            keys.deep_view(),
            false,
        ) by {
            let k = choose|k: int| 0 <= k < i && entries@[k].0@ == w && entries@[k].1@.len() < maximum;
            assert(raw.contains_key(entries@[k].0@));
        }
    }
    out
}

} // verus!
