//! What a text contributes to the statistics of common gram prefixes.
use vstd::prelude::*;

verus! {

/// `g` is the first two to `n - 1` grams of a window of `s` that starts at
/// some `i < s.len() - n`.
pub open spec fn is_window_prefix(s: Seq<char>, n: nat, g: Seq<char>) -> bool {
    exists|i: int, e: int| 0 <= i < s.len() - n && i + 2 <= e < i + n && g == #[trigger] s.subrange(i, e)
}

/// Some entry of `list` holds the grams `g`.
pub open spec fn listed(list: Seq<Vec<char>>, g: Seq<char>) -> bool {
    exists|k: int| 0 <= k < list.len() && (#[trigger] list[k])@ == g
}

/// The same grams in the same order.
fn same_grams(a: &Vec<char>, b: &Vec<char>) -> (res: bool)
    ensures
        res == (a@ == b@),
{
    if a.len() != b.len() {
        return false;
    }
    let mut i: usize = 0;
    while i < a.len()
        invariant
            a@.len() == b@.len(),
            i <= a@.len(),
            forall|k: int| 0 <= k < i ==> a@[k] == b@[k],
        decreases a@.len() - i,
    {
        if a[i] != b[i] {
            return false;
        }
        i = i + 1;
    }
    assert(a@ =~= b@);
    true
}

/// Whether `piece` is among `seen`.
fn holds_grams(seen: &Vec<Vec<char>>, piece: &Vec<char>) -> (res: bool)
    ensures
        res == exists|k: int| 0 <= k < seen@.len() && (#[trigger] seen@[k])@ == piece@,
{
    let mut k: usize = 0;
    while k < seen.len()
        invariant
            k <= seen@.len(),
            forall|m: int| 0 <= m < k ==> (#[trigger] seen@[m])@ != piece@,
        decreases seen@.len() - k,
    {
        if same_grams(&seen[k], piece) {
            return true;
        }
        k = k + 1;
    }
    false
}

/// The grams of `s` from `start` to `end`.
fn grams_between(s: &[char], start: usize, end: usize) -> (res: Vec<char>)
    requires
        start <= end <= s@.len(),
    ensures
        res@ == s@.subrange(start as int, end as int),
{
    let mut res: Vec<char> = Vec::new();
    let mut i: usize = start;
    while i < end
        invariant
            start <= i <= end,
            end <= s@.len(),
            res@ == s@.subrange(start as int, i as int),
        decreases end - i,
    {
        res.push(s[i]);
        i = i + 1;
        assert(res@ =~= s@.subrange(start as int, i as int));
    }
    res
}

/// The prefixes of two to `N - 1` grams of every `N`-gram window of a text
/// but the last, each once.
pub fn occurances_for_source<const N: usize>(grams: &[char]) -> (res: Vec<Vec<char>>)
    requires
        N <= grams@.len(),
    ensures
        forall|k: int| 0 <= k < res@.len() ==> is_window_prefix(grams@, N as nat, (#[trigger] res@[k])@),
        forall|i: int, e: int|
            0 <= i < grams@.len() - N && i + 2 <= e < i + N ==> listed(res@, #[trigger] grams@.subrange(i, e)),
        forall|a: int, b: int| 0 <= a < b < res@.len() ==> (#[trigger] res@[a])@ != (#[trigger] res@[b])@,
{
    let mut seen: Vec<Vec<char>> = Vec::new();
    let glen = grams.len();
    let limit = glen - N;
    let mut i: usize = 0;
    while i < limit
        invariant
            limit == grams@.len() - N,
            glen == grams@.len(),
            i <= limit,
            forall|k: int| 0 <= k < seen@.len() ==> is_window_prefix(grams@, N as nat, (#[trigger] seen@[k])@),
            forall|i2: int, e: int|
                0 <= i2 < i && i2 + 2 <= e < i2 + N ==> listed(seen@, #[trigger] grams@.subrange(i2, e)),
            forall|a: int, b: int| 0 <= a < b < seen@.len() ==> (#[trigger] seen@[a])@ != (#[trigger] seen@[b])@,
        decreases limit - i,
    {
        let mut j: usize = 2;
        while j < N
            invariant
                limit == grams@.len() - N,
            glen == grams@.len(),
                i < limit,
                2 <= j,
                forall|k: int| 0 <= k < seen@.len() ==> is_window_prefix(grams@, N as nat, (#[trigger] seen@[k])@),
                forall|i2: int, e: int|
                    (0 <= i2 < i && i2 + 2 <= e < i2 + N) || (i2 == i && i2 + 2 <= e < i2 + j) ==> listed(
                        seen@,
                        #[trigger] grams@.subrange(i2, e),
                    ),
                forall|a: int, b: int| 0 <= a < b < seen@.len() ==> (#[trigger] seen@[a])@ != (#[trigger] seen@[b])@,
            decreases N - j,
        {
            let piece = grams_between(grams, i, i + j);
            let ghost before = seen@;
            if holds_grams(&seen, &piece) {
                proof {
                    assert(listed(seen@, grams@.subrange(i as int, i + j)));
                }
            } else {
                seen.push(piece);
                proof {
                    assert(seen@[before.len() as int]@ == grams@.subrange(i as int, i + j));
                    assert forall|k: int| 0 <= k < seen@.len() implies is_window_prefix(
                        grams@,
                        N as nat,
                        (#[trigger] seen@[k])@,
                    ) by {
                        if k == before.len() {
                            assert(grams@.subrange(i as int, i + j) == grams@.subrange(i as int, i + j));
                        } else {
                            assert(seen@[k] == before[k]);
                        }
                    }
                    assert forall|i2: int, e: int|
                        (0 <= i2 < i && i2 + 2 <= e < i2 + N) || (i2 == i && i2 + 2 <= e < i2 + j + 1) implies listed(
                            seen@,
                            #[trigger] grams@.subrange(i2, e),
                        ) by {
                        if i2 == i && e == i + j {
                            assert(seen@[before.len() as int]@ == grams@.subrange(i2, e));
                        } else {
                            assert(listed(before, grams@.subrange(i2, e)));
                            let k = choose|k: int| 0 <= k < before.len() && (#[trigger] before[k])@ == grams@.subrange(i2, e);
                            assert(seen@[k] == before[k]);
                        }
                    }
                    assert forall|a: int, b: int| 0 <= a < b < seen@.len() implies (#[trigger] seen@[a])@
                        != (#[trigger] seen@[b])@ by {
                        if b == before.len() {
                            assert(seen@[a] == before[a]);
                        } else {
                            assert(seen@[a] == before[a] && seen@[b] == before[b]);
                        }
                    }
                }
            }
            j = j + 1;
        }
        i = i + 1;
    }
    seen
}

} // verus!
