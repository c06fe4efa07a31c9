use vstd::prelude::*;

verus! {

/// `s` occurs in `g` starting at position `q`.
pub open spec fn starts_at(g: Seq<char>, q: int, s: Seq<char>) -> bool {
    &&& 0 <= q
    &&& q + s.len() <= g.len()
    &&& g.subrange(q, q + s.len()) == s
}

/// How many of the positions before `upto` in `g` start an occurrence of `s`.
pub open spec fn occurrences_in(g: Seq<char>, upto: int, s: Seq<char>) -> nat
    decreases upto,
{
    if upto <= 0 {
        0
    } else {
        occurrences_in(g, upto - 1, s) + if starts_at(g, upto - 1, s) {
            1nat
        } else {
            0nat
        }
    }
}

/// How often `s` occurs in the texts, over all of them.
pub open spec fn occurrences(texts: Seq<Seq<char>>, s: Seq<char>) -> nat
    decreases texts.len(),
{
    if texts.len() == 0 {
        0
    } else {
        occurrences(texts.drop_last(), s) + occurrences_in(texts.last(), texts.last().len() as int, s)
    }
}

/// The number of grams in the texts.
pub open spec fn total_grams(texts: Seq<Seq<char>>) -> nat
    decreases texts.len(),
{
    if texts.len() == 0 {
        0
    } else {
        total_grams(texts.drop_last()) + texts.last().len()
    }
}

pub proof fn lemma_occurrences_in_bound(g: Seq<char>, upto: int, s: Seq<char>)
    requires
        0 <= upto,
    ensures
        occurrences_in(g, upto, s) <= upto,
    decreases upto,
{
    if upto > 0 {
        lemma_occurrences_in_bound(g, upto - 1, s);
    }
}

pub proof fn lemma_occurrences_bound(texts: Seq<Seq<char>>, s: Seq<char>)
    ensures
        occurrences(texts, s) <= total_grams(texts),
    decreases texts.len(),
{
    if texts.len() > 0 {
        lemma_occurrences_bound(texts.drop_last(), s);
        lemma_occurrences_in_bound(texts.last(), texts.last().len() as int, s);
    }
}

pub proof fn lemma_total_grams_push(texts: Seq<Seq<char>>, g: Seq<char>)
    ensures
        total_grams(texts.push(g)) == total_grams(texts) + g.len(),
        forall|s: Seq<char>| #[trigger] occurrences(texts.push(g), s) == occurrences(texts, s)
            + occurrences_in(g, g.len() as int, s),
{
    assert(texts.push(g).drop_last() == texts);
}

pub proof fn lemma_total_grams_prefix(texts: Seq<Seq<char>>, k: int)
    requires
        0 <= k <= texts.len(),
    ensures
        total_grams(texts.take(k)) <= total_grams(texts),
    decreases texts.len() - k,
{
    if k < texts.len() {
        lemma_total_grams_prefix(texts, k + 1);
        assert(texts.take(k + 1).drop_last() == texts.take(k));
    } else {
        assert(texts.take(k) == texts);
    }
}

} // verus!
