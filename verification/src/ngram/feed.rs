use vstd::prelude::*;

verus! {

/// The kind of item that n-grams are made of.
pub trait GramAtom: Copy + Eq {

}

impl GramAtom for char {

}

/// The value that pads an n-gram where the text has no item yet.
pub open spec fn pad_gram() -> char {
    '\0'
}

/// The grams of one product's text, with the position of the product they
/// come from.
pub struct IndexFeed {
    pub grams: Vec<char>,
    pub data: usize,
}

/// Takes the next `N - 1` grams from `grams` at `*cursor` and gives the
/// `N`-gram whose last place is padding; `None` (with the cursor at the end)
/// when fewer than `N - 1` grams are left.
pub fn n_gram_with_1_padding<const N: usize>(grams: &[char], cursor: &mut usize) -> (res: Option<
    Vec<char>,
>)
    requires
        N >= 1,
        *old(cursor) <= grams@.len(),
    ensures
        *old(cursor) + N - 1 <= grams@.len() ==> {
            &&& res matches Some(g)
            &&& g@ == grams@.subrange(*old(cursor) as int, *old(cursor) + N - 1).push(pad_gram())
            &&& *final(cursor) == *old(cursor) + N - 1
        },
        *old(cursor) + N - 1 > grams@.len() ==> res is None && *final(cursor) == grams@.len(),
{
    let start = *cursor;
    let mut base: Vec<char> = Vec::new();
    let mut i: usize = 0;
    while i < N - 1
        invariant
            N >= 1,
            start <= grams@.len(),
            start == *old(cursor),
            *cursor == start + i,
            i <= N - 1,
            start + i <= grams@.len(),
            base@ == grams@.subrange(start as int, start + i),
        decreases N - 1 - i,
    {
        if *cursor >= grams.len() {
            return None;
        }
        base.push(grams[*cursor]);
        *cursor = *cursor + 1;
        i = i + 1;
        assert(base@ == grams@.subrange(start as int, start + i));
    }
    base.push('\0');
    Some(base)
}

} // verus!
