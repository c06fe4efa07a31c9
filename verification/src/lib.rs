//! A product search index: an n-gram tree over product texts, classic
//! indexes (categories, tags, orderings) and a compact binary format that
//! stores both.
pub mod classic_indexes;
pub mod data;
pub mod hashing;
pub mod js_interactable;
pub mod ngramindex;
pub mod preprocessor;
pub mod ngram;
pub mod serialize;
pub mod sorting;

use vstd::prelude::*;

use classic_indexes::ClassicIndexes;
use data::container::ProductContainer;
use data::product::Product;
use js_interactable::category_handler::{fits_options, options_exist, CategoryHandler};
use js_interactable::tag_handler::{fits_tags, tags_exist, TagHandler};
use serialize::collections::chars_of;
use sorting::{lemma_sort_positions, lex_less, sort_positions, sort_positions_exec, sorted_by};
use vstd::utf8::encode_utf8;

verus! {

/// The positions of the found products (given by their index in the
/// container) that carry every selected option and tag, in the order found.
pub open spec fn kept_results(
    found: Seq<usize>,
    products: Seq<Product>,
    classic: ClassicIndexes,
    options: Set<(usize, usize)>,
    tags: Set<usize>,
) -> Seq<usize>
    decreases found.len(),
{
    if found.len() == 0 {
        Seq::empty()
    } else {
        let kept = kept_results(found.drop_last(), products, classic, options, tags);
        let id = products[found.last() as int].serialization_id;
        if fits_options(classic, options, id) && fits_tags(classic, tags, id) {
            kept.push(id)
        } else {
            kept
        }
    }
}

/// Every selected option lists position `id`.
pub open spec fn listed_by_options(classic: ClassicIndexes, options: Set<(usize, usize)>, id: usize) -> bool {
    forall|k: (usize, usize)|
        #[trigger] options.contains(k) ==> classic.categories.view()[k.0 as int].options[k.1 as int].content.contains(id)
}

/// Every selected tag lists position `id`.
pub open spec fn listed_by_tags(classic: ClassicIndexes, tags: Set<usize>, id: usize) -> bool {
    forall|t: usize| #[trigger] tags.contains(t) ==> classic.tags.view()[t as int].products.contains(id)
}

/// What a search keeps of the products found: only positions of found
/// products that every selected category option and every selected tag
/// list, and every such found product, no more often than found.
pub proof fn lemma_kept_results_filter(
    found: Seq<usize>,
    products: Seq<Product>,
    classic: ClassicIndexes,
    options: Set<(usize, usize)>,
    tags: Set<usize>,
)
    ensures
        kept_results(found, products, classic, options, tags).len() <= found.len(),
        forall|j: int|
            0 <= j < kept_results(found, products, classic, options, tags).len() ==> {
                let id = #[trigger] kept_results(found, products, classic, options, tags)[j];
                &&& exists|m: int| 0 <= m < found.len() && id == products[found[m] as int].serialization_id
                &&& listed_by_options(classic, options, id)
                &&& listed_by_tags(classic, tags, id)
            },
        forall|m: int|
            0 <= m < found.len() && listed_by_options(classic, options, products[found[m] as int].serialization_id)
                && listed_by_tags(classic, tags, products[found[m] as int].serialization_id) ==> kept_results(
                found,
                products,
                classic,
                options,
                tags,
            ).contains(#[trigger] products[found[m] as int].serialization_id),
    decreases found.len(),
{
    let kept = kept_results(found, products, classic, options, tags);
    if found.len() > 0 {
        let init = found.drop_last();
        let before = kept_results(init, products, classic, options, tags);
        lemma_kept_results_filter(init, products, classic, options, tags);
        let id = products[found.last() as int].serialization_id;
        assert(fits_options(classic, options, id) == listed_by_options(classic, options, id));
        assert(fits_tags(classic, tags, id) == listed_by_tags(classic, tags, id));
        assert forall|j: int| 0 <= j < kept.len() implies {
            let x = #[trigger] kept[j];
            &&& exists|m: int| 0 <= m < found.len() && x == products[found[m] as int].serialization_id
            &&& listed_by_options(classic, options, x)
            &&& listed_by_tags(classic, tags, x)
        } by {
            if j < before.len() {
                assert(kept[j] == before[j]);
                let m = choose|m: int| 0 <= m < init.len() && before[j] == products[init[m] as int].serialization_id;
                assert(init[m] == found[m]);
            } else {
                assert(kept[j] == id);
                assert(found[found.len() - 1] == found.last());
            }
        }
        assert forall|m: int|
            0 <= m < found.len() && listed_by_options(classic, options, products[found[m] as int].serialization_id)
                && listed_by_tags(classic, tags, products[found[m] as int].serialization_id) implies kept.contains(
            #[trigger] products[found[m] as int].serialization_id,
        ) by {
            let x = products[found[m] as int].serialization_id;
            if m < init.len() {
                assert(init[m] == found[m]);
                assert(before.contains(x));
                let j = choose|j: int| 0 <= j < before.len() && before[j] == x;
                assert(kept[j] == x);
            } else {
                assert(found[m] == found.last());
                assert(kept[kept.len() - 1] == id);
            }
        }
    }
}

/// A search over one found product keeps its position exactly when every
/// selected option and every selected tag list it.
pub proof fn lemma_kept_results_single(
    f: usize,
    products: Seq<Product>,
    classic: ClassicIndexes,
    options: Set<(usize, usize)>,
    tags: Set<usize>,
)
    ensures
        kept_results(seq![f], products, classic, options, tags) == if listed_by_options(
            classic,
            options,
            products[f as int].serialization_id,
        ) && listed_by_tags(classic, tags, products[f as int].serialization_id) {
            seq![products[f as int].serialization_id]
        } else {
            Seq::<usize>::empty()
        },
{
    let id = products[f as int].serialization_id;
    assert(seq![f].drop_last() =~= Seq::<usize>::empty());
    assert(kept_results(Seq::<usize>::empty(), products, classic, options, tags) == Seq::<usize>::empty());
    assert(fits_options(classic, options, id) == listed_by_options(classic, options, id));
    assert(fits_tags(classic, tags, id) == listed_by_tags(classic, tags, id));
    assert(Seq::<usize>::empty().push(id) =~= seq![id]);
}

/// Searching two runs of found products one after the other keeps what
/// each run keeps, in the same order: the first run's results, then the
/// second's.
pub proof fn lemma_kept_results_concat(
    a: Seq<usize>,
    b: Seq<usize>,
    products: Seq<Product>,
    classic: ClassicIndexes,
    options: Set<(usize, usize)>,
    tags: Set<usize>,
)
    ensures
        kept_results(a + b, products, classic, options, tags) == kept_results(a, products, classic, options, tags)
            + kept_results(b, products, classic, options, tags),
    decreases b.len(),
{
    if b.len() == 0 {
        assert(a + b =~= a);
        assert(kept_results(a, products, classic, options, tags) + Seq::<usize>::empty() =~= kept_results(
            a,
            products,
            classic,
            options,
            tags,
        ));
    } else {
        lemma_kept_results_concat(a, b.drop_last(), products, classic, options, tags);
        assert((a + b).drop_last() =~= a + b.drop_last());
        assert((a + b).last() == b.last());
        let ka = kept_results(a, products, classic, options, tags);
        let kb = kept_results(b.drop_last(), products, classic, options, tags);
        let id = products[b.last() as int].serialization_id;
        assert((ka + kb).push(id) =~= ka + kb.push(id));
    }
}

/// The keys that order product positions by an ordering: the place that
/// the ordering gives each position, as two 32-bit halves.
pub open spec fn place_keys(order: Seq<usize>) -> Seq<Seq<u32>> {
    order.map_values(|x: usize| seq![(x as int / 0x1_0000_0000) as u32, (x as int % 0x1_0000_0000) as u32])
}

/// Place keys compare as the places do.
proof fn lemma_place_keys_compare(x: usize, y: usize)
    ensures
        lex_less(
            seq![(x as int / 0x1_0000_0000) as u32, (x as int % 0x1_0000_0000) as u32],
            seq![(y as int / 0x1_0000_0000) as u32, (y as int % 0x1_0000_0000) as u32],
        ) <==> x < y,
{
    let hx = x as int / 0x1_0000_0000;
    let lx = x as int % 0x1_0000_0000;
    let hy = y as int / 0x1_0000_0000;
    let ly = y as int % 0x1_0000_0000;
    assert(0 <= hx < 0x1_0000_0000 && 0 <= hy < 0x1_0000_0000) by (nonlinear_arith)
        requires
            0 <= x <= 0xffff_ffff_ffff_ffff,
            0 <= y <= 0xffff_ffff_ffff_ffff,
            hx == x as int / 0x1_0000_0000,
            hy == y as int / 0x1_0000_0000,
    ;
    assert(x < y <==> (hx < hy || (hx == hy && lx < ly))) by (nonlinear_arith)
        requires
            hx == x as int / 0x1_0000_0000,
            lx == x as int % 0x1_0000_0000,
            hy == y as int / 0x1_0000_0000,
            ly == y as int % 0x1_0000_0000,
            x >= 0,
            y >= 0,
    {
        assert(x == hx * 0x1_0000_0000 + lx);
        assert(y == hy * 0x1_0000_0000 + ly);
        assert(0 <= lx < 0x1_0000_0000);
        assert(0 <= ly < 0x1_0000_0000);
    }
    let a = seq![hx as u32, lx as u32];
    let b = seq![hy as u32, ly as u32];
    assert(a[0] == hx && a[1] == lx && b[0] == hy && b[1] == ly);
    assert(a.drop_first() =~= seq![lx as u32]);
    assert(b.drop_first() =~= seq![ly as u32]);
    assert(a.drop_first().drop_first() =~= Seq::<u32>::empty());
    assert(b.drop_first().drop_first() =~= Seq::<u32>::empty());
    reveal_with_fuel(lex_less, 3);
    assert(lex_less(a, b) <==> (hx < hy || (hx == hy && lx < ly)));
}

/// Results sorted by the place keys of an ordering come in the order of
/// their places, each found product as often as before.
pub proof fn lemma_results_follow_places(kept: Seq<usize>, order: Seq<usize>)
    requires
        forall|i: int| 0 <= i < kept.len() ==> #[trigger] kept[i] < order.len(),
    ensures
        sort_positions(kept, place_keys(order), false).to_multiset() == kept.to_multiset(),
        forall|i: int, j: int|
            0 <= i < j < kept.len() ==> order[sort_positions(kept, place_keys(order), false)[i] as int]
                <= order[sort_positions(kept, place_keys(order), false)[j] as int],
{
    let r = sort_positions(kept, place_keys(order), false);
    lemma_sort_positions(kept, place_keys(order), false);
    assert(r.len() == kept.len()) by {
        vstd::seq_lib::lemma_multiset_commutative(r, kept);
        assert(r.to_multiset().len() == kept.to_multiset().len());
        r.to_multiset_ensures();
        kept.to_multiset_ensures();
    }
    assert forall|i: int| 0 <= i < r.len() implies #[trigger] r[i] < order.len() by {
        r.to_multiset_ensures();
        kept.to_multiset_ensures();
        assert(r.contains(r[i]));
        assert(kept.to_multiset().count(r[i]) > 0);
        let k = choose|k: int| 0 <= k < kept.len() && kept[k] == r[i];
    }
    assert forall|i: int, j: int| 0 <= i < j < kept.len() implies order[r[i] as int] <= order[r[j] as int] by {
        assert(sorted_by(r, place_keys(order), false));
        assert(!lex_less(place_keys(order)[r[j] as int], place_keys(order)[r[i] as int]));
        lemma_place_keys_compare(order[r[j] as int], order[r[i] as int]);
    }
}

/// The result of a search: of the products found (by index in the
/// container), the positions of those that carry every selected option and
/// tag, then, when an ordering is given, sorted by their places in it
/// (equal places keep the order found).
pub fn search_results(
    found: &Vec<usize>,
    container: &ProductContainer,
    classic: &ClassicIndexes,
    categories: &CategoryHandler,
    tags: &TagHandler,
    order: Option<&Vec<usize>>,
) -> (res: Vec<usize>)
    requires
        classic.wf(),
        options_exist(*classic, categories.selected()),
        tags_exist(*classic, tags.selected()),
        forall|i: int| 0 <= i < found@.len() ==> #[trigger] found@[i] < container.products@.len(),
        order matches Some(o) ==> forall|i: int|
            0 <= i < found@.len() ==> container.products@[#[trigger] found@[i] as int].serialization_id < o@.len(),
    ensures
        ({
            let kept = kept_results(found@, container.products@, *classic, categories.selected(), tags.selected());
            match order {
                None => res@ == kept,
                Some(o) => res@ == sort_positions(kept, place_keys(o@), false),
            }
        }),
        res@.len() <= found@.len(),
        forall|j: int|
            0 <= j < res@.len() ==> {
                let id = #[trigger] res@[j];
                &&& exists|m: int| 0 <= m < found@.len() && id == container.products@[found@[m] as int].serialization_id
                &&& listed_by_options(*classic, categories.selected(), id)
                &&& listed_by_tags(*classic, tags.selected(), id)
            },
        forall|m: int|
            0 <= m < found@.len() && listed_by_options(
                *classic,
                categories.selected(),
                container.products@[found@[m] as int].serialization_id,
            ) && listed_by_tags(*classic, tags.selected(), container.products@[found@[m] as int].serialization_id)
                ==> res@.contains(#[trigger] container.products@[found@[m] as int].serialization_id),
{
    let ghost products = container.products@;
    let mut kept: Vec<usize> = Vec::new();
    let mut i: usize = 0;
    while i < found.len()
        invariant
            classic.wf(),
            options_exist(*classic, categories.selected()),
            tags_exist(*classic, tags.selected()),
            products == container.products@,
            forall|j: int| 0 <= j < found@.len() ==> #[trigger] found@[j] < products.len(),
            i <= found@.len(),
            kept@ == kept_results(found@.take(i as int), products, *classic, categories.selected(), tags.selected()),
            forall|j: int|
                0 <= j < kept@.len() ==> exists|m: int|
                    0 <= m < i && #[trigger] kept@[j] == products[found@[m] as int].serialization_id,
        decreases found@.len() - i,
    {
        let product = &container.products[found[i]];
        proof {
            assert(found@.take(i + 1).drop_last() =~= found@.take(i as int));
        }
        if categories.is_valid(classic, product) && tags.is_valid(classic, product) {
            kept.push(product.serialization_id);
        }
        i = i + 1;
    }
    assert(found@.take(i as int) =~= found@);
    proof {
        lemma_kept_results_filter(found@, container.products@, *classic, categories.selected(), tags.selected());
    }
    match order {
        None => kept,
        Some(o) => {
            let mut keys: Vec<Vec<u32>> = Vec::new();
            let mut k: usize = 0;
            while k < o.len()
                invariant
                    k <= o@.len(),
                    keys@.len() == k,
                    keys.deep_view() == place_keys(o@).take(k as int),
                decreases o@.len() - k,
            {
                let place = o[k] as u64;
                let key = vec![(place / 0x1_0000_0000) as u32, (place % 0x1_0000_0000) as u32];
                assert(key.deep_view() =~= place_keys(o@)[k as int]);
                let ghost before = keys.deep_view();
                keys.push(key);
                k = k + 1;
                assert(keys.deep_view() =~= place_keys(o@).take(k as int));
            }
            assert(place_keys(o@).take(k as int) =~= place_keys(o@));
            assert forall|j: int| 0 <= j < kept@.len() implies #[trigger] kept@[j] < keys@.len() by {
                let m = choose|m: int| 0 <= m < found@.len() && kept@[j] == products[found@[m] as int].serialization_id;
            }
            let res = sort_positions_exec(&kept, &keys, false);
            proof {
                let r = res@;
                lemma_results_follow_places(kept@, o@);
                assert(r.to_multiset() == kept@.to_multiset());
                r.to_multiset_ensures();
                kept@.to_multiset_ensures();
                assert(r.len() == kept@.len()) by {
                    assert(r.to_multiset().len() == kept@.to_multiset().len());
                }
                assert forall|j: int| 0 <= j < r.len() implies kept@.contains(#[trigger] r[j]) by {
                    assert(r.contains(r[j]));
                    assert(r.to_multiset().count(r[j]) > 0);
                }
                assert forall|x: usize| kept@.contains(x) implies r.contains(x) by {
                    assert(kept@.to_multiset().count(x) > 0);
                }
                assert forall|j: int| 0 <= j < r.len() implies {
                    let id = #[trigger] r[j];
                    &&& exists|m: int| 0 <= m < found@.len() && id == products[found@[m] as int].serialization_id
                    &&& listed_by_options(*classic, categories.selected(), id)
                    &&& listed_by_tags(*classic, tags.selected(), id)
                } by {
                    assert(kept@.contains(r[j]));
                    let q = choose|q: int| 0 <= q < kept@.len() && kept@[q] == r[j];
                    assert(kept@[q] == r[j]);
                }
            }
            res
        },
    }
}

/// The number of places, walking both texts together, where they hold the
/// same character.
pub open spec fn agreeing_places(a: Seq<char>, b: Seq<char>) -> nat
    decreases a.len(),
{
    if a.len() == 0 || b.len() == 0 {
        0
    } else {
        (if a[0] == b[0] {
            1nat
        } else {
            0nat
        }) + agreeing_places(a.drop_first(), b.drop_first())
    }
}

/// The two parts of how much two words overlap: the number of places where
/// they agree, and the byte length of the shorter; `None` when that length
/// is below `min_len` (no overlap).
pub fn overlap_parts(word: &str, other: &str, min_len: usize) -> (res: Option<(usize, usize)>)
    ensures
        ({
            let a = encode_utf8(word@).len();
            let b = encode_utf8(other@).len();
            let shorter = if a < b {
                a
            } else {
                b
            };
            if shorter < min_len {
                res is None
            } else {
                res == Some((agreeing_places(word@, other@) as usize, shorter as usize))
            }
        }),
{
    let a = word.as_bytes().len();
    let b = other.as_bytes().len();
    let shorter = if a < b {
        a
    } else {
        b
    };
    if shorter < min_len {
        return None;
    }
    let x = chars_of(word);
    let y = chars_of(other);
    let mut same: usize = 0;
    let mut i: usize = 0;
    proof {
        assert(x@.skip(0) =~= x@);
        assert(y@.skip(0) =~= y@);
    }
    while i < x.len() && i < y.len()
        invariant
            x@ == word@,
            y@ == other@,
            i <= x@.len(),
            i <= y@.len(),
            same <= i,
            same + agreeing_places(x@.skip(i as int), y@.skip(i as int)) == agreeing_places(x@, y@),
        decreases x@.len() - i,
    {
        proof {
            assert(x@.skip(i as int).drop_first() =~= x@.skip(i + 1));
            assert(y@.skip(i as int).drop_first() =~= y@.skip(i + 1));
        }
        if x[i] == y[i] {
            same = same + 1;
        }
        i = i + 1;
    }
    Some((same, shorter))
}

/// The pieces of a text between spaces, as `str::split(' ')` gives them:
/// one more piece than there are spaces, empty pieces included.
pub open spec fn space_pieces(s: Seq<char>) -> Seq<Seq<char>>
    decreases s.len(),
{
    if s.len() == 0 {
        seq![Seq::empty()]
    } else {
        let pieces = space_pieces(s.drop_last());
        if s.last() == ' ' {
            pieces.push(Seq::empty())
        } else {
            pieces.update(pieces.len() - 1, pieces.last().push(s.last()))
        }
    }
}

proof fn lemma_space_pieces_nonempty(s: Seq<char>)
    ensures
        space_pieces(s).len() >= 1,
    decreases s.len(),
{
    if s.len() > 0 {
        lemma_space_pieces_nonempty(s.drop_last());
    }
}

/// The words of a query: the pieces between its spaces.
pub fn split_words(query: &str) -> (res: Vec<Vec<char>>)
    ensures
        res.deep_view() == space_pieces(query@),
{
    let chars = chars_of(query);
    let mut words: Vec<Vec<char>> = Vec::new();
    let mut current: Vec<char> = Vec::new();
    let mut i: usize = 0;
    assert(chars@.take(0) =~= Seq::<char>::empty());
    while i < chars.len()
        invariant
            chars@ == query@,
            i <= chars@.len(),
            words.deep_view().push(current@) == space_pieces(chars@.take(i as int)),
        decreases chars@.len() - i,
    {
        let c = chars[i];
        let ghost before = words.deep_view().push(current@);
        proof {
            assert(chars@.take(i + 1).drop_last() =~= chars@.take(i as int));
            lemma_space_pieces_nonempty(chars@.take(i as int));
        }
        if c == ' ' {
            let done = current;
            assert(done.deep_view() =~= done@);
            let ghost w = words.deep_view();
            words.push(done);
            assert(words.deep_view() =~= w.push(done@));
            current = Vec::new();
            assert(words.deep_view().push(current@) =~= before.push(Seq::empty()));
        } else {
            current.push(c);
            assert(words.deep_view().push(current@) =~= before.update(before.len() - 1, before.last().push(c)));
        }
        i = i + 1;
    }
    assert(chars@.take(i as int) =~= chars@);
    let ghost w = words.deep_view();
    assert(current.deep_view() =~= current@);
    words.push(current);
    assert(words.deep_view() =~= w.push(current@));
    words
}

} // verus!
