use vstd::prelude::*;
use vstd::utf8::encode_utf8;

use super::vendor::{Vendor, VendorManager};
use crate::serialize::collections::{
    bytes_start, chars_of, lemma_encode_utf8_concat, limited_chars, serialize_str, serialize_string_with_limit,
    spec_serialize_str,
};
use crate::serialize::primitives::{encode_varint};
use crate::serialize::sequential_array;
use crate::serialize::sequential_array::{
    is_ascending, lemma_sorted_usizes, sorted_usizes, spec_deserialize_ascending, spec_serialize_ascending,
};
use crate::serialize::traits::{reads_as, seq_result};
use crate::serialize::{Decoding, Deserializable, RoundTrip, Serializable};

verus! {

/// The number of bytes a product's description is cut to when written.
pub const DESCRIPTION_LIMIT: usize = 100;

/// A product as the index holds it.
#[derive(Debug)]
pub struct Product {
    pub description: String,
    pub title: String,
    pub vendor: Vendor,
    pub id: String,
    /// The product's position in its container.
    pub serialization_id: usize,
}

/// The model of a product.
pub struct ProductView {
    pub description: Seq<char>,
    pub title: Seq<char>,
    pub vendor: (Seq<char>, usize),
    pub id: Seq<char>,
    pub serialization_id: usize,
}

impl View for Product {
    type V = ProductView;

    open spec fn view(&self) -> ProductView {
        ProductView {
            description: self.description@,
            title: self.title@,
            vendor: self.vendor@,
            id: self.id@,
            serialization_id: self.serialization_id,
        }
    }
}

impl DeepView for Product {
    type V = ProductView;

    open spec fn deep_view(&self) -> ProductView {
        self@
    }
}

pub open spec fn is_decimal_digit(c: char) -> bool {
    '0' <= c <= '9'
}

/// The longest run of decimal digits at the end of `chars`.
pub open spec fn trailing_digits(chars: Seq<char>) -> Seq<char>
    decreases chars.len(),
{
    if chars.len() == 0 || !is_decimal_digit(chars.last()) {
        Seq::empty()
    } else {
        trailing_digits(chars.drop_last()).push(chars.last())
    }
}

/// The number that a run of decimal digits writes.
pub open spec fn decimal_value(digits: Seq<char>) -> nat
    decreases digits.len(),
{
    if digits.len() == 0 {
        0
    } else {
        10 * decimal_value(digits.drop_last()) + (digits.last() as u32 - '0' as u32) as nat
    }
}

pub open spec fn pow10(n: nat) -> nat
    decreases n,
{
    if n == 0 {
        1
    } else {
        10 * pow10((n - 1) as nat)
    }
}

/// Whether two descriptions agree: both empty, or both non-empty with the
/// UTF-8 bytes of one starting the other's (a written description may have
/// been cut).
pub open spec fn descriptions_match(a: Seq<char>, b: Seq<char>) -> bool {
    let ea = encode_utf8(a);
    let eb = encode_utf8(b);
    &&& (ea.len() == 0) == (eb.len() == 0)
    &&& (ea.is_prefix_of(eb) || eb.is_prefix_of(ea))
}

/// Two products are equal when their descriptions match and all other
/// fields are the same.
pub open spec fn products_match(a: ProductView, b: ProductView) -> bool {
    &&& descriptions_match(a.description, b.description)
    &&& a.title == b.title
    &&& a.vendor == b.vendor
    &&& a.id == b.id
    &&& a.serialization_id == b.serialization_id
}

impl Product {
    /// The number written by the decimal digits that end the product's id
    /// (0 when it does not end in a digit).
    pub fn get_id(&self) -> (res: u64)
        requires
            trailing_digits(self.id@).len() < 20,
        ensures
            res == decimal_value(trailing_digits(self.id@)),
    {
        let chars = chars_of(self.id.as_str());
        let mut out: u64 = 0;
        let mut multiplier: u64 = 1;
        let mut k: usize = chars.len();
        let ghost all = chars@;
        let ghost digits = trailing_digits(all);
        proof {
            lemma_trailing_digits(all);
            assert(all.subrange(k as int, all.len() as int) == Seq::<char>::empty());
            if k == 0 {
                assert(digits =~= Seq::<char>::empty());
            }
        }
        while k > 0
            invariant_except_break
                all == chars@,
                k <= all.len(),
                digits == trailing_digits(all),
                digits.len() < 20,
                all.len() - k <= digits.len(),
                out == decimal_value(all.subrange(k as int, all.len() as int)),
                multiplier == pow10((all.len() - k) as nat),
                k == 0 ==> out == decimal_value(digits),
            ensures
                out == decimal_value(digits),
            decreases k,
        {
            let c = chars[k - 1];
            if !(c >= '0' && c <= '9') {
                proof {
                    lemma_digits_stop(all, k as int);
                }
                break ;
            }
            let n = (c as u32 - '0' as u32) as u64;
            let ghost sub = all.subrange(k as int, all.len() as int);
            proof {
                lemma_digits_run(all, k as int);
                lemma_pow10_bound((all.len() - k) as nat);
                lemma_trailing_digits(all);
                assert forall|i: int| 0 <= i < sub.len() implies is_decimal_digit(#[trigger] sub[i]) by {
                    assert(sub[i] == digits[digits.len() - sub.len() + i]);
                }
                lemma_decimal_value_bound(sub);
                lemma_decimal_value_prepend(sub, c);
                assert(all.subrange(k - 1, all.len() as int) == seq![c] + sub);
                assert(n * pow10((all.len() - k) as nat) <= 9 * 1_000_000_000_000_000_000) by (nonlinear_arith)
                    requires
                        n <= 9,
                        pow10((all.len() - k) as nat) <= 1_000_000_000_000_000_000,
                ;
            }
            out = out + n * multiplier;
            k = k - 1;
            proof {
                lemma_pow10_bound((all.len() - k) as nat);
                if k == 0 {
                    lemma_trailing_digits(all);
                    assert(all.skip(0) =~= all);
                    assert(all.subrange(0, all.len() as int) =~= all);
                }
            }
            multiplier = multiplier * 10;
        }
        out
    }

    /// Writes the product: its description cut near 100 bytes, its title,
    /// its id and its vendor's position.
    pub fn serialize(&self, output: &mut Vec<u8>)
        ensures
            final(output)@ == old(output)@ + spec_serialize_product(self@),
    {
        serialize_string_with_limit(self.description.as_str(), DESCRIPTION_LIMIT, output);
        serialize_str(self.title.as_str(), output);
        serialize_str(self.id.as_str(), output);
        self.vendor.id.serialize(output);
    }

    /// Reads a product written by [`Product::serialize`], giving it the
    /// position `serialization_id` and the vendor at the position it names.
    pub fn deserialize<'i>(input: &'i [u8], serialization_id: usize, vendors: &VendorManager) -> (res:
        Option<(&'i [u8], Product)>)
        requires
            vendors.wf(),
        ensures
            reads_as::<Product>(
                spec_deserialize_product(input@, serialization_id, vendors.names()),
                input@,
                seq_result(res),
            ),
    {
        let (input1, description) = String::deserialize(input)?;
        let ghost n1 = (input@.len() - input1@.len()) as int;
        assert(input1@ == input@.skip(n1));
        let (input2, title) = String::deserialize(input1)?;
        let ghost n2 = (input1@.len() - input2@.len()) as int;
        assert(input2@ =~= input@.skip(n1 + n2));
        let (input3, id) = String::deserialize(input2)?;
        let ghost n3 = (input2@.len() - input3@.len()) as int;
        assert(input3@ =~= input@.skip(n1 + n2 + n3));
        let (input4, vendor_id) = usize::deserialize(input3)?;
        let ghost n4 = (input3@.len() - input4@.len()) as int;
        assert(input4@ =~= input@.skip(n1 + n2 + n3 + n4));
        let vendor = vendors.by_id(vendor_id)?.copy();
        Some((input4, Product { description, title, vendor, id, serialization_id }))
    }

    /// Writes the positions of the given products as a sorted difference
    /// list: the positions in ascending order, each as often as given, then
    /// written as `sequential_array::serialize` writes them.
    pub fn serialize_to_sequential_array(input: &[&Product], output: &mut Vec<u8>)
        ensures
            final(output)@ == old(output)@ + spec_serialize_ascending(
                sorted_usizes(input@.map_values(|p: &Product| p.serialization_id)),
            ),
            is_ascending(sorted_usizes(input@.map_values(|p: &Product| p.serialization_id))),
            sorted_usizes(input@.map_values(|p: &Product| p.serialization_id)).to_multiset() == input@.map_values(
                |p: &Product| p.serialization_id,
            ).to_multiset(),
    {
        proof {
            lemma_sorted_usizes(input@.map_values(|p: &Product| p.serialization_id));
        }
        let mut ids: Vec<usize> = Vec::new();
        let n = input.len();
        let mut i: usize = 0;
        while i < n
            invariant
                n == input@.len(),
                i <= n,
                ids@ == input@.map_values(|p: &Product| p.serialization_id).take(i as int),
            decreases n - i,
        {
            ids.push(input[i].serialization_id);
            i = i + 1;
            assert(ids@ == input@.map_values(|p: &Product| p.serialization_id).take(i as int));
        }
        assert(input@.map_values(|p: &Product| p.serialization_id).take(n as int) == input@.map_values(
            |p: &Product| p.serialization_id,
        ));
        sequential_array::serialize(ids, output);
    }

    /// Writes a list of product positions in its own order.
    pub fn serialize_positions(ids: &Vec<usize>, output: &mut Vec<u8>)
        ensures
            final(output)@ == old(output)@ + spec_serialize_positions(ids@),
    {
        assert(ids.deep_view() =~= ids@);
        ids.serialize(output);
    }

    /// Reads a list of positions, which must all name one of the given
    /// products, and gives the positions.
    pub fn deserialize_positions<'i>(input: &'i [u8], product_count: usize) -> (res: Option<(&'i [u8], Vec<usize>)>)
        ensures
            match spec_deserialize_positions(input@) {
                Decoding::Complete(ids, n) => if forall|k: int| 0 <= k < ids.len() ==> #[trigger] ids[k] < product_count {
                    res matches Some((rest, product_ids)) && n <= input@.len() && rest@ == input@.skip(n as int)
                        && product_ids@ == ids
                } else {
                    res is None
                },
                _ => res is None,
            },
    {
        let (rest, product_ids) = Vec::<usize>::deserialize(input)?;
        assert(product_ids.deep_view() =~= product_ids@);
        let ghost ids = spec_deserialize_positions(input@).value();
        let n = product_ids.len();
        let mut i: usize = 0;
        while i < n
            invariant
                n == product_ids@.len(),
                i <= n,
                spec_deserialize_positions(input@) is Complete,
                ids == spec_deserialize_positions(input@).value(),
                ids == product_ids@,
                forall|k: int| 0 <= k < i ==> product_ids@[k] < product_count,
            decreases n - i,
        {
            if product_ids[i] >= product_count {
                assert(!(ids[i as int] < product_count));
                return None;
            }
            i = i + 1;
        }
        Some((rest, product_ids))
    }

    /// Reads a sorted difference list of positions and gives the products at
    /// those positions, and the positions.
    pub fn deserialize_from_sequential_ids<'i, 'a>(
        input: &'i [u8],
        existing_products: &'a [Product],
    ) -> (res: Option<(&'i [u8], Vec<&'a Product>, Vec<usize>)>)
        ensures
            match spec_deserialize_ascending(input@) {
                Decoding::Complete(ids, n) => if forall|k: int|
                    0 <= k < ids.len() ==> #[trigger] ids[k] < existing_products@.len() {
                    res matches Some((rest, products, product_ids)) && n <= input@.len() && rest@ == input@.skip(n as int)
                        && product_ids@ == ids && products@.len() == ids.len() && forall|k: int|
                        0 <= k < ids.len() ==> #[trigger] products@[k] == &existing_products@[ids[k]
                            as int]
                } else {
                    res is None
                },
                _ => res is None,
            },
    {
        let (rest, product_ids) = sequential_array::deserialize(input)?;
        assert(product_ids.deep_view() =~= product_ids@);
        let ghost ids = spec_deserialize_ascending(input@).value();
        assert(ids == product_ids@);
        let mut products: Vec<&'a Product> = Vec::new();
        let n = product_ids.len();
        let mut i: usize = 0;
        while i < n
            invariant
                n == product_ids@.len(),
                i <= n,
                ids == product_ids@,
                spec_deserialize_ascending(input@) is Complete,
                ids == spec_deserialize_ascending(input@).value(),
                products@.len() == i,
                forall|k: int| 0 <= k < i ==> product_ids@[k] < existing_products@.len(),
                forall|k: int|
                    0 <= k < i ==> #[trigger] products@[k] == &existing_products@[product_ids@[k] as int],
            decreases n - i,
        {
            let id = product_ids[i];
            if id >= existing_products.len() {
                assert(!(ids[i as int] < existing_products@.len()));
                return None;
            }
            products.push(&existing_products[id]);
            i = i + 1;
        }
        Some((rest, products, product_ids))
    }
}

/// The written form of a list of product positions: its length, then each
/// position, in the list's own order.
pub open spec fn spec_serialize_positions(xs: Seq<usize>) -> Seq<u8> {
    <Vec<usize> as Serializable>::spec_serialize(xs)
}

/// What reading a list of product positions gives.
pub open spec fn spec_deserialize_positions(input: Seq<u8>) -> Decoding<Seq<usize>> {
    <Vec<usize> as Deserializable>::spec_deserialize(input)
}

/// A list of positions whose written form reads back: one whose length is
/// a `usize`.
pub open spec fn positions_round_trip(xs: Seq<usize>) -> bool {
    xs.len() <= usize::MAX
}

/// A list of positions written and read back is the same list, and every
/// byte written is read.
pub proof fn lemma_positions_round_trip(xs: Seq<usize>, rest: Seq<u8>)
    requires
        positions_round_trip(xs),
    ensures
        spec_deserialize_positions(spec_serialize_positions(xs) + rest) == Decoding::Complete(
            xs,
            spec_serialize_positions(xs).len(),
        ),
{
    assert(<Vec<usize> as RoundTrip>::round_trips(xs)) by {
        assert forall|i: int| 0 <= i < xs.len() implies <usize as RoundTrip>::round_trips(#[trigger] xs[i]) by {
        }
    }
    <Vec<usize> as RoundTrip>::lemma_round_trip(xs, rest);
}

/// The written form of a product.
pub open spec fn spec_serialize_product(p: ProductView) -> Seq<u8> {
    spec_serialize_str(limited_chars(p.description, DESCRIPTION_LIMIT as nat)) + spec_serialize_str(
        p.title,
    ) + spec_serialize_str(p.id) + encode_varint(p.vendor.1 as nat)
}

/// What reading a product gives: three texts (description, title, id) and
/// the position of its vendor in `vendors`, which must be there.
pub open spec fn spec_deserialize_product(
    input: Seq<u8>,
    serialization_id: usize,
    vendors: Seq<Seq<char>>,
) -> Decoding<ProductView> {
    match String::spec_deserialize(input) {
        Decoding::Complete(description, n1) => match String::spec_deserialize(input.skip(n1 as int)) {
            Decoding::Complete(title, n2) => match String::spec_deserialize(
                input.skip((n1 + n2) as int),
            ) {
                Decoding::Complete(id, n3) => match usize::spec_deserialize(
                    input.skip((n1 + n2 + n3) as int),
                ) {
                    Decoding::Complete(vendor_id, n4) => if vendor_id < vendors.len() {
                        Decoding::Complete(
                            ProductView {
                                description,
                                title,
                                vendor: (vendors[vendor_id as int], vendor_id),
                                id,
                                serialization_id,
                            },
                            n1 + n2 + n3 + n4,
                        )
                    } else {
                        Decoding::Rejected
                    },
                    Decoding::Rejected => Decoding::Rejected,
                    Decoding::Aborts => Decoding::Aborts,
                },
                Decoding::Rejected => Decoding::Rejected,
                Decoding::Aborts => Decoding::Aborts,
            },
            Decoding::Rejected => Decoding::Rejected,
            Decoding::Aborts => Decoding::Aborts,
        },
        Decoding::Rejected => Decoding::Rejected,
        Decoding::Aborts => Decoding::Aborts,
    }
}

impl PartialEq for Product {
    fn eq(&self, other: &Self) -> (res: bool) {
        let mine = self.description.as_str().as_bytes();
        let theirs = other.description.as_str().as_bytes();
        let my_len = mine.len();
        let other_len = theirs.len();
        let descriptions = if my_len == 0 || other_len == 0 {
            my_len == other_len
        } else if my_len > other_len {
            bytes_start(theirs, mine)
        } else if my_len < other_len {
            bytes_start(mine, theirs)
        } else {
            self.description == other.description
        };
        proof {
            if my_len == other_len && my_len != 0 {
                if self.description@ == other.description@ {
                    assert(mine@.is_prefix_of(theirs@));
                } else {
                    vstd::utf8::encode_utf8_decode_utf8(self.description@);
                    vstd::utf8::encode_utf8_decode_utf8(other.description@);
                    if mine@.is_prefix_of(theirs@) {
                        assert(mine@ =~= theirs@);
                    }
                    if theirs@.is_prefix_of(mine@) {
                        assert(mine@ =~= theirs@);
                    }
                }
            }
            if my_len == 0 && other_len == 0 {
                assert(mine@.is_prefix_of(theirs@));
            }
        }
        descriptions && self.title == other.title && self.vendor.same_as(&other.vendor) && self.id
            == other.id && self.serialization_id == other.serialization_id
    }
}

impl vstd::std_specs::cmp::PartialEqSpecImpl for Product {
    open spec fn obeys_eq_spec() -> bool {
        true
    }

    open spec fn eq_spec(&self, other: &Product) -> bool {
        products_match(self@, other@)
    }
}

impl Eq for Product {

}

proof fn lemma_trailing_digits(chars: Seq<char>)
    ensures
        trailing_digits(chars).len() <= chars.len(),
        trailing_digits(chars) == chars.skip(chars.len() - trailing_digits(chars).len()),
        forall|i: int|
            0 <= i < trailing_digits(chars).len() ==> is_decimal_digit(
                #[trigger] trailing_digits(chars)[i],
            ),
        trailing_digits(chars).len() < chars.len() ==> !is_decimal_digit(
            chars[chars.len() - trailing_digits(chars).len() - 1],
        ),
    decreases chars.len(),
{
    if chars.len() > 0 && is_decimal_digit(chars.last()) {
        lemma_trailing_digits(chars.drop_last());
        let t = trailing_digits(chars.drop_last());
        assert(chars.skip(chars.len() - t.len() - 1) == chars.drop_last().skip(
            chars.drop_last().len() - t.len(),
        ).push(chars.last()));
        if t.len() + 1 < chars.len() {
            assert(chars[chars.len() - t.len() - 2] == chars.drop_last()[chars.drop_last().len()
                - t.len() - 1]);
        }
    } else {
        assert(chars.skip(chars.len() as int) == Seq::<char>::empty());
    }
}

/// Below index `k`, if the character there is not a digit, the trailing run
/// is what lies past `k`.
proof fn lemma_digits_stop(all: Seq<char>, k: int)
    requires
        0 < k <= all.len(),
        !is_decimal_digit(all[k - 1]),
        all.len() - k <= trailing_digits(all).len(),
    ensures
        trailing_digits(all) == all.subrange(k, all.len() as int),
{
    lemma_trailing_digits(all);
    let d = trailing_digits(all);
    if d.len() > all.len() - k {
        let idx = d.len() - (all.len() - k) - 1;
        assert(d[idx] == all[k - 1]);
        assert(false);
    }
}

/// While inside the trailing run, the run reaches past the next character.
proof fn lemma_digits_run(all: Seq<char>, k: int)
    requires
        0 < k <= all.len(),
        is_decimal_digit(all[k - 1]),
        all.len() - k <= trailing_digits(all).len(),
    ensures
        all.len() - k + 1 <= trailing_digits(all).len(),
{
    lemma_trailing_digits(all);
}

proof fn lemma_pow10_bound(n: nat)
    ensures
        n <= 18 ==> pow10(n) <= 1_000_000_000_000_000_000,
        n <= 19 ==> pow10(n) <= 10_000_000_000_000_000_000,
        pow10(n) >= 1,
{
    reveal_with_fuel(pow10, 20);
    lemma_pow10_monotone(n, 18);
    lemma_pow10_monotone(n, 19);
    lemma_pow10_monotone(0, n);
}

proof fn lemma_pow10_monotone(a: nat, b: nat)
    ensures
        a <= b ==> pow10(a) <= pow10(b),
    decreases b,
{
    if a < b {
        lemma_pow10_monotone(a, (b - 1) as nat);
    }
}

proof fn lemma_decimal_value_bound(digits: Seq<char>)
    requires
        forall|i: int| 0 <= i < digits.len() ==> is_decimal_digit(#[trigger] digits[i]),
    ensures
        decimal_value(digits) < pow10(digits.len()),
    decreases digits.len(),
{
    if digits.len() > 0 {
        lemma_decimal_value_bound(digits.drop_last());
    }
}

/// Putting a digit in front adds it at the highest place.
proof fn lemma_decimal_value_prepend(digits: Seq<char>, c: char)
    requires
        is_decimal_digit(c),
    ensures
        decimal_value(seq![c] + digits) == decimal_value(digits) + (c as u32 - '0' as u32) as nat
            * pow10(digits.len()),
    decreases digits.len(),
{
    let d = (c as u32 - '0' as u32) as nat;
    if digits.len() == 0 {
        assert((seq![c] + digits).drop_last() == Seq::<char>::empty());
        assert(decimal_value(Seq::<char>::empty()) == 0);
        assert((seq![c] + digits).last() == c);
        assert(d * pow10(0) == d) by (nonlinear_arith)
            requires
                pow10(0) == 1,
        ;
    } else {
        lemma_decimal_value_prepend(digits.drop_last(), c);
        assert((seq![c] + digits).drop_last() == seq![c] + digits.drop_last());
        assert((seq![c] + digits).last() == digits.last());
        let v = decimal_value(digits.drop_last());
        let p = pow10((digits.len() - 1) as nat);
        assert(pow10(digits.len()) == 10 * p);
        assert(10 * (v + d * p) == 10 * v + d * (10 * p)) by (nonlinear_arith);
    }
}

/// A text's UTF-8 encoding is empty exactly when the text is.
proof fn lemma_encode_utf8_empty(chars: Seq<char>)
    ensures
        (encode_utf8(chars).len() == 0) == (chars.len() == 0),
{
    if chars.len() > 0 {
        vstd::utf8::encode_utf8_first_scalar(chars);
        reveal_with_fuel(encode_utf8, 1);
    }
}

/// The cut description is the description or a prefix of it.
proof fn lemma_limited_is_prefix(chars: Seq<char>, max: nat)
    ensures
        exists|j: int| 0 <= j <= chars.len() && limited_chars(chars, max) == chars.take(j),
{
    match crate::serialize::collections::first_index_past(chars, max, 0) {
        None => {
            assert(chars.take(chars.len() as int) == chars);
        },
        Some(k) => {
            lemma_first_index_past_bound(chars, max, 0);
            match crate::serialize::collections::last_space_before(chars, k) {
                Some(j) => {
                    lemma_last_space_bound(chars, k);
                },
                None => {},
            }
        },
    }
}

proof fn lemma_first_index_past_bound(chars: Seq<char>, max: nat, i: nat)
    ensures
        crate::serialize::collections::first_index_past(chars, max, i) matches Some(k) ==> k
            < chars.len(),
    decreases chars.len() - i,
{
    if i < chars.len() {
        lemma_first_index_past_bound(chars, max, i + 1);
    }
}

proof fn lemma_last_space_bound(chars: Seq<char>, k: nat)
    ensures
        crate::serialize::collections::last_space_before(chars, k) matches Some(j) ==> j < k,
    decreases k,
{
    if k > 0 {
        lemma_last_space_bound(chars, (k - 1) as nat);
    }
}

/// Writing a product and reading it back against a vendor list that holds
/// its vendor gives a product equal to it (the description may come back
/// cut, which equality allows), having read every byte written. The law
/// does not hold when the cut leaves an empty description from a non-empty
/// one (a description that starts with a space and runs on past the limit
/// with no other space).
#[verifier::rlimit(40)]
pub proof fn lemma_product_round_trip(p: ProductView, vendors: Seq<Seq<char>>, rest: Seq<u8>)
    requires
        p.vendor.1 < vendors.len(),
        vendors[p.vendor.1 as int] == p.vendor.0,
        <String as RoundTrip>::round_trips(limited_chars(p.description, DESCRIPTION_LIMIT as nat)),
        <String as RoundTrip>::round_trips(p.title),
        <String as RoundTrip>::round_trips(p.id),
        p.description.len() == 0 || limited_chars(p.description, DESCRIPTION_LIMIT as nat).len() > 0,
    ensures
        spec_deserialize_product(spec_serialize_product(p) + rest, p.serialization_id, vendors)
            matches Decoding::Complete(q, n) && products_match(q, p) && n == spec_serialize_product(
            p,
        ).len(),
{
    let d = limited_chars(p.description, DESCRIPTION_LIMIT as nat);
    let s1 = spec_serialize_str(d);
    let s2 = spec_serialize_str(p.title);
    let s3 = spec_serialize_str(p.id);
    let s4 = encode_varint(p.vendor.1 as nat);
    let all = spec_serialize_product(p) + rest;
    let t1 = s2 + (s3 + (s4 + rest));
    let t2 = s3 + (s4 + rest);
    let t3 = s4 + rest;
    lemma_four_parts(s1, s2, s3, s4, rest);
    <String as RoundTrip>::lemma_round_trip(d, t1);
    <String as RoundTrip>::lemma_round_trip(p.title, t2);
    <String as RoundTrip>::lemma_round_trip(p.id, t3);
    crate::serialize::primitives::lemma_usize_round_trip(p.vendor.1, rest);
    let n1 = s1.len();
    let n2 = s2.len();
    let n3 = s3.len();
    let n4 = s4.len();
    assert(String::spec_deserialize(all) == Decoding::Complete(d, n1));
    assert(String::spec_deserialize(all.skip(n1 as int)) == Decoding::Complete(p.title, n2));
    assert(String::spec_deserialize(all.skip((n1 + n2) as int)) == Decoding::Complete(p.id, n3));
    assert(usize::spec_deserialize(all.skip((n1 + n2 + n3) as int)) == Decoding::Complete(
        p.vendor.1,
        n4,
    ));
    lemma_description_match(p.description);
}

/// A description and its cut form match, unless the cut emptied it.
proof fn lemma_description_match(description: Seq<char>)
    requires
        description.len() == 0 || limited_chars(description, DESCRIPTION_LIMIT as nat).len() > 0,
    ensures
        descriptions_match(limited_chars(description, DESCRIPTION_LIMIT as nat), description),
{
    let d = limited_chars(description, DESCRIPTION_LIMIT as nat);
    lemma_limited_is_prefix(description, DESCRIPTION_LIMIT as nat);
    let j = choose|j: int| 0 <= j <= description.len() && d == description.take(j);
    lemma_encode_utf8_concat(description.take(j), description.skip(j));
    assert(description.take(j) + description.skip(j) == description);
    lemma_encode_utf8_empty(d);
    lemma_encode_utf8_empty(description);
    assert(encode_utf8(d).is_prefix_of(encode_utf8(description)));
}

/// Cutting the front parts off a sequence made of four parts and a rest.
pub proof fn lemma_four_parts(s1: Seq<u8>, s2: Seq<u8>, s3: Seq<u8>, s4: Seq<u8>, rest: Seq<u8>)
    ensures
        ({
            let all = s1 + s2 + s3 + s4 + rest;
            &&& all == s1 + (s2 + (s3 + (s4 + rest)))
            &&& all.skip(s1.len() as int) == s2 + (s3 + (s4 + rest))
            &&& all.skip((s1.len() + s2.len()) as int) == s3 + (s4 + rest)
            &&& all.skip((s1.len() + s2.len() + s3.len()) as int) == s4 + rest
        }),
{
    let all = s1 + s2 + s3 + s4 + rest;
    assert(all =~= s1 + (s2 + (s3 + (s4 + rest))));
    assert(all.skip(s1.len() as int) =~= s2 + (s3 + (s4 + rest)));
    assert(all.skip((s1.len() + s2.len()) as int) =~= s3 + (s4 + rest));
    assert(all.skip((s1.len() + s2.len() + s3.len()) as int) =~= s4 + rest);
}

} // verus!
