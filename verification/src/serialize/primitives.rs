use vstd::arithmetic::div_mod::*;
use vstd::arithmetic::mul::*;
use vstd::prelude::*;

use vstd::utf8::is_scalar;

use super::traits::{reads_as, seq_result, Decoding, Deserializable, RoundTrip, Serializable};

verus! {

/// `128` to the power `n`.
pub open spec fn pow128(n: nat) -> nat
    decreases n,
{
    if n == 0 {
        1
    } else {
        128 * pow128((n - 1) as nat)
    }
}

/// The variable-length form of an integer: seven bits per byte, lowest
/// first, the high bit set on every byte but the last.
pub open spec fn encode_varint(v: nat) -> Seq<u8>
    decreases v,
{
    if v < 128 {
        seq![v as u8]
    } else {
        seq![(v % 128 + 128) as u8] + encode_varint(v / 128)
    }
}

/// The number of bytes at the front of `s` up to and including the first
/// one whose high bit is clear (all of `s` if there is none).
pub open spec fn leading_group_len(s: Seq<u8>) -> nat
    decreases s.len(),
{
    if s.len() == 0 {
        0
    } else if s[0] < 128 {
        1
    } else {
        1 + leading_group_len(s.drop_first())
    }
}

/// The number that the low seven bits of the first `n` bytes of `s` stand
/// for, lowest first.
pub open spec fn digits_value(s: Seq<u8>, n: nat) -> nat
    decreases n,
{
    if n == 0 || s.len() == 0 {
        0
    } else {
        (s[0] % 128) as nat + 128 * digits_value(s.drop_first(), (n - 1) as nat)
    }
}

/// What the reader of a 64-bit integer gives on `s`. It reads at most nine
/// seven-bit groups; when the ninth byte still has its high bit set, one
/// more byte follows, whose value `1` stands for the highest bit.
pub open spec fn spec_decode_u64(s: Seq<u8>) -> Decoding<u64> {
    let e = if leading_group_len(s) < 9 {
        leading_group_len(s)
    } else {
        9
    };
    if e == 0 {
        Decoding::Rejected
    } else if e == 9 && s[8] >= 128 {
        if s.len() < 10 {
            Decoding::Rejected
        } else {
            Decoding::Complete(
                (digits_value(s, 9) + if s[9] == 1 {
                    0x8000_0000_0000_0000nat
                } else {
                    0nat
                }) as u64,
                10,
            )
        }
    } else {
        Decoding::Complete(digits_value(s, e) as u64, e)
    }
}


proof fn lemma_pow128_facts()
    ensures
        pow128(0) == 1,
        pow128(1) == 128,
        pow128(8) == 0x0100_0000_0000_0000,
        pow128(9) == 0x8000_0000_0000_0000,
{
    reveal_with_fuel(pow128, 10);
}

proof fn lemma_pow128_pos(n: nat)
    ensures
        pow128(n) >= 1,
    decreases n,
{
    if n > 0 {
        lemma_pow128_pos((n - 1) as nat);
    }
}

/// Appending one more digit to the front reading.
proof fn lemma_digits_value_step(s: Seq<u8>, i: nat)
    requires
        i < s.len(),
    ensures
        digits_value(s, i + 1) == digits_value(s, i) + (s[i as int] % 128) as nat * pow128(i),
    decreases i,
{
    let t = s.drop_first();
    if i == 0 {
        assert(digits_value(t, 0) == 0);
        assert(digits_value(s, 0) == 0);
        assert(pow128(0) == 1);
        assert(digits_value(s, 1) == (s[0] % 128) as nat + 128 * digits_value(t, 0));
        let d0 = (s[0] % 128) as nat;
        assert(d0 * pow128(0) == d0) by (nonlinear_arith)
            requires
                pow128(0) == 1,
        ;
        assert(i + 1 == 1);
    } else {
        let im = (i - 1) as nat;
        lemma_digits_value_step(t, im);
        assert(t[im as int] == s[i as int]);
        assert(im + 1 == i);
        let d = (s[i as int] % 128) as nat;
        assert(digits_value(s, i + 1) == (s[0] % 128) as nat + 128 * digits_value(t, i));
        assert(digits_value(s, i) == (s[0] % 128) as nat + 128 * digits_value(t, im));
        assert(digits_value(t, i) == digits_value(t, im) + d * pow128(im));
        assert(pow128(i) == 128 * pow128(im));
        assert(128 * (digits_value(t, im) + d * pow128(im)) == 128 * digits_value(t, im) + d * (128
            * pow128(im))) by (nonlinear_arith);
        assert(d * (128 * pow128(im)) == d * pow128(i));
    }
}

/// Only the first `n` bytes matter to `digits_value(s, n)`.
proof fn lemma_digits_value_prefix(s: Seq<u8>, t: Seq<u8>, n: nat)
    requires
        n <= s.len(),
        n <= t.len(),
        s.take(n as int) == t.take(n as int),
    ensures
        digits_value(s, n) == digits_value(t, n),
    decreases n,
{
    if n > 0 {
        assert(s[0] == s.take(n as int)[0]);
        assert(t[0] == t.take(n as int)[0]);
        assert(s.drop_first().take(n - 1) == s.take(n as int).drop_first());
        assert(t.drop_first().take(n - 1) == t.take(n as int).drop_first());
        lemma_digits_value_prefix(s.drop_first(), t.drop_first(), (n - 1) as nat);
    }
}

proof fn lemma_digits_value_bound(s: Seq<u8>, n: nat)
    ensures
        digits_value(s, n) < pow128(n),
    decreases n,
{
    if n > 0 && s.len() > 0 {
        lemma_digits_value_bound(s.drop_first(), (n - 1) as nat);
        let d = digits_value(s.drop_first(), (n - 1) as nat);
        let p = pow128((n - 1) as nat);
        assert((s[0] % 128) as nat + 128 * d < 128 * p) by (nonlinear_arith)
            requires
                d < p,
                (s[0] % 128) < 128,
        ;
    } else {
        lemma_pow128_pos(n);
    }
}

/// The written form of a value has as many bytes as it has base-128 digits.
proof fn lemma_encode_len(v: nat, j: nat)
    ensures
        encode_varint(v).len() >= 1,
        v < pow128(j) ==> encode_varint(v).len() <= j || j == 0,
        v >= pow128(j) ==> encode_varint(v).len() > j,
    decreases v,
{
    if v < 128 {
        if j > 0 {
            lemma_pow128_pos((j - 1) as nat);
        }
        if v >= pow128(j) {
            assert(pow128(j) <= v < 128);
            if j > 0 {
                lemma_pow128_pos((j - 1) as nat);
                assert(false);
            }
        }
    } else {
        if j > 0 {
            lemma_encode_len(v / 128, (j - 1) as nat);
            let p = pow128((j - 1) as nat);
            assert(v < 128 * p ==> v / 128 < p) by {
                if v < 128 * p {
                    lemma_div_by_multiple_is_strongly_ordered(v as int, (128 * p) as int, p as int, 128);
                    lemma_fundamental_div_mod(v as int, 128);
                }
            }
            assert(v >= 128 * p ==> v / 128 >= p) by {
                if v >= 128 * p {
                    lemma_div_is_ordered((128 * p) as int, v as int, 128);
                    lemma_mul_is_commutative(128, p as int);
                    lemma_div_multiples_vanish(p as int, 128);
                }
            }
        } else {
            lemma_encode_len(v / 128, 0);
        }
    }
}

/// Reading back the written form of a value of at most eight groups.
proof fn lemma_decode_short(v: nat, rest: Seq<u8>)
    ensures
        leading_group_len(encode_varint(v) + rest) == encode_varint(v).len(),
        digits_value(encode_varint(v) + rest, encode_varint(v).len()) == v,
    decreases v,
{
    let s = encode_varint(v) + rest;
    if v < 128 {
        assert(s[0] == v as u8);
        assert(s.drop_first() == rest);
        assert(digits_value(rest, 0) == 0);
    } else {
        let inner = encode_varint(v / 128);
        lemma_decode_short(v / 128, rest);
        assert(s[0] == (v % 128 + 128) as u8);
        assert(s.drop_first() == inner + rest);
        assert(((v % 128 + 128) as u8) % 128 == v % 128);
        lemma_fundamental_div_mod(v as int, 128);
    }
}

/// The first `j` bytes of the written form of a value of more than `j`
/// groups all have the high bit set, and hold the value's low `7 j` bits.
proof fn lemma_encode_long_prefix(v: nat, j: nat, rest: Seq<u8>)
    requires
        v >= pow128(j),
    ensures
        encode_varint(v).len() > j,
        forall|i: int| 0 <= i < j ==> #[trigger] encode_varint(v)[i] >= 128,
        digits_value(encode_varint(v) + rest, j) == v % pow128(j),
        encode_varint(v).skip(j as int) == encode_varint(v / pow128(j)),
    decreases j,
{
    lemma_pow128_pos(j);
    lemma_encode_len(v, j);
    if j == 0 {
        assert(encode_varint(v).skip(0) == encode_varint(v));
        assert(v % 1 == 0);
        assert(v / 1 == v);
    } else {
        let p = pow128((j - 1) as nat);
        lemma_pow128_pos((j - 1) as nat);
        assert(v >= 128) by {
            assert(128 * p >= 128) by (nonlinear_arith)
                requires
                    p >= 1,
            ;
        }
        let w = v / 128;
        assert(w >= p) by {
            lemma_div_is_ordered((128 * p) as int, v as int, 128);
            lemma_mul_is_commutative(128, p as int);
            lemma_div_multiples_vanish(p as int, 128);
        }
        lemma_encode_long_prefix(w, (j - 1) as nat, rest);
        let s = encode_varint(v);
        let inner = encode_varint(w);
        assert(s == seq![(v % 128 + 128) as u8] + inner);
        assert forall|i: int| 0 <= i < j implies #[trigger] s[i] >= 128 by {
            if i > 0 {
                assert(s[i] == inner[i - 1]);
            }
        }
        assert((encode_varint(v) + rest).drop_first() == inner + rest);
        assert(((v % 128 + 128) as u8) % 128 == v % 128);
        assert(s.skip(j as int) == inner.skip((j - 1) as int));
        lemma_mod_breakdown(v as int, 128, p as int);
        lemma_div_denominator(v as int, 128, p as int);
    }
}

/// Reading back the written form of a value with the highest bit set.
proof fn lemma_decode_long(v: u64, rest: Seq<u8>)
    requires
        v >= 0x8000_0000_0000_0000,
    ensures
        ({
            let s = encode_varint(v as nat) + rest;
            &&& encode_varint(v as nat).len() == 10
            &&& leading_group_len(s) >= 9
            &&& digits_value(s, 9) == v as nat % 0x8000_0000_0000_0000
            &&& s[8] >= 128
            &&& s[9] == 1
        }),
{
    lemma_pow128_facts();
    lemma_encode_long_prefix(v as nat, 9, rest);
    let e = encode_varint(v as nat);
    let s = e + rest;
    assert(v as nat / 0x8000_0000_0000_0000 == 1);
    assert(encode_varint(1) == seq![1u8]);
    assert(e.skip(9) == seq![1u8]);
    assert(e.len() == 10) by {
        assert(e.skip(9).len() == e.len() - 9);
    }
    assert(e[9] == e.skip(9)[0]);
    assert(e[8] >= 128);
    lemma_leading_group_of_set_bytes(s, 9);
}

/// The last byte of a written value has its high bit clear.
proof fn lemma_encode_last(v: nat)
    ensures
        encode_varint(v)[encode_varint(v).len() - 1] < 128,
    decreases v,
{
    if v >= 128 {
        lemma_encode_last(v / 128);
        lemma_encode_len(v / 128, 0);
        let inner = encode_varint(v / 128);
        assert(encode_varint(v) == seq![(v % 128 + 128) as u8] + inner);
    }
}

/// A sequence whose first `j` bytes all have the high bit set has a leading
/// group of at least `j` bytes, when it is longer than `j`.
proof fn lemma_leading_group_of_set_bytes(s: Seq<u8>, j: nat)
    requires
        s.len() >= j,
        forall|i: int| 0 <= i < j ==> s[i] >= 128,
    ensures
        leading_group_len(s) >= j,
    decreases j,
{
    if j > 0 {
        lemma_leading_group_of_set_bytes(s.drop_first(), (j - 1) as nat);
    }
}

/// Writing a 64-bit integer and reading it back from the front of any byte
/// sequence gives the integer and the number of bytes written.
pub proof fn lemma_u64_round_trip(v: u64, rest: Seq<u8>)
    ensures
        spec_decode_u64(encode_varint(v as nat) + rest) == Decoding::Complete(
            v,
            encode_varint(v as nat).len(),
        ),
{
    lemma_pow128_facts();
    let e = encode_varint(v as nat);
    if v < 0x8000_0000_0000_0000 {
        lemma_encode_len(v as nat, 9);
        lemma_decode_short(v as nat, rest);
        if e.len() == 9 {
            lemma_encode_last(v as nat);
            assert((e + rest)[8] == e[8]);
        }
    } else {
        lemma_decode_long(v, rest);
    }
}

/// Writes `value` in the variable-length form.
pub fn serialize_u64(value: u64, output: &mut Vec<u8>)
    ensures
        final(output)@ == old(output)@ + encode_varint(value as nat),
{
    let mut input = value;
    loop
        invariant_except_break
            old(output)@ + encode_varint(value as nat) == output@ + encode_varint(input as nat),
        ensures
            old(output)@ + encode_varint(value as nat) == output@,
        decreases input,
    {
        let to_encode = (input % 128) as u8;
        let next = input / 128;
        proof {
            assert(output@ + encode_varint(input as nat) == output@ + encode_varint(input as nat));
        }
        if next == 0 {
            output.push(to_encode);
            assert(encode_varint(input as nat) == seq![to_encode]);
            break ;
        }
        output.push(to_encode + 128);
        proof {
            assert(encode_varint(input as nat) == seq![(to_encode + 128) as u8] + encode_varint(
                next as nat,
            ));
            assert(output@ + encode_varint(next as nat) == old(output)@ + encode_varint(
                value as nat,
            )) by {
                let prev = output@.drop_last();
                assert(output@ == prev.push((to_encode + 128) as u8));
                assert(prev + encode_varint(input as nat) == prev + (seq![(to_encode + 128) as u8]
                    + encode_varint(next as nat)));
            }
        }
        input = next;
    }
}

/// Reads a 64-bit integer from the front of `input`.
pub fn deserialize_u64(input: &[u8]) -> (res: Option<(&[u8], u64)>)
    ensures
        reads_as::<u64>(spec_decode_u64(input@), input@, seq_result(res)),
{
    let s = Ghost(input@);
    let len = input.len();
    let mut value: u64 = 0;
    let mut mult: u64 = 1;
    let mut eaten: usize = 0;
    let mut ended = false;
    proof {
        if len == 0 {
            assert(leading_group_len(s@) == 0);
        }
    }
    while eaten < len && eaten < 9
        invariant_except_break
            len == input@.len(),
            eaten <= len,
            eaten <= 9,
            eaten < 9 ==> mult == pow128(eaten as nat),
            value == digits_value(s@, eaten as nat),
            s@ == input@,
            forall|i: int| 0 <= i < eaten ==> input@[i] >= 128,
            !ended,
            (eaten == len || eaten == 9) ==> eaten == (if leading_group_len(s@) < 9 {
                leading_group_len(s@)
            } else {
                9
            }),
        ensures
            len == input@.len(),
            eaten <= len,
            eaten <= 9,
            value == digits_value(s@, eaten as nat),
            s@ == input@,
            eaten == (if leading_group_len(s@) < 9 {
                leading_group_len(s@)
            } else {
                9
            }),
            ended ==> eaten >= 1 && input@[eaten - 1] < 128,
            !ended ==> forall|i: int| 0 <= i < eaten ==> input@[i] >= 128,
        decreases 9 - eaten,
    {
        let byte = input[eaten];
        proof {
            lemma_pow128_facts();
            lemma_digits_value_step(s@, eaten as nat);
            lemma_digits_value_bound(s@, eaten as nat);
            assert(eaten < 9);
            assert(pow128(eaten as nat) <= pow128(8)) by {
                lemma_pow128_monotone(eaten as nat, 8);
            }
            assert((byte % 128) as nat * pow128(eaten as nat) <= 127 * pow128(8)) by (nonlinear_arith)
                requires
                    (byte % 128) <= 127,
                    pow128(eaten as nat) <= pow128(8),
            ;
        }
        value = value + ((byte % 128) as u64) * mult;
        eaten = eaten + 1;
        if byte < 128 {
            proof {
                lemma_leading_group_len_at(s@, (eaten - 1) as nat);
            }
            ended = true;
            break ;
        }
        proof {
            if eaten < 9 {
                lemma_pow128_monotone(eaten as nat, 8);
            }
        }
        mult = if eaten < 9 {
            mult * 128
        } else {
            mult
        };
        proof {
            if eaten == len {
                lemma_leading_group_all_set(s@);
            }
            if eaten == 9 {
                lemma_leading_group_of_set_bytes(s@, 9);
            }
        }
    }
    if eaten == 0 {
        proof {
            if len > 0 {
                assert(leading_group_len(s@) >= 1);
            }
        }
        return None;
    }
    if eaten == 9 && !ended {
        if len < 10 {
            return None;
        }
        let top: u64 = if input[9] == 1 {
            0x8000_0000_0000_0000
        } else {
            0
        };
        proof {
            lemma_digits_value_bound(s@, 9);
            lemma_pow128_facts();
        }
        let rest = input.split_at(10).1;
        return Some((rest, value + top));
    }
    let rest = input.split_at(eaten).1;
    Some((rest, value))
}

proof fn lemma_pow128_monotone(a: nat, b: nat)
    requires
        a <= b,
    ensures
        pow128(a) <= pow128(b),
    decreases b,
{
    if a < b {
        lemma_pow128_monotone(a, (b - 1) as nat);
        lemma_pow128_pos((b - 1) as nat);
    }
}

/// The leading group ends at the first byte with a clear high bit.
proof fn lemma_leading_group_len_at(s: Seq<u8>, k: nat)
    requires
        k < s.len(),
        s[k as int] < 128,
        forall|i: int| 0 <= i < k ==> s[i] >= 128,
    ensures
        leading_group_len(s) == k + 1,
    decreases k,
{
    if k > 0 {
        lemma_leading_group_len_at(s.drop_first(), (k - 1) as nat);
    }
}

/// Without a byte whose high bit is clear, the leading group is all of `s`.
proof fn lemma_leading_group_all_set(s: Seq<u8>)
    requires
        forall|i: int| 0 <= i < s.len() ==> s[i] >= 128,
    ensures
        leading_group_len(s) == s.len(),
    decreases s.len(),
{
    if s.len() > 0 {
        lemma_leading_group_all_set(s.drop_first());
    }
}


/// Keeps a value read by the 64-bit reader when it fits below `max`.
pub open spec fn narrow_u64(d: Decoding<u64>, max: nat) -> Decoding<u64> {
    match d {
        Decoding::Complete(v, n) => if v <= max {
            Decoding::Complete(v, n)
        } else {
            Decoding::Rejected
        },
        other => other,
    }
}

impl Serializable for u64 {
    open spec fn spec_serialize(v: u64) -> Seq<u8> {
        encode_varint(v as nat)
    }

    fn serialize(&self, output: &mut Vec<u8>) {
        serialize_u64(*self, output);
    }
}

impl Deserializable for u64 {
    open spec fn spec_deserialize(input: Seq<u8>) -> Decoding<u64> {
        spec_decode_u64(input)
    }

    fn deserialize(input: &[u8]) -> (res: Option<(&[u8], u64)>) {
        deserialize_u64(input)
    }
}

impl Serializable for u32 {
    open spec fn spec_serialize(v: u32) -> Seq<u8> {
        encode_varint(v as nat)
    }

    fn serialize(&self, output: &mut Vec<u8>) {
        serialize_u64(*self as u64, output);
    }
}

impl Deserializable for u32 {
    open spec fn spec_deserialize(input: Seq<u8>) -> Decoding<u32> {
        match narrow_u64(spec_decode_u64(input), u32::MAX as nat) {
            Decoding::Complete(v, n) => Decoding::Complete(v as u32, n),
            Decoding::Rejected => Decoding::Rejected,
            Decoding::Aborts => Decoding::Aborts,
        }
    }

    fn deserialize(input: &[u8]) -> (res: Option<(&[u8], u32)>) {
        let (rest, v) = deserialize_u64(input)?;
        if v > u32::MAX as u64 {
            return None;
        }
        Some((rest, v as u32))
    }
}

impl Serializable for usize {
    open spec fn spec_serialize(v: usize) -> Seq<u8> {
        encode_varint(v as nat)
    }

    fn serialize(&self, output: &mut Vec<u8>) {
        let v = *self as u64;
        assert(v as nat == *self as nat);
        serialize_u64(v, output);
        assert(output@ == old(output)@ + encode_varint(*self as nat));
        assert(self.deep_view() == *self);
        assert(<usize as Serializable>::spec_serialize(*self) == encode_varint(*self as nat));
    }
}

impl Deserializable for usize {
    open spec fn spec_deserialize(input: Seq<u8>) -> Decoding<usize> {
        match narrow_u64(spec_decode_u64(input), usize::MAX as nat) {
            Decoding::Complete(v, n) => Decoding::Complete(v as usize, n),
            Decoding::Rejected => Decoding::Rejected,
            Decoding::Aborts => Decoding::Aborts,
        }
    }

    fn deserialize(input: &[u8]) -> (res: Option<(&[u8], usize)>) {
        let (rest, v) = deserialize_u64(input)?;
        if v > usize::MAX as u64 {
            return None;
        }
        Some((rest, v as usize))
    }
}

impl Serializable for u8 {
    open spec fn spec_serialize(v: u8) -> Seq<u8> {
        seq![v]
    }

    fn serialize(&self, output: &mut Vec<u8>) {
        output.push(*self);
        assert(<u8 as Serializable>::spec_serialize(*self) == seq![*self]);
        assert(output@ =~= old(output)@ + seq![*self]);
    }
}

impl Deserializable for u8 {
    open spec fn spec_deserialize(input: Seq<u8>) -> Decoding<u8> {
        if input.len() == 0 {
            Decoding::Rejected
        } else {
            Decoding::Complete(input[0], 1)
        }
    }

    fn deserialize(input: &[u8]) -> (res: Option<(&[u8], u8)>) {
        if input.len() == 0 {
            assert(<u8 as Deserializable>::spec_deserialize(input@) == Decoding::<u8>::Rejected);
            return None;
        }
        let me = input[0];
        let (_, rest) = input.split_at(1);
        assert(<u8 as Deserializable>::spec_deserialize(input@) == Decoding::Complete(me, 1));
        assert(rest@ =~= input@.skip(1));
        Some((rest, me))
    }
}

impl Serializable for bool {
    open spec fn spec_serialize(v: bool) -> Seq<u8> {
        seq![if v { 1u8 } else { 0u8 }]
    }

    fn serialize(&self, output: &mut Vec<u8>) {
        output.push(if *self { 1 } else { 0 });
    }
}

impl Deserializable for bool {
    open spec fn spec_deserialize(input: Seq<u8>) -> Decoding<bool> {
        if input.len() == 0 {
            Decoding::Rejected
        } else {
            Decoding::Complete(input[0] != 0, 1)
        }
    }

    fn deserialize(input: &[u8]) -> (res: Option<(&[u8], bool)>) {
        if input.len() == 0 {
            return None;
        }
        let byte = input[0];
        Some((input.split_at(1).1, byte != 0))
    }
}

/// `char::from_u32`: the character with the given code, if it is a Unicode
/// scalar value (not a surrogate and at most `0x10FFFF`).
#[verifier::external_body]
fn char_from_u32(v: u32) -> (res: Option<char>)
    ensures
        res is Some <==> is_scalar(v),
        res matches Some(c) ==> c as u32 == v,
{
    char::from_u32(v)
}

impl Serializable for char {
    open spec fn spec_serialize(v: char) -> Seq<u8> {
        encode_varint(v as u32 as nat)
    }

    fn serialize(&self, output: &mut Vec<u8>) {
        serialize_u64(*self as u32 as u64, output);
    }
}

impl Deserializable for char {
    open spec fn spec_deserialize(input: Seq<u8>) -> Decoding<char> {
        match u32::spec_deserialize(input) {
            Decoding::Complete(v, n) => if is_scalar(v) {
                Decoding::Complete(v as char, n)
            } else {
                Decoding::Rejected
            },
            Decoding::Rejected => Decoding::Rejected,
            Decoding::Aborts => Decoding::Aborts,
        }
    }

    fn deserialize(input: &[u8]) -> (res: Option<(&[u8], char)>) {
        let (rest, v) = u32::deserialize(input)?;
        let c = char_from_u32(v)?;
        proof {
            vstd::utf8::char_u32_cast(c, v);
        }
        Some((rest, c))
    }
}

/// The bit pattern of a 32-bit IEEE float, written as four big-endian bytes.
#[derive(Clone, Copy, Debug, PartialEq, Eq)]
pub struct FloatBits {
    pub bits: u32,
}

impl DeepView for FloatBits {
    type V = u32;

    open spec fn deep_view(&self) -> u32 {
        self.bits
    }
}

pub open spec fn be_bytes(b: u32) -> Seq<u8> {
    seq![(b / 0x100_0000) as u8, (b / 0x1_0000 % 256) as u8, (b / 0x100 % 256) as u8, (b % 256) as u8]
}

pub open spec fn from_be_bytes(s: Seq<u8>) -> u32
    recommends
        s.len() >= 4,
{
    (s[0] as nat * 0x100_0000 + s[1] as nat * 0x1_0000 + s[2] as nat * 0x100 + s[3] as nat) as u32
}

impl Serializable for FloatBits {
    open spec fn spec_serialize(v: u32) -> Seq<u8> {
        be_bytes(v)
    }

    fn serialize(&self, output: &mut Vec<u8>) {
        let b = self.bits;
        output.push((b / 0x100_0000) as u8);
        output.push((b / 0x1_0000 % 256) as u8);
        output.push((b / 0x100 % 256) as u8);
        output.push((b % 256) as u8);
    }
}

impl Deserializable for FloatBits {
    open spec fn spec_deserialize(input: Seq<u8>) -> Decoding<u32> {
        if input.len() < 4 {
            Decoding::Rejected
        } else {
            Decoding::Complete(from_be_bytes(input), 4)
        }
    }

    fn deserialize(input: &[u8]) -> (res: Option<(&[u8], FloatBits)>) {
        if input.len() < 4 {
            return None;
        }
        let b0 = input[0] as u32;
        let b1 = input[1] as u32;
        let b2 = input[2] as u32;
        let b3 = input[3] as u32;
        let bits = b0 * 0x100_0000 + b1 * 0x1_0000 + b2 * 0x100 + b3;
        Some((input.split_at(4).1, FloatBits { bits }))
    }
}

/// Writing the four bytes of a float and reading them back gives the same bits.
pub proof fn lemma_float_bits_round_trip(b: u32, rest: Seq<u8>)
    ensures
        FloatBits::spec_deserialize(be_bytes(b) + rest) == Decoding::Complete(b, 4),
{
    let s = be_bytes(b) + rest;
    let x0 = s[0];
    let x1 = s[1];
    let x2 = s[2];
    let x3 = s[3];
    assert(x0 == (b / 0x100_0000) as u8);
    assert(x1 == (b / 0x1_0000 % 256) as u8);
    assert(x2 == (b / 0x100 % 256) as u8);
    assert(x3 == (b % 256) as u8);
    let bi = b as int;
    lemma_fundamental_div_mod(bi, 256);
    lemma_fundamental_div_mod(bi / 256, 256);
    lemma_fundamental_div_mod(bi / 0x1_0000, 256);
    lemma_div_denominator(bi, 256, 256);
    lemma_div_denominator(bi, 0x1_0000, 256);
    lemma_mod_bound(bi, 256);
    lemma_mod_bound(bi / 256, 256);
    lemma_mod_bound(bi / 0x1_0000, 256);
    assert(bi / 0x100_0000 < 256) by {
        lemma_div_by_multiple_is_strongly_ordered(bi, 0x1_0000_0000, 256, 0x100_0000);
    }
    assert(from_be_bytes(s) == b);
}

/// Writing a 32-bit integer and reading it back gives the integer.
pub proof fn lemma_u32_round_trip(v: u32, rest: Seq<u8>)
    ensures
        u32::spec_deserialize(u32::spec_serialize(v) + rest) == Decoding::Complete(
            v,
            u32::spec_serialize(v).len(),
        ),
{
    lemma_u64_round_trip(v as u64, rest);
}

/// Writing a length and reading it back gives the length, for every length
/// that the 64-bit reader gives back.
pub proof fn lemma_usize_round_trip(v: usize, rest: Seq<u8>)
    ensures
        usize::spec_deserialize(usize::spec_serialize(v) + rest) == Decoding::Complete(
            v,
            usize::spec_serialize(v).len(),
        ),
{
    lemma_u64_round_trip(v as u64, rest);
}

/// Writing a character and reading it back gives the character.
pub proof fn lemma_char_round_trip(c: char, rest: Seq<u8>)
    ensures
        char::spec_deserialize(char::spec_serialize(c) + rest) == Decoding::Complete(
            c,
            char::spec_serialize(c).len(),
        ),
{
    vstd::utf8::char_is_scalar(c);
    vstd::utf8::char_u32_cast(c, c as u32);
    lemma_u32_round_trip(c as u32, rest);
}

/// Writing a flag and reading it back gives the flag.
pub proof fn lemma_bool_round_trip(b: bool, rest: Seq<u8>)
    ensures
        bool::spec_deserialize(bool::spec_serialize(b) + rest) == Decoding::Complete(b, 1),
{
    assert((bool::spec_serialize(b) + rest)[0] == bool::spec_serialize(b)[0]);
}

/// Writing a byte and reading it back gives the byte.
pub proof fn lemma_u8_round_trip(b: u8, rest: Seq<u8>)
    ensures
        u8::spec_deserialize(u8::spec_serialize(b) + rest) == Decoding::Complete(b, 1),
{
    assert((u8::spec_serialize(b) + rest)[0] == b);
}

impl RoundTrip for u64 {
    open spec fn round_trips(v: u64) -> bool {
        true
    }

    proof fn lemma_round_trip(v: u64, rest: Seq<u8>) {
        lemma_u64_round_trip(v, rest);
    }
}

impl RoundTrip for u32 {
    open spec fn round_trips(v: u32) -> bool {
        true
    }

    proof fn lemma_round_trip(v: u32, rest: Seq<u8>) {
        lemma_u32_round_trip(v, rest);
    }
}

impl RoundTrip for usize {
    open spec fn round_trips(v: usize) -> bool {
        true
    }

    proof fn lemma_round_trip(v: usize, rest: Seq<u8>) {
        assert(Self::round_trips(v));
        lemma_usize_round_trip(v, rest);
    }
}

impl RoundTrip for u8 {
    open spec fn round_trips(v: u8) -> bool {
        true
    }

    proof fn lemma_round_trip(v: u8, rest: Seq<u8>) {
        lemma_u8_round_trip(v, rest);
    }
}

impl RoundTrip for bool {
    open spec fn round_trips(v: bool) -> bool {
        true
    }

    proof fn lemma_round_trip(v: bool, rest: Seq<u8>) {
        lemma_bool_round_trip(v, rest);
    }
}

impl RoundTrip for char {
    open spec fn round_trips(v: char) -> bool {
        true
    }

    proof fn lemma_round_trip(v: char, rest: Seq<u8>) {
        lemma_char_round_trip(v, rest);
    }
}

impl RoundTrip for FloatBits {
    open spec fn round_trips(v: u32) -> bool {
        true
    }

    proof fn lemma_round_trip(v: u32, rest: Seq<u8>) {
        lemma_float_bits_round_trip(v, rest);
    }
}

} // verus!
