use vstd::prelude::*;
use vstd::utf8::{decode_utf8, encode_scalar, encode_utf8, is_char_boundary, valid_utf8};

use super::primitives::{encode_varint, lemma_usize_round_trip};
use super::traits::{reads_as, seq_result, Decoding, Deserializable, RoundTrip, Serializable};

verus! {

broadcast use {vstd::utf8::encode_utf8_valid_utf8, vstd::utf8::encode_utf8_decode_utf8};

/// The written form of a text: its UTF-8 length, then its UTF-8 bytes.
pub open spec fn spec_serialize_str(chars: Seq<char>) -> Seq<u8> {
    encode_varint(encode_utf8(chars).len()) + encode_utf8(chars)
}

/// What reading a text gives: a length, then that many bytes, which must be
/// UTF-8. A length that runs past the end of the input is malformed.
pub open spec fn spec_deserialize_string(input: Seq<u8>) -> Decoding<Seq<char>> {
    match usize::spec_deserialize(input) {
        Decoding::Complete(len, n) => if n + len > input.len() {
            Decoding::Aborts
        } else {
            let bytes = input.subrange(n as int, n + len);
            if valid_utf8(bytes) {
                Decoding::Complete(decode_utf8(bytes), (n + len) as nat)
            } else {
                Decoding::Rejected
            }
        },
        Decoding::Rejected => Decoding::Rejected,
        Decoding::Aborts => Decoding::Aborts,
    }
}

/// `String::from_utf8`: the text whose UTF-8 encoding `bytes` is, if they
/// are valid UTF-8.
#[verifier::external_body]
fn string_from_utf8(bytes: Vec<u8>) -> (res: Option<String>)
    ensures
        res is Some <==> valid_utf8(bytes@),
        res matches Some(s) ==> s@ == decode_utf8(bytes@),
{
    String::from_utf8(bytes).ok()
}

/// Writes a text: its byte length, then its UTF-8 bytes.
pub fn serialize_str(s: &str, output: &mut Vec<u8>)
    ensures
        final(output)@ == old(output)@ + spec_serialize_str(s@),
{
    let bytes = s.as_bytes();
    bytes.len().serialize(output);
    let ghost start = output@;
    let n = bytes.len();
    let mut i: usize = 0;
    while i < n
        invariant
            n == bytes@.len(),
            i <= n,
            bytes@ == encode_utf8(s@),
            output@ == start + bytes@.take(i as int),
        decreases n - i,
    {
        output.push(bytes[i]);
        i = i + 1;
        assert(bytes@.take(i as int) == bytes@.take(i - 1).push(bytes@[i - 1]));
    }
    assert(bytes@.take(n as int) == bytes@);
}

impl Serializable for String {
    open spec fn spec_serialize(v: Seq<char>) -> Seq<u8> {
        spec_serialize_str(v)
    }

    fn serialize(&self, output: &mut Vec<u8>) {
        serialize_str(self.as_str(), output);
    }
}

impl Deserializable for String {
    open spec fn spec_deserialize(input: Seq<u8>) -> Decoding<Seq<char>> {
        spec_deserialize_string(input)
    }

    fn deserialize(input: &[u8]) -> (res: Option<(&[u8], String)>) {
        let (rest, len) = usize::deserialize(input)?;
        let ghost n = (input@.len() - rest@.len()) as nat;
        if len > rest.len() {
            return None;
        }
        let (bytes, after) = rest.split_at(len);
        assert(bytes@ == input@.subrange(n as int, n + len));
        assert(after@ == input@.skip(n + len));
        let string = string_from_utf8(vstd::slice::slice_to_vec(bytes))?;
        Some((after, string))
    }
}

/// Writing a text and reading it back gives the text, when its byte length
/// is one the length reader gives back.
pub proof fn lemma_string_round_trip(chars: Seq<char>, rest: Seq<u8>)
    requires
        encode_utf8(chars).len() <= usize::MAX,
    ensures
        String::spec_deserialize(String::spec_serialize(chars) + rest) == Decoding::Complete(
            chars,
            String::spec_serialize(chars).len(),
        ),
{
    let bytes = encode_utf8(chars);
    let len = encode_varint(bytes.len());
    let s = String::spec_serialize(chars) + rest;
    assert(s == len + (bytes + rest));
    lemma_usize_round_trip(bytes.len() as usize, bytes + rest);
    assert(s.subrange(len.len() as int, (len.len() + bytes.len()) as int) == bytes);
}

/// The UTF-8 encoding of a concatenation.
pub proof fn lemma_encode_utf8_concat(a: Seq<char>, b: Seq<char>)
    ensures
        encode_utf8(a + b) == encode_utf8(a) + encode_utf8(b),
    decreases a.len(),
{
    if a.len() == 0 {
        assert(a + b == b);
    } else {
        lemma_encode_utf8_concat(a.drop_first(), b);
        assert((a + b).drop_first() == a.drop_first() + b);
        assert((a + b)[0] == a[0]);
    }
}

/// The number of UTF-8 bytes before the character at index `i`.
pub open spec fn byte_offset(chars: Seq<char>, i: int) -> nat {
    encode_utf8(chars.take(i)).len()
}

/// The first index, from `i` on, whose character starts after byte `max`.
pub open spec fn first_index_past(chars: Seq<char>, max: nat, i: nat) -> Option<nat>
    decreases chars.len() - i,
{
    if i >= chars.len() {
        None
    } else if byte_offset(chars, i as int) > max {
        Some(i)
    } else {
        first_index_past(chars, max, i + 1)
    }
}

/// The last index below `k` that holds a space.
pub open spec fn last_space_before(chars: Seq<char>, k: nat) -> Option<nat>
    decreases k,
{
    if k == 0 {
        None
    } else if chars[k - 1] == ' ' {
        Some((k - 1) as nat)
    } else {
        last_space_before(chars, (k - 1) as nat)
    }
}

/// The text cut to keep it near `max` bytes: when a character starts after
/// byte `max`, the text is cut at the last space before that character, or
/// at that character when there is no such space.
pub open spec fn limited_chars(chars: Seq<char>, max: nat) -> Seq<char> {
    match first_index_past(chars, max, 0) {
        None => chars,
        Some(k) => match last_space_before(chars, k) {
            Some(j) => chars.take(j as int),
            None => chars.take(k as int),
        },
    }
}

/// The number of UTF-8 bytes of a character.
fn utf8_width(c: char) -> (w: usize)
    ensures
        w == encode_scalar(c as u32).len(),
        1 <= w <= 4,
{
    proof {
        vstd::utf8::char_is_scalar(c);
    }
    let v = c as u32;
    if v < 0x80 {
        1
    } else if v < 0x800 {
        2
    } else if v < 0x10000 {
        3
    } else {
        4
    }
}

/// The characters of a text, in order.
pub fn chars_of(s: &str) -> (res: Vec<char>)
    ensures
        res@ == s@,
{
    let mut out: Vec<char> = Vec::new();
    for c in it: s.chars()
        invariant
            out@ == it.seq().take(it.index() as int),
            it.seq() == s@,
    {
        out.push(c);
    }
    out
}

/// The UTF-8 encoding of a single character.
pub proof fn lemma_encode_single(c: char)
    ensures
        encode_utf8(seq![c]) == encode_scalar(c as u32),
{
    reveal_with_fuel(encode_utf8, 2);
    assert(seq![c].drop_first() == Seq::<char>::empty());
    assert(encode_scalar(c as u32) + Seq::<u8>::empty() == encode_scalar(c as u32));
}

/// A byte offset at a character's start is a character boundary, and the
/// bytes before it decode to the characters before it.
proof fn lemma_prefix_boundary(chars: Seq<char>, k: int)
    requires
        0 <= k <= chars.len(),
    ensures
        is_char_boundary(encode_utf8(chars), byte_offset(chars, k) as int),
        encode_utf8(chars).subrange(0, byte_offset(chars, k) as int) == encode_utf8(chars.take(k)),
    decreases k,
{
    lemma_encode_utf8_concat(chars.take(k), chars.skip(k));
    assert(chars.take(k) + chars.skip(k) == chars);
    if k > 0 {
        let bytes = encode_utf8(chars);
        let rest = chars.drop_first();
        vstd::utf8::encode_utf8_first_scalar(chars);
        vstd::utf8::char_is_scalar(chars[0]);
        lemma_prefix_boundary(rest, k - 1);
        assert(chars.take(k) == seq![chars[0]] + rest.take(k - 1));
        lemma_encode_utf8_concat(seq![chars[0]], rest.take(k - 1));
        lemma_encode_single(chars[0]);
        assert(encode_utf8(chars) == encode_scalar(chars[0] as u32) + encode_utf8(rest));
        assert(vstd::utf8::pop_first_scalar(bytes) == encode_utf8(rest));
    }
}

/// Cuts a text to keep it near `max_len` bytes, at a space where it can.
pub fn limit_string_len(input: &str, max_len: usize) -> (res: &str)
    ensures
        res@ == limited_chars(input@, max_len as nat),
{
    let chars = chars_of(input);
    let n = chars.len();
    let total = input.as_bytes().len();
    let mut last_candidate: Option<usize> = None;
    let mut offset: usize = 0;
    let mut i: usize = 0;
    proof {
        assert(input@.take(0) == Seq::<char>::empty());
    }
    while i < n
        invariant
            n == chars@.len(),
            chars@ == input@,
            i <= n,
            offset == byte_offset(input@, i as int),
            total == encode_utf8(input@).len(),
            first_index_past(input@, max_len as nat, 0) == first_index_past(
                input@,
                max_len as nat,
                i as nat,
            ),
            match last_space_before(input@, i as nat) {
                Some(j) => last_candidate == Some(byte_offset(input@, j as int) as usize) && j < i,
                None => last_candidate is None,
            },
        decreases n - i,
    {
        let c = chars[i];
        if offset > max_len {
            let cut = match last_candidate {
                Some(viable) => viable,
                None => offset,
            };
            proof {
                let k = match last_space_before(input@, i as nat) {
                    Some(j) => j as int,
                    None => i as int,
                };
                lemma_prefix_boundary(input@, k);
                assert(cut == byte_offset(input@, k));
            }
            let res = input.split_at(cut).0;
            proof {
                let k = match last_space_before(input@, i as nat) {
                    Some(j) => j as int,
                    None => i as int,
                };
                assert(encode_utf8(res@) == encode_utf8(input@.take(k)));
                assert(decode_utf8(encode_utf8(res@)) == res@);
            }
            return res;
        }
        if c == ' ' {
            last_candidate = Some(offset);
        }
        let w = utf8_width(c);
        proof {
            lemma_encode_utf8_concat(input@.take(i as int), seq![c]);
            assert(input@.take(i + 1) == input@.take(i as int) + seq![c]);
            lemma_encode_single(c);
            lemma_encode_utf8_concat(input@.take(i + 1), input@.skip(i + 1));
            assert(input@.take(i + 1) + input@.skip(i + 1) == input@);
        }
        offset = offset + w;
        i = i + 1;
    }
    proof {
        assert(first_index_past(input@, max_len as nat, n as nat) == None::<nat>);
    }
    input
}

/// Writes a text cut near `max_len` bytes (see [`limited_chars`]).
pub fn serialize_string_with_limit(input: &str, max_len: usize, output: &mut Vec<u8>)
    ensures
        final(output)@ == old(output)@ + spec_serialize_str(limited_chars(input@, max_len as nat)),
{
    serialize_str(limit_string_len(input, max_len), output);
}

/// The texts whose written form reads back unchanged: those whose byte
/// length the length reader gives back.
pub open spec fn text_round_trips(v: Seq<char>) -> bool {
    &&& encode_utf8(v).len() <= usize::MAX
}

impl RoundTrip for String {
    open spec fn round_trips(v: Seq<char>) -> bool {
        text_round_trips(v)
    }

    proof fn lemma_round_trip(v: Seq<char>, rest: Seq<u8>) {
        lemma_string_round_trip(v, rest);
    }
}

/// Whether `a` starts `b`.
pub fn bytes_start(a: &[u8], b: &[u8]) -> (res: bool)
    ensures
        res == a@.is_prefix_of(b@),
{
    if a.len() > b.len() {
        return false;
    }
    let n = a.len();
    let mut i: usize = 0;
    while i < n
        invariant
            n == a@.len(),
            n <= b@.len(),
            i <= n,
            forall|k: int| 0 <= k < i ==> a@[k] == b@[k],
        decreases n - i,
    {
        if a[i] != b[i] {
            return false;
        }
        i = i + 1;
    }
    true
}

/// Whether two texts are the same.
pub fn same_text(a: &str, b: &str) -> (res: bool)
    ensures
        res == (a@ == b@),
{
    let x = a.as_bytes();
    let y = b.as_bytes();
    let res = x.len() == y.len() && bytes_start(x, y);
    proof {
        vstd::utf8::encode_utf8_decode_utf8(a@);
        vstd::utf8::encode_utf8_decode_utf8(b@);
        if x@.len() == y@.len() && x@.is_prefix_of(y@) {
            assert(x@ =~= y@);
        }
    }
    res
}

} // verus!
