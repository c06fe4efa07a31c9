use vstd::prelude::*;

verus! {

/// What reading a value from the front of a byte sequence gives.
pub enum Decoding<V> {
    /// The value read and the number of bytes it took.
    Complete(V, nat),
    /// The bytes do not hold a value of this kind.
    Rejected,
    /// The bytes are malformed beyond reading (a length that runs past the
    /// end of the input, a number past the range it must fit). A format
    /// reader that trusted its input would stop here; the readers of this
    /// crate give nothing back, as for `Rejected`.
    Aborts,
}

impl<V> Decoding<V> {
    pub open spec fn is_complete(self) -> bool {
        self is Complete
    }

    pub open spec fn aborts(self) -> bool {
        self is Aborts
    }

    pub open spec fn value(self) -> V
        recommends
            self is Complete,
    {
        self->Complete_0
    }

    pub open spec fn consumed(self) -> nat
        recommends
            self is Complete,
    {
        self->Complete_1
    }
}

/// The result of an executable reader agrees with its specification: on
/// `Complete(v, n)` it returns `v` and the input without its first `n` bytes,
/// otherwise `None`.
pub open spec fn reads_as<T: DeepView>(
    spec_result: Decoding<T::V>,
    input: Seq<u8>,
    result: Option<(Seq<u8>, T)>,
) -> bool {
    match spec_result {
        Decoding::Complete(v, n) => {
            &&& n <= input.len()
            &&& result matches Some((rest, value))
            &&& rest == input.skip(n as int)
            &&& value.deep_view() == v
        },
        Decoding::Rejected => result is None,
        Decoding::Aborts => result is None,
    }
}

/// Lifts the slice in an exec result to its sequence.
pub open spec fn seq_result<'a, T>(result: Option<(&'a [u8], T)>) -> Option<(Seq<u8>, T)> {
    match result {
        Some((rest, value)) => Some((rest@, value)),
        None => None,
    }
}

/// A value with a binary form, appended to an output buffer.
pub trait Serializable: DeepView {
    /// The bytes that a value with this model is written as.
    spec fn spec_serialize(v: Self::V) -> Seq<u8>;

    fn serialize(&self, output: &mut Vec<u8>)
        ensures
            final(output)@ == old(output)@ + Self::spec_serialize(self.deep_view()),
    ;
}

/// A value that can be read back from the front of a byte slice.
pub trait Deserializable: Sized + DeepView {
    /// What reading from the front of `input` gives.
    spec fn spec_deserialize(input: Seq<u8>) -> Decoding<Self::V>;

    fn deserialize(input: &[u8]) -> (res: Option<(&[u8], Self)>)
        ensures
            reads_as::<Self>(Self::spec_deserialize(input@), input@, seq_result(res)),
    ;
}

/// A value whose written form reads back as the same value.
pub trait RoundTrip: Serializable + Deserializable {
    /// The values for which the law below holds.
    spec fn round_trips(v: <Self as DeepView>::V) -> bool;

    /// Writing a value and reading it back from the front of any byte
    /// sequence gives the value and the number of bytes written.
    proof fn lemma_round_trip(v: <Self as DeepView>::V, rest: Seq<u8>)
        requires
            Self::round_trips(v),
        ensures
            Self::spec_deserialize(Self::spec_serialize(v) + rest) == Decoding::Complete(
                v,
                Self::spec_serialize(v).len(),
            ),
    ;
}

} // verus!
