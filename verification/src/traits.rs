//! The two traits a type implements to travel over the wire, and the law
//! that ties them together.

use crate::stream::{DeserStream, SerStream};
use vstd::prelude::*;

verus! {

/// A type that has a wire form.
pub trait Serialize: Sized {
    /// The bytes that stand for this value on the wire.
    spec fn wire(&self) -> Seq<u8>;

    /// Appends the wire form of `self`. Succeeds exactly where it fits;
    /// where it does not, only some strict prefix of it was written.
    fn serialize(&self, stream: &mut SerStream) -> (res: Result<(), ()>)
        ensures
            res is Ok <==> self.wire().len() <= old(stream)@.room(),
            res is Ok ==> final(stream)@ == old(stream)@.put(self.wire()),
            res is Err ==> old(stream)@.cut_short(final(stream)@, self.wire()),
    ;
}

/// A type that can be read off the wire.
pub trait Deserialize: Sized + DeepView {
    /// What the front of `s` reads as: the value, by its view, and the
    /// number of bytes it takes; `None` where `s` does not start with a
    /// well-formed value.
    spec fn parse(s: Seq<u8>) -> Option<(<Self as DeepView>::V, nat)>;

    /// Reading is local: it takes no more bytes than there are, and what
    /// follows the bytes it takes has no say in what it reads.
    proof fn lemma_parse_local(s: Seq<u8>, t: Seq<u8>)
        ensures
            Self::parse(s) matches Some((v, n)) ==> n <= s.len() && Self::parse(
                s.take(n as int) + t,
            ) == Some((v, n)),
    ;

    /// Reads one value off the front of the stream and advances past it.
    /// Fails exactly where the front is no well-formed value; the stream has
    /// then passed over some of its bytes.
    fn deserialize(stream: &mut DeserStream) -> (res: Result<Self, ()>)
        ensures
            match Self::parse(old(stream)@) {
                Some((v, n)) => res matches Ok(r) && r.deep_view() == v && final(stream)@ == old(
                    stream,
                )@.skip(n as int),
                None => res is Err && final(stream)@.is_suffix_of(old(stream)@),
            },
    ;
}

/// A type whose values come back from the wire as they went.
pub trait RoundTrip: Serialize + Deserialize {
    /// What was written, followed by anything, reads back as the value that
    /// was written, over exactly the bytes that were written.
    proof fn lemma_round_trip(&self, rest: Seq<u8>)
        ensures
            Self::parse(self.wire() + rest) == Some((self.deep_view(), self.wire().len())),
    ;
}

/// Cut short, a wire form does not read: no strict prefix of what was
/// written is a well-formed value.
pub proof fn lemma_truncated_fails<T: RoundTrip>(value: &T, k: int)
    requires
        0 <= k < value.wire().len(),
    ensures
        T::parse(value.wire().take(k)) is None,
{
    let whole = value.wire();
    let cut = whole.take(k);
    if let Some((v, n)) = T::parse(cut) {
        T::lemma_parse_local(cut, whole.skip(n as int));
        assert(cut.take(n as int) + whole.skip(n as int) =~= whole);
        value.lemma_round_trip(Seq::empty());
        assert(whole + Seq::<u8>::empty() =~= whole);
    }
}

/// Decoding what was just encoded ends with nothing left over: the bytes
/// written are exactly the bytes read.
pub proof fn lemma_byte_count<T: RoundTrip>(value: &T)
    ensures
        T::parse(value.wire()) matches Some((v, n)) && n == value.wire().len() && value.wire().skip(
            n as int,
        ) == Seq::<u8>::empty(),
{
    value.lemma_round_trip(Seq::empty());
    assert(value.wire() + Seq::<u8>::empty() =~= value.wire());
    assert(value.wire().skip(value.wire().len() as int) =~= Seq::<u8>::empty());
}

} // verus!
