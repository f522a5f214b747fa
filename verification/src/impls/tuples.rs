//! Wire forms of the tuples of one to seven fields: the fields in order,
//! as in a record.

use crate::impls::generics::lemma_suffix_of_skip;
use crate::stream::{DeserStream, SerStream};
use crate::traits::{Deserialize, RoundTrip, Serialize};
use vstd::prelude::*;

verus! {

impl<T: Serialize> Serialize for (T,) {
    /// The fields in order, one after the other.
    open spec fn wire(&self) -> Seq<u8> {
        self.0.wire()
    }

    fn serialize(&self, stream: &mut SerStream) -> (res: Result<(), ()>) {
        let ghost start = stream@;
        let ghost none = Seq::<u8>::empty();
        let ghost w0 = self.0.wire();
        let ghost done0 = none;
        let ghost done1 = done0 + w0;
        let ghost r0 = none;
        proof {
            start.lemma_put_empty();
            assert(done1 + r0 =~= self.wire());
        }
        let ghost mid = stream@;
        let res = self.0.serialize(stream);
        proof {
            start.lemma_put_next(mid, stream@, done0, w0, r0, res is Ok);
        }
        res
    }
}

impl<T: Deserialize> Deserialize for (T,) {
    /// The fields in order, each read from where the one before it ended.
    open spec fn parse(s: Seq<u8>) -> Option<((<T as DeepView>::V,), nat)> {
        match T::parse(s) {
            Some((v0, n0)) => Some(((v0,), n0)),
            None => None,
        }
    }

    proof fn lemma_parse_local(s: Seq<u8>, t: Seq<u8>) {
        let c0 = 0nat;
        T::lemma_parse_local(s.skip(c0 as int), Seq::empty());
        let n0 = match T::parse(s.skip(c0 as int)) {
            Some((_, n)) => n,
            None => 0,
        };
        let c1 = c0 + n0;
        assert(s.skip(0) =~= s);
        if Self::parse(s) is Some {
            let cut = s.take(c1 as int) + t;
            assert(cut.skip(0) =~= cut);
            let tail0 = s.skip(c1 as int).take(c1 - c1) + t;
            T::lemma_parse_local(s.skip(c0 as int), tail0);
            assert(cut.skip(c0 as int) =~= s.skip(c0 as int).take(n0 as int) + tail0);
        }
    }

    fn deserialize(stream: &mut DeserStream) -> (res: Result<(T,), ()>) {
        let ghost s0 = stream@;
        let ghost c0 = 0nat;
        proof {
            assert(s0.skip(0) =~= s0);
        }
        proof {
            T::lemma_parse_local(s0.skip(c0 as int), Seq::empty());
        }
        let f0: T = match T::deserialize(stream) {
            Ok(val) => val,
            Err(_) => {
                proof {
                    lemma_suffix_of_skip(stream@, s0, c0 as int);
                }
                return Err(());
            },
        };
        let ghost c1 = c0 + T::parse(s0.skip(c0 as int))->Some_0.1;
        proof {
            assert(s0.skip(c0 as int).skip(c1 - c0) =~= s0.skip(c1 as int));
        }
        Ok((f0,))
    }
}

impl<T: RoundTrip> RoundTrip for (T,) {
    proof fn lemma_round_trip(&self, rest: Seq<u8>) {
        let whole = self.wire() + rest;
        let c0 = 0nat;
        let w0 = self.0.wire();
        let c1 = c0 + w0.len();
        let q0 = rest;
        assert(whole.skip(0) =~= whole);
        self.0.lemma_round_trip(q0);
        assert(whole.skip(c0 as int) =~= w0 + q0);
    }
}

impl<T: Serialize, U: Serialize> Serialize for (T, U) {
    /// The fields in order, one after the other.
    open spec fn wire(&self) -> Seq<u8> {
        self.0.wire() + self.1.wire()
    }

    fn serialize(&self, stream: &mut SerStream) -> (res: Result<(), ()>) {
        let ghost start = stream@;
        let ghost none = Seq::<u8>::empty();
        let ghost w0 = self.0.wire();
        let ghost w1 = self.1.wire();
        let ghost done0 = none;
        let ghost done1 = done0 + w0;
        let ghost done2 = done1 + w1;
        let ghost r1 = none;
        let ghost r0 = w1 + r1;
        proof {
            start.lemma_put_empty();
            assert(done1 + r0 =~= self.wire());
            assert(done2 + r1 =~= self.wire());
        }
        let ghost mid = stream@;
        let res = self.0.serialize(stream);
        proof {
            start.lemma_put_next(mid, stream@, done0, w0, r0, res is Ok);
        }
        if res.is_err() {
            return Err(());
        }
        let ghost mid = stream@;
        let res = self.1.serialize(stream);
        proof {
            start.lemma_put_next(mid, stream@, done1, w1, r1, res is Ok);
        }
        res
    }
}

impl<T: Deserialize, U: Deserialize> Deserialize for (T, U) {
    /// The fields in order, each read from where the one before it ended.
    open spec fn parse(s: Seq<u8>) -> Option<((<T as DeepView>::V, <U as DeepView>::V), nat)> {
        match T::parse(s) {
            Some((v0, n0)) => {
                match U::parse(s.skip((n0) as int)) {
                    Some((v1, n1)) => Some(((v0, v1), n0 + n1)),
                    None => None,
                }
            },
            None => None,
        }
    }

    proof fn lemma_parse_local(s: Seq<u8>, t: Seq<u8>) {
        let c0 = 0nat;
        T::lemma_parse_local(s.skip(c0 as int), Seq::empty());
        let n0 = match T::parse(s.skip(c0 as int)) {
            Some((_, n)) => n,
            None => 0,
        };
        let c1 = c0 + n0;
        U::lemma_parse_local(s.skip(c1 as int), Seq::empty());
        let n1 = match U::parse(s.skip(c1 as int)) {
            Some((_, n)) => n,
            None => 0,
        };
        let c2 = c1 + n1;
        assert(s.skip(0) =~= s);
        if Self::parse(s) is Some {
            let cut = s.take(c2 as int) + t;
            assert(cut.skip(0) =~= cut);
            let tail0 = s.skip(c1 as int).take(c2 - c1) + t;
            T::lemma_parse_local(s.skip(c0 as int), tail0);
            assert(cut.skip(c0 as int) =~= s.skip(c0 as int).take(n0 as int) + tail0);
            let tail1 = s.skip(c2 as int).take(c2 - c2) + t;
            U::lemma_parse_local(s.skip(c1 as int), tail1);
            assert(cut.skip(c1 as int) =~= s.skip(c1 as int).take(n1 as int) + tail1);
        }
    }

    fn deserialize(stream: &mut DeserStream) -> (res: Result<(T, U), ()>) {
        let ghost s0 = stream@;
        let ghost c0 = 0nat;
        proof {
            assert(s0.skip(0) =~= s0);
        }
        proof {
            T::lemma_parse_local(s0.skip(c0 as int), Seq::empty());
        }
        let f0: T = match T::deserialize(stream) {
            Ok(val) => val,
            Err(_) => {
                proof {
                    lemma_suffix_of_skip(stream@, s0, c0 as int);
                }
                return Err(());
            },
        };
        let ghost c1 = c0 + T::parse(s0.skip(c0 as int))->Some_0.1;
        proof {
            assert(s0.skip(c0 as int).skip(c1 - c0) =~= s0.skip(c1 as int));
        }
        proof {
            U::lemma_parse_local(s0.skip(c1 as int), Seq::empty());
        }
        let f1: U = match U::deserialize(stream) {
            Ok(val) => val,
            Err(_) => {
                proof {
                    lemma_suffix_of_skip(stream@, s0, c1 as int);
                }
                return Err(());
            },
        };
        let ghost c2 = c1 + U::parse(s0.skip(c1 as int))->Some_0.1;
        proof {
            assert(s0.skip(c1 as int).skip(c2 - c1) =~= s0.skip(c2 as int));
        }
        Ok((f0, f1))
    }
}

impl<T: RoundTrip, U: RoundTrip> RoundTrip for (T, U) {
    proof fn lemma_round_trip(&self, rest: Seq<u8>) {
        let whole = self.wire() + rest;
        let c0 = 0nat;
        let w0 = self.0.wire();
        let c1 = c0 + w0.len();
        let w1 = self.1.wire();
        let c2 = c1 + w1.len();
        let q1 = rest;
        let q0 = w1 + q1;
        assert(whole.skip(0) =~= whole);
        self.0.lemma_round_trip(q0);
        assert(whole.skip(c0 as int) =~= w0 + q0);
        self.1.lemma_round_trip(q1);
        assert(whole.skip(c1 as int) =~= w1 + q1);
    }
}

impl<T: Serialize, U: Serialize, V: Serialize> Serialize for (T, U, V) {
    /// The fields in order, one after the other.
    open spec fn wire(&self) -> Seq<u8> {
        self.0.wire() + self.1.wire() + self.2.wire()
    }

    fn serialize(&self, stream: &mut SerStream) -> (res: Result<(), ()>) {
        let ghost start = stream@;
        let ghost none = Seq::<u8>::empty();
        let ghost w0 = self.0.wire();
        let ghost w1 = self.1.wire();
        let ghost w2 = self.2.wire();
        let ghost done0 = none;
        let ghost done1 = done0 + w0;
        let ghost done2 = done1 + w1;
        let ghost done3 = done2 + w2;
        let ghost r2 = none;
        let ghost r1 = w2 + r2;
        let ghost r0 = w1 + r1;
        proof {
            start.lemma_put_empty();
            assert(done1 + r0 =~= self.wire());
            assert(done2 + r1 =~= self.wire());
            assert(done3 + r2 =~= self.wire());
        }
        let ghost mid = stream@;
        let res = self.0.serialize(stream);
        proof {
            start.lemma_put_next(mid, stream@, done0, w0, r0, res is Ok);
        }
        if res.is_err() {
            return Err(());
        }
        let ghost mid = stream@;
        let res = self.1.serialize(stream);
        proof {
            start.lemma_put_next(mid, stream@, done1, w1, r1, res is Ok);
        }
        if res.is_err() {
            return Err(());
        }
        let ghost mid = stream@;
        let res = self.2.serialize(stream);
        proof {
            start.lemma_put_next(mid, stream@, done2, w2, r2, res is Ok);
        }
        res
    }
}

impl<T: Deserialize, U: Deserialize, V: Deserialize> Deserialize for (T, U, V) {
    /// The fields in order, each read from where the one before it ended.
    open spec fn parse(s: Seq<u8>) -> Option<((<T as DeepView>::V, <U as DeepView>::V, <V as DeepView>::V), nat)> {
        match T::parse(s) {
            Some((v0, n0)) => {
                match U::parse(s.skip((n0) as int)) {
                    Some((v1, n1)) => {
                        match V::parse(s.skip((n0 + n1) as int)) {
                            Some((v2, n2)) => Some(((v0, v1, v2), n0 + n1 + n2)),
                            None => None,
                        }
                    },
                    None => None,
                }
            },
            None => None,
        }
    }

    proof fn lemma_parse_local(s: Seq<u8>, t: Seq<u8>) {
        let c0 = 0nat;
        T::lemma_parse_local(s.skip(c0 as int), Seq::empty());
        let n0 = match T::parse(s.skip(c0 as int)) {
            Some((_, n)) => n,
            None => 0,
        };
        let c1 = c0 + n0;
        U::lemma_parse_local(s.skip(c1 as int), Seq::empty());
        let n1 = match U::parse(s.skip(c1 as int)) {
            Some((_, n)) => n,
            None => 0,
        };
        let c2 = c1 + n1;
        V::lemma_parse_local(s.skip(c2 as int), Seq::empty());
        let n2 = match V::parse(s.skip(c2 as int)) {
            Some((_, n)) => n,
            None => 0,
        };
        let c3 = c2 + n2;
        assert(s.skip(0) =~= s);
        if Self::parse(s) is Some {
            let cut = s.take(c3 as int) + t;
            assert(cut.skip(0) =~= cut);
            let tail0 = s.skip(c1 as int).take(c3 - c1) + t;
            T::lemma_parse_local(s.skip(c0 as int), tail0);
            assert(cut.skip(c0 as int) =~= s.skip(c0 as int).take(n0 as int) + tail0);
            let tail1 = s.skip(c2 as int).take(c3 - c2) + t;
            U::lemma_parse_local(s.skip(c1 as int), tail1);
            assert(cut.skip(c1 as int) =~= s.skip(c1 as int).take(n1 as int) + tail1);
            let tail2 = s.skip(c3 as int).take(c3 - c3) + t;
            V::lemma_parse_local(s.skip(c2 as int), tail2);
            assert(cut.skip(c2 as int) =~= s.skip(c2 as int).take(n2 as int) + tail2);
        }
    }

    fn deserialize(stream: &mut DeserStream) -> (res: Result<(T, U, V), ()>) {
        let ghost s0 = stream@;
        let ghost c0 = 0nat;
        proof {
            assert(s0.skip(0) =~= s0);
        }
        proof {
            T::lemma_parse_local(s0.skip(c0 as int), Seq::empty());
        }
        let f0: T = match T::deserialize(stream) {
            Ok(val) => val,
            Err(_) => {
                proof {
                    lemma_suffix_of_skip(stream@, s0, c0 as int);
                }
                return Err(());
            },
        };
        let ghost c1 = c0 + T::parse(s0.skip(c0 as int))->Some_0.1;
        proof {
            assert(s0.skip(c0 as int).skip(c1 - c0) =~= s0.skip(c1 as int));
        }
        proof {
            U::lemma_parse_local(s0.skip(c1 as int), Seq::empty());
        }
        let f1: U = match U::deserialize(stream) {
            Ok(val) => val,
            Err(_) => {
                proof {
                    lemma_suffix_of_skip(stream@, s0, c1 as int);
                }
                return Err(());
            },
        };
        let ghost c2 = c1 + U::parse(s0.skip(c1 as int))->Some_0.1;
        proof {
            assert(s0.skip(c1 as int).skip(c2 - c1) =~= s0.skip(c2 as int));
        }
        proof {
            V::lemma_parse_local(s0.skip(c2 as int), Seq::empty());
        }
        let f2: V = match V::deserialize(stream) {
            Ok(val) => val,
            Err(_) => {
                proof {
                    lemma_suffix_of_skip(stream@, s0, c2 as int);
                }
                return Err(());
            },
        };
        let ghost c3 = c2 + V::parse(s0.skip(c2 as int))->Some_0.1;
        proof {
            assert(s0.skip(c2 as int).skip(c3 - c2) =~= s0.skip(c3 as int));
        }
        Ok((f0, f1, f2))
    }
}

impl<T: RoundTrip, U: RoundTrip, V: RoundTrip> RoundTrip for (T, U, V) {
    proof fn lemma_round_trip(&self, rest: Seq<u8>) {
        let whole = self.wire() + rest;
        let c0 = 0nat;
        let w0 = self.0.wire();
        let c1 = c0 + w0.len();
        let w1 = self.1.wire();
        let c2 = c1 + w1.len();
        let w2 = self.2.wire();
        let c3 = c2 + w2.len();
        let q2 = rest;
        let q1 = w2 + q2;
        let q0 = w1 + q1;
        assert(whole.skip(0) =~= whole);
        self.0.lemma_round_trip(q0);
        assert(whole.skip(c0 as int) =~= w0 + q0);
        self.1.lemma_round_trip(q1);
        assert(whole.skip(c1 as int) =~= w1 + q1);
        self.2.lemma_round_trip(q2);
        assert(whole.skip(c2 as int) =~= w2 + q2);
    }
}

impl<T: Serialize, U: Serialize, V: Serialize, W: Serialize> Serialize for (T, U, V, W) {
    /// The fields in order, one after the other.
    open spec fn wire(&self) -> Seq<u8> {
        self.0.wire() + self.1.wire() + self.2.wire() + self.3.wire()
    }

    fn serialize(&self, stream: &mut SerStream) -> (res: Result<(), ()>) {
        let ghost start = stream@;
        let ghost none = Seq::<u8>::empty();
        let ghost w0 = self.0.wire();
        let ghost w1 = self.1.wire();
        let ghost w2 = self.2.wire();
        let ghost w3 = self.3.wire();
        let ghost done0 = none;
        let ghost done1 = done0 + w0;
        let ghost done2 = done1 + w1;
        let ghost done3 = done2 + w2;
        let ghost done4 = done3 + w3;
        let ghost r3 = none;
        let ghost r2 = w3 + r3;
        let ghost r1 = w2 + r2;
        let ghost r0 = w1 + r1;
        proof {
            start.lemma_put_empty();
            assert(done1 + r0 =~= self.wire());
            assert(done2 + r1 =~= self.wire());
            assert(done3 + r2 =~= self.wire());
            assert(done4 + r3 =~= self.wire());
        }
        let ghost mid = stream@;
        let res = self.0.serialize(stream);
        proof {
            start.lemma_put_next(mid, stream@, done0, w0, r0, res is Ok);
        }
        if res.is_err() {
            return Err(());
        }
        let ghost mid = stream@;
        let res = self.1.serialize(stream);
        proof {
            start.lemma_put_next(mid, stream@, done1, w1, r1, res is Ok);
        }
        if res.is_err() {
            return Err(());
        }
        let ghost mid = stream@;
        let res = self.2.serialize(stream);
        proof {
            start.lemma_put_next(mid, stream@, done2, w2, r2, res is Ok);
        }
        if res.is_err() {
            return Err(());
        }
        let ghost mid = stream@;
        let res = self.3.serialize(stream);
        proof {
            start.lemma_put_next(mid, stream@, done3, w3, r3, res is Ok);
        }
        res
    }
}

impl<T: Deserialize, U: Deserialize, V: Deserialize, W: Deserialize> Deserialize for (T, U, V, W) {
    /// The fields in order, each read from where the one before it ended.
    open spec fn parse(s: Seq<u8>) -> Option<((<T as DeepView>::V, <U as DeepView>::V, <V as DeepView>::V, <W as DeepView>::V), nat)> {
        match T::parse(s) {
            Some((v0, n0)) => {
                match U::parse(s.skip((n0) as int)) {
                    Some((v1, n1)) => {
                        match V::parse(s.skip((n0 + n1) as int)) {
                            Some((v2, n2)) => {
                                match W::parse(s.skip((n0 + n1 + n2) as int)) {
                                    Some((v3, n3)) => Some(((v0, v1, v2, v3), n0 + n1 + n2 + n3)),
                                    None => None,
                                }
                            },
                            None => None,
                        }
                    },
                    None => None,
                }
            },
            None => None,
        }
    }

    proof fn lemma_parse_local(s: Seq<u8>, t: Seq<u8>) {
        let c0 = 0nat;
        T::lemma_parse_local(s.skip(c0 as int), Seq::empty());
        let n0 = match T::parse(s.skip(c0 as int)) {
            Some((_, n)) => n,
            None => 0,
        };
        let c1 = c0 + n0;
        U::lemma_parse_local(s.skip(c1 as int), Seq::empty());
        let n1 = match U::parse(s.skip(c1 as int)) {
            Some((_, n)) => n,
            None => 0,
        };
        let c2 = c1 + n1;
        V::lemma_parse_local(s.skip(c2 as int), Seq::empty());
        let n2 = match V::parse(s.skip(c2 as int)) {
            Some((_, n)) => n,
            None => 0,
        };
        let c3 = c2 + n2;
        W::lemma_parse_local(s.skip(c3 as int), Seq::empty());
        let n3 = match W::parse(s.skip(c3 as int)) {
            Some((_, n)) => n,
            None => 0,
        };
        let c4 = c3 + n3;
        assert(s.skip(0) =~= s);
        if Self::parse(s) is Some {
            let cut = s.take(c4 as int) + t;
            assert(cut.skip(0) =~= cut);
            let tail0 = s.skip(c1 as int).take(c4 - c1) + t;
            T::lemma_parse_local(s.skip(c0 as int), tail0);
            assert(cut.skip(c0 as int) =~= s.skip(c0 as int).take(n0 as int) + tail0);
            let tail1 = s.skip(c2 as int).take(c4 - c2) + t;
            U::lemma_parse_local(s.skip(c1 as int), tail1);
            assert(cut.skip(c1 as int) =~= s.skip(c1 as int).take(n1 as int) + tail1);
            let tail2 = s.skip(c3 as int).take(c4 - c3) + t;
            V::lemma_parse_local(s.skip(c2 as int), tail2);
            assert(cut.skip(c2 as int) =~= s.skip(c2 as int).take(n2 as int) + tail2);
            let tail3 = s.skip(c4 as int).take(c4 - c4) + t;
            W::lemma_parse_local(s.skip(c3 as int), tail3);
            assert(cut.skip(c3 as int) =~= s.skip(c3 as int).take(n3 as int) + tail3);
        }
    }

    fn deserialize(stream: &mut DeserStream) -> (res: Result<(T, U, V, W), ()>) {
        let ghost s0 = stream@;
        let ghost c0 = 0nat;
        proof {
            assert(s0.skip(0) =~= s0);
        }
        proof {
            T::lemma_parse_local(s0.skip(c0 as int), Seq::empty());
        }
        let f0: T = match T::deserialize(stream) {
            Ok(val) => val,
            Err(_) => {
                proof {
                    lemma_suffix_of_skip(stream@, s0, c0 as int);
                }
                return Err(());
            },
        };
        let ghost c1 = c0 + T::parse(s0.skip(c0 as int))->Some_0.1;
        proof {
            assert(s0.skip(c0 as int).skip(c1 - c0) =~= s0.skip(c1 as int));
        }
        proof {
            U::lemma_parse_local(s0.skip(c1 as int), Seq::empty());
        }
        let f1: U = match U::deserialize(stream) {
            Ok(val) => val,
            Err(_) => {
                proof {
                    lemma_suffix_of_skip(stream@, s0, c1 as int);
                }
                return Err(());
            },
        };
        let ghost c2 = c1 + U::parse(s0.skip(c1 as int))->Some_0.1;
        proof {
            assert(s0.skip(c1 as int).skip(c2 - c1) =~= s0.skip(c2 as int));
        }
        proof {
            V::lemma_parse_local(s0.skip(c2 as int), Seq::empty());
        }
        let f2: V = match V::deserialize(stream) {
            Ok(val) => val,
            Err(_) => {
                proof {
                    lemma_suffix_of_skip(stream@, s0, c2 as int);
                }
                return Err(());
            },
        };
        let ghost c3 = c2 + V::parse(s0.skip(c2 as int))->Some_0.1;
        proof {
            assert(s0.skip(c2 as int).skip(c3 - c2) =~= s0.skip(c3 as int));
        }
        proof {
            W::lemma_parse_local(s0.skip(c3 as int), Seq::empty());
        }
        let f3: W = match W::deserialize(stream) {
            Ok(val) => val,
            Err(_) => {
                proof {
                    lemma_suffix_of_skip(stream@, s0, c3 as int);
                }
                return Err(());
            },
        };
        let ghost c4 = c3 + W::parse(s0.skip(c3 as int))->Some_0.1;
        proof {
            assert(s0.skip(c3 as int).skip(c4 - c3) =~= s0.skip(c4 as int));
        }
        Ok((f0, f1, f2, f3))
    }
}

impl<T: RoundTrip, U: RoundTrip, V: RoundTrip, W: RoundTrip> RoundTrip for (T, U, V, W) {
    proof fn lemma_round_trip(&self, rest: Seq<u8>) {
        let whole = self.wire() + rest;
        let c0 = 0nat;
        let w0 = self.0.wire();
        let c1 = c0 + w0.len();
        let w1 = self.1.wire();
        let c2 = c1 + w1.len();
        let w2 = self.2.wire();
        let c3 = c2 + w2.len();
        let w3 = self.3.wire();
        let c4 = c3 + w3.len();
        let q3 = rest;
        let q2 = w3 + q3;
        let q1 = w2 + q2;
        let q0 = w1 + q1;
        assert(whole.skip(0) =~= whole);
        self.0.lemma_round_trip(q0);
        assert(whole.skip(c0 as int) =~= w0 + q0);
        self.1.lemma_round_trip(q1);
        assert(whole.skip(c1 as int) =~= w1 + q1);
        self.2.lemma_round_trip(q2);
        assert(whole.skip(c2 as int) =~= w2 + q2);
        self.3.lemma_round_trip(q3);
        assert(whole.skip(c3 as int) =~= w3 + q3);
    }
}

impl<T: Serialize, U: Serialize, V: Serialize, W: Serialize, X: Serialize> Serialize for (T, U, V, W, X) {
    /// The fields in order, one after the other.
    open spec fn wire(&self) -> Seq<u8> {
        self.0.wire() + self.1.wire() + self.2.wire() + self.3.wire() + self.4.wire()
    }

    fn serialize(&self, stream: &mut SerStream) -> (res: Result<(), ()>) {
        let ghost start = stream@;
        let ghost none = Seq::<u8>::empty();
        let ghost w0 = self.0.wire();
        let ghost w1 = self.1.wire();
        let ghost w2 = self.2.wire();
        let ghost w3 = self.3.wire();
        let ghost w4 = self.4.wire();
        let ghost done0 = none;
        let ghost done1 = done0 + w0;
        let ghost done2 = done1 + w1;
        let ghost done3 = done2 + w2;
        let ghost done4 = done3 + w3;
        let ghost done5 = done4 + w4;
        let ghost r4 = none;
        let ghost r3 = w4 + r4;
        let ghost r2 = w3 + r3;
        let ghost r1 = w2 + r2;
        let ghost r0 = w1 + r1;
        proof {
            start.lemma_put_empty();
            assert(done1 + r0 =~= self.wire());
            assert(done2 + r1 =~= self.wire());
            assert(done3 + r2 =~= self.wire());
            assert(done4 + r3 =~= self.wire());
            assert(done5 + r4 =~= self.wire());
        }
        let ghost mid = stream@;
        let res = self.0.serialize(stream);
        proof {
            start.lemma_put_next(mid, stream@, done0, w0, r0, res is Ok);
        }
        if res.is_err() {
            return Err(());
        }
        let ghost mid = stream@;
        let res = self.1.serialize(stream);
        proof {
            start.lemma_put_next(mid, stream@, done1, w1, r1, res is Ok);
        }
        if res.is_err() {
            return Err(());
        }
        let ghost mid = stream@;
        let res = self.2.serialize(stream);
        proof {
            start.lemma_put_next(mid, stream@, done2, w2, r2, res is Ok);
        }
        if res.is_err() {
            return Err(());
        }
        let ghost mid = stream@;
        let res = self.3.serialize(stream);
        proof {
            start.lemma_put_next(mid, stream@, done3, w3, r3, res is Ok);
        }
        if res.is_err() {
            return Err(());
        }
        let ghost mid = stream@;
        let res = self.4.serialize(stream);
        proof {
            start.lemma_put_next(mid, stream@, done4, w4, r4, res is Ok);
        }
        res
    }
}

impl<T: Deserialize, U: Deserialize, V: Deserialize, W: Deserialize, X: Deserialize> Deserialize for (T, U, V, W, X) {
    /// The fields in order, each read from where the one before it ended.
    open spec fn parse(s: Seq<u8>) -> Option<((<T as DeepView>::V, <U as DeepView>::V, <V as DeepView>::V, <W as DeepView>::V, <X as DeepView>::V), nat)> {
        match T::parse(s) {
            Some((v0, n0)) => {
                match U::parse(s.skip((n0) as int)) {
                    Some((v1, n1)) => {
                        match V::parse(s.skip((n0 + n1) as int)) {
                            Some((v2, n2)) => {
                                match W::parse(s.skip((n0 + n1 + n2) as int)) {
                                    Some((v3, n3)) => {
                                        match X::parse(s.skip((n0 + n1 + n2 + n3) as int)) {
                                            Some((v4, n4)) => Some(((v0, v1, v2, v3, v4), n0 + n1 + n2 + n3 + n4)),
                                            None => None,
                                        }
                                    },
                                    None => None,
                                }
                            },
                            None => None,
                        }
                    },
                    None => None,
                }
            },
            None => None,
        }
    }

    proof fn lemma_parse_local(s: Seq<u8>, t: Seq<u8>) {
        let c0 = 0nat;
        T::lemma_parse_local(s.skip(c0 as int), Seq::empty());
        let n0 = match T::parse(s.skip(c0 as int)) {
            Some((_, n)) => n,
            None => 0,
        };
        let c1 = c0 + n0;
        U::lemma_parse_local(s.skip(c1 as int), Seq::empty());
        let n1 = match U::parse(s.skip(c1 as int)) {
            Some((_, n)) => n,
            None => 0,
        };
        let c2 = c1 + n1;
        V::lemma_parse_local(s.skip(c2 as int), Seq::empty());
        let n2 = match V::parse(s.skip(c2 as int)) {
            Some((_, n)) => n,
            None => 0,
        };
        let c3 = c2 + n2;
        W::lemma_parse_local(s.skip(c3 as int), Seq::empty());
        let n3 = match W::parse(s.skip(c3 as int)) {
            Some((_, n)) => n,
            None => 0,
        };
        let c4 = c3 + n3;
        X::lemma_parse_local(s.skip(c4 as int), Seq::empty());
        let n4 = match X::parse(s.skip(c4 as int)) {
            Some((_, n)) => n,
            None => 0,
        };
        let c5 = c4 + n4;
        assert(s.skip(0) =~= s);
        if Self::parse(s) is Some {
            let cut = s.take(c5 as int) + t;
            assert(cut.skip(0) =~= cut);
            let tail0 = s.skip(c1 as int).take(c5 - c1) + t;
            T::lemma_parse_local(s.skip(c0 as int), tail0);
            assert(cut.skip(c0 as int) =~= s.skip(c0 as int).take(n0 as int) + tail0);
            let tail1 = s.skip(c2 as int).take(c5 - c2) + t;
            U::lemma_parse_local(s.skip(c1 as int), tail1);
            assert(cut.skip(c1 as int) =~= s.skip(c1 as int).take(n1 as int) + tail1);
            let tail2 = s.skip(c3 as int).take(c5 - c3) + t;
            V::lemma_parse_local(s.skip(c2 as int), tail2);
            assert(cut.skip(c2 as int) =~= s.skip(c2 as int).take(n2 as int) + tail2);
            let tail3 = s.skip(c4 as int).take(c5 - c4) + t;
            W::lemma_parse_local(s.skip(c3 as int), tail3);
            assert(cut.skip(c3 as int) =~= s.skip(c3 as int).take(n3 as int) + tail3);
            let tail4 = s.skip(c5 as int).take(c5 - c5) + t;
            X::lemma_parse_local(s.skip(c4 as int), tail4);
            assert(cut.skip(c4 as int) =~= s.skip(c4 as int).take(n4 as int) + tail4);
        }
    }

    fn deserialize(stream: &mut DeserStream) -> (res: Result<(T, U, V, W, X), ()>) {
        let ghost s0 = stream@;
        let ghost c0 = 0nat;
        proof {
            assert(s0.skip(0) =~= s0);
        }
        proof {
            T::lemma_parse_local(s0.skip(c0 as int), Seq::empty());
        }
        let f0: T = match T::deserialize(stream) {
            Ok(val) => val,
            Err(_) => {
                proof {
                    lemma_suffix_of_skip(stream@, s0, c0 as int);
                }
                return Err(());
            },
        };
        let ghost c1 = c0 + T::parse(s0.skip(c0 as int))->Some_0.1;
        proof {
            assert(s0.skip(c0 as int).skip(c1 - c0) =~= s0.skip(c1 as int));
        }
        proof {
            U::lemma_parse_local(s0.skip(c1 as int), Seq::empty());
        }
        let f1: U = match U::deserialize(stream) {
            Ok(val) => val,
            Err(_) => {
                proof {
                    lemma_suffix_of_skip(stream@, s0, c1 as int);
                }
                return Err(());
            },
        };
        let ghost c2 = c1 + U::parse(s0.skip(c1 as int))->Some_0.1;
        proof {
            assert(s0.skip(c1 as int).skip(c2 - c1) =~= s0.skip(c2 as int));
        }
        proof {
            V::lemma_parse_local(s0.skip(c2 as int), Seq::empty());
        }
        let f2: V = match V::deserialize(stream) {
            Ok(val) => val,
            Err(_) => {
                proof {
                    lemma_suffix_of_skip(stream@, s0, c2 as int);
                }
                return Err(());
            },
        };
        let ghost c3 = c2 + V::parse(s0.skip(c2 as int))->Some_0.1;
        proof {
            assert(s0.skip(c2 as int).skip(c3 - c2) =~= s0.skip(c3 as int));
        }
        proof {
            W::lemma_parse_local(s0.skip(c3 as int), Seq::empty());
        }
        let f3: W = match W::deserialize(stream) {
            Ok(val) => val,
            Err(_) => {
                proof {
                    lemma_suffix_of_skip(stream@, s0, c3 as int);
                }
                return Err(());
            },
        };
        let ghost c4 = c3 + W::parse(s0.skip(c3 as int))->Some_0.1;
        proof {
            assert(s0.skip(c3 as int).skip(c4 - c3) =~= s0.skip(c4 as int));
        }
        proof {
            X::lemma_parse_local(s0.skip(c4 as int), Seq::empty());
        }
        let f4: X = match X::deserialize(stream) {
            Ok(val) => val,
            Err(_) => {
                proof {
                    lemma_suffix_of_skip(stream@, s0, c4 as int);
                }
                return Err(());
            },
        };
        let ghost c5 = c4 + X::parse(s0.skip(c4 as int))->Some_0.1;
        proof {
            assert(s0.skip(c4 as int).skip(c5 - c4) =~= s0.skip(c5 as int));
        }
        Ok((f0, f1, f2, f3, f4))
    }
}

impl<T: RoundTrip, U: RoundTrip, V: RoundTrip, W: RoundTrip, X: RoundTrip> RoundTrip for (T, U, V, W, X) {
    proof fn lemma_round_trip(&self, rest: Seq<u8>) {
        let whole = self.wire() + rest;
        let c0 = 0nat;
        let w0 = self.0.wire();
        let c1 = c0 + w0.len();
        let w1 = self.1.wire();
        let c2 = c1 + w1.len();
        let w2 = self.2.wire();
        let c3 = c2 + w2.len();
        let w3 = self.3.wire();
        let c4 = c3 + w3.len();
        let w4 = self.4.wire();
        let c5 = c4 + w4.len();
        let q4 = rest;
        let q3 = w4 + q4;
        let q2 = w3 + q3;
        let q1 = w2 + q2;
        let q0 = w1 + q1;
        assert(whole.skip(0) =~= whole);
        self.0.lemma_round_trip(q0);
        assert(whole.skip(c0 as int) =~= w0 + q0);
        self.1.lemma_round_trip(q1);
        assert(whole.skip(c1 as int) =~= w1 + q1);
        self.2.lemma_round_trip(q2);
        assert(whole.skip(c2 as int) =~= w2 + q2);
        self.3.lemma_round_trip(q3);
        assert(whole.skip(c3 as int) =~= w3 + q3);
        self.4.lemma_round_trip(q4);
        assert(whole.skip(c4 as int) =~= w4 + q4);
    }
}

impl<T: Serialize, U: Serialize, V: Serialize, W: Serialize, X: Serialize, Y: Serialize> Serialize for (T, U, V, W, X, Y) {
    /// The fields in order, one after the other.
    open spec fn wire(&self) -> Seq<u8> {
        self.0.wire() + self.1.wire() + self.2.wire() + self.3.wire() + self.4.wire() + self.5.wire()
    }

    fn serialize(&self, stream: &mut SerStream) -> (res: Result<(), ()>) {
        let ghost start = stream@;
        let ghost none = Seq::<u8>::empty();
        let ghost w0 = self.0.wire();
        let ghost w1 = self.1.wire();
        let ghost w2 = self.2.wire();
        let ghost w3 = self.3.wire();
        let ghost w4 = self.4.wire();
        let ghost w5 = self.5.wire();
        let ghost done0 = none;
        let ghost done1 = done0 + w0;
        let ghost done2 = done1 + w1;
        let ghost done3 = done2 + w2;
        let ghost done4 = done3 + w3;
        let ghost done5 = done4 + w4;
        let ghost done6 = done5 + w5;
        let ghost r5 = none;
        let ghost r4 = w5 + r5;
        let ghost r3 = w4 + r4;
        let ghost r2 = w3 + r3;
        let ghost r1 = w2 + r2;
        let ghost r0 = w1 + r1;
        proof {
            start.lemma_put_empty();
            assert(done1 + r0 =~= self.wire());
            assert(done2 + r1 =~= self.wire());
            assert(done3 + r2 =~= self.wire());
            assert(done4 + r3 =~= self.wire());
            assert(done5 + r4 =~= self.wire());
            assert(done6 + r5 =~= self.wire());
        }
        let ghost mid = stream@;
        let res = self.0.serialize(stream);
        proof {
            start.lemma_put_next(mid, stream@, done0, w0, r0, res is Ok);
        }
        if res.is_err() {
            return Err(());
        }
        let ghost mid = stream@;
        let res = self.1.serialize(stream);
        proof {
            start.lemma_put_next(mid, stream@, done1, w1, r1, res is Ok);
        }
        if res.is_err() {
            return Err(());
        }
        let ghost mid = stream@;
        let res = self.2.serialize(stream);
        proof {
            start.lemma_put_next(mid, stream@, done2, w2, r2, res is Ok);
        }
        if res.is_err() {
            return Err(());
        }
        let ghost mid = stream@;
        let res = self.3.serialize(stream);
        proof {
            start.lemma_put_next(mid, stream@, done3, w3, r3, res is Ok);
        }
        if res.is_err() {
            return Err(());
        }
        let ghost mid = stream@;
        let res = self.4.serialize(stream);
        proof {
            start.lemma_put_next(mid, stream@, done4, w4, r4, res is Ok);
        }
        if res.is_err() {
            return Err(());
        }
        let ghost mid = stream@;
        let res = self.5.serialize(stream);
        proof {
            start.lemma_put_next(mid, stream@, done5, w5, r5, res is Ok);
        }
        res
    }
}

impl<T: Deserialize, U: Deserialize, V: Deserialize, W: Deserialize, X: Deserialize, Y: Deserialize> Deserialize for (T, U, V, W, X, Y) {
    /// The fields in order, each read from where the one before it ended.
    open spec fn parse(s: Seq<u8>) -> Option<((<T as DeepView>::V, <U as DeepView>::V, <V as DeepView>::V, <W as DeepView>::V, <X as DeepView>::V, <Y as DeepView>::V), nat)> {
        match T::parse(s) {
            Some((v0, n0)) => {
                match U::parse(s.skip((n0) as int)) {
                    Some((v1, n1)) => {
                        match V::parse(s.skip((n0 + n1) as int)) {
                            Some((v2, n2)) => {
                                match W::parse(s.skip((n0 + n1 + n2) as int)) {
                                    Some((v3, n3)) => {
                                        match X::parse(s.skip((n0 + n1 + n2 + n3) as int)) {
                                            Some((v4, n4)) => {
                                                match Y::parse(s.skip((n0 + n1 + n2 + n3 + n4) as int)) {
                                                    Some((v5, n5)) => Some(((v0, v1, v2, v3, v4, v5), n0 + n1 + n2 + n3 + n4 + n5)),
                                                    None => None,
                                                }
                                            },
                                            None => None,
                                        }
                                    },
                                    None => None,
                                }
                            },
                            None => None,
                        }
                    },
                    None => None,
                }
            },
            None => None,
        }
    }

    proof fn lemma_parse_local(s: Seq<u8>, t: Seq<u8>) {
        let c0 = 0nat;
        T::lemma_parse_local(s.skip(c0 as int), Seq::empty());
        let n0 = match T::parse(s.skip(c0 as int)) {
            Some((_, n)) => n,
            None => 0,
        };
        let c1 = c0 + n0;
        U::lemma_parse_local(s.skip(c1 as int), Seq::empty());
        let n1 = match U::parse(s.skip(c1 as int)) {
            Some((_, n)) => n,
            None => 0,
        };
        let c2 = c1 + n1;
        V::lemma_parse_local(s.skip(c2 as int), Seq::empty());
        let n2 = match V::parse(s.skip(c2 as int)) {
            Some((_, n)) => n,
            None => 0,
        };
        let c3 = c2 + n2;
        W::lemma_parse_local(s.skip(c3 as int), Seq::empty());
        let n3 = match W::parse(s.skip(c3 as int)) {
            Some((_, n)) => n,
            None => 0,
        };
        let c4 = c3 + n3;
        X::lemma_parse_local(s.skip(c4 as int), Seq::empty());
        let n4 = match X::parse(s.skip(c4 as int)) {
            Some((_, n)) => n,
            None => 0,
        };
        let c5 = c4 + n4;
        Y::lemma_parse_local(s.skip(c5 as int), Seq::empty());
        let n5 = match Y::parse(s.skip(c5 as int)) {
            Some((_, n)) => n,
            None => 0,
        };
        let c6 = c5 + n5;
        assert(s.skip(0) =~= s);
        if Self::parse(s) is Some {
            let cut = s.take(c6 as int) + t;
            assert(cut.skip(0) =~= cut);
            let tail0 = s.skip(c1 as int).take(c6 - c1) + t;
            T::lemma_parse_local(s.skip(c0 as int), tail0);
            assert(cut.skip(c0 as int) =~= s.skip(c0 as int).take(n0 as int) + tail0);
            let tail1 = s.skip(c2 as int).take(c6 - c2) + t;
            U::lemma_parse_local(s.skip(c1 as int), tail1);
            assert(cut.skip(c1 as int) =~= s.skip(c1 as int).take(n1 as int) + tail1);
            let tail2 = s.skip(c3 as int).take(c6 - c3) + t;
            V::lemma_parse_local(s.skip(c2 as int), tail2);
            assert(cut.skip(c2 as int) =~= s.skip(c2 as int).take(n2 as int) + tail2);
            let tail3 = s.skip(c4 as int).take(c6 - c4) + t;
            W::lemma_parse_local(s.skip(c3 as int), tail3);
            assert(cut.skip(c3 as int) =~= s.skip(c3 as int).take(n3 as int) + tail3);
            let tail4 = s.skip(c5 as int).take(c6 - c5) + t;
            X::lemma_parse_local(s.skip(c4 as int), tail4);
            assert(cut.skip(c4 as int) =~= s.skip(c4 as int).take(n4 as int) + tail4);
            let tail5 = s.skip(c6 as int).take(c6 - c6) + t;
            Y::lemma_parse_local(s.skip(c5 as int), tail5);
            assert(cut.skip(c5 as int) =~= s.skip(c5 as int).take(n5 as int) + tail5);
        }
    }

    fn deserialize(stream: &mut DeserStream) -> (res: Result<(T, U, V, W, X, Y), ()>) {
        let ghost s0 = stream@;
        let ghost c0 = 0nat;
        proof {
            assert(s0.skip(0) =~= s0);
        }
        proof {
            T::lemma_parse_local(s0.skip(c0 as int), Seq::empty());
        }
        let f0: T = match T::deserialize(stream) {
            Ok(val) => val,
            Err(_) => {
                proof {
                    lemma_suffix_of_skip(stream@, s0, c0 as int);
                }
                return Err(());
            },
        };
        let ghost c1 = c0 + T::parse(s0.skip(c0 as int))->Some_0.1;
        proof {
            assert(s0.skip(c0 as int).skip(c1 - c0) =~= s0.skip(c1 as int));
        }
        proof {
            U::lemma_parse_local(s0.skip(c1 as int), Seq::empty());
        }
        let f1: U = match U::deserialize(stream) {
            Ok(val) => val,
            Err(_) => {
                proof {
                    lemma_suffix_of_skip(stream@, s0, c1 as int);
                }
                return Err(());
            },
        };
        let ghost c2 = c1 + U::parse(s0.skip(c1 as int))->Some_0.1;
        proof {
            assert(s0.skip(c1 as int).skip(c2 - c1) =~= s0.skip(c2 as int));
        }
        proof {
            V::lemma_parse_local(s0.skip(c2 as int), Seq::empty());
        }
        let f2: V = match V::deserialize(stream) {
            Ok(val) => val,
            Err(_) => {
                proof {
                    lemma_suffix_of_skip(stream@, s0, c2 as int);
                }
                return Err(());
            },
        };
        let ghost c3 = c2 + V::parse(s0.skip(c2 as int))->Some_0.1;
        proof {
            assert(s0.skip(c2 as int).skip(c3 - c2) =~= s0.skip(c3 as int));
        }
        proof {
            W::lemma_parse_local(s0.skip(c3 as int), Seq::empty());
        }
        let f3: W = match W::deserialize(stream) {
            Ok(val) => val,
            Err(_) => {
                proof {
                    lemma_suffix_of_skip(stream@, s0, c3 as int);
                }
                return Err(());
            },
        };
        let ghost c4 = c3 + W::parse(s0.skip(c3 as int))->Some_0.1;
        proof {
            assert(s0.skip(c3 as int).skip(c4 - c3) =~= s0.skip(c4 as int));
        }
        proof {
            X::lemma_parse_local(s0.skip(c4 as int), Seq::empty());
        }
        let f4: X = match X::deserialize(stream) {
            Ok(val) => val,
            Err(_) => {
                proof {
                    lemma_suffix_of_skip(stream@, s0, c4 as int);
                }
                return Err(());
            },
        };
        let ghost c5 = c4 + X::parse(s0.skip(c4 as int))->Some_0.1;
        proof {
            assert(s0.skip(c4 as int).skip(c5 - c4) =~= s0.skip(c5 as int));
        }
        proof {
            Y::lemma_parse_local(s0.skip(c5 as int), Seq::empty());
        }
        let f5: Y = match Y::deserialize(stream) {
            Ok(val) => val,
            Err(_) => {
                proof {
                    lemma_suffix_of_skip(stream@, s0, c5 as int);
                }
                return Err(());
            },
        };
        let ghost c6 = c5 + Y::parse(s0.skip(c5 as int))->Some_0.1;
        proof {
            assert(s0.skip(c5 as int).skip(c6 - c5) =~= s0.skip(c6 as int));
        }
        Ok((f0, f1, f2, f3, f4, f5))
    }
}

impl<T: RoundTrip, U: RoundTrip, V: RoundTrip, W: RoundTrip, X: RoundTrip, Y: RoundTrip> RoundTrip for (T, U, V, W, X, Y) {
    proof fn lemma_round_trip(&self, rest: Seq<u8>) {
        let whole = self.wire() + rest;
        let c0 = 0nat;
        let w0 = self.0.wire();
        let c1 = c0 + w0.len();
        let w1 = self.1.wire();
        let c2 = c1 + w1.len();
        let w2 = self.2.wire();
        let c3 = c2 + w2.len();
        let w3 = self.3.wire();
        let c4 = c3 + w3.len();
        let w4 = self.4.wire();
        let c5 = c4 + w4.len();
        let w5 = self.5.wire();
        let c6 = c5 + w5.len();
        let q5 = rest;
        let q4 = w5 + q5;
        let q3 = w4 + q4;
        let q2 = w3 + q3;
        let q1 = w2 + q2;
        let q0 = w1 + q1;
        assert(whole.skip(0) =~= whole);
        self.0.lemma_round_trip(q0);
        assert(whole.skip(c0 as int) =~= w0 + q0);
        self.1.lemma_round_trip(q1);
        assert(whole.skip(c1 as int) =~= w1 + q1);
        self.2.lemma_round_trip(q2);
        assert(whole.skip(c2 as int) =~= w2 + q2);
        self.3.lemma_round_trip(q3);
        assert(whole.skip(c3 as int) =~= w3 + q3);
        self.4.lemma_round_trip(q4);
        assert(whole.skip(c4 as int) =~= w4 + q4);
        self.5.lemma_round_trip(q5);
        assert(whole.skip(c5 as int) =~= w5 + q5);
    }
}

impl<T: Serialize, U: Serialize, V: Serialize, W: Serialize, X: Serialize, Y: Serialize, Z: Serialize> Serialize for (T, U, V, W, X, Y, Z) {
    /// The fields in order, one after the other.
    open spec fn wire(&self) -> Seq<u8> {
        self.0.wire() + self.1.wire() + self.2.wire() + self.3.wire() + self.4.wire() + self.5.wire() + self.6.wire()
    }

    fn serialize(&self, stream: &mut SerStream) -> (res: Result<(), ()>) {
        let ghost start = stream@;
        let ghost none = Seq::<u8>::empty();
        let ghost w0 = self.0.wire();
        let ghost w1 = self.1.wire();
        let ghost w2 = self.2.wire();
        let ghost w3 = self.3.wire();
        let ghost w4 = self.4.wire();
        let ghost w5 = self.5.wire();
        let ghost w6 = self.6.wire();
        let ghost done0 = none;
        let ghost done1 = done0 + w0;
        let ghost done2 = done1 + w1;
        let ghost done3 = done2 + w2;
        let ghost done4 = done3 + w3;
        let ghost done5 = done4 + w4;
        let ghost done6 = done5 + w5;
        let ghost done7 = done6 + w6;
        let ghost r6 = none;
        let ghost r5 = w6 + r6;
        let ghost r4 = w5 + r5;
        let ghost r3 = w4 + r4;
        let ghost r2 = w3 + r3;
        let ghost r1 = w2 + r2;
        let ghost r0 = w1 + r1;
        proof {
            start.lemma_put_empty();
            assert(done1 + r0 =~= self.wire());
            assert(done2 + r1 =~= self.wire());
            assert(done3 + r2 =~= self.wire());
            assert(done4 + r3 =~= self.wire());
            assert(done5 + r4 =~= self.wire());
            assert(done6 + r5 =~= self.wire());
            assert(done7 + r6 =~= self.wire());
        }
        let ghost mid = stream@;
        let res = self.0.serialize(stream);
        proof {
            start.lemma_put_next(mid, stream@, done0, w0, r0, res is Ok);
        }
        if res.is_err() {
            return Err(());
        }
        let ghost mid = stream@;
        let res = self.1.serialize(stream);
        proof {
            start.lemma_put_next(mid, stream@, done1, w1, r1, res is Ok);
        }
        if res.is_err() {
            return Err(());
        }
        let ghost mid = stream@;
        let res = self.2.serialize(stream);
        proof {
            start.lemma_put_next(mid, stream@, done2, w2, r2, res is Ok);
        }
        if res.is_err() {
            return Err(());
        }
        let ghost mid = stream@;
        let res = self.3.serialize(stream);
        proof {
            start.lemma_put_next(mid, stream@, done3, w3, r3, res is Ok);
        }
        if res.is_err() {
            return Err(());
        }
        let ghost mid = stream@;
        let res = self.4.serialize(stream);
        proof {
            start.lemma_put_next(mid, stream@, done4, w4, r4, res is Ok);
        }
        if res.is_err() {
            return Err(());
        }
        let ghost mid = stream@;
        let res = self.5.serialize(stream);
        proof {
            start.lemma_put_next(mid, stream@, done5, w5, r5, res is Ok);
        }
        if res.is_err() {
            return Err(());
        }
        let ghost mid = stream@;
        let res = self.6.serialize(stream);
        proof {
            start.lemma_put_next(mid, stream@, done6, w6, r6, res is Ok);
        }
        res
    }
}

impl<T: Deserialize, U: Deserialize, V: Deserialize, W: Deserialize, X: Deserialize, Y: Deserialize, Z: Deserialize> Deserialize for (T, U, V, W, X, Y, Z) {
    /// The fields in order, each read from where the one before it ended.
    open spec fn parse(s: Seq<u8>) -> Option<((<T as DeepView>::V, <U as DeepView>::V, <V as DeepView>::V, <W as DeepView>::V, <X as DeepView>::V, <Y as DeepView>::V, <Z as DeepView>::V), nat)> {
        match T::parse(s) {
            Some((v0, n0)) => {
                match U::parse(s.skip((n0) as int)) {
                    Some((v1, n1)) => {
                        match V::parse(s.skip((n0 + n1) as int)) {
                            Some((v2, n2)) => {
                                match W::parse(s.skip((n0 + n1 + n2) as int)) {
                                    Some((v3, n3)) => {
                                        match X::parse(s.skip((n0 + n1 + n2 + n3) as int)) {
                                            Some((v4, n4)) => {
                                                match Y::parse(s.skip((n0 + n1 + n2 + n3 + n4) as int)) {
                                                    Some((v5, n5)) => {
                                                        match Z::parse(s.skip((n0 + n1 + n2 + n3 + n4 + n5) as int)) {
                                                            Some((v6, n6)) => Some(((v0, v1, v2, v3, v4, v5, v6), n0 + n1 + n2 + n3 + n4 + n5 + n6)),
                                                            None => None,
                                                        }
                                                    },
                                                    None => None,
                                                }
                                            },
                                            None => None,
                                        }
                                    },
                                    None => None,
                                }
                            },
                            None => None,
                        }
                    },
                    None => None,
                }
            },
            None => None,
        }
    }

    proof fn lemma_parse_local(s: Seq<u8>, t: Seq<u8>) {
        let c0 = 0nat;
        T::lemma_parse_local(s.skip(c0 as int), Seq::empty());
        let n0 = match T::parse(s.skip(c0 as int)) {
            Some((_, n)) => n,
            None => 0,
        };
        let c1 = c0 + n0;
        U::lemma_parse_local(s.skip(c1 as int), Seq::empty());
        let n1 = match U::parse(s.skip(c1 as int)) {
            Some((_, n)) => n,
            None => 0,
        };
        let c2 = c1 + n1;
        V::lemma_parse_local(s.skip(c2 as int), Seq::empty());
        let n2 = match V::parse(s.skip(c2 as int)) {
            Some((_, n)) => n,
            None => 0,
        };
        let c3 = c2 + n2;
        W::lemma_parse_local(s.skip(c3 as int), Seq::empty());
        let n3 = match W::parse(s.skip(c3 as int)) {
            Some((_, n)) => n,
            None => 0,
        };
        let c4 = c3 + n3;
        X::lemma_parse_local(s.skip(c4 as int), Seq::empty());
        let n4 = match X::parse(s.skip(c4 as int)) {
            Some((_, n)) => n,
            None => 0,
        };
        let c5 = c4 + n4;
        Y::lemma_parse_local(s.skip(c5 as int), Seq::empty());
        let n5 = match Y::parse(s.skip(c5 as int)) {
            Some((_, n)) => n,
            None => 0,
        };
        let c6 = c5 + n5;
        Z::lemma_parse_local(s.skip(c6 as int), Seq::empty());
        let n6 = match Z::parse(s.skip(c6 as int)) {
            Some((_, n)) => n,
            None => 0,
        };
        let c7 = c6 + n6;
        assert(s.skip(0) =~= s);
        if Self::parse(s) is Some {
            let cut = s.take(c7 as int) + t;
            assert(cut.skip(0) =~= cut);
            let tail0 = s.skip(c1 as int).take(c7 - c1) + t;
            T::lemma_parse_local(s.skip(c0 as int), tail0);
            assert(cut.skip(c0 as int) =~= s.skip(c0 as int).take(n0 as int) + tail0);
            let tail1 = s.skip(c2 as int).take(c7 - c2) + t;
            U::lemma_parse_local(s.skip(c1 as int), tail1);
            assert(cut.skip(c1 as int) =~= s.skip(c1 as int).take(n1 as int) + tail1);
            let tail2 = s.skip(c3 as int).take(c7 - c3) + t;
            V::lemma_parse_local(s.skip(c2 as int), tail2);
            assert(cut.skip(c2 as int) =~= s.skip(c2 as int).take(n2 as int) + tail2);
            let tail3 = s.skip(c4 as int).take(c7 - c4) + t;
            W::lemma_parse_local(s.skip(c3 as int), tail3);
            assert(cut.skip(c3 as int) =~= s.skip(c3 as int).take(n3 as int) + tail3);
            let tail4 = s.skip(c5 as int).take(c7 - c5) + t;
            X::lemma_parse_local(s.skip(c4 as int), tail4);
            assert(cut.skip(c4 as int) =~= s.skip(c4 as int).take(n4 as int) + tail4);
            let tail5 = s.skip(c6 as int).take(c7 - c6) + t;
            Y::lemma_parse_local(s.skip(c5 as int), tail5);
            assert(cut.skip(c5 as int) =~= s.skip(c5 as int).take(n5 as int) + tail5);
            let tail6 = s.skip(c7 as int).take(c7 - c7) + t;
            Z::lemma_parse_local(s.skip(c6 as int), tail6);
            assert(cut.skip(c6 as int) =~= s.skip(c6 as int).take(n6 as int) + tail6);
        }
    }

    fn deserialize(stream: &mut DeserStream) -> (res: Result<(T, U, V, W, X, Y, Z), ()>) {
        let ghost s0 = stream@;
        let ghost c0 = 0nat;
        proof {
            assert(s0.skip(0) =~= s0);
        }
        proof {
            T::lemma_parse_local(s0.skip(c0 as int), Seq::empty());
        }
        let f0: T = match T::deserialize(stream) {
            Ok(val) => val,
            Err(_) => {
                proof {
                    lemma_suffix_of_skip(stream@, s0, c0 as int);
                }
                return Err(());
            },
        };
        let ghost c1 = c0 + T::parse(s0.skip(c0 as int))->Some_0.1;
        proof {
            assert(s0.skip(c0 as int).skip(c1 - c0) =~= s0.skip(c1 as int));
        }
        proof {
            U::lemma_parse_local(s0.skip(c1 as int), Seq::empty());
        }
        let f1: U = match U::deserialize(stream) {
            Ok(val) => val,
            Err(_) => {
                proof {
                    lemma_suffix_of_skip(stream@, s0, c1 as int);
                }
                return Err(());
            },
        };
        let ghost c2 = c1 + U::parse(s0.skip(c1 as int))->Some_0.1;
        proof {
            assert(s0.skip(c1 as int).skip(c2 - c1) =~= s0.skip(c2 as int));
        }
        proof {
            V::lemma_parse_local(s0.skip(c2 as int), Seq::empty());
        }
        let f2: V = match V::deserialize(stream) {
            Ok(val) => val,
            Err(_) => {
                proof {
                    lemma_suffix_of_skip(stream@, s0, c2 as int);
                }
                return Err(());
            },
        };
        let ghost c3 = c2 + V::parse(s0.skip(c2 as int))->Some_0.1;
        proof {
            assert(s0.skip(c2 as int).skip(c3 - c2) =~= s0.skip(c3 as int));
        }
        proof {
            W::lemma_parse_local(s0.skip(c3 as int), Seq::empty());
        }
        let f3: W = match W::deserialize(stream) {
            Ok(val) => val,
            Err(_) => {
                proof {
                    lemma_suffix_of_skip(stream@, s0, c3 as int);
                }
                return Err(());
            },
        };
        let ghost c4 = c3 + W::parse(s0.skip(c3 as int))->Some_0.1;
        proof {
            assert(s0.skip(c3 as int).skip(c4 - c3) =~= s0.skip(c4 as int));
        }
        proof {
            X::lemma_parse_local(s0.skip(c4 as int), Seq::empty());
        }
        let f4: X = match X::deserialize(stream) {
            Ok(val) => val,
            Err(_) => {
                proof {
                    lemma_suffix_of_skip(stream@, s0, c4 as int);
                }
                return Err(());
            },
        };
        let ghost c5 = c4 + X::parse(s0.skip(c4 as int))->Some_0.1;
        proof {
            assert(s0.skip(c4 as int).skip(c5 - c4) =~= s0.skip(c5 as int));
        }
        proof {
            Y::lemma_parse_local(s0.skip(c5 as int), Seq::empty());
        }
        let f5: Y = match Y::deserialize(stream) {
            Ok(val) => val,
            Err(_) => {
                proof {
                    lemma_suffix_of_skip(stream@, s0, c5 as int);
                }
                return Err(());
            },
        };
        let ghost c6 = c5 + Y::parse(s0.skip(c5 as int))->Some_0.1;
        proof {
            assert(s0.skip(c5 as int).skip(c6 - c5) =~= s0.skip(c6 as int));
        }
        proof {
            Z::lemma_parse_local(s0.skip(c6 as int), Seq::empty());
        }
        let f6: Z = match Z::deserialize(stream) {
            Ok(val) => val,
            Err(_) => {
                proof {
                    lemma_suffix_of_skip(stream@, s0, c6 as int);
                }
                return Err(());
            },
        };
        let ghost c7 = c6 + Z::parse(s0.skip(c6 as int))->Some_0.1;
        proof {
            assert(s0.skip(c6 as int).skip(c7 - c6) =~= s0.skip(c7 as int));
        }
        Ok((f0, f1, f2, f3, f4, f5, f6))
    }
}

impl<T: RoundTrip, U: RoundTrip, V: RoundTrip, W: RoundTrip, X: RoundTrip, Y: RoundTrip, Z: RoundTrip> RoundTrip for (T, U, V, W, X, Y, Z) {
    proof fn lemma_round_trip(&self, rest: Seq<u8>) {
        let whole = self.wire() + rest;
        let c0 = 0nat;
        let w0 = self.0.wire();
        let c1 = c0 + w0.len();
        let w1 = self.1.wire();
        let c2 = c1 + w1.len();
        let w2 = self.2.wire();
        let c3 = c2 + w2.len();
        let w3 = self.3.wire();
        let c4 = c3 + w3.len();
        let w4 = self.4.wire();
        let c5 = c4 + w4.len();
        let w5 = self.5.wire();
        let c6 = c5 + w5.len();
        let w6 = self.6.wire();
        let c7 = c6 + w6.len();
        let q6 = rest;
        let q5 = w6 + q6;
        let q4 = w5 + q5;
        let q3 = w4 + q4;
        let q2 = w3 + q3;
        let q1 = w2 + q2;
        let q0 = w1 + q1;
        assert(whole.skip(0) =~= whole);
        self.0.lemma_round_trip(q0);
        assert(whole.skip(c0 as int) =~= w0 + q0);
        self.1.lemma_round_trip(q1);
        assert(whole.skip(c1 as int) =~= w1 + q1);
        self.2.lemma_round_trip(q2);
        assert(whole.skip(c2 as int) =~= w2 + q2);
        self.3.lemma_round_trip(q3);
        assert(whole.skip(c3 as int) =~= w3 + q3);
        self.4.lemma_round_trip(q4);
        assert(whole.skip(c4 as int) =~= w4 + q4);
        self.5.lemma_round_trip(q5);
        assert(whole.skip(c5 as int) =~= w5 + q5);
        self.6.lemma_round_trip(q6);
        assert(whole.skip(c6 as int) =~= w6 + q6);
    }
}

} // verus!
