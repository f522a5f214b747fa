//! The two byte streams: an append-only write cursor and a consume-only read
//! cursor, each over a byte range that somebody else owns.

use vstd::prelude::*;

verus! {

/// What a write cursor looks like to a contract: the bytes emitted so far,
/// and the part of the byte range that is still free.
pub struct SerView {
    /// The bytes emitted so far, in order.
    pub done: Seq<u8>,
    /// The bytes from the cursor to the end of the range, as they stand.
    pub free: Seq<u8>,
}

impl SerView {
    /// Free capacity: the distance from the cursor to the end.
    pub open spec fn room(self) -> nat {
        self.free.len()
    }

    /// The whole byte range the cursor was made over, as it stands now.
    pub open spec fn buffer(self) -> Seq<u8> {
        self.done + self.free
    }

    /// The cursor after `bytes` were copied in at its position. Meaningful
    /// when `bytes.len() <= self.room()`.
    pub open spec fn put(self, bytes: Seq<u8>) -> SerView {
        SerView { done: self.done + bytes, free: self.free.skip(bytes.len() as int) }
    }

    /// Writing nothing changes nothing.
    pub proof fn lemma_put_empty(self)
        ensures
            self.put(Seq::empty()) == self,
    {
        assert(self.put(Seq::empty()).done =~= self.done);
        assert(self.put(Seq::empty()).free =~= self.free);
    }

    /// Writing `a` and then `b` is writing `a + b`.
    pub proof fn lemma_put_put(self, a: Seq<u8>, b: Seq<u8>)
        requires
            a.len() + b.len() <= self.room(),
        ensures
            self.put(a).room() == self.room() - a.len(),
            self.put(a).put(b) == self.put(a + b),
    {
        assert(self.put(a).put(b).done =~= self.put(a + b).done);
        assert(self.put(a).put(b).free =~= self.put(a + b).free);
    }

    /// A write that fits uses up as much room as it is long, and keeps the
    /// byte range's length.
    pub proof fn lemma_put_room(self, bytes: Seq<u8>)
        requires
            bytes.len() <= self.room(),
        ensures
            self.put(bytes).room() == self.room() - bytes.len(),
            self.put(bytes).buffer().len() == self.buffer().len(),
    {
    }

    /// `after` is this cursor with a strict prefix of `bytes` written and no
    /// more: where a write of `bytes` stopped for want of room.
    pub open spec fn cut_short(self, after: SerView, bytes: Seq<u8>) -> bool {
        exists|k: int|
            0 <= k < bytes.len() && k <= self.room() && after == self.put(#[trigger] bytes.take(k))
    }

    /// A write that stopped inside `a` stopped inside `a + b`.
    pub proof fn lemma_cut_short_head(self, after: SerView, a: Seq<u8>, b: Seq<u8>)
        requires
            self.cut_short(after, a),
        ensures
            self.cut_short(after, a + b),
    {
        let k = choose|k: int|
            0 <= k < a.len() && k <= self.room() && after == self.put(#[trigger] a.take(k));
        assert((a + b).take(k) =~= a.take(k));
    }

    /// A write that got `a` out and stopped inside `b` stopped inside
    /// `a + b`.
    pub proof fn lemma_cut_short_tail(self, after: SerView, a: Seq<u8>, b: Seq<u8>)
        requires
            a.len() <= self.room(),
            self.put(a).cut_short(after, b),
        ensures
            self.cut_short(after, a + b),
    {
        let k = choose|k: int|
            0 <= k < b.len() && k <= self.put(a).room() && after == self.put(a).put(
                #[trigger] b.take(k),
            );
        self.lemma_put_put(a, b.take(k));
        assert((a + b).take(a.len() + k) =~= a + b.take(k));
    }

    /// One step of a write in parts: with `done` out and `mid` reached, the
    /// part `next` either went out whole, and `done + next` is out, or was
    /// cut short, and then so was the whole of `done + next + rest`.
    pub proof fn lemma_put_next(
        self,
        mid: SerView,
        after: SerView,
        done: Seq<u8>,
        next: Seq<u8>,
        rest: Seq<u8>,
        ok: bool,
    )
        requires
            done.len() <= self.room(),
            mid == self.put(done),
            ok <==> next.len() <= mid.room(),
            ok ==> after == mid.put(next),
            !ok ==> mid.cut_short(after, next),
        ensures
            ok ==> (done + next).len() <= self.room() && after == self.put(done + next),
            !ok ==> (done + next + rest).len() > self.room() && self.cut_short(
                after,
                done + next + rest,
            ),
    {
        self.lemma_put_room(done);
        if ok {
            self.lemma_put_put(done, next);
        } else {
            self.lemma_cut_short_tail(after, done, next);
            self.lemma_cut_short_head(after, done + next, rest);
        }
    }
}

/// Append-only cursor over a mutable byte range.
pub struct SerStream<'a> {
    buf: &'a mut [u8],
    cur: usize,
}

impl<'a> View for SerStream<'a> {
    type V = SerView;

    closed spec fn view(&self) -> SerView {
        SerView { done: self.buf@.take(self.cur as int), free: self.buf@.skip(self.cur as int) }
    }
}

impl<'a> SerStream<'a> {
    #[verifier::type_invariant]
    spec fn inv(&self) -> bool {
        self.cur <= self.buf@.len()
    }

    /// Writes `one` and advances, or fails on a full range and changes
    /// nothing.
    pub fn push_one(&mut self, one: u8) -> (res: Result<(), ()>)
        ensures
            res is Ok <==> old(self)@.room() >= 1,
            res is Ok ==> final(self)@ == old(self)@.put(seq![one]),
            res is Err ==> final(self)@ == old(self)@,
    {
        proof {
            use_type_invariant(&*self);
        }
        if self.cur == self.buf.len() {
            Err(())
        } else {
            let ghost before = self@;
            self.buf[self.cur] = one;
            self.cur = self.cur + 1;
            proof {
                assert(self@.done =~= before.put(seq![one]).done);
                assert(self@.free =~= before.put(seq![one]).free);
            }
            Ok(())
        }
    }

    /// Copies `sli` in order and advances past it, or fails where it does
    /// not fit and changes nothing.
    pub fn push_n(&mut self, sli: &[u8]) -> (res: Result<(), ()>)
        ensures
            res is Ok <==> sli@.len() <= old(self)@.room(),
            res is Ok ==> final(self)@ == old(self)@.put(sli@),
            res is Err ==> final(self)@ == old(self)@,
    {
        proof {
            use_type_invariant(&*self);
        }
        let remain = self.remain();
        let n = sli.len();
        if n > remain {
            Err(())
        } else {
            let ghost before = self@;
            let ghost whole = self.buf@;
            let start = self.cur;
            let end = self.buf.len();
            let mut i: usize = 0;
            while i < n
                invariant
                    i <= n,
                    n == sli@.len(),
                    start + n <= end,
                    end == self.buf@.len(),
                    self.cur == start,
                    self.buf@.len() == whole.len(),
                    self.buf@.take(start as int) == whole.take(start as int),
                    self.buf@.skip(start + n) == whole.skip(start + n),
                    forall|k: int| 0 <= k < i ==> self.buf@[start + k] == sli@[k],
                decreases n - i,
            {
                let ghost prev = self.buf@;
                self.buf[start + i] = sli[i];
                proof {
                    assert(self.buf@.take(start as int) =~= prev.take(start as int));
                    assert(self.buf@.skip(start + n) =~= prev.skip(start + n));
                }
                i = i + 1;
            }
            self.cur = start + n;
            proof {
                assert(self@.done =~= before.put(sli@).done);
                assert(self@.free =~= before.put(sli@).free);
            }
            Ok(())
        }
    }

    /// Exact free capacity.
    pub fn remain(&self) -> (n: usize)
        ensures
            n == self@.room(),
    {
        proof {
            use_type_invariant(self);
        }
        self.buf.len() - self.cur
    }

    /// The bytes emitted so far.
    pub fn written(&self) -> (out: &[u8])
        ensures
            out@ == self@.done,
    {
        proof {
            use_type_invariant(self);
        }
        vstd::slice::slice_subrange(&*self.buf, 0, self.cur)
    }
}

impl<'a> vstd::std_specs::convert::FromSpecImpl<&'a mut [u8]> for SerStream<'a> {
    /// A stream holds a borrow of its own of the range it was made over,
    /// which no function of the range alone can name.
    open spec fn obeys_from_spec() -> bool {
        false
    }

    closed spec fn from_spec(value: &'a mut [u8]) -> Self {
        SerStream { buf: value, cur: 0 }
    }
}

impl<'a> From<&'a mut [u8]> for SerStream<'a> {
    /// A cursor at the start of `value`, with nothing written and all of
    /// `value` free.
    fn from(value: &'a mut [u8]) -> (s: Self)
        ensures
            s@ == (SerView { done: Seq::empty(), free: old(value)@ }),
    {
        let s = SerStream { buf: value, cur: 0 };
        assert(s@.done =~= Seq::empty());
        assert(s@.free =~= old(value)@);
        s
    }
}

/// Consume-only cursor over an immutable byte range.
pub struct DeserStream<'a> {
    buf: &'a [u8],
    cur: usize,
}

impl<'a> View for DeserStream<'a> {
    type V = Seq<u8>;

    /// The bytes not yet read.
    closed spec fn view(&self) -> Seq<u8> {
        self.buf@.skip(self.cur as int)
    }
}

impl<'a> DeserStream<'a> {
    #[verifier::type_invariant]
    spec fn inv(&self) -> bool {
        self.cur <= self.buf@.len()
    }

    /// Hands out the next byte and advances, or fails on an empty stream
    /// and changes nothing.
    pub fn pop_one(&mut self) -> (res: Result<u8, ()>)
        ensures
            res is Ok <==> old(self)@.len() >= 1,
            res is Ok ==> res == Ok::<u8, ()>(old(self)@[0]) && final(self)@ == old(self)@.skip(1),
            res is Err ==> final(self)@ == old(self)@,
    {
        proof {
            use_type_invariant(&*self);
        }
        if self.cur == self.buf.len() {
            Err(())
        } else {
            let val = self.buf[self.cur];
            proof {
                assert(self.buf@.skip(self.cur as int).skip(1) =~= self.buf@.skip(self.cur + 1));
            }
            self.cur = self.cur + 1;
            Ok(val)
        }
    }

    /// Hands out the next `n` bytes and advances past them, or fails where
    /// fewer are left and changes nothing.
    pub fn pop_n(&mut self, n: usize) -> (res: Result<&'a [u8], ()>)
        ensures
            res is Ok <==> n <= old(self)@.len(),
            res is Ok ==> res->Ok_0@ == old(self)@.take(n as int) && final(self)@ == old(
                self,
            )@.skip(n as int),
            res is Err ==> final(self)@ == old(self)@,
    {
        proof {
            use_type_invariant(&*self);
        }
        let remain = self.buf.len() - self.cur;
        if n > remain {
            Err(())
        } else {
            let sli = vstd::slice::slice_subrange(self.buf, self.cur, self.cur + n);
            proof {
                assert(sli@ =~= self.buf@.skip(self.cur as int).take(n as int));
                assert(self.buf@.skip(self.cur as int).skip(n as int) =~= self.buf@.skip(
                    self.cur + n,
                ));
            }
            self.cur = self.cur + n;
            Ok(sli)
        }
    }

    /// Exact count of unread bytes.
    pub fn remain(&self) -> (n: usize)
        ensures
            n == self@.len(),
    {
        proof {
            use_type_invariant(self);
        }
        self.buf.len() - self.cur
    }
}

impl<'a> vstd::std_specs::convert::FromSpecImpl<&'a [u8]> for DeserStream<'a> {
    open spec fn obeys_from_spec() -> bool {
        true
    }

    closed spec fn from_spec(value: &'a [u8]) -> Self {
        DeserStream { buf: value, cur: 0 }
    }
}

impl<'a> From<&'a [u8]> for DeserStream<'a> {
    /// A cursor at the start of `value`, with all of `value` unread.
    fn from(value: &'a [u8]) -> (s: Self)
        ensures
            s@ == value@,
    {
        DeserStream { buf: value, cur: 0 }
    }
}

} // verus!
