//! The byte sink the encoder writes into.
//!
//! A sink accepts one byte at a time and may refuse any byte; a refusal
//! leaves the bytes it has already accepted untouched.  Besides the
//! accepted bytes, a sink's model counts every offer — each `put` call,
//! accepted or refused — so a caller's contract can say that nothing more
//! was offered after a refusal.  The encoder is specified against this
//! interface alone, so any implementation with a proved `put` obtains the
//! encoder's full contract.

use vstd::prelude::*;

verus! {

/// An abstract destination for a sequential stream of bytes.
pub trait ByteSink {
    /// The bytes the sink has accepted so far, oldest first.
    spec fn bytes(&self) -> Seq<u8>;

    /// How many bytes have been offered to the sink: every `put` call,
    /// accepted or refused.
    spec fn offers(&self) -> nat;

    /// Whether this sink is known never to refuse a byte.
    spec fn infallible(&self) -> bool;

    /// Hand one byte to the sink.  On success the byte is appended to the
    /// accepted stream; on refusal the stream is unchanged.  Either way
    /// the call counts as one offer.  An infallible sink never refuses,
    /// and no call changes whether it is infallible.
    fn put(&mut self, b: u8) -> (r: Result<(), ()>)
        ensures
            r is Ok ==> final(self).bytes() == old(self).bytes().push(b),
            r is Err ==> final(self).bytes() == old(self).bytes(),
            final(self).offers() == old(self).offers() + 1,
            final(self).infallible() == old(self).infallible(),
            old(self).infallible() ==> r is Ok,
    ;
}

/// A sink backed by a growable in-memory buffer; it never refuses a byte.
pub struct VecSink {
    pub buf: Vec<u8>,
}

impl VecSink {
    /// An empty buffer sink.
    pub fn new() -> (r: VecSink)
        ensures
            r.bytes() == Seq::<u8>::empty(),
            r.offers() == 0,
            r.infallible(),
    {
        VecSink { buf: Vec::new() }
    }

    /// Give back the accepted bytes.
    pub fn into_vec(self) -> (r: Vec<u8>)
        ensures
            r@ == self.bytes(),
    {
        self.buf
    }
}

impl ByteSink for VecSink {
    open spec fn bytes(&self) -> Seq<u8> {
        self.buf@
    }

    open spec fn offers(&self) -> nat {
        self.buf@.len()
    }

    open spec fn infallible(&self) -> bool {
        true
    }

    fn put(&mut self, b: u8) -> (r: Result<(), ()>) {
        self.buf.push(b);
        Ok(())
    }
}

/// A sink that accepts a fixed number of bytes and refuses every later
/// one: the mock with which a caller observes how the encoder behaves
/// when the underlying destination fails part-way.
pub struct LimitedSink {
    /// The bytes accepted so far.
    pub buf: Vec<u8>,
    /// How many more bytes will be accepted.
    pub remaining: usize,
    /// How many times `put` has been called, accepted or not; saturates.
    pub calls: usize,
    /// The same count, unbounded, for specifications.
    pub offered: Ghost<nat>,
}

impl LimitedSink {
    /// A sink that will accept exactly `limit` bytes.
    pub fn new(limit: usize) -> (r: LimitedSink)
        ensures
            r.bytes() == Seq::<u8>::empty(),
            r.offers() == 0,
            !r.infallible(),
            r.remaining == limit,
            r.calls == 0,
    {
        LimitedSink { buf: Vec::new(), remaining: limit, calls: 0, offered: Ghost(0) }
    }
}

impl ByteSink for LimitedSink {
    open spec fn bytes(&self) -> Seq<u8> {
        self.buf@
    }

    open spec fn offers(&self) -> nat {
        self.offered@
    }

    open spec fn infallible(&self) -> bool {
        false
    }

    /// Accepts while the budget lasts, refuses once it is spent: the byte
    /// is taken exactly when some budget remained, one unit of budget goes
    /// per accepted byte, and every call is counted.
    fn put(&mut self, b: u8) -> (r: Result<(), ()>)
        ensures
            r is Ok <==> old(self).remaining > 0,
            old(self).remaining > 0 ==> final(self).remaining == old(self).remaining - 1,
            old(self).remaining == 0 ==> final(self).remaining == 0,
            old(self).calls < usize::MAX ==> final(self).calls == old(self).calls + 1,
            old(self).calls == usize::MAX ==> final(self).calls == old(self).calls,
    {
        self.offered = Ghost(self.offered@ + 1);
        if self.calls < usize::MAX {
            self.calls = self.calls + 1;
        }
        if self.remaining == 0 {
            Err(())
        } else {
            self.remaining = self.remaining - 1;
            self.buf.push(b);
            Ok(())
        }
    }
}

} // verus!
