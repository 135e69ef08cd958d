//! Decision logic of the connection glue: outbound write bookkeeping and
//! the server-role bind recovery rule. The I/O itself — sockets, tasks —
//! lives with the caller; these pieces decide what the bytes and the
//! retries must be.

use vstd::prelude::*;

use crate::value::Value;

verus! {

/// The write-side bookkeeping for one outbound message: the full encoded
/// form and how much of it has reached the socket so far. A message is
/// written completely, resuming after partial writes, before the next
/// one is started.
pub struct OutboundWriter {
    /// The encoded message.
    pub buffer: Vec<u8>,
    /// How many leading bytes have been written so far.
    pub written: usize,
}

impl OutboundWriter {
    /// No more bytes are recorded as written than exist.
    pub open spec fn wf(self) -> bool {
        self.written <= self.buffer@.len()
    }

    /// Frames a well-formed value for writing: the bytes to go out are
    /// exactly its canonical encoding.
    pub fn new(value: &Value) -> (r: Self)
        requires
            value@.wf(),
        ensures
            r.buffer@ == value@.wire(),
            r.written == 0,
            r.wf(),
    {
        OutboundWriter { buffer: crate::parsing::encode_value(value), written: 0 }
    }

    /// The bytes still to be written, in order.
    pub fn remaining(&self) -> (r: &[u8])
        requires
            self.wf(),
        ensures
            r@ == self.buffer@.skip(self.written as int),
    {
        vstd::slice::slice_subrange(self.buffer.as_slice(), self.written, self.buffer.len())
    }

    /// Records that the socket accepted `n` more bytes.
    pub fn advance(&mut self, n: usize)
        requires
            old(self).wf(),
            n <= old(self).buffer@.len() - old(self).written,
        ensures
            final(self).written == old(self).written + n,
            final(self).buffer == old(self).buffer,
            final(self).wf(),
    {
        let total = self.buffer.len();
        proof {
            assert(self.written + n <= total);
        }
        self.written = self.written + n;
    }

    /// Whether the whole message has been flushed.
    pub fn is_done(&self) -> (r: bool)
        ensures
            r == (self.written == self.buffer@.len()),
    {
        self.written == self.buffer.len()
    }
}

/// Why a bind attempt failed, as far as the retry rule cares.
#[derive(Debug, PartialEq)]
pub enum BindErrorKind {
    /// The well-known address is already taken — usually a stale socket
    /// file from an earlier run.
    AddrInUse,
    /// Anything else.
    Other,
}

/// What to do about a failed first bind.
#[derive(Debug, PartialEq)]
pub enum BindAction {
    /// Remove the stale socket file and bind once more.
    RemoveStaleAndRetry,
    /// Report the failure to the caller; nothing is retried.
    Fail,
}

/// The server-role recovery rule: exactly an address-in-use failure is
/// answered by removing the stale socket file and retrying once; every
/// other failure is fatal.
pub fn bind_recovery(first_failure: &BindErrorKind) -> (r: BindAction)
    ensures
        (r == BindAction::RemoveStaleAndRetry) <==> (*first_failure == BindErrorKind::AddrInUse),
        (r == BindAction::Fail) <==> (*first_failure != BindErrorKind::AddrInUse),
{
    match first_failure {
        BindErrorKind::AddrInUse => BindAction::RemoveStaleAndRetry,
        BindErrorKind::Other => BindAction::Fail,
    }
}

} // verus!
