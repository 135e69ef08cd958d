//! The actor mailbox model: one actor, an unbounded FIFO queue of
//! messages, and serialized dispatch.
//!
//! The actor's state is mutated only by dispatch, one message at a time,
//! so it needs no internal synchronization. The ghost histories record
//! every message accepted into the queue and every message handed to the
//! actor, which is what pins the dispatch order down.

use vstd::prelude::*;

verus! {

/// A unit that can be sent to an actor's mailbox.
pub trait Message {
    /// A short label naming the message's type.
    fn message_type(&self) -> String;
}

/// The capability of handling messages of type `M`: the dispatch loop
/// hands each queued `M` to this method with exclusive access to the
/// actor's state.
pub trait Handler<M: Message> {
    fn handle(&mut self, message: &mut M);
}

/// The mailbox runtime: owns one actor and the FIFO queue feeding it.
/// Producers enqueue through [`Runtime::send`]; dispatch drains the
/// queue front first, invoking the actor's handler for each message.
pub struct Runtime<T, M> {
    /// The actor: mutated only by dispatch.
    pub actor: T,
    /// The messages waiting to be dispatched, front first.
    pub queue: Vec<M>,
    /// Whether any producer handle is still alive; once the last one is
    /// gone, further sends are silent no-ops.
    pub accepting: bool,
    /// Every message accepted into the queue, in arrival order.
    pub accepted: Ghost<Seq<M>>,
    /// Every message handed to the actor, in dispatch order.
    pub delivered: Ghost<Seq<M>>,
}

impl<T, M> Runtime<T, M> {
    /// The mailbox bookkeeping: what was accepted is exactly what was
    /// delivered followed by what still waits, in order.
    pub open spec fn wf(self) -> bool {
        self.accepted@ == self.delivered@ + self.queue@
    }

    /// Messages are observed by the actor in exactly the order their
    /// sends arrived: the delivered history is always an in-order prefix
    /// of the accepted history, so messages from one producer are never
    /// reordered, and producers interleave only by arrival.
    pub proof fn lemma_dispatch_in_arrival_order(self)
        requires
            self.wf(),
        ensures
            self.delivered@ == self.accepted@.take(self.delivered@.len() as int),
    {
        assert(self.delivered@ =~= (self.delivered@ + self.queue@).take(
            self.delivered@.len() as int,
        ));
    }

    /// Enqueues a message. This never blocks, and after the runtime has
    /// terminated it neither errs nor changes anything: the send is a
    /// silent no-op.
    pub fn send(&mut self, message: M)
        ensures
            old(self).accepting ==> final(self).queue@ == old(self).queue@.push(message) && final(self).accepted@ == old(self).accepted@.push(message) && final(self).delivered == old(self).delivered && final(self).actor == old(self).actor && final(self).accepting,
            !old(self).accepting ==> *final(self) == *old(self),
            old(self).wf() ==> final(self).wf(),
    {
        let ghost m = message;
        if self.accepting {
            self.accepted = Ghost(self.accepted@.push(m));
            self.queue.push(message);
            proof {
                if old(self).wf() {
                    assert(self.accepted@ =~= self.delivered@ + self.queue@);
                }
            }
        }
    }

    /// Marks the producer side as gone: the last handle was dropped, so
    /// nothing further will be accepted.
    pub fn close(&mut self)
        ensures
            final(self).accepting == false,
            final(self).actor == old(self).actor,
            final(self).queue == old(self).queue,
            final(self).accepted == old(self).accepted,
            final(self).delivered == old(self).delivered,
            old(self).wf() ==> final(self).wf(),
    {
        self.accepting = false;
    }
}

impl<T: Handler<M>, M: Message> Runtime<T, M> {
    /// Dispatches the message at the front of the queue, if any: hands
    /// it to the actor's handler with exclusive access to the actor.
    pub fn dispatch_one(&mut self) -> (progressed: bool)
        ensures
            old(self).queue@.len() == 0 ==> !progressed && *final(self) == *old(self),
            old(self).queue@.len() > 0 ==> progressed && final(self).queue@ == old(self).queue@.drop_first() && final(self).delivered@ == old(self).delivered@.push(
                old(self).queue@[0],
            ) && final(self).accepted == old(self).accepted && final(self).accepting == old(self).accepting,
            old(self).wf() ==> final(self).wf(),
    {
        if self.queue.len() == 0 {
            return false;
        }
        let mut message = self.queue.remove(0);
        proof {
            assert(old(self).queue@.remove(0) =~= old(self).queue@.drop_first());
        }
        self.delivered = Ghost(self.delivered@.push(message));
        self.actor.handle(&mut message);
        proof {
            if old(self).wf() {
                assert(old(self).delivered@ + old(self).queue@ =~= old(self).delivered@.push(
                    old(self).queue@[0],
                ) + old(self).queue@.drop_first());
            }
        }
        true
    }

    /// Drains the queue, dispatching every waiting message in FIFO
    /// order.
    pub fn dispatch_all(&mut self)
        ensures
            final(self).queue@.len() == 0,
            final(self).delivered@ == old(self).delivered@ + old(self).queue@,
            final(self).accepted == old(self).accepted,
            final(self).accepting == old(self).accepting,
            old(self).wf() ==> final(self).wf(),
    {
        proof {
            assert(old(self).delivered@ + old(self).queue@.take(0) =~= old(self).delivered@);
        }
        while self.queue.len() > 0
            invariant
                self.delivered@ + self.queue@ == old(self).delivered@ + old(self).queue@,
                self.accepted == old(self).accepted,
                self.accepting == old(self).accepting,
                old(self).wf() ==> self.wf(),
            decreases self.queue@.len(),
        {
            let ghost before_q = self.queue@;
            let ghost before_d = self.delivered@;
            self.dispatch_one();
            proof {
                assert(before_d.push(before_q[0]) + before_q.drop_first() =~= before_d + before_q);
            }
        }
        proof {
            assert(self.delivered@ + Seq::<M>::empty() =~= self.delivered@);
            assert(final(self).delivered@ =~= old(self).delivered@ + old(self).queue@);
        }
    }
}

impl<T: Default, M: Message> Runtime<T, M> {
    /// Builds a runtime around a freshly constructed actor, with an
    /// empty queue and live producers.
    fn run() -> (r: Self)
        ensures
            r.queue@ == Seq::<M>::empty(),
            r.accepting,
            r.accepted@ == Seq::<M>::empty(),
            r.delivered@ == Seq::<M>::empty(),
            r.wf(),
    {
        let r = Runtime {
            actor: T::default(),
            queue: Vec::new(),
            accepting: true,
            accepted: Ghost(Seq::empty()),
            delivered: Ghost(Seq::empty()),
        };
        proof {
            assert(r.accepted@ =~= r.delivered@ + r.queue@);
        }
        r
    }
}

/// What a default-constructible actor gains for free: a runtime of its
/// own.
pub trait SelfStarter<M: Message>: Sized {
    fn start() -> (r: Runtime<Self, M>)
        ensures
            r.queue@ == Seq::<M>::empty(),
            r.accepting,
            r.accepted@ == Seq::<M>::empty(),
            r.delivered@ == Seq::<M>::empty(),
            r.wf(),
    ;
}

impl<T: Default, M: Message> SelfStarter<M> for T {
    fn start() -> (r: Runtime<T, M>) {
        Runtime::run()
    }
}

} // verus!
