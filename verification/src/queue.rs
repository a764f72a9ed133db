//! The output queue: a bounded, ordered hand-off buffer from the
//! monitors to the host adapter. A send is refused while the queue is
//! full; refusing rather than dropping is the backpressure contract.

use vstd::prelude::*;

verus! {

/// `true` when a queue holding `q` with capacity `cap` accepts a send.
pub open spec fn send_accepts(q: Seq<Seq<u8>>, cap: nat) -> bool {
    q.len() < cap
}

/// Bounded FIFO of encoded envelopes.
pub struct OutputQueue {
    items: Vec<Vec<u8>>,
    cap: usize,
}

impl View for OutputQueue {
    type V = Seq<Seq<u8>>;

    closed spec fn view(&self) -> Seq<Seq<u8>> {
        self.items@.map_values(|v: Vec<u8>| v@)
    }
}

impl OutputQueue {
    pub closed spec fn spec_capacity(&self) -> nat {
        self.cap as nat
    }

    pub closed spec fn wf(&self) -> bool {
        &&& self.items@.len() <= self.cap
        &&& self.cap >= 1
    }

    /// An empty queue with the given capacity bound.
    pub fn new(cap: usize) -> (q: OutputQueue)
        requires
            cap >= 1,
        ensures
            q.wf(),
            q@ == Seq::<Seq<u8>>::empty(),
            q.spec_capacity() == cap,
    {
        let q = OutputQueue { items: Vec::new(), cap };
        proof {
            assert(q@ =~= Seq::<Seq<u8>>::empty());
        }
        q
    }

    pub fn len(&self) -> (n: usize)
        ensures
            n == self@.len(),
    {
        self.items.len()
    }

    pub fn capacity(&self) -> (c: usize)
        ensures
            c == self.spec_capacity(),
    {
        self.cap
    }

    /// Enqueue an envelope; while the queue is full the envelope is
    /// handed back unchanged and the queue does not change, so the
    /// producer must wait for the consumer to drain an element.
    pub fn try_send(&mut self, env: Vec<u8>) -> (r: Result<(), Vec<u8>>)
        requires
            old(self).wf(),
        ensures
            final(self).wf(),
            final(self).spec_capacity() == old(self).spec_capacity(),
            send_accepts(old(self)@, old(self).spec_capacity()) ==> r is Ok && final(self)@ == old(
            self)@.push(env@),
            !send_accepts(old(self)@, old(self).spec_capacity()) ==> (r matches Err(e) && e == env)
                && *final(self) == *old(self),
    {
        if self.items.len() < self.cap {
            self.items.push(env);
            proof {
                assert(self@ =~= old(self)@.push(self.items@.last()@));
            }
            Ok(())
        } else {
            Err(env)
        }
    }

    /// Dequeue the oldest envelope, if any.
    pub fn recv(&mut self) -> (r: Option<Vec<u8>>)
        requires
            old(self).wf(),
        ensures
            final(self).wf(),
            final(self).spec_capacity() == old(self).spec_capacity(),
            old(self)@.len() == 0 ==> r is None && *final(self) == *old(self),
            old(self)@.len() > 0 ==> (r matches Some(env) && env@ == old(self)@[0]) && final(
            self)@ == old(self)@.drop_first(),
    {
        if self.items.len() == 0 {
            None
        } else {
            let env = self.items.remove(0);
            proof {
                assert(self@ =~= old(self)@.drop_first());
            }
            Some(env)
        }
    }
}

/// Backpressure: with the queue full, a send is not accepted — the
/// queue keeps exactly its contents — and as soon as one element is
/// drained, a send is accepted again.
pub proof fn lemma_backpressure(q: Seq<Seq<u8>>, cap: nat)
    requires
        q.len() == cap,
        cap >= 1,
    ensures
        !send_accepts(q, cap),
        send_accepts(q.drop_first(), cap),
{
}

} // verus!
