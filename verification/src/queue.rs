use vstd::prelude::*;

use syncbox::LinkedQueue;

use crate::action::{Action, ActionModel};

verus! {

#[verifier::external_type_specification]
#[verifier::external_body]
#[verifier::reject_recursive_types(T)]
pub struct ExLinkedQueue<T: Send>(LinkedQueue<T>);

/// The ordered pending queue of staged actions: the write-ahead buffer
/// between "accepted" and "applied". It adapts `syncbox::LinkedQueue`, a
/// concurrency-safe FIFO; the handle is internally shared, so the embedding
/// layer can stage actions from several request handlers at once.
#[verifier::external_body]
pub struct PendingQueue {
    elem: LinkedQueue<Action>,
}

/// What the pending queue holds: the staged actions, head first.
pub uninterp spec fn queue_seq(q: PendingQueue) -> Seq<ActionModel>;

impl PendingQueue {
    /// Relies on `syncbox::LinkedQueue::new`: a freshly created queue holds
    /// nothing.
    #[verifier::external_body]
    pub fn empty() -> (q: PendingQueue)
        ensures
            queue_seq(q) == Seq::<ActionModel>::empty(),
    {
        PendingQueue { elem: LinkedQueue::new() }
    }

    /// Relies on `syncbox::LinkedQueue::put`: it appends the element at the
    /// tail; on this unbounded queue it never fails.
    #[verifier::external_body]
    pub fn put(&mut self, a: Action)
        ensures
            queue_seq(*final(self)) == queue_seq(*old(self)).push(a@),
    {
        self.elem.put(a);
    }

    /// Relies on `syncbox::LinkedQueue::take`: it removes and returns the
    /// head. On an empty queue `take` blocks until an element arrives, so an
    /// empty queue is excluded here.
    #[verifier::external_body]
    pub fn take(&mut self) -> (a: Action)
        requires
            queue_seq(*old(self)).len() > 0,
        ensures
            a@ == queue_seq(*old(self))[0],
            queue_seq(*final(self)) == queue_seq(*old(self)).drop_first(),
    {
        self.elem.take()
    }

    /// Relies on `syncbox::LinkedQueue::is_empty`: it reports whether the
    /// queue holds anything at this moment.
    #[verifier::external_body]
    pub fn is_empty(&self) -> (r: bool)
        ensures
            r == (queue_seq(*self).len() == 0),
    {
        self.elem.is_empty()
    }

    /// Relies on `syncbox::LinkedQueue`'s `Clone`: the returned handle shares
    /// the same underlying queue, for the embedding layer's concurrent
    /// producers. Nothing is stated of it; mutations through it are outside
    /// this library's model.
    #[verifier::external_body]
    pub fn handle(&self) -> LinkedQueue<Action> {
        self.elem.clone()
    }
}

} // verus!
