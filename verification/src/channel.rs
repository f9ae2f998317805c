//! A bounded first-in first-out channel: a queue that holds at most a fixed
//! number of items, guarded by a semaphore that counts the items in it.
use vstd::prelude::*;
use vstd::rwlock::RwLock;
use std::collections::VecDeque;
use std::sync::Arc;
use crate::handles::share;
use crate::semaphore::Semaphore;

verus! {

/// The queue behind a channel, with the semaphore that bounds it.
pub struct Queue<T> {
    sem: Semaphore,
    buf: VecDeque<T>,
}

impl<T> Queue<T> {
    /// The items waiting in the queue, oldest first.
    pub closed spec fn items(&self) -> Seq<T> {
        self.buf@
    }

    /// The most items the queue may hold.
    pub closed spec fn capacity(&self) -> int {
        self.sem.max()
    }

    /// The semaphore counts exactly the items in the queue, and they never
    /// exceed its capacity.
    pub closed spec fn wf(&self) -> bool {
        &&& self.sem.count() == self.buf@.len()
        &&& self.buf@.len() <= self.sem.max()
    }

    /// An empty queue for at most `max` items.
    pub fn new(max: isize) -> (q: Self)
        requires
            max > 0,
        ensures
            q.wf(),
            q.items() == Seq::<T>::empty(),
            q.items().len() <= q.capacity(),
            q.capacity() == max,
    {
        Queue { sem: Semaphore::new(max), buf: VecDeque::new() }
    }

    /// Number of items waiting.
    pub fn len(&self) -> (n: usize)
        ensures
            n == self.items().len(),
    {
        self.buf.len()
    }

    /// Appends `data` when there is room; hands it back in `Err` when the queue is full.
    pub fn try_send(&mut self, data: T) -> (res: Result<(), T>)
        requires
            old(self).wf(),
        ensures
            final(self).wf(),
            final(self).capacity() == old(self).capacity(),
            final(self).items().len() <= final(self).capacity(),
            old(self).items().len() < old(self).capacity() ==> res is Ok && final(self).items()
                == old(self).items().push(data),
            old(self).items().len() >= old(self).capacity() ==> res == Err::<(), T>(data)
                && final(self).items() == old(self).items(),
    {
        if self.sem.wait() {
            self.buf.push_back(data);
            Ok(())
        } else {
            Err(data)
        }
    }

    /// Takes the oldest item, or `None` when the queue is empty.
    pub fn try_recv(&mut self) -> (res: Option<T>)
        requires
            old(self).wf(),
        ensures
            final(self).wf(),
            final(self).capacity() == old(self).capacity(),
            final(self).items().len() <= final(self).capacity(),
            old(self).items().len() == 0 ==> res is None && final(self).items() == old(self).items(),
            old(self).items().len() > 0 ==> res == Some(old(self).items()[0]) && final(self).items()
                == old(self).items().drop_first(),
    {
        match self.buf.pop_front() {
            Some(data) => {
                self.sem.post();
                Some(data)
            },
            None => None,
        }
    }
}

/// What the queue behind a channel always satisfies: it is consistent and
/// keeps the capacity it was made with.
pub open spec fn queue_policy<T>(capacity: int) -> spec_fn(Queue<T>) -> bool {
    |q: Queue<T>| q.wf() && q.capacity() == capacity
}

/// The sending end of a channel; clones send into the same queue.
#[verifier::reject_recursive_types(T)]
pub struct Sender<T> {
    buf: Arc<RwLock<Queue<T>, spec_fn(Queue<T>) -> bool>>,
    capacity: Ghost<int>,
}

/// The receiving end of a channel.
#[verifier::reject_recursive_types(T)]
pub struct Receiver<T> {
    buf: Arc<RwLock<Queue<T>, spec_fn(Queue<T>) -> bool>>,
    capacity: Ghost<int>,
}

impl<T> Sender<T> {
    #[verifier::type_invariant]
    spec fn keeps_policy(&self) -> bool {
        self.buf.pred() == queue_policy::<T>(self.capacity@)
    }

    /// The most items the channel holds at once.
    pub closed spec fn capacity(&self) -> int {
        self.capacity@
    }

    /// Whether this sender feeds the queue that `rx` reads.
    pub closed spec fn feeds(&self, rx: &Receiver<T>) -> bool {
        self.buf == rx.buf
    }

    /// Whether two senders feed the same queue.
    pub closed spec fn same_queue(&self, other: &Self) -> bool {
        self.buf == other.buf
    }

    /// Puts `data` at the back of the queue when there is room.
    ///
    /// When the queue is full, `data` comes back in `Err`: the caller waits for a
    /// receiver to take an item and sends again. Whether there is room depends on
    /// the other senders and receivers at that moment.
    pub fn send(&self, data: T) -> (res: Result<(), T>)
        ensures
            res matches Err(back) ==> back == data,
    {
        proof {
            use_type_invariant(self);
        }
        let (mut q, handle) = self.buf.acquire_write();
        let res = q.try_send(data);
        handle.release_write(q);
        res
    }
}

impl<T> Clone for Sender<T> {
    /// Another sender into the same queue.
    fn clone(&self) -> (tx: Self)
        ensures
            tx.same_queue(self),
            tx.capacity() == self.capacity(),
            forall|rx: Receiver<T>| self.feeds(&rx) ==> #[trigger] tx.feeds(&rx),
    {
        proof {
            use_type_invariant(self);
        }
        Sender { buf: share(&self.buf), capacity: self.capacity }
    }
}

impl<T> Receiver<T> {
    #[verifier::type_invariant]
    spec fn keeps_policy(&self) -> bool {
        self.buf.pred() == queue_policy::<T>(self.capacity@)
    }

    /// The most items the channel holds at once.
    pub closed spec fn capacity(&self) -> int {
        self.capacity@
    }

    /// Takes the item at the front of the queue, or `None` when the queue is
    /// empty: the caller then waits for a sender and asks again. Which item comes
    /// out depends on what the senders did before.
    pub fn recv(&self) -> (res: Option<T>) {
        proof {
            use_type_invariant(self);
        }
        let (mut q, handle) = self.buf.acquire_write();
        let res = q.try_recv();
        handle.release_write(q);
        res
    }
}

/// Feeding the same queue is an equivalence between senders, and senders on
/// the same queue feed the same receivers: whatever any clone of a sender sends
/// reaches the receiver of the original sender.
pub proof fn lemma_same_queue<T>(a: &Sender<T>, b: &Sender<T>, c: &Sender<T>, rx: &Receiver<T>)
    ensures
        a.same_queue(a),
        a.same_queue(b) ==> b.same_queue(a),
        a.same_queue(b) && b.same_queue(c) ==> a.same_queue(c),
        a.same_queue(b) && a.feeds(rx) ==> b.feeds(rx),
        a.feeds(rx) && b.feeds(rx) ==> a.same_queue(b),
{
}

/// A channel that holds at most `max` items, as a sender and a receiver on
/// one empty queue.
pub fn channel<T>(max: isize) -> (ends: (Sender<T>, Receiver<T>))
    requires
        max > 0,
    ensures
        ends.0.capacity() == max,
        ends.1.capacity() == max,
        ends.0.feeds(&ends.1),
{
    let q = Queue::<T>::new(max);
    let lock = RwLock::new(q, Ghost(queue_policy::<T>(max as int)));
    let buf = Arc::new(lock);
    let tx = Sender { buf: share(&buf), capacity: Ghost(max as int) };
    let rx = Receiver { buf, capacity: Ghost(max as int) };
    (tx, rx)
}

} // verus!
