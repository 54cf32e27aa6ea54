//! Publish/fan-out channel.
//!
//! A single producer appends messages; any number of independent
//! subscribers read them through their own cursors. The channel retains
//! only a bounded tail of the stream: a subscriber that stops polling for
//! longer than the retained capacity observes one explicit lag signal with
//! the number of messages it missed, and then resumes with the oldest
//! retained message. The producer never waits for a slow subscriber.

use vstd::prelude::*;

verus! {

/// Outcome of a poll that delivered no message.
#[derive(Clone, Copy, PartialEq, Eq, Structural, Debug)]
pub enum RecvError {
    /// No message is newer than the subscriber's cursor.
    Empty,
    /// The subscriber fell behind the retained tail; the payload counts
    /// the messages that were dropped before it polled again.
    Lagged(u64),
}

/// Bounded single-producer broadcast buffer.
pub struct Fanout<T> {
    buffer: Vec<T>,
    total: u64,
    capacity: usize,
}

/// A subscriber's private cursor into a [`Fanout`] channel.
#[derive(Clone, Copy, PartialEq, Eq, Structural, Debug)]
pub struct Subscription {
    next: u64,
}

impl<T> Fanout<T> {
    /// Number of messages published over the channel's lifetime.
    pub closed spec fn sent(&self) -> int {
        self.total as int
    }

    /// The retained tail of the stream, oldest first.
    pub closed spec fn retained(&self) -> Seq<T> {
        self.buffer@
    }

    /// Most messages retained at once.
    pub closed spec fn cap(&self) -> int {
        self.capacity as int
    }

    /// Stream position of the oldest retained message.
    pub open spec fn first_retained(&self) -> int {
        self.sent() - self.retained().len()
    }

    pub open spec fn wf(&self) -> bool {
        &&& 1 <= self.cap()
        &&& self.retained().len() <= self.cap()
        &&& self.retained().len() <= self.sent() <= u64::MAX
    }

    /// What one `publish` call does to the channel: the message is appended
    /// to the retained tail, dropping the oldest entry when the buffer is
    /// full. A channel that has already carried `u64::MAX` messages stops
    /// accepting new ones rather than renumbering the stream.
    pub open spec fn publish_effect(pre: Self, post: Self, msg: T) -> bool {
        &&& post.cap() == pre.cap()
        &&& if pre.sent() < u64::MAX {
            &&& post.sent() == pre.sent() + 1
            &&& post.retained() == (if pre.retained().len() == pre.cap() {
                pre.retained().drop_first()
            } else {
                pre.retained()
            }).push(msg)
        } else {
            &&& post.sent() == pre.sent()
            &&& post.retained() == pre.retained()
        }
    }

    pub fn new(capacity: usize) -> (r: Self)
        requires
            1 <= capacity,
        ensures
            r.wf(),
            r.sent() == 0,
            r.retained() == Seq::<T>::empty(),
            r.cap() == capacity,
    {
        Fanout { buffer: Vec::new(), total: 0, capacity }
    }

    /// Appends one message for every current and future subscriber.
    pub fn publish(&mut self, msg: T)
        requires
            old(self).wf(),
        ensures
            final(self).wf(),
            Self::publish_effect(*old(self), *final(self), msg),
    {
        if self.total < u64::MAX {
            if self.buffer.len() == self.capacity {
                self.buffer.remove(0);
                proof {
                    assert(self.buffer@ == old(self).buffer@.drop_first());
                }
            }
            self.buffer.push(msg);
            self.total = self.total + 1;
        }
    }

    /// `publish_effect` chained over a whole message sequence, in order.
    pub open spec fn multi_publish_effect(pre: Self, post: Self, msgs: Seq<T>) -> bool
        decreases msgs.len(),
    {
        if msgs.len() == 0 {
            post == pre
        } else {
            exists|mid: Self|
                #[trigger] Self::publish_effect(pre, mid, msgs[0]) && Self::multi_publish_effect(
                    mid,
                    post,
                    msgs.drop_first(),
                )
        }
    }

    proof fn lemma_multi_publish_snoc(pre: Self, mid: Self, post: Self, msgs: Seq<T>, m: T)
        requires
            Self::multi_publish_effect(pre, mid, msgs),
            Self::publish_effect(mid, post, m),
        ensures
            Self::multi_publish_effect(pre, post, msgs.push(m)),
        decreases msgs.len(),
    {
        if msgs.len() == 0 {
            assert(msgs.push(m)[0] == m);
            assert(msgs.push(m).drop_first() =~= Seq::<T>::empty());
            assert(Self::publish_effect(pre, post, m));
            assert(Self::multi_publish_effect(post, post, msgs.push(m).drop_first()));
        } else {
            let step = choose|step: Self|
                #[trigger] Self::publish_effect(pre, step, msgs[0])
                    && Self::multi_publish_effect(step, mid, msgs.drop_first());
            Self::lemma_multi_publish_snoc(step, mid, post, msgs.drop_first(), m);
            assert(msgs.push(m)[0] == msgs[0]);
            assert(msgs.push(m).drop_first() =~= msgs.drop_first().push(m));
            assert(Self::publish_effect(pre, step, msgs.push(m)[0]));
        }
    }

    /// Publishes a batch, first to last, as `publish` would one by one.
    pub fn publish_all(&mut self, msgs: Vec<T>)
        requires
            old(self).wf(),
        ensures
            final(self).wf(),
            Self::multi_publish_effect(*old(self), *final(self), msgs@),
    {
        let ghost orig = msgs@;
        let mut rest = msgs;
        let mut k: usize = 0;
        let total = rest.len();
        while k < total
            invariant
                self.wf(),
                total == orig.len(),
                0 <= k <= total,
                rest@ == orig.skip(k as int),
                Self::multi_publish_effect(*old(self), *self, orig.take(k as int)),
            decreases total - k,
        {
            let ghost before = *self;
            let m = rest.remove(0);
            proof {
                assert(m == orig[k as int]);
                assert(rest@ =~= orig.skip(k as int + 1));
            }
            self.publish(m);
            proof {
                Self::lemma_multi_publish_snoc(
                    *old(self),
                    before,
                    *self,
                    orig.take(k as int),
                    m,
                );
                assert(orig.take(k as int).push(m) =~= orig.take(k as int + 1));
            }
            k = k + 1;
        }
        proof {
            assert(orig.take(total as int) =~= orig);
        }
    }

    /// Opens a cursor that will see every message published from now on.
    pub fn subscribe(&self) -> (r: Subscription)
        ensures
            r.position() == self.sent(),
    {
        Subscription { next: self.total }
    }
}

/// The cursor movement of one `recv` call: a cursor behind the retained
/// tail jumps forward to the oldest retained message; one inside the tail
/// advances past the message it is handed; one at the head stays put.
pub open spec fn spec_recv_cursor<T>(ch: Fanout<T>, cursor: int) -> int {
    if cursor >= ch.sent() {
        cursor
    } else if cursor < ch.first_retained() {
        ch.first_retained()
    } else {
        cursor + 1
    }
}

/// Whether one `recv` call at `cursor` reports a lag, and of how much.
pub open spec fn spec_recv_lag<T>(ch: Fanout<T>, cursor: int) -> Option<int> {
    if cursor < ch.first_retained() && cursor < ch.sent() {
        Some(ch.first_retained() - cursor)
    } else {
        None
    }
}

impl Subscription {
    /// Stream position of the next message this subscriber will see.
    pub closed spec fn position(&self) -> int {
        self.next as int
    }

    /// Polls the channel once. Delivery order of the messages a subscriber
    /// does receive always follows publication order.
    pub fn recv<'a, T>(&mut self, ch: &'a Fanout<T>) -> (r: Result<&'a T, RecvError>)
        requires
            ch.wf(),
        ensures
            final(self).position() == spec_recv_cursor(*ch, old(self).position()),
            match r {
                Ok(msg) => {
                    &&& spec_recv_lag(*ch, old(self).position()) is None
                    &&& ch.first_retained() <= old(self).position() < ch.sent()
                    &&& *msg == ch.retained()[old(self).position() - ch.first_retained()]
                },
                Err(RecvError::Empty) => old(self).position() >= ch.sent(),
                Err(RecvError::Lagged(skipped)) => spec_recv_lag(*ch, old(self).position())
                    == Some(skipped as int),
            },
    {
        if self.next >= ch.total {
            Err(RecvError::Empty)
        } else {
            let oldest = ch.total - ch.buffer.len() as u64;
            if self.next < oldest {
                let skipped = oldest - self.next;
                self.next = oldest;
                Err(RecvError::Lagged(skipped))
            } else {
                let idx = (self.next - oldest) as usize;
                let msg = &ch.buffer[idx];
                self.next = self.next + 1;
                Ok(msg)
            }
        }
    }
}

/// A subscriber that fell behind the retained capacity is told so exactly
/// once: its first poll reports a lag whose count is exactly the number of
/// messages dropped before its cursor, that poll moves the cursor to the
/// oldest retained message, and from there the next poll (when any message
/// is retained) delivers that message without error.
pub proof fn lemma_lag_reported_once_then_delivery<T>(ch: Fanout<T>, cursor: int)
    requires
        ch.wf(),
        0 <= cursor < ch.first_retained(),
    ensures
        spec_recv_lag(ch, cursor) == Some(ch.first_retained() - cursor),
        spec_recv_cursor(ch, cursor) == ch.first_retained(),
        ch.retained().len() > 0 ==> {
            &&& spec_recv_lag(ch, spec_recv_cursor(ch, cursor)) is None
            &&& spec_recv_cursor(ch, spec_recv_cursor(ch, cursor)) == ch.first_retained() + 1
        },
{
}

} // verus!
