//! The per-peer send queue.
//!
//! Outbound messages wait in a bounded queue per receiver address while the
//! send path drains the head. The queue holds at most two entries; when a
//! message arrives at a full queue, the queue is cleared instead of growing
//! (the transport's degraded backpressure policy). Within one receiver the
//! queue is first-in first-out, so two messages to the same peer leave in
//! the order they were submitted.

use vstd::prelude::*;

use std::collections::VecDeque;

verus! {

/// How many messages may wait for one receiver.
pub const SEND_QUEUE_CAPACITY: usize = 2;

/// One queued outbound message.
pub struct SendMessage {
    pub message_id: Vec<u8>,
    pub sender_id: Vec<u8>,
    pub data: Vec<u8>,
}

/// The queue stored for a receiver address: the first entry wins.
pub open spec fn find_queue(entries: Seq<(u64, VecDeque<SendMessage>)>, mac: u64) -> Seq<
    SendMessage,
>
    decreases entries.len(),
{
    if entries.len() == 0 {
        Seq::empty()
    } else if entries[0].0 == mac {
        entries[0].1@
    } else {
        find_queue(entries.drop_first(), mac)
    }
}

proof fn lemma_queue_absent(entries: Seq<(u64, VecDeque<SendMessage>)>, mac: u64)
    requires
        forall|i: int| 0 <= i < entries.len() ==> (#[trigger] entries[i]).0 != mac,
    ensures
        find_queue(entries, mac) =~= Seq::<SendMessage>::empty(),
    decreases entries.len(),
{
    if entries.len() > 0 {
        lemma_queue_absent(entries.drop_first(), mac);
    }
}

proof fn lemma_queue_at(entries: Seq<(u64, VecDeque<SendMessage>)>, i: int, mac: u64)
    requires
        0 <= i < entries.len(),
        entries[i].0 == mac,
        forall|q: int| 0 <= q < i ==> (#[trigger] entries[q]).0 != mac,
    ensures
        find_queue(entries, mac) == entries[i].1@,
    decreases i,
{
    if i > 0 {
        lemma_queue_at(entries.drop_first(), i - 1, mac);
    }
}

proof fn lemma_queue_remove_other(entries: Seq<(u64, VecDeque<SendMessage>)>, i: int, k: u64)
    requires
        0 <= i < entries.len(),
        entries[i].0 != k,
    ensures
        find_queue(entries.remove(i), k) == find_queue(entries, k),
    decreases i,
{
    if i == 0 {
        assert(entries.remove(0) =~= entries.drop_first());
    } else {
        assert(entries.remove(i)[0] == entries[0]);
        assert(entries.remove(i).drop_first() =~= entries.drop_first().remove(i - 1));
        lemma_queue_remove_other(entries.drop_first(), i - 1, k);
    }
}

proof fn lemma_queue_push(
    entries: Seq<(u64, VecDeque<SendMessage>)>,
    mac: u64,
    v: VecDeque<SendMessage>,
    k: u64,
)
    requires
        forall|i: int| 0 <= i < entries.len() ==> (#[trigger] entries[i]).0 != mac,
    ensures
        find_queue(entries.push((mac, v)), k) == if k == mac {
            v@
        } else {
            find_queue(entries, k)
        },
    decreases entries.len(),
{
    if entries.len() == 0 {
        reveal_with_fuel(find_queue, 2);
        assert(entries.push((mac, v))[0] == (mac, v));
        assert(entries.push((mac, v)).drop_first() =~= Seq::<(u64, VecDeque<SendMessage>)>::empty());
        if k != mac {
            assert(find_queue(entries, k) =~= Seq::<SendMessage>::empty());
        }
    } else {
        assert(entries.push((mac, v))[0] == entries[0]);
        assert(entries.push((mac, v)).drop_first() =~= entries.drop_first().push((mac, v)));
        lemma_queue_push(entries.drop_first(), mac, v, k);
    }
}

/// The map of send queues, one per receiver address.
pub struct SendQueueMap {
    entries: Vec<(u64, VecDeque<SendMessage>)>,
}

impl SendQueueMap {
    /// Each address holds at most one queue.
    pub closed spec fn wf(self) -> bool {
        forall|i: int, k: int|
            0 <= i < k < self.entries@.len() ==> (#[trigger] self.entries@[i]).0 != (
            #[trigger] self.entries@[k]).0
    }

    /// The pending messages for a receiver, oldest first.
    pub closed spec fn queue_for(self, mac: u64) -> Seq<SendMessage> {
        find_queue(self.entries@, mac)
    }

    /// An empty map.
    pub fn new() -> (r: Self)
        ensures
            r.wf(),
            forall|m: u64| #[trigger] r.queue_for(m) =~= Seq::<SendMessage>::empty(),
    {
        let r = SendQueueMap { entries: Vec::new() };
        proof {
            assert forall|m: u64| #[trigger] r.queue_for(m) =~= Seq::<SendMessage>::empty() by {
                lemma_queue_absent(r.entries@, m);
            }
        }
        r
    }

    /// Find the index of a receiver's entry, removing it from the vector.
    /// Returns the queue, or a fresh one when the receiver had none.
    fn take_queue(&mut self, mac: u64) -> (r: VecDeque<SendMessage>)
        requires
            old(self).wf(),
        ensures
            final(self).wf(),
            r@ == old(self).queue_for(mac),
            final(self).queue_for(mac) =~= Seq::<SendMessage>::empty(),
            forall|q: int| 0 <= q < final(self).entry_count() ==> final(self).entry_mac(q) != mac,
            forall|k: u64| k != mac ==> #[trigger] final(self).queue_for(k) == old(self).queue_for(k),
    {
        let n = self.entries.len();
        let mut i: usize = 0;
        while i < n
            invariant_except_break
                i <= n,
                n == self.entries@.len(),
                forall|q: int| 0 <= q < i ==> (#[trigger] self.entries@[q]).0 != mac,
            ensures
                i <= n,
                n == self.entries@.len(),
                forall|q: int| 0 <= q < i ==> (#[trigger] self.entries@[q]).0 != mac,
                i < n ==> self.entries@[i as int].0 == mac,
            decreases n - i,
        {
            if self.entries[i].0 == mac {
                break;
            }
            i = i + 1;
        }
        if i < n {
            let ghost s = self.entries@;
            proof {
                lemma_queue_at(s, i as int, mac);
            }
            let entry = self.entries.remove(i);
            proof {
                assert forall|p: int, q: int|
                    0 <= p < q < self.entries@.len() implies (#[trigger] self.entries@[p]).0 != (
                #[trigger] self.entries@[q]).0 by {
                    let pp: int = if p < i { p } else { p + 1 };
                    let qq: int = if q < i { q } else { q + 1 };
                    assert(self.entries@[p] == s[pp]);
                    assert(self.entries@[q] == s[qq]);
                }
                assert forall|q: int|
                    0 <= q < self.entries@.len() implies (#[trigger] self.entries@[q]).0 != mac by {
                    if q < i {
                        assert(self.entries@[q] == s[q]);
                    } else {
                        assert(self.entries@[q] == s[q + 1]);
                    }
                }
                lemma_queue_absent(self.entries@, mac);
                assert forall|k: u64| k != mac implies #[trigger] find_queue(self.entries@, k)
                    == find_queue(s, k) by {
                    lemma_queue_remove_other(s, i as int, k);
                }
            }
            entry.1
        } else {
            proof {
                lemma_queue_absent(self.entries@, mac);
            }
            VecDeque::new()
        }
    }

    /// How many receivers hold an entry (used only in contracts).
    pub closed spec fn entry_count(self) -> int {
        self.entries@.len() as int
    }

    /// The address of one entry (used only in contracts).
    pub closed spec fn entry_mac(self, q: int) -> u64 {
        self.entries@[q].0
    }

    /// Put a receiver's queue back.
    fn put_queue(&mut self, mac: u64, dq: VecDeque<SendMessage>)
        requires
            old(self).wf(),
            forall|q: int| 0 <= q < old(self).entry_count() ==> old(self).entry_mac(q) != mac,
        ensures
            final(self).wf(),
            final(self).queue_for(mac) == dq@,
            forall|k: u64| k != mac ==> #[trigger] final(self).queue_for(k) == old(self).queue_for(k),
    {
        let ghost s = self.entries@;
        proof {
            assert forall|q: int| 0 <= q < s.len() implies (#[trigger] s[q]).0 != mac by {
                assert(old(self).entry_mac(q) == s[q].0);
            }
            assert forall|k: u64| true implies #[trigger] find_queue(s.push((mac, dq)), k) == if k
                == mac {
                dq@
            } else {
                find_queue(s, k)
            } by {
                lemma_queue_push(s, mac, dq, k);
            }
        }
        self.entries.push((mac, dq));
        proof {
            assert forall|p: int, q: int|
                0 <= p < q < self.entries@.len() implies (#[trigger] self.entries@[p]).0 != (
            #[trigger] self.entries@[q]).0 by {
                if q == self.entries@.len() - 1 {
                    assert(self.entries@[p] == s[p]);
                }
            }
        }
    }

    /// Queue a message for a receiver. A queue below capacity grows at the
    /// back; a full queue is cleared instead (the degraded overflow policy:
    /// the new message and the waiting ones are all dropped).
    pub fn enqueue(&mut self, mac: u64, msg: SendMessage)
        requires
            old(self).wf(),
        ensures
            final(self).wf(),
            final(self).queue_for(mac) == if old(self).queue_for(mac).len()
                < SEND_QUEUE_CAPACITY as int {
                old(self).queue_for(mac).push(msg)
            } else {
                Seq::<SendMessage>::empty()
            },
            forall|k: u64| k != mac ==> #[trigger] final(self).queue_for(k) == old(self).queue_for(k),
    {
        let mut dq = self.take_queue(mac);
        if dq.len() < SEND_QUEUE_CAPACITY {
            dq.push_back(msg);
        } else {
            dq.clear();
        }
        self.put_queue(mac, dq);
    }

    /// Take the oldest message waiting for a receiver, if any.
    pub fn pop_head(&mut self, mac: u64) -> (r: Option<SendMessage>)
        requires
            old(self).wf(),
        ensures
            final(self).wf(),
            match r {
                Some(m) => old(self).queue_for(mac).len() > 0 && m == old(self).queue_for(mac)[0]
                    && final(self).queue_for(mac) == old(self).queue_for(mac).drop_first(),
                None => old(self).queue_for(mac).len() == 0 && final(self).queue_for(mac)
                    == old(self).queue_for(mac),
            },
            forall|k: u64| k != mac ==> #[trigger] final(self).queue_for(k) == old(self).queue_for(k),
    {
        let mut dq = self.take_queue(mac);
        let r = dq.pop_front();
        proof {
            if old(self).queue_for(mac).len() == 0 {
                assert(old(self).queue_for(mac) =~= Seq::<SendMessage>::empty());
            }
        }
        self.put_queue(mac, dq);
        r
    }
}

/// First-in first-out per receiver: queueing two messages into a queue with
/// room for both and draining twice returns them in submission order.
pub proof fn lemma_send_queue_fifo(q0: Seq<SendMessage>, a: SendMessage, b: SendMessage)
    requires
        q0.len() == 0,
    ensures
        ({
            let q1 = q0.push(a);
            let q2 = q1.push(b);
            &&& q2[0] == a
            &&& q2.drop_first()[0] == b
            &&& q2.drop_first().drop_first().len() == 0
        }),
{
    let q1 = q0.push(a);
    let q2 = q1.push(b);
    assert(q2.drop_first() =~= seq![b]);
}

} // verus!
