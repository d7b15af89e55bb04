//! The event bus: a process-wide fan-out channel of lifecycle updates
//! with a bounded buffer per subscriber. Publishers are never slowed by a
//! slow subscriber: when a queue is full its oldest unseen update is
//! dropped and the subscriber is told how much it missed. A subscriber
//! attaching after an update was published does not see it.
use crate::codec::{CanonValue, SpecTree};
use vstd::prelude::*;

verus! {

/// One fan-out record: a string tag and a structured payload. Not
/// persisted; lost if nobody listens.
pub struct SseUpdate {
    pub event_type: String,
    pub data: CanonValue,
}

impl View for SseUpdate {
    type V = (Seq<char>, SpecTree);

    open spec fn view(&self) -> (Seq<char>, SpecTree) {
        (self.event_type@, self.data@)
    }
}

/// The views of a queue of updates, oldest first.
pub open spec fn update_views(q: Seq<SseUpdate>) -> Seq<(Seq<char>, SpecTree)> {
    Seq::new(q.len(), |i: int| q[i]@)
}

/// How many updates a subscriber may have pending before the oldest are
/// dropped.
pub const EVENT_BUS_CAPACITY: usize = 256;

/// One subscriber's bounded buffer and its count of dropped updates.
pub struct SubscriberQueue {
    pub pending: Vec<SseUpdate>,
    pub dropped: u64,
}

/// A queue holds a bounded contiguous suffix of the published sequence.
pub open spec fn queue_ok(q: SubscriberQueue, published: Seq<(Seq<char>, SpecTree)>) -> bool {
    let pv = update_views(q.pending@);
    pv.len() <= EVENT_BUS_CAPACITY && pv.len() <= published.len() && pv == published.subrange(
        published.len() - pv.len(),
        published.len() as int,
    )
}

/// What a subscriber sees when it asks for the next update.
pub enum RecvOutcome {
    /// Nothing is pending.
    Empty,
    /// This many updates were dropped since the subscriber last kept up.
    Lagged(u64),
    /// The next pending update, in publish order.
    Item(SseUpdate),
}

/// What publishing one update does to a subscriber's queue: appended when
/// there was room, else the oldest pending update makes way and the drop
/// count grows.
pub open spec fn published_step(
    pre: SubscriberQueue,
    post: SubscriberQueue,
    v: (Seq<char>, SpecTree),
) -> bool {
    let opv = update_views(pre.pending@);
    let npv = update_views(post.pending@);
    if opv.len() < EVENT_BUS_CAPACITY {
        npv == opv.push(v) && post.dropped == pre.dropped
    } else {
        npv == opv.subrange(1, EVENT_BUS_CAPACITY as int).push(v) && post.dropped == (if pre.dropped
            < u64::MAX {
            (pre.dropped + 1) as u64
        } else {
            u64::MAX
        })
    }
}

/// The fan-out channel. The ghost `published` sequence records every
/// update ever published, and each live queue always holds a contiguous
/// suffix of it: delivery preserves publish order per subscriber.
pub struct EventBus {
    pub subscribers: Vec<SubscriberQueue>,
    pub published: Ghost<Seq<(Seq<char>, SpecTree)>>,
}

impl EventBus {
    /// How many subscribers are attached.
    pub open spec fn sub_count(self) -> nat {
        self.subscribers@.len()
    }

    /// The pending updates of one subscriber, oldest first.
    pub open spec fn pending_views(self, s: int) -> Seq<(Seq<char>, SpecTree)> {
        update_views(self.subscribers@[s].pending@)
    }

    /// How many updates one subscriber has missed and not yet been told of.
    pub open spec fn dropped_count(self, s: int) -> u64 {
        self.subscribers@[s].dropped
    }

    /// Every update ever published, in order.
    pub open spec fn published(self) -> Seq<(Seq<char>, SpecTree)> {
        self.published@
    }

    /// Each queue is bounded and holds exactly the most recent pending
    /// stretch of the published sequence, in publish order: delivery
    /// preserves publish order for every subscriber.
    pub open spec fn wf(self) -> bool {
        forall|s: int|
            0 <= s < self.subscribers@.len() ==> queue_ok(
                #[trigger] self.subscribers@[s],
                self.published@,
            )
    }

    pub fn new() -> (r: Self)
        ensures
            r.wf(),
            r.sub_count() == 0,
            r.published().len() == 0,
    {
        EventBus { subscribers: Vec::new(), published: Ghost(Seq::empty()) }
    }

    /// Attaches a new subscriber; it will see every update published
    /// after this call, and none published before.
    pub fn subscribe(&mut self) -> (id: usize)
        requires
            old(self).wf(),
        ensures
            final(self).wf(),
            id == old(self).sub_count(),
            final(self).sub_count() == old(self).sub_count() + 1,
            final(self).published() == old(self).published(),
            forall|s: int|
                0 <= s < old(self).sub_count() ==> #[trigger] final(self).subscribers@[s] == old(self).subscribers@[s],
            final(self).pending_views(id as int).len() == 0,
            final(self).dropped_count(id as int) == 0,
    {
        let id = self.subscribers.len();
        self.subscribers.push(SubscriberQueue { pending: Vec::new(), dropped: 0 });
        proof {
            let p = self.published@;
            assert(update_views(self.subscribers@[id as int].pending@) =~= Seq::<
                (Seq<char>, SpecTree),
            >::empty());
            assert(update_views(self.subscribers@[id as int].pending@) =~= p.subrange(
                p.len() as int,
                p.len() as int,
            ));
            assert(queue_ok(self.subscribers@[id as int], p));
        }
        id
    }

    /// Publishes one update to every subscriber, never blocking: a full
    /// queue loses its oldest pending update and its drop count grows.
    #[verifier::loop_isolation(false)]
    pub fn publish(&mut self, update: SseUpdate)
        requires
            old(self).wf(),
        ensures
            final(self).wf(),
            final(self).sub_count() == old(self).sub_count(),
            final(self).published() == old(self).published().push(update@),
            forall|s: int|
                0 <= s < old(self).sub_count() ==> published_step(
                    old(self).subscribers@[s],
                    #[trigger] final(self).subscribers@[s],
                    update@,
                ),
    {
        proof {
            self.published@ = self.published@.push(update@);
        }
        let ghost pubs = self.published@;
        let n = self.subscribers.len();
        let mut i: usize = 0;
        while i < n
            invariant
                i <= n,
                self.subscribers@.len() == n,
                self.published@ == pubs,
                forall|s: int|
                    i <= s < n ==> #[trigger] self.subscribers@[s] == old(self).subscribers@[s],
                forall|s: int|
                    0 <= s < i ==> published_step(
                        old(self).subscribers@[s],
                        #[trigger] self.subscribers@[s],
                        update@,
                    ),
            decreases n - i,
        {
            let ghost snap = self.subscribers@;
            let copy = SseUpdate {
                event_type: update.event_type.clone(),
                data: crate::codec::duplicate(&update.data),
            };
            let q = vstd::std_specs::vec::vec_index_mut(&mut self.subscribers, i);
            if q.pending.len() == EVENT_BUS_CAPACITY {
                let _oldest = q.pending.remove(0);
                if q.dropped < u64::MAX {
                    q.dropped = q.dropped + 1;
                }
                q.pending.push(copy);
                proof {
                    assert(update_views(self.subscribers@[i as int].pending@) =~= update_views(
                        old(self).subscribers@[i as int].pending@,
                    ).subrange(1, EVENT_BUS_CAPACITY as int).push(update@));
                }
            } else {
                q.pending.push(copy);
                proof {
                    assert(update_views(self.subscribers@[i as int].pending@) =~= update_views(
                        old(self).subscribers@[i as int].pending@,
                    ).push(update@));
                }
            }
            proof {
                assert(published_step(
                    old(self).subscribers@[i as int],
                    self.subscribers@[i as int],
                    update@,
                ));
                assert forall|s: int| 0 <= s < n && s != i implies #[trigger] self.subscribers@[s]
                    == snap[s] by {}
            }
            i = i + 1;
        }
        proof {
            assert forall|s: int|
                0 <= s < self.subscribers@.len() implies queue_ok(
                #[trigger] self.subscribers@[s],
                self.published@,
            ) by {
                assert(published_step(old(self).subscribers@[s], self.subscribers@[s], update@));
                assert(queue_ok(old(self).subscribers@[s], old(self).published@));
                let opv = update_views(old(self).subscribers@[s].pending@);
                let npv = update_views(self.subscribers@[s].pending@);
                let op = old(self).published@;
                let np = self.published@;
                assert(np == op.push(update@));
                assert(opv == op.subrange(op.len() - opv.len(), op.len() as int));
                if opv.len() < EVENT_BUS_CAPACITY {
                    assert(npv.len() == opv.len() + 1);
                    assert forall|j: int| 0 <= j < npv.len() implies npv[j] == np.subrange(
                        np.len() - npv.len(),
                        np.len() as int,
                    )[j] by {
                        assert(np.subrange(np.len() - npv.len(), np.len() as int)[j] == np[np.len()
                            - npv.len() + j]);
                        if j < opv.len() {
                            assert(npv[j] == opv[j]);
                            assert(opv[j] == op.subrange(
                                op.len() - opv.len(),
                                op.len() as int,
                            )[j]);
                            assert(op.subrange(op.len() - opv.len(), op.len() as int)[j]
                                == op[op.len() - opv.len() + j]);
                            assert(np[np.len() - npv.len() + j] == op[op.len() - opv.len() + j]);
                        } else {
                            assert(npv[j] == update@);
                            assert(np[np.len() - 1] == update@);
                        }
                    }
                    assert(npv =~= np.subrange(np.len() - npv.len(), np.len() as int));
                } else {
                    let cap = EVENT_BUS_CAPACITY as int;
                    assert(npv.len() == cap);
                    assert forall|j: int| 0 <= j < npv.len() implies npv[j] == np.subrange(
                        np.len() - npv.len(),
                        np.len() as int,
                    )[j] by {
                        assert(np.subrange(np.len() - npv.len(), np.len() as int)[j] == np[np.len()
                            - npv.len() + j]);
                        if j < cap - 1 {
                            assert(npv[j] == opv.subrange(1, cap)[j]);
                            assert(opv.subrange(1, cap)[j] == opv[j + 1]);
                            assert(opv[j + 1] == op.subrange(op.len() - opv.len(), op.len() as int)[
                                j + 1]);
                            assert(op.subrange(op.len() - opv.len(), op.len() as int)[j + 1]
                                == op[op.len() - opv.len() + j + 1]);
                            assert(np[np.len() - npv.len() + j] == op[op.len() - opv.len() + j
                                + 1]);
                        } else {
                            assert(npv[j] == update@);
                            assert(np[np.len() - 1] == update@);
                        }
                    }
                    assert(npv =~= np.subrange(np.len() - npv.len(), np.len() as int));
                }
            }
        }
    }

    /// Hands one subscriber its next update: a gap notice first if it
    /// missed any, then the pending updates in publish order.
    pub fn recv(&mut self, sub: usize) -> (r: RecvOutcome)
        requires
            old(self).wf(),
            sub < old(self).sub_count(),
        ensures
            final(self).wf(),
            final(self).sub_count() == old(self).sub_count(),
            final(self).published() == old(self).published(),
            forall|s: int|
                0 <= s < old(self).sub_count() && s != sub ==> #[trigger] final(self).subscribers@[s] == old(self).subscribers@[s],
            old(self).dropped_count(sub as int) > 0 ==> (r matches RecvOutcome::Lagged(k) && k
                == old(self).dropped_count(sub as int) && final(self).dropped_count(sub as int)
                == 0 && final(self).pending_views(sub as int) == old(self).pending_views(
                sub as int,
            )),
            old(self).dropped_count(sub as int) == 0 && old(self).pending_views(sub as int).len()
                == 0 ==> (r is Empty && final(self).subscribers@[sub as int] == old(self).subscribers@[sub as int]),
            old(self).dropped_count(sub as int) == 0 && old(self).pending_views(sub as int).len()
                > 0 ==> (r matches RecvOutcome::Item(u) && u@ == old(self).pending_views(
                sub as int,
            )[0] && final(self).pending_views(sub as int) == old(self).pending_views(
                sub as int,
            ).subrange(1, old(self).pending_views(sub as int).len() as int) && final(self).dropped_count(sub as int) == 0),
    {
        let q = vstd::std_specs::vec::vec_index_mut(&mut self.subscribers, sub);
        if q.dropped > 0 {
            let k = q.dropped;
            q.dropped = 0;
            proof {
                assert(self.subscribers@[sub as int].pending@ == old(self).subscribers@[sub as int].pending@);
                recv_wf_frame(*old(self), *self, sub as int);
            }
            RecvOutcome::Lagged(k)
        } else if q.pending.len() == 0 {
            proof {
                assert(self.subscribers@ =~= old(self).subscribers@);
                recv_wf_frame(*old(self), *self, sub as int);
            }
            RecvOutcome::Empty
        } else {
            let u = q.pending.remove(0);
            proof {
                let opv = update_views(old(self).subscribers@[sub as int].pending@);
                let npv = update_views(self.subscribers@[sub as int].pending@);
                assert(queue_ok(old(self).subscribers@[sub as int], old(self).published@));
                assert(npv =~= opv.subrange(1, opv.len() as int));
                assert(u@ == opv[0]);
                recv_wf_frame(*old(self), *self, sub as int);
            }
            RecvOutcome::Item(u)
        }
    }
}

/// After touching one subscriber's queue, the bus stays well-formed if
/// that queue still holds a bounded suffix of the published sequence.
proof fn recv_wf_frame(pre: EventBus, post: EventBus, sub: int)
    requires
        pre.wf(),
        post.subscribers@.len() == pre.subscribers@.len(),
        post.published@ == pre.published@,
        forall|s: int|
            0 <= s < pre.subscribers@.len() && s != sub ==> #[trigger] post.subscribers@[s]
                == pre.subscribers@[s],
        0 <= sub < pre.subscribers@.len(),
        post.subscribers@[sub].pending@ == pre.subscribers@[sub].pending@ || (update_views(
            pre.subscribers@[sub].pending@,
        ).len() > 0 && update_views(post.subscribers@[sub].pending@) == update_views(
            pre.subscribers@[sub].pending@,
        ).subrange(1, update_views(pre.subscribers@[sub].pending@).len() as int)),
    ensures
        post.wf(),
{
    assert forall|s: int|
        0 <= s < post.subscribers@.len() implies queue_ok(
        #[trigger] post.subscribers@[s],
        post.published@,
    ) by {
        assert(queue_ok(pre.subscribers@[s], pre.published@));
        if s == sub {
            let opv = update_views(pre.subscribers@[sub].pending@);
            let npv = update_views(post.subscribers@[sub].pending@);
            let op = pre.published@;
            assert(opv == op.subrange(op.len() - opv.len(), op.len() as int));
            if post.subscribers@[sub].pending@ == pre.subscribers@[sub].pending@ {
                assert(npv =~= opv);
            } else {
                assert(npv == opv.subrange(1, opv.len() as int));
                assert forall|j: int| 0 <= j < npv.len() implies npv[j] == op.subrange(
                    op.len() - npv.len(),
                    op.len() as int,
                )[j] by {
                    assert(npv[j] == opv[j + 1]);
                    assert(opv[j + 1] == op.subrange(op.len() - opv.len(), op.len() as int)[j + 1]);
                    assert(op.subrange(op.len() - opv.len(), op.len() as int)[j + 1] == op[op.len()
                        - opv.len() + j + 1]);
                    assert(op.subrange(op.len() - npv.len(), op.len() as int)[j] == op[op.len()
                        - npv.len() + j]);
                }
                assert(npv =~= op.subrange(op.len() - npv.len(), op.len() as int));
            }
        }
    }
}

} // verus!
