//! The event broker: a process-wide multi-consumer broadcast channel.
//! Publishing is fire-and-forget; each subscriber owns a bounded queue and a
//! subscriber that cannot keep up silently misses events rather than stalling
//! the publisher. The broker is constructed once at process start and handed
//! by reference into every request context.

use vstd::prelude::*;

use crate::planet::{Planet, PlanetModel};

verus! {

/// Mathematical shape of the broker: one pending-event queue per subscriber,
/// and the queue bound.
#[verifier::ext_equal]
pub struct BrokerModel {
    pub queues: Seq<Seq<PlanetModel>>,
    pub capacity: usize,
}

/// An in-process broadcast channel for freshly created bodies. Wrap it in a
/// lock to share it across concurrent resolution contexts; every operation
/// here is a single short critical section.
pub struct SimpleBroker {
    queues: Vec<Vec<Planet>>,
    capacity: usize,
}

impl View for SimpleBroker {
    type V = BrokerModel;

    closed spec fn view(&self) -> BrokerModel {
        BrokerModel {
            queues: self.queues@.map_values(|q: Vec<Planet>| q@.map_values(|p: Planet| p@)),
            capacity: self.capacity,
        }
    }
}

/// One queue after a publish: the event is appended when there is room,
/// dropped when the queue is full.
pub open spec fn publish_one(q: Seq<PlanetModel>, p: PlanetModel, cap: usize) -> Seq<PlanetModel> {
    if q.len() < cap {
        q.push(p)
    } else {
        q
    }
}

/// Every subscriber queue after a publish.
pub open spec fn spec_publish(qs: Seq<Seq<PlanetModel>>, p: PlanetModel, cap: usize) -> Seq<
    Seq<PlanetModel>,
> {
    Seq::new(qs.len(), |i: int| publish_one(qs[i], p, cap))
}

impl SimpleBroker {
    /// A broker with no subscribers; each later subscriber gets a queue
    /// bounded by `capacity`.
    pub fn new(capacity: usize) -> (r: SimpleBroker)
        requires
            capacity >= 1,
        ensures
            r@.queues == Seq::<Seq<PlanetModel>>::empty(),
            r@.capacity == capacity,
    {
        let r = SimpleBroker { queues: Vec::new(), capacity };
        proof {
            assert(r@.queues =~~= Seq::<Seq<PlanetModel>>::empty());
        }
        r
    }

    pub fn capacity(&self) -> (r: usize)
        ensures
            r == self@.capacity,
    {
        self.capacity
    }

    pub fn subscriber_count(&self) -> (r: usize)
        ensures
            r == self@.queues.len(),
    {
        self.queues.len()
    }

    /// Register a subscriber: it starts with an empty queue (nothing
    /// published earlier is replayed) and is addressed by the returned key.
    pub fn subscribe(&mut self) -> (sid: usize)
        ensures
            sid == old(self)@.queues.len(),
            final(self)@.queues == old(self)@.queues.push(Seq::<PlanetModel>::empty()),
            final(self)@.capacity == old(self)@.capacity,
    {
        let sid = self.queues.len();
        self.queues.push(Vec::new());
        proof {
            assert(self@.queues =~~= old(self)@.queues.push(Seq::<PlanetModel>::empty()));
        }
        sid
    }

    /// Broadcast an event to every subscriber: appended to each queue with
    /// room, dropped for each full one. Never blocks on a slow consumer.
    pub fn publish(&mut self, p: &Planet)
        ensures
            final(self)@.queues == spec_publish(old(self)@.queues, p@, old(self)@.capacity),
            final(self)@.capacity == old(self)@.capacity,
    {
        let n = self.queues.len();
        let mut i: usize = 0;
        while i < n
            invariant
                0 <= i <= n,
                n == self.queues@.len(),
                self@.capacity == old(self)@.capacity,
                self@.queues.len() == old(self)@.queues.len(),
                forall|j: int|
                    0 <= j < i ==> self@.queues[j] == publish_one(
                        old(self)@.queues[j],
                        p@,
                        old(self)@.capacity,
                    ),
                forall|j: int| i <= j < n ==> self@.queues[j] == old(self)@.queues[j],
            decreases n - i,
        {
            let ghost entry: Seq<Seq<PlanetModel>> = self@.queues;
            let ghost entry_vecs: Seq<Vec<Planet>> = self.queues@;
            if self.queues[i].len() < self.capacity {
                let d = p.duplicate();
                self.queues[i].push(d);
                proof {
                    assert(self.queues@ == entry_vecs.update(i as int, self.queues@[i as int]));
                    assert(self@.queues[i as int] =~~= entry[i as int].push(p@));
                    assert forall|j: int| 0 <= j < n && j != i implies self@.queues[j]
                        == entry[j] by {
                        assert(self.queues@[j] == entry_vecs[j]);
                    }
                    assert(entry[i as int].len() < old(self)@.capacity);
                    assert(self@.queues[i as int] == publish_one(
                        old(self)@.queues[i as int],
                        p@,
                        old(self)@.capacity,
                    ));
                    assert forall|j: int| 0 <= j < i + 1 implies self@.queues[j] == publish_one(
                        old(self)@.queues[j],
                        p@,
                        old(self)@.capacity,
                    ) by {
                        if j < i {
                            assert(self@.queues[j] == entry[j]);
                        }
                    }
                    assert forall|j: int| i + 1 <= j < n implies self@.queues[j] == old(
                        self,
                    )@.queues[j] by {
                        assert(self@.queues[j] == entry[j]);
                    }
                }
            } else {
                proof {
                    assert(entry[i as int].len() >= old(self)@.capacity);
                    assert(self@.queues[i as int] == publish_one(
                        old(self)@.queues[i as int],
                        p@,
                        old(self)@.capacity,
                    ));
                }
            }
            i += 1;
        }
        proof {
            assert(self@.queues =~~= spec_publish(old(self)@.queues, p@, old(self)@.capacity));
        }
    }

    /// Take the oldest pending event of a subscriber, if any. The infinite
    /// subscription stream is this, called for as long as the connection
    /// lives.
    pub fn poll(&mut self, sid: usize) -> (r: Option<Planet>)
        requires
            sid < old(self)@.queues.len(),
        ensures
            final(self)@.capacity == old(self)@.capacity,
            match r {
                Some(p) => old(self)@.queues[sid as int].len() > 0 && p@ == old(
                    self,
                )@.queues[sid as int][0] && final(self)@.queues == old(self)@.queues.update(
                    sid as int,
                    old(self)@.queues[sid as int].skip(1),
                ),
                None => old(self)@.queues[sid as int].len() == 0 && final(self)@.queues == old(
                    self,
                )@.queues,
            },
    {
        if self.queues[sid].len() == 0 {
            proof {
                assert(self@.queues =~~= old(self)@.queues);
            }
            return None;
        }
        let p = self.queues[sid].remove(0);
        proof {
            assert(self@.queues[sid as int] =~~= old(self)@.queues[sid as int].skip(1));
            assert(self@.queues =~~= old(self)@.queues.update(
                sid as int,
                old(self)@.queues[sid as int].skip(1),
            ));
        }
        Some(p)
    }

    /// Tear the broker down, dropping every subscriber queue.
    pub fn shutdown(&mut self)
        ensures
            final(self)@.queues == Seq::<Seq<PlanetModel>>::empty(),
            final(self)@.capacity == old(self)@.capacity,
    {
        self.queues.clear();
        proof {
            assert(self@.queues =~~= Seq::<Seq<PlanetModel>>::empty());
        }
    }
}

/// A subscriber registered before a publish observes exactly that event:
/// its queue, empty at subscription, holds precisely the published body.
pub proof fn lemma_new_subscriber_observes_publish(
    qs: Seq<Seq<PlanetModel>>,
    p: PlanetModel,
    cap: usize,
)
    requires
        cap >= 1,
    ensures
        spec_publish(qs.push(Seq::<PlanetModel>::empty()), p, cap)[qs.len() as int] == seq![p],
{
    let qs2 = qs.push(Seq::<PlanetModel>::empty());
    assert(qs2[qs.len() as int] == Seq::<PlanetModel>::empty());
    assert(spec_publish(qs2, p, cap)[qs.len() as int] =~~= seq![p]);
}

/// Every subscriber with room in its queue observes a published event; a
/// subscriber whose queue is already full misses it (the drop-when-full
/// policy), and no queue beyond the registered subscribers is touched.
pub proof fn lemma_publish_observed_by_ready_subscribers(
    qs: Seq<Seq<PlanetModel>>,
    p: PlanetModel,
    cap: usize,
)
    ensures
        spec_publish(qs, p, cap).len() == qs.len(),
        forall|i: int|
            0 <= i < qs.len() && qs[i].len() < cap ==> #[trigger] spec_publish(qs, p, cap)[i]
                == qs[i].push(p),
        forall|i: int|
            0 <= i < qs.len() && qs[i].len() >= cap ==> #[trigger] spec_publish(qs, p, cap)[i]
                == qs[i],
{
}

/// A subscriber that connects strictly after a broadcast completes never
/// observes it: its queue starts empty.
pub proof fn lemma_late_subscriber_misses_publish(
    qs: Seq<Seq<PlanetModel>>,
    p: PlanetModel,
    cap: usize,
)
    ensures
        spec_publish(qs, p, cap).push(Seq::<PlanetModel>::empty())[spec_publish(
            qs,
            p,
            cap,
        ).len() as int] == Seq::<PlanetModel>::empty(),
        !spec_publish(qs, p, cap).push(Seq::<PlanetModel>::empty())[spec_publish(
            qs,
            p,
            cap,
        ).len() as int].contains(p),
{
    let after = spec_publish(qs, p, cap).push(Seq::<PlanetModel>::empty());
    assert(after[spec_publish(qs, p, cap).len() as int] == Seq::<PlanetModel>::empty());
}

} // verus!
