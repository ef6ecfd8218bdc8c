//! The live-update broker: an explicit per-process publish/subscribe
//! registry.  Writers publish entity change events; every subscription
//! receives every published event while it is active, each applying its
//! own optional id filter before delivery.  There is no replay: a
//! subscriber only sees events published while it is active.

use vstd::prelude::*;

use crate::entity::{clone_entity, entity_view, Entity, SpecEntity};

verus! {

/// One subscription: its handle, its optional entity-id filter, whether
/// it is still active, and the events delivered to it so far.
pub struct Subscription {
    pub id: u64,
    pub filter: Option<String>,
    pub active: bool,
    pub received: Vec<Entity>,
}

/// The broker: the fan-out set and the next subscription handle.
pub struct Broker {
    pub subs: Vec<Subscription>,
    pub next_id: u64,
}

/// Mathematical model of `Subscription`.
pub struct SpecSubscription {
    pub id: u64,
    pub filter: Option<Seq<char>>,
    pub active: bool,
    pub received: Seq<SpecEntity>,
}

/// Mathematical model of `Broker`.
pub struct SpecBroker {
    pub subs: Seq<SpecSubscription>,
    pub next_id: u64,
}

pub open spec fn filter_opt_view(f: Option<String>) -> Option<Seq<char>> {
    match f {
        None => None,
        Some(x) => Some(x@),
    }
}

pub open spec fn sub_view(s: Subscription) -> SpecSubscription {
    SpecSubscription {
        id: s.id,
        filter: filter_opt_view(s.filter),
        active: s.active,
        received: s.received@.map(|i: int, e: Entity| entity_view(e)),
    }
}

pub open spec fn broker_view(b: Broker) -> SpecBroker {
    SpecBroker { subs: b.subs@.map(|i: int, s: Subscription| sub_view(s)), next_id: b.next_id }
}

/// Whether a subscription's filter lets an event with this entity id
/// through: no filter lets everything through.
pub open spec fn delivers(filter: Option<Seq<char>>, id: Seq<char>) -> bool {
    match filter {
        None => true,
        Some(x) => x == id,
    }
}

/// One subscription after one published event.
pub open spec fn publish_sub(s: SpecSubscription, e: SpecEntity) -> SpecSubscription {
    if s.active && delivers(s.filter, e.id) {
        SpecSubscription { received: s.received.push(e), ..s }
    } else {
        s
    }
}

/// The broker after one published event: every subscription decides
/// independently.
pub open spec fn publish_model(b: SpecBroker, e: SpecEntity) -> SpecBroker {
    SpecBroker { subs: b.subs.map(|i: int, s: SpecSubscription| publish_sub(s, e)), ..b }
}

/// One subscription after a close of handle `id`.
pub open spec fn close_sub(s: SpecSubscription, id: u64) -> SpecSubscription {
    if s.id == id {
        SpecSubscription { active: false, ..s }
    } else {
        s
    }
}

/// The broker after a close of handle `id`.
pub open spec fn close_model(b: SpecBroker, id: u64) -> SpecBroker {
    SpecBroker { subs: b.subs.map(|i: int, s: SpecSubscription| close_sub(s, id)), ..b }
}

fn delivers_exec(filter: &Option<String>, id: &String) -> (b: bool)
    ensures
        b == delivers(filter_opt_view(*filter), id@),
{
    match filter {
        None => true,
        Some(x) => x.eq(id),
    }
}

impl Broker {
    /// An empty registry; constructed once at startup.
    pub fn new() -> (b: Broker)
        ensures
            broker_view(b).subs == Seq::<SpecSubscription>::empty(),
            broker_view(b).next_id == 0,
    {
        let b = Broker { subs: Vec::new(), next_id: 0 };
        proof {
            assert(broker_view(b).subs =~= Seq::<SpecSubscription>::empty());
        }
        b
    }

    /// Open a subscription with an optional entity-id filter; it is
    /// active from creation, with nothing delivered yet.
    pub fn subscribe(&mut self, filter: Option<String>) -> (id: u64)
        requires
            old(self).next_id < u64::MAX,
        ensures
            id == old(self).next_id,
            broker_view(*final(self)).next_id == old(self).next_id + 1,
            broker_view(*final(self)).subs == broker_view(*old(self)).subs.push(
                SpecSubscription {
                    id,
                    filter: filter_opt_view(filter),
                    active: true,
                    received: Seq::empty(),
                },
            ),
    {
        let id = self.next_id;
        let s = Subscription { id, filter, active: true, received: Vec::new() };
        let ghost sv = sub_view(s);
        self.subs.push(s);
        self.next_id = id + 1;
        proof {
            assert(sv.received =~= Seq::<SpecEntity>::empty());
            assert(broker_view(*self).subs =~= broker_view(*old(self)).subs.push(sv));
        }
        id
    }

    /// Publish one committed change: non-blocking fan-out, each active
    /// subscription whose filter matches gets the event appended.
    #[verifier::loop_isolation(false)]
    pub fn publish(&mut self, e: &Entity)
        ensures
            broker_view(*final(self)) == publish_model(broker_view(*old(self)), entity_view(*e)),
    {
        let ghost bv = broker_view(*old(self));
        let ghost ev = entity_view(*e);
        let n = self.subs.len();
        let mut j: usize = 0;
        while j < n
            invariant
                0 <= j <= n,
                self.subs@.len() == n,
                n == bv.subs.len(),
                self.next_id == old(self).next_id,
                forall|l: int|
                    j <= l < n ==> sub_view(#[trigger] self.subs@[l]) == bv.subs[l],
                forall|l: int|
                    0 <= l < j ==> sub_view(#[trigger] self.subs@[l]) == publish_sub(
                        bv.subs[l],
                        ev,
                    ),
            decreases n - j,
        {
            proof {
                assert(sub_view(self.subs@[j as int]) == bv.subs[j as int]);
            }
            let ghost pre_subs = self.subs@;
            let mut s = self.subs.remove(j);
            let ghost s0 = s;
            let deliver = delivers_exec(&s.filter, &e.id);
            proof {
                assert(deliver == delivers(sub_view(s0).filter, ev.id));
            }
            if s.active && deliver {
                let ghost rb = s.received@;
                s.received.push(clone_entity(e));
                proof {
                    assert(sub_view(s0).active);
                    assert(delivers(sub_view(s0).filter, ev.id));
                    assert(publish_sub(sub_view(s0), ev).received == sub_view(s0).received.push(
                        ev,
                    ));
                    assert(s.received@ == rb.push(s.received@.last()));
                    assert(entity_view(s.received@.last()) == ev);
                    assert forall|l: int| 0 <= l < s.received@.len() implies #[trigger] sub_view(
                        s,
                    ).received[l] == publish_sub(sub_view(s0), ev).received[l] by {
                        assert(sub_view(s).received[l] == entity_view(s.received@[l]));
                        if l < rb.len() {
                            assert(sub_view(s0).received[l] == entity_view(rb[l]));
                        } else {
                            assert(s.received@[l] == s.received@.last());
                        }
                    }
                    assert(sub_view(s).received =~= publish_sub(sub_view(s0), ev).received);
                    assert(sub_view(s) == publish_sub(sub_view(s0), ev));
                }
            } else {
                proof {
                    assert(sub_view(s) == publish_sub(sub_view(s0), ev));
                }
            }
            self.subs.insert(j, s);
            proof {
                assert(self.subs@ =~= pre_subs.update(j as int, s));
            }
            j += 1;
        }
        proof {
            assert(broker_view(*self).subs =~= publish_model(bv, ev).subs);
            assert(broker_view(*self) == publish_model(bv, ev));
        }
    }

    /// Close the subscription with that handle: it stops receiving and
    /// stays closed; there is no replay on reopen.
    #[verifier::loop_isolation(false)]
    pub fn close(&mut self, id: u64)
        ensures
            broker_view(*final(self)) == close_model(broker_view(*old(self)), id),
    {
        let ghost bv = broker_view(*old(self));
        let n = self.subs.len();
        let mut j: usize = 0;
        while j < n
            invariant
                0 <= j <= n,
                self.subs@.len() == n,
                n == bv.subs.len(),
                self.next_id == old(self).next_id,
                forall|l: int|
                    j <= l < n ==> sub_view(#[trigger] self.subs@[l]) == bv.subs[l],
                forall|l: int|
                    0 <= l < j ==> sub_view(#[trigger] self.subs@[l]) == close_sub(bv.subs[l], id),
            decreases n - j,
        {
            proof {
                assert(sub_view(self.subs@[j as int]) == bv.subs[j as int]);
            }
            let ghost pre_subs = self.subs@;
            let mut s = self.subs.remove(j);
            let ghost s0 = s;
            if s.id == id {
                s.active = false;
                proof {
                    assert(sub_view(s).received =~= sub_view(s0).received);
                    assert(sub_view(s) == close_sub(sub_view(s0), id));
                }
            } else {
                proof {
                    assert(sub_view(s) == close_sub(sub_view(s0), id));
                }
            }
            self.subs.insert(j, s);
            proof {
                assert(self.subs@ =~= pre_subs.update(j as int, s));
            }
            j += 1;
        }
        proof {
            assert(broker_view(*self).subs =~= close_model(bv, id).subs);
            assert(broker_view(*self) == close_model(bv, id));
        }
    }
}

/// Every event ever delivered to a filtered subscription carries the
/// filtered id.
pub open spec fn filtered_ok(b: SpecBroker) -> bool {
    forall|k: int, l: int|
        0 <= k < b.subs.len() && 0 <= l < (#[trigger] b.subs[k]).received.len() ==> delivers(
            b.subs[k].filter,
            (#[trigger] b.subs[k].received[l]).id,
        )
}

/// A subscription created with a filter receives only events whose
/// entity id equals the filter: publishing preserves the delivery
/// invariant, whatever the event.
pub proof fn lemma_publish_preserves_filtered(b: SpecBroker, e: SpecEntity)
    requires
        filtered_ok(b),
    ensures
        filtered_ok(publish_model(b, e)),
{
    let b2 = publish_model(b, e);
    assert forall|k: int, l: int|
        0 <= k < b2.subs.len() && 0 <= l < (#[trigger] b2.subs[k]).received.len() implies delivers(
        b2.subs[k].filter,
        (#[trigger] b2.subs[k].received[l]).id,
    ) by {
        assert(b2.subs[k] == publish_sub(b.subs[k], e));
        if l < b.subs[k].received.len() {
            assert(delivers(b.subs[k].filter, b.subs[k].received[l].id));
        }
    }
}

/// Opening a subscription preserves the delivery invariant: it starts
/// with nothing delivered.
pub proof fn lemma_subscribe_preserves_filtered(
    b: SpecBroker,
    s: SpecSubscription,
)
    requires
        filtered_ok(b),
        s.received.len() == 0,
    ensures
        filtered_ok(SpecBroker { subs: b.subs.push(s), ..b }),
{
}

/// Closing a subscription preserves the delivery invariant: nothing is
/// delivered or taken away.
pub proof fn lemma_close_preserves_filtered(b: SpecBroker, id: u64)
    requires
        filtered_ok(b),
    ensures
        filtered_ok(close_model(b, id)),
{
    let b2 = close_model(b, id);
    assert forall|k: int, l: int|
        0 <= k < b2.subs.len() && 0 <= l < (#[trigger] b2.subs[k]).received.len() implies delivers(
        b2.subs[k].filter,
        (#[trigger] b2.subs[k].received[l]).id,
    ) by {
        assert(b2.subs[k] == close_sub(b.subs[k], id));
        assert(delivers(b.subs[k].filter, b.subs[k].received[l].id));
    }
}

/// A subscription without a filter receives, while active, every
/// published event: one publish appends exactly that event.
pub proof fn lemma_unfiltered_receives_all(b: SpecBroker, e: SpecEntity, k: int)
    requires
        0 <= k < b.subs.len(),
        b.subs[k].filter is None,
        b.subs[k].active,
    ensures
        publish_model(b, e).subs[k].received == b.subs[k].received.push(e),
{
}

/// A filtered subscription receives a published event exactly when the
/// event's entity id equals the filter.
pub proof fn lemma_filtered_receives_matching(b: SpecBroker, e: SpecEntity, k: int, x: Seq<char>)
    requires
        0 <= k < b.subs.len(),
        b.subs[k].filter == Some(x),
        b.subs[k].active,
    ensures
        e.id == x ==> publish_model(b, e).subs[k].received == b.subs[k].received.push(e),
        e.id != x ==> publish_model(b, e).subs[k].received == b.subs[k].received,
{
}

/// A closed subscription sees no events published after it closed.
pub proof fn lemma_closed_receives_nothing(b: SpecBroker, e: SpecEntity, k: int)
    requires
        0 <= k < b.subs.len(),
        !b.subs[k].active,
    ensures
        publish_model(b, e).subs[k] == b.subs[k],
{
}

} // verus!
