//! The subscriber registry: registration, fan-out and the liveness sweep.
use vstd::prelude::*;

use crate::transport::{accepted_events, open_channel, queue_bound, try_deliver};

verus! {

/// Capacity of each subscriber's outbound queue, in messages.
pub const QUEUE_CAPACITY: usize = 10;

/// Payload of the keepalive event placed on a new subscriber's queue.
pub const KEEPALIVE_PAYLOAD: &'static str = "";

/// Payload of the liveness probe; never used for application content.
pub const PROBE_PAYLOAD: &'static str = "connected";

/// One connected viewer: the sending half of its bounded queue and the
/// identifier that the registry gave it when it registered.
pub struct Subscriber {
    pub id: u64,
    pub sender: actix_web_lab::sse::Sender,
}

/// Outcome of one delivery attempt to one subscriber.
#[derive(Clone, Copy, Debug, PartialEq, Eq, Structural)]
pub struct Delivery {
    pub id: u64,
    pub accepted: bool,
}

/// Registration could not enqueue the keepalive event, or the registry has
/// handed out every identifier it can.
#[derive(Clone, Copy, Debug, PartialEq, Eq, Structural)]
pub enum ConnectionSetupError {
    KeepaliveRejected,
    IdentifiersExhausted,
}

/// The live set of subscribers.
pub struct Broadcaster {
    clients: Vec<Subscriber>,
    next_id: u64,
}

/// Identifiers of a sequence of subscribers, in order.
pub open spec fn ids_of(s: Seq<Subscriber>) -> Seq<u64> {
    s.map_values(|c: Subscriber| c.id)
}

/// Identifiers of a sequence of deliveries, in order.
pub open spec fn delivered_ids(d: Seq<Delivery>) -> Seq<u64> {
    d.map_values(|x: Delivery| x.id)
}

/// Whether each delivery was accepted, in order.
pub open spec fn outcomes(d: Seq<Delivery>) -> Seq<bool> {
    d.map_values(|x: Delivery| x.accepted)
}

/// The elements whose outcome is `true`, in their original order.
pub open spec fn kept<A>(xs: Seq<A>, ok: Seq<bool>) -> Seq<A>
    decreases xs.len(),
{
    if xs.len() == 0 {
        Seq::empty()
    } else {
        let rest = kept(xs.drop_last(), ok.take(xs.len() - 1));
        if ok[xs.len() - 1] {
            rest.push(xs.last())
        } else {
            rest
        }
    }
}

/// Each subscriber's accepted events with the probe appended.
pub open spec fn probed(logs: Seq<Seq<Seq<char>>>) -> Seq<Seq<Seq<char>>> {
    logs.map_values(|l: Seq<Seq<char>>| l.push(PROBE_PAYLOAD@))
}

/// `after` is `before` with one subscriber added under the next identifier,
/// whose queue has the standard bound and holds the keepalive alone.
pub open spec fn registered(before: Broadcaster, after: Broadcaster) -> bool {
    &&& after.ids() == before.ids().push(before.next())
    &&& after.next() == before.next() + 1
    &&& after.bounds() == before.bounds().push(QUEUE_CAPACITY as nat)
    &&& after.logs() == before.logs().push(seq![KEEPALIVE_PAYLOAD@])
}

/// `after` is `before` once `msg` was offered to each subscriber, in order,
/// with outcomes `d`: an accepted offer appended `msg` to that subscriber's
/// accepted events, a refused one left them as they were, and nothing else
/// changed.
pub open spec fn broadcasted(before: Broadcaster, after: Broadcaster, d: Seq<Delivery>, msg: Seq<char>) -> bool {
    &&& delivered_ids(d) == before.ids()
    &&& after.ids() == before.ids()
    &&& after.next() == before.next()
    &&& after.bounds() == before.bounds()
    &&& after.logs().len() == before.logs().len()
    &&& forall|k: int| 0 <= k < d.len() ==> #[trigger] after.logs()[k] == if d[k].accepted {
        before.logs()[k].push(msg)
    } else {
        before.logs()[k]
    }
}

/// `after` is what a sweep of `before` leaves, `probes` the outcome of its
/// probe of each subscriber of `before`, in order: the subscribers that
/// accepted the probe stay, in their order, with the probe appended to
/// their accepted events.
pub open spec fn swept(before: Broadcaster, after: Broadcaster, probes: Seq<Delivery>) -> bool {
    &&& delivered_ids(probes) == before.ids()
    &&& after.ids() == kept(before.ids(), outcomes(probes))
    &&& after.bounds() == kept(before.bounds(), outcomes(probes))
    &&& after.logs() == kept(probed(before.logs()), outcomes(probes))
    &&& after.next() == before.next()
}

impl Broadcaster {
    /// Identifiers of the registered subscribers, in registration order.
    pub closed spec fn ids(&self) -> Seq<u64> {
        ids_of(self.clients@)
    }

    /// Bound of each registered subscriber's queue, in registration order.
    pub closed spec fn bounds(&self) -> Seq<nat> {
        self.clients@.map_values(|c: Subscriber| queue_bound(c.sender))
    }

    /// Events accepted by each registered subscriber's queue, in
    /// registration order.
    pub closed spec fn logs(&self) -> Seq<Seq<Seq<char>>> {
        self.clients@.map_values(|c: Subscriber| accepted_events(c.sender))
    }

    /// The identifier that the next registration will receive.
    pub closed spec fn next(&self) -> u64 {
        self.next_id
    }

    /// Identifiers are distinct, and each was handed out before; there is one
    /// bound and one event log per identifier.
    pub open spec fn wf(&self) -> bool {
        &&& self.ids().no_duplicates()
        &&& forall|i: int| 0 <= i < self.ids().len() ==> self.ids()[i] < self.next()
        &&& self.bounds().len() == self.ids().len()
        &&& self.logs().len() == self.ids().len()
    }

    /// `id` was handed out once and is no longer registered.
    pub open spec fn evicted(&self, id: u64) -> bool {
        id < self.next() && !self.ids().contains(id)
    }

    /// An empty registry.
    pub fn create() -> (r: Broadcaster)
        ensures
            r.wf(),
            r.ids() == Seq::<u64>::empty(),
            r.next() == 0,
    {
        let r = Broadcaster { clients: Vec::new(), next_id: 0 };
        assert(r.ids() =~= Seq::<u64>::empty());
        r
    }

    /// Number of registered subscribers.
    pub fn len(&self) -> (n: usize)
        ensures
            n == self.ids().len(),
    {
        self.clients.len()
    }

    /// Identifiers of the registered subscribers, in registration order.
    pub fn snapshot_ids(&self) -> (r: Vec<u64>)
        ensures
            r@ == self.ids(),
    {
        let mut r: Vec<u64> = Vec::new();
        let mut i: usize = 0;
        while i < self.clients.len()
            invariant
                i <= self.clients.len(),
                r@ == self.ids().take(i as int),
            decreases self.clients.len() - i,
        {
            r.push(self.clients[i].id);
            i = i + 1;
            assert(r@ =~= self.ids().take(i as int));
        }
        assert(r@ =~= self.ids());
        r
    }

    /// Registers a new viewer: opens a queue bounded to `QUEUE_CAPACITY`
    /// events, places one keepalive event on it, and adds its sender under a
    /// fresh identifier, sending nothing to the other subscribers. Returns
    /// the response body that streams the queue to the viewer. When the
    /// keepalive cannot be enqueued the registration is abandoned and
    /// nothing changes.
    pub fn new_client(&mut self) -> (r: Result<
        actix_web_lab::sse::Sse<actix_web_lab::sse::ChannelStream>,
        ConnectionSetupError,
    >)
        requires
            old(self).wf(),
        ensures
            final(self).wf(),
            (r matches Err(e) && e == ConnectionSetupError::IdentifiersExhausted)
                <==> old(self).next() == u64::MAX,
            r is Ok ==> registered(*old(self), *final(self)),
            r is Err ==> *final(self) == *old(self),
    {
        if self.next_id == u64::MAX {
            return Err(ConnectionSetupError::IdentifiersExhausted);
        }
        let (mut tx, rx) = open_channel(QUEUE_CAPACITY);
        if !try_deliver(&mut tx, KEEPALIVE_PAYLOAD) {
            return Err(ConnectionSetupError::KeepaliveRejected);
        }
        let id = self.next_id;
        self.clients.push(Subscriber { id, sender: tx });
        self.next_id = id + 1;
        assert(self.ids() =~= old(self).ids().push(id));
        assert(self.bounds() =~= old(self).bounds().push(QUEUE_CAPACITY as nat));
        assert(self.logs() =~= old(self).logs().push(seq![KEEPALIVE_PAYLOAD@]));
        assert forall|i: int, j: int|
            0 <= i < self.ids().len() && 0 <= j < self.ids().len() && i != j
            implies self.ids()[i] != self.ids()[j] by {
            if i < old(self).ids().len() && j < old(self).ids().len() {
                assert(old(self).ids()[i] == self.ids()[i]);
                assert(old(self).ids()[j] == self.ids()[j]);
            }
        }
        Ok(rx)
    }

    /// Offers `msg` once to every registered subscriber, in registration
    /// order, without waiting on any of them, and to no other queue. A full
    /// queue or a closed transport refuses the offer; nothing is removed here.
    pub fn broadcast(&mut self, msg: &str) -> (r: Vec<Delivery>)
        ensures
            broadcasted(*old(self), *final(self), r@, msg@),
    {
        let mut rest: Vec<Subscriber> = Vec::new();
        std::mem::swap(&mut rest, &mut self.clients);
        let ghost all = rest@;
        let n = rest.len();
        let mut r: Vec<Delivery> = Vec::new();
        let mut i: usize = 0;
        while rest.len() > 0
            invariant
                self.next_id == old(self).next_id,
                all == old(self).clients@,
                i + rest@.len() == all.len(),
                n == all.len(),
                rest@ == all.subrange(i as int, all.len() as int),
                r@.len() == i,
                self.clients@.len() == i,
                forall|k: int| 0 <= k < i ==> {
                    &&& #[trigger] r@[k].id == all[k].id
                    &&& self.clients@[k].id == all[k].id
                    &&& queue_bound(self.clients@[k].sender) == queue_bound(all[k].sender)
                    &&& accepted_events(self.clients@[k].sender) == if r@[k].accepted {
                        accepted_events(all[k].sender).push(msg@)
                    } else {
                        accepted_events(all[k].sender)
                    }
                },
            decreases rest@.len(),
        {
            let mut c = rest.remove(0);
            assert(c == all[i as int]);
            let accepted = try_deliver(&mut c.sender, msg);
            r.push(Delivery { id: c.id, accepted });
            self.clients.push(c);
            i = i + 1;
        }
        assert(delivered_ids(r@) =~= old(self).ids());
        assert(self.ids() =~= old(self).ids());
        assert forall|k: int| 0 <= k < self.clients@.len() implies #[trigger] self.bounds()[k]
            == old(self).bounds()[k] by {
            assert(r@[k].id == all[k].id);
        }
        assert forall|k: int| 0 <= k < self.clients@.len() implies {
            &&& #[trigger] self.logs()[k] == if r@[k].accepted {
                old(self).logs()[k].push(msg@)
            } else {
                old(self).logs()[k]
            }
        } by {
            assert(r@[k].id == all[k].id);
        }
        assert(self.bounds() =~= old(self).bounds());
        r
    }

    /// Probes every registered subscriber once and keeps, in their order,
    /// exactly those that accepted the probe. Returns each subscriber's
    /// probe outcome, in the registry's order before the sweep.
    pub fn remove_stale_clients(&mut self) -> (r: Vec<Delivery>)
        requires
            old(self).wf(),
        ensures
            final(self).wf(),
            swept(*old(self), *final(self), r@),
    {
        let ghost before = self.ids();
        let ghost bounds = self.bounds();
        let ghost logs = probed(self.logs());
        let mut rest: Vec<Subscriber> = Vec::new();
        std::mem::swap(&mut rest, &mut self.clients);
        let ghost all = rest@;
        let n = rest.len();
        let mut r: Vec<Delivery> = Vec::new();
        let mut i: usize = 0;
        while rest.len() > 0
            invariant
                self.next_id == old(self).next_id,
                before == ids_of(all),
                bounds == all.map_values(|c: Subscriber| queue_bound(c.sender)),
                logs == probed(all.map_values(|c: Subscriber| accepted_events(c.sender))),
                i + rest@.len() == all.len(),
                n == all.len(),
                rest@ == all.subrange(i as int, all.len() as int),
                delivered_ids(r@) == before.take(i as int),
                self.ids() == kept(before.take(i as int), outcomes(r@)),
                self.bounds() == kept(bounds.take(i as int), outcomes(r@)),
                self.logs() == kept(logs.take(i as int), outcomes(r@)),
            decreases rest@.len(),
        {
            let mut c = rest.remove(0);
            assert(c == all[i as int]);
            let accepted = try_deliver(&mut c.sender, PROBE_PAYLOAD);
            let ghost prev_r = r@;
            r.push(Delivery { id: c.id, accepted });
            proof {
                assert(before.take(i + 1).drop_last() =~= before.take(i as int));
                assert(bounds.take(i + 1).drop_last() =~= bounds.take(i as int));
                assert(logs.take(i + 1).drop_last() =~= logs.take(i as int));
                assert(outcomes(r@).take(i as int) =~= outcomes(prev_r));
                assert(logs[i as int] == accepted_events(all[i as int].sender).push(PROBE_PAYLOAD@));
            }
            if accepted {
                self.clients.push(c);
            }
            i = i + 1;
            assert(delivered_ids(r@) =~= before.take(i as int));
            assert(self.ids() =~= kept(before.take(i as int), outcomes(r@)));
            assert(self.bounds() =~= kept(bounds.take(i as int), outcomes(r@)));
            assert(self.logs() =~= kept(logs.take(i as int), outcomes(r@)));
        }
        assert(before.take(i as int) =~= before);
        assert(bounds.take(i as int) =~= bounds);
        assert(logs.take(i as int) =~= logs);
        proof {
            let ok = outcomes(r@);
            lemma_kept_sub(before, ok);
            lemma_kept_distinct(before, ok);
            lemma_kept_len(before, bounds, ok);
            lemma_kept_len(before, logs, ok);
            assert forall|k: int| 0 <= k < self.ids().len() implies self.ids()[k] < self.next() by {
                assert(self.ids().contains(self.ids()[k]));
                assert(kept(before, ok).contains(self.ids()[k]));
                assert(before.contains(self.ids()[k]));
                let j = choose|j: int| 0 <= j < before.len() && before[j] == self.ids()[k];
            }
        }
        r
    }
}

/// Keeping by the same outcomes from sequences of equal length keeps
/// sequences of equal length.
pub proof fn lemma_kept_len<A, B>(xs: Seq<A>, ys: Seq<B>, ok: Seq<bool>)
    requires
        xs.len() == ys.len(),
    ensures
        kept(xs, ok).len() == kept(ys, ok).len(),
    decreases xs.len(),
{
    if xs.len() > 0 {
        lemma_kept_len(xs.drop_last(), ys.drop_last(), ok.take(xs.len() - 1));
    }
}

/// The events that subscriber `k` accepted grow, over broadcasts of `msgs`
/// one after another, by exactly those messages, in the order broadcast,
/// when every offer is accepted: `states[j + 1]` is the registry after the
/// broadcast of `msgs[j]` from `states[j]`, with outcomes `rounds[j]`.
pub proof fn lemma_broadcasts_arrive_in_order(
    states: Seq<Broadcaster>,
    msgs: Seq<Seq<char>>,
    rounds: Seq<Seq<Delivery>>,
    k: int,
)
    requires
        states.len() == msgs.len() + 1,
        rounds.len() == msgs.len(),
        states[0].wf(),
        forall|j: int| 0 <= j < msgs.len() ==> #[trigger] broadcasted(states[j], states[j + 1], rounds[j], msgs[j]),
        forall|j: int, m: int| 0 <= j < rounds.len() && 0 <= m < rounds[j].len() ==> #[trigger] rounds[j][m].accepted,
        0 <= k < states[0].ids().len(),
    ensures
        states.last().ids() == states[0].ids(),
        states.last().logs().len() == states[0].logs().len(),
        states.last().logs()[k] == states[0].logs()[k] + msgs,
    decreases msgs.len(),
{
    if msgs.len() == 0 {
        assert(states[0].logs()[k] + msgs =~= states[0].logs()[k]);
    } else {
        let n = msgs.len() - 1;
        let init = states.drop_last();
        assert forall|j: int| 0 <= j < msgs.drop_last().len() implies #[trigger] broadcasted(init[j], init[j + 1], rounds.drop_last()[j], msgs.drop_last()[j]) by {
            assert(broadcasted(states[j], states[j + 1], rounds[j], msgs[j]));
        }
        assert forall|j: int, m: int| 0 <= j < rounds.drop_last().len() && 0 <= m < rounds.drop_last()[j].len()
            implies #[trigger] rounds.drop_last()[j][m].accepted by {
            assert(rounds[j][m].accepted);
        }
        lemma_broadcasts_arrive_in_order(init, msgs.drop_last(), rounds.drop_last(), k);
        assert(init.last() == states[n]);
        assert(broadcasted(states[n], states[n + 1], rounds[n], msgs[n]));
        let d = rounds[n];
        assert(delivered_ids(d).len() == d.len());
        assert(d[k].accepted);
        assert(states.last() == states[n + 1]);
        assert(states[0].logs()[k] + msgs =~= (states[0].logs()[k] + msgs.drop_last()).push(msgs[n]));
    }
}

/// A sweep that every subscriber answers keeps the registry as it was; in
/// particular, registering a subscriber and sweeping while it is still
/// connected evicts nobody.
pub proof fn lemma_no_false_eviction(
    before: Broadcaster,
    joined: Broadcaster,
    after: Broadcaster,
    probes: Seq<Delivery>,
)
    requires
        registered(before, joined),
        swept(joined, after, probes),
        forall|k: int| 0 <= k < probes.len() ==> #[trigger] probes[k].accepted,
    ensures
        after.ids() == joined.ids(),
        after.ids().len() == before.ids().len() + 1,
{
    let ok = outcomes(probes);
    assert(ok.len() == joined.ids().len());
    assert forall|k: int| 0 <= k < ok.len() implies #[trigger] ok[k] by {
        assert(probes[k].accepted);
    }
    lemma_kept_all(joined.ids(), ok);
}

/// Keeping with every outcome `true` keeps everything.
pub proof fn lemma_kept_all(ids: Seq<u64>, ok: Seq<bool>)
    requires
        ok.len() == ids.len(),
        forall|k: int| 0 <= k < ok.len() ==> #[trigger] ok[k],
    ensures
        kept(ids, ok) == ids,
    decreases ids.len(),
{
    if ids.len() > 0 {
        let ok2 = ok.take(ids.len() - 1);
        assert forall|k: int| 0 <= k < ok2.len() implies #[trigger] ok2[k] by {
            assert(ok2[k] == ok[k]);
        }
        lemma_kept_all(ids.drop_last(), ok2);
        assert(ids.drop_last().push(ids.last()) =~= ids);
    }
}

/// A subscriber whose probe fails is evicted by that sweep.
pub proof fn lemma_failed_probe_evicts(
    before: Broadcaster,
    after: Broadcaster,
    probes: Seq<Delivery>,
    k: int,
)
    requires
        before.wf(),
        swept(before, after, probes),
        0 <= k < probes.len(),
        !probes[k].accepted,
    ensures
        after.evicted(probes[k].id),
{
    let ok = outcomes(probes);
    assert(delivered_ids(probes)[k] == probes[k].id);
    assert(ok[k] == probes[k].accepted);
    lemma_kept_drops(before.ids(), ok, k);
}

/// Keeping drops a distinct identifier whose outcome is `false`.
pub proof fn lemma_kept_drops(ids: Seq<u64>, ok: Seq<bool>, k: int)
    requires
        ids.no_duplicates(),
        ok.len() == ids.len(),
        0 <= k < ids.len(),
        !ok[k],
    ensures
        !kept(ids, ok).contains(ids[k]),
    decreases ids.len(),
{
    let n = ids.len() - 1;
    let init = ids.drop_last();
    let ok2 = ok.take(n);
    if k < n {
        assert(init[k] == ids[k]);
        lemma_kept_drops(init, ok2, k);
        if ok[n] {
            assert(ids[n] != ids[k]);
            let rest = kept(init, ok2);
            if rest.push(ids[n]).contains(ids[k]) {
                let j = choose|j: int| 0 <= j < rest.push(ids[n]).len() && rest.push(ids[n])[j] == ids[k];
                if j < rest.len() {
                    assert(rest[j] == ids[k]);
                }
            }
        }
    } else {
        lemma_kept_sub(init, ok2);
        if kept(init, ok2).contains(ids[k]) {
            assert(init.contains(ids[k]));
            let j = choose|j: int| 0 <= j < init.len() && init[j] == ids[k];
            assert(ids[j] == ids[k]);
        }
    }
}

/// Once evicted, an identifier stays out of the registry through any later
/// registration or sweep, and no broadcast addresses it.
pub proof fn lemma_evicted_stays_out(
    before: Broadcaster,
    after: Broadcaster,
    probes: Seq<Delivery>,
    deliveries: Seq<Delivery>,
    id: u64,
)
    requires
        before.evicted(id),
        registered(before, after) || swept(before, after, probes),
        delivered_ids(deliveries) == after.ids(),
    ensures
        after.evicted(id),
        !delivered_ids(deliveries).contains(id),
{
    if registered(before, after) {
        if after.ids().contains(id) {
            let j = choose|j: int| 0 <= j < after.ids().len() && after.ids()[j] == id;
            if j < before.ids().len() {
                assert(before.ids()[j] == id);
            }
        }
    } else {
        lemma_kept_sub(before.ids(), outcomes(probes));
    }
}

/// Every identifier that a sweep keeps was there before it.
pub proof fn lemma_kept_sub(ids: Seq<u64>, ok: Seq<bool>)
    ensures
        forall|x: u64| kept(ids, ok).contains(x) ==> ids.contains(x),
    decreases ids.len(),
{
    if ids.len() > 0 {
        let init = ids.drop_last();
        let rest = kept(init, ok.take(ids.len() - 1));
        lemma_kept_sub(init, ok.take(ids.len() - 1));
        assert forall|x: u64| kept(ids, ok).contains(x) implies ids.contains(x) by {
            if rest.contains(x) {
                assert(init.contains(x));
                let k = choose|k: int| 0 <= k < init.len() && init[k] == x;
                assert(ids[k] == x);
            } else {
                assert(ok[ids.len() - 1]);
                let k = choose|k: int| 0 <= k < rest.push(ids.last()).len() && rest.push(ids.last())[k] == x;
                if k < rest.len() {
                    assert(rest[k] == x);
                }
                assert(ids[ids.len() - 1] == x);
            }
        }
    }
}

/// A sweep of distinct identifiers keeps them distinct.
pub proof fn lemma_kept_distinct(ids: Seq<u64>, ok: Seq<bool>)
    requires
        ids.no_duplicates(),
    ensures
        kept(ids, ok).no_duplicates(),
    decreases ids.len(),
{
    if ids.len() > 0 {
        let init = ids.drop_last();
        assert(init.no_duplicates());
        lemma_kept_distinct(init, ok.take(ids.len() - 1));
        lemma_kept_sub(init, ok.take(ids.len() - 1));
        if !init.contains(ids.last()) {
        } else {
            let k = choose|k: int| 0 <= k < init.len() && init[k] == ids.last();
            assert(ids[k] == ids[ids.len() - 1]);
        }
    }
}

} // verus!
