//! The discrete-event engine: nodes react to a start, to delivered messages and to fired
//! timers; every send and timer they ask for is queued and recorded in the trace.

use crate::idmap::{
    has_key, keys_distinct, lemma_key_index_unique, lemma_store_props, lemma_update_value_props, lookup, store, IdMap,
};
use crate::sim::delay::{DelayModel, NodeId, Tick};
use crate::sim::queue::{EventQueue, Payload, QueueItem};
use crate::sim::rng::node_rng;
use crate::sim::trace::{Trace, TraceEvent, TraceKind};
use rand::rngs::StdRng;
use vstd::prelude::*;

verus! {

/// A simulated participant. The engine calls it at start, on each delivered message and
/// on each fired timer; it answers only through the context it is handed.
pub trait Node: Sized {
    type Message: Clone + std::fmt::Debug;

    /// What the start callback does: `new` is the node after it, and the context `c0` it
    /// was handed became `c1`. A node type states its own; by default nothing is claimed.
    open spec fn start_step(self, new: Self, c0: Ctx<Self::Message>, c1: Ctx<Self::Message>) -> bool {
        true
    }

    /// What the callback for message `msg` from `from` does, in the same terms.
    open spec fn message_step(
        self,
        new: Self,
        c0: Ctx<Self::Message>,
        c1: Ctx<Self::Message>,
        from: NodeId,
        msg: Self::Message,
    ) -> bool {
        true
    }

    /// What the callback for the fired timer `timer` does, in the same terms.
    open spec fn timer_step(self, new: Self, c0: Ctx<Self::Message>, c1: Ctx<Self::Message>, timer: String) -> bool {
        true
    }

    fn id(&self) -> NodeId;

    fn on_start(&mut self, ctx: &mut Ctx<Self::Message>)
        ensures
            old(self).start_step(*final(self), *old(ctx), *final(ctx)),
    ;

    fn on_message(&mut self, ctx: &mut Ctx<Self::Message>, from: NodeId, msg: Self::Message)
        ensures
            old(self).message_step(*final(self), *old(ctx), *final(ctx), from, msg),
    ;

    fn on_timer(&mut self, ctx: &mut Ctx<Self::Message>, timer: String)
        ensures
            old(self).timer_step(*final(self), *old(ctx), *final(ctx), timer),
    ;
}

/// A send or timer request a node makes during a callback.
pub enum Outbound<M> {
    Send { to: NodeId, msg: M },
    Timer { after: Tick, timer: String },
}

/// What a node sees during a callback: who and when it is, its own random stream, and
/// the buffer its requests go into.
pub struct Ctx<M> {
    pub node: NodeId,
    pub tick: Tick,
    rng: StdRng,
    outbound: Vec<Outbound<M>>,
    log: Vec<String>,
}

impl<M> Ctx<M> {
    /// The requests made so far in this callback, in order.
    pub closed spec fn outbox(&self) -> Seq<Outbound<M>> {
        self.outbound@
    }

    /// The node this callback runs at.
    pub closed spec fn spec_node(&self) -> NodeId {
        self.node
    }

    /// The tick this callback runs at.
    pub closed spec fn spec_tick(&self) -> Tick {
        self.tick
    }

    /// The node's random generator, as it stands.
    pub closed spec fn generator(&self) -> StdRng {
        self.rng
    }

    /// The labels logged so far in this callback, in order.
    pub closed spec fn logged(&self) -> Seq<String> {
        self.log@
    }

    pub fn new(node: NodeId, tick: Tick, rng: StdRng) -> (c: Self)
        ensures
            c.spec_node() == node,
            c.spec_tick() == tick,
            c.generator() == rng,
            c.outbox() == Seq::<Outbound<M>>::empty(),
            c.logged() == Seq::<String>::empty(),
    {
        Ctx { node, tick, rng, outbound: Vec::new(), log: Vec::new() }
    }

    pub fn send(&mut self, to: NodeId, msg: M)
        ensures
            final(self).outbox() == old(self).outbox().push(Outbound::Send { to, msg }),
            final(self).logged() == old(self).logged(),
            final(self).spec_node() == old(self).spec_node(),
            final(self).spec_tick() == old(self).spec_tick(),
    {
        self.outbound.push(Outbound::Send { to, msg });
    }

    /// Sends a copy of `msg` to each of `to`, in order.
    pub fn broadcast(&mut self, to: &[NodeId], msg: M) where M: Clone
        ensures
            final(self).outbox().len() == old(self).outbox().len() + to@.len(),
            final(self).outbox().take(old(self).outbox().len() as int) == old(self).outbox(),
            forall|i: int|
                0 <= i < to@.len() ==> match #[trigger] final(self).outbox()[old(self).outbox().len() + i] {
                    Outbound::Send { to: t, msg: m } => t == to@[i] && cloned(msg, m),
                    Outbound::Timer { .. } => false,
                },
            final(self).logged() == old(self).logged(),
            final(self).spec_node() == old(self).spec_node(),
            final(self).spec_tick() == old(self).spec_tick(),
    {
        let mut i: usize = 0;
        while i < to.len()
            invariant
                i <= to@.len(),
                self.outbox().len() == old(self).outbox().len() + i,
                self.outbox().take(old(self).outbox().len() as int) == old(self).outbox(),
                forall|j: int|
                    0 <= j < i ==> match #[trigger] self.outbox()[old(self).outbox().len() + j] {
                        Outbound::Send { to: t, msg: m } => t == to@[j] && cloned(msg, m),
                        Outbound::Timer { .. } => false,
                    },
                self.logged() == old(self).logged(),
                self.spec_node() == old(self).spec_node(),
                self.spec_tick() == old(self).spec_tick(),
            decreases to@.len() - i,
        {
            let copy = msg.clone();
            let ghost before = self.outbox();
            self.send(to[i], copy);
            assert(self.outbox().take(old(self).outbox().len() as int) =~= before.take(
                old(self).outbox().len() as int,
            ));
            i = i + 1;
        }
    }

    pub fn set_timer(&mut self, after: Tick, timer: impl Into<String>)
        ensures
            final(self).outbox().len() == old(self).outbox().len() + 1,
            final(self).outbox().drop_last() == old(self).outbox(),
            final(self).outbox().last() matches Outbound::Timer { after: a, .. } && a == after,
            final(self).logged() == old(self).logged(),
            final(self).spec_node() == old(self).spec_node(),
            final(self).spec_tick() == old(self).spec_tick(),
    {
        self.set_timer_string(after, timer.into());
    }

    /// Asks for timer `timer` to fire `after` ticks from now.
    pub fn set_timer_string(&mut self, after: Tick, timer: String)
        ensures
            final(self).outbox() == old(self).outbox().push(Outbound::Timer { after, timer }),
            final(self).logged() == old(self).logged(),
            final(self).spec_node() == old(self).spec_node(),
            final(self).spec_tick() == old(self).spec_tick(),
    {
        self.outbound.push(Outbound::Timer { after, timer });
    }

    /// The tick this callback runs at.
    pub fn now(&self) -> (t: Tick)
        ensures
            t == self.spec_tick(),
    {
        self.tick
    }

    /// The node this callback runs at.
    pub fn node_id(&self) -> (n: NodeId)
        ensures
            n == self.spec_node(),
    {
        self.node
    }

    /// The node's own deterministic random stream.
    pub fn rng(&mut self) -> (r: &mut StdRng)
        ensures
            *r == old(self).generator(),
            final(self).generator() == *final(r),
            final(self).outbox() == old(self).outbox(),
            final(self).logged() == old(self).logged(),
            final(self).spec_node() == old(self).spec_node(),
            final(self).spec_tick() == old(self).spec_tick(),
    {
        &mut self.rng
    }

    pub fn log(&mut self, label: impl Into<String>)
        ensures
            final(self).outbox() == old(self).outbox(),
            final(self).logged().len() == old(self).logged().len() + 1,
            final(self).logged().drop_last() == old(self).logged(),
            final(self).spec_node() == old(self).spec_node(),
            final(self).spec_tick() == old(self).spec_tick(),
    {
        self.log.push(label.into());
        assert(self.logged().drop_last() =~= old(self).logged());
    }

    fn into_parts(self) -> (r: (Vec<Outbound<M>>, Vec<String>, StdRng))
        ensures
            r.0@ == self.outbox(),
            r.1@ == self.logged(),
            r.2 == self.generator(),
    {
        (self.outbound, self.log, self.rng)
    }
}

/// Calls `format!("{:?}", value)`: the value's `Debug` text, as recorded in the trace.
/// Nothing is stated of the text.
#[verifier::external_body]
fn debug_text<T: std::fmt::Debug>(value: &T) -> String {
    format!("{:?}", value)
}

/// Which callback a node is run for.
pub enum Callback<M> {
    Start,
    Message { from: NodeId, msg: M },
    Timer { timer: String },
}

/// One callback run, as the engine performed it: which node, at which tick, for what;
/// the node before and after; and the context it was handed and left behind.
pub struct CallRecord<N: Node> {
    pub node: NodeId,
    pub tick: Tick,
    pub kind: Callback<N::Message>,
    pub before: N,
    pub after: N,
    pub ctx_before: Ctx<N::Message>,
    pub ctx_after: Ctx<N::Message>,
}

/// The call `r` is a run of the node's callback on a fresh context for its node and tick:
/// the node and context went from `before` to `after` as that callback's step says.
pub open spec fn call_ran<N: Node>(r: CallRecord<N>) -> bool {
    &&& r.ctx_before.spec_node() == r.node
    &&& r.ctx_before.spec_tick() == r.tick
    &&& r.ctx_before.outbox() == Seq::<Outbound<N::Message>>::empty()
    &&& r.ctx_before.logged() == Seq::<String>::empty()
    &&& match r.kind {
        Callback::Start => r.before.start_step(r.after, r.ctx_before, r.ctx_after),
        Callback::Message { from, msg } => r.before.message_step(r.after, r.ctx_before, r.ctx_after, from, msg),
        Callback::Timer { timer } => r.before.timer_step(r.after, r.ctx_before, r.ctx_after, timer),
    }
}

/// `e1` is `e0` followed by what each call of `calls`, in order, left behind: its log lines
/// and then its requests (see `records_callback`).
pub open spec fn calls_recorded<N: Node>(e0: Seq<TraceEvent>, e1: Seq<TraceEvent>, calls: Seq<CallRecord<N>>) -> bool
    decreases calls.len(),
{
    if calls.len() == 0 {
        e1 == e0
    } else {
        exists|mid: Seq<TraceEvent>, seq: u64|
            calls_recorded(e0, mid, calls.drop_last()) && #[trigger] records_callback(
                mid,
                e1,
                calls.last().tick,
                seq,
                calls.last().node,
                calls.last().ctx_after.logged(),
                calls.last().ctx_after.outbox(),
            )
    }
}

/// Trace events are totally ordered: ticks never decrease, sequence numbers strictly
/// increase, and all lie at or before `(tick, seq)`.
pub open spec fn trace_ordered(events: Seq<TraceEvent>, tick: Tick, seq: u64) -> bool {
    &&& forall|i: int, j: int| 0 <= i < j < events.len() ==> events[i].tick <= events[j].tick
    &&& forall|i: int, j: int| 0 <= i < j < events.len() ==> events[i].seq < events[j].seq
    &&& forall|i: int| 0 <= i < events.len() ==> events[i].tick <= tick
    &&& forall|i: int| 0 <= i < events.len() ==> events[i].seq < seq
}

/// `a` is `b` followed by zero or more further events.
pub open spec fn extends(a: Seq<TraceEvent>, b: Seq<TraceEvent>) -> bool {
    a.len() >= b.len() && a.take(b.len() as int) == b
}

/// Inserting an item keeps every item already queued.
proof fn lemma_inserted_keeps<M>(q0: Seq<QueueItem<M>>, q1: Seq<QueueItem<M>>, item: QueueItem<M>)
    requires
        inserted(q0, q1, item),
    ensures
        forall|it: QueueItem<M>| q0.contains(it) ==> #[trigger] q1.contains(it),
        q1.contains(item),
        q1.len() == q0.len() + 1,
{
    let p = choose|p: int| 0 <= p <= q0.len() && q1 == q0.take(p).push(item) + q0.skip(p);
    assert(q1[p] == item);
    assert forall|it: QueueItem<M>| q0.contains(it) implies #[trigger] q1.contains(it) by {
        let i = choose|i: int| 0 <= i < q0.len() && q0[i] == it;
        if i < p {
            assert(q1[i] == it);
        } else {
            assert(q1[i + 1] == it);
        }
    }
}

pub proof fn lemma_extends_trans(a: Seq<TraceEvent>, b: Seq<TraceEvent>, c: Seq<TraceEvent>)
    requires
        extends(a, b),
        extends(b, c),
    ensures
        extends(a, c),
{
    assert(a.take(c.len() as int) =~= b.take(c.len() as int));
}

pub proof fn lemma_extends_refl(a: Seq<TraceEvent>)
    ensures
        extends(a, a),
{
    assert(a.take(a.len() as int) =~= a);
}

/// `node` took the place of the node under an id already present, or joined under a new
/// id at its place in the ascending order.
pub open spec fn placed<N>(old_ids: Seq<NodeId>, old_nodes: Seq<N>, new_ids: Seq<NodeId>, new_nodes: Seq<N>, node: N) -> bool {
    ||| exists|i: int| 0 <= i < old_ids.len() && new_ids == old_ids && #[trigger] old_nodes.update(i, node) == new_nodes
    ||| exists|p: int|
        0 <= p <= old_ids.len() && !old_ids.contains(new_ids[p]) && new_ids == old_ids.insert(p, new_ids[p])
            && #[trigger] old_nodes.insert(p, node) == new_nodes
}

/// `q1` is `q0` with `item` inserted at some position.
pub open spec fn inserted<M>(q0: Seq<QueueItem<M>>, q1: Seq<QueueItem<M>>, item: QueueItem<M>) -> bool {
    exists|p: int| 0 <= p <= q0.len() && q1 == q0.take(p).push(item) + q0.skip(p)
}

/// `e` records, at `(tick, seq)`, the request `o` made by `node`: a send to its
/// destination, or a timer with its label, due `after` ticks later (saturating).
pub open spec fn records_request<M>(e: TraceEvent, tick: Tick, seq: u64, node: NodeId, o: Outbound<M>) -> bool {
    &&& e.tick == tick
    &&& e.seq == seq
    &&& match o {
        Outbound::Send { to, .. } => e.kind matches TraceKind::Send { from: f, to: t, .. } && f == node && t == to,
        Outbound::Timer { after, timer } => e.kind matches TraceKind::TimerSet { node: n, timer: t, fires_at } && n == node
            && t == timer && fires_at == tick.saturating_add(after),
    }
}

/// `e1` is `e0` followed by what a callback of `node` at `(tick, seq0)` leaves behind when
/// sequence numbers do not run out: its log lines `logs` as custom events, then one event
/// per request of `reqs`, in order (each request takes two sequence numbers: one for its
/// record, one for its queued delivery or firing).
pub open spec fn records_callback<M>(
    e0: Seq<TraceEvent>,
    e1: Seq<TraceEvent>,
    tick: Tick,
    seq0: u64,
    node: NodeId,
    logs: Seq<String>,
    reqs: Seq<Outbound<M>>,
) -> bool {
    seq0 + logs.len() + 2 * reqs.len() < u64::MAX ==> {
        &&& e1.len() == e0.len() + logs.len() + reqs.len()
        &&& e1.take(e0.len() as int) == e0
        &&& forall|i: int|
            0 <= i < logs.len() ==> #[trigger] e1[e0.len() + i] == (TraceEvent {
                tick,
                seq: (seq0 + i) as u64,
                kind: TraceKind::Custom { node, label: logs[i] },
            })
        &&& forall|j: int|
            0 <= j < reqs.len() ==> records_request(
                #[trigger] e1[e0.len() + logs.len() + j],
                tick,
                (seq0 + logs.len() + 2 * j) as u64,
                node,
                reqs[j],
            )
    }
}

/// `e` records the processing of the queued `item`: a delivery to its node, or its timer
/// firing, at the item's tick.
pub open spec fn records_item<M>(e: TraceEvent, item: QueueItem<M>) -> bool {
    &&& e.tick == item.tick
    &&& match item.payload {
        Payload::Deliver { from, .. } => e.kind matches TraceKind::Deliver { from: f, to: t, .. } && f == from && t
            == item.node,
        Payload::Timer { timer } => e.kind matches TraceKind::TimerFired { node: n, timer: t } && n == item.node && t
            == timer,
    }
}

/// The call `r` is the node's callback for the queued `item`: the message it delivers, or
/// the timer it fires, at the item's tick.
pub open spec fn calls_for<N: Node>(r: CallRecord<N>, item: QueueItem<N::Message>) -> bool {
    &&& r.node == item.node
    &&& r.tick == item.tick
    &&& match item.payload {
        Payload::Deliver { from, msg } => r.kind == Callback::<N::Message>::Message { from, msg },
        Payload::Timer { timer } => r.kind == Callback::<N::Message>::Timer { timer },
    }
}

/// Some call of `calls` from position `start` on is the callback for `item`.
pub open spec fn item_called<N: Node>(calls: Seq<CallRecord<N>>, start: int, item: QueueItem<N::Message>) -> bool {
    exists|k: int| start <= k < calls.len() && #[trigger] calls_for(calls[k], item)
}

proof fn lemma_calls_cover<N: Node>(
    calls0: Seq<CallRecord<N>>,
    calls1: Seq<CallRecord<N>>,
    start: int,
    q0: Seq<QueueItem<N::Message>>,
    q1: Seq<QueueItem<N::Message>>,
    queue1: Seq<QueueItem<N::Message>>,
    it0: QueueItem<N::Message>,
    pending0: Seq<QueueItem<N::Message>>,
    max_tick: Tick,
    ids: Seq<NodeId>,
)
    requires
        0 <= start <= calls0.len() <= calls1.len(),
        calls1.take(calls0.len() as int) == calls0,
        q0.len() > 0,
        it0 == q0.last(),
        q1 == q0.drop_last(),
        forall|it: QueueItem<N::Message>| q1.contains(it) ==> #[trigger] queue1.contains(it),
        ids.contains(it0.node) ==> calls1.len() > calls0.len() && calls_for(calls1[calls0.len() as int], it0),
        forall|it: QueueItem<N::Message>|
            #[trigger] pending0.contains(it) && it.tick <= max_tick && ids.contains(it.node) ==> q0.contains(it)
                || item_called(calls0, start, it),
    ensures
        forall|it: QueueItem<N::Message>|
            #[trigger] pending0.contains(it) && it.tick <= max_tick && ids.contains(it.node) ==> queue1.contains(it)
                || item_called(calls1, start, it),
{
    assert forall|it: QueueItem<N::Message>| #[trigger] pending0.contains(it) && it.tick <= max_tick && ids.contains(it.node)
        implies queue1.contains(it) || item_called(calls1, start, it) by {
        if item_called(calls0, start, it) {
            let k = choose|k: int| start <= k < calls0.len() && #[trigger] calls_for(calls0[k], it);
            assert(calls1.take(calls0.len() as int)[k] == calls1[k]);
            assert(calls_for(calls1[k], it));
        } else if it == it0 {
            assert(calls_for(calls1[calls0.len() as int], it));
        } else {
            let i = choose|i: int| 0 <= i < q0.len() && q0[i] == it;
            assert(i != q0.len() - 1);
            assert(q1[i] == it);
            assert(q1.contains(it));
        }
    }
}

/// Some event of `events` from position `start` on records the processing of `item`.
pub open spec fn item_recorded<M>(events: Seq<TraceEvent>, start: int, item: QueueItem<M>) -> bool {
    exists|k: int| start <= k < events.len() && records_item(#[trigger] events[k], item)
}

/// The state of node `id` just before call `k` of `calls`, counting from call `lo`: the
/// state the latest call on `id` from `lo` on left it in, or `init` if there is none.
pub open spec fn state_before<N: Node>(calls: Seq<CallRecord<N>>, lo: int, k: int, id: NodeId, init: N) -> N
    decreases k - lo,
{
    if k <= lo {
        init
    } else if calls[k - 1].node == id {
        calls[k - 1].after
    } else {
        state_before(calls, lo, k - 1, id, init)
    }
}

proof fn lemma_state_before_prefix<N: Node>(calls: Seq<CallRecord<N>>, r: CallRecord<N>, lo: int, k: int, id: NodeId, init: N)
    requires
        0 <= lo <= k <= calls.len(),
    ensures
        state_before(calls.push(r), lo, k, id, init) == state_before(calls, lo, k, id, init),
    decreases k - lo,
{
    if k > lo {
        lemma_state_before_prefix(calls, r, lo, k - 1, id, init);
        assert(calls.push(r)[k - 1] == calls[k - 1]);
    }
}

proof fn lemma_calls_chain<N: Node>(
    calls0: Seq<CallRecord<N>>,
    r: CallRecord<N>,
    nodes0: Seq<N>,
    nodes1: Seq<N>,
    ids: Seq<NodeId>,
    init: Seq<N>,
    cstart: int,
    idx: int,
)
    requires
        0 <= cstart <= calls0.len(),
        0 <= idx < ids.len(),
        r.node == ids[idx],
        r.before == nodes0[idx],
        r.after == nodes1[idx],
        nodes0.len() == ids.len(),
        nodes1.len() == ids.len(),
        init.len() == ids.len(),
        forall|j: int| 0 <= j < ids.len() && j != idx ==> #[trigger] nodes1[j] == nodes0[j],
        strictly_ascending(ids),
        forall|m: int| 0 <= m < ids.len() ==> #[trigger] nodes0[m] == state_before(calls0, cstart, calls0.len() as int, ids[m], init[m]),
        forall|k: int, m: int|
            #![trigger calls0[k], ids[m]]
            cstart <= k < calls0.len() && 0 <= m < ids.len() && calls0[k].node == ids[m] ==> calls0[k].before
                == state_before(calls0, cstart, k, ids[m], init[m]),
    ensures
        forall|m: int|
            0 <= m < ids.len() ==> #[trigger] nodes1[m] == state_before(
                calls0.push(r),
                cstart,
                calls0.len() + 1 as int,
                ids[m],
                init[m],
            ),
        forall|k: int, m: int|
            #![trigger calls0.push(r)[k], ids[m]]
            cstart <= k < calls0.len() + 1 && 0 <= m < ids.len() && calls0.push(r)[k].node == ids[m] ==> calls0.push(
                r,
            )[k].before == state_before(calls0.push(r), cstart, k, ids[m], init[m]),
{
    let calls1 = calls0.push(r);
    assert forall|m: int| 0 <= m < ids.len() implies #[trigger] nodes1[m] == state_before(
        calls1,
        cstart,
        calls0.len() + 1 as int,
        ids[m],
        init[m],
    ) by {
        assert(calls1[calls0.len() as int] == r);
        if m != idx {
            assert(ids[m] != ids[idx]) by {
                if m < idx {
                    assert(ids[m] < ids[idx]);
                } else {
                    assert(ids[idx] < ids[m]);
                }
            }
            lemma_state_before_prefix(calls0, r, cstart, calls0.len() as int, ids[m], init[m]);
        }
    }
    assert forall|k: int, m: int|
        #![trigger calls1[k], ids[m]]
        cstart <= k < calls0.len() + 1 && 0 <= m < ids.len() && calls1[k].node == ids[m] implies calls1[k].before
            == state_before(calls1, cstart, k, ids[m], init[m]) by {
        lemma_state_before_prefix(calls0, r, cstart, k, ids[m], init[m]);
        if k < calls0.len() {
            assert(calls1[k] == calls0[k]);
        } else {
            assert(calls1[k] == r);
            assert(m == idx) by {
                if m < idx {
                    assert(ids[m] < ids[idx]);
                } else if m > idx {
                    assert(ids[idx] < ids[m]);
                }
            }
        }
    }
}

/// The call `r` is node `id`'s start callback at `tick`, run on a fresh context holding
/// its generator `rng`: the node went from `before` to `after` as its start step says.
pub open spec fn started<N: Node>(r: CallRecord<N>, id: NodeId, tick: Tick, before: N, after: N, rng: Option<StdRng>) -> bool {
    &&& r.node == id
    &&& r.tick == tick
    &&& r.kind is Start
    &&& r.before == before
    &&& r.after == after
    &&& Some(r.ctx_before.generator()) == rng
    &&& call_ran(r)
}

pub open spec fn strictly_ascending(s: Seq<NodeId>) -> bool {
    forall|i: int, j: int| 0 <= i < j < s.len() ==> s[i] < s[j]
}

pub struct Engine<N: Node> {
    run_seed: u64,
    ids: Vec<NodeId>,
    nodes: Vec<N>,
    node_rngs: Vec<Option<StdRng>>,
    queue: EventQueue<N::Message>,
    delay_model: Box<dyn DelayModel>,
    trace: Trace,
    seq: u64,
    link_seq: IdMap<IdMap<u64>>,
    tick: Tick,
    calls: Ghost<Seq<CallRecord<N>>>,
}

impl<N: Node> Engine<N> {
    /// How many sends the link `from -> to` has carried (the counter wraps).
    spec fn link_count(&self, from: NodeId, to: NodeId) -> u64 {
        match lookup(self.link_seq@, from) {
            Some(m) => match lookup(m@, to) {
                Some(c) => c,
                None => 0,
            },
            None => 0,
        }
    }

    /// The logical clock.
    pub closed spec fn clock(&self) -> Tick {
        self.tick
    }

    /// The next sequence number to be handed out.
    pub closed spec fn next_seq_number(&self) -> u64 {
        self.seq
    }

    /// The events recorded so far.
    pub closed spec fn recorded(&self) -> Seq<TraceEvent> {
        self.trace.events@
    }

    /// The pending events, latest first.
    pub closed spec fn pending(&self) -> Seq<QueueItem<N::Message>> {
        self.queue@
    }

    /// Every callback the engine has run, in order.
    pub closed spec fn calls(&self) -> Seq<CallRecord<N>> {
        self.calls@
    }

    /// The nodes' random generators, in ascending id order.
    pub closed spec fn generators(&self) -> Seq<Option<StdRng>> {
        self.node_rngs@
    }

    /// The nodes, in ascending id order.
    pub closed spec fn node_list(&self) -> Seq<N> {
        self.nodes@
    }

    pub closed spec fn node_id_list(&self) -> Seq<NodeId> {
        self.ids@
    }

    pub closed spec fn inv(&self) -> bool {
        &&& self.queue.wf()
        &&& forall|i: int|
            0 <= i < self.queue@.len() ==> #[trigger] self.queue@[i].tick >= self.tick
                && self.queue@[i].seq < self.seq
        &&& forall|i: int| 0 <= i < self.queue@.len() ==> #[trigger] self.queue@[i].seq < self.seq
        &&& trace_ordered(self.trace.events@, self.tick, self.seq)
        &&& strictly_ascending(self.ids@)
        &&& self.ids@.len() == self.nodes@.len()
        &&& self.ids@.len() == self.node_rngs@.len()
        &&& forall|i: int| 0 <= i < self.node_rngs@.len() ==> #[trigger] self.node_rngs@[i] is Some
    }

    pub fn new(run_seed: u64, delay_model: Box<dyn DelayModel>) -> (e: Self)
        ensures
            e.inv(),
            e.clock() == 0,
            e.recorded() == Seq::<TraceEvent>::empty(),
            e.pending() == Seq::<QueueItem<N::Message>>::empty(),
            e.calls() == Seq::<CallRecord<N>>::empty(),
            e.node_id_list() == Seq::<NodeId>::empty(),
    {
        Engine {
            run_seed,
            ids: Vec::new(),
            nodes: Vec::new(),
            node_rngs: Vec::new(),
            queue: EventQueue::new(),
            delay_model,
            trace: Trace::new(),
            seq: 0,
            link_seq: IdMap::new(),
            tick: 0,
            calls: Ghost(Seq::empty()),
        }
    }

    /// The position of node `id`, if present.
    fn index_of(&self, id: NodeId) -> (r: Option<usize>)
        requires
            self.inv(),
        ensures
            match r {
                Some(i) => i < self.ids@.len() && self.ids@[i as int] == id,
                None => !self.ids@.contains(id),
            },
    {
        let mut i: usize = 0;
        while i < self.ids.len()
            invariant
                i <= self.ids@.len(),
                forall|j: int| 0 <= j < i ==> self.ids@[j] != id,
            decreases self.ids@.len() - i,
        {
            if self.ids[i] == id {
                return Some(i);
            }
            i = i + 1;
        }
        None
    }

    /// Adds a node, replacing any node that has the same id.
    pub fn add_node(&mut self, node: N)
        requires
            old(self).inv(),
        ensures
            final(self).inv(),
            final(self).clock() == old(self).clock(),
            final(self).recorded() == old(self).recorded(),
            final(self).pending() == old(self).pending(),
            forall|k: NodeId| #[trigger] old(self).node_id_list().contains(k) ==> final(self).node_id_list().contains(k),
            final(self).node_id_list().len() <= old(self).node_id_list().len() + 1,
            strictly_ascending(final(self).node_id_list()),
            final(self).node_list().len() == final(self).node_id_list().len(),
            placed(old(self).node_id_list(), old(self).node_list(), final(self).node_id_list(), final(self).node_list(), node),
    {
        let id = node.id();
        let rng = node_rng(self.run_seed, id);
        match self.index_of(id) {
            Some(i) => {
                let ghost placed_node = node;
                self.nodes.set(i, node);
                assert(old(self).node_list().update(i as int, placed_node) == self.node_list());
                self.node_rngs.set(i, Some(rng));
                assert forall|j: int| 0 <= j < self.node_rngs@.len() implies #[trigger] self.node_rngs@[j] is Some by {
                    if j != i {
                        assert(self.node_rngs@[j] == old(self).node_rngs@[j]);
                    }
                }
            },
            None => {
                let mut p: usize = 0;
                while p < self.ids.len() && self.ids[p] < id
                    invariant
                        p <= self.ids@.len(),
                        self.ids@ == old(self).ids@,
                        forall|j: int| 0 <= j < p ==> self.ids@[j] < id,
                    decreases self.ids@.len() - p,
                {
                    p = p + 1;
                }
                let ghost old_ids = self.ids@;
                let ghost old_rngs = self.node_rngs@;
                let ghost placed_node = node;
                self.ids.insert(p, id);
                self.nodes.insert(p, node);
                assert(self.ids@[p as int] == id);
                assert(old(self).node_list().insert(p as int, placed_node) == self.node_list());
                self.node_rngs.insert(p, Some(rng));
                proof {
                    if p < old_ids.len() {
                        assert(old_ids[p as int] != id);
                        assert(old_ids[p as int] > id);
                    }
                    assert forall|a: int, b: int| 0 <= a < b < self.ids@.len() implies self.ids@[a]
                        < self.ids@[b] by {
                        if b < p {
                        } else if a < p && b == p {
                        } else if a < p {
                            assert(self.ids@[b] == old_ids[b - 1]);
                            if p < old_ids.len() {
                                assert(old_ids[p as int] <= old_ids[b - 1]);
                            }
                        } else if a == p {
                            assert(self.ids@[b] == old_ids[b - 1]);
                            assert(old_ids[p as int] <= old_ids[b - 1]);
                        } else {
                            assert(self.ids@[a] == old_ids[a - 1]);
                            assert(self.ids@[b] == old_ids[b - 1]);
                        }
                    }
                    assert forall|j: int| 0 <= j < self.node_rngs@.len() implies #[trigger] self.node_rngs@[j] is Some by {
                        if j < p {
                            assert(self.node_rngs@[j] == old_rngs[j]);
                        } else if j > p {
                            assert(self.node_rngs@[j] == old_rngs[j - 1]);
                        }
                    }
                    assert forall|k: NodeId| #[trigger] old_ids.contains(k) implies self.ids@.contains(k) by {
                        let j = choose|j: int| 0 <= j < old_ids.len() && old_ids[j] == k;
                        if j < p {
                            assert(self.ids@[j] == k);
                        } else {
                            assert(self.ids@[j + 1] == k);
                        }
                    }
                }
            },
        }
    }

    /// One processed item keeps what `run_until` tracks: the events it adds lie at the
    /// item's tick, the first of them records the item, and every item that was pending
    /// before stays pending or has been recorded.
    proof fn lemma_step_recorded(
        &self,
        before: Seq<TraceEvent>,
        mid: Seq<TraceEvent>,
        q0: Seq<QueueItem<N::Message>>,
        q1: Seq<QueueItem<N::Message>>,
        it0: QueueItem<N::Message>,
        start: int,
        max_tick: Tick,
        tick0: Tick,
        pending0: Seq<QueueItem<N::Message>>,
    )
        requires
            0 <= start <= before.len(),
            q0.len() > 0,
            it0 == q0.last(),
            q1 == q0.drop_last(),
            it0.tick <= max_tick,
            tick0 <= it0.tick,
            self.tick == it0.tick,
            mid.len() == before.len() + 1,
            mid.take(before.len() as int) == before,
            records_item(mid[before.len() as int], it0),
            extends(self.trace.events@, mid),
            forall|i: int| mid.len() <= i < self.trace.events@.len() ==> (#[trigger] self.trace.events@[i]).tick == it0.tick,
            forall|it: QueueItem<N::Message>| q1.contains(it) ==> #[trigger] self.queue@.contains(it),
            forall|i: int| start <= i < before.len() ==> tick0 <= #[trigger] before[i].tick <= max_tick,
            forall|it: QueueItem<N::Message>|
                #[trigger] pending0.contains(it) && it.tick <= max_tick ==> q0.contains(it) || item_recorded(before, start, it),
        ensures
            forall|i: int| start <= i < self.trace.events@.len() ==> tick0 <= #[trigger] self.trace.events@[i].tick <= max_tick,
            self.trace.events@.len() > start,
            self.trace.events@.last().tick == it0.tick,
            forall|it: QueueItem<N::Message>|
                #[trigger] pending0.contains(it) && it.tick <= max_tick ==> self.queue@.contains(it) || item_recorded(
                    self.trace.events@,
                    start,
                    it,
                ),
    {
        let ev = self.trace.events@;
        assert(ev.take(mid.len() as int) == mid);
        assert forall|i: int| 0 <= i < mid.len() implies #[trigger] ev[i] == mid[i] by {
            assert(ev.take(mid.len() as int)[i] == ev[i]);
        }
        assert forall|i: int| 0 <= i < before.len() implies #[trigger] mid[i] == before[i] by {
            assert(mid.take(before.len() as int)[i] == mid[i]);
        }
        assert(ev[before.len() as int] == mid[before.len() as int]);
        assert forall|i: int| start <= i < ev.len() implies tick0 <= #[trigger] ev[i].tick <= max_tick by {
            if i < before.len() {
                assert(ev[i] == before[i]);
            } else if i < mid.len() {
                assert(ev[i] == mid[i]);
            }
        }
        if ev.len() > mid.len() {
            assert(ev.last() == ev[ev.len() - 1]);
        } else {
            assert(ev.last() == mid[before.len() as int]);
        }
        assert forall|it: QueueItem<N::Message>| #[trigger] pending0.contains(it) && it.tick <= max_tick implies self.queue@.contains(it)
            || item_recorded(ev, start, it) by {
            if item_recorded(before, start, it) {
                let k = choose|k: int| start <= k < before.len() && records_item(#[trigger] before[k], it);
                assert(ev[k] == before[k]);
                assert(records_item(ev[k], it));
            } else if it == it0 {
                assert(records_item(ev[before.len() as int], it));
            } else {
                let i = choose|i: int| 0 <= i < q0.len() && q0[i] == it;
                assert(i != q0.len() - 1);
                assert(q1[i] == it);
                assert(q1.contains(it));
            }
        }
    }

    /// The trace is totally ordered: ticks never decrease and sequence numbers strictly
    /// increase along it, and no recorded event lies past the clock; every pending event
    /// lies at or after the clock.
    pub proof fn law_trace_is_ordered(&self)
        requires
            self.inv(),
        ensures
            trace_ordered(self.recorded(), self.clock(), self.next_seq_number()),
            forall|i: int| 0 <= i < self.pending().len() ==> #[trigger] self.pending()[i].tick >= self.clock(),
    {
    }

    /// The node ids, ascending.
    pub fn node_ids(&self) -> (r: Vec<NodeId>)
        ensures
            r@ == self.node_id_list(),
    {
        self.ids.clone()
    }

    pub fn trace(&self) -> (t: &Trace)
        ensures
            t.events@ == self.recorded(),
    {
        &self.trace
    }

    pub fn current_tick(&self) -> (t: Tick)
        ensures
            t == self.clock(),
    {
        self.tick
    }

    pub fn node(&self, id: NodeId) -> (r: Option<&N>)
        requires
            self.inv(),
        ensures
            r is Some <==> self.node_id_list().contains(id),
            match r {
                Some(n) => exists|i: int|
                    0 <= i < self.node_id_list().len() && self.node_id_list()[i] == id && *n == #[trigger] self.node_list()[i],
                None => true,
            },
    {
        match self.index_of(id) {
            Some(i) => {
                assert(self.node_list()[i as int] == self.nodes@[i as int]);
                Some(&self.nodes[i])
            },
            None => None,
        }
    }

    /// The nodes, in ascending id order.
    pub fn nodes(&self) -> (r: std::slice::Iter<'_, N>)
        ensures
            vstd::std_specs::iter::IteratorSpec::remaining(&r) == self.node_list().as_ref(),
    {
        broadcast use vstd::std_specs::slice::axiom_spec_slice_iter;

        self.nodes.iter()
    }

    /// Records `kind` at the current tick under a fresh sequence number.
    fn record_now(&mut self, kind: TraceKind)
        requires
            old(self).inv(),
            old(self).seq < u64::MAX,
        ensures
            final(self).inv(),
            final(self).tick == old(self).tick,
            final(self).seq == old(self).seq + 1,
            final(self).trace.events@ == old(self).trace.events@.push(
                TraceEvent { tick: old(self).tick, seq: old(self).seq, kind },
            ),
            extends(final(self).trace.events@, old(self).trace.events@),
            final(self).queue@ == old(self).queue@,
            final(self).ids@ == old(self).ids@,
            final(self).nodes@ == old(self).nodes@,
            final(self).node_rngs@ == old(self).node_rngs@,
            final(self).calls == old(self).calls,
            final(self).link_seq == old(self).link_seq,
    {
        let s = self.seq;
        self.seq = self.seq + 1;
        self.trace.record(self.tick, s, kind);
        assert(self.trace.events@.take(old(self).trace.events@.len() as int) =~= old(self).trace.events@);
    }

    /// The current send count of the link `(from, to)`, which is then advanced.
    fn bump_link_seq(&mut self, from: NodeId, to: NodeId) -> (n: u64)
        requires
            old(self).inv(),
        ensures
            final(self).inv(),
            final(self).tick == old(self).tick,
            final(self).seq == old(self).seq,
            final(self).trace.events@ == old(self).trace.events@,
            final(self).queue@ == old(self).queue@,
            final(self).ids@ == old(self).ids@,
            final(self).nodes@ == old(self).nodes@,
            final(self).node_rngs@ == old(self).node_rngs@,
            final(self).calls == old(self).calls,
            final(self).delay_model == old(self).delay_model,
            final(self).run_seed == old(self).run_seed,
            n == old(self).link_count(from, to),
            final(self).link_count(from, to) == n.wrapping_add(1),
            forall|a: NodeId, b: NodeId|
                (a, b) != (from, to) ==> #[trigger] final(self).link_count(a, b) == old(self).link_count(a, b),
    {
        proof {
            use_type_invariant(&self.link_seq);
        }
        let ghost m0 = self.link_seq@;
        let fresh: IdMap<u64> = IdMap::new();
        let ghost fresh_v = fresh;
        let i = self.link_seq.index_or_insert(from, fresh);
        let ghost m1 = self.link_seq@;
        proof {
            if !has_key(m0, from) {
                lemma_store_props(m0, from, fresh_v);
                assert(store(m0, from, fresh_v) == m1);
            }
            lemma_key_index_unique(m1, from, i as int);
            assert(lookup(m1, from) == Some(m1[i as int].1));
        }
        let mut inner: IdMap<u64> = IdMap::new();
        self.link_seq.swap_value_at(i, &mut inner);
        proof {
            use_type_invariant(&inner);
        }
        let ghost inner0 = inner@;
        let j = inner.index_or_insert(to, 0);
        let ghost inner1 = inner@;
        proof {
            if !has_key(inner0, to) {
                lemma_store_props(inner0, to, 0u64);
                assert(store(inner0, to, 0u64) == inner1);
            }
            lemma_key_index_unique(inner1, to, j as int);
        }
        let n = *inner.value_at(j);
        inner.insert(to, n.wrapping_add(1));
        let ghost inner2 = inner@;
        let ghost inner_final = inner;
        proof {
            lemma_store_props(inner1, to, n.wrapping_add(1));
        }
        self.link_seq.swap_value_at(i, &mut inner);
        proof {
            let m3 = self.link_seq@;
            assert(m3 == m1.update(i as int, (from, inner_final)));
            lemma_update_value_props(m1, i as int, inner_final);
            assert(lookup(m3, from) == Some(inner_final));
            assert(n == old(self).link_count(from, to)) by {
                if has_key(m0, from) {
                    assert(m1 == m0);
                } else {
                    assert(inner0 == fresh_v@);
                    assert(!has_key(inner0, to));
                }
            }
            assert forall|a: NodeId, b: NodeId| (a, b) != (from, to) implies #[trigger] self.link_count(a, b)
                == old(self).link_count(a, b) by {
                if a != from {
                    assert(lookup(m3, a) == lookup(m1, a));
                    if !has_key(m0, from) {
                        assert(lookup(m1, a) == lookup(m0, a));
                    }
                } else {
                    assert(lookup(inner2, b) == lookup(inner1, b));
                    if !has_key(inner0, to) {
                        assert(lookup(inner1, b) == lookup(inner0, b));
                    }
                    if !has_key(m0, from) {
                        assert(inner0 == fresh_v@);
                        assert(!has_key(inner0, b));
                    }
                }
            }
        }
        n
    }

    /// Queues the delivery of `msg` to `to`, after the delay the model gives the link.
    fn enqueue_send(&mut self, from: NodeId, to: NodeId, msg: N::Message)
        requires
            old(self).inv(),
        ensures
            final(self).inv(),
            final(self).tick == old(self).tick,
            final(self).seq >= old(self).seq,
            extends(final(self).trace.events@, old(self).trace.events@),
            final(self).ids@ == old(self).ids@,
            final(self).nodes@ == old(self).nodes@,
            final(self).node_rngs@ == old(self).node_rngs@,
            final(self).calls == old(self).calls,
            forall|it: QueueItem<N::Message>| old(self).queue@.contains(it) ==> #[trigger] final(self).queue@.contains(it),
            old(self).seq >= u64::MAX - 1 ==> final(self).seq == old(self).seq && final(self).trace.events@
                == old(self).trace.events@ && final(self).queue@ == old(self).queue@,
            old(self).seq < u64::MAX - 1 ==> {
                &&& final(self).seq == old(self).seq + 2
                &&& final(self).queue@.len() == old(self).queue@.len() + 1
                &&& final(self).trace.events@ == old(self).trace.events@.push(final(self).trace.events@.last())
                &&& records_request(
                    final(self).trace.events@.last(),
                    old(self).tick,
                    old(self).seq,
                    from,
                    Outbound::Send { to, msg },
                )
                &&& exists|d: u64|
                    old(self).delay_model.admits(old(self).run_seed, from, to, old(self).link_count(from, to), old(self).tick, d)
                        && #[trigger] inserted(
                        old(self).queue@,
                        final(self).queue@,
                        QueueItem {
                            tick: old(self).tick.saturating_add(d),
                            seq: (old(self).seq + 1) as u64,
                            node: to,
                            payload: Payload::Deliver { from, msg },
                        },
                    )
                &&& final(self).link_count(from, to) == old(self).link_count(from, to).wrapping_add(1)
                &&& forall|a: NodeId, b: NodeId|
                    (a, b) != (from, to) ==> #[trigger] final(self).link_count(a, b) == old(self).link_count(a, b)
            },
    {
        proof {
            lemma_extends_refl(self.trace.events@);
        }
        if self.seq >= u64::MAX - 1 {
            return;
        }
        let now = self.tick;
        let n = self.bump_link_seq(from, to);
        let ghost bumped = *self;
        let delay = self.delay_model.delay(self.run_seed, from, to, n, now);
        assert(old(self).delay_model.admits(old(self).run_seed, from, to, old(self).link_count(from, to), old(self).tick, delay));
        let deliver_at = now.saturating_add(delay);
        let text = debug_text(&msg);
        let ghost before = self.trace.events@;
        self.record_now(TraceKind::Send { from, to, msg: text });
        let d = self.seq;
        self.seq = self.seq + 1;
        let ghost q0 = self.queue@;
        let item = QueueItem { tick: deliver_at, seq: d, node: to, payload: Payload::Deliver { from, msg } };
        let ghost it = item;
        self.queue.push(item);
        assert(self.trace.events@.take(before.len() as int) =~= before);
        proof {
            lemma_extends_trans(self.trace.events@, before, old(self).trace.events@);
            lemma_inserted_keeps(q0, self.queue@, it);
            assert(self.link_seq == bumped.link_seq);
            assert forall|a: NodeId, b: NodeId| (a, b) != (from, to) implies #[trigger] self.link_count(a, b)
                == old(self).link_count(a, b) by {
                assert(bumped.link_count(a, b) == old(self).link_count(a, b));
            }
            assert(self.link_count(from, to) == bumped.link_count(from, to));
            assert(it == QueueItem {
                tick: old(self).tick.saturating_add(delay),
                seq: (old(self).seq + 1) as u64,
                node: to,
                payload: Payload::Deliver { from, msg },
            });
            assert(inserted(
                old(self).queue@,
                self.queue@,
                QueueItem {
                    tick: old(self).tick.saturating_add(delay),
                    seq: (old(self).seq + 1) as u64,
                    node: to,
                    payload: Payload::Deliver { from, msg },
                },
            ));
        }
    }

    /// Queues timer `timer` of `node` to fire `after` ticks from now.
    fn enqueue_timer(&mut self, node: NodeId, after: Tick, timer: String)
        requires
            old(self).inv(),
        ensures
            final(self).inv(),
            final(self).tick == old(self).tick,
            final(self).seq >= old(self).seq,
            extends(final(self).trace.events@, old(self).trace.events@),
            final(self).ids@ == old(self).ids@,
            final(self).nodes@ == old(self).nodes@,
            final(self).node_rngs@ == old(self).node_rngs@,
            final(self).calls == old(self).calls,
            forall|it: QueueItem<N::Message>| old(self).queue@.contains(it) ==> #[trigger] final(self).queue@.contains(it),
            old(self).seq >= u64::MAX - 1 ==> final(self).seq == old(self).seq && final(self).trace.events@
                == old(self).trace.events@ && final(self).queue@ == old(self).queue@,
            old(self).seq < u64::MAX - 1 ==> {
                &&& final(self).seq == old(self).seq + 2
                &&& final(self).queue@.len() == old(self).queue@.len() + 1
                &&& final(self).trace.events@ == old(self).trace.events@.push(final(self).trace.events@.last())
                &&& records_request::<N::Message>(
                    final(self).trace.events@.last(),
                    old(self).tick,
                    old(self).seq,
                    node,
                    Outbound::Timer { after, timer },
                )
                &&& inserted(
                    old(self).queue@,
                    final(self).queue@,
                    QueueItem {
                        tick: old(self).tick.saturating_add(after),
                        seq: (old(self).seq + 1) as u64,
                        node,
                        payload: Payload::Timer { timer },
                    },
                )
            },
    {
        proof {
            lemma_extends_refl(self.trace.events@);
        }
        if self.seq >= u64::MAX - 1 {
            return;
        }
        let fires_at = self.tick.saturating_add(after);
        let ghost before = self.trace.events@;
        self.record_now(TraceKind::TimerSet { node, timer: timer.clone(), fires_at });
        let d = self.seq;
        self.seq = self.seq + 1;
        let ghost q0 = self.queue@;
        let item = QueueItem { tick: fires_at, seq: d, node, payload: Payload::Timer { timer } };
        let ghost it = item;
        self.queue.push(item);
        assert(self.trace.events@.take(before.len() as int) =~= before);
        proof {
            lemma_extends_trans(self.trace.events@, before, old(self).trace.events@);
            lemma_inserted_keeps(q0, self.queue@, it);
        }
    }

    /// Runs one callback of the node at position `idx`, then records its log lines and
    /// queues its sends and timers, in the order it made them.
    fn run_callback(&mut self, idx: usize, callback: Callback<N::Message>)
        requires
            old(self).inv(),
            idx < old(self).ids@.len(),
        ensures
            final(self).inv(),
            final(self).tick == old(self).tick,
            final(self).seq >= old(self).seq,
            extends(final(self).trace.events@, old(self).trace.events@),
            final(self).ids@ == old(self).ids@,
            final(self).nodes@.len() == old(self).nodes@.len(),
            forall|j: int| 0 <= j < old(self).nodes@.len() && j != idx ==> #[trigger] final(self).nodes@[j] == old(self).nodes@[j],
            forall|it: QueueItem<N::Message>| old(self).queue@.contains(it) ==> #[trigger] final(self).queue@.contains(it),
            forall|i: int| old(self).trace.events@.len() <= i < final(self).trace.events@.len() ==> (#[trigger] final(self).trace.events@[i]).tick == old(self).tick,
            final(self).calls@ == old(self).calls@.push(final(self).calls@.last()),
            final(self).calls@.last().node == old(self).ids@[idx as int],
            final(self).calls@.last().tick == old(self).tick,
            final(self).calls@.last().kind == callback,
            final(self).calls@.last().before == old(self).nodes@[idx as int],
            final(self).calls@.last().after == final(self).nodes@[idx as int],
            final(self).calls@.last().ctx_before.generator() == old(self).node_rngs@[idx as int]->0,
            call_ran(final(self).calls@.last()),
            final(self).node_rngs@[idx as int] == Some(final(self).calls@.last().ctx_after.generator()),
            forall|j: int| 0 <= j < old(self).node_rngs@.len() && j != idx ==> #[trigger] final(self).node_rngs@[j] == old(self).node_rngs@[j],
            records_callback(
                old(self).trace.events@,
                final(self).trace.events@,
                old(self).tick,
                old(self).seq,
                old(self).ids@[idx as int],
                final(self).calls@.last().ctx_after.logged(),
                final(self).calls@.last().ctx_after.outbox(),
            ),
            old(self).seq + final(self).calls@.last().ctx_after.logged().len() + 2 * final(self).calls@.last().ctx_after.outbox().len()
                < u64::MAX ==> final(self).queue@.len() == old(self).queue@.len() + final(self).calls@.last().ctx_after.outbox().len(),
    {
        let node_id = self.ids[idx];
        let tick = self.tick;
        let ghost n0 = self.nodes@[idx as int];
        let ghost cb = callback;
        let ghost rng0 = self.node_rngs@[idx as int]->0;
        let rng = self.node_rngs[idx].take().unwrap();
        let mut ctx: Ctx<N::Message> = Ctx::new(node_id, tick, rng);
        let ghost c0 = ctx;
        match callback {
            Callback::Start => {
                self.nodes[idx].on_start(&mut ctx);
            },
            Callback::Message { from, msg } => {
                self.nodes[idx].on_message(&mut ctx, from, msg);
            },
            Callback::Timer { timer } => {
                self.nodes[idx].on_timer(&mut ctx, timer);
            },
        }
        let ghost c1 = ctx;
        let ghost rec = CallRecord { node: node_id, tick, kind: cb, before: n0, after: self.nodes@[idx as int], ctx_before: c0, ctx_after: c1 };
        proof {
            assert(call_ran(rec));
        }
        self.calls = Ghost(self.calls@.push(rec));
        let ghost calls1 = self.calls;
        let (outbound, log, rng) = ctx.into_parts();
        self.node_rngs.set(idx, Some(rng));
        let ghost rngs1 = self.node_rngs@;
        proof {
            assert forall|j: int| 0 <= j < self.node_rngs@.len() implies #[trigger] self.node_rngs@[j] is Some by {
                if j != idx {
                    assert(self.node_rngs@[j] == old(self).node_rngs@[j]);
                }
            }
        }
        let ghost start_events = self.trace.events@;
        let ghost logs = log@;
        let ghost reqs = outbound@;
        let ghost seq0 = self.seq;
        let ghost nodes1 = self.nodes@;
        let ghost fits = seq0 + logs.len() + 2 * reqs.len() < u64::MAX;
        proof {
            lemma_extends_refl(start_events);
            assert(nodes1.len() == old(self).nodes@.len());
            assert(reqs.len() == outbound.len());
        }
        let mut k: usize = 0;
        while k < log.len()
            invariant
                self.inv(),
                self.tick == old(self).tick,
                self.seq >= old(self).seq,
                self.ids@ == old(self).ids@,
                self.nodes@ == nodes1,
                self.calls == calls1,
                self.node_rngs@ == rngs1,
                self.queue@ == old(self).queue@,
                extends(self.trace.events@, start_events),
                start_events == old(self).trace.events@,
                seq0 == old(self).seq,
                logs == log@,
                k <= log@.len(),
                fits == (seq0 + logs.len() + 2 * reqs.len() < u64::MAX),
                forall|i: int| start_events.len() <= i < self.trace.events@.len() ==> (#[trigger] self.trace.events@[i]).tick == old(self).tick,
                fits ==> self.seq == seq0 + k && self.trace.events@.len() == start_events.len() + k,
                fits ==> forall|i: int|
                    0 <= i < k ==> #[trigger] self.trace.events@[start_events.len() + i] == (TraceEvent {
                        tick: old(self).tick,
                        seq: (seq0 + i) as u64,
                        kind: TraceKind::Custom { node: node_id, label: logs[i] },
                    }),
            decreases log.len() - k,
        {
            if self.seq < u64::MAX {
                let ghost before = self.trace.events@;
                self.record_now(TraceKind::Custom { node: node_id, label: log[k].clone() });
                proof {
                    lemma_extends_trans(self.trace.events@, before, start_events);
                    assert forall|i: int| 0 <= i < before.len() implies #[trigger] self.trace.events@[i] == before[i] by {
                    }
                }
            }
            k = k + 1;
        }
        let ghost after_logs = self.trace.events@;
        proof {
            lemma_extends_refl(after_logs);
        }
        let mut outbound = outbound;
        let mut j: usize = 0;
        while outbound.len() > 0
            invariant
                self.inv(),
                self.tick == old(self).tick,
                self.seq >= old(self).seq,
                self.ids@ == old(self).ids@,
                self.nodes@ == nodes1,
                self.calls == calls1,
                self.node_rngs@ == rngs1,
                forall|it: QueueItem<N::Message>| old(self).queue@.contains(it) ==> #[trigger] self.queue@.contains(it),
                extends(self.trace.events@, start_events),
                extends(self.trace.events@, after_logs),
                start_events == old(self).trace.events@,
                seq0 == old(self).seq,
                j <= reqs.len(),
                reqs.len() <= usize::MAX,
                outbound@ == reqs.skip(j as int),
                fits == (seq0 + logs.len() + 2 * reqs.len() < u64::MAX),
                forall|i: int| start_events.len() <= i < self.trace.events@.len() ==> (#[trigger] self.trace.events@[i]).tick == old(self).tick,
                fits ==> after_logs.len() == start_events.len() + logs.len(),
                fits ==> self.seq == seq0 + logs.len() + 2 * j && self.trace.events@.len() == after_logs.len() + j,
                fits ==> self.queue@.len() == old(self).queue@.len() + j,
                fits ==> forall|jj: int|
                    0 <= jj < j ==> records_request(
                        #[trigger] self.trace.events@[start_events.len() + logs.len() + jj],
                        old(self).tick,
                        (seq0 + logs.len() + 2 * jj) as u64,
                        node_id,
                        reqs[jj],
                    ),
            decreases outbound@.len(),
        {
            let ob = outbound.remove(0);
            let ghost before = self.trace.events@;
            proof {
                assert(ob == reqs[j as int]);
                assert(outbound@ =~= reqs.skip(j + 1));
            }
            match ob {
                Outbound::Send { to, msg } => {
                    self.enqueue_send(node_id, to, msg);
                },
                Outbound::Timer { after, timer } => {
                    self.enqueue_timer(node_id, after, timer);
                },
            }
            proof {
                lemma_extends_trans(self.trace.events@, before, start_events);
                lemma_extends_trans(self.trace.events@, before, after_logs);
                assert forall|i: int| 0 <= i < before.len() implies #[trigger] self.trace.events@[i] == before[i] by {
                }
            }
            j = j + 1;
        }
        proof {
            if fits {
                assert(self.trace.events@.take(start_events.len() as int) =~= start_events);
                assert forall|i: int| 0 <= i < logs.len() implies #[trigger] self.trace.events@[start_events.len() + i] == (TraceEvent {
                    tick: old(self).tick,
                    seq: (seq0 + i) as u64,
                    kind: TraceKind::Custom { node: node_id, label: logs[i] },
                }) by {
                    assert(self.trace.events@[start_events.len() + i] == after_logs[start_events.len() + i]);
                }
            }
            assert(records_callback(start_events, self.trace.events@, old(self).tick, seq0, node_id, logs, reqs));
        }
    }

    /// Starts every node, in ascending id order, at the current tick.
    pub fn start(&mut self)
        requires
            old(self).inv(),
        ensures
            final(self).inv(),
            final(self).clock() == old(self).clock(),
            extends(final(self).recorded(), old(self).recorded()),
            final(self).node_id_list() == old(self).node_id_list(),
            final(self).node_list().len() == old(self).node_list().len(),
            forall|i: int|
                old(self).recorded().len() <= i < final(self).recorded().len() ==> (#[trigger] final(self).recorded()[i]).tick
                    == old(self).clock(),
            forall|it: QueueItem<N::Message>| old(self).pending().contains(it) ==> #[trigger] final(self).pending().contains(it),
            final(self).calls().len() == old(self).calls().len() + old(self).node_id_list().len(),
            final(self).calls().take(old(self).calls().len() as int) == old(self).calls(),
            forall|i: int|
                0 <= i < old(self).node_id_list().len() ==> #[trigger] started(
                    final(self).calls()[old(self).calls().len() + i],
                    old(self).node_id_list()[i],
                    old(self).clock(),
                    old(self).node_list()[i],
                    final(self).node_list()[i],
                    old(self).generators()[i],
                ),
            calls_recorded(old(self).recorded(), final(self).recorded(), final(self).calls().skip(old(self).calls().len() as int)),
    {
        let mut i: usize = 0;
        let ghost n0 = self.calls@.len();
        proof {
            lemma_extends_refl(self.trace.events@);
            assert(self.calls@.skip(n0 as int) =~= Seq::<CallRecord<N>>::empty());
            assert(self.calls@.take(n0 as int) =~= self.calls@);
        }
        while i < self.ids.len()
            invariant
                self.inv(),
                i <= self.ids@.len(),
                self.ids@ == old(self).ids@,
                self.nodes@.len() == old(self).nodes@.len(),
                self.tick == old(self).tick,
                extends(self.trace.events@, old(self).trace.events@),
                forall|k: int|
                    old(self).trace.events@.len() <= k < self.trace.events@.len() ==> (#[trigger] self.trace.events@[k]).tick
                        == old(self).tick,
                forall|it: QueueItem<N::Message>| old(self).queue@.contains(it) ==> #[trigger] self.queue@.contains(it),
                n0 == old(self).calls@.len(),
                self.calls@.len() == n0 + i,
                self.calls@.take(n0 as int) == old(self).calls@,
                forall|j: int| i <= j < self.nodes@.len() ==> #[trigger] self.nodes@[j] == old(self).nodes@[j],
                forall|j: int| i <= j < self.node_rngs@.len() ==> #[trigger] self.node_rngs@[j] == old(self).node_rngs@[j],
                forall|j: int|
                    0 <= j < i ==> #[trigger] started(
                        self.calls@[n0 + j],
                        old(self).ids@[j],
                        old(self).tick,
                        old(self).nodes@[j],
                        self.nodes@[j],
                        old(self).node_rngs@[j],
                    ),
                calls_recorded(old(self).trace.events@, self.trace.events@, self.calls@.skip(n0 as int)),
            decreases self.ids@.len() - i,
        {
            let ghost before = self.trace.events@;
            let ghost prev = *self;
            self.run_callback(i, Callback::Start);
            proof {
                let rec = self.calls@.last();
                assert(self.calls@.skip(n0 as int).drop_last() =~= prev.calls@.skip(n0 as int));
                assert(self.calls@.skip(n0 as int).last() == rec);
                assert(calls_recorded(old(self).trace.events@, self.trace.events@, self.calls@.skip(n0 as int)));
                assert(self.calls@.take(n0 as int) =~= prev.calls@.take(n0 as int));
                assert forall|j: int| 0 <= j < i + 1 implies #[trigger] started(
                    self.calls@[n0 + j],
                    old(self).ids@[j],
                    old(self).tick,
                    old(self).nodes@[j],
                    self.nodes@[j],
                    old(self).node_rngs@[j],
                ) by {
                    if j < i {
                        assert(self.calls@[n0 + j] == prev.calls@[n0 + j]);
                        assert(self.nodes@[j] == prev.nodes@[j]);
                    }
                }
                lemma_extends_trans(self.trace.events@, before, old(self).trace.events@);
                assert forall|k: int|
                    old(self).trace.events@.len() <= k < self.trace.events@.len() implies (#[trigger] self.trace.events@[k]).tick
                        == old(self).tick by {
                    if k < before.len() {
                        assert(self.trace.events@.take(before.len() as int)[k] == self.trace.events@[k]);
                    }
                }
            }
            i = i + 1;
        }
    }

    /// Processes pending events in (tick, seq) order until none is due at or before
    /// `max_tick`. The clock only moves forward, and the trace only grows.
    pub fn run_until(&mut self, max_tick: Tick)
        requires
            old(self).inv(),
        ensures
            final(self).inv(),
            final(self).clock() >= old(self).clock(),
            final(self).clock() <= old(self).clock() || final(self).clock() <= max_tick,
            extends(final(self).recorded(), old(self).recorded()),
            final(self).pending().len() == 0 || final(self).pending().last().tick > max_tick
                || final(self).next_seq_number() == u64::MAX,
            forall|i: int|
                old(self).recorded().len() <= i < final(self).recorded().len() ==> old(self).clock()
                    <= #[trigger] final(self).recorded()[i].tick <= max_tick,
            final(self).recorded().len() == old(self).recorded().len() ==> final(self).clock() == old(self).clock(),
            final(self).recorded().len() > old(self).recorded().len() ==> final(self).clock()
                == final(self).recorded().last().tick,
            final(self).next_seq_number() < u64::MAX ==> forall|it: QueueItem<N::Message>|
                #[trigger] old(self).pending().contains(it) && it.tick <= max_tick ==> item_recorded(
                    final(self).recorded(),
                    old(self).recorded().len() as int,
                    it,
                ),
            final(self).node_id_list() == old(self).node_id_list(),
            old(self).pending().len() == 0 || old(self).pending().last().tick > max_tick ==> *final(self) == *old(self),
            final(self).calls().len() >= old(self).calls().len(),
            final(self).calls().take(old(self).calls().len() as int) == old(self).calls(),
            forall|k: int|
                old(self).calls().len() <= k < final(self).calls().len() ==> call_ran(#[trigger] final(self).calls()[k])
                    && old(self).clock() <= final(self).calls()[k].tick <= max_tick,
            final(self).next_seq_number() < u64::MAX ==> forall|it: QueueItem<N::Message>|
                #[trigger] old(self).pending().contains(it) && it.tick <= max_tick && old(self).node_id_list().contains(
                    it.node,
                ) ==> item_called(final(self).calls(), old(self).calls().len() as int, it),
            final(self).node_list().len() == old(self).node_list().len(),
            forall|m: int|
                0 <= m < old(self).node_list().len() ==> #[trigger] final(self).node_list()[m] == state_before(
                    final(self).calls(),
                    old(self).calls().len() as int,
                    final(self).calls().len() as int,
                    old(self).node_id_list()[m],
                    old(self).node_list()[m],
                ),
            forall|k: int, m: int|
                #![trigger final(self).calls()[k], old(self).node_id_list()[m]]
                old(self).calls().len() <= k < final(self).calls().len() && 0 <= m < old(self).node_id_list().len()
                    && final(self).calls()[k].node == old(self).node_id_list()[m] ==> final(self).calls()[k].before
                    == state_before(
                    final(self).calls(),
                    old(self).calls().len() as int,
                    k,
                    old(self).node_id_list()[m],
                    old(self).node_list()[m],
                ),
    {
        proof {
            lemma_extends_refl(self.trace.events@);
        }
        let ghost start = self.trace.events@.len() as int;
        let ghost cstart = self.calls@.len() as int;
        proof {
            assert(self.calls@.take(cstart) =~= self.calls@);
        }
        loop
            invariant
                self.inv(),
                self.tick >= old(self).tick,
                self.tick <= old(self).tick || self.tick <= max_tick,
                extends(self.trace.events@, old(self).trace.events@),
                start == old(self).trace.events@.len(),
                forall|i: int|
                    start <= i < self.trace.events@.len() ==> old(self).tick <= #[trigger] self.trace.events@[i].tick
                        <= max_tick,
                self.trace.events@.len() == start ==> self.tick == old(self).tick,
                self.trace.events@.len() > start ==> self.tick == self.trace.events@.last().tick,
                forall|it: QueueItem<N::Message>|
                    #[trigger] old(self).queue@.contains(it) && it.tick <= max_tick ==> self.queue@.contains(it)
                        || item_recorded(self.trace.events@, start, it),
                self.ids@ == old(self).ids@,
                cstart == old(self).calls@.len(),
                old(self).queue@.len() == 0 || old(self).queue@.last().tick > max_tick ==> *self == *old(self),
                self.nodes@.len() == old(self).nodes@.len(),
                forall|m: int|
                    0 <= m < old(self).nodes@.len() ==> #[trigger] self.nodes@[m] == state_before(
                        self.calls@,
                        cstart,
                        self.calls@.len() as int,
                        old(self).ids@[m],
                        old(self).nodes@[m],
                    ),
                forall|k: int, m: int|
                    #![trigger self.calls@[k], old(self).ids@[m]]
                    cstart <= k < self.calls@.len() && 0 <= m < old(self).ids@.len() && self.calls@[k].node
                        == old(self).ids@[m] ==> self.calls@[k].before == state_before(
                        self.calls@,
                        cstart,
                        k,
                        old(self).ids@[m],
                        old(self).nodes@[m],
                    ),
                self.calls@.len() >= cstart,
                self.calls@.take(cstart) == old(self).calls@,
                forall|k: int| cstart <= k < self.calls@.len() ==> call_ran(#[trigger] self.calls@[k])
                    && old(self).tick <= self.calls@[k].tick <= max_tick,
                forall|it: QueueItem<N::Message>|
                    #[trigger] old(self).queue@.contains(it) && it.tick <= max_tick && old(self).ids@.contains(it.node)
                        ==> self.queue@.contains(it) || item_called(self.calls@, cstart, it),
            ensures
                self.inv(),
                self.tick >= old(self).tick,
                self.tick <= old(self).tick || self.tick <= max_tick,
                extends(self.trace.events@, old(self).trace.events@),
                self.queue@.len() == 0 || self.queue@.last().tick > max_tick || self.seq == u64::MAX,
                forall|i: int|
                    start <= i < self.trace.events@.len() ==> old(self).tick <= #[trigger] self.trace.events@[i].tick
                        <= max_tick,
                self.trace.events@.len() == start ==> self.tick == old(self).tick,
                self.trace.events@.len() > start ==> self.tick == self.trace.events@.last().tick,
                forall|it: QueueItem<N::Message>|
                    #[trigger] old(self).queue@.contains(it) && it.tick <= max_tick ==> self.queue@.contains(it)
                        || item_recorded(self.trace.events@, start, it),
                self.ids@ == old(self).ids@,
                cstart == old(self).calls@.len(),
                old(self).queue@.len() == 0 || old(self).queue@.last().tick > max_tick ==> *self == *old(self),
                self.nodes@.len() == old(self).nodes@.len(),
                forall|m: int|
                    0 <= m < old(self).nodes@.len() ==> #[trigger] self.nodes@[m] == state_before(
                        self.calls@,
                        cstart,
                        self.calls@.len() as int,
                        old(self).ids@[m],
                        old(self).nodes@[m],
                    ),
                forall|k: int, m: int|
                    #![trigger self.calls@[k], old(self).ids@[m]]
                    cstart <= k < self.calls@.len() && 0 <= m < old(self).ids@.len() && self.calls@[k].node
                        == old(self).ids@[m] ==> self.calls@[k].before == state_before(
                        self.calls@,
                        cstart,
                        k,
                        old(self).ids@[m],
                        old(self).nodes@[m],
                    ),
                self.calls@.len() >= cstart,
                self.calls@.take(cstart) == old(self).calls@,
                forall|k: int| cstart <= k < self.calls@.len() ==> call_ran(#[trigger] self.calls@[k])
                    && old(self).tick <= self.calls@[k].tick <= max_tick,
                forall|it: QueueItem<N::Message>|
                    #[trigger] old(self).queue@.contains(it) && it.tick <= max_tick && old(self).ids@.contains(it.node)
                        ==> self.queue@.contains(it) || item_called(self.calls@, cstart, it),
            decreases u64::MAX - self.seq,
        {
            match self.queue.peek_tick() {
                None => {
                    break;
                },
                Some(t) => {
                    if t > max_tick {
                        break;
                    }
                },
            }
            if self.seq == u64::MAX {
                break;
            }
            let ghost before = self.trace.events@;
            let ghost calls0 = self.calls@;
            let ghost q0 = self.queue@;
            let item = self.queue.pop_min().unwrap();
            let ghost it0 = item;
            let ghost q1 = self.queue@;
            proof {
                assert(item == q0.last());
                assert forall|i: int| 0 <= i < self.queue@.len() implies #[trigger] self.queue@[i].tick
                    >= item.tick by {
                    assert(self.queue@[i] == q0[i]);
                    assert(crate::sim::queue::item_before(q0[q0.len() - 1], q0[i]));
                }
            }
            self.tick = item.tick;
            match item.payload {
                Payload::Deliver { from, msg } => {
                    let text = debug_text(&msg);
                    self.record_now(TraceKind::Deliver { from, to: item.node, msg: text });
                    let ghost mid = self.trace.events@;
                    proof {
                        lemma_extends_refl(mid);
                    }
                    match self.index_of(item.node) {
                        Some(idx) => {
                            let ghost nodes_pre = self.nodes@;
                            self.run_callback(idx, Callback::Message { from, msg });
                            proof {
                                lemma_extends_trans(self.trace.events@, mid, before);
                                assert(calls_for(self.calls@[calls0.len() as int], it0));
                                lemma_calls_chain(
                                    calls0,
                                    self.calls@.last(),
                                    nodes_pre,
                                    self.nodes@,
                                    old(self).ids@,
                                    old(self).nodes@,
                                    cstart,
                                    idx as int,
                                );
                                assert(self.calls@ == calls0.push(self.calls@.last()));
                            }
                        },
                        None => {},
                    }
                    proof {
                        self.lemma_step_recorded(before, mid, q0, q1, it0, start, max_tick, old(self).tick, old(self).queue@);
                        assert(self.calls@.take(calls0.len() as int) =~= calls0);
                        lemma_calls_cover(calls0, self.calls@, cstart, q0, q1, self.queue@, it0, old(self).queue@, max_tick, old(self).ids@);
                        assert(self.calls@.take(cstart) =~= old(self).calls@);
                        assert forall|k: int| cstart <= k < self.calls@.len() implies call_ran(#[trigger] self.calls@[k])
                            && old(self).tick <= self.calls@[k].tick <= max_tick by {
                            if k < calls0.len() {
                                assert(self.calls@.take(calls0.len() as int)[k] == self.calls@[k]);
                            }
                        }
                    }
                },
                Payload::Timer { timer } => {
                    self.record_now(TraceKind::TimerFired { node: item.node, timer: timer.clone() });
                    let ghost mid = self.trace.events@;
                    proof {
                        lemma_extends_refl(mid);
                    }
                    match self.index_of(item.node) {
                        Some(idx) => {
                            let ghost nodes_pre = self.nodes@;
                            self.run_callback(idx, Callback::Timer { timer });
                            proof {
                                lemma_extends_trans(self.trace.events@, mid, before);
                                assert(calls_for(self.calls@[calls0.len() as int], it0));
                                lemma_calls_chain(
                                    calls0,
                                    self.calls@.last(),
                                    nodes_pre,
                                    self.nodes@,
                                    old(self).ids@,
                                    old(self).nodes@,
                                    cstart,
                                    idx as int,
                                );
                                assert(self.calls@ == calls0.push(self.calls@.last()));
                            }
                        },
                        None => {},
                    }
                    proof {
                        self.lemma_step_recorded(before, mid, q0, q1, it0, start, max_tick, old(self).tick, old(self).queue@);
                        assert(self.calls@.take(calls0.len() as int) =~= calls0);
                        lemma_calls_cover(calls0, self.calls@, cstart, q0, q1, self.queue@, it0, old(self).queue@, max_tick, old(self).ids@);
                        assert(self.calls@.take(cstart) =~= old(self).calls@);
                        assert forall|k: int| cstart <= k < self.calls@.len() implies call_ran(#[trigger] self.calls@[k])
                            && old(self).tick <= self.calls@[k].tick <= max_tick by {
                            if k < calls0.len() {
                                assert(self.calls@.take(calls0.len() as int)[k] == self.calls@[k]);
                            }
                        }
                    }
                },
            }
            proof { lemma_extends_trans(self.trace.events@, before, old(self).trace.events@); }
        }
        proof {
            if self.seq < u64::MAX {
                assert forall|it: QueueItem<N::Message>| #[trigger] old(self).queue@.contains(it) && it.tick <= max_tick
                    implies item_recorded(self.trace.events@, start, it) by {
                    if self.queue@.contains(it) {
                        let q = self.queue@;
                        let i = choose|i: int| 0 <= i < q.len() && q[i] == it;
                        if i < q.len() - 1 {
                            assert(crate::sim::queue::item_before(q[q.len() - 1], q[i]));
                        }
                    }
                }
                assert forall|it: QueueItem<N::Message>| #[trigger] old(self).queue@.contains(it) && it.tick <= max_tick
                    && old(self).ids@.contains(it.node) implies item_called(self.calls@, cstart, it) by {
                    if self.queue@.contains(it) {
                        let q = self.queue@;
                        let i = choose|i: int| 0 <= i < q.len() && q[i] == it;
                        if i < q.len() - 1 {
                            assert(crate::sim::queue::item_before(q[q.len() - 1], q[i]));
                        }
                    }
                }
            }
        }
    }
}

} // verus!
