//! The extreme-pipelining orchestrator (Conductor). One `PipelineValidator` runs a Chorus
//! instance per open slot, all concurrently; the only coupling between slots is the window
//! throttle, a purely local bound on how many slots are underway at once.
//!
//! Slots come in windows of `W`; window 1 opens at genesis, and window `m + 1` opens once
//! every window before `m` has completed and the first `p` slots of window `m` have.

use crate::chorus::timer::{parse_timer_slot, timer_slot};
use crate::chorus::validator::ChorusValidator;
use crate::chorus::{msg_slot, ChorusConfig, ChorusMsg, ProposerBehavior};
use crate::sim::{Ctx, Node, Tick};
use crate::types::{copy_u64s, ProposerId, Slot, ValidatorId};
use std::collections::{HashMap, HashSet};
use vstd::prelude::*;

verus! {

#[derive(Debug, Clone)]
pub struct ConductorConfig {
    pub n: usize,
    pub f: usize,
    pub delta: Tick,
    pub fallback_timeout: Tick,
    /// The block interval.
    pub tau: Tick,
    /// W: slots per window.
    pub window: usize,
    /// p: how many of a window's slots must complete before the next window can open.
    pub threshold: usize,
    pub validators: Vec<ValidatorId>,
}

/// Who proposes in each slot, and how each validator's proposers behave: supplied by
/// whoever sets up the pipeline.
pub trait SlotPlan {
    fn proposers_for_slot(&self, cfg: &ConductorConfig, slot: Slot) -> Vec<ProposerId>;

    fn behavior_for(&self, id: ValidatorId) -> HashMap<ProposerId, ProposerBehavior>;
}

/// The part of a window that must complete before the next one opens: `p`, or the whole
/// window when `p` exceeds it.
pub open spec fn effective_threshold(cfg: ConductorConfig) -> int {
    if cfg.threshold < cfg.window {
        cfg.threshold as int
    } else {
        cfg.window as int
    }
}

/// The most slots a validator ever has underway: `2W - p`.
pub open spec fn outstanding_bound(cfg: ConductorConfig) -> int {
    2 * cfg.window - effective_threshold(cfg)
}

/// `first + offset * tau`, saturating.
pub open spec fn slot_deadline(first: Tick, offset: int, tau: Tick) -> Tick {
    if first + offset * tau <= u64::MAX {
        (first + offset * tau) as Tick
    } else {
        u64::MAX
    }
}

/// The first deadline of the window after one whose first deadline is `first`: one block
/// interval after its last slot's deadline while that is still ahead (an unbroken cadence),
/// else `now` (a lagging validator jumps to the present).
pub open spec fn next_first_deadline(first: Tick, cfg: ConductorConfig, now: Tick) -> Tick {
    let last = slot_deadline(first, cfg.window - 1, cfg.tau);
    if now < last {
        slot_deadline(last, 1, cfg.tau)
    } else {
        now
    }
}

struct SlotRun {
    instance: ChorusValidator,
    completed: bool,
}

/// Everything a pipeline validator learns as it runs.
struct Progress {
    /// Slot `s` runs at index `s - 1`.
    slots: Vec<SlotRun>,
    /// The first deadline of each open window, window `w` at index `w - 1`.
    first_deadlines: Vec<Tick>,
    finalize_log: Vec<(Slot, Tick)>,
    max_outstanding: usize,
}

/// Slot `s` has an entry in `log`.
spec fn in_log(log: Seq<(Slot, Tick)>, s: int) -> bool {
    exists|j: int| 0 <= j < log.len() && (#[trigger] log[j]).0 == s
}

/// How many of the instances have not finalized.
spec fn count_outstanding(s: Seq<SlotRun>) -> nat
    decreases s.len(),
{
    if s.len() == 0 {
        0
    } else {
        count_outstanding(s.drop_last()) + if s.last().instance.spec_finalized() is None {
            1nat
        } else {
            0nat
        }
    }
}

/// How many of the validators `vs` have not finalized.
pub open spec fn unfinalized_count(vs: Seq<ChorusValidator>) -> nat
    decreases vs.len(),
{
    if vs.len() == 0 {
        0
    } else {
        unfinalized_count(vs.drop_last()) + if vs.last().spec_finalized() is None {
            1nat
        } else {
            0nat
        }
    }
}

proof fn lemma_count_outstanding_is_unfinalized(s: Seq<SlotRun>)
    ensures
        count_outstanding(s) == unfinalized_count(s.map_values(|r: SlotRun| r.instance)),
    decreases s.len(),
{
    if s.len() > 0 {
        lemma_count_outstanding_is_unfinalized(s.drop_last());
        assert(s.drop_last().map_values(|r: SlotRun| r.instance) =~= s.map_values(|r: SlotRun| r.instance).drop_last());
    }
}

/// When the first `k` instances have finalized, at most the rest are outstanding.
proof fn lemma_count_outstanding_le(s: Seq<SlotRun>, k: int)
    requires
        0 <= k <= s.len(),
        forall|i: int| 0 <= i < k ==> (#[trigger] s[i]).instance.spec_finalized() is Some,
    ensures
        count_outstanding(s) <= s.len() - k,
    decreases s.len(),
{
    if s.len() > 0 {
        let k2 = if k == s.len() {
            k - 1
        } else {
            k
        };
        assert forall|i: int| 0 <= i < k2 implies (#[trigger] s.drop_last()[i]).instance.spec_finalized() is Some by {
            assert(s.drop_last()[i] == s[i]);
        }
        lemma_count_outstanding_le(s.drop_last(), k2);
    }
}

/// Instances that keep every finalization have no more outstanding.
proof fn lemma_count_outstanding_mono(a: Seq<SlotRun>, b: Seq<SlotRun>)
    requires
        a.len() == b.len(),
        forall|i: int| 0 <= i < a.len() && (#[trigger] a[i]).instance.spec_finalized() is Some
            ==> b[i].instance.spec_finalized() is Some,
    ensures
        count_outstanding(b) <= count_outstanding(a),
    decreases a.len(),
{
    if a.len() > 0 {
        assert forall|i: int| 0 <= i < a.drop_last().len() && (#[trigger] a.drop_last()[i]).instance.spec_finalized() is Some
            implies b.drop_last()[i].instance.spec_finalized() is Some by {
            assert(a.drop_last()[i] == a[i]);
            assert(b.drop_last()[i] == b[i]);
        }
        lemma_count_outstanding_mono(a.drop_last(), b.drop_last());
    }
}

impl Progress {
    spec fn windows(&self) -> int {
        self.first_deadlines@.len() as int
    }

    /// Every slot before `k` (counted from 0) has completed.
    spec fn completed_before(&self, k: int) -> bool {
        forall|i: int| 0 <= i < k && i < self.slots@.len() ==> (#[trigger] self.slots@[i]).completed
    }

    /// What holds of the progress at every step, also while a window is being filled.
    spec fn sound(&self, cfg: ConductorConfig, id: ValidatorId) -> bool {
        let w = cfg.window as int;
        let len = self.slots@.len() as int;
        let log = self.finalize_log@;
        &&& cfg.window >= 1
        &&& forall|i: int|
            0 <= i < len ==> (#[trigger] self.slots@[i]).instance.spec_config().slot == i + 1
                && self.slots@[i].instance.spec_id() == id
        &&& forall|i: int|
            0 <= i < len && (#[trigger] self.slots@[i]).completed ==> self.slots@[i].instance.spec_finalized() is Some
        &&& self.completed_before(len - 2 * w + effective_threshold(cfg))
        &&& count_outstanding(self.slots@) <= self.max_outstanding
        &&& self.max_outstanding <= outstanding_bound(cfg)
        &&& forall|j: int|
            0 <= j < log.len() ==> 1 <= (#[trigger] log[j]).0 <= len && self.slots@[log[j].0 - 1].completed
        &&& forall|j: int, k: int| 0 <= j < k < log.len() ==> (#[trigger] log[j]).0 != (#[trigger] log[k]).0
        &&& forall|i: int| 0 <= i < len && (#[trigger] self.slots@[i]).completed ==> in_log(log, i + 1)
    }

    /// Sound, with every open window filled.
    spec fn ok(&self, cfg: ConductorConfig, id: ValidatorId) -> bool {
        &&& self.sound(cfg, id)
        &&& self.slots@.len() == self.windows() * cfg.window
    }

    fn empty() -> (r: Progress)
        ensures
            r.slots@.len() == 0,
            r.windows() == 0,
            r.finalize_log@.len() == 0,
            r.max_outstanding == 0,
    {
        Progress { slots: Vec::new(), first_deadlines: Vec::new(), finalize_log: Vec::new(), max_outstanding: 0 }
    }

    proof fn lemma_empty_ok(&self, cfg: ConductorConfig, id: ValidatorId)
        requires
            self.slots@.len() == 0,
            self.windows() == 0,
            self.finalize_log@.len() == 0,
            self.max_outstanding == 0,
            cfg.window >= 1,
        ensures
            self.ok(cfg, id),
    {
        assert(count_outstanding(self.slots@) == 0);
    }

    /// The instances underway are at most `2W - p`.
    proof fn lemma_outstanding_bounded(&self, cfg: ConductorConfig)
        requires
            cfg.window >= 1,
            forall|i: int|
                0 <= i < self.slots@.len() && (#[trigger] self.slots@[i]).completed
                    ==> self.slots@[i].instance.spec_finalized() is Some,
            self.completed_before(self.slots@.len() - 2 * cfg.window + effective_threshold(cfg)),
        ensures
            count_outstanding(self.slots@) <= outstanding_bound(cfg),
    {
        let len = self.slots@.len() as int;
        let k = len - 2 * cfg.window + effective_threshold(cfg);
        let k = if k < 0 {
            0
        } else {
            k
        };
        assert forall|i: int| 0 <= i < k implies (#[trigger] self.slots@[i]).instance.spec_finalized() is Some by {
            assert(self.slots@[i].completed);
        }
        lemma_count_outstanding_le(self.slots@, k);
    }

    fn outstanding_now(&self) -> (c: usize)
        ensures
            c == count_outstanding(self.slots@),
    {
        let mut c: usize = 0;
        let mut i: usize = 0;
        while i < self.slots.len()
            invariant
                i <= self.slots@.len(),
                c == count_outstanding(self.slots@.take(i as int)),
                c <= i,
            decreases self.slots@.len() - i,
        {
            assert(self.slots@.take(i as int + 1).drop_last() =~= self.slots@.take(i as int));
            if self.slots[i].instance.finalized_slot().is_none() {
                c = c + 1;
            }
            i = i + 1;
        }
        assert(self.slots@.take(i as int) =~= self.slots@);
        c
    }


    /// Opens the next window, whose first deadline is `first_deadline`: one instance per
    /// slot, each started at once, their deadlines a block interval apart.
    fn open_window(
        &mut self,
        ctx: &mut Ctx<ChorusMsg>,
        id: ValidatorId,
        cfg: &ConductorConfig,
        plan: &dyn SlotPlan,
        muted: bool,
        first_deadline: Tick,
    )
        requires
            old(self).ok(*cfg, id),
            old(self).windows() == 0 || old(self).completed_before(
                (old(self).windows() - 1) * cfg.window + effective_threshold(*cfg),
            ),
            (old(self).windows() + 1) * cfg.window <= usize::MAX,
        ensures
            final(self).ok(*cfg, id),
            final(self).first_deadlines@ == old(self).first_deadlines@.push(first_deadline),
            final(self).slots@.len() == old(self).slots@.len() + cfg.window,
            forall|i: int| 0 <= i < old(self).slots@.len() ==> #[trigger] final(self).slots@[i] == old(self).slots@[i],
            forall|o: int|
                0 <= o < cfg.window ==> #[trigger] fresh_at(final(self).slots@, old(self).slots@.len() + o, first_deadline, o, *cfg, muted),
            final(self).finalize_log@ == old(self).finalize_log@,
            final(self).max_outstanding >= old(self).max_outstanding,
    {
        let base = self.slots.len();
        let ghost m = self.windows();
        let ghost old_slots = self.slots@;
        proof {
            assert((m + 1) * cfg.window == m * cfg.window + cfg.window) by (nonlinear_arith);
            assert(m >= 1 ==> (m + 1) * cfg.window - 2 * cfg.window == (m - 1) * cfg.window) by (nonlinear_arith);
        }
        proof {
            let w = cfg.window as int;
            let p = effective_threshold(*cfg);
            assert forall|i: int| 0 <= i < base + w - 2 * w + p implies (#[trigger] old_slots[i]).completed by {
                if m >= 1 {
                    assert(base + w - 2 * w + p == (m - 1) * w + p) by (nonlinear_arith)
                        requires
                            base == m * w,
                    ;
                    assert(i < base);
                } else {
                    assert(base == 0) by (nonlinear_arith)
                        requires
                            base == m * w,
                            m == 0,
                    ;
                }
            }
        }
        self.first_deadlines.push(first_deadline);
        let mut o: usize = 0;
        while o < cfg.window
            invariant
                o <= cfg.window,
                base == old_slots.len(),
                base + cfg.window <= usize::MAX,
                self.slots@.len() == base + o,
                self.first_deadlines@ == old(self).first_deadlines@.push(first_deadline),
                forall|i: int| 0 <= i < base ==> #[trigger] self.slots@[i] == old_slots[i],
                forall|q: int| 0 <= q < o ==> #[trigger] fresh_at(self.slots@, base + q, first_deadline, q, *cfg, muted),
                self.finalize_log@ == old(self).finalize_log@,
                self.max_outstanding >= old(self).max_outstanding,
                self.sound(*cfg, id),
                forall|i: int|
                    0 <= i < base + cfg.window - 2 * cfg.window + effective_threshold(*cfg) ==> (#[trigger] old_slots[i]).completed,
            decreases cfg.window - o,
        {
            let slot: Slot = (base + o + 1) as Slot;
            let deadline = deadline_at(first_deadline, o, cfg.tau);
            let proposers = plan.proposers_for_slot(cfg, slot);
            let config = ChorusConfig {
                slot,
                deadline,
                delta: cfg.delta,
                fallback_timeout: cfg.fallback_timeout,
                proposers,
                validators: copy_u64s(&cfg.validators),
                n: cfg.n,
                f: cfg.f,
            };
            let mut instance = ChorusValidator::new_instance(id, config, plan.behavior_for(id), muted);
            instance.on_start(ctx);
            let ghost before = self.slots@;
            self.slots.push(SlotRun { instance, completed: false });
            proof {
                assert(self.slots@.drop_last() == before);
                assert(self.slots@[base + o as int] == before.push(SlotRun { instance, completed: false })[base + o as int]);
                assert(fresh_at(self.slots@, base + o, first_deadline, o as int, *cfg, muted));
                assert forall|q: int| 0 <= q < o + 1 implies #[trigger] fresh_at(self.slots@, base + q, first_deadline, q, *cfg, muted) by {
                    if q < o {
                        assert(fresh_at(before, base + q, first_deadline, q, *cfg, muted));
                        assert(self.slots@[base + q] == before[base + q]);
                    }
                }
                assert forall|i: int| 0 <= i < self.slots@.len() implies (#[trigger] self.slots@[i]).instance.spec_config().slot == i + 1
                    && self.slots@[i].instance.spec_id() == id by {
                    if i < before.len() {
                        assert(self.slots@[i] == before[i]);
                    }
                }
                assert forall|i: int| 0 <= i < self.slots@.len() && (#[trigger] self.slots@[i]).completed
                    implies self.slots@[i].instance.spec_finalized() is Some by {
                    assert(self.slots@[i] == before[i]);
                }
                assert(self.completed_before(self.slots@.len() - 2 * cfg.window + effective_threshold(*cfg))) by {
                    assert forall|i: int| 0 <= i < self.slots@.len() - 2 * cfg.window + effective_threshold(*cfg) && i < self.slots@.len()
                        implies (#[trigger] self.slots@[i]).completed by {
                        assert(self.slots@[i] == old_slots[i]);
                    }
                }
                assert forall|j: int| 0 <= j < self.finalize_log@.len() implies self.slots@[(#[trigger] self.finalize_log@[j]).0 - 1].completed by {
                    assert(self.slots@[self.finalize_log@[j].0 - 1] == before[self.finalize_log@[j].0 - 1]);
                }
                assert forall|i: int| 0 <= i < self.slots@.len() && (#[trigger] self.slots@[i]).completed implies in_log(
                    self.finalize_log@,
                    i + 1,
                ) by {
                    assert(before[i] == self.slots@[i]);
                }
            }
            let c = self.outstanding_now();
            proof {
                self.lemma_outstanding_bounded(*cfg);
            }
            if c > self.max_outstanding {
                self.max_outstanding = c;
            }
            o = o + 1;
        }
    }

}

/// Index `i` holds a freshly started instance of slot `i + 1`, at offset `o` of a window
/// whose first deadline is `first`.
spec fn fresh_at(s: Seq<SlotRun>, i: int, first: Tick, o: int, cfg: ConductorConfig, muted: bool) -> bool {
        let r = s[i];
        let c = r.instance.spec_config();
        &&& 0 <= i < s.len()
        &&& !r.completed
        &&& c.slot == i + 1
        &&& c.deadline == slot_deadline(first, o, cfg.tau)
        &&& c.delta == cfg.delta
        &&& c.fallback_timeout == cfg.fallback_timeout
        &&& c.validators@ == cfg.validators@
        &&& c.n == cfg.n
        &&& c.f == cfg.f
        &&& r.instance.spec_muted() == muted
}

impl Progress {
    /// The window after the last open one may open: every window before the last has
    /// completed, and so have the first `p` slots of the last.
    spec fn may_advance(&self, cfg: ConductorConfig) -> bool {
        &&& self.windows() >= 1
        &&& self.completed_before((self.windows() - 1) * cfg.window + effective_threshold(cfg))
    }

    /// One more window still fits in memory.
    spec fn room(&self, cfg: ConductorConfig) -> bool {
        (self.windows() + 1) * cfg.window <= usize::MAX
    }

    /// No window is left that may open.
    spec fn settled(&self, cfg: ConductorConfig) -> bool {
        self.windows() == 0 || !self.may_advance(cfg) || !self.room(cfg)
    }

    fn may_advance_now(&self, cfg: &ConductorConfig, Ghost(id): Ghost<ValidatorId>) -> (r: bool)
        requires
            self.ok(*cfg, id),
            self.windows() >= 1,
        ensures
            r == self.may_advance(*cfg),
    {
        let len = self.slots.len();
        let p = if cfg.threshold < cfg.window {
            cfg.threshold
        } else {
            cfg.window
        };
        proof {
            let m = self.windows();
            assert(len - cfg.window == (m - 1) * cfg.window) by (nonlinear_arith)
                requires
                    len == m * cfg.window,
            ;
            assert(len >= cfg.window) by (nonlinear_arith)
                requires
                    len == m * cfg.window,
                    m >= 1,
            ;
        }
        let k = len - cfg.window + p;
        let mut i: usize = 0;
        while i < k
            invariant
                i <= k,
                k <= len,
                len == self.slots@.len(),
                k == (self.windows() - 1) * cfg.window + effective_threshold(*cfg),
                forall|j: int| 0 <= j < i ==> (#[trigger] self.slots@[j]).completed,
            decreases k - i,
        {
            if !self.slots[i].completed {
                return false;
            }
            i = i + 1;
        }
        true
    }

    /// Opens windows, one after another, for as long as the throttle allows.
    fn maybe_advance(
        &mut self,
        ctx: &mut Ctx<ChorusMsg>,
        id: ValidatorId,
        cfg: &ConductorConfig,
        plan: &dyn SlotPlan,
        muted: bool,
        now: Tick,
    )
        requires
            old(self).ok(*cfg, id),
            old(self).windows() >= 1,
        ensures
            final(self).ok(*cfg, id),
            final(self).settled(*cfg),
            final(self).opened_from(old(self).slots@, old(self).first_deadlines@, *cfg, muted, now),
            final(self).finalize_log@ == old(self).finalize_log@,
            final(self).max_outstanding >= old(self).max_outstanding,
    {
        let ghost start = *self;
        proof {
            self.lemma_opened_from_refl(*cfg, muted, now);
        }
        loop
            invariant
                self.ok(*cfg, id),
                self.windows() >= 1,
                self.opened_from(start.slots@, start.first_deadlines@, *cfg, muted, now),
                self.finalize_log@ == start.finalize_log@,
                self.max_outstanding >= start.max_outstanding,
                start == *old(self),
                start.windows() >= 1,
            decreases usize::MAX - self.slots@.len(),
        {
            let len = self.slots.len();
            if len > usize::MAX - cfg.window {
                proof {
                    assert((self.windows() + 1) * cfg.window == len + cfg.window) by (nonlinear_arith)
                        requires
                            len == self.windows() * cfg.window,
                    ;
                }
                return;
            }
            if !self.may_advance_now(cfg, Ghost(id)) {
                return;
            }
            let m = self.first_deadlines.len();
            let first = self.first_deadlines[m - 1];
            let last = deadline_at(first, cfg.window - 1, cfg.tau);
            let next_first = if now < last {
                deadline_at(last, 1, cfg.tau)
            } else {
                now
            };
            let ghost prev = *self;
            proof {
                assert((self.windows() + 1) * cfg.window == len + cfg.window) by (nonlinear_arith)
                    requires
                        len == self.windows() * cfg.window,
                ;
            }
            self.open_window(ctx, id, cfg, plan, muted, next_first);
            proof {
                self.lemma_opened_step(prev, start.slots@, start.first_deadlines@, *cfg, muted, now);
            }
        }
    }

    /// `self` grew from `start` by whole windows, each opened when the throttle allowed it,
    /// its first deadline following from the one before, its slots freshly started.
    spec fn opened_from(&self, slots0: Seq<SlotRun>, firsts0: Seq<Tick>, cfg: ConductorConfig, muted: bool, now: Tick) -> bool {
        let m0 = firsts0.len() as int;
        let m1 = self.windows();
        let w = cfg.window as int;
        &&& m1 >= m0
        &&& self.first_deadlines@.take(m0) == firsts0
        &&& self.slots@.len() >= slots0.len()
        &&& forall|i: int| 0 <= i < slots0.len() ==> #[trigger] self.slots@[i] == slots0[i]
        &&& forall|k: int| m0 <= k < m1 ==> #[trigger] self.opened_in_turn(k, cfg, now)
        &&& forall|k: int, o: int|
            m0 <= k < m1 && 0 <= o < w ==> #[trigger] fresh_at(
                self.slots@,
                k * w + o,
                self.first_deadlines@[k],
                o,
                cfg,
                muted,
            )
    }

    /// Window `k + 1` (at index `k`) opened when the throttle allowed, its first deadline
    /// following from that of window `k`.
    spec fn opened_in_turn(&self, k: int, cfg: ConductorConfig, now: Tick) -> bool {
        ||| k == 0 && self.first_deadlines@[0] == cfg.delta
        ||| {
            &&& k >= 1
            &&& self.completed_before((k - 1) * cfg.window + effective_threshold(cfg))
            &&& self.first_deadlines@[k] == next_first_deadline(self.first_deadlines@[k - 1], cfg, now)
        }
    }

    /// Window 1, just opened, opened in turn.
    proof fn lemma_opened_first(&self, cfg: ConductorConfig, muted: bool, now: Tick)
        requires
            self.first_deadlines@ == seq![cfg.delta],
            self.slots@.len() == cfg.window,
            forall|o: int| 0 <= o < cfg.window ==> #[trigger] fresh_at(self.slots@, 0 + o, cfg.delta, o, cfg, muted),
        ensures
            self.opened_from(Seq::empty(), Seq::empty(), cfg, muted, now),
    {
        assert(self.first_deadlines@.take(0) =~= Seq::<Tick>::empty());
        assert(self.opened_in_turn(0, cfg, now));
        assert forall|k: int, o: int| 0 <= k < 1 && 0 <= o < cfg.window implies #[trigger] fresh_at(
            self.slots@,
            k * cfg.window + o,
            self.first_deadlines@[k],
            o,
            cfg,
            muted,
        ) by {
            assert(k == 0);
            assert(k * cfg.window == 0);
            assert(fresh_at(self.slots@, 0 + o, cfg.delta, o, cfg, muted));
        }
    }

    /// Growing from `slots0`, `firsts0` to `b`, then from `b` to `self`, is growing from
    /// `slots0`, `firsts0` to `self`.
    proof fn lemma_opened_trans(
        &self,
        b: Progress,
        slots0: Seq<SlotRun>,
        firsts0: Seq<Tick>,
        cfg: ConductorConfig,
        muted: bool,
        now: Tick,
    )
        requires
            b.opened_from(slots0, firsts0, cfg, muted, now),
            self.opened_from(b.slots@, b.first_deadlines@, cfg, muted, now),
            b.slots@.len() == b.windows() * cfg.window,
            cfg.window >= 1,
        ensures
            self.opened_from(slots0, firsts0, cfg, muted, now),
    {
        let m0 = firsts0.len() as int;
        let mb = b.windows();
        let w = cfg.window as int;
        let p = effective_threshold(cfg);
        assert(self.first_deadlines@.take(m0) =~= b.first_deadlines@.take(m0)) by {
            assert forall|k: int| 0 <= k < m0 implies self.first_deadlines@[k] == b.first_deadlines@[k] by {
                assert(self.first_deadlines@.take(mb)[k] == b.first_deadlines@[k]);
            }
        }
        assert forall|k: int| m0 <= k < mb implies #[trigger] self.opened_in_turn(k, cfg, now) by {
            assert(b.opened_in_turn(k, cfg, now));
            assert(self.first_deadlines@.take(mb)[k] == b.first_deadlines@[k]);
            if k >= 1 {
                assert(self.first_deadlines@.take(mb)[k - 1] == b.first_deadlines@[k - 1]);
                assert((k - 1) * w + p <= mb * w) by (nonlinear_arith)
                    requires
                        k < mb,
                        p <= w,
                        w >= 1,
                ;
                assert forall|i: int| 0 <= i < (k - 1) * w + p && i < self.slots@.len() implies (#[trigger] self.slots@[i]).completed by {
                    assert(self.slots@[i] == b.slots@[i]);
                    assert(b.slots@[i].completed);
                }
            }
        }
        assert forall|k: int, o: int| m0 <= k < self.windows() && 0 <= o < w implies #[trigger] fresh_at(
            self.slots@,
            k * w + o,
            self.first_deadlines@[k],
            o,
            cfg,
            muted,
        ) by {
            if k < mb {
                assert(fresh_at(b.slots@, k * w + o, b.first_deadlines@[k], o, cfg, muted));
                assert(k * w + o < mb * w) by (nonlinear_arith)
                    requires
                        0 <= k < mb,
                        0 <= o < w,
                ;
                assert(self.slots@[k * w + o] == b.slots@[k * w + o]);
                assert(self.first_deadlines@.take(mb)[k] == b.first_deadlines@[k]);
            }
        }
    }

    proof fn lemma_opened_from_refl(&self, cfg: ConductorConfig, muted: bool, now: Tick)
        ensures
            self.opened_from(self.slots@, self.first_deadlines@, cfg, muted, now),
    {
        assert(self.first_deadlines@.take(self.windows()) =~= self.first_deadlines@);
    }

    proof fn lemma_opened_step(&self, prev: Progress, slots0: Seq<SlotRun>, firsts0: Seq<Tick>, cfg: ConductorConfig, muted: bool, now: Tick)
        requires
            prev.opened_from(slots0, firsts0, cfg, muted, now),
            prev.slots@.len() == prev.windows() * cfg.window,
            cfg.window >= 1,
            firsts0.len() >= 1,
            prev.may_advance(cfg),
            self.first_deadlines@ == prev.first_deadlines@.push(
                next_first_deadline(prev.first_deadlines@[prev.windows() - 1], cfg, now),
            ),
            self.slots@.len() == prev.slots@.len() + cfg.window,
            forall|i: int| 0 <= i < prev.slots@.len() ==> #[trigger] self.slots@[i] == prev.slots@[i],
            forall|o: int|
                0 <= o < cfg.window ==> #[trigger] fresh_at(
                    self.slots@,
                    prev.slots@.len() + o,
                    next_first_deadline(prev.first_deadlines@[prev.windows() - 1], cfg, now),
                    o,
                    cfg,
                    muted,
                ),
        ensures
            self.opened_from(slots0, firsts0, cfg, muted, now),
    {
        let m0 = firsts0.len() as int;
        let m1 = prev.windows();
        let w = cfg.window as int;
        let p = effective_threshold(cfg);
        assert(self.first_deadlines@.take(m0) =~= prev.first_deadlines@.take(m0));
        assert forall|k: int| m0 <= k < m1 + 1 implies #[trigger] self.opened_in_turn(k, cfg, now) by {
            assert(self.first_deadlines@[k - 1] == prev.first_deadlines@[k - 1]);
            if k < m1 {
                assert(self.first_deadlines@[k] == prev.first_deadlines@[k]);
                assert(prev.opened_in_turn(k, cfg, now));
            }
            assert(prev.completed_before((k - 1) * w + p));
            assert((k - 1) * w + p <= m1 * w) by (nonlinear_arith)
                requires
                    k <= m1,
                    p <= w,
                    w >= 1,
            ;
            assert forall|i: int| 0 <= i < (k - 1) * w + p && i < self.slots@.len() implies (#[trigger] self.slots@[i]).completed by {
                assert(i < prev.slots@.len());
                assert(self.slots@[i] == prev.slots@[i]);
                assert(prev.slots@[i].completed);
            }
            assert(self.completed_before((k - 1) * w + p));
        }
        assert forall|k: int, o: int| m0 <= k < m1 + 1 && 0 <= o < w implies #[trigger] fresh_at(
            self.slots@,
            k * w + o,
            self.first_deadlines@[k],
            o,
            cfg,
            muted,
        ) by {
            if k < m1 {
                assert(fresh_at(prev.slots@, k * w + o, prev.first_deadlines@[k], o, cfg, muted));
                assert(k * w + o < m1 * w) by (nonlinear_arith)
                    requires
                        0 <= k < m1,
                        0 <= o < w,
                ;
                assert(self.slots@[k * w + o] == prev.slots@[k * w + o]);
                assert(self.first_deadlines@[k] == prev.first_deadlines@[k]);
            } else {
                assert(self.first_deadlines@[k] == next_first_deadline(prev.first_deadlines@[prev.windows() - 1], cfg, now));
                assert(k * w + o == prev.slots@.len() + o);
                assert(fresh_at(
                    self.slots@,
                    prev.slots@.len() + o,
                    next_first_deadline(prev.first_deadlines@[prev.windows() - 1], cfg, now),
                    o,
                    cfg,
                    muted,
                ));
            }
        }
    }
}

impl Progress {
    /// What checking slot index `i` for completion leaves, from slots `slots0`, window
    /// deadlines `firsts0`, log `log0` and high-water mark `max0`: when the instance has
    /// finalized and the slot was not yet complete, the slot is marked complete and logged
    /// at `now`, then windows open as the throttle allows; otherwise nothing changes.
    spec fn noted(
        &self,
        slots0: Seq<SlotRun>,
        firsts0: Seq<Tick>,
        log0: Seq<(Slot, Tick)>,
        max0: usize,
        i: int,
        cfg: ConductorConfig,
        muted: bool,
        now: Tick,
    ) -> bool {
        let r = slots0[i];
        if !r.completed && r.instance.spec_finalized() is Some {
            &&& self.finalize_log@ == log0.push(((i + 1) as Slot, now))
            &&& self.opened_from(slots0.update(i, SlotRun { instance: r.instance, completed: true }), firsts0, cfg, muted, now)
            &&& self.settled(cfg)
            &&& self.max_outstanding >= max0
        } else {
            &&& self.slots@ == slots0
            &&& self.first_deadlines@ == firsts0
            &&& self.finalize_log@ == log0
            &&& self.max_outstanding == max0
        }
    }

    /// `self` is `before` after the instance at index `i` took a step and the slot was
    /// checked for completion.
    spec fn routed(&self, before: Progress, i: int, cfg: ConductorConfig, muted: bool, now: Tick) -> bool {
        let inst = self.slots@[i].instance;
        &&& 0 <= i < before.slots@.len()
        &&& before.slots@[i].instance.step_ok(inst)
        &&& self.noted(
            before.slots@.update(i, SlotRun { instance: inst, completed: before.slots@[i].completed }),
            before.first_deadlines@,
            before.finalize_log@,
            before.max_outstanding,
            i,
            cfg,
            muted,
            now,
        )
    }

    fn note_completion(
        &mut self,
        ctx: &mut Ctx<ChorusMsg>,
        id: ValidatorId,
        cfg: &ConductorConfig,
        plan: &dyn SlotPlan,
        muted: bool,
        now: Tick,
        i: usize,
    )
        requires
            old(self).ok(*cfg, id),
            i < old(self).slots@.len(),
        ensures
            final(self).ok(*cfg, id),
            final(self).noted(
                old(self).slots@,
                old(self).first_deadlines@,
                old(self).finalize_log@,
                old(self).max_outstanding,
                i as int,
                *cfg,
                muted,
                now,
            ),
    {
        if self.slots[i].completed {
            return;
        }
        if self.slots[i].instance.finalized_slot().is_none() {
            return;
        }
        let ghost before = *self;
        let len = self.slots.len();
        assert(i + 1 <= len);
        self.slots[i].completed = true;
        let slot: Slot = (i + 1) as Slot;
        self.finalize_log.push((slot, now));
        proof {
            let s0 = before.slots@;
            let s1 = self.slots@;
            assert(s1 == s0.update(i as int, SlotRun { instance: s0[i as int].instance, completed: true }));
            lemma_count_outstanding_mono(s0, s1);
            let log = self.finalize_log@;
            assert forall|j: int| 0 <= j < log.len() implies 1 <= (#[trigger] log[j]).0 <= s1.len() && s1[log[j].0 - 1].completed by {
                if j < log.len() - 1 {
                    assert(log[j] == before.finalize_log@[j]);
                }
            }
            assert forall|j: int, k: int| 0 <= j < k < log.len() implies (#[trigger] log[j]).0 != (#[trigger] log[k]).0 by {
                if k == log.len() - 1 {
                    assert(log[j] == before.finalize_log@[j]);
                    assert(s0[log[j].0 - 1].completed);
                } else {
                    assert(log[j] == before.finalize_log@[j]);
                    assert(log[k] == before.finalize_log@[k]);
                }
            }
            assert forall|x: int| 0 <= x < s1.len() && (#[trigger] s1[x]).completed implies in_log(log, x + 1) by {
                if x == i {
                    assert(log[log.len() - 1].0 == x + 1);
                } else {
                    assert(s0[x].completed);
                    let j = choose|j: int| 0 <= j < before.finalize_log@.len() && (#[trigger] before.finalize_log@[j]).0 == x + 1;
                    assert(log[j] == before.finalize_log@[j]);
                }
            }
            assert(self.completed_before(s1.len() - 2 * cfg.window + effective_threshold(*cfg))) by {
                assert forall|x: int| 0 <= x < s1.len() - 2 * cfg.window + effective_threshold(*cfg) && x < s1.len()
                    implies (#[trigger] s1[x]).completed by {
                    assert(s0[x].completed);
                }
            }
            assert(self.windows() >= 1) by (nonlinear_arith)
                requires
                    self.slots@.len() == self.windows() * cfg.window,
                    self.slots@.len() >= 1,
            ;
        }
        self.maybe_advance(ctx, id, cfg, plan, muted, now);
    }

    /// After the instance at index `i` took a step that kept its decisions, the progress is
    /// still sound.
    proof fn lemma_step_keeps_ok(&self, before: Progress, i: int, cfg: ConductorConfig, id: ValidatorId)
        requires
            before.ok(cfg, id),
            0 <= i < before.slots@.len(),
            before.slots@[i].instance.step_ok(self.slots@[i].instance),
            self.slots@ == before.slots@.update(
                i,
                SlotRun { instance: self.slots@[i].instance, completed: before.slots@[i].completed },
            ),
            self.first_deadlines@ == before.first_deadlines@,
            self.finalize_log@ == before.finalize_log@,
            self.max_outstanding == before.max_outstanding,
        ensures
            self.ok(cfg, id),
    {
        let s0 = before.slots@;
        let s1 = self.slots@;
        assert forall|x: int| 0 <= x < s0.len() && (#[trigger] s0[x]).instance.spec_finalized() is Some
            implies s1[x].instance.spec_finalized() is Some by {
            if x == i {
                assert(s0[i].instance.keeps_decisions(s1[i].instance));
            }
        }
        lemma_count_outstanding_mono(s0, s1);
        assert forall|x: int| 0 <= x < s1.len() implies (#[trigger] s1[x]).instance.spec_config().slot == x + 1
            && s1[x].instance.spec_id() == id by {
            if x == i {
                assert(s0[i].instance.keeps_decisions(s1[i].instance));
            }
        }
        assert forall|x: int| 0 <= x < s1.len() && (#[trigger] s1[x]).completed implies s1[x].instance.spec_finalized() is Some by {
            assert(s0[x].completed);
        }
        assert(self.completed_before(s1.len() - 2 * cfg.window + effective_threshold(cfg))) by {
            assert forall|x: int| 0 <= x < s1.len() - 2 * cfg.window + effective_threshold(cfg) && x < s1.len()
                implies (#[trigger] s1[x]).completed by {
                assert(s0[x].completed);
            }
        }
        let log = self.finalize_log@;
        assert forall|j: int| 0 <= j < log.len() implies 1 <= (#[trigger] log[j]).0 <= s1.len() && s1[log[j].0 - 1].completed by {
            assert(s0[log[j].0 - 1].completed);
        }
        assert forall|x: int| 0 <= x < s1.len() && (#[trigger] s1[x]).completed implies in_log(log, x + 1) by {
            assert(s0[x].completed);
        }
    }

    /// Hands `msg` to the instance of its slot, if that slot is open, and checks the slot
    /// for completion; a message for any other slot is dropped.
    fn deliver_message(
        &mut self,
        ctx: &mut Ctx<ChorusMsg>,
        id: ValidatorId,
        cfg: &ConductorConfig,
        plan: &dyn SlotPlan,
        muted: bool,
        now: Tick,
        from: ValidatorId,
        msg: ChorusMsg,
    )
        requires
            old(self).ok(*cfg, id),
        ensures
            final(self).ok(*cfg, id),
            1 <= msg_slot(msg) <= old(self).slots@.len() ==> final(self).routed(
                *old(self),
                msg_slot(msg) - 1,
                *cfg,
                muted,
                now,
            ),
            !(1 <= msg_slot(msg) <= old(self).slots@.len()) ==> *final(self) == *old(self),
            1 <= msg_slot(msg) <= old(self).slots@.len() ==> exists|c: Ctx<ChorusMsg>|
                #[trigger] old(self).slots@[msg_slot(msg) - 1].instance.message_step(
                    final(self).slots@[msg_slot(msg) - 1].instance,
                    *old(ctx),
                    c,
                    from,
                    msg,
                ),
    {
        let slot = msg.slot();
        if slot == 0 || slot > self.slots.len() as u64 {
            return;
        }
        let i = (slot - 1) as usize;
        let ghost before = *self;
        let ghost m = msg;
        self.slots[i].instance.on_message(ctx, from, msg);
        let ghost cmid = *ctx;
        proof {
            assert(self.slots@ =~= before.slots@.update(
                i as int,
                SlotRun { instance: self.slots@[i as int].instance, completed: before.slots@[i as int].completed },
            ));
            self.lemma_step_keeps_ok(before, i as int, *cfg, id);
        }
        let ghost mid = *self;
        self.note_completion(ctx, id, cfg, plan, muted, now, i);
        proof {
            assert(mid.slots@[i as int].instance == self.slots@[i as int].instance) by {
                let r = mid.slots@[i as int];
                if !r.completed && r.instance.spec_finalized() is Some {
                    let s = mid.slots@.update(i as int, SlotRun { instance: r.instance, completed: true });
                    assert(self.slots@[i as int] == s[i as int]);
                }
            }
            assert(before.slots@[i as int].instance.message_step(self.slots@[i as int].instance, *old(ctx), cmid, from, m));
        }
    }
}

/// `first + offset * tau`, saturating.
fn deadline_at(first: Tick, offset: usize, tau: Tick) -> (d: Tick)
    ensures
        d == slot_deadline(first, offset as int, tau),
{
    let step = match (offset as u64).checked_mul(tau) {
        Some(x) => x,
        None => u64::MAX,
    };
    first.saturating_add(step)
}

impl Progress {
    /// Hands a fired timer to the instance of the slot its label names, if that slot is
    /// open, and checks the slot for completion; any other timer is dropped.
    fn deliver_timer(
        &mut self,
        ctx: &mut Ctx<ChorusMsg>,
        id: ValidatorId,
        cfg: &ConductorConfig,
        plan: &dyn SlotPlan,
        muted: bool,
        now: Tick,
        timer: String,
    )
        requires
            old(self).ok(*cfg, id),
        ensures
            final(self).ok(*cfg, id),
            match parse_timer_slot(timer@) {
                Some(s) => 1 <= s <= old(self).slots@.len() ==> final(self).routed(*old(self), s - 1, *cfg, muted, now),
                None => true,
            },
            match parse_timer_slot(timer@) {
                Some(s) => !(1 <= s <= old(self).slots@.len()),
                None => true,
            } ==> *final(self) == *old(self),
            match parse_timer_slot(timer@) {
                Some(s) => 1 <= s <= old(self).slots@.len() ==> exists|c: Ctx<ChorusMsg>|
                    #[trigger] old(self).slots@[s - 1].instance.timer_step(final(self).slots@[s - 1].instance, *old(ctx), c, timer),
                None => true,
            },
    {
        let slot = match timer_slot(timer.as_str()) {
            Some(s) => s,
            None => {
                return;
            },
        };
        if slot == 0 || slot > self.slots.len() as u64 {
            return;
        }
        let i = (slot - 1) as usize;
        let ghost before = *self;
        let ghost t = timer;
        self.slots[i].instance.on_timer(ctx, timer);
        let ghost cmid = *ctx;
        proof {
            assert(self.slots@ =~= before.slots@.update(
                i as int,
                SlotRun { instance: self.slots@[i as int].instance, completed: before.slots@[i as int].completed },
            ));
            self.lemma_step_keeps_ok(before, i as int, *cfg, id);
        }
        let ghost mid = *self;
        self.note_completion(ctx, id, cfg, plan, muted, now, i);
        proof {
            assert(mid.slots@[i as int].instance == self.slots@[i as int].instance) by {
                let r = mid.slots@[i as int];
                if !r.completed && r.instance.spec_finalized() is Some {
                    let s = mid.slots@.update(i as int, SlotRun { instance: r.instance, completed: true });
                    assert(self.slots@[i as int] == s[i as int]);
                }
            }
            assert(before.slots@[i as int].instance.timer_step(self.slots@[i as int].instance, *old(ctx), cmid, t));
        }
    }
}

/// A validator running the whole pipeline: one Chorus instance per open slot.
pub struct PipelineValidator {
    id: ValidatorId,
    cfg: ConductorConfig,
    plan: Box<dyn SlotPlan>,
    muted: HashSet<ValidatorId>,
    progress: Progress,
}

impl PipelineValidator {
    #[verifier::type_invariant]
    spec fn inv(&self) -> bool {
        self.progress.ok(self.cfg, self.id)
    }

    pub closed spec fn spec_id(&self) -> ValidatorId {
        self.id
    }

    pub closed spec fn spec_cfg(&self) -> ConductorConfig {
        self.cfg
    }

    /// The validators that go silent.
    pub closed spec fn spec_muted(&self) -> Set<ValidatorId> {
        self.muted@
    }

    /// How many windows are open.
    pub closed spec fn windows_open(&self) -> nat {
        self.progress.first_deadlines@.len()
    }

    /// How many slots are open: slots `1..=slot_count()`.
    pub closed spec fn slot_count(&self) -> nat {
        self.progress.slots@.len()
    }

    /// The instance of open slot `s`.
    pub closed spec fn instance(&self, s: int) -> ChorusValidator {
        self.progress.slots@[s - 1].instance
    }

    /// Slot `s` is open and its finalization has been observed.
    pub closed spec fn completed(&self, s: int) -> bool {
        1 <= s <= self.progress.slots@.len() && self.progress.slots@[s - 1].completed
    }

    /// The first deadline of open window `w`.
    pub closed spec fn first_deadline(&self, w: int) -> Tick {
        self.progress.first_deadlines@[w - 1]
    }

    /// Each completed slot with the tick its finalization was observed at, in order.
    pub closed spec fn log(&self) -> Seq<(Slot, Tick)> {
        self.progress.finalize_log@
    }

    /// The most instances ever underway at once.
    pub closed spec fn spec_max_outstanding(&self) -> usize {
        self.progress.max_outstanding
    }

    /// How many open instances have not finalized.
    pub closed spec fn outstanding(&self) -> nat {
        count_outstanding(self.progress.slots@)
    }

    /// The instances of the open slots, in slot order.
    pub closed spec fn instances(&self) -> Seq<ChorusValidator> {
        self.progress.slots@.map_values(|r: SlotRun| r.instance)
    }

    /// What `outstanding` counts: the open slots whose instance has not finalized.
    pub proof fn lemma_outstanding_counts_unfinalized(&self)
        ensures
            self.outstanding() == unfinalized_count(self.instances()),
            self.instances().len() == self.slot_count(),
            forall|s: int| 1 <= s <= self.slot_count() ==> #[trigger] self.instances()[s - 1] == self.instance(s),
    {
        lemma_count_outstanding_is_unfinalized(self.progress.slots@);
    }

    /// The window after window `w` may open: every window before `w` has completed, and so
    /// have the first `p` slots of `w`.
    pub open spec fn may_open_after(&self, w: int) -> bool {
        &&& w >= 1
        &&& forall|s: int|
            1 <= s <= (w - 1) * self.spec_cfg().window + effective_threshold(self.spec_cfg()) ==> #[trigger] self.completed(s)
    }

    /// One more window after window `w` still fits in memory.
    pub open spec fn room_after(&self, w: int) -> bool {
        (w + 1) * self.spec_cfg().window <= usize::MAX
    }

    /// No window is left that may open.
    pub open spec fn settled(&self) -> bool {
        self.windows_open() == 0 || !self.may_open_after(self.windows_open() as int) || !self.room_after(
            self.windows_open() as int,
        )
    }

    /// Slot `s`, at offset `o` of a window whose first deadline is `first`, runs a fresh
    /// instance of this validator with the pipeline's parameters, not yet completed.
    pub open spec fn fresh_slot(&self, s: int, first: Tick, o: int) -> bool {
        let c = self.instance(s).spec_config();
        let cfg = self.spec_cfg();
        &&& 1 <= s <= self.slot_count()
        &&& !self.completed(s)
        &&& self.instance(s).spec_id() == self.spec_id()
        &&& self.instance(s).spec_muted() == self.spec_muted().contains(self.spec_id())
        &&& c.slot == s
        &&& c.deadline == slot_deadline(first, o, cfg.tau)
        &&& c.delta == cfg.delta
        &&& c.fallback_timeout == cfg.fallback_timeout
        &&& c.validators@ == cfg.validators@
        &&& c.n == cfg.n
        &&& c.f == cfg.f
    }

    /// `self` grew from `before` by whole windows, each opened when the throttle allowed it
    /// (evaluated on what `self` has completed), with its first deadline following from the
    /// previous window's at `now`, and its slots freshly started.
    pub open spec fn opened_since(&self, before: Self, now: Tick) -> bool {
        let w = self.spec_cfg().window as int;
        &&& self.windows_open() >= before.windows_open()
        &&& self.slot_count() >= before.slot_count()
        &&& forall|k: int| 1 <= k <= before.windows_open() ==> #[trigger] self.first_deadline(k) == before.first_deadline(k)
        &&& forall|k: int| before.windows_open() < k <= self.windows_open() ==> #[trigger] self.opened_in_turn(k, now)
        &&& forall|k: int, o: int|
            before.windows_open() < k <= self.windows_open() && 0 <= o < w ==> #[trigger] self.fresh_slot(
                (k - 1) * w + o + 1,
                self.first_deadline(k),
                o,
            )
    }

    /// Window `k` opened in turn: window 1 with its first deadline at `delta`, any later
    /// one once the throttle allowed it, its first deadline following from the previous
    /// window's at `now`.
    pub open spec fn opened_in_turn(&self, k: int, now: Tick) -> bool {
        &&& k >= 1
        &&& k == 1 ==> self.first_deadline(1) == self.spec_cfg().delta
        &&& k >= 2 ==> self.may_open_after(k - 1) && self.first_deadline(k) == next_first_deadline(
            self.first_deadline(k - 1),
            self.spec_cfg(),
            now,
        )
    }

    /// A window never opens with its first deadline in the past. A validator that sees the
    /// completion unblocking window `k` at or after the deadline of window `k - 1`'s last
    /// slot (a lagging one) starts window `k` at that very tick; one still ahead of that
    /// deadline keeps the cadence unbroken, one block interval after it.
    pub proof fn law_window_deadline_not_in_past(&self, k: int, now: Tick)
        requires
            k >= 2,
            self.opened_in_turn(k, now),
        ensures
            self.first_deadline(k) >= now,
            now >= slot_deadline(self.first_deadline(k - 1), self.spec_cfg().window - 1, self.spec_cfg().tau)
                ==> self.first_deadline(k) == now,
            now < slot_deadline(self.first_deadline(k - 1), self.spec_cfg().window - 1, self.spec_cfg().tau)
                ==> self.first_deadline(k) == slot_deadline(
                slot_deadline(self.first_deadline(k - 1), self.spec_cfg().window - 1, self.spec_cfg().tau),
                1,
                self.spec_cfg().tau,
            ),
    {
    }

    /// Identity, parameters and silenced validators are fixed.
    pub open spec fn same_setup(&self, other: Self) -> bool {
        &&& other.spec_id() == self.spec_id()
        &&& other.spec_cfg() == self.spec_cfg()
        &&& other.spec_muted() == self.spec_muted()
    }

    /// `self` is `before` after the instance of open slot `s` took one step at `now` and
    /// the slot was checked for completion: every other slot is untouched; `s` completes
    /// once its instance has finalized, and a newly completed slot is logged at `now`,
    /// after which windows open as the throttle allows.
    pub open spec fn stepped(&self, before: Self, s: int, now: Tick) -> bool {
        let newly = !before.completed(s) && self.completed(s);
        &&& 1 <= s <= before.slot_count()
        &&& self.same_setup(before)
        &&& before.instance(s).step_ok(self.instance(s))
        &&& forall|t: int|
            1 <= t <= before.slot_count() && t != s ==> #[trigger] self.instance(t) == before.instance(t) && self.completed(t)
                == before.completed(t)
        &&& self.completed(s) == (before.completed(s) || self.instance(s).spec_finalized() is Some)
        &&& newly ==> self.log() == before.log().push((s as Slot, now)) && self.settled() && self.opened_since(before, now)
            && self.spec_max_outstanding() >= before.spec_max_outstanding()
        &&& !newly ==> self.log() == before.log() && self.windows_open() == before.windows_open() && self.slot_count()
            == before.slot_count() && self.spec_max_outstanding() == before.spec_max_outstanding()
    }
}

impl PipelineValidator {
    proof fn lemma_settled(&self)
        requires
            self.inv(),
            self.progress.settled(self.cfg),
        ensures
            self.settled(),
    {
        let m = self.windows_open() as int;
        if m >= 1 && self.may_open_after(m) && self.room_after(m) {
            assert forall|i: int|
                0 <= i < (m - 1) * self.cfg.window + effective_threshold(self.cfg) && i < self.progress.slots@.len()
                implies (#[trigger] self.progress.slots@[i]).completed by {
                assert(self.completed(i + 1));
            }
        }
    }

    /// The windows opened from `before`'s progress are opened in turn, in public terms.
    proof fn lemma_opened(&self, before: Self, slots0: Seq<SlotRun>, now: Tick)
        requires
            self.inv(),
            before.inv(),
            self.same_setup(before),
            self.id == before.id,
            self.cfg == before.cfg,
            self.muted@ == before.muted@,
            slots0.len() == before.progress.slots@.len(),
            self.progress.opened_from(
                slots0,
                before.progress.first_deadlines@,
                self.cfg,
                self.muted@.contains(self.id),
                now,
            ),
        ensures
            self.opened_since(before, now),
    {
        let cfg = self.cfg;
        let w = cfg.window as int;
        let p = effective_threshold(cfg);
        let m0 = before.windows_open() as int;
        let m1 = self.windows_open() as int;
        assert forall|k: int| 1 <= k <= m0 implies #[trigger] self.first_deadline(k) == before.first_deadline(k) by {
            assert(self.progress.first_deadlines@.take(m0)[k - 1] == self.progress.first_deadlines@[k - 1]);
        }
        assert forall|k: int| m0 < k <= m1 implies #[trigger] self.opened_in_turn(k, now) by {
            assert(self.progress.opened_in_turn(k - 1, cfg, now));
            assert(k >= 2 ==> (k - 2) * w + p <= m1 * w) by (nonlinear_arith)
                requires
                    k <= m1,
                    p <= w,
                    w >= 1,
            ;
            if k >= 2 {
                assert forall|s: int| 1 <= s <= (k - 2) * w + p implies #[trigger] self.completed(s) by {
                    assert(self.progress.slots@[s - 1].completed);
                }
            }
        }
        assert forall|k: int, o: int| m0 < k <= m1 && 0 <= o < w implies #[trigger] self.fresh_slot(
            (k - 1) * w + o + 1,
            self.first_deadline(k),
            o,
        ) by {
            assert(fresh_at(
                self.progress.slots@,
                (k - 1) * w + o,
                self.progress.first_deadlines@[k - 1],
                o,
                cfg,
                self.muted@.contains(self.id),
            ));
        }
    }

    /// What a routed step of the progress means in public terms.
    proof fn lemma_stepped(&self, before: Self, i: int, now: Tick)
        requires
            self.inv(),
            before.inv(),
            self.id == before.id,
            self.cfg == before.cfg,
            self.muted@ == before.muted@,
            self.progress.routed(before.progress, i, self.cfg, self.muted@.contains(self.id), now),
        ensures
            self.stepped(before, i + 1, now),
            before.settled() ==> self.settled(),
    {
        let cfg = self.cfg;
        let muted = self.muted@.contains(self.id);
        let b = before.progress;
        let inst = self.progress.slots@[i].instance;
        let slots0 = b.slots@.update(i, SlotRun { instance: inst, completed: b.slots@[i].completed });
        let r = slots0[i];
        if !r.completed && r.instance.spec_finalized() is Some {
            let slots1 = slots0.update(i, SlotRun { instance: r.instance, completed: true });
            assert(self.progress.slots@[i] == slots1[i]);
            assert forall|t: int| 1 <= t <= before.slot_count() && t != i + 1 implies #[trigger] self.instance(t)
                == before.instance(t) && self.completed(t) == before.completed(t) by {
                assert(self.progress.slots@[t - 1] == slots1[t - 1]);
            }
            self.lemma_opened(before, slots1, now);
            self.lemma_settled();
        } else {
            assert forall|t: int| 1 <= t <= before.slot_count() && t != i + 1 implies #[trigger] self.instance(t)
                == before.instance(t) && self.completed(t) == before.completed(t) by {
                assert(self.progress.slots@[t - 1] == slots0[t - 1]);
            }
            assert(self.progress.slots@[i] == slots0[i]);
            if before.settled() {
                let m = self.windows_open() as int;
                if m >= 1 && self.may_open_after(m) && self.room_after(m) {
                    assert forall|s: int| 1 <= s <= (m - 1) * cfg.window + effective_threshold(cfg) implies #[trigger] before.completed(s) by {
                        assert(self.completed(s));
                        if s != i + 1 {
                            assert(self.progress.slots@[s - 1] == slots0[s - 1]);
                        }
                    }
                }
            }
        }
    }
}

impl PipelineValidator {
    pub fn new(
        id: ValidatorId,
        cfg: ConductorConfig,
        plan: Box<dyn SlotPlan>,
        muted: HashSet<ValidatorId>,
    ) -> (v: Self)
        requires
            cfg.window >= 1,
        ensures
            v.spec_id() == id,
            v.spec_cfg() == cfg,
            v.spec_muted() == muted@,
            v.windows_open() == 0,
            v.slot_count() == 0,
            v.log() == Seq::<(Slot, Tick)>::empty(),
            v.spec_max_outstanding() == 0,
    {
        let progress = Progress::empty();
        proof {
            progress.lemma_empty_ok(cfg, id);
            assert(progress.finalize_log@ =~= Seq::<(Slot, Tick)>::empty());
        }
        PipelineValidator { id, cfg, plan, muted, progress }
    }

    /// How many open instances have not finalized: never more than `2W - p`, and never
    /// more than the high-water mark.
    pub fn outstanding_now(&self) -> (r: usize)
        ensures
            r == self.outstanding(),
            r <= outstanding_bound(self.spec_cfg()),
            r <= self.spec_max_outstanding(),
    {
        proof {
            use_type_invariant(self);
            self.progress.lemma_outstanding_bounded(self.cfg);
        }
        self.progress.outstanding_now()
    }

    /// The most instances this validator ever had underway at once: never more than
    /// `2W - p`.
    pub fn max_outstanding(&self) -> (r: usize)
        ensures
            r == self.spec_max_outstanding(),
            r <= outstanding_bound(self.spec_cfg()),
    {
        proof {
            use_type_invariant(self);
        }
        self.progress.max_outstanding
    }

    /// Each completed slot with the tick its finalization was observed at, in order. A slot
    /// appears at most once, only once its instance has finalized, and every completed slot
    /// appears.
    pub fn finalize_log(&self) -> (r: &Vec<(Slot, Tick)>)
        ensures
            r@ == self.log(),
            forall|j: int|
                0 <= j < r@.len() ==> 1 <= (#[trigger] r@[j]).0 <= self.slot_count() && self.completed(r@[j].0 as int)
                    && self.instance(r@[j].0 as int).spec_finalized() is Some,
            forall|j: int, k: int| 0 <= j < k < r@.len() ==> (#[trigger] r@[j]).0 != (#[trigger] r@[k]).0,
            forall|s: int| #[trigger] self.completed(s) ==> exists|j: int| 0 <= j < r@.len() && (#[trigger] r@[j]).0 == s,
    {
        proof {
            use_type_invariant(self);
            let log = self.progress.finalize_log@;
            assert forall|s: int| #[trigger] self.completed(s) implies exists|j: int| 0 <= j < log.len() && (#[trigger] log[j]).0 == s by {
                assert(self.progress.slots@[s - 1].completed);
                assert(in_log(log, s - 1 + 1));
            }
        }
        &self.progress.finalize_log
    }

    /// How many windows are open.
    pub fn open_windows(&self) -> (r: usize)
        ensures
            r == self.windows_open(),
            self.slot_count() == r * self.spec_cfg().window,
    {
        proof {
            use_type_invariant(self);
        }
        self.progress.first_deadlines.len()
    }
}

impl Node for PipelineValidator {
    type Message = ChorusMsg;

    /// The start callback, as `new` stands after it (see `on_start`).
    open spec fn start_step(self, new: Self, c0: Ctx<ChorusMsg>, c1: Ctx<ChorusMsg>) -> bool {
        &&& new.same_setup(self)
        &&& new.windows_open() >= 1
        &&& new.settled()
        &&& new.opened_since(self, c0.spec_tick())
        &&& forall|t: int|
            1 <= t <= self.slot_count() ==> #[trigger] new.instance(t) == self.instance(t)
                && new.completed(t) == self.completed(t)
        &&& new.log() == self.log()
        &&& new.spec_max_outstanding() >= self.spec_max_outstanding()
    }

    /// The message callback, as `new` stands after it (see `on_message`).
    open spec fn message_step(self, new: Self, c0: Ctx<ChorusMsg>, c1: Ctx<ChorusMsg>, from: ValidatorId, msg: ChorusMsg) -> bool {
        &&& new.same_setup(self)
        &&& 1 <= msg_slot(msg) <= self.slot_count() ==> new.stepped(
            self,
            msg_slot(msg) as int,
            c0.spec_tick(),
        )
        &&& !(1 <= msg_slot(msg) <= self.slot_count()) ==> new == self
        &&& self.settled() ==> new.settled()
        &&& 1 <= msg_slot(msg) <= self.slot_count() ==> exists|c: Ctx<ChorusMsg>|
            #[trigger] self.instance(msg_slot(msg) as int).message_step(
                new.instance(msg_slot(msg) as int),
                c0,
                c,
                from,
                msg,
            )
    }

    /// The timer callback, as `new` stands after it (see `on_timer`).
    open spec fn timer_step(self, new: Self, c0: Ctx<ChorusMsg>, c1: Ctx<ChorusMsg>, timer: String) -> bool {
        &&& new.same_setup(self)
        &&& match parse_timer_slot(timer@) {
            Some(s) => 1 <= s <= self.slot_count() ==> new.stepped(
                self,
                s as int,
                c0.spec_tick(),
            ),
            None => true,
        }
        &&& match parse_timer_slot(timer@) {
            Some(s) => !(1 <= s <= self.slot_count()),
            None => true,
        } ==> new == self
        &&& self.settled() ==> new.settled()
        &&& match parse_timer_slot(timer@) {
            Some(s) => 1 <= s <= self.slot_count() ==> exists|c: Ctx<ChorusMsg>|
                #[trigger] self.instance(s as int).timer_step(new.instance(s as int), c0, c, timer),
            None => true,
        }
    }

    fn id(&self) -> (r: ValidatorId)
        ensures
            r == self.spec_id(),
    {
        self.id
    }

    /// Opens window 1, its first slot's deadline at `delta` (unless it is already open),
    /// then any window the throttle allows.
    fn on_start(&mut self, ctx: &mut Ctx<ChorusMsg>)
    {
        proof {
            use_type_invariant(&*self);
        }
        broadcast use vstd::std_specs::hash::group_hash_axioms;

        let now = ctx.now();
        let muted = self.muted.contains(&self.id);
        let ghost before = *self;
        let mut prog = Progress::empty();
        proof {
            prog.lemma_empty_ok(self.cfg, self.id);
        }
        std::mem::swap(&mut prog, &mut self.progress);
        let ghost p0 = prog;
        if prog.first_deadlines.len() == 0 {
            proof {
                assert(prog.slots@.len() == 0) by (nonlinear_arith)
                    requires
                        prog.slots@.len() == prog.windows() * self.cfg.window,
                        prog.windows() == 0,
                ;
            }
            prog.open_window(ctx, self.id, &self.cfg, &*self.plan, muted, self.cfg.delta);
        }
        let ghost p1 = prog;
        proof {
            if p0.windows() == 0 {
                assert(p1.first_deadlines@ =~= seq![self.cfg.delta]);
                p1.lemma_opened_first(self.cfg, muted, now);
                assert(p0.slots@ =~= Seq::<SlotRun>::empty());
                assert(p0.first_deadlines@ =~= Seq::<Tick>::empty());
            } else {
                p1.lemma_opened_from_refl(self.cfg, muted, now);
            }
        }
        prog.maybe_advance(ctx, self.id, &self.cfg, &*self.plan, muted, now);
        proof {
            prog.lemma_opened_trans(p1, p0.slots@, p0.first_deadlines@, self.cfg, muted, now);
        }
        self.progress = prog;
        proof {
            self.lemma_settled();
            self.lemma_opened(before, before.progress.slots@, now);
            assert forall|t: int| 1 <= t <= before.slot_count() implies #[trigger] self.instance(t) == before.instance(t)
                && self.completed(t) == before.completed(t) by {
                assert(self.progress.slots@[t - 1] == before.progress.slots@[t - 1]);
            }
        }
    }

    /// Hands the message to the instance of its slot, if that slot is open, and notes a
    /// completion; a message for a slot not open is dropped.
    fn on_message(&mut self, ctx: &mut Ctx<ChorusMsg>, from: ValidatorId, msg: ChorusMsg)
    {
        proof {
            use_type_invariant(&*self);
        }
        broadcast use vstd::std_specs::hash::group_hash_axioms;

        let now = ctx.now();
        let muted = self.muted.contains(&self.id);
        let ghost before = *self;
        let mut prog = Progress::empty();
        proof {
            prog.lemma_empty_ok(self.cfg, self.id);
        }
        std::mem::swap(&mut prog, &mut self.progress);
        let ghost m = msg;
        prog.deliver_message(ctx, self.id, &self.cfg, &*self.plan, muted, now, from, msg);
        self.progress = prog;
        proof {
            if 1 <= msg_slot(m) <= before.slot_count() {
                let c = choose|c: Ctx<ChorusMsg>|
                    #[trigger] before.progress.slots@[msg_slot(m) - 1].instance.message_step(
                        self.progress.slots@[msg_slot(m) - 1].instance,
                        *old(ctx),
                        c,
                        from,
                        m,
                    );
                assert(before.instance(msg_slot(m) as int).message_step(self.instance(msg_slot(m) as int), *old(ctx), c, from, m));
            }
            if 1 <= msg_slot(msg) <= before.slot_count() {
                self.lemma_stepped(before, msg_slot(msg) - 1, now);
            }
        }
    }

    /// Hands the timer to the instance of the slot its label names, if that slot is open,
    /// and notes a completion; any other timer is dropped.
    fn on_timer(&mut self, ctx: &mut Ctx<ChorusMsg>, timer: String)
    {
        proof {
            use_type_invariant(&*self);
        }
        broadcast use vstd::std_specs::hash::group_hash_axioms;

        let now = ctx.now();
        let muted = self.muted.contains(&self.id);
        let ghost before = *self;
        let ghost label = timer@;
        let mut prog = Progress::empty();
        proof {
            prog.lemma_empty_ok(self.cfg, self.id);
        }
        std::mem::swap(&mut prog, &mut self.progress);
        let ghost t = timer;
        prog.deliver_timer(ctx, self.id, &self.cfg, &*self.plan, muted, now, timer);
        self.progress = prog;
        proof {
            match parse_timer_slot(label) {
                Some(s) => {
                    if 1 <= s <= before.slot_count() {
                        let c = choose|c: Ctx<ChorusMsg>|
                            #[trigger] before.progress.slots@[s - 1].instance.timer_step(
                                self.progress.slots@[s - 1].instance,
                                *old(ctx),
                                c,
                                t,
                            );
                        assert(before.instance(s as int).timer_step(self.instance(s as int), *old(ctx), c, t));
                        self.lemma_stepped(before, s - 1, now);
                    }
                },
                None => {},
            }
        }
    }
}

} // verus!
