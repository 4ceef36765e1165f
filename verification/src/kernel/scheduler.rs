//! The scheduler.
//!
//! The home of the ready/stalled bookkeeping. The ready list holds lanes that can
//! make progress and await an execution context; the stalled list holds lanes
//! parked on a [`WaitResource`], consuming nothing until released.
use vstd::prelude::*;
use crate::abi::ids::LaneId;
use crate::abi::sched::{
    profile_config, CibosProfile, KernelInterface, Monotonic, SchedulingConfig, WaitResource,
    WeightClass,
};
use crate::kernel::entropy::{Csprng, Stream};
use crate::kernel::selector::{
    lanes_of, pool_of, select, selected, selection_is_fair_sized, total_weight, WeightedLane,
};
use crate::sorted_map::{ascending, SortedMap};

verus! {

/// The state of a scheduler. `waiting` lists the stalled lanes in ascending order.
pub ghost struct Sched {
    pub ready: Seq<LaneId>,
    pub stalled: Map<u64, WaitResource>,
    pub waiting: Seq<u64>,
    pub classes: Map<u64, WeightClass>,
    pub overrides: Map<u64, u32>,
    pub stream: Stream,
    pub now: Monotonic,
    pub contexts: nat,
    pub profile: CibosProfile,
    pub config: SchedulingConfig,
}

/// The lanes of a list other than `lane`, in order.
pub open spec fn without_lane(list: Seq<LaneId>, lane: LaneId) -> Seq<LaneId>
    decreases list.len(),
{
    if list.len() == 0 {
        Seq::empty()
    } else if list.last() == lane {
        without_lane(list.drop_last(), lane)
    } else {
        without_lane(list.drop_last(), lane).push(list.last())
    }
}

/// The lanes of a list that are not in `gone`, in order.
pub open spec fn without_lanes(list: Seq<LaneId>, gone: Seq<LaneId>) -> Seq<LaneId>
    decreases list.len(),
{
    if list.len() == 0 {
        Seq::empty()
    } else if gone.contains(list.last()) {
        without_lanes(list.drop_last(), gone)
    } else {
        without_lanes(list.drop_last(), gone).push(list.last())
    }
}

/// A list with `lane` in it: at its place, or at the end.
pub open spec fn with_lane(list: Seq<LaneId>, lane: LaneId) -> Seq<LaneId> {
    if list.contains(lane) {
        list
    } else {
        list.push(lane)
    }
}

/// A list with several lanes in it.
pub open spec fn with_lanes(list: Seq<LaneId>, lanes: Seq<u64>) -> Seq<LaneId>
    decreases lanes.len(),
{
    if lanes.len() == 0 {
        list
    } else {
        with_lane(with_lanes(list, lanes.drop_last()), LaneId(lanes.last()))
    }
}

/// Whether `lane` waits for a point of time that `now` has reached.
pub open spec fn is_due(stalled: Map<u64, WaitResource>, now: Monotonic, lane: u64) -> bool {
    &&& stalled.dom().contains(lane)
    &&& stalled[lane] matches WaitResource::Timer(d) && now.nanos >= d.nanos
}

/// The lanes of a list that are due, in order.
pub open spec fn due_lanes(
    list: Seq<u64>,
    stalled: Map<u64, WaitResource>,
    now: Monotonic,
) -> Seq<u64>
    decreases list.len(),
{
    if list.len() == 0 {
        Seq::empty()
    } else if is_due(stalled, now, list.last()) {
        due_lanes(list.drop_last(), stalled, now).push(list.last())
    } else {
        due_lanes(list.drop_last(), stalled, now)
    }
}

/// The waits that are not due.
pub open spec fn undue(stalled: Map<u64, WaitResource>, now: Monotonic) -> Map<u64, WaitResource> {
    Map::new(
        |k: u64| stalled.dom().contains(k) && !is_due(stalled, now, k),
        |k: u64| stalled[k],
    )
}

/// `d` is the earliest point of time that a lane waits for.
pub open spec fn earliest_timer(stalled: Map<u64, WaitResource>, d: Monotonic) -> bool {
    &&& exists|k: u64| #[trigger] stalled.dom().contains(k) && stalled[k] == WaitResource::Timer(d)
    &&& forall|k: u64|
        #[trigger] stalled.dom().contains(k) ==> (stalled[k] matches WaitResource::Timer(e)
            ==> e.nanos >= d.nanos)
}

/// Some lane waits for a point of time.
pub open spec fn has_timer(stalled: Map<u64, WaitResource>) -> bool {
    exists|k: u64| #[trigger] stalled.dom().contains(k) && stalled[k] is Timer
}

impl Sched {
    /// No lane is ready twice, no lane is both ready and stalled, and `waiting`
    /// lists the stalled lanes in ascending order.
    pub open spec fn wf(self) -> bool {
        &&& self.ready.no_duplicates()
        &&& forall|l: LaneId|
            #[trigger] self.ready.contains(l) ==> !self.stalled.dom().contains(l.0)
        &&& ascending(self.waiting)
        &&& forall|k: u64|
            #[trigger] self.stalled.dom().contains(k) <==> self.waiting.contains(k)
        &&& self.contexts >= 1
    }

    /// `after` differs from `self` in its lists of ready and stalled lanes only,
    /// which hold `ready` and `stalled`.
    pub open spec fn relisted(
        self,
        after: Sched,
        ready: Seq<LaneId>,
        stalled: Map<u64, WaitResource>,
    ) -> bool {
        after == (Sched { ready, stalled, waiting: after.waiting, ..self })
    }

    /// The weight of `lane` in a draw.
    pub open spec fn weight_of(self, lane: LaneId) -> u32 {
        if self.profile is Compute && self.overrides.dom().contains(lane.0) {
            if self.overrides[lane.0] == 0 {
                1
            } else {
                self.overrides[lane.0]
            }
        } else {
            self.config.class_weight(
                if self.classes.dom().contains(lane.0) {
                    self.classes[lane.0]
                } else {
                    WeightClass::User
                },
            )
        }
    }

    /// The ready lanes with their weights.
    pub open spec fn contenders(self) -> Seq<WeightedLane> {
        Seq::new(
            self.ready.len(),
            |i: int| WeightedLane { lane: self.ready[i], weight: self.weight_of(self.ready[i]) },
        )
    }

    /// `after` is `self` with the clock at `now` and every lane that is then due
    /// made ready, in ascending order.
    pub open spec fn matured(self, now: Monotonic, after: Sched) -> bool {
        (Sched { now, ..self }).relisted(
            after,
            with_lanes(self.ready, due_lanes(self.waiting, self.stalled, now)),
            undue(self.stalled, now),
        )
    }
}

/// The scheduler.
pub struct Scheduler {
    ready: Vec<LaneId>,
    stalled: SortedMap<WaitResource>,
    classes: SortedMap<WeightClass>,
    overrides: SortedMap<u32>,
    csprng: Csprng,
    now: Monotonic,
    execution_contexts: usize,
    profile: CibosProfile,
    config: SchedulingConfig,
}

impl View for Scheduler {
    type V = Sched;

    closed spec fn view(&self) -> Sched {
        Sched {
            ready: self.ready@,
            stalled: self.stalled@,
            waiting: self.stalled.order(),
            classes: self.classes@,
            overrides: self.overrides@,
            stream: self.csprng@,
            now: self.now,
            contexts: self.execution_contexts as nat,
            profile: self.profile,
            config: self.config,
        }
    }
}

/// What is left of a list has no lane that it had not.
pub proof fn lemma_without_lane(list: Seq<LaneId>, lane: LaneId)
    ensures
        forall|l: LaneId|
            #[trigger] without_lane(list, lane).contains(l) <==> list.contains(l) && l != lane,
        list.no_duplicates() ==> without_lane(list, lane).no_duplicates(),
    decreases list.len(),
{
    if list.len() > 0 {
        let init = list.drop_last();
        lemma_without_lane(init, lane);
        assert forall|l: LaneId| list.contains(l) <==> init.contains(l) || l == list.last() by {
            lemma_contains_last(list, l);
        }
        let kept = without_lane(init, lane);
        if list.last() != lane {
            assert forall|l: LaneId|
                #[trigger] without_lane(list, lane).contains(l) <==> kept.contains(l) || l
                    == list.last() by {
                lemma_contains_push(kept, list.last(), l);
            }
            if list.no_duplicates() {
                lemma_last_is_new(list);
                lemma_push_no_duplicates(kept, list.last());
            }
        }
    }
}

proof fn lemma_contains_last(list: Seq<LaneId>, l: LaneId)
    requires
        list.len() > 0,
    ensures
        list.contains(l) <==> list.drop_last().contains(l) || l == list.last(),
{
    let init = list.drop_last();
    if list.contains(l) {
        let i = choose|i: int| 0 <= i < list.len() && list[i] == l;
        if i < init.len() {
            assert(init[i] == l);
        }
    }
    if init.contains(l) {
        let i = choose|i: int| 0 <= i < init.len() && init[i] == l;
        assert(list[i] == l);
    }
    if l == list.last() {
        assert(list[list.len() - 1] == l);
    }
}

proof fn lemma_contains_push(list: Seq<LaneId>, x: LaneId, l: LaneId)
    ensures
        list.push(x).contains(l) <==> list.contains(l) || l == x,
{
    assert(list.push(x).drop_last() =~= list);
    lemma_contains_last(list.push(x), l);
}

proof fn lemma_last_is_new(list: Seq<LaneId>)
    requires
        list.len() > 0,
        list.no_duplicates(),
    ensures
        !list.drop_last().contains(list.last()),
        list.drop_last().no_duplicates(),
{
    let init = list.drop_last();
    if init.contains(list.last()) {
        let i = choose|i: int| 0 <= i < init.len() && init[i] == list.last();
        assert(list[i] == list[list.len() - 1]);
    }
}

proof fn lemma_push_no_duplicates(list: Seq<LaneId>, x: LaneId)
    requires
        list.no_duplicates(),
        !list.contains(x),
    ensures
        list.push(x).no_duplicates(),
{
    let all = list.push(x);
    assert forall|i: int, j: int| 0 <= i < all.len() && 0 <= j < all.len() && i != j implies all[i]
        != all[j] by {
        if i == list.len() {
            assert(list.contains(list[j]));
        } else if j == list.len() {
            assert(list.contains(list[i]));
        }
    }
}

/// What is left of a list after a selection.
pub proof fn lemma_without_lanes(list: Seq<LaneId>, gone: Seq<LaneId>)
    ensures
        forall|l: LaneId|
            #[trigger] without_lanes(list, gone).contains(l) <==> list.contains(l)
                && !gone.contains(l),
        list.no_duplicates() ==> without_lanes(list, gone).no_duplicates(),
    decreases list.len(),
{
    if list.len() > 0 {
        let init = list.drop_last();
        lemma_without_lanes(init, gone);
        assert forall|l: LaneId| list.contains(l) <==> init.contains(l) || l == list.last() by {
            lemma_contains_last(list, l);
        }
        let kept = without_lanes(init, gone);
        if !gone.contains(list.last()) {
            assert forall|l: LaneId|
                #[trigger] without_lanes(list, gone).contains(l) <==> kept.contains(l) || l
                    == list.last() by {
                lemma_contains_push(kept, list.last(), l);
            }
            if list.no_duplicates() {
                lemma_last_is_new(list);
                lemma_push_no_duplicates(kept, list.last());
            }
        }
    }
}

/// What a list with lanes added holds.
pub proof fn lemma_with_lanes(list: Seq<LaneId>, lanes: Seq<u64>)
    ensures
        forall|l: LaneId|
            #[trigger] with_lanes(list, lanes).contains(l) <==> list.contains(l)
                || lanes.contains(l.0),
        list.no_duplicates() ==> with_lanes(list, lanes).no_duplicates(),
    decreases lanes.len(),
{
    if lanes.len() > 0 {
        let init = lanes.drop_last();
        lemma_with_lanes(list, init);
        let before = with_lanes(list, init);
        let x = LaneId(lanes.last());
        assert forall|k: u64| lanes.contains(k) <==> init.contains(k) || k == lanes.last() by {
            if lanes.contains(k) {
                let i = choose|i: int| 0 <= i < lanes.len() && lanes[i] == k;
                if i < init.len() {
                    assert(init[i] == k);
                }
            }
            if init.contains(k) {
                let i = choose|i: int| 0 <= i < init.len() && init[i] == k;
                assert(lanes[i] == k);
            }
            if k == lanes.last() {
                assert(lanes[lanes.len() - 1] == k);
            }
        }
        if !before.contains(x) {
            assert forall|l: LaneId|
                #[trigger] with_lanes(list, lanes).contains(l) <==> before.contains(l) || l == x by {
                lemma_contains_push(before, x, l);
            }
            if list.no_duplicates() {
                lemma_push_no_duplicates(before, x);
            }
        }
    }
}

/// What the due lanes of a list are.
pub proof fn lemma_due_lanes(list: Seq<u64>, stalled: Map<u64, WaitResource>, now: Monotonic)
    ensures
        forall|k: u64|
            #[trigger] due_lanes(list, stalled, now).contains(k) <==> list.contains(k) && is_due(
                stalled,
                now,
                k,
            ),
    decreases list.len(),
{
    if list.len() > 0 {
        let init = list.drop_last();
        lemma_due_lanes(init, stalled, now);
        let before = due_lanes(init, stalled, now);
        let all = due_lanes(list, stalled, now);
        assert forall|k: u64| #[trigger] all.contains(k) <==> list.contains(k) && is_due(
            stalled,
            now,
            k,
        ) by {
            assert(before.contains(k) <==> init.contains(k) && is_due(stalled, now, k));
            if list.contains(k) {
                let i = choose|i: int| 0 <= i < list.len() && list[i] == k;
                if i < init.len() {
                    assert(init[i] == k);
                }
            }
            if init.contains(k) {
                let i = choose|i: int| 0 <= i < init.len() && init[i] == k;
                assert(list[i] == k);
            }
            if is_due(stalled, now, list.last()) {
                if all.contains(k) {
                    let i = choose|i: int| 0 <= i < all.len() && all[i] == k;
                    if i < before.len() {
                        assert(before[i] == k);
                    } else {
                        assert(list[list.len() - 1] == k);
                    }
                }
                if before.contains(k) {
                    let i = choose|i: int| 0 <= i < before.len() && before[i] == k;
                    assert(all[i] == k);
                }
                if k == list.last() {
                    assert(all[all.len() - 1] == k);
                }
            }
        }
    }
}

impl Scheduler {
    /// The lists are consistent.
    pub closed spec fn maps_wf(&self) -> bool {
        self.stalled.wf() && self.classes.wf() && self.overrides.wf()
    }

    /// The lists are consistent, and no lane stands in two of them.
    pub open spec fn wf(&self) -> bool {
        self.maps_wf() && self@.wf()
    }

    /// Create a scheduler for `execution_contexts` contexts (at least one), seeded
    /// with `entropy_seed`, running under `profile`.
    pub fn new(execution_contexts: usize, entropy_seed: [u8; 32], profile: CibosProfile) -> (s:
        Scheduler)
        ensures
            s.wf(),
            s@ == (Sched {
                ready: Seq::empty(),
                stalled: Map::empty(),
                waiting: Seq::empty(),
                classes: Map::empty(),
                overrides: Map::empty(),
                stream: Stream { key: entropy_seed@, at: 0 },
                now: Monotonic { nanos: 0 },
                contexts: if execution_contexts == 0 {
                    1
                } else {
                    execution_contexts as nat
                },
                profile,
                config: profile_config(profile),
            }),
    {
        Scheduler {
            ready: Vec::new(),
            stalled: SortedMap::new(),
            classes: SortedMap::new(),
            overrides: SortedMap::new(),
            csprng: Csprng::from_seed(entropy_seed),
            now: Monotonic::zero(),
            execution_contexts: if execution_contexts == 0 {
                1
            } else {
                execution_contexts
            },
            profile,
            config: SchedulingConfig::defaults_for(profile),
        }
    }

    /// The kernel profile this scheduler runs under.
    pub fn profile(&self) -> (p: CibosProfile)
        ensures
            p == self@.profile,
    {
        self.profile
    }

    /// Whether the active profile permits per-lane / dynamic weight control.
    fn supports_weight_overrides(&self) -> (r: bool)
        ensures
            r == self@.profile is Compute,
    {
        matches!(self.profile, CibosProfile::Compute)
    }

    /// Record a lane's weight class (called when the lane is created).
    pub fn register_lane(&mut self, lane: LaneId, class: WeightClass)
        requires
            old(self).wf(),
        ensures
            final(self).wf(),
            final(self)@ == (Sched {
                classes: old(self)@.classes.insert(lane.0, class),
                ..old(self)@
            }),
    {
        self.classes.insert(lane.0, class);
    }

    /// Whether `lane` is ready.
    fn is_ready(&self, lane: LaneId) -> (r: bool)
        ensures
            r == self@.ready.contains(lane),
    {
        let mut i: usize = 0;
        while i < self.ready.len()
            invariant
                i <= self.ready@.len(),
                forall|j: int| 0 <= j < i ==> self.ready@[j] != lane,
            decreases self.ready@.len() - i,
        {
            if self.ready[i] == lane {
                assert(self.ready@[i as int] == lane);
                return true;
            }
            i = i + 1;
        }
        false
    }

    /// Take `lane` out of the ready list.
    fn drop_ready(&mut self, lane: LaneId)
        ensures
            final(self)@ == (Sched {
                ready: without_lane(old(self)@.ready, lane),
                ..old(self)@
            }),
            final(self).maps_wf() == old(self).maps_wf(),
    {
        let mut kept: Vec<LaneId> = Vec::new();
        let mut i: usize = 0;
        while i < self.ready.len()
            invariant
                *self == *old(self),
                i <= self.ready@.len(),
                kept@ == without_lane(self.ready@.subrange(0, i as int), lane),
            decreases self.ready@.len() - i,
        {
            proof {
                let next = self.ready@.subrange(0, i + 1);
                assert(next.drop_last() =~= self.ready@.subrange(0, i as int));
                assert(next.last() == self.ready@[i as int]);
            }
            if self.ready[i] != lane {
                kept.push(self.ready[i]);
            }
            i = i + 1;
        }
        assert(self.ready@.subrange(0, self.ready@.len() as int) =~= self.ready@);
        self.ready = kept;
    }

    /// Put `lane` on the ready list, unless it is there.
    fn push_ready(&mut self, lane: LaneId)
        ensures
            final(self)@ == (Sched { ready: with_lane(old(self)@.ready, lane), ..old(self)@ }),
            final(self).maps_wf() == old(self).maps_wf(),
    {
        if !self.is_ready(lane) {
            self.ready.push(lane);
        }
    }

    /// Remove all bookkeeping for a completed (or aborted) lane.
    pub fn notify_complete(&mut self, lane: LaneId)
        requires
            old(self).wf(),
        ensures
            final(self).wf(),
            (Sched {
                classes: old(self)@.classes.remove(lane.0),
                overrides: old(self)@.overrides.remove(lane.0),
                ..old(self)@
            }).relisted(
                final(self)@,
                without_lane(old(self)@.ready, lane),
                old(self)@.stalled.remove(lane.0),
            ),
    {
        self.drop_ready(lane);
        self.stalled.remove(lane.0);
        self.classes.remove(lane.0);
        self.overrides.remove(lane.0);
        proof {
            lemma_without_lane(old(self)@.ready, lane);
            self.stalled.lemma_order();
        }
    }

    /// Number of lanes currently ready.
    pub fn ready_count(&self) -> (n: usize)
        ensures
            n == self@.ready.len(),
    {
        self.ready.len()
    }

    /// Number of lanes currently stalled.
    pub fn stalled_count(&self) -> (n: usize)
        requires
            self.wf(),
        ensures
            n == self@.waiting.len(),
    {
        self.stalled.len()
    }

    /// Whether the scheduler has no ready and no stalled lanes.
    pub fn is_idle(&self) -> (r: bool)
        requires
            self.wf(),
        ensures
            r == (self@.ready.len() == 0 && self@.waiting.len() == 0),
    {
        self.ready.len() == 0 && self.stalled.len() == 0
    }

    /// Whether at least one lane is ready to run.
    pub fn has_ready(&self) -> (r: bool)
        ensures
            r == (self@.ready.len() > 0),
    {
        self.ready.len() > 0
    }

    /// A lane's selection weight, from its class and any override under a profile
    /// that allows overrides.
    pub fn weight_for(&self, lane: LaneId) -> (w: u32)
        requires
            self.wf(),
        ensures
            w == self@.weight_of(lane),
    {
        if self.supports_weight_overrides() {
            if let Some(w) = self.overrides.get(lane.0) {
                return if *w == 0 {
                    1
                } else {
                    *w
                };
            }
        }
        let class: WeightClass = match self.classes.get(lane.0) {
            Some(c) => *c,
            None => WeightClass::User,
        };
        match class {
            WeightClass::System => self.config.system_weight,
            WeightClass::User => self.config.user_weight,
            WeightClass::Background => self.config.background_weight,
        }
    }

    /// Choose the lanes to dispatch this scheduling pass and remove them from the
    /// ready list. The caller polls each.
    pub fn take_dispatch_batch(&mut self) -> (chosen: Vec<LaneId>)
        requires
            old(self).wf(),
            total_weight(pool_of(old(self)@.contenders())) <= u64::MAX,
        ensures
            final(self).wf(),
            ({
                let (lanes, stream) = selected(
                    old(self)@.contenders(),
                    old(self)@.contexts,
                    old(self)@.stream,
                );
                &&& chosen@ == lanes
                &&& final(self)@ == (Sched {
                    ready: without_lanes(old(self)@.ready, lanes),
                    stream,
                    ..old(self)@
                })
            }),
    {
        let mut weighted: Vec<WeightedLane> = Vec::new();
        let mut i: usize = 0;
        while i < self.ready.len()
            invariant
                *self == *old(self),
                self.wf(),
                i <= self.ready@.len(),
                weighted@ == self@.contenders().subrange(0, i as int),
            decreases self.ready@.len() - i,
        {
            let lane: LaneId = self.ready[i];
            weighted.push(WeightedLane { lane, weight: self.weight_for(lane) });
            i = i + 1;
            assert(weighted@ =~= self@.contenders().subrange(0, i as int));
        }
        assert(weighted@ =~= self@.contenders());
        let chosen: Vec<LaneId> = select(
            weighted.as_slice(),
            self.execution_contexts,
            &mut self.csprng,
        );
        let mut kept: Vec<LaneId> = Vec::new();
        let ghost ready = self.ready@;
        let mut i: usize = 0;
        while i < self.ready.len()
            invariant
                self.ready@ == ready,
                i <= ready.len(),
                kept@ == without_lanes(ready.subrange(0, i as int), chosen@),
            decreases ready.len() - i,
        {
            proof {
                let next = ready.subrange(0, i + 1);
                assert(next.drop_last() =~= ready.subrange(0, i as int));
                assert(next.last() == ready[i as int]);
            }
            let lane: LaneId = self.ready[i];
            let mut gone: bool = false;
            let mut j: usize = 0;
            while j < chosen.len() && !gone
                invariant
                    j <= chosen@.len(),
                    gone ==> chosen@.contains(lane),
                    !gone ==> forall|k: int| 0 <= k < j ==> chosen@[k] != lane,
                decreases chosen@.len() - j,
            {
                if chosen[j] == lane {
                    assert(chosen@[j as int] == lane);
                    gone = true;
                }
                j = j + 1;
            }
            if !gone {
                kept.push(lane);
            }
            i = i + 1;
        }
        assert(ready.subrange(0, ready.len() as int) =~= ready);
        self.ready = kept;
        proof {
            lemma_without_lanes(ready, chosen@);
        }
        chosen
    }

    /// Set the clock to `now` and release every timer wait that is then due.
    fn release_due(&mut self, now: Monotonic)
        requires
            old(self).wf(),
        ensures
            final(self).wf(),
            old(self)@.matured(now, final(self)@),
    {
        let ghost start = self@;
        let ghost all = self.stalled.order();
        // Collect matured timer lanes, then release them.
        let mut due: Vec<u64> = Vec::new();
        let mut i: usize = 0;
        while i < self.stalled.len()
            invariant
                *self == *old(self),
                self.wf(),
                all == self.stalled.order(),
                i <= all.len(),
                due@ == due_lanes(all.subrange(0, i as int), self.stalled@, now),
            decreases all.len() - i,
        {
            proof {
                let next = all.subrange(0, i + 1);
                assert(next.drop_last() =~= all.subrange(0, i as int));
                assert(next.last() == all[i as int]);
            }
            let lane: u64 = self.stalled.key_at(i);
            if let WaitResource::Timer(d) = self.stalled.value_at(i) {
                if now.reached(*d) {
                    due.push(lane);
                }
            }
            i = i + 1;
        }
        assert(all.subrange(0, all.len() as int) =~= all);
        let ghost list = due@;
        self.now = now;
        let mut i: usize = 0;
        assert(list.subrange(0, 0) =~= Seq::<u64>::empty());
        while i < due.len()
            invariant
                i <= due@.len(),
                due@ == list,
                self.maps_wf(),
                (Sched { now, ..start }).relisted(
                    self@,
                    with_lanes(start.ready, list.subrange(0, i as int)),
                    self.stalled@,
                ),
                forall|k: u64|
                    #[trigger] self.stalled@.dom().contains(k) <==> start.stalled.dom().contains(k)
                        && !list.subrange(0, i as int).contains(k),
                forall|k: u64|
                    #[trigger] self.stalled@.dom().contains(k) ==> self.stalled@[k]
                        == start.stalled[k],
            decreases due@.len() - i,
        {
            let lane: u64 = due[i];
            let ghost before = self.stalled@;
            self.stalled.remove(lane);
            self.push_ready(LaneId(lane));
            proof {
                let had = list.subrange(0, i as int);
                let next = list.subrange(0, i + 1);
                assert(next.drop_last() =~= had);
                assert(next.last() == lane);
                assert forall|k: u64| next.contains(k) <==> had.contains(k) || k == lane by {
                    if next.contains(k) {
                        let a = choose|a: int| 0 <= a < next.len() && next[a] == k;
                        if a < had.len() {
                            assert(had[a] == k);
                        }
                    }
                    if had.contains(k) {
                        let a = choose|a: int| 0 <= a < had.len() && had[a] == k;
                        assert(next[a] == k);
                    }
                    if k == lane {
                        assert(next[i as int] == k);
                    }
                }
            }
            i = i + 1;
        }
        proof {
            assert(list.subrange(0, list.len() as int) =~= list);
            lemma_due_lanes(all, start.stalled, now);
            lemma_with_lanes(start.ready, list);
            assert(self.stalled@ =~= undue(start.stalled, now));
            self.stalled.lemma_order();
        }
    }

    /// Advance the monotonic clock by `delta` nanoseconds, releasing any timer
    /// waits whose deadline has now passed (moving them from stalled to ready).
    pub fn advance_clock(&mut self, delta: u64)
        requires
            old(self).wf(),
        ensures
            final(self).wf(),
            old(self)@.matured(old(self)@.now.plus(delta), final(self)@),
    {
        let now: Monotonic = self.now.saturating_add(delta);
        self.release_due(now);
    }

    /// The earliest point of time that a lane waits for.
    fn next_timer(&self) -> (r: Option<Monotonic>)
        requires
            self.wf(),
        ensures
            match r {
                Some(d) => earliest_timer(self@.stalled, d),
                None => !has_timer(self@.stalled),
            },
    {
        let ghost all = self.stalled.order();
        let mut best: Option<Monotonic> = None;
        let mut i: usize = 0;
        while i < self.stalled.len()
            invariant
                self.wf(),
                all == self.stalled.order(),
                i <= all.len(),
                match best {
                    Some(d) => {
                        &&& exists|k: u64|
                            #[trigger] self@.stalled.dom().contains(k) && self@.stalled[k]
                                == WaitResource::Timer(d)
                        &&& forall|j: int|
                            0 <= j < i ==> (self@.stalled[#[trigger] all[j]] matches
                                WaitResource::Timer(e) ==> e.nanos >= d.nanos)
                    },
                    None => forall|j: int|
                        0 <= j < i ==> !(self@.stalled[#[trigger] all[j]] is Timer),
                },
            decreases all.len() - i,
        {
            let k: u64 = self.stalled.key_at(i);
            if let WaitResource::Timer(d) = self.stalled.value_at(i) {
                assert(self@.stalled.dom().contains(k) && self@.stalled[k] == WaitResource::Timer(
                    *d,
                ));
                match best {
                    None => {
                        best = Some(*d);
                    },
                    Some(b) => {
                        if d.nanos < b.nanos {
                            best = Some(*d);
                        }
                    },
                }
            }
            i = i + 1;
        }
        proof {
            assert forall|k: u64| #[trigger] self@.stalled.dom().contains(k) implies exists|j: int|
                0 <= j < all.len() && all[j] == k by {
                assert(self@.waiting.contains(k));
            }
        }
        best
    }

    /// Idle pump. When no lane is ready, advance the monotonic clock to the
    /// earliest pending timer deadline and release every timer wait that has now
    /// matured. Returns `true` if a timer wait was found, or `false` if none
    /// remains. The clock never moves backward.
    pub fn advance_to_next_timer(&mut self) -> (r: bool)
        requires
            old(self).wf(),
        ensures
            final(self).wf(),
            r == has_timer(old(self)@.stalled),
            !r ==> *final(self) == *old(self),
            r ==> forall|d: Monotonic| #[trigger]
                earliest_timer(old(self)@.stalled, d) ==> old(self)@.matured(
                    if old(self)@.now.nanos >= d.nanos {
                        old(self)@.now
                    } else {
                        d
                    },
                    final(self)@,
                ),
            r ==> exists|d: Monotonic| #[trigger] earliest_timer(old(self)@.stalled, d),
    {
        let deadline: Monotonic = match self.next_timer() {
            Some(d) => d,
            None => return false,
        };
        // Jump to the deadline unless the clock is already at or past it.
        let now: Monotonic = if self.now.reached(deadline) {
            self.now
        } else {
            deadline
        };
        self.release_due(now);
        assert(earliest_timer(old(self)@.stalled, deadline));
        proof {
            assert forall|d: Monotonic| #[trigger] earliest_timer(old(self)@.stalled, d) implies d
                == deadline by {
                let k = choose|k: u64|
                    #[trigger] old(self)@.stalled.dom().contains(k) && old(self)@.stalled[k]
                        == WaitResource::Timer(d);
                let j = choose|j: u64|
                    #[trigger] old(self)@.stalled.dom().contains(j) && old(self)@.stalled[j]
                        == WaitResource::Timer(deadline);
            }
        }
        true
    }
}

impl KernelInterface for Scheduler {
    open spec fn sound(&self) -> bool {
        self.wf()
    }

    open spec fn parked(self, lane: LaneId, resource: WaitResource, after: Scheduler) -> bool {
        self@.relisted(
            after@,
            without_lane(self@.ready, lane),
            self@.stalled.insert(lane.0, resource),
        )
    }

    open spec fn released(self, lane: LaneId, after: Scheduler) -> bool {
        self@.relisted(
            after@,
            with_lane(self@.ready, lane),
            self@.stalled.remove(lane.0),
        )
    }

    open spec fn time(&self) -> Monotonic {
        self@.now
    }

    open spec fn weighted(
        self,
        lane: LaneId,
        weight: u32,
        after: Scheduler,
        accepted: bool,
    ) -> bool {
        if self@.profile is Compute {
            accepted && after@ == (Sched {
                overrides: self@.overrides.insert(
                    lane.0,
                    if weight == 0 {
                        1
                    } else {
                        weight
                    },
                ),
                ..self@
            })
        } else {
            !accepted && after == self
        }
    }

    fn register_wait(&mut self, lane: LaneId, resource: WaitResource) {
        self.drop_ready(lane);
        self.stalled.insert(lane.0, resource);
        proof {
            lemma_without_lane(old(self)@.ready, lane);
            self.stalled.lemma_order();
        }
    }

    fn signal_ready(&mut self, lane: LaneId) {
        self.stalled.remove(lane.0);
        self.push_ready(lane);
        proof {
            self.stalled.lemma_order();
            let ready = old(self)@.ready;
            if !ready.contains(lane) {
                lemma_push_no_duplicates(ready, lane);
                assert forall|l: LaneId| self@.ready.contains(l) implies !self@.stalled.dom().contains(
                    l.0,
                ) by {
                    lemma_contains_push(ready, lane, l);
                }
            }
        }
    }

    fn now(&self) -> (t: Monotonic) {
        self.now
    }

    fn set_lane_weight(&mut self, lane: LaneId, weight: u32) -> (accepted: bool) {
        if !self.supports_weight_overrides() {
            return false;
        }
        self.overrides.insert(
            lane.0,
            if weight == 0 {
                1
            } else {
                weight
            },
        );
        assert(self@ == (Sched { overrides: self@.overrides, ..old(self)@ }));
        true
    }
}

/// A dispatch batch holds ready lanes, none twice, and as many as there are
/// contexts or all of them; what is left of the ready list are the others.
pub proof fn batch_comes_from_the_ready_list(s: Sched)
    requires
        s.wf(),
        total_weight(pool_of(s.contenders())) <= u64::MAX,
    ensures
        ({
            let batch = selected(s.contenders(), s.contexts, s.stream).0;
            let left = without_lanes(s.ready, batch);
            &&& batch.len() == if s.contexts < s.ready.len() {
                s.contexts
            } else {
                s.ready.len()
            }
            &&& batch.no_duplicates()
            &&& forall|k: int| 0 <= k < batch.len() ==> s.ready.contains(#[trigger] batch[k])
            &&& forall|l: LaneId|
                #[trigger] left.contains(l) <==> s.ready.contains(l) && !batch.contains(l)
        }),
{
    assert(lanes_of(s.contenders()) =~= s.ready);
    selection_is_fair_sized(s.contenders(), s.contexts, s.stream);
    let batch = selected(s.contenders(), s.contexts, s.stream).0;
    lemma_without_lanes(s.ready, batch);
}

/// A parked lane is stalled and not ready; a released one is ready and not stalled,
/// however often it is released.
pub proof fn parking_and_releasing(s: Scheduler, p: Scheduler, r: Scheduler, lane: LaneId, w: WaitResource)
    requires
        s.wf(),
        p.wf(),
        s.parked(lane, w, p),
        p.released(lane, r),
    ensures
        !p@.ready.contains(lane),
        p@.stalled.dom().contains(lane.0),
        p@.stalled[lane.0] == w,
        r@.ready.contains(lane),
        !r@.stalled.dom().contains(lane.0),
        r.released(lane, r),
{
    lemma_without_lane(s@.ready, lane);
    let ready = p@.ready;
    assert(ready.push(lane)[ready.len() as int] == lane);
    assert(r@.stalled.remove(lane.0) =~= r@.stalled);
}

/// Once the clock stands at `now`, no lane waits for a point that it has reached,
/// every lane that did is ready, and every other wait is as it was.
pub proof fn matured_timers_are_released(s: Sched, now: Monotonic, after: Sched)
    requires
        s.wf(),
        s.matured(now, after),
    ensures
        forall|k: u64| !is_due(after.stalled, now, k),
        forall|k: u64| #[trigger] is_due(s.stalled, now, k) ==> after.ready.contains(LaneId(k)),
        forall|k: u64|
            #[trigger] s.stalled.dom().contains(k) && !is_due(s.stalled, now, k)
                ==> after.stalled.dom().contains(k) && after.stalled[k] == s.stalled[k],
        forall|l: LaneId| #[trigger] s.ready.contains(l) ==> after.ready.contains(l),
{
    lemma_due_lanes(s.waiting, s.stalled, now);
    lemma_with_lanes(s.ready, due_lanes(s.waiting, s.stalled, now));
    assert forall|k: u64| #[trigger] is_due(s.stalled, now, k) implies after.ready.contains(
        LaneId(k),
    ) by {
        assert(due_lanes(s.waiting, s.stalled, now).contains(k));
    }
}

/// Under maximum isolation every lane has the same weight, whatever its class and
/// whatever was asked for.
pub proof fn maximum_isolation_equalizes(s: Sched, lane: LaneId)
    requires
        s.profile is MaximumIsolation,
        s.config == profile_config(s.profile),
    ensures
        s.weight_of(lane) == 1,
{
}

/// A lane weighs what its class weighs: one registered as a system lane has the system
/// weight of the configuration, one of user lanes or never registered the user weight, one
/// of background lanes the background weight, unless it has a weight of its own under a
/// profile that allows that. Registering one lane changes the weight of no other.
pub proof fn class_decides_the_weight(
    s: &mut Scheduler,
    after: Scheduler,
    lane: LaneId,
    class: WeightClass,
    other: LaneId,
    w: u32,
    other_had: u32,
    other_has: u32,
)
    requires
        old(s).wf(),
        after == *final(s),
        call_ensures(Scheduler::register_lane, (s, lane, class), ()),
        call_ensures(Scheduler::weight_for, (&after, lane), w),
        call_ensures(Scheduler::weight_for, (&*old(s), other), other_had),
        call_ensures(Scheduler::weight_for, (&after, other), other_has),
        other != lane,
    ensures
        !(old(s)@.profile is Compute) || !old(s)@.overrides.dom().contains(lane.0) ==> {
            &&& class is System ==> w == old(s)@.config.system_weight
            &&& class is User ==> w == old(s)@.config.user_weight
            &&& class is Background ==> w == old(s)@.config.background_weight
        },
        other_has == other_had,
        !old(s)@.classes.dom().contains(other.0) && !old(s)@.overrides.dom().contains(other.0)
            ==> other_had == old(s)@.config.user_weight,
        after@.config == old(s)@.config,
        after@.profile == old(s)@.profile,
{
}

/// The weights of a new scheduler under each profile: none is zero, background lanes weigh
/// least, all weigh the same under maximum isolation and nowhere else; system lanes weigh
/// more than user lanes under the balanced and the performance profile, and less under
/// the compute profile. The balanced weights are 4, 2 and 1.
pub proof fn profile_decides_the_weights(
    contexts: usize,
    seed: [u8; 32],
    profile: CibosProfile,
    s: Scheduler,
    lane: LaneId,
    w: u32,
)
    requires
        call_ensures(Scheduler::new, (contexts, seed, profile), s),
        call_ensures(Scheduler::weight_for, (&s, lane), w),
    ensures
        ({
            let c = s@.config;
            &&& s@.profile == profile
            &&& w == c.user_weight
            &&& c.system_weight >= c.background_weight >= 1
            &&& c.user_weight >= c.background_weight
            &&& profile is MaximumIsolation <==> c.system_weight == c.user_weight
            &&& profile is MaximumIsolation <==> c.user_weight == c.background_weight
            &&& profile is Balanced || profile is Performance ==> c.system_weight > c.user_weight
            &&& profile is Compute ==> c.system_weight < c.user_weight
            &&& profile is Balanced ==> c.system_weight == 4 && c.user_weight == 2
                && c.background_weight == 1
        }),
        s@.ready.len() == 0 && s@.stalled.dom() =~= Set::<u64>::empty(),
        s@.contexts >= 1 && (contexts > 0 ==> s@.contexts == contexts),
        s@.now.nanos == 0,
{
}

/// A weight of its own counts for a lane exactly under the compute profile, where it is
/// accepted, a weight of zero as one; elsewhere it is refused and nothing changes. No
/// other lane's weight changes. When the lane is done, its weight is a user lane's again.
pub proof fn own_weight_counts_under_compute(
    s: &mut Scheduler,
    mid: Scheduler,
    lane: LaneId,
    weight: u32,
    accepted: bool,
    other: LaneId,
    had: u32,
    w: u32,
    other_had: u32,
    other_has: u32,
    d: &mut Scheduler,
    done: Scheduler,
    last: u32,
)
    requires
        old(s).wf(),
        mid == *final(s),
        call_ensures(Scheduler::set_lane_weight, (s, lane, weight), accepted),
        call_ensures(Scheduler::weight_for, (&*old(s), lane), had),
        call_ensures(Scheduler::weight_for, (&mid, lane), w),
        call_ensures(Scheduler::weight_for, (&*old(s), other), other_had),
        call_ensures(Scheduler::weight_for, (&mid, other), other_has),
        other != lane,
        *old(d) == mid,
        done == *final(d),
        call_ensures(Scheduler::notify_complete, (d, lane), ()),
        call_ensures(Scheduler::weight_for, (&done, lane), last),
    ensures
        accepted <==> old(s)@.profile is Compute,
        accepted ==> w == if weight == 0 {
            1
        } else {
            weight
        },
        !accepted ==> w == had && mid == *old(s),
        other_has == other_had,
        last == old(s)@.config.user_weight,
        !done@.ready.contains(lane),
        !done@.stalled.dom().contains(lane.0),
{
    lemma_without_lane(mid@.ready, lane);
}

/// A released lane that was not ready goes to the end of the ready list; one that was
/// stays where it is. It waits for nothing. A parked lane leaves the list, on which the
/// others keep their order, and waits for what it was parked on.
pub proof fn ready_list_is_first_come(
    s: &mut Scheduler,
    p: &mut Scheduler,
    lane: LaneId,
    resource: WaitResource,
)
    requires
        old(s).wf(),
        old(p).wf(),
        call_ensures(Scheduler::signal_ready, (s, lane), ()),
        call_ensures(Scheduler::register_wait, (p, lane, resource), ()),
    ensures
        !old(s)@.ready.contains(lane) ==> {
            &&& final(s)@.ready.len() == old(s)@.ready.len() + 1
            &&& final(s)@.ready.last() == lane
            &&& forall|i: int|
                0 <= i < old(s)@.ready.len() ==> #[trigger] final(s)@.ready[i] == old(s)@.ready[i]
        },
        old(s)@.ready.contains(lane) ==> final(s)@.ready == old(s)@.ready,
        !final(s)@.stalled.dom().contains(lane.0),
        forall|k: u64|
            k != lane.0 && #[trigger] old(s)@.stalled.dom().contains(k)
                ==> final(s)@.stalled.dom().contains(k) && final(s)@.stalled[k]
                == old(s)@.stalled[k],
        final(p)@.stalled.dom().contains(lane.0) && final(p)@.stalled[lane.0] == resource,
        !final(p)@.ready.contains(lane),
        in_order_of(final(p)@.ready, old(p)@.ready),
        forall|l: LaneId|
            l != lane && #[trigger] old(p)@.ready.contains(l) ==> final(p)@.ready.contains(l),
{
    lemma_without_lane(old(p)@.ready, lane);
    let list = old(p)@.ready;
    let kept = final(p)@.ready;
    assert forall|i: int, j: int| 0 <= i < j < kept.len() implies comes_before(
        list,
        #[trigger] kept[i],
        #[trigger] kept[j],
    ) by {
        lemma_without_order(list, lane, i, j);
    }
}

/// Lane `x` stands before lane `y` in a list.
pub open spec fn comes_before(list: Seq<LaneId>, x: LaneId, y: LaneId) -> bool {
    exists|a: int, b: int|
        #![trigger list[a], list[b]]
        0 <= a < b < list.len() && list[a] == x && list[b] == y
}

/// Of two lanes of `kept`, the one that comes first does so in `list`.
pub open spec fn in_order_of(kept: Seq<LaneId>, list: Seq<LaneId>) -> bool {
    forall|i: int, j: int|
        0 <= i < j < kept.len() ==> comes_before(list, #[trigger] kept[i], #[trigger] kept[j])
}

proof fn lemma_without_order(list: Seq<LaneId>, lane: LaneId, i: int, j: int)
    requires
        0 <= i < j < without_lane(list, lane).len(),
    ensures
        exists|a: int, b: int|
            #![trigger list[a], list[b]]
            0 <= a < b < list.len() && list[a] == without_lane(list, lane)[i] && list[b]
                == without_lane(list, lane)[j],
    decreases list.len(),
{
    let init = list.drop_last();
    let kept = without_lane(init, lane);
    if j < kept.len() {
        lemma_without_order(init, lane, i, j);
        let (a, b) = choose|a: int, b: int|
            #![trigger init[a], init[b]]
            0 <= a < b < init.len() && init[a] == kept[i] && init[b] == kept[j];
        assert(list[a] == kept[i] && list[b] == kept[j]);
    } else {
        lemma_without_lane(init, lane);
        assert(kept.contains(kept[i]));
        let a = choose|a: int| 0 <= a < init.len() && init[a] == kept[i];
        assert(list[a] == kept[i] && list[list.len() - 1] == without_lane(list, lane)[j]);
    }
}

/// Time and timers. The clock moves on by what it is advanced, to the end of time at most.
/// A lane that waits for a point of time is ready, and waits no more, once the clock has
/// reached that point, and not before; lanes that wait for anything else wait on.
pub proof fn timers_mature_on_time(
    s: &mut Scheduler,
    after: Scheduler,
    delta: u64,
    before: Monotonic,
    now: Monotonic,
    lane: LaneId,
)
    requires
        old(s).wf(),
        after == *final(s),
        call_ensures(Scheduler::advance_clock, (s, delta), ()),
        call_ensures(Scheduler::now, (&*old(s),), before),
        call_ensures(Scheduler::now, (&after,), now),
        old(s)@.stalled.dom().contains(lane.0),
    ensures
        now.nanos == if before.nanos + delta > u64::MAX {
            u64::MAX as int
        } else {
            before.nanos + delta
        },
        old(s)@.stalled[lane.0] matches WaitResource::Timer(d) ==> {
            &&& after@.ready.contains(lane) <==> d.nanos <= now.nanos
            &&& after@.stalled.dom().contains(lane.0) <==> d.nanos > now.nanos
        },
        !(old(s)@.stalled[lane.0] is Timer) ==> after@.stalled.dom().contains(lane.0)
            && !after@.ready.contains(lane),
        after@.stalled.dom().contains(lane.0) ==> after@.stalled[lane.0]
            == old(s)@.stalled[lane.0],
{
    let at = old(s)@.now.plus(delta);
    lemma_due_lanes(old(s)@.waiting, old(s)@.stalled, at);
    lemma_with_lanes(old(s)@.ready, due_lanes(old(s)@.waiting, old(s)@.stalled, at));
    assert(old(s)@.waiting.contains(lane.0));
}

/// Released lanes go to the end of the ready list in ascending order of their ids, behind
/// the lanes that were ready, which keep their places.
pub proof fn matured_lanes_queue_in_order(s: Sched, now: Monotonic, after: Sched)
    requires
        s.wf(),
        s.matured(now, after),
    ensures
        s.ready.len() <= after.ready.len(),
        forall|i: int| 0 <= i < s.ready.len() ==> #[trigger] after.ready[i] == s.ready[i],
        forall|i: int, j: int|
            s.ready.len() <= i < j < after.ready.len() ==> #[trigger] after.ready[i].0
                < #[trigger] after.ready[j].0,
{
    let due = due_lanes(s.waiting, s.stalled, now);
    lemma_due_ascending(s.waiting, s.stalled, now);
    lemma_due_lanes(s.waiting, s.stalled, now);
    assert forall|i: int| 0 <= i < due.len() implies !s.ready.contains(
        LaneId(#[trigger] due[i]),
    ) by {
        assert(due.contains(due[i]));
        assert(s.stalled.dom().contains(LaneId(due[i]).0));
    }
    lemma_with_new_lanes(s.ready, due);
}

proof fn lemma_due_ascending(list: Seq<u64>, stalled: Map<u64, WaitResource>, now: Monotonic)
    requires
        ascending(list),
    ensures
        ascending(due_lanes(list, stalled, now)),
    decreases list.len(),
{
    if list.len() > 0 {
        let init = list.drop_last();
        assert forall|i: int, j: int| 0 <= i < j < init.len() implies init[i] < init[j] by {
            assert(list[i] < list[j]);
        }
        assert(ascending(init));
        lemma_due_ascending(init, stalled, now);
        lemma_due_lanes(init, stalled, now);
        let before = due_lanes(init, stalled, now);
        let all = due_lanes(list, stalled, now);
        assert forall|i: int, j: int| 0 <= i < j < all.len() implies all[i] < all[j] by {
            if j == before.len() {
                assert(before.contains(before[i]));
                let a = choose|a: int| 0 <= a < init.len() && init[a] == before[i];
                assert(list[a] < list[list.len() - 1]);
            } else {
                assert(before[i] < before[j]);
            }
        }
    }
}

/// Lanes that a list does not hold, none twice, are put at its end in order.
proof fn lemma_with_new_lanes(list: Seq<LaneId>, lanes: Seq<u64>)
    requires
        ascending(lanes),
        forall|i: int| 0 <= i < lanes.len() ==> !list.contains(LaneId(#[trigger] lanes[i])),
    ensures
        with_lanes(list, lanes) == list + Seq::new(lanes.len(), |i: int| LaneId(lanes[i])),
    decreases lanes.len(),
{
    let added = Seq::new(lanes.len(), |i: int| LaneId(lanes[i]));
    if lanes.len() == 0 {
        assert(list + added =~= list);
    } else {
        let init = lanes.drop_last();
        assert forall|i: int, j: int| 0 <= i < j < init.len() implies init[i] < init[j] by {
            assert(lanes[i] < lanes[j]);
        }
        assert forall|i: int| 0 <= i < init.len() implies !list.contains(
            LaneId(#[trigger] init[i]),
        ) by {
            assert(init[i] == lanes[i]);
        }
        lemma_with_new_lanes(list, init);
        lemma_with_lanes(list, init);
        let x = LaneId(lanes.last());
        assert(lanes.last() == lanes[lanes.len() - 1]);
        assert(!init.contains(lanes.last())) by {
            if init.contains(lanes.last()) {
                let i = choose|i: int| 0 <= i < init.len() && init[i] == lanes.last();
                assert(lanes[i] < lanes[lanes.len() - 1]);
            }
        }
        assert(!with_lanes(list, init).contains(x));
        assert(with_lanes(list, lanes) =~= list + added);
    }
}

/// A dispatch is a selection among the ready lanes, each with the weight that
/// [`Scheduler::weight_for`] gives it, for as many contexts as there are.
pub proof fn dispatch_goes_by_the_weights(s: Scheduler, i: int, w: u32)
    requires
        s.wf(),
        0 <= i < s@.ready.len(),
        call_ensures(Scheduler::weight_for, (&s, s@.ready[i]), w),
    ensures
        s@.contenders().len() == s@.ready.len(),
        s@.contenders()[i].lane == s@.ready[i],
        s@.contenders()[i].weight == w,
{
}

/// What a dispatch takes: every lane it gives was ready and is ready no more; every other
/// ready lane is ready still, in the same order. It gives one lane for each context, or all
/// ready lanes if there are no more than contexts.
pub proof fn dispatch_takes_ready_lanes(s: &mut Scheduler, batch: Vec<LaneId>, lane: LaneId)
    requires
        old(s).wf(),
        total_weight(pool_of(old(s)@.contenders())) <= u64::MAX,
        call_ensures(Scheduler::take_dispatch_batch, (s,), batch),
    ensures
        batch@.contains(lane) ==> old(s)@.ready.contains(lane) && !final(s)@.ready.contains(lane),
        !batch@.contains(lane) ==> (final(s)@.ready.contains(lane) <==> old(s)@.ready.contains(
            lane,
        )),
        batch@.len() == if old(s)@.ready.len() <= old(s)@.contexts {
            old(s)@.ready.len()
        } else {
            old(s)@.contexts
        },
        old(s)@.ready.len() <= old(s)@.contexts ==> batch@ == old(s)@.ready
            && final(s)@.ready.len() == 0,
        final(s)@.stalled == old(s)@.stalled,
        final(s)@.now == old(s)@.now,
{
    batch_comes_from_the_ready_list(old(s)@);
    lemma_without_lanes(old(s)@.ready, batch@);
    if old(s)@.ready.len() <= old(s)@.contexts {
        assert(batch@ =~= old(s)@.ready);
        let left = final(s)@.ready;
        if left.len() > 0 {
            assert(left.contains(left[0]));
        }
    }
    if batch@.contains(lane) {
        let k = choose|k: int| 0 <= k < batch@.len() && batch@[k] == lane;
        assert(old(s)@.ready.contains(batch@[k]));
    }
}

/// Idling forward. Where a lane waits for a point of time, the clock goes to the earliest
/// such point, or stays if that has passed, so that a lane that waits for it is ready; no
/// timer is jumped. Where none does, nothing changes.
pub proof fn idle_clock_stops_at_the_earliest_timer(
    s: &mut Scheduler,
    moved: bool,
    lane: LaneId,
    d: Monotonic,
)
    requires
        old(s).wf(),
        call_ensures(Scheduler::advance_to_next_timer, (s,), moved),
        old(s)@.stalled.dom().contains(lane.0),
        old(s)@.stalled[lane.0] == WaitResource::Timer(d),
    ensures
        moved,
        final(s)@.now.nanos >= old(s)@.now.nanos,
        final(s)@.now.nanos > old(s)@.now.nanos ==> final(s)@.now.nanos <= d.nanos,
        final(s)@.ready.contains(lane) <==> d.nanos <= final(s)@.now.nanos,
        exists|k: u64|
            #[trigger] old(s)@.stalled.dom().contains(k) && final(s)@.ready.contains(LaneId(k)),
{
    let e = choose|e: Monotonic| #[trigger] earliest_timer(old(s)@.stalled, e);
    assert(has_timer(old(s)@.stalled));
    assert(earliest_timer(old(s)@.stalled, e));
    let at = final(s)@.now;
    lemma_due_lanes(old(s)@.waiting, old(s)@.stalled, at);
    let due = due_lanes(old(s)@.waiting, old(s)@.stalled, at);
    lemma_with_lanes(old(s)@.ready, due);
    assert(old(s)@.waiting.contains(lane.0));
    let k = choose|k: u64|
        #[trigger] old(s)@.stalled.dom().contains(k) && old(s)@.stalled[k] == WaitResource::Timer(
            e,
        );
    assert(old(s)@.waiting.contains(k));
    assert(is_due(old(s)@.stalled, at, k));
    assert(due.contains(k));
    assert(final(s)@.ready.contains(LaneId(k)));
}

} // verus!
