use vstd::prelude::*;

use crate::value::{SCALE, VALUE_LIMIT, abs, abs_i64, clamp, clamp_i64, in_limit, quotient, quotient_i64};

verus! {

/// Which delivery wins when a control offers both direct and sync control.
#[derive(PartialEq, Eq, Structural, Clone, Copy, Debug)]
pub enum PreferredControlMode {
    DirectControl,
    SyncControl,
}

/// A key chord such as `ctrl+shift+a`; times are in milliseconds.
#[derive(Debug)]
pub struct ControllerProfileControlAssignmentKeysAction {
    pub keys: String,
    pub press_time: Option<u64>,
    pub wait_time: Option<u64>,
}

/// How a normalized control value in `[-1, 1]` maps onto a target range.
#[derive(Debug)]
pub struct ControllerProfileDirectControlAssignmentInputValue {
    pub min: i64,
    pub max: i64,
    pub step: Option<i64>,
    /// Defined steps; a `None` between two of them marks a free-range zone.
    pub steps: Option<Vec<Option<i64>>>,
    pub invert: Option<bool>,
}

/// Closed-loop drive of an external value identified by `identifier`.
#[derive(Debug)]
pub struct ControllerProfileDirectControAssignmentSyncMode {
    pub identifier: String,
    pub input_value: ControllerProfileDirectControlAssignmentInputValue,
    pub action_increase: ControllerProfileControlAssignmentKeysAction,
    pub action_decrease: ControllerProfileControlAssignmentKeysAction,
}

/// Binds a control to a remote control component.
#[derive(Debug)]
pub struct ControllerProfileDirectControlAssignment {
    pub controls: String,
    pub hold: Option<bool>,
    pub input_value: ControllerProfileDirectControlAssignmentInputValue,
}

/// A fixed value sent to a remote control component.
#[derive(Debug)]
pub struct ControllerProfileControlAssignmentDirectControlAction {
    pub controls: String,
    pub value: i64,
    pub relative: Option<bool>,
    pub hold: Option<bool>,
}

#[derive(Debug)]
pub enum ControllerProfileControlAssignmentAction {
    Keys(ControllerProfileControlAssignmentKeysAction),
    DirectControl(ControllerProfileControlAssignmentDirectControlAction),
}

#[derive(Debug)]
pub struct ControllerProfileControlToggleAssignment {
    pub threshold: i64,
    pub action_activate: ControllerProfileControlAssignmentAction,
    pub action_deactivate: ControllerProfileControlAssignmentAction,
}

#[derive(Debug)]
pub struct ControllerProfileControlMomentaryAssignment {
    pub threshold: i64,
    pub action_activate: ControllerProfileControlAssignmentAction,
    pub action_deactivate: Option<ControllerProfileControlAssignmentAction>,
}

#[derive(Debug)]
pub struct ControllerProfileControlLinearAssignmentThreshold {
    pub value: i64,
    pub value_end: Option<i64>,
    pub value_step: Option<i64>,
    pub action_activate: ControllerProfileControlAssignmentAction,
    pub action_deactivate: Option<ControllerProfileControlAssignmentAction>,
}

#[derive(Debug)]
pub struct ControllerProfileControlLinearAssignment {
    pub neutral: Option<i64>,
    pub thresholds: Vec<ControllerProfileControlLinearAssignmentThreshold>,
}

#[derive(Debug)]
pub enum ControllerProfileControlAssignment {
    Momentary(ControllerProfileControlMomentaryAssignment),
    Linear(ControllerProfileControlLinearAssignment),
    Toggle(ControllerProfileControlToggleAssignment),
    DirectControl(ControllerProfileDirectControlAssignment),
    SyncControl(ControllerProfileDirectControAssignmentSyncMode),
}

#[derive(Debug)]
pub struct ControllerProfileControl {
    pub name: String,
    pub assignment: Option<ControllerProfileControlAssignment>,
    pub assignments: Option<Vec<ControllerProfileControlAssignment>>,
}

#[derive(Debug)]
pub struct ControllerProfile {
    pub name: String,
    pub controls: Vec<ControllerProfileControl>,
    /// Restricts the profile to one device (`VVVV:PPPP`).
    pub usb_id: Option<String>,
}

impl ControllerProfileControlAssignmentKeysAction {
    pub fn duplicate(&self) -> (r: Self)
        ensures
            r == *self,
    {
        ControllerProfileControlAssignmentKeysAction {
            keys: self.keys.clone(),
            press_time: self.press_time,
            wait_time: self.wait_time,
        }
    }
}

impl ControllerProfileControlAssignmentDirectControlAction {
    pub fn duplicate(&self) -> (r: Self)
        ensures
            r == *self,
    {
        ControllerProfileControlAssignmentDirectControlAction {
            controls: self.controls.clone(),
            value: self.value,
            relative: self.relative,
            hold: self.hold,
        }
    }
}

impl ControllerProfileControlAssignmentAction {
    pub fn duplicate(&self) -> (r: Self)
        ensures
            r == *self,
    {
        match self {
            ControllerProfileControlAssignmentAction::Keys(a) => ControllerProfileControlAssignmentAction::Keys(
                a.duplicate(),
            ),
            ControllerProfileControlAssignmentAction::DirectControl(a) => {
                ControllerProfileControlAssignmentAction::DirectControl(a.duplicate())
            },
        }
    }
}

pub fn duplicate_action_option(a: &Option<ControllerProfileControlAssignmentAction>) -> (r: Option<
    ControllerProfileControlAssignmentAction,
>)
    ensures
        r == *a,
{
    match a {
        Some(x) => Some(x.duplicate()),
        None => None,
    }
}

/// A threshold that stands for itself rather than for a range of thresholds.
pub open spec fn is_literal(t: ControllerProfileControlLinearAssignmentThreshold) -> bool {
    t.value_end is None || t.value_step is None
}

/// Number of thresholds a ranged threshold expands into.
pub open spec fn expansion_count(t: ControllerProfileControlLinearAssignmentThreshold) -> nat {
    if t.value <= t.value_end->Some_0 {
        ((t.value_end->Some_0 - t.value) / (t.value_step->Some_0 as int) + 1) as nat
    } else {
        0
    }
}

/// The `k`-th threshold of a ranged threshold: same actions, no range.
pub open spec fn expanded_at(t: ControllerProfileControlLinearAssignmentThreshold, k: int) -> ControllerProfileControlLinearAssignmentThreshold {
    ControllerProfileControlLinearAssignmentThreshold {
        value: (t.value + k * t.value_step->Some_0) as i64,
        value_end: None,
        value_step: None,
        action_activate: t.action_activate,
        action_deactivate: t.action_deactivate,
    }
}

/// The thresholds that one configured threshold stands for.
pub open spec fn expand_one(t: ControllerProfileControlLinearAssignmentThreshold) -> Seq<ControllerProfileControlLinearAssignmentThreshold> {
    if is_literal(t) {
        seq![t]
    } else {
        Seq::new(expansion_count(t), |k: int| expanded_at(t, k))
    }
}

/// The thresholds that a configured list stands for, in order.
pub open spec fn expanded(ts: Seq<ControllerProfileControlLinearAssignmentThreshold>) -> Seq<ControllerProfileControlLinearAssignmentThreshold>
    decreases ts.len(),
{
    if ts.len() == 0 {
        seq![]
    } else {
        expanded(ts.drop_last()) + expand_one(ts.last())
    }
}

proof fn lemma_expanded_of_literals(ts: Seq<ControllerProfileControlLinearAssignmentThreshold>)
    requires
        forall|i: int| 0 <= i < ts.len() ==> is_literal(#[trigger] ts[i]),
    ensures
        expanded(ts) == ts,
    decreases ts.len(),
{
    if ts.len() > 0 {
        assert(is_literal(ts[ts.len() - 1]));
        lemma_expanded_of_literals(ts.drop_last());
        assert(expanded(ts) =~= ts);
    }
}

proof fn lemma_expanded_is_literal(ts: Seq<ControllerProfileControlLinearAssignmentThreshold>)
    ensures
        forall|i: int| 0 <= i < expanded(ts).len() ==> is_literal(#[trigger] expanded(ts)[i]),
    decreases ts.len(),
{
    if ts.len() > 0 {
        lemma_expanded_is_literal(ts.drop_last());
        let a = expanded(ts.drop_last());
        let b = expand_one(ts.last());
        assert forall|i: int| 0 <= i < expanded(ts).len() implies is_literal(#[trigger] expanded(ts)[i]) by {
            if i >= a.len() {
                assert(expanded(ts)[i] == b[i - a.len()]);
            } else {
                assert(expanded(ts)[i] == a[i]);
            }
        }
    }
}

/// Expanding an already expanded threshold list leaves it unchanged: every
/// threshold that expansion produces is a literal one.
pub proof fn lemma_generated_thresholds_idempotent(a: ControllerProfileControlLinearAssignment)
    ensures
        expanded(expanded(a.thresholds@)) == expanded(a.thresholds@),
{
    lemma_expanded_is_literal(a.thresholds@);
    lemma_expanded_of_literals(expanded(a.thresholds@));
}

impl ControllerProfileControlLinearAssignmentThreshold {
    /// Values in range; a ranged threshold steps upward.
    pub open spec fn wf(&self) -> bool {
        &&& in_limit(self.value as int)
        &&& (self.value_end matches Some(e) ==> in_limit(e as int))
        &&& (self.value_step matches Some(s) ==> in_limit(s as int))
        &&& (!is_literal(*self) ==> self.value_step->Some_0 > 0)
    }

    pub fn duplicate(&self) -> (r: Self)
        ensures
            r == *self,
    {
        ControllerProfileControlLinearAssignmentThreshold {
            value: self.value,
            value_end: self.value_end,
            value_step: self.value_step,
            action_activate: self.action_activate.duplicate(),
            action_deactivate: duplicate_action_option(&self.action_deactivate),
        }
    }

    /// Negative thresholds are crossed from above, the others from below.
    pub fn is_exceeding_threshold(&self, value: i64) -> (r: bool)
        ensures
            r == exceeds(self.value as int, value as int),
    {
        if self.value < 0 {
            value < self.value
        } else {
            value >= self.value
        }
    }
}

/// `value` lies past threshold `t`: below a negative one, at or above the others.
pub open spec fn exceeds(t: int, value: int) -> bool {
    if t < 0 {
        value < t
    } else {
        value >= t
    }
}

/// The control value seen relative to a neutral point, scaled so that the
/// neutral point maps to zero and twice the neutral point to one.
pub open spec fn neutralized(neutral: Option<i64>, value: int) -> int {
    match neutral {
        Some(n) if n > 0 => quotient((value - n) * SCALE, n as int),
        _ => value,
    }
}

impl ControllerProfileControlLinearAssignment {
    pub open spec fn wf(&self) -> bool {
        &&& (self.neutral matches Some(n) ==> in_limit(n as int))
        &&& forall|i: int| 0 <= i < self.thresholds.len() ==> #[trigger] self.thresholds[i].wf()
    }

    /// Expands every ranged threshold into its steps, in order.
    pub fn generated_thresholds(&self) -> (r: Vec<ControllerProfileControlLinearAssignmentThreshold>)
        requires
            self.wf(),
        ensures
            r@ == expanded(self.thresholds@),
    {
        let mut out: Vec<ControllerProfileControlLinearAssignmentThreshold> = Vec::new();
        let n = self.thresholds.len();
        let mut i: usize = 0;
        while i < n
            invariant
                n == self.thresholds.len(),
                i <= n,
                self.wf(),
                out@ == expanded(self.thresholds@.subrange(0, i as int)),
            decreases n - i,
        {
            let t = &self.thresholds[i];
            proof {
                assert(self.thresholds@.subrange(0, i + 1).drop_last() == self.thresholds@.subrange(0, i as int));
                assert(self.thresholds@.subrange(0, i + 1).last() == *t);
                assert(t.wf());
            }
            if t.value_end.is_none() || t.value_step.is_none() {
                out.push(t.duplicate());
            } else {
                let end = t.value_end.unwrap();
                let step = t.value_step.unwrap();
                let ghost base = out@;
                let mut current = t.value;
                let mut k: u64 = 0;
                proof {
                    assert(in_limit(end as int));
                    assert(in_limit(step as int));
                }
                while current <= end
                    invariant
                        t.wf(),
                        in_limit(end as int),
                        in_limit(step as int),
                        in_limit(t.value as int),
                        k <= current - t.value,
                        end == t.value_end->Some_0,
                        step == t.value_step->Some_0,
                        step > 0,
                        current == t.value + k * step,
                        t.value <= end ==> k <= expansion_count(*t),
                        t.value > end ==> k == 0,
                        current <= end ==> k < expansion_count(*t),
                        current > end ==> k == expansion_count(*t),
                        out@ == base + Seq::new(k as nat, |j: int| expanded_at(*t, j)),
                    decreases expansion_count(*t) - k,
                {
                    proof {
                        let c = expansion_count(*t) as int;
                        assert(k + 1 <= c);
                        assert(current + step <= VALUE_LIMIT + VALUE_LIMIT);
                        if current + step <= end {
                            assert((end - t.value) / (step as int) >= k + 1) by (nonlinear_arith)
                                requires
                                    current == t.value + k * step,
                                    current + step <= end,
                                    step > 0,
                            ;
                        } else {
                            assert((end - t.value) / (step as int) <= k) by (nonlinear_arith)
                                requires
                                    current == t.value + k * step,
                                    current + step > end,
                                    current <= end,
                                    step > 0,
                            ;
                        }
                    }
                    out.push(
                        ControllerProfileControlLinearAssignmentThreshold {
                            value: current,
                            value_end: None,
                            value_step: None,
                            action_activate: t.action_activate.duplicate(),
                            action_deactivate: duplicate_action_option(&t.action_deactivate),
                        },
                    );
                    proof {
                        assert(out@ =~= base + Seq::new((k + 1) as nat, |j: int| expanded_at(*t, j)));
                    }
                    let ghost k0 = k;
                    current = current + step;
                    k = k + 1;
                    proof {
                        assert(k * step == k0 * step + step) by (nonlinear_arith)
                            requires
                                k == k0 + 1,
                        ;
                    }
                }
            }
            i = i + 1;
        }
        proof {
            assert(self.thresholds@.subrange(0, n as int) == self.thresholds@);
        }
        out
    }

    pub fn calculate_neutralized_value(&self, value: i64) -> (r: i64)
        requires
            self.wf(),
            in_limit(value as int),
        ensures
            r == neutralized(self.neutral, value as int),
    {
        match self.neutral {
            Some(n) if n > 0 => {
                quotient_i64((value - n) * SCALE, n)
            },
            _ => value,
        }
    }
}

/// The defined steps of an extended step list, nulls left out.
pub open spec fn defined_steps(steps: Seq<Option<i64>>) -> Seq<i64>
    decreases steps.len(),
{
    if steps.len() == 0 {
        seq![]
    } else {
        match steps.last() {
            Some(v) => defined_steps(steps.drop_last()).push(v),
            None => defined_steps(steps.drop_last()),
        }
    }
}

proof fn lemma_defined_steps_in_limit(steps: Seq<Option<i64>>)
    requires
        forall|i: int| 0 <= i < steps.len() ==> (#[trigger] steps[i] matches Some(x) ==> in_limit(x as int)),
    ensures
        forall|k: int| 0 <= k < defined_steps(steps).len() ==> in_limit(#[trigger] defined_steps(steps)[k] as int),
    decreases steps.len(),
{
    if steps.len() > 0 {
        let d = steps.drop_last();
        assert forall|i: int| 0 <= i < d.len() implies (#[trigger] d[i] matches Some(x) ==> in_limit(x as int)) by {
            assert(d[i] == steps[i]);
        }
        lemma_defined_steps_in_limit(d);
        assert(steps[steps.len() - 1] == steps.last());
        let ds = defined_steps(steps);
        let dd = defined_steps(d);
        assert forall|k: int| 0 <= k < ds.len() implies in_limit(#[trigger] ds[k] as int) by {
            if k < dd.len() {
                assert(ds[k] == dd[k]);
            }
        }
    }
}

/// Scan of a step list: the last defined step (or `min`), whether a null
/// follows it, and the free-range zones closed so far.
pub open spec fn zone_scan(steps: Seq<Option<i64>>, min: i64) -> (i64, bool, Seq<(i64, i64)>)
    decreases steps.len(),
{
    if steps.len() == 0 {
        (min, false, seq![])
    } else {
        let (prev, gap, zones) = zone_scan(steps.drop_last(), min);
        match steps.last() {
            None => (prev, true, zones),
            Some(v) => (v, false, if gap { zones.push((prev, v)) } else { zones }),
        }
    }
}

/// Free-range zones: each run of nulls spans from the defined step before it
/// (or `min`) to the defined step after it (or `max`).
pub open spec fn free_zones(steps: Seq<Option<i64>>, min: i64, max: i64) -> Seq<(i64, i64)> {
    let (prev, gap, zones) = zone_scan(steps, min);
    if gap {
        zones.push((prev, max))
    } else {
        zones
    }
}

/// `x` lies in one of the zones, bounds included.
pub open spec fn in_some_zone(zones: Seq<(i64, i64)>, x: int) -> bool {
    exists|i: int| 0 <= i < zones.len() && (#[trigger] zones[i]).0 <= x <= zones[i].1
}

/// Steps `min, min + step, ...` below `max`, then `max`; at least `min`.
pub open spec fn synthesized_steps(min: int, max: int, step: int) -> Seq<i64> {
    let n: nat = if min >= max {
        1
    } else {
        ((max - min + step - 1) / step) as nat
    };
    Seq::new(n, |j: int| (min + j * step) as i64).push(max as i64)
}

/// The step nearest to `x`; on a tie the earlier one.
pub open spec fn nearest(s: Seq<i64>, x: int) -> int
    decreases s.len(),
{
    if s.len() <= 1 {
        s[0] as int
    } else {
        let c = nearest(s.drop_last(), x);
        if abs(x - s.last()) < abs(x - c) {
            s.last() as int
        } else {
            c
        }
    }
}

/// The input clamped to `[-1, 1]`, mirrored within each half when inverted.
pub open spec fn oriented_input(invert: Option<bool>, v: int) -> int {
    let c = clamp(v, -SCALE as int, SCALE as int);
    if invert == Some(true) {
        if c < 0 {
            -SCALE - c
        } else {
            SCALE - c
        }
    } else {
        c
    }
}

impl ControllerProfileDirectControlAssignmentInputValue {
    pub open spec fn wf(&self) -> bool {
        &&& in_limit(self.min as int)
        &&& in_limit(self.max as int)
        &&& (self.spec_steps() is None || self.spec_zones().len() > 0 ==> self.min <= self.max)
        &&& (self.step matches Some(s) ==> in_limit(s as int))
        &&& (self.steps is None && self.step is Some ==> self.step->Some_0 > 0)
        &&& (self.steps matches Some(st) ==> {
            &&& forall|i: int| 0 <= i < st.len() ==> (#[trigger] st@[i] matches Some(x) ==> in_limit(x as int))
            &&& defined_steps(st@).len() > 0
        })
    }

    /// `min + input * |max - min|`, before any snapping.
    pub open spec fn spec_normal(&self, v: int) -> int {
        quotient(oriented_input(self.invert, v) * abs(self.max - self.min), SCALE as int) + self.min
    }

    /// The steps that the normal value snaps to, if any.
    pub open spec fn spec_steps(&self) -> Option<Seq<i64>> {
        match self.steps {
            Some(st) => Some(defined_steps(st@)),
            None => match self.step {
                Some(s) => Some(synthesized_steps(self.min as int, self.max as int, s as int)),
                None => None,
            },
        }
    }

    pub open spec fn spec_zones(&self) -> Seq<(i64, i64)> {
        match self.steps {
            Some(st) => free_zones(st@, self.min, self.max),
            None => seq![],
        }
    }

    /// The value that a control value `v` maps to.
    pub open spec fn spec_calculate(&self, v: int) -> int {
        let normal = self.spec_normal(v);
        match self.spec_steps() {
            Some(st) => if in_some_zone(self.spec_zones(), normal) {
                clamp(normal, self.min as int, self.max as int)
            } else {
                nearest(st, normal)
            },
            None => clamp(normal, self.min as int, self.max as int),
        }
    }

    /// Free-range zones between defined steps.
    pub fn free_range_zones(&self) -> (r: Vec<(i64, i64)>)
        ensures
            r@ == self.spec_zones(),
    {
        let mut zones: Vec<(i64, i64)> = Vec::new();
        match &self.steps {
            None => zones,
            Some(st) => {
                let mut previous_value = self.min;
                let mut is_free_range_zone = false;
                let mut i: usize = 0;
                while i < st.len()
                    invariant
                        i <= st.len(),
                        zone_scan(st@.subrange(0, i as int), self.min) == (previous_value, is_free_range_zone, zones@),
                    decreases st.len() - i,
                {
                    proof {
                        assert(st@.subrange(0, i + 1).drop_last() == st@.subrange(0, i as int));
                    }
                    match st[i] {
                        None => {
                            is_free_range_zone = true;
                        },
                        Some(v) => {
                            if is_free_range_zone {
                                zones.push((previous_value, v));
                            }
                            is_free_range_zone = false;
                            previous_value = v;
                        },
                    }
                    i = i + 1;
                }
                assert(st@.subrange(0, st.len() as int) == st@);
                if is_free_range_zone {
                    zones.push((previous_value, self.max));
                }
                zones
            },
        }
    }

    /// The defined steps, nulls left out; `None` without a step list.
    pub fn normal_steps(&self) -> (r: Option<Vec<i64>>)
        ensures
            r is Some <==> self.steps is Some,
            r matches Some(v) ==> v@ == defined_steps(self.steps->Some_0@),
    {

        match &self.steps {
            None => None,
            Some(st) => {
                let mut out: Vec<i64> = Vec::new();
                let mut i: usize = 0;
                while i < st.len()
                    invariant
                        i <= st.len(),
                        out@ == defined_steps(st@.subrange(0, i as int)),
                    decreases st.len() - i,
                {
                    proof {
                        assert(st@.subrange(0, i + 1).drop_last() == st@.subrange(0, i as int));
                    }
                    if let Some(v) = st[i] {
                        out.push(v);
                    }
                    i = i + 1;
                }
                assert(st@.subrange(0, st.len() as int) == st@);
                Some(out)
            },
        }
    }

    /// Maps a control value in `[-1, 1]` onto `[min, max]`, snapping to the
    /// nearest step outside free-range zones.
    pub fn calculate_normal_value(&self, value: i64) -> (r: i64)
        requires
            self.wf(),
        ensures
            r == self.spec_calculate(value as int),
            in_limit(r as int),
    {
        let c = clamp_i64(value, -SCALE, SCALE);
        let input: i64 = match self.invert {
            Some(true) => if c < 0 {
                -SCALE - c
            } else {
                SCALE - c
            },
            _ => c,
        };
        let total_distance = abs_i64(self.max - self.min);
        assert(-SCALE <= input <= SCALE);
        assert(-SCALE * total_distance <= input * total_distance <= SCALE * total_distance) by (nonlinear_arith)
            requires
                -SCALE <= input <= SCALE,
                total_distance >= 0,
        ;
        let normal = quotient_i64(input * total_distance, SCALE) + self.min;
        proof {
            assert(quotient(input * total_distance, SCALE as int) <= total_distance) by {
                assert((SCALE * total_distance) / (SCALE as int) == total_distance) by (nonlinear_arith)
                    requires total_distance >= 0;
                assert(abs(input * total_distance) <= SCALE * total_distance);
                crate::value::lemma_quotient_bounded(input * total_distance, SCALE as int, total_distance as int);
            }
        }
        proof {
            if self.steps is Some {
                lemma_defined_steps_in_limit(self.steps->Some_0@);
            }
        }
        let steps: Option<Vec<i64>> = match self.normal_steps() {
            Some(st) => Some(st),
            None => match self.step {
                Some(step) => Some(self.stepped_range(step)),
                None => None,
            },
        };
        match steps {
            None => clamp_i64(normal, self.min, self.max),
            Some(st) => {
                let zones = self.free_range_zones();
                let mut is_free_range = false;
                let mut i: usize = 0;
                while i < zones.len()
                    invariant
                        i <= zones.len(),
                        is_free_range == in_some_zone(zones@.subrange(0, i as int), normal as int),
                    decreases zones.len() - i,
                {
                    proof {
                        let a = zones@.subrange(0, i as int);
                        let b = zones@.subrange(0, i + 1);
                        if in_some_zone(a, normal as int) {
                            let w = choose|w: int| 0 <= w < a.len() && (#[trigger] a[w]).0 <= normal <= a[w].1;
                            assert(b[w] == a[w]);
                        }
                        if in_some_zone(b, normal as int) && !in_some_zone(a, normal as int) {
                            let w = choose|w: int| 0 <= w < b.len() && (#[trigger] b[w]).0 <= normal <= b[w].1;
                            if w < i {
                                assert(a[w] == b[w]);
                            }
                        }
                    }
                    let (zone_start, zone_end) = zones[i];
                    if normal >= zone_start && normal <= zone_end {
                        is_free_range = true;
                        proof {
                            let b = zones@.subrange(0, i + 1);
                            assert(b[i as int] == zones@[i as int]);
                        }
                    }
                    i = i + 1;
                }
                assert(zones@.subrange(0, zones.len() as int) == zones@);
                if is_free_range {
                    return clamp_i64(normal, self.min, self.max);
                }
                self.nearest_step(&st, normal)
            },
        }
    }

    /// Steps `min, min + step, ...` up to and including `max`.
    fn stepped_range(&self, step: i64) -> (r: Vec<i64>)
        requires
            self.wf(),
            step > 0,
            step <= VALUE_LIMIT,
        ensures
            r@ == synthesized_steps(self.min as int, self.max as int, step as int),
            forall|j: int| 0 <= j < r@.len() ==> in_limit(#[trigger] r@[j] as int),
    {
        let mut out: Vec<i64> = Vec::new();
        let mut current = self.min;
        let mut k: u64 = 0;
        let ghost n: int = if self.min >= self.max {
            1
        } else {
            (self.max - self.min + step - 1) / (step as int)
        };
        proof {
            if self.min < self.max {
                assert(n >= 1) by (nonlinear_arith)
                    requires
                        n == (self.max - self.min + step - 1) / (step as int),
                        self.max - self.min >= 1,
                        step > 0,
                ;
            }
        }
        loop
            invariant
                self.wf(),
                step > 0,
                step <= VALUE_LIMIT,
                n >= 1,
                n == (if self.min >= self.max { 1 } else { (self.max - self.min + step - 1) / (step as int) }),
                current == self.min + k * step,
                self.min <= current,
                k == 0 ==> current == self.min,
                k > 0 ==> current <= self.max,
                forall|j: int| 0 <= j < out@.len() ==> in_limit(#[trigger] out@[j] as int),
                k < n,
                k == 0 || current < self.max,
                out@ == Seq::new(k as nat, |j: int| (self.min + j * step) as i64),
            decreases n - k,
        {
            out.push(current);
            let next = if current + step < self.max {
                current + step
            } else {
                self.max
            };
            let ghost k0 = k;
            proof {
                assert((k + 1) * step == k * step + step) by (nonlinear_arith);
                if self.min < self.max {
                    if current + step < self.max {
                        assert(k + 1 < n) by (nonlinear_arith)
                            requires
                                n == (self.max - self.min + step - 1) / (step as int),
                                self.min + (k + 1) * step < self.max,
                                step > 0,
                        ;
                    } else {
                        assert(k + 1 >= n) by (nonlinear_arith)
                            requires
                                n == (self.max - self.min + step - 1) / (step as int),
                                self.min + (k + 1) * step >= self.max,
                                step > 0,
                        ;
                    }
                }
            }
            if next >= self.max {
                out.push(self.max);
                proof {
                    assert(k + 1 == n);
                    assert(out@ =~= Seq::new(n as nat, |j: int| (self.min + j * step) as i64).push(self.max));
                }
                return out;
            }
            current = next;
            k = k + 1;
            proof {
                assert(out@ =~= Seq::new(k as nat, |j: int| (self.min + j * step) as i64));
            }
        }
    }

    /// The first step at the least distance from `x`.
    fn nearest_step(&self, steps: &Vec<i64>, x: i64) -> (r: i64)
        requires
            steps.len() > 0,
            forall|i: int| 0 <= i < steps.len() ==> in_limit(#[trigger] steps@[i] as int),
            -3 * VALUE_LIMIT <= x <= 3 * VALUE_LIMIT,
        ensures
            r == nearest(steps@, x as int),
            in_limit(r as int),
    {
        let mut closest = steps[0];
        let mut i: usize = 1;
        proof {
            assert(steps@.subrange(0, 1).len() == 1);
        }
        while i < steps.len()
            invariant
                1 <= i <= steps.len(),
                forall|j: int| 0 <= j < steps.len() ==> in_limit(#[trigger] steps@[j] as int),
                -3 * VALUE_LIMIT <= x <= 3 * VALUE_LIMIT,
                closest == nearest(steps@.subrange(0, i as int), x as int),
                in_limit(closest as int),
            decreases steps.len() - i,
        {
            proof {
                assert(steps@.subrange(0, i + 1).drop_last() == steps@.subrange(0, i as int));
                assert(steps@.subrange(0, i + 1).last() == steps@[i as int]);
            }
            if abs_i64(x - steps[i]) < abs_i64(x - closest) {
                closest = steps[i];
            }
            i = i + 1;
        }
        assert(steps@.subrange(0, steps.len() as int) == steps@);
        closest
    }
}

/// Without steps, the mapped value does not decrease as the control value
/// grows (inverted: does not increase, within each half of the travel); it is
/// `min` at rest and `max` at full travel (the other way round when inverted).
pub proof fn lemma_calculate_monotonic(iv: ControllerProfileDirectControlAssignmentInputValue, v1: int, v2: int)
    requires
        iv.wf(),
        iv.steps is None,
        iv.step is None,
        v1 <= v2,
    ensures
        iv.invert != Some(true) ==> iv.spec_calculate(v1) <= iv.spec_calculate(v2),
        iv.invert == Some(true) && (v2 < 0 || 0 <= v1) ==> iv.spec_calculate(v1) >= iv.spec_calculate(v2),
        iv.invert != Some(true) ==> iv.spec_calculate(0) == iv.min && iv.spec_calculate(SCALE as int) == iv.max,
        iv.invert == Some(true) ==> iv.spec_calculate(0) == iv.max && iv.spec_calculate(SCALE as int) == iv.min,
{
    let d = iv.max - iv.min;
    let i1 = oriented_input(iv.invert, v1);
    let i2 = oriented_input(iv.invert, v2);
    if iv.invert != Some(true) {
        assert(i1 <= i2);
        assert(i1 * d <= i2 * d) by (nonlinear_arith)
            requires
                i1 <= i2,
                d >= 0,
        ;
        crate::value::lemma_quotient_monotonic(i1 * d, i2 * d, SCALE as int);
    } else if v2 < 0 || 0 <= v1 {
        assert(i2 <= i1);
        assert(i2 * d <= i1 * d) by (nonlinear_arith)
            requires
                i2 <= i1,
                d >= 0,
        ;
        crate::value::lemma_quotient_monotonic(i2 * d, i1 * d, SCALE as int);
    }
    assert(quotient(0 * d, SCALE as int) == 0);
    assert((SCALE * d) / (SCALE as int) == d) by (nonlinear_arith)
        requires
            d >= 0,
    ;
    assert(quotient(SCALE * d, SCALE as int) == d);
}

impl ControllerProfileDirectControlAssignmentInputValue {
    /// Same settings, step lists compared by their contents.
    pub open spec fn same(&self, o: &Self) -> bool {
        &&& self.min == o.min
        &&& self.max == o.max
        &&& self.step == o.step
        &&& self.invert == o.invert
        &&& self.steps is Some <==> o.steps is Some
        &&& self.steps is Some ==> self.steps->Some_0@ == o.steps->Some_0@
    }

    pub fn duplicate(&self) -> (r: Self)
        ensures
            r.same(self),
    {
        let steps = match &self.steps {
            Some(st) => {
                let mut c: Vec<Option<i64>> = Vec::new();
                let mut i: usize = 0;
                while i < st.len()
                    invariant
                        i <= st.len(),
                        c@ == st@.subrange(0, i as int),
                    decreases st.len() - i,
                {
                    c.push(st[i]);
                    i = i + 1;
                }
                assert(c@ == st@);
                Some(c)
            },
            None => None,
        };
        ControllerProfileDirectControlAssignmentInputValue {
            min: self.min,
            max: self.max,
            step: self.step,
            steps,
            invert: self.invert,
        }
    }
}

impl ControllerProfileControlAssignment {
    /// Same assignment, lists compared by their contents.
    pub open spec fn same(&self, o: &Self) -> bool {
        match (self, o) {
            (
                ControllerProfileControlAssignment::Momentary(a),
                ControllerProfileControlAssignment::Momentary(b),
            ) => a == b,
            (ControllerProfileControlAssignment::Toggle(a), ControllerProfileControlAssignment::Toggle(b)) => a
                == b,
            (ControllerProfileControlAssignment::Linear(a), ControllerProfileControlAssignment::Linear(b)) => {
                a.neutral == b.neutral && a.thresholds@ == b.thresholds@
            },
            (
                ControllerProfileControlAssignment::DirectControl(a),
                ControllerProfileControlAssignment::DirectControl(b),
            ) => a.controls == b.controls && a.hold == b.hold && a.input_value.same(&b.input_value),
            (
                ControllerProfileControlAssignment::SyncControl(a),
                ControllerProfileControlAssignment::SyncControl(b),
            ) => a.identifier == b.identifier && a.input_value.same(&b.input_value) && a.action_increase
                == b.action_increase && a.action_decrease == b.action_decrease,
            _ => false,
        }
    }

    pub fn duplicate(&self) -> (r: Self)
        ensures
            r.same(self),
    {
        match self {
            ControllerProfileControlAssignment::Momentary(a) => ControllerProfileControlAssignment::Momentary(
                ControllerProfileControlMomentaryAssignment {
                    threshold: a.threshold,
                    action_activate: a.action_activate.duplicate(),
                    action_deactivate: duplicate_action_option(&a.action_deactivate),
                },
            ),
            ControllerProfileControlAssignment::Toggle(a) => ControllerProfileControlAssignment::Toggle(
                ControllerProfileControlToggleAssignment {
                    threshold: a.threshold,
                    action_activate: a.action_activate.duplicate(),
                    action_deactivate: a.action_deactivate.duplicate(),
                },
            ),
            ControllerProfileControlAssignment::Linear(a) => {
                let mut ts: Vec<ControllerProfileControlLinearAssignmentThreshold> = Vec::new();
                let mut i: usize = 0;
                while i < a.thresholds.len()
                    invariant
                        i <= a.thresholds.len(),
                        ts@ == a.thresholds@.subrange(0, i as int),
                    decreases a.thresholds.len() - i,
                {
                    ts.push(a.thresholds[i].duplicate());
                    i = i + 1;
                }
                assert(ts@ == a.thresholds@);
                ControllerProfileControlAssignment::Linear(
                    ControllerProfileControlLinearAssignment { neutral: a.neutral, thresholds: ts },
                )
            },
            ControllerProfileControlAssignment::DirectControl(a) => ControllerProfileControlAssignment::DirectControl(
                ControllerProfileDirectControlAssignment {
                    controls: a.controls.clone(),
                    hold: a.hold,
                    input_value: a.input_value.duplicate(),
                },
            ),
            ControllerProfileControlAssignment::SyncControl(a) => ControllerProfileControlAssignment::SyncControl(
                ControllerProfileDirectControAssignmentSyncMode {
                    identifier: a.identifier.clone(),
                    input_value: a.input_value.duplicate(),
                    action_increase: a.action_increase.duplicate(),
                    action_decrease: a.action_decrease.duplicate(),
                },
            ),
        }
    }
}

pub open spec fn is_direct(a: ControllerProfileControlAssignment) -> bool {
    a is DirectControl
}

pub open spec fn is_sync(a: ControllerProfileControlAssignment) -> bool {
    a is SyncControl
}

/// Whether an assignment stays in the list under the preferred mode, given
/// whether the list offers direct (`dc`) and sync (`sc`) control.
pub open spec fn kept(a: ControllerProfileControlAssignment, mode: PreferredControlMode, dc: bool, sc: bool) -> bool {
    if mode == PreferredControlMode::DirectControl && dc {
        !is_sync(a)
    } else if mode == PreferredControlMode::SyncControl && sc {
        !is_direct(a)
    } else {
        true
    }
}

/// Positions, in order, of the assignments that `kept` keeps.
pub open spec fn kept_positions(list: Seq<ControllerProfileControlAssignment>, mode: PreferredControlMode, dc: bool, sc: bool) -> Seq<int>
    decreases list.len(),
{
    if list.len() == 0 {
        seq![]
    } else {
        let rest = kept_positions(list.drop_last(), mode, dc, sc);
        if kept(list.last(), mode, dc, sc) {
            rest.push(list.len() - 1)
        } else {
            rest
        }
    }
}

/// The assignments of a control after filtering by the preferred mode, as
/// positions into its listed assignments.
pub open spec fn slot_positions(list: Seq<ControllerProfileControlAssignment>, mode: PreferredControlMode) -> Seq<int> {
    let dc = exists|i: int| 0 <= i < list.len() && is_direct(#[trigger] list[i]);
    let sc = exists|i: int| 0 <= i < list.len() && is_sync(#[trigger] list[i]);
    kept_positions(list, mode, dc, sc)
}

impl ControllerProfileControl {
    /// The single assignment, else the assignment list, else nothing.
    pub open spec fn listed(&self) -> Seq<ControllerProfileControlAssignment> {
        match self.assignment {
            Some(a) => seq![a],
            None => match self.assignments {
                Some(v) => v@,
                None => seq![],
            },
        }
    }

    pub open spec fn spec_slots(&self, mode: PreferredControlMode) -> Seq<int> {
        slot_positions(self.listed(), mode)
    }

    /// The assignment at position `i` of the listed assignments.
    pub fn listed_at(&self, i: usize) -> (r: &ControllerProfileControlAssignment)
        requires
            i < self.listed().len(),
        ensures
            *r == self.listed()[i as int],
    {
        match &self.assignment {
            Some(a) => a,
            None => {
                let v = self.assignments.as_ref().unwrap();
                &v[i]
            },
        }
    }

    pub fn listed_len(&self) -> (r: usize)
        ensures
            r == self.listed().len(),
    {
        match &self.assignment {
            Some(_) => 1,
            None => match &self.assignments {
                Some(v) => v.len(),
                None => 0,
            },
        }
    }

    /// Positions of the assignments that apply under the preferred mode:
    /// with direct control preferred and offered, sync control is left out,
    /// and the other way round.
    pub fn assignment_slots(&self, preferred_control_mode: PreferredControlMode) -> (r: Vec<usize>)
        ensures
            r@.len() == self.spec_slots(preferred_control_mode).len(),
            forall|k: int| 0 <= k < r@.len() ==> r@[k] as int == #[trigger] self.spec_slots(preferred_control_mode)[k],
            forall|k: int| 0 <= k < r@.len() ==> #[trigger] r@[k] < self.listed().len(),
    {
        let n = self.listed_len();
        let ghost list = self.listed();
        let mut has_direct_control = false;
        let mut has_sync_control = false;
        let mut i: usize = 0;
        while i < n
            invariant
                n == list.len(),
                list == self.listed(),
                i <= n,
                has_direct_control == exists|j: int| 0 <= j < i && is_direct(#[trigger] list[j]),
                has_sync_control == exists|j: int| 0 <= j < i && is_sync(#[trigger] list[j]),
            decreases n - i,
        {
            let a = self.listed_at(i);
            match a {
                ControllerProfileControlAssignment::DirectControl(_) => {
                    has_direct_control = true;
                },
                ControllerProfileControlAssignment::SyncControl(_) => {
                    has_sync_control = true;
                },
                _ => {},
            }
            i = i + 1;
        }
        let ghost dc = has_direct_control;
        let ghost sc = has_sync_control;
        let mut out: Vec<usize> = Vec::new();
        let mut i: usize = 0;
        while i < n
            invariant
                n == list.len(),
                list == self.listed(),
                i <= n,
                dc == has_direct_control,
                sc == has_sync_control,
                out@.len() == kept_positions(list.subrange(0, i as int), preferred_control_mode, dc, sc).len(),
                forall|k: int| 0 <= k < out@.len() ==> out@[k] as int == #[trigger] kept_positions(list.subrange(0, i as int), preferred_control_mode, dc, sc)[k],
                forall|k: int| 0 <= k < out@.len() ==> #[trigger] out@[k] < i,
            decreases n - i,
        {
            proof {
                assert(list.subrange(0, i + 1).drop_last() == list.subrange(0, i as int));
                assert(list.subrange(0, i + 1).last() == list[i as int]);
            }
            let a = self.listed_at(i);
            let keep = if preferred_control_mode == PreferredControlMode::DirectControl && has_direct_control {
                !matches!(a, ControllerProfileControlAssignment::SyncControl(_))
            } else if preferred_control_mode == PreferredControlMode::SyncControl && has_sync_control {
                !matches!(a, ControllerProfileControlAssignment::DirectControl(_))
            } else {
                true
            };
            if keep {
                out.push(i);
            }
            i = i + 1;
        }
        assert(list.subrange(0, n as int) == list);
        out
    }

    /// The assignments that apply under the preferred mode, in order.
    pub fn get_assignments(&self, preferred_control_mode: PreferredControlMode) -> (r: Vec<ControllerProfileControlAssignment>)
        ensures
            r@.len() == self.spec_slots(preferred_control_mode).len(),
            forall|k: int| 0 <= k < r@.len() ==> (#[trigger] r@[k]).same(&self.listed()[self.spec_slots(preferred_control_mode)[k]]),
    {
        let slots = self.assignment_slots(preferred_control_mode);
        let mut out: Vec<ControllerProfileControlAssignment> = Vec::new();
        let mut k: usize = 0;
        while k < slots.len()
            invariant
                k <= slots.len(),
                slots@.len() == self.spec_slots(preferred_control_mode).len(),
                forall|j: int| 0 <= j < slots@.len() ==> slots@[j] as int == #[trigger] self.spec_slots(preferred_control_mode)[j],
                forall|j: int| 0 <= j < slots@.len() ==> #[trigger] slots@[j] < self.listed().len(),
                out@.len() == k,
                forall|j: int| 0 <= j < k ==> (#[trigger] out@[j]).same(&self.listed()[self.spec_slots(preferred_control_mode)[j]]),
            decreases slots.len() - k,
        {
            let a = self.listed_at(slots[k]).duplicate();
            out.push(a);
            k = k + 1;
        }
        out
    }
}

/// Position of the first control named `name` at or after `i`.
pub open spec fn control_index(cs: Seq<ControllerProfileControl>, name: Seq<char>, i: int) -> Option<int>
    decreases cs.len() - i,
{
    if i < 0 || i >= cs.len() {
        None
    } else if cs[i].name@ == name {
        Some(i)
    } else {
        control_index(cs, name, i + 1)
    }
}

pub proof fn lemma_control_index_range(cs: Seq<ControllerProfileControl>, name: Seq<char>, i: int)
    ensures
        control_index(cs, name, i) matches Some(k) ==> 0 <= i <= k < cs.len(),
    decreases cs.len() - i,
{
    if 0 <= i < cs.len() && cs[i].name@ != name {
        lemma_control_index_range(cs, name, i + 1);
    }
}

impl ControllerProfileControlAssignmentAction {
    /// A direct-control value within the configured range.
    pub open spec fn wf(&self) -> bool {
        self matches ControllerProfileControlAssignmentAction::DirectControl(d) ==> in_limit(d.value as int)
    }
}

pub open spec fn action_option_wf(a: Option<ControllerProfileControlAssignmentAction>) -> bool {
    a matches Some(x) ==> x.wf()
}

impl ControllerProfileControlAssignment {
    pub open spec fn wf(&self) -> bool {
        match self {
            ControllerProfileControlAssignment::Momentary(m) => m.action_activate.wf() && action_option_wf(
                m.action_deactivate,
            ),
            ControllerProfileControlAssignment::Toggle(t) => t.action_activate.wf() && t.action_deactivate.wf(),
            ControllerProfileControlAssignment::Linear(l) => l.wf() && forall|i: int|
                0 <= i < l.thresholds.len() ==> (#[trigger] l.thresholds@[i]).action_activate.wf() && action_option_wf(
                    l.thresholds@[i].action_deactivate,
                ),
            ControllerProfileControlAssignment::DirectControl(d) => d.input_value.wf(),
            ControllerProfileControlAssignment::SyncControl(c) => c.input_value.wf(),
        }
    }
}

impl ControllerProfileControl {
    pub open spec fn wf(&self) -> bool {
        forall|i: int| 0 <= i < self.listed().len() ==> (#[trigger] self.listed()[i]).wf()
    }
}

impl ControllerProfile {
    pub open spec fn wf(&self) -> bool {
        forall|i: int| 0 <= i < self.controls.len() ==> (#[trigger] self.controls@[i]).wf()
    }
}

impl ControllerProfile {
    /// The first control with the given name.
    pub fn find_control(&self, name: &str) -> (r: Option<&ControllerProfileControl>)
        ensures
            r is None <==> control_index(self.controls@, name@, 0) is None,
            r matches Some(c) ==> *c == self.controls@[control_index(self.controls@, name@, 0)->Some_0],
            self.wf() ==> (r matches Some(c) ==> c.wf()),
            r is None <==> forall|i: int| 0 <= i < self.controls.len() ==> (#[trigger] self.controls@[i]).name@ != name@,
            r matches Some(c) ==> exists|i: int|
                0 <= i < self.controls.len() && #[trigger] self.controls@[i] == *c && c.name@ == name@ && forall|j: int|
                    0 <= j < i ==> (#[trigger] self.controls@[j]).name@ != name@,
    {
        proof {
            lemma_control_index_range(self.controls@, name@, 0);
        }
        let wanted = String::from_str(name);
        let mut i: usize = 0;
        while i < self.controls.len()
            invariant
                i <= self.controls.len(),
                wanted@ == name@,
                control_index(self.controls@, name@, 0) == control_index(self.controls@, name@, i as int),
                forall|j: int| 0 <= j < i ==> (#[trigger] self.controls@[j]).name@ != name@,
            decreases self.controls.len() - i,
        {
            if self.controls[i].name == wanted {
                return Some(&self.controls[i]);
            }
            i = i + 1;
        }
        None
    }
}

fn in_limit_exec(x: i64) -> (r: bool)
    ensures
        r == in_limit(x as int),
{
    -VALUE_LIMIT <= x && x <= VALUE_LIMIT
}

impl ControllerProfileControlAssignmentAction {
    pub fn check(&self) -> (r: bool)
        ensures
            r == self.wf(),
    {
        match self {
            ControllerProfileControlAssignmentAction::Keys(_) => true,
            ControllerProfileControlAssignmentAction::DirectControl(d) => in_limit_exec(d.value),
        }
    }
}

fn check_action_option(a: &Option<ControllerProfileControlAssignmentAction>) -> (r: bool)
    ensures
        r == action_option_wf(*a),
{
    match a {
        Some(x) => x.check(),
        None => true,
    }
}

impl ControllerProfileControlLinearAssignmentThreshold {
    pub fn check(&self) -> (r: bool)
        ensures
            r == (self.wf() && self.action_activate.wf() && action_option_wf(self.action_deactivate)),
    {
        let ranges = in_limit_exec(self.value) && match self.value_end {
            Some(e) => in_limit_exec(e),
            None => true,
        } && match self.value_step {
            Some(s) => in_limit_exec(s),
            None => true,
        };
        let steps_up = match (self.value_end, self.value_step) {
            (Some(_), Some(s)) => s > 0,
            _ => true,
        };
        ranges && steps_up && self.action_activate.check() && check_action_option(&self.action_deactivate)
    }
}

impl ControllerProfileDirectControlAssignmentInputValue {
    pub fn check(&self) -> (r: bool)
        ensures
            r == self.wf(),
    {
        if !(in_limit_exec(self.min) && in_limit_exec(self.max)) {
            return false;
        }
        let discrete = self.steps.is_some() || self.step.is_some();
        if (!discrete || self.free_range_zones().len() > 0) && self.min > self.max {
            return false;
        }
        if let Some(s) = self.step {
            if !in_limit_exec(s) {
                return false;
            }
            if self.steps.is_none() && s <= 0 {
                return false;
            }
        }
        match &self.steps {
            None => true,
            Some(st) => {
                let mut i: usize = 0;
                while i < st.len()
                    invariant
                        i <= st.len(),
                        self.steps is Some,
                        self.steps->Some_0 == *st,
                        forall|j: int| 0 <= j < i ==> (#[trigger] st@[j] matches Some(x) ==> in_limit(x as int)),
                    decreases st.len() - i,
                {
                    if let Some(x) = st[i] {
                        if !in_limit_exec(x) {
                            proof {
                                assert(!(st@[i as int] matches Some(y) ==> in_limit(y as int)));
                                assert(self.steps->Some_0@[i as int] == st@[i as int]);
                            }
                            return false;
                        }
                    }
                    i = i + 1;
                }
                match self.normal_steps() {
                    Some(d) => d.len() > 0,
                    None => false,
                }
            },
        }
    }
}

impl ControllerProfileControlAssignment {
    pub fn check(&self) -> (r: bool)
        ensures
            r == self.wf(),
    {
        match self {
            ControllerProfileControlAssignment::Momentary(m) => m.action_activate.check() && check_action_option(
                &m.action_deactivate,
            ),
            ControllerProfileControlAssignment::Toggle(t) => t.action_activate.check() && t.action_deactivate.check(),
            ControllerProfileControlAssignment::Linear(l) => {
                if let Some(n) = l.neutral {
                    if !in_limit_exec(n) {
                        return false;
                    }
                }
                let mut i: usize = 0;
                while i < l.thresholds.len()
                    invariant
                        i <= l.thresholds.len(),
                        *self == ControllerProfileControlAssignment::Linear(*l),
                        l.neutral matches Some(n) ==> in_limit(n as int),
                        forall|j: int|
                            0 <= j < i ==> (#[trigger] l.thresholds@[j]).wf() && l.thresholds@[j].action_activate.wf()
                                && action_option_wf(l.thresholds@[j].action_deactivate),
                    decreases l.thresholds.len() - i,
                {
                    if !l.thresholds[i].check() {
                        proof {
                            let t = l.thresholds@[i as int];
                            assert(!(t.wf() && t.action_activate.wf() && action_option_wf(t.action_deactivate)));
                            assert(l.thresholds[i as int] == t);
                        }
                        return false;
                    }
                    i = i + 1;
                }
                true
            },
            ControllerProfileControlAssignment::DirectControl(d) => d.input_value.check(),
            ControllerProfileControlAssignment::SyncControl(c) => c.input_value.check(),
        }
    }
}

impl ControllerProfile {
    /// Whether every assignment of the profile is well formed.
    pub fn check(&self) -> (r: bool)
        ensures
            r == self.wf(),
    {
        let mut i: usize = 0;
        while i < self.controls.len()
            invariant
                i <= self.controls.len(),
                forall|j: int| 0 <= j < i ==> (#[trigger] self.controls@[j]).wf(),
            decreases self.controls.len() - i,
        {
            let c = &self.controls[i];
            let n = c.listed_len();
            let mut k: usize = 0;
            while k < n
                invariant
                    n == c.listed().len(),
                    i < self.controls@.len(),
                    *c == self.controls@[i as int],
                    forall|j: int| 0 <= j < i ==> (#[trigger] self.controls@[j]).wf(),
                    k <= n,
                    forall|j: int| 0 <= j < k ==> (#[trigger] c.listed()[j]).wf(),
                decreases n - k,
            {
                if !c.listed_at(k).check() {
                    proof {
                        assert(!c.listed()[k as int].wf());
                        assert(!self.controls@[i as int].wf());
                    }
                    return false;
                }
                k = k + 1;
            }
            i = i + 1;
        }
        true
    }
}

} // verus!
