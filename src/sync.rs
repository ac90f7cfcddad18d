use vstd::prelude::*;

use crate::config::ConfigLoader;
use crate::controller::ControllerManagerChangeEvent;
use crate::profile::{
    ControllerProfileControlAssignment, ControllerProfileControlAssignmentKeysAction,
    ControllerProfileDirectControAssignmentSyncMode,
};
use crate::runner::ProfileRunner;
use crate::sequencer::ActionSequencerAction;
use crate::text::{parse_fixed, parse_fixed_exec, pieces, split_on};
use crate::value::{abs, abs_i64, in_limit};

verus! {

/// The controller stops within this distance (0.005) of the target.
pub const SYNC_MARGIN: i64 = 50;

/// The keys that move a synced value.
#[derive(Debug)]
pub struct SyncTarget {
    pub action_increase: ControllerProfileControlAssignmentKeysAction,
    pub action_decrease: ControllerProfileControlAssignmentKeysAction,
}

/// The closed-loop state of one synced value.
#[derive(Debug)]
pub struct SyncControllerControlState {
    pub identifier: String,
    pub current_value: i64,
    pub target_value: i64,
    /// -1 decreasing, 0 idle, 1 increasing: the key held down.
    pub moving: i8,
    /// The keys of the assignment that set the target; none before one did.
    pub target_profile: Option<SyncTarget>,
}

impl SyncControllerControlState {
    pub open spec fn wf(&self) -> bool {
        &&& in_limit(self.current_value as int)
        &&& in_limit(self.target_value as int)
    }
}

/// A keystroke of a sync action: press only, or release only.
pub open spec fn sync_key(k: ControllerProfileControlAssignmentKeysAction, release: bool) -> ActionSequencerAction {
    ActionSequencerAction { keys: k.keys, press_time: None, wait_time: k.wait_time, release: Some(release) }
}

pub open spec fn should_stop(s: SyncControllerControlState) -> bool {
    let d = abs(s.current_value - s.target_value);
    (s.moving == 1 && s.current_value > s.target_value) || (s.moving == -1 && s.current_value < s.target_value) || (d
        < SYNC_MARGIN && s.moving != 0)
}

pub open spec fn should_increase(s: SyncControllerControlState) -> bool {
    s.target_value > s.current_value && abs(s.current_value - s.target_value) >= SYNC_MARGIN && s.moving != 1
}

pub open spec fn should_decrease(s: SyncControllerControlState) -> bool {
    s.target_value < s.current_value && abs(s.current_value - s.target_value) >= SYNC_MARGIN && s.moving != -1
}

/// The keystrokes of one controller step: release the held key when it
/// overshot or arrived, then press towards the target when away from it.
pub open spec fn sync_actions(s: SyncControllerControlState) -> Seq<ActionSequencerAction> {
    match s.target_profile {
        None => seq![],
        Some(t) => {
            let stop = if should_stop(s) {
                seq![sync_key(if s.moving == 1 { t.action_increase } else { t.action_decrease }, true)]
            } else {
                seq![]
            };
            let inc = if should_increase(s) {
                seq![sync_key(t.action_increase, false)]
            } else {
                seq![]
            };
            let dec = if should_decrease(s) {
                seq![sync_key(t.action_decrease, false)]
            } else {
                seq![]
            };
            stop + inc + dec
        },
    }
}

/// The direction held after one controller step.
pub open spec fn sync_moving(s: SyncControllerControlState) -> i8 {
    if s.target_profile is None {
        s.moving
    } else if should_decrease(s) {
        -1i8
    } else if should_increase(s) {
        1i8
    } else if should_stop(s) {
        0i8
    } else {
        s.moving
    }
}

/// The state after one controller step.
pub open spec fn sync_stepped(s: SyncControllerControlState) -> SyncControllerControlState {
    SyncControllerControlState { moving: sync_moving(s), ..s }
}

/// Within the margin of the target and with no further updates, the
/// controller stops after at most one release, and then stays idle.
pub proof fn lemma_sync_converges(s: SyncControllerControlState)
    requires
        abs(s.current_value - s.target_value) < SYNC_MARGIN,
        s.target_profile is Some,
    ensures
        sync_stepped(s).moving == 0,
        sync_actions(s).len() <= 1,
        sync_actions(s).len() == 1 ==> sync_actions(s)[0].release == Some(true),
        sync_actions(sync_stepped(s)).len() == 0,
        sync_stepped(sync_stepped(s)).moving == 0,
{
}

fn keys_of(k: &ControllerProfileControlAssignmentKeysAction, release: bool) -> (r: ActionSequencerAction)
    ensures
        r == sync_key(*k, release),
{
    ActionSequencerAction { keys: k.keys.clone(), press_time: None, wait_time: k.wait_time, release: Some(release) }
}

/// One controller step on a state: updates the held direction and returns
/// the keystrokes to enqueue.
pub fn step_control_state(s: &mut SyncControllerControlState) -> (r: Vec<ActionSequencerAction>)
    requires
        old(s).wf(),
    ensures
        *final(s) == sync_stepped(*old(s)),
        r@ == sync_actions(*old(s)),
{
    let mut out: Vec<ActionSequencerAction> = Vec::new();
    match &s.target_profile {
        None => {
            return out;
        },
        Some(t) => {
            let d = abs_i64(s.current_value - s.target_value);
            let stop = (s.moving == 1 && s.current_value > s.target_value) || (s.moving == -1 && s.current_value
                < s.target_value) || (d < SYNC_MARGIN && s.moving != 0);
            let inc = s.target_value > s.current_value && d >= SYNC_MARGIN && s.moving != 1;
            let dec = s.target_value < s.current_value && d >= SYNC_MARGIN && s.moving != -1;
            let mut moving = s.moving;
            if stop {
                if s.moving == 1 {
                    out.push(keys_of(&t.action_increase, true));
                } else {
                    out.push(keys_of(&t.action_decrease, true));
                }
                moving = 0;
            }
            if inc {
                out.push(keys_of(&t.action_increase, false));
                moving = 1;
            }
            if dec {
                out.push(keys_of(&t.action_decrease, false));
                moving = -1;
            }
            proof {
                assert(out@ =~= sync_actions(*old(s)));
            }
            s.moving = moving;
        },
    }
    out
}

/// Sync state per identifier, and the profile it was built for.
pub struct SyncController {
    pub controls_state_profile: Option<String>,
    pub controls_state: Vec<SyncControllerControlState>,
}

/// Position of the first state for an identifier.
pub open spec fn state_index(ss: Seq<SyncControllerControlState>, id: Seq<char>, i: int) -> Option<int>
    decreases ss.len() - i,
{
    if i < 0 || i >= ss.len() {
        None
    } else if ss[i].identifier@ == id {
        Some(i)
    } else {
        state_index(ss, id, i + 1)
    }
}

proof fn lemma_state_index_range(ss: Seq<SyncControllerControlState>, id: Seq<char>, i: int)
    ensures
        state_index(ss, id, i) matches Some(k) ==> 0 <= i <= k < ss.len() && ss[k].identifier@ == id,
    decreases ss.len() - i,
{
    if 0 <= i < ss.len() && ss[i].identifier@ != id {
        lemma_state_index_range(ss, id, i + 1);
    }
}

/// The states and keystrokes after a reported current value.
pub open spec fn current_update(ss: Seq<SyncControllerControlState>, identifier: String, v: i64) -> (
    Seq<SyncControllerControlState>,
    Seq<ActionSequencerAction>,
) {
    match state_index(ss, identifier@, 0) {
        Some(i) => {
            let s = SyncControllerControlState { current_value: v, ..ss[i] };
            (ss.update(i, sync_stepped(s)), sync_actions(s))
        },
        None => (
            ss.push(
                SyncControllerControlState {
                    identifier,
                    current_value: v,
                    target_value: v,
                    moving: 0,
                    target_profile: None,
                },
            ),
            seq![],
        ),
    }
}

/// The states and keystrokes after a target update.
pub open spec fn target_update(ss: Seq<SyncControllerControlState>, sync: ControllerProfileDirectControAssignmentSyncMode, t: i64) -> (
    Seq<SyncControllerControlState>,
    Seq<ActionSequencerAction>,
) {
    let target = Some(SyncTarget { action_increase: sync.action_increase, action_decrease: sync.action_decrease });
    match state_index(ss, sync.identifier@, 0) {
        Some(i) => {
            let s = SyncControllerControlState { target_value: t, target_profile: target, ..ss[i] };
            (ss.update(i, sync_stepped(s)), sync_actions(s))
        },
        None => (
            ss.push(
                SyncControllerControlState {
                    identifier: sync.identifier,
                    current_value: t,
                    target_value: t,
                    moving: 0,
                    target_profile: target,
                },
            ),
            seq![],
        ),
    }
}

/// The states and keystrokes after the sync assignments among the slots
/// `0..k` of a control set their targets from the control value `v`.
pub open spec fn sync_targets(
    ss: Seq<SyncControllerControlState>,
    list: Seq<ControllerProfileControlAssignment>,
    slots: Seq<int>,
    v: int,
    k: int,
) -> (Seq<SyncControllerControlState>, Seq<ActionSequencerAction>)
    decreases k,
{
    if k <= 0 {
        (ss, seq![])
    } else {
        let (s1, a1) = sync_targets(ss, list, slots, v, k - 1);
        match list[slots[k - 1]] {
            ControllerProfileControlAssignment::SyncControl(sync) => {
                let (s2, a2) = target_update(s1, sync, sync.input_value.spec_calculate(v) as i64);
                (s2, a1 + a2)
            },
            _ => (s1, a1),
        }
    }
}

impl SyncController {
    pub open spec fn wf(&self) -> bool {
        forall|i: int| 0 <= i < self.controls_state@.len() ==> (#[trigger] self.controls_state@[i]).wf()
    }

    pub fn new() -> (r: Self)
        ensures
            r.wf(),
            r.controls_state_profile is None,
            r.controls_state@.len() == 0,
    {
        SyncController { controls_state_profile: None, controls_state: Vec::new() }
    }

    /// Forgets every synced value.
    pub fn reset_control_state(&mut self)
        ensures
            final(self).wf(),
            final(self).controls_state@.len() == 0,
            final(self).controls_state_profile == old(self).controls_state_profile,
    {
        self.controls_state = Vec::new();
    }

    fn find(&self, id: &String) -> (r: Option<usize>)
        ensures
            r matches Some(i) ==> Some(i as int) == state_index(self.controls_state@, id@, 0) && i < self.controls_state@.len(),
            r is None ==> state_index(self.controls_state@, id@, 0) is None,
    {
        proof {
            lemma_state_index_range(self.controls_state@, id@, 0);
        }
        let mut i: usize = 0;
        while i < self.controls_state.len()
            invariant
                i <= self.controls_state@.len(),
                state_index(self.controls_state@, id@, 0) == state_index(self.controls_state@, id@, i as int),
            decreases self.controls_state.len() - i,
        {
            if self.controls_state[i].identifier == *id {
                return Some(i);
            }
            i = i + 1;
        }
        None
    }

    /// Applies a step to the state at `i` and returns its keystrokes.
    fn step_at(&mut self, i: usize) -> (r: Vec<ActionSequencerAction>)
        requires
            old(self).wf(),
            i < old(self).controls_state@.len(),
        ensures
            final(self).wf(),
            final(self).controls_state_profile == old(self).controls_state_profile,
            final(self).controls_state@ == old(self).controls_state@.update(i as int, sync_stepped(old(self).controls_state@[i as int])),
            r@ == sync_actions(old(self).controls_state@[i as int]),
    {
        let mut s = self.controls_state.remove(i);
        let r = step_control_state(&mut s);
        self.controls_state.insert(i, s);
        proof {
            assert(self.controls_state@ =~= old(self).controls_state@.update(i as int, sync_stepped(old(self).controls_state@[i as int])));
        }
        r
    }

    /// A reported current value: updates (or starts) the identifier's state
    /// and runs a controller step on it.
    pub fn update_current_value(&mut self, identifier: &String, current_value: i64) -> (r: Vec<ActionSequencerAction>)
        requires
            old(self).wf(),
            in_limit(current_value as int),
        ensures
            final(self).wf(),
            final(self).controls_state_profile == old(self).controls_state_profile,
            match state_index(old(self).controls_state@, identifier@, 0) {
                Some(i) => {
                    let s = SyncControllerControlState { current_value, ..old(self).controls_state@[i] };
                    &&& final(self).controls_state@ == old(self).controls_state@.update(i, sync_stepped(s))
                    &&& r@ == sync_actions(s)
                },
                None => {
                    &&& final(self).controls_state@.len() == old(self).controls_state@.len() + 1
                    &&& final(self).controls_state@.drop_last() == old(self).controls_state@
                    &&& final(self).controls_state@.last().identifier@ == identifier@
                    &&& final(self).controls_state@.last().current_value == current_value
                    &&& final(self).controls_state@.last().target_value == current_value
                    &&& final(self).controls_state@.last().moving == 0
                    &&& final(self).controls_state@.last().target_profile is None
                    &&& r@.len() == 0
                },
            },
            (final(self).controls_state@, r@) == current_update(old(self).controls_state@, *identifier, current_value),
    {
        match self.find(identifier) {
            Some(i) => {
                let mut s = self.controls_state.remove(i);
                s.current_value = current_value;
                self.controls_state.insert(i, s);
                proof {
                    assert(self.controls_state@ =~= old(self).controls_state@.update(
                        i as int,
                        SyncControllerControlState { current_value, ..old(self).controls_state@[i as int] },
                    ));
                }
                self.step_at(i)
            },
            None => {
                self.controls_state.push(
                    SyncControllerControlState {
                        identifier: identifier.clone(),
                        current_value,
                        target_value: current_value,
                        moving: 0,
                        target_profile: None,
                    },
                );
                proof {
                    assert(self.controls_state@.drop_last() == old(self).controls_state@);
                }
                let r = Vec::new();
                proof {
                    assert(r@ =~= seq![]);
                }
                r
            },
        }
    }

    /// A target set by a sync assignment: updates (or starts at the target)
    /// the identifier's state, binds the assignment's keys, and runs a
    /// controller step on it.
    pub fn update_target_value(&mut self, sync: &ControllerProfileDirectControAssignmentSyncMode, target_value: i64) -> (r: Vec<
        ActionSequencerAction,
    >)
        requires
            old(self).wf(),
            in_limit(target_value as int),
        ensures
            final(self).wf(),
            final(self).controls_state_profile == old(self).controls_state_profile,
            ({
                let t = Some(
                    SyncTarget { action_increase: sync.action_increase, action_decrease: sync.action_decrease },
                );
                match state_index(old(self).controls_state@, sync.identifier@, 0) {
                    Some(i) => {
                        let s = SyncControllerControlState { target_value, target_profile: t, ..old(self).controls_state@[i] };
                        &&& final(self).controls_state@ == old(self).controls_state@.update(i, sync_stepped(s))
                        &&& r@ == sync_actions(s)
                    },
                    None => {
                        &&& final(self).controls_state@.len() == old(self).controls_state@.len() + 1
                        &&& final(self).controls_state@.drop_last() == old(self).controls_state@
                        &&& final(self).controls_state@.last().identifier@ == sync.identifier@
                        &&& final(self).controls_state@.last().current_value == target_value
                        &&& final(self).controls_state@.last().target_value == target_value
                        &&& final(self).controls_state@.last().moving == 0
                        &&& final(self).controls_state@.last().target_profile == t
                        &&& r@.len() == 0
                    },
                }
            }),
            (final(self).controls_state@, r@) == target_update(old(self).controls_state@, *sync, target_value),
    {
        let t = SyncTarget { action_increase: sync.action_increase.duplicate(), action_decrease: sync.action_decrease.duplicate() };
        match self.find(&sync.identifier) {
            Some(i) => {
                let mut s = self.controls_state.remove(i);
                s.target_value = target_value;
                s.target_profile = Some(t);
                let ghost s1 = s;
                self.controls_state.insert(i, s);
                proof {
                    assert(self.controls_state@ =~= old(self).controls_state@.update(i as int, s1));
                }
                self.step_at(i)
            },
            None => {
                let mut s = SyncControllerControlState {
                    identifier: sync.identifier.clone(),
                    current_value: target_value,
                    target_value,
                    moving: 0,
                    target_profile: Some(t),
                };
                let r = step_control_state(&mut s);
                self.controls_state.push(s);
                proof {
                    assert(self.controls_state@.drop_last() == old(self).controls_state@);
                    assert(r@ =~= seq![]);
                }
                r
            },
        }
    }
}

impl SyncController {
    /// Sets the targets of the sync assignments that a change event reaches
    /// under the selected profile and returns the keystrokes to enqueue.
    /// A different profile than last time clears every state first.
    pub fn handle_change_event(&mut self, config: &ConfigLoader, runner: &ProfileRunner, event: &ControllerManagerChangeEvent) -> (r: Vec<
        ActionSequencerAction,
    >)
        requires
            old(self).wf(),
            config.wf(),
            event.control_state.wf(),
        ensures
            final(self).wf(),
            match runner.profile_name {
                None => final(self).controls_state@ == old(self).controls_state@ && r@.len() == 0,
                Some(n) => match crate::config::profile_for(config.controller_profiles@, n@, Some(event.usb_id@)) {
                    None => final(self).controls_state@ == old(self).controls_state@ && r@.len() == 0,
                    Some(pi) => {
                        let p = config.controller_profiles@[pi];
                        let switched = old(self).controls_state_profile matches Some(q) && q@ != p.name@;
                        let base = if switched {
                            Seq::<SyncControllerControlState>::empty()
                        } else {
                            old(self).controls_state@
                        };
                        &&& final(self).controls_state_profile matches Some(q) && q@ == p.name@
                        &&& match crate::profile::control_index(p.controls@, event.control_name@, 0) {
                            None => final(self).controls_state@ == base && r@.len() == 0,
                            Some(ci) => {
                                let c = p.controls@[ci];
                                let slots = c.spec_slots(runner.preferred_control_mode);
                                (final(self).controls_state@, r@) == sync_targets(
                                    base,
                                    c.listed(),
                                    slots,
                                    event.control_state.value as int,
                                    slots.len() as int,
                                )
                            },
                        }
                    },
                },
            },
    {
        let mut out: Vec<ActionSequencerAction> = Vec::new();
        let profile = match runner.get_current_profile(config, Some(&event.usb_id)) {
            Some(p) => p,
            None => {
                return out;
            },
        };
        let switched = match &self.controls_state_profile {
            Some(q) => !(*q == profile.name),
            None => false,
        };
        if switched {
            self.controls_state = Vec::new();
        }
        self.controls_state_profile = Some(profile.name.clone());
        let control = match profile.find_control(event.control_name.as_str()) {
            Some(c) => c,
            None => {
                return out;
            },
        };
        let mode = runner.get_preferred_control_mode();
        let slots = control.assignment_slots(mode);
        let ghost c = *control;
        let ghost base = self.controls_state@;
        let v = event.control_state.value;
        let mut k: usize = 0;
        while k < slots.len()
            invariant
                k <= slots.len(),
                c == *control,
                c.wf(),
                self.wf(),
                in_limit(v as int),
                v == event.control_state.value,
                self.controls_state_profile == Some(profile.name),
                slots@.len() == c.spec_slots(mode).len(),
                forall|j: int| 0 <= j < slots@.len() ==> slots@[j] as int == #[trigger] c.spec_slots(mode)[j],
                forall|j: int| 0 <= j < slots@.len() ==> #[trigger] slots@[j] < c.listed().len(),
                (self.controls_state@, out@) == sync_targets(base, c.listed(), c.spec_slots(mode), v as int, k as int),
            decreases slots.len() - k,
        {
            let a = control.listed_at(slots[k]);
            proof {
                assert(c.listed()[slots@[k as int] as int].wf());
            }
            if let ControllerProfileControlAssignment::SyncControl(sync) = a {
                let target = sync.input_value.calculate_normal_value(v);
                let mut fired = self.update_target_value(sync, target);
                out.append(&mut fired);
            }
            k = k + 1;
        }
        out
    }
}

/// The identifier and value of a frame `sync_control,<identifier>,<value>`;
/// `None` for any other text.
pub open spec fn sync_frame(text: Seq<char>) -> Option<(Seq<char>, int)> {
    let ps = pieces(text, ',');
    if ps.len() == 3 && ps[0] == "sync_control"@ {
        match parse_fixed(ps[2]) {
            Some(v) => Some((ps[1], v)),
            None => None,
        }
    } else {
        None
    }
}

/// Reads a frame reporting a current value.
pub fn parse_sync_frame(text: &str) -> (r: Option<(String, i64)>)
    ensures
        r is None <==> sync_frame(text@) is None,
        r matches Some(x) ==> sync_frame(text@) == Some((x.0@, x.1 as int)) && in_limit(x.1 as int),
{
    let parts = split_on(text, ',');
    if parts.len() != 3 {
        return None;
    }
    if !(parts[0] == String::from_str("sync_control")) {
        return None;
    }
    match parse_fixed_exec(parts[2].as_str()) {
        Some(v) => Some((parts[1].clone(), v)),
        None => None,
    }
}

impl SyncController {
    /// Applies a frame from a client; malformed frames change nothing.
    pub fn handle_frame(&mut self, text: &str) -> (r: Vec<ActionSequencerAction>)
        requires
            old(self).wf(),
        ensures
            final(self).wf(),
            sync_frame(text@) is None ==> *final(self) == *old(self) && r@.len() == 0,
            sync_frame(text@) matches Some(f) ==> final(self).controls_state_profile == old(self).controls_state_profile
                && exists|id: String| id@ == f.0 && (final(self).controls_state@, r@) == #[trigger] current_update(
                    old(self).controls_state@,
                    id,
                    f.1 as i64,
                ),
    {
        match parse_sync_frame(text) {
            Some((identifier, value)) => {
                let r = self.update_current_value(&identifier, value);
                proof {
                    let f = sync_frame(text@)->Some_0;
                    assert(f.1 as i64 == value);
                    assert((self.controls_state@, r@) == current_update(old(self).controls_state@, identifier, f.1 as i64));
                }
                r
            },
            None => Vec::new(),
        }
    }
}

} // verus!
