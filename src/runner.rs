use vstd::prelude::*;

use crate::config::{ConfigLoader, profile_for};
use crate::controller::{ControllerManagerChangeEvent, ControllerManagerControllerControlState};
use crate::direct_control::{DirectControlCommand, command_text, format_command};
use crate::profile::{
    ControllerProfileControl, ControllerProfileControlAssignment, ControllerProfileControlAssignmentAction,
    ControllerProfileControlAssignmentDirectControlAction, ControllerProfileControlAssignmentKeysAction,
    ControllerProfileControlLinearAssignment, ControllerProfileControlLinearAssignmentThreshold,
    ControllerProfileControlMomentaryAssignment, ControllerProfileControlToggleAssignment,
    ControllerProfileDirectControlAssignment, PreferredControlMode, control_index, exceeds, expanded,
    lemma_control_index_range, neutralized,
};
use crate::sequencer::ActionSequencerAction;
use crate::value::in_limit;

verus! {

/// What an assignment hands on: a keystroke or a direct-control command.
#[derive(Debug)]
pub enum ProfileRunnerAssignmentCallAction {
    SequencerAction(ActionSequencerAction),
    DirectControlAction(DirectControlCommand),
}

impl ProfileRunnerAssignmentCallAction {
    pub open spec fn wf(&self) -> bool {
        self matches ProfileRunnerAssignmentCallAction::DirectControlAction(c) ==> c.wf()
    }

    /// The text by which two actions count as the same.
    pub open spec fn spec_compare_value(&self) -> Seq<char> {
        match self {
            ProfileRunnerAssignmentCallAction::SequencerAction(a) => a.keys@,
            ProfileRunnerAssignmentCallAction::DirectControlAction(c) => c.spec_text(),
        }
    }

    /// The keys of a keystroke; `<controls>,<value>,<flags>` of a command.
    pub fn get_compare_value(&self) -> (r: String)
        requires
            self.wf(),
        ensures
            r@ == self.spec_compare_value(),
    {
        match self {
            ProfileRunnerAssignmentCallAction::SequencerAction(a) => a.keys.clone(),
            ProfileRunnerAssignmentCallAction::DirectControlAction(c) => c.to_text(),
        }
    }

    pub fn duplicate(&self) -> (r: Self)
        ensures
            r == *self,
    {
        match self {
            ProfileRunnerAssignmentCallAction::SequencerAction(a) => ProfileRunnerAssignmentCallAction::SequencerAction(
                a.duplicate(),
            ),
            ProfileRunnerAssignmentCallAction::DirectControlAction(c) => {
                ProfileRunnerAssignmentCallAction::DirectControlAction(c.duplicate())
            },
        }
    }
}

/// The text by which an assignment action compares with a handed-on action.
pub open spec fn action_compare_value(a: ControllerProfileControlAssignmentAction) -> Seq<char> {
    match a {
        ControllerProfileControlAssignmentAction::Keys(k) => k.keys@,
        ControllerProfileControlAssignmentAction::DirectControl(d) => command_text(
            d.controls@,
            d.value as int,
            d.hold,
            d.relative,
        ),
    }
}

impl ControllerProfileControlAssignmentAction {
    /// The keys of a key action; `<controls>,<value>,<flags>` of a command.
    pub fn get_compare_value(&self) -> (r: String)
        requires
            self.wf(),
        ensures
            r@ == action_compare_value(*self),
    {
        match self {
            ControllerProfileControlAssignmentAction::Keys(k) => k.keys.clone(),
            ControllerProfileControlAssignmentAction::DirectControl(d) => format_command(
                &d.controls,
                d.value,
                d.hold,
                d.relative,
            ),
        }
    }
}

/// One call made for an assignment slot.
#[derive(Debug)]
pub struct ProfileRunnerAssignmentCall {
    pub control_name: String,
    pub control_state: ControllerManagerControllerControlState,
    pub assignment: ControllerProfileControlAssignment,
    pub action: ProfileRunnerAssignmentCallAction,
}

/// The last call of one assignment slot of one control.
#[derive(Debug)]
pub struct ProfileRunnerSlotCall {
    pub assignment_index: usize,
    pub call: ProfileRunnerAssignmentCall,
}

/// What the interpreter remembers of a call: the control state it saw and
/// the action it handed on.
pub type CallRecord = (ControllerManagerControllerControlState, ProfileRunnerAssignmentCallAction);

/// The latest entry for a control and slot.
pub open spec fn last_entry(es: Seq<ProfileRunnerSlotCall>, name: Seq<char>, k: int) -> Option<ProfileRunnerSlotCall>
    decreases es.len(),
{
    if es.len() == 0 {
        None
    } else if es.last().call.control_name@ == name && es.last().assignment_index == k {
        Some(es.last())
    } else {
        last_entry(es.drop_last(), name, k)
    }
}

/// The record of the latest entry for a control and slot.
pub open spec fn last_record(es: Seq<ProfileRunnerSlotCall>, name: Seq<char>, k: int) -> Option<CallRecord> {
    match last_entry(es, name, k) {
        Some(e) => Some((e.call.control_state, e.call.action)),
        None => None,
    }
}

/// The record after one call: a new action replaces it; no action keeps
/// the old action at the new state, or leaves an empty slot empty.
pub open spec fn record_step(
    prev: Option<CallRecord>,
    s: ControllerManagerControllerControlState,
    a: Option<ProfileRunnerAssignmentCallAction>,
) -> Option<CallRecord> {
    match a {
        Some(x) => Some((s, x)),
        None => match prev {
            Some(p) => Some((s, p.1)),
            None => None,
        },
    }
}

/// The record after a series of calls at one state.
pub open spec fn fold_record(
    prev: Option<CallRecord>,
    s: ControllerManagerControllerControlState,
    calls: Seq<Option<ProfileRunnerAssignmentCallAction>>,
) -> Option<CallRecord>
    decreases calls.len(),
{
    if calls.len() == 0 {
        prev
    } else {
        record_step(fold_record(prev, s, calls.drop_last()), s, calls.last())
    }
}

/// The actions that a series of calls hands on, in order.
pub open spec fn dispatched(calls: Seq<Option<ProfileRunnerAssignmentCallAction>>) -> Seq<ProfileRunnerAssignmentCallAction>
    decreases calls.len(),
{
    if calls.len() == 0 {
        seq![]
    } else {
        match calls.last() {
            Some(a) => dispatched(calls.drop_last()).push(a),
            None => dispatched(calls.drop_last()),
        }
    }
}

/// A keystroke for a key action; `release` marks a release-only one.
pub open spec fn key_call(k: ControllerProfileControlAssignmentKeysAction, release: bool) -> ProfileRunnerAssignmentCallAction {
    ProfileRunnerAssignmentCallAction::SequencerAction(
        ActionSequencerAction {
            keys: k.keys,
            press_time: k.press_time,
            wait_time: k.wait_time,
            release: Some(release),
        },
    )
}

pub open spec fn command_call(d: ControllerProfileControlAssignmentDirectControlAction) -> ProfileRunnerAssignmentCallAction {
    ProfileRunnerAssignmentCallAction::DirectControlAction(
        DirectControlCommand { controls: d.controls, input_value: d.value, relative: d.relative, hold: d.hold },
    )
}

/// What activating an action hands on.
pub open spec fn activate_call(a: ControllerProfileControlAssignmentAction) -> Option<ProfileRunnerAssignmentCallAction> {
    match a {
        ControllerProfileControlAssignmentAction::Keys(k) => Some(key_call(k, false)),
        ControllerProfileControlAssignmentAction::DirectControl(d) => Some(command_call(d)),
    }
}

/// What deactivating hands on: the deactivation action if there is one,
/// else the release of the activation keys (nothing for a command).
pub open spec fn deactivate_call(
    d: Option<ControllerProfileControlAssignmentAction>,
    a: ControllerProfileControlAssignmentAction,
) -> Option<ProfileRunnerAssignmentCallAction> {
    match d {
        Some(x) => activate_call(x),
        None => match a {
            ControllerProfileControlAssignmentAction::Keys(k) => Some(key_call(k, true)),
            ControllerProfileControlAssignmentAction::DirectControl(_) => None,
        },
    }
}

/// Momentary: activate on reaching the threshold, deactivate on falling
/// back below it.
pub open spec fn momentary_calls(
    m: ControllerProfileControlMomentaryAssignment,
    last: Option<CallRecord>,
    v: int,
) -> Seq<Option<ProfileRunnerAssignmentCallAction>> {
    if v >= m.threshold {
        if last is None || last->Some_0.0.value < m.threshold {
            seq![activate_call(m.action_activate)]
        } else {
            seq![]
        }
    } else if last matches Some(l) && l.0.value >= m.threshold {
        seq![deactivate_call(m.action_deactivate, m.action_activate)]
    } else {
        seq![]
    }
}

/// Toggle: on reaching the threshold hand on whichever action differs from
/// the last one; on falling back release the last keystroke.
pub open spec fn toggle_calls(
    t: ControllerProfileControlToggleAssignment,
    last: Option<CallRecord>,
    v: int,
) -> Seq<Option<ProfileRunnerAssignmentCallAction>> {
    if v >= t.threshold {
        if last is None || last->Some_0.0.value < t.threshold {
            let chosen = match last {
                Some(l) => if l.1.spec_compare_value() == action_compare_value(t.action_activate) {
                    t.action_deactivate
                } else {
                    t.action_activate
                },
                None => t.action_activate,
            };
            seq![activate_call(chosen)]
        } else {
            seq![]
        }
    } else if last matches Some(l) && l.0.value >= t.threshold {
        seq![
            match last->Some_0.1 {
                ProfileRunnerAssignmentCallAction::SequencerAction(a) => Some(
                    ProfileRunnerAssignmentCallAction::SequencerAction(
                        ActionSequencerAction {
                            keys: a.keys,
                            press_time: a.press_time,
                            wait_time: a.wait_time,
                            release: Some(true),
                        },
                    ),
                ),
                ProfileRunnerAssignmentCallAction::DirectControlAction(_) => None,
            },
        ]
    } else {
        seq![]
    }
}

/// The thresholds on the same side of zero as `v`.
pub open spec fn same_side(ts: Seq<ControllerProfileControlLinearAssignmentThreshold>, v: int) -> Seq<
    ControllerProfileControlLinearAssignmentThreshold,
>
    decreases ts.len(),
{
    if ts.len() == 0 {
        seq![]
    } else {
        let rest = same_side(ts.drop_last(), v);
        if (v < 0 && ts.last().value < 0) || (v >= 0 && ts.last().value >= 0) {
            rest.push(ts.last())
        } else {
            rest
        }
    }
}

/// How many thresholds `v` lies past.
pub open spec fn count_exceeding(ts: Seq<ControllerProfileControlLinearAssignmentThreshold>, v: int) -> nat
    decreases ts.len(),
{
    if ts.len() == 0 {
        0
    } else {
        count_exceeding(ts.drop_last(), v) + if exceeds(ts.last().value as int, v) {
            1nat
        } else {
            0nat
        }
    }
}

/// How many thresholds are at most `v`.
pub open spec fn count_at_most(ts: Seq<ControllerProfileControlLinearAssignmentThreshold>, v: int) -> nat
    decreases ts.len(),
{
    if ts.len() == 0 {
        0
    } else {
        count_at_most(ts.drop_last(), v) + if ts.last().value <= v {
            1nat
        } else {
            0nat
        }
    }
}

/// The thresholds that apply to the state: expanded, on the side of the
/// neutralized value.
pub open spec fn linear_side(l: ControllerProfileControlLinearAssignment, s: ControllerManagerControllerControlState) -> Seq<
    ControllerProfileControlLinearAssignmentThreshold,
> {
    same_side(expanded(l.thresholds@), neutralized(l.neutral, s.value as int))
}

/// How many of those thresholds had been passed: at the last call's value,
/// or without a call, at the initial value (both neutralized).
pub open spec fn linear_passed(
    l: ControllerProfileControlLinearAssignment,
    last: Option<CallRecord>,
    s: ControllerManagerControllerControlState,
) -> nat {
    let ts = linear_side(l, s);
    match last {
        Some(r) => count_exceeding(ts, neutralized(l.neutral, r.0.value as int)),
        None => count_exceeding(ts, neutralized(l.neutral, s.initial_value as int)),
    }
}

/// Linear: activate the newly passed thresholds in order, or deactivate the
/// newly unpassed ones from the highest down.
pub open spec fn linear_calls(
    l: ControllerProfileControlLinearAssignment,
    last: Option<CallRecord>,
    s: ControllerManagerControllerControlState,
) -> Seq<Option<ProfileRunnerAssignmentCallAction>> {
    let ts = linear_side(l, s);
    let e = count_exceeding(ts, neutralized(l.neutral, s.value as int)) as int;
    let p = linear_passed(l, last, s) as int;
    if e > p {
        Seq::new((e - p) as nat, |j: int| activate_call(ts[p + j].action_activate))
    } else if e < p {
        Seq::new((p - e) as nat, |j: int| deactivate_call(ts[p - 1 - j].action_deactivate, ts[p - 1 - j].action_activate))
    } else {
        seq![]
    }
}

/// Direct control: the value mapped through the input value, as an absolute
/// command.
pub open spec fn direct_calls(d: ControllerProfileDirectControlAssignment, s: ControllerManagerControllerControlState) -> Seq<
    Option<ProfileRunnerAssignmentCallAction>,
> {
    seq![
        Some(
            ProfileRunnerAssignmentCallAction::DirectControlAction(
                DirectControlCommand {
                    controls: d.controls,
                    input_value: d.input_value.spec_calculate(s.value as int) as i64,
                    relative: Some(false),
                    hold: d.hold,
                },
            ),
        ),
    ]
}

/// The calls an assignment makes for a state, given its slot's last record.
/// Sync control makes none here: it only sets a target.
pub open spec fn slot_calls(
    a: ControllerProfileControlAssignment,
    last: Option<CallRecord>,
    s: ControllerManagerControllerControlState,
) -> Seq<Option<ProfileRunnerAssignmentCallAction>> {
    match a {
        ControllerProfileControlAssignment::Momentary(m) => momentary_calls(m, last, s.value as int),
        ControllerProfileControlAssignment::Toggle(t) => toggle_calls(t, last, s.value as int),
        ControllerProfileControlAssignment::Linear(l) => linear_calls(l, last, s),
        ControllerProfileControlAssignment::DirectControl(d) => direct_calls(d, s),
        ControllerProfileControlAssignment::SyncControl(_) => seq![],
    }
}

/// Interprets change events against the selected profile and remembers the
/// last call of every assignment slot.
pub struct ProfileRunner {
    pub profile_name: Option<String>,
    pub preferred_control_mode: PreferredControlMode,
    /// The last call of each slot, newest entries last.
    pub control_calls: Vec<ProfileRunnerSlotCall>,
}

/// The slot's entry `x` stands for control `name`, slot `k`.
pub open spec fn entry_is(x: ProfileRunnerSlotCall, name: Seq<char>, k: int) -> bool {
    x.call.control_name@ == name && x.assignment_index == k
}

proof fn lemma_last_entry_update(es: Seq<ProfileRunnerSlotCall>, idx: int, x: ProfileRunnerSlotCall, name: Seq<char>, k: int)
    requires
        0 <= idx < es.len(),
        entry_is(es[idx], name, k),
        entry_is(x, name, k),
        forall|j: int| idx < j < es.len() ==> !entry_is(#[trigger] es[j], name, k),
    ensures
        forall|n: Seq<char>, kk: int|
            #[trigger] last_entry(es.update(idx, x), n, kk) == if n == name && kk == k {
                Some(x)
            } else {
                last_entry(es, n, kk)
            },
    decreases es.len(),
{
    let es2 = es.update(idx, x);
    if idx == es.len() - 1 {
        assert(es2.drop_last() == es.drop_last());
        assert forall|n: Seq<char>, kk: int|
            #[trigger] last_entry(es2, n, kk) == if n == name && kk == k {
                Some(x)
            } else {
                last_entry(es, n, kk)
            } by {
            assert(es2.last() == x);
            assert(es.last() == es[idx]);
        }
    } else {
        assert(es2.drop_last() == es.drop_last().update(idx, x));
        assert(es2.last() == es.last());
        lemma_last_entry_update(es.drop_last(), idx, x, name, k);
        assert forall|n: Seq<char>, kk: int|
            #[trigger] last_entry(es2, n, kk) == if n == name && kk == k {
                Some(x)
            } else {
                last_entry(es, n, kk)
            } by {
            assert(last_entry(es.drop_last().update(idx, x), n, kk) == if n == name && kk == k {
                Some(x)
            } else {
                last_entry(es.drop_last(), n, kk)
            });
            assert(es.last() == es[es.len() - 1]);
        }
    }
}

proof fn lemma_last_entry_none(es: Seq<ProfileRunnerSlotCall>, name: Seq<char>, k: int)
    requires
        forall|j: int| 0 <= j < es.len() ==> !entry_is(#[trigger] es[j], name, k),
    ensures
        last_entry(es, name, k) is None,
    decreases es.len(),
{
    if es.len() > 0 {
        lemma_last_entry_none(es.drop_last(), name, k);
    }
}

proof fn lemma_last_entry_at(es: Seq<ProfileRunnerSlotCall>, idx: int, name: Seq<char>, k: int)
    requires
        0 <= idx < es.len(),
        entry_is(es[idx], name, k),
        forall|j: int| idx < j < es.len() ==> !entry_is(#[trigger] es[j], name, k),
    ensures
        last_entry(es, name, k) == Some(es[idx]),
    decreases es.len(),
{
    if idx < es.len() - 1 {
        lemma_last_entry_at(es.drop_last(), idx, name, k);
    }
}

proof fn lemma_last_entry_wf(es: Seq<ProfileRunnerSlotCall>, name: Seq<char>, k: int)
    requires
        forall|j: int| 0 <= j < es.len() ==> (#[trigger] es[j]).call.action.wf() && es[j].call.control_state.wf(),
    ensures
        last_entry(es, name, k) matches Some(e) ==> e.call.action.wf() && e.call.control_state.wf(),
    decreases es.len(),
{
    if es.len() > 0 {
        lemma_last_entry_wf(es.drop_last(), name, k);
    }
}

fn activation(a: &ControllerProfileControlAssignmentAction) -> (r: ProfileRunnerAssignmentCallAction)
    requires
        a.wf(),
    ensures
        Some(r) == activate_call(*a),
        r.wf(),
{
    match a {
        ControllerProfileControlAssignmentAction::Keys(k) => ProfileRunnerAssignmentCallAction::SequencerAction(
            ActionSequencerAction {
                keys: k.keys.clone(),
                press_time: k.press_time,
                wait_time: k.wait_time,
                release: Some(false),
            },
        ),
        ControllerProfileControlAssignmentAction::DirectControl(d) => ProfileRunnerAssignmentCallAction::DirectControlAction(
            DirectControlCommand {
                controls: d.controls.clone(),
                input_value: d.value,
                relative: d.relative,
                hold: d.hold,
            },
        ),
    }
}

fn deactivation(
    d: &Option<ControllerProfileControlAssignmentAction>,
    a: &ControllerProfileControlAssignmentAction,
) -> (r: Option<ProfileRunnerAssignmentCallAction>)
    requires
        a.wf(),
        d matches Some(x) ==> x.wf(),
    ensures
        r == deactivate_call(*d, *a),
        r matches Some(x) ==> x.wf(),
{
    match d {
        Some(x) => Some(activation(x)),
        None => match a {
            ControllerProfileControlAssignmentAction::Keys(k) => Some(
                ProfileRunnerAssignmentCallAction::SequencerAction(
                    ActionSequencerAction {
                        keys: k.keys.clone(),
                        press_time: k.press_time,
                        wait_time: k.wait_time,
                        release: Some(true),
                    },
                ),
            ),
            ControllerProfileControlAssignmentAction::DirectControl(_) => None,
        },
    }
}

/// The actions handed on for the slots `0..upto` of a control, in order.
pub open spec fn event_dispatches(
    runner: ProfileRunner,
    c: ControllerProfileControl,
    mode: PreferredControlMode,
    name: Seq<char>,
    s: ControllerManagerControllerControlState,
    upto: int,
) -> Seq<ProfileRunnerAssignmentCallAction>
    decreases upto,
{
    if upto <= 0 {
        seq![]
    } else {
        let slots = c.spec_slots(mode);
        let k = upto - 1;
        event_dispatches(runner, c, mode, name, s, k) + dispatched(
            slot_calls(c.listed()[slots[k]], runner.last_call(name, k), s),
        )
    }
}

/// The control of the selected profile that an event concerns, if the
/// event changed a value and such a control exists.
pub open spec fn run_target(config: ConfigLoader, profile_name: Option<String>, event: ControllerManagerChangeEvent) -> Option<
    ControllerProfileControl,
> {
    if !event.spec_has_changed() || profile_name is None {
        None
    } else {
        match profile_for(config.controller_profiles@, profile_name->Some_0@, Some(event.usb_id@)) {
            None => None,
            Some(pi) => {
                let p = config.controller_profiles@[pi];
                match control_index(p.controls@, event.control_name@, 0) {
                    None => None,
                    Some(ci) => Some(p.controls@[ci]),
                }
            },
        }
    }
}

impl ProfileRunner {
    /// The last call recorded for a control's slot.
    pub open spec fn last_call(&self, name: Seq<char>, k: int) -> Option<CallRecord> {
        last_record(self.control_calls@, name, k)
    }

    /// The entry recorded for a control's slot, with its assignment snapshot.
    pub open spec fn last_slot_call(&self, name: Seq<char>, k: int) -> Option<ProfileRunnerSlotCall> {
        last_entry(self.control_calls@, name, k)
    }

    /// Recorded calls hold well-formed states and actions.
    pub open spec fn wf(&self) -> bool {
        forall|j: int|
            0 <= j < self.control_calls@.len() ==> (#[trigger] self.control_calls@[j]).call.action.wf()
                && self.control_calls@[j].call.control_state.wf()
    }

    pub proof fn lemma_wf_last_call(&self, name: Seq<char>, k: int)
        requires
            self.wf(),
        ensures
            self.last_call(name, k) matches Some(r) ==> r.1.wf() && r.0.wf(),
    {
        lemma_last_entry_wf(self.control_calls@, name, k);
    }

    pub fn new() -> (r: Self)
        ensures
            r.wf(),
            r.profile_name is None,
            r.preferred_control_mode == PreferredControlMode::DirectControl,
            forall|n: Seq<char>, k: int| #[trigger] r.last_call(n, k) is None,
    {
        ProfileRunner {
            profile_name: None,
            preferred_control_mode: PreferredControlMode::DirectControl,
            control_calls: Vec::new(),
        }
    }

    /// Clears the selected profile and the call history.
    pub fn reset_profile(&mut self) -> (r: Result<(), String>)
        ensures
            r is Ok,
            final(self).wf(),
            final(self).profile_name is None,
            final(self).preferred_control_mode == old(self).preferred_control_mode,
            forall|n: Seq<char>, k: int| #[trigger] final(self).last_call(n, k) is None,
    {
        self.profile_name = None;
        self.control_calls = Vec::new();
        Ok(())
    }

    /// Selects a profile by name; selecting another one clears the call
    /// history. Fails, changing nothing, when no profile has that name.
    pub fn set_profile(&mut self, config: &ConfigLoader, name: &String) -> (r: Result<(), String>)
        requires
            old(self).wf(),
        ensures
            final(self).wf(),
            final(self).preferred_control_mode == old(self).preferred_control_mode,
            old(self).profile_name matches Some(p) && p@ == name@ ==> r is Ok && *final(self) == *old(self),
            !(old(self).profile_name matches Some(p) && p@ == name@) ==> {
                if profile_for(config.controller_profiles@, name@, None) is Some {
                    &&& r is Ok
                    &&& final(self).profile_name matches Some(p) && p@ == name@
                    &&& forall|n: Seq<char>, k: int| #[trigger] final(self).last_call(n, k) is None
                } else {
                    &&& r matches Err(e) && e@ == "Profile "@ + name@ + " not found"@
                    &&& *final(self) == *old(self)
                }
            },
    {
        let same = match &self.profile_name {
            Some(p) => *p == *name,
            None => false,
        };
        if same {
            return Ok(());
        }
        match config.find_controller_profile(name, None) {
            Some(_) => {
                self.profile_name = Some(name.clone());
                self.control_calls = Vec::new();
                Ok(())
            },
            None => {
                let msg = String::from_str("Profile ").concat(name.as_str()).concat(" not found");
                Err(msg)
            },
        }
    }

    /// Changing the preferred mode keeps the history: slots are
    /// re-derived on the next event.
    pub fn set_preferred_control_mode(&mut self, mode: PreferredControlMode)
        ensures
            final(self).preferred_control_mode == mode,
            final(self).profile_name == old(self).profile_name,
            final(self).control_calls == old(self).control_calls,
    {
        self.preferred_control_mode = mode;
    }

    pub fn get_preferred_control_mode(&self) -> (r: PreferredControlMode)
        ensures
            r == self.preferred_control_mode,
    {
        self.preferred_control_mode
    }

    /// The selected profile as it applies to a device.
    pub fn get_current_profile<'a>(&self, config: &'a ConfigLoader, controller_usb_id: Option<&String>) -> (r: Option<
        &'a crate::profile::ControllerProfile,
    >)
        ensures
            self.profile_name is None ==> r is None,
            self.profile_name matches Some(n) ==> (r is None <==> profile_for(
                config.controller_profiles@,
                n@,
                crate::config::usb_view(controller_usb_id),
            ) is None),
            self.profile_name matches Some(n) ==> (r matches Some(p) ==> *p == config.controller_profiles@[profile_for(
                config.controller_profiles@,
                n@,
                crate::config::usb_view(controller_usb_id),
            )->Some_0]),
            config.wf() ==> (r matches Some(p) ==> p.wf()),
    {
        match &self.profile_name {
            Some(n) => config.find_controller_profile(n, controller_usb_id),
            None => None,
        }
    }

    fn last_call_exec(&self, name: &String, k: usize) -> (r: Option<(ControllerManagerControllerControlState, ProfileRunnerAssignmentCallAction)>)
        ensures
            r == self.last_call(name@, k as int),
    {
        let mut i: usize = self.control_calls.len();
        while i > 0
            invariant
                i <= self.control_calls@.len(),
                forall|j: int| i <= j < self.control_calls@.len() ==> !entry_is(#[trigger] self.control_calls@[j], name@, k as int),
            decreases i,
        {
            let e = &self.control_calls[i - 1];
            if e.assignment_index == k && e.call.control_name == *name {
                proof {
                    lemma_last_entry_at(self.control_calls@, i - 1, name@, k as int);
                }
                return Some((e.call.control_state, e.call.action.duplicate()));
            }
            i = i - 1;
        }
        proof {
            lemma_last_entry_none(self.control_calls@, name@, k as int);
        }
        None
    }

    /// Records a call for a control's slot and returns the action to hand
    /// on. Without an action an empty slot stays empty, and a recorded one
    /// keeps its action at the new state.
    pub fn call_assignment_action_for_control(
        &mut self,
        control_name: &String,
        assignment_index: usize,
        control_state: &ControllerManagerControllerControlState,
        assignment: &ControllerProfileControlAssignment,
        action: Option<ProfileRunnerAssignmentCallAction>,
    ) -> (r: Option<ProfileRunnerAssignmentCallAction>)
        requires
            old(self).wf(),
            control_state.wf(),
            action matches Some(a) ==> a.wf(),
        ensures
            final(self).wf(),
            r == action,
            final(self).profile_name == old(self).profile_name,
            final(self).preferred_control_mode == old(self).preferred_control_mode,
            forall|n: Seq<char>, k: int|
                #[trigger] final(self).last_call(n, k) == if n == control_name@ && k == assignment_index {
                    record_step(old(self).last_call(n, k), *control_state, action)
                } else {
                    old(self).last_call(n, k)
                },
            forall|n: Seq<char>, k: int|
                !(n == control_name@ && k == assignment_index) ==> #[trigger] final(self).last_slot_call(n, k) == old(
                    self,
                ).last_slot_call(n, k),
            record_step(old(self).last_call(control_name@, assignment_index as int), *control_state, action) is Some
                ==> (final(self).last_slot_call(control_name@, assignment_index as int) matches Some(e)
                && e.call.assignment.same(assignment) && e.call.control_name@ == control_name@
                && e.assignment_index == assignment_index),
            record_step(old(self).last_call(control_name@, assignment_index as int), *control_state, action) is None
                ==> final(self).last_slot_call(control_name@, assignment_index as int) == old(self).last_slot_call(
                control_name@,
                assignment_index as int,
            ),
    {
        let ghost es = self.control_calls@;
        let mut i: usize = self.control_calls.len();
        while i > 0 && !(self.control_calls[i - 1].assignment_index == assignment_index
            && self.control_calls[i - 1].call.control_name == *control_name)
            invariant
                es == self.control_calls@,
                i <= es.len(),
                forall|j: int| i <= j < es.len() ==> !entry_is(#[trigger] es[j], control_name@, assignment_index as int),
            decreases i,
        {
            i = i - 1;
        }
        let found: Option<usize> = if i > 0 {
            Some(i - 1)
        } else {
            None
        };
        proof {
            if found is None {
                lemma_last_entry_none(es, control_name@, assignment_index as int);
            } else {
                lemma_last_entry_at(es, found->Some_0 as int, control_name@, assignment_index as int);
            }
        }
        let recorded = match &action {
            Some(a) => a.duplicate(),
            None => match found {
                Some(idx) => self.control_calls[idx].call.action.duplicate(),
                None => {
                    return None;
                },
            },
        };
        let entry = ProfileRunnerSlotCall {
            assignment_index,
            call: ProfileRunnerAssignmentCall {
                control_name: control_name.clone(),
                control_state: *control_state,
                assignment: assignment.duplicate(),
                action: recorded,
            },
        };
        match found {
            Some(idx) => {
                let ghost x = entry;
                self.control_calls.set(idx, entry);
                proof {
                    lemma_last_entry_update(es, idx as int, x, control_name@, assignment_index as int);
                    assert(self.control_calls@ == es.update(idx as int, x));
                }
            },
            None => {
                self.control_calls.push(entry);
                proof {
                    assert(self.control_calls@.drop_last() == es);
                }
            },
        }
        action
    }
}

proof fn lemma_dispatched_one(c: Option<ProfileRunnerAssignmentCallAction>)
    ensures
        dispatched(seq![c]) == match c {
            Some(a) => seq![a],
            None => Seq::<ProfileRunnerAssignmentCallAction>::empty(),
        },
{
    let e = Seq::<Option<ProfileRunnerAssignmentCallAction>>::empty();
    assert(seq![c].drop_last() == e);
    assert(seq![c].last() == c);
    assert(dispatched(e) == Seq::<ProfileRunnerAssignmentCallAction>::empty());
    if let Some(a) = c {
        assert(Seq::<ProfileRunnerAssignmentCallAction>::empty().push(a) == seq![a]);
    }
}

proof fn lemma_calls_push(
    prev: Option<CallRecord>,
    s: ControllerManagerControllerControlState,
    calls: Seq<Option<ProfileRunnerAssignmentCallAction>>,
    c: Option<ProfileRunnerAssignmentCallAction>,
)
    ensures
        fold_record(prev, s, calls.push(c)) == record_step(fold_record(prev, s, calls), s, c),
        dispatched(calls.push(c)) == dispatched(calls) + dispatched(seq![c]),
{
    assert(calls.push(c).drop_last() == calls);
    lemma_dispatched_one(c);
    assert(dispatched(calls.push(c)) =~= dispatched(calls) + dispatched(seq![c]));
}

/// Thresholds whose actions are well formed.
pub open spec fn thresholds_wf(ts: Seq<ControllerProfileControlLinearAssignmentThreshold>) -> bool {
    forall|i: int|
        0 <= i < ts.len() ==> (#[trigger] ts[i]).action_activate.wf() && crate::profile::action_option_wf(
            ts[i].action_deactivate,
        )
}

proof fn lemma_expanded_wf(ts: Seq<ControllerProfileControlLinearAssignmentThreshold>)
    requires
        thresholds_wf(ts),
    ensures
        thresholds_wf(expanded(ts)),
    decreases ts.len(),
{
    if ts.len() > 0 {
        let d = ts.drop_last();
        assert(thresholds_wf(d)) by {
            assert forall|i: int| 0 <= i < d.len() implies (#[trigger] d[i]).action_activate.wf()
                && crate::profile::action_option_wf(d[i].action_deactivate) by {
                assert(d[i] == ts[i]);
            }
        }
        lemma_expanded_wf(d);
        let a = expanded(d);
        let b = crate::profile::expand_one(ts.last());
        assert(ts.last() == ts[ts.len() - 1]);
        assert forall|i: int| 0 <= i < expanded(ts).len() implies (#[trigger] expanded(ts)[i]).action_activate.wf()
            && crate::profile::action_option_wf(expanded(ts)[i].action_deactivate) by {
            if i < a.len() {
                assert(expanded(ts)[i] == a[i]);
            } else {
                assert(expanded(ts)[i] == b[i - a.len()]);
            }
        }
    }
}

impl ProfileRunner {
    fn fire(
        &mut self,
        name: &String,
        idx: usize,
        s: &ControllerManagerControllerControlState,
        a: &ControllerProfileControlAssignment,
        action: Option<ProfileRunnerAssignmentCallAction>,
        out: &mut Vec<ProfileRunnerAssignmentCallAction>,
    )
        requires
            old(self).wf(),
            s.wf(),
            action matches Some(x) ==> x.wf(),
        ensures
            final(self).wf(),
            final(self).profile_name == old(self).profile_name,
            final(self).preferred_control_mode == old(self).preferred_control_mode,
            final(out)@ == old(out)@ + dispatched(seq![action]),
            forall|n: Seq<char>, k: int|
                #[trigger] final(self).last_call(n, k) == if n == name@ && k == idx {
                    record_step(old(self).last_call(n, k), *s, action)
                } else {
                    old(self).last_call(n, k)
                },
    {
        proof {
            lemma_dispatched_one(action);
        }
        match self.call_assignment_action_for_control(name, idx, s, a, action) {
            Some(x) => {
                out.push(x);
                proof {
                    assert(out@ =~= old(out)@ + dispatched(seq![action]));
                }
            },
            None => {
                proof {
                    assert(out@ =~= old(out)@ + dispatched(seq![action]));
                }
            },
        }
    }

    /// Fires the calls of one assignment slot for a state and returns the
    /// actions handed on.
    fn run_slot(
        &mut self,
        name: &String,
        idx: usize,
        s: &ControllerManagerControllerControlState,
        a: &ControllerProfileControlAssignment,
    ) -> (r: Vec<ProfileRunnerAssignmentCallAction>)
        requires
            old(self).wf(),
            s.wf(),
            a.wf(),
        ensures
            final(self).wf(),
            final(self).profile_name == old(self).profile_name,
            final(self).preferred_control_mode == old(self).preferred_control_mode,
            r@ == dispatched(slot_calls(*a, old(self).last_call(name@, idx as int), *s)),
            forall|n: Seq<char>, k: int|
                #[trigger] final(self).last_call(n, k) == if n == name@ && k == idx {
                    fold_record(old(self).last_call(n, k), *s, slot_calls(*a, old(self).last_call(name@, idx as int), *s))
                } else {
                    old(self).last_call(n, k)
                },
    {
        let ghost last0 = self.last_call(name@, idx as int);
        let ghost calls = slot_calls(*a, last0, *s);
        let last = self.last_call_exec(name, idx);
        proof {
            self.lemma_wf_last_call(name@, idx as int);
            let e = Seq::<Option<ProfileRunnerAssignmentCallAction>>::empty();
            assert(seq![calls.last()] == e.push(calls.last()));
        }
        let mut out: Vec<ProfileRunnerAssignmentCallAction> = Vec::new();
        let ghost e = Seq::<Option<ProfileRunnerAssignmentCallAction>>::empty();
        match a {
            ControllerProfileControlAssignment::Momentary(m) => {
                let fired: Option<Option<ProfileRunnerAssignmentCallAction>> = if s.value >= m.threshold {
                    let crossed = match &last {
                        None => true,
                        Some(l) => l.0.value < m.threshold,
                    };
                    if crossed {
                        Some(Some(activation(&m.action_activate)))
                    } else {
                        None
                    }
                } else {
                    let was_above = match &last {
                        None => false,
                        Some(l) => l.0.value >= m.threshold,
                    };
                    if was_above {
                        Some(deactivation(&m.action_deactivate, &m.action_activate))
                    } else {
                        None
                    }
                };
                proof {
                    assert(calls == match fired {
                        Some(c) => seq![c],
                        None => e,
                    });
                }
                if let Some(c) = fired {
                    let ghost cc = c;
                    self.fire(name, idx, s, a, c, &mut out);
                    proof {
                        lemma_calls_push(last0, *s, e, cc);
                        assert(e.push(cc) == calls);
                        assert(out@ =~= dispatched(calls));
                    }
                }
            },
            ControllerProfileControlAssignment::Toggle(t) => {
                let fired: Option<Option<ProfileRunnerAssignmentCallAction>> = if s.value >= t.threshold {
                    match &last {
                        None => Some(Some(activation(&t.action_activate))),
                        Some(l) => if l.0.value < t.threshold {
                            let last_text = l.1.get_compare_value();
                            let activate_text = t.action_activate.get_compare_value();
                            if last_text == activate_text {
                                Some(Some(activation(&t.action_deactivate)))
                            } else {
                                Some(Some(activation(&t.action_activate)))
                            }
                        } else {
                            None
                        },
                    }
                } else {
                    match &last {
                        None => None,
                        Some(l) => if l.0.value >= t.threshold {
                            match &l.1 {
                                ProfileRunnerAssignmentCallAction::SequencerAction(x) => Some(
                                    Some(
                                        ProfileRunnerAssignmentCallAction::SequencerAction(
                                            ActionSequencerAction {
                                                keys: x.keys.clone(),
                                                press_time: x.press_time,
                                                wait_time: x.wait_time,
                                                release: Some(true),
                                            },
                                        ),
                                    ),
                                ),
                                ProfileRunnerAssignmentCallAction::DirectControlAction(_) => Some(None),
                            }
                        } else {
                            None
                        },
                    }
                };
                proof {
                    assert(calls == match fired {
                        Some(c) => seq![c],
                        None => e,
                    });
                }
                if let Some(c) = fired {
                    let ghost cc = c;
                    self.fire(name, idx, s, a, c, &mut out);
                    proof {
                        lemma_calls_push(last0, *s, e, cc);
                        assert(e.push(cc) == calls);
                        assert(out@ =~= dispatched(calls));
                    }
                }
            },
            ControllerProfileControlAssignment::DirectControl(d) => {
                let value = d.input_value.calculate_normal_value(s.value);
                let c = Some(
                    ProfileRunnerAssignmentCallAction::DirectControlAction(
                        DirectControlCommand {
                            controls: d.controls.clone(),
                            input_value: value,
                            relative: Some(false),
                            hold: d.hold,
                        },
                    ),
                );
                let ghost cc = c;
                self.fire(name, idx, s, a, c, &mut out);
                proof {
                    lemma_calls_push(last0, *s, e, cc);
                    assert(e.push(cc) == calls);
                    assert(out@ =~= dispatched(calls));
                }
            },
            ControllerProfileControlAssignment::SyncControl(_) => {
                proof {
                    assert(out@ =~= dispatched(calls));
                }
            },
            ControllerProfileControlAssignment::Linear(l) => {
                out = self.run_linear(name, idx, s, a, l, &last);
            },
        }
        out
    }

    fn run_linear(
        &mut self,
        name: &String,
        idx: usize,
        s: &ControllerManagerControllerControlState,
        a: &ControllerProfileControlAssignment,
        l: &ControllerProfileControlLinearAssignment,
        last: &Option<(ControllerManagerControllerControlState, ProfileRunnerAssignmentCallAction)>,
    ) -> (r: Vec<ProfileRunnerAssignmentCallAction>)
        requires
            old(self).wf(),
            s.wf(),
            l.wf(),
            thresholds_wf(l.thresholds@),
            *last == old(self).last_call(name@, idx as int),
            last matches Some(x) ==> x.0.wf(),
        ensures
            final(self).wf(),
            final(self).profile_name == old(self).profile_name,
            final(self).preferred_control_mode == old(self).preferred_control_mode,
            r@ == dispatched(linear_calls(*l, *last, *s)),
            forall|n: Seq<char>, k: int|
                #[trigger] final(self).last_call(n, k) == if n == name@ && k == idx {
                    fold_record(old(self).last_call(n, k), *s, linear_calls(*l, *last, *s))
                } else {
                    old(self).last_call(n, k)
                },
    {
        let ghost calls = linear_calls(*l, *last, *s);
        let generated = l.generated_thresholds();
        proof {
            lemma_expanded_wf(l.thresholds@);
        }
        let v = l.calculate_neutralized_value(s.value);
        let mut ts: Vec<ControllerProfileControlLinearAssignmentThreshold> = Vec::new();
        let mut i: usize = 0;
        while i < generated.len()
            invariant
                i <= generated.len(),
                generated@ == expanded(l.thresholds@),
                thresholds_wf(generated@),
                thresholds_wf(ts@),
                ts@ == same_side(generated@.subrange(0, i as int), v as int),
            decreases generated.len() - i,
        {
            proof {
                assert(generated@.subrange(0, i + 1).drop_last() == generated@.subrange(0, i as int));
                assert(generated@.subrange(0, i + 1).last() == generated@[i as int]);
            }
            let t = &generated[i];
            if (v < 0 && t.value < 0) || (v >= 0 && t.value >= 0) {
                ts.push(t.duplicate());
            }
            i = i + 1;
        }
        proof {
            assert(generated@.subrange(0, generated.len() as int) == generated@);
        }
        let e = count_past(&ts, v);
        let p: usize = match last {
            Some(r) => {
                let lv = l.calculate_neutralized_value(r.0.value);
                count_past(&ts, lv)
            },
            None => {
                let iv = l.calculate_neutralized_value(s.initial_value);
                count_past(&ts, iv)
            },
        };
        let mut out: Vec<ProfileRunnerAssignmentCallAction> = Vec::new();
        let ghost e0 = Seq::<Option<ProfileRunnerAssignmentCallAction>>::empty();
        if e > p {
            let mut j: usize = 0;
            while j < e - p
                invariant
                    p < e <= ts@.len(),
                    j <= e - p,
                    thresholds_wf(ts@),
                    self.wf(),
                    s.wf(),
                    calls == Seq::new((e - p) as nat, |jj: int| activate_call(ts@[p + jj].action_activate)),
                    self.profile_name == old(self).profile_name,
                    self.preferred_control_mode == old(self).preferred_control_mode,
                    out@ == dispatched(calls.take(j as int)),
                    forall|n: Seq<char>, k: int|
                        #[trigger] self.last_call(n, k) == if n == name@ && k == idx {
                            fold_record(old(self).last_call(n, k), *s, calls.take(j as int))
                        } else {
                            old(self).last_call(n, k)
                        },
                decreases e - p - j,
            {
                let c = Some(activation(&ts[p + j].action_activate));
                proof {
                    assert(c == calls[j as int]);
                    lemma_calls_push(old(self).last_call(name@, idx as int), *s, calls.take(j as int), c);
                    assert(calls.take(j + 1) == calls.take(j as int).push(c));
                }
                self.fire(name, idx, s, a, c, &mut out);
                j = j + 1;
            }
            proof {
                assert(calls.take((e - p) as int) == calls);
            }
        } else if e < p {
            let mut j: usize = 0;
            while j < p - e
                invariant
                    e < p <= ts@.len(),
                    j <= p - e,
                    thresholds_wf(ts@),
                    self.wf(),
                    s.wf(),
                    calls == Seq::new((p - e) as nat, |jj: int| deactivate_call(ts@[p - 1 - jj].action_deactivate, ts@[p - 1 - jj].action_activate)),
                    self.profile_name == old(self).profile_name,
                    self.preferred_control_mode == old(self).preferred_control_mode,
                    out@ == dispatched(calls.take(j as int)),
                    forall|n: Seq<char>, k: int|
                        #[trigger] self.last_call(n, k) == if n == name@ && k == idx {
                            fold_record(old(self).last_call(n, k), *s, calls.take(j as int))
                        } else {
                            old(self).last_call(n, k)
                        },
                decreases p - e - j,
            {
                let t = &ts[p - 1 - j];
                let c = deactivation(&t.action_deactivate, &t.action_activate);
                proof {
                    assert(c == calls[j as int]);
                    lemma_calls_push(old(self).last_call(name@, idx as int), *s, calls.take(j as int), c);
                    assert(calls.take(j + 1) == calls.take(j as int).push(c));
                }
                self.fire(name, idx, s, a, c, &mut out);
                j = j + 1;
            }
            proof {
                assert(calls.take((p - e) as int) == calls);
            }
        } else {
            proof {
                assert(calls == e0);
            }
        }
        out
    }
}

fn count_past(ts: &Vec<ControllerProfileControlLinearAssignmentThreshold>, v: i64) -> (r: usize)
    ensures
        r == count_exceeding(ts@, v as int),
        r <= ts@.len(),
{
    let mut n: usize = 0;
    let mut i: usize = 0;
    while i < ts.len()
        invariant
            i <= ts.len(),
            n <= i,
            n == count_exceeding(ts@.subrange(0, i as int), v as int),
        decreases ts.len() - i,
    {
        proof {
            assert(ts@.subrange(0, i + 1).drop_last() == ts@.subrange(0, i as int));
            assert(ts@.subrange(0, i + 1).last() == ts@[i as int]);
        }
        if ts[i].is_exceeding_threshold(v) {
            n = n + 1;
        }
        i = i + 1;
    }
    assert(ts@.subrange(0, ts.len() as int) == ts@);
    n
}

impl ProfileRunner {
    /// Interprets a change event against the selected profile: fires the
    /// applicable assignments of the event's control in order and returns
    /// the actions to hand on, in order. Nothing happens for an unchanged
    /// value, without a selected profile, or for an unknown control.
    pub fn run(&mut self, config: &ConfigLoader, event: &ControllerManagerChangeEvent) -> (r: Vec<ProfileRunnerAssignmentCallAction>)
        requires
            old(self).wf(),
            config.wf(),
            event.control_state.wf(),
        ensures
            final(self).wf(),
            final(self).profile_name == old(self).profile_name,
            final(self).preferred_control_mode == old(self).preferred_control_mode,
            match run_target(*config, old(self).profile_name, *event) {
                None => {
                    &&& r@.len() == 0
                    &&& forall|n: Seq<char>, k: int| #[trigger] final(self).last_call(n, k) == old(self).last_call(n, k)
                },
                Some(c) => {
                    let slots = c.spec_slots(old(self).preferred_control_mode);
                    &&& r@ == event_dispatches(
                        *old(self),
                        c,
                        old(self).preferred_control_mode,
                        event.control_name@,
                        event.control_state,
                        slots.len() as int,
                    )
                    &&& forall|n: Seq<char>, k: int|
                        #[trigger] final(self).last_call(n, k) == if n == event.control_name@ && 0 <= k < slots.len() {
                            fold_record(
                                old(self).last_call(n, k),
                                event.control_state,
                                slot_calls(c.listed()[slots[k]], old(self).last_call(n, k), event.control_state),
                            )
                        } else {
                            old(self).last_call(n, k)
                        }
                },
            },
    {
        let mut out: Vec<ProfileRunnerAssignmentCallAction> = Vec::new();
        if !event.has_changed() {
            return out;
        }
        let profile_name = match &self.profile_name {
            Some(n) => n.clone(),
            None => {
                return out;
            },
        };
        let profile = match config.find_controller_profile(&profile_name, Some(&event.usb_id)) {
            Some(p) => p,
            None => {
                return out;
            },
        };
        let control = match profile.find_control(event.control_name.as_str()) {
            Some(c) => c,
            None => {
                return out;
            },
        };
        let ghost c = *control;
        let ghost old_self = *self;
        let mode = self.preferred_control_mode;
        let slots = control.assignment_slots(mode);
        let s = event.control_state;
        let name = &event.control_name;
        let mut k: usize = 0;
        while k < slots.len()
            invariant
                k <= slots.len(),
                c == *control,
                c.wf(),
                s == event.control_state,
                s.wf(),
                mode == old_self.preferred_control_mode,
                old_self == *old(self),
                self.wf(),
                self.profile_name == old(self).profile_name,
                self.preferred_control_mode == old(self).preferred_control_mode,
                slots@.len() == c.spec_slots(mode).len(),
                forall|j: int| 0 <= j < slots@.len() ==> slots@[j] as int == #[trigger] c.spec_slots(mode)[j],
                forall|j: int| 0 <= j < slots@.len() ==> #[trigger] slots@[j] < c.listed().len(),
                out@ == event_dispatches(old_self, c, mode, name@, s, k as int),
                forall|n: Seq<char>, kk: int|
                    #[trigger] self.last_call(n, kk) == if n == name@ && 0 <= kk < k {
                        fold_record(old_self.last_call(n, kk), s, slot_calls(c.listed()[c.spec_slots(mode)[kk]], old_self.last_call(n, kk), s))
                    } else {
                        old_self.last_call(n, kk)
                    },
            decreases slots.len() - k,
        {
            let a = control.listed_at(slots[k]);
            proof {
                assert(c.listed()[slots@[k as int] as int].wf());
                assert(self.last_call(name@, k as int) == old_self.last_call(name@, k as int));
            }
            let mut fired = self.run_slot(name, k, &s, a);
            out.append(&mut fired);
            k = k + 1;
        }
        out
    }
}

/// Actions handed on by one Momentary slot over a series of states: on
/// states at or above the threshold, on states below it, and the slot's
/// record at the end.
pub open spec fn momentary_trace(m: ControllerProfileControlMomentaryAssignment, states: Seq<ControllerManagerControllerControlState>) -> (
    nat,
    nat,
    Option<CallRecord>,
)
    decreases states.len(),
{
    if states.len() == 0 {
        (0, 0, None)
    } else {
        let (u, d, r) = momentary_trace(m, states.drop_last());
        let s = states.last();
        let calls = momentary_calls(m, r, s.value as int);
        let n = dispatched(calls).len();
        if s.value >= m.threshold {
            (u + n, d, fold_record(r, s, calls))
        } else {
            (u, d + n, fold_record(r, s, calls))
        }
    }
}

pub open spec fn held(m: ControllerProfileControlMomentaryAssignment, r: Option<CallRecord>) -> nat {
    if r matches Some(x) && x.0.value >= m.threshold {
        1
    } else {
        0
    }
}

proof fn lemma_momentary_trace(m: ControllerProfileControlMomentaryAssignment, states: Seq<ControllerManagerControllerControlState>)
    requires
        m.action_deactivate is Some || m.action_activate is Keys,
    ensures
        momentary_trace(m, states).0 == momentary_trace(m, states).1 + held(m, momentary_trace(m, states).2),
    decreases states.len(),
{
    if states.len() > 0 {
        lemma_momentary_trace(m, states.drop_last());
        let (u, d, r) = momentary_trace(m, states.drop_last());
        let s = states.last();
        let calls = momentary_calls(m, r, s.value as int);
        let e = Seq::<Option<ProfileRunnerAssignmentCallAction>>::empty();
        if calls.len() == 1 {
            let c = calls[0];
            assert(calls == e.push(c));
            lemma_calls_push(r, s, e, c);
            lemma_dispatched_one(c);
            assert(c is Some);
        } else {
            assert(calls == e);
        }
    }
}

/// Momentary: once the control rests below the threshold, as many
/// deactivations as activations have been handed on, provided the
/// assignment has something to hand on when deactivating (a deactivation
/// action, or activation keys to release).
pub proof fn lemma_momentary_balanced(m: ControllerProfileControlMomentaryAssignment, states: Seq<ControllerManagerControllerControlState>)
    requires
        states.len() > 0,
        states.last().value < m.threshold,
        m.action_deactivate is Some || m.action_activate is Keys,
    ensures
        momentary_trace(m, states).0 == momentary_trace(m, states).1,
{
    lemma_momentary_trace(m, states);
    let (u, d, r) = momentary_trace(m, states.drop_last());
    let s = states.last();
    let calls = momentary_calls(m, r, s.value as int);
    let e = Seq::<Option<ProfileRunnerAssignmentCallAction>>::empty();
    if calls.len() == 1 {
        let c = calls[0];
        assert(calls == e.push(c));
        lemma_calls_push(r, s, e, c);
    } else {
        assert(calls == e);
    }
}

/// What one Linear slot hands on over a series of states, with the slot's
/// record at the end.
pub open spec fn linear_sweep(l: ControllerProfileControlLinearAssignment, states: Seq<ControllerManagerControllerControlState>) -> (
    Seq<ProfileRunnerAssignmentCallAction>,
    Option<CallRecord>,
)
    decreases states.len(),
{
    if states.len() == 0 {
        (seq![], None)
    } else {
        let (out, r) = linear_sweep(l, states.drop_last());
        let s = states.last();
        let calls = linear_calls(l, r, s);
        (out + dispatched(calls), fold_record(r, s, calls))
    }
}

/// The action that activating threshold `t` hands on.
pub open spec fn activation_of(t: ControllerProfileControlLinearAssignmentThreshold) -> ProfileRunnerAssignmentCallAction {
    activate_call(t.action_activate)->Some_0
}

proof fn lemma_same_side_nonneg(ts: Seq<ControllerProfileControlLinearAssignmentThreshold>, v: int)
    requires
        v >= 0,
    ensures
        same_side(ts, v) == same_side(ts, 0),
        forall|i: int| 0 <= i < same_side(ts, 0).len() ==> (#[trigger] same_side(ts, 0)[i]).value >= 0,
    decreases ts.len(),
{
    if ts.len() > 0 {
        lemma_same_side_nonneg(ts.drop_last(), v);
        let r = same_side(ts.drop_last(), 0);
        assert forall|i: int| 0 <= i < same_side(ts, 0).len() implies (#[trigger] same_side(ts, 0)[i]).value >= 0 by {
            if i < r.len() {
                assert(same_side(ts, 0)[i] == r[i]);
            }
        }
    }
}

proof fn lemma_counts_agree(ts: Seq<ControllerProfileControlLinearAssignmentThreshold>, x: int)
    requires
        x >= 0,
        forall|i: int| 0 <= i < ts.len() ==> (#[trigger] ts[i]).value >= 0,
    ensures
        count_exceeding(ts, x) == count_at_most(ts, x),
        count_at_most(ts, x) <= ts.len(),
    decreases ts.len(),
{
    if ts.len() > 0 {
        assert(ts.last() == ts[ts.len() - 1]);
        lemma_counts_agree(ts.drop_last(), x);
    }
}

/// In an ascending list the thresholds at most `x` form a prefix.
proof fn lemma_count_prefix(ts: Seq<ControllerProfileControlLinearAssignmentThreshold>, x: int)
    requires
        forall|i: int, j: int| 0 <= i < j < ts.len() ==> (#[trigger] ts[i]).value <= (#[trigger] ts[j]).value,
    ensures
        count_at_most(ts, x) <= ts.len(),
        forall|i: int| 0 <= i < ts.len() ==> (i < count_at_most(ts, x) <==> (#[trigger] ts[i]).value <= x),
    decreases ts.len(),
{
    if ts.len() > 0 {
        let d = ts.drop_last();
        assert forall|i: int, j: int| 0 <= i < j < d.len() implies (#[trigger] d[i]).value <= (#[trigger] d[j]).value by {
            assert(d[i] == ts[i] && d[j] == ts[j]);
        }
        lemma_count_prefix(d, x);
        assert(ts.last() == ts[ts.len() - 1]);
        assert forall|i: int| 0 <= i < ts.len() implies (i < count_at_most(ts, x) <==> (#[trigger] ts[i]).value <= x) by {
            if i < d.len() {
                assert(d[i] == ts[i]);
                if ts.last().value <= x {
                    assert(ts[i].value <= ts[ts.len() - 1].value);
                } else if d.len() > 0 && count_at_most(d, x) == d.len() {
                    assert(d[d.len() - 1].value <= x);
                }
            } else {
                if ts.last().value <= x {
                } else {
                    assert(count_at_most(d, x) <= d.len());
                }
            }
        }
    }
}

proof fn lemma_dispatched_activations(ts: Seq<ControllerProfileControlLinearAssignmentThreshold>, p: int, n: nat)
    requires
        0 <= p,
        p + n <= ts.len(),
    ensures
        dispatched(Seq::new(n, |j: int| activate_call(ts[p + j].action_activate))) == ts.subrange(p, p + n).map_values(
            |t: ControllerProfileControlLinearAssignmentThreshold| activation_of(t),
        ),
    decreases n,
{
    let calls = Seq::new(n, |j: int| activate_call(ts[p + j].action_activate));
    if n > 0 {
        lemma_dispatched_activations(ts, p, (n - 1) as nat);
        assert(calls.drop_last() == Seq::new((n - 1) as nat, |j: int| activate_call(ts[p + j].action_activate)));
        assert(calls.last() == activate_call(ts[p + n - 1].action_activate));
        let f = |t: ControllerProfileControlLinearAssignmentThreshold| activation_of(t);
        assert(ts.subrange(p, p + n).map_values(f) =~= ts.subrange(p, p + n - 1).map_values(f).push(f(ts[p + n - 1])));
    } else {
        assert(calls == Seq::<Option<ProfileRunnerAssignmentCallAction>>::empty());
        assert(ts.subrange(p, p).map_values(|t: ControllerProfileControlLinearAssignmentThreshold| activation_of(t)) =~= seq![]);
    }
}

proof fn lemma_fold_nonempty(
    prev: Option<CallRecord>,
    s: ControllerManagerControllerControlState,
    calls: Seq<Option<ProfileRunnerAssignmentCallAction>>,
)
    requires
        calls.len() > 0,
        calls[0] is Some,
    ensures
        fold_record(prev, s, calls) matches Some(x) && x.0 == s,
    decreases calls.len(),
{
    if calls.len() > 1 {
        lemma_fold_nonempty(prev, s, calls.drop_last());
    } else {
        assert(calls.drop_last().len() == 0);
    }
}

/// Linear: in a sweep that only rises, starting from the initial value and
/// ending at `v` (all at or above zero, without a neutral point), the
/// actions handed on are the activations of the expanded thresholds above
/// the initial value and up to `v`, in order, each once; given that the
/// expanded non-negative thresholds ascend.
pub proof fn lemma_linear_sweep(l: ControllerProfileControlLinearAssignment, states: Seq<ControllerManagerControllerControlState>, initial: int, v: int)
    requires
        !(l.neutral matches Some(n) && n > 0),
        states.len() > 0,
        0 <= initial,
        states.last().value == v,
        forall|k: int| 0 <= k < states.len() ==> (#[trigger] states[k]).initial_value == initial,
        forall|k: int| 0 <= k < states.len() ==> initial <= (#[trigger] states[k]).value,
        forall|j: int, k: int| 0 <= j < k < states.len() ==> (#[trigger] states[j]).value <= (#[trigger] states[k]).value,
        forall|i: int, j: int|
            0 <= i < j < same_side(expanded(l.thresholds@), 0).len() ==> (#[trigger] same_side(expanded(l.thresholds@), 0)[i]).value
                <= (#[trigger] same_side(expanded(l.thresholds@), 0)[j]).value,
    ensures
        ({
            let ts = same_side(expanded(l.thresholds@), 0);
            &&& linear_sweep(l, states).0 == ts.subrange(count_at_most(ts, initial) as int, count_at_most(ts, v) as int).map_values(
                |t: ControllerProfileControlLinearAssignmentThreshold| activation_of(t),
            )
            &&& forall|i: int|
                0 <= i < ts.len() ==> (count_at_most(ts, initial) <= i < count_at_most(ts, v) <==> initial < (#[trigger] ts[i]).value
                    <= v)
        }),
    decreases states.len(),
{
    let ts = same_side(expanded(l.thresholds@), 0);
    lemma_same_side_nonneg(expanded(l.thresholds@), 0);
    lemma_count_prefix(ts, initial);
    lemma_count_prefix(ts, v);
    lemma_linear_sweep_inner(l, states, initial);
}

proof fn lemma_linear_sweep_inner(l: ControllerProfileControlLinearAssignment, states: Seq<ControllerManagerControllerControlState>, initial: int)
    requires
        !(l.neutral matches Some(n) && n > 0),
        states.len() > 0,
        0 <= initial,
        forall|k: int| 0 <= k < states.len() ==> (#[trigger] states[k]).initial_value == initial,
        forall|k: int| 0 <= k < states.len() ==> initial <= (#[trigger] states[k]).value,
        forall|j: int, k: int| 0 <= j < k < states.len() ==> (#[trigger] states[j]).value <= (#[trigger] states[k]).value,
        forall|i: int, j: int|
            0 <= i < j < same_side(expanded(l.thresholds@), 0).len() ==> (#[trigger] same_side(expanded(l.thresholds@), 0)[i]).value
                <= (#[trigger] same_side(expanded(l.thresholds@), 0)[j]).value,
    ensures
        ({
            let ts = same_side(expanded(l.thresholds@), 0);
            let (out, r) = linear_sweep(l, states);
            &&& out == ts.subrange(count_at_most(ts, initial) as int, count_at_most(ts, states.last().value as int) as int).map_values(
                |t: ControllerProfileControlLinearAssignmentThreshold| activation_of(t),
            )
            &&& linear_passed(l, r, states.last()) == count_at_most(ts, states.last().value as int)
            &&& count_at_most(ts, initial) <= count_at_most(ts, states.last().value as int) <= ts.len()
        }),
    decreases states.len(),
{
    let ts = same_side(expanded(l.thresholds@), 0);
    let f = |t: ControllerProfileControlLinearAssignmentThreshold| activation_of(t);
    let s = states.last();
    let x = s.value as int;
    assert(s == states[states.len() - 1]);
    lemma_same_side_nonneg(expanded(l.thresholds@), x);
    assert(linear_side(l, s) == ts);
    lemma_counts_agree(ts, x);
    lemma_counts_agree(ts, initial);
    lemma_count_prefix(ts, x);
    lemma_count_prefix(ts, initial);
    let c0 = count_at_most(ts, initial) as int;
    let cx = count_at_most(ts, x) as int;
    if states.len() == 1 {
        // no record yet: the reference is the initial value
        assert(states.drop_last().len() == 0);
        let calls = linear_calls(l, None, s);
        assert(linear_passed(l, None, s) == c0);
        assert(c0 <= cx) by {
            if c0 > cx {
                let i = cx;
                assert(ts[i].value <= initial);
            }
        }
        if cx > c0 {
            lemma_dispatched_activations(ts, c0, (cx - c0) as nat);
            lemma_fold_nonempty(None, s, calls);
            let e = Seq::<ProfileRunnerAssignmentCallAction>::empty();
            assert(e + dispatched(calls) == dispatched(calls));
        } else {
            assert(calls.len() == 0);
            assert(ts.subrange(c0, cx).map_values(f) =~= seq![]);
        }
    } else {
        let prev = states.drop_last();
        assert forall|k: int| 0 <= k < prev.len() implies (#[trigger] prev[k]).initial_value == initial && initial <= prev[k].value by {
            assert(prev[k] == states[k]);
        }
        assert forall|j: int, k: int| 0 <= j < k < prev.len() implies (#[trigger] prev[j]).value <= (#[trigger] prev[k]).value by {
            assert(prev[j] == states[j] && prev[k] == states[k]);
        }
        lemma_linear_sweep_inner(l, prev, initial);
        let (out, r) = linear_sweep(l, prev);
        let ps = prev.last();
        assert(ps == states[states.len() - 2]);
        let y = ps.value as int;
        lemma_same_side_nonneg(expanded(l.thresholds@), y);
        assert(linear_side(l, ps) == ts);
        lemma_counts_agree(ts, y);
        lemma_count_prefix(ts, y);
        let cy = count_at_most(ts, y) as int;
        // the passed count does not depend on the state beyond its side
        assert(linear_passed(l, r, s) == linear_passed(l, r, ps));
        assert(cy <= cx) by {
            if cy > cx {
                assert(ts[cx].value <= y);
            }
        }
        let calls = linear_calls(l, r, s);
        if cx > cy {
            lemma_dispatched_activations(ts, cy, (cx - cy) as nat);
            lemma_fold_nonempty(r, s, calls);
            assert(ts.subrange(c0, cx).map_values(f) =~= ts.subrange(c0, cy).map_values(f) + ts.subrange(cy, cx).map_values(f));
        } else {
            assert(cx == cy);
            assert(calls.len() == 0);
            assert(dispatched(calls) =~= seq![]);
            assert(out + dispatched(calls) =~= out);
        }
    }
}



proof fn lemma_same_side_negative(ts: Seq<ControllerProfileControlLinearAssignmentThreshold>, v: int)
    requires
        v < 0,
    ensures
        same_side(ts, v) == same_side(ts, -1),
        forall|i: int| 0 <= i < same_side(ts, -1).len() ==> (#[trigger] same_side(ts, -1)[i]).value < 0,
    decreases ts.len(),
{
    if ts.len() > 0 {
        lemma_same_side_negative(ts.drop_last(), v);
        let r = same_side(ts.drop_last(), -1);
        assert forall|i: int| 0 <= i < same_side(ts, -1).len() implies (#[trigger] same_side(ts, -1)[i]).value < 0 by {
            if i < r.len() {
                assert(same_side(ts, -1)[i] == r[i]);
            }
        }
    }
}

/// In a descending list of negative thresholds the ones a value lies past
/// form a prefix.
proof fn lemma_count_prefix_descending(ts: Seq<ControllerProfileControlLinearAssignmentThreshold>, x: int)
    requires
        forall|i: int| 0 <= i < ts.len() ==> (#[trigger] ts[i]).value < 0,
        forall|i: int, j: int| 0 <= i < j < ts.len() ==> (#[trigger] ts[i]).value >= (#[trigger] ts[j]).value,
    ensures
        count_exceeding(ts, x) <= ts.len(),
        forall|i: int| 0 <= i < ts.len() ==> (i < count_exceeding(ts, x) <==> x < (#[trigger] ts[i]).value),
    decreases ts.len(),
{
    if ts.len() > 0 {
        let d = ts.drop_last();
        assert forall|i: int, j: int| 0 <= i < j < d.len() implies (#[trigger] d[i]).value >= (#[trigger] d[j]).value by {
            assert(d[i] == ts[i] && d[j] == ts[j]);
        }
        assert forall|i: int| 0 <= i < d.len() implies (#[trigger] d[i]).value < 0 by {
            assert(d[i] == ts[i]);
        }
        lemma_count_prefix_descending(d, x);
        assert(ts.last() == ts[ts.len() - 1]);
        assert forall|i: int| 0 <= i < ts.len() implies (i < count_exceeding(ts, x) <==> x < (#[trigger] ts[i]).value) by {
            if i < d.len() {
                assert(d[i] == ts[i]);
                if x < ts.last().value {
                    assert(ts[i].value >= ts[ts.len() - 1].value);
                } else if d.len() > 0 && count_exceeding(d, x) == d.len() {
                    assert(x < d[d.len() - 1].value);
                }
            } else {
                if x < ts.last().value {
                } else {
                    assert(count_exceeding(d, x) <= d.len());
                }
            }
        }
    }
}

/// Linear, falling side: in a sweep that only falls, from the initial value
/// down to `v` through values below zero (without a neutral point), the
/// actions handed on are the activations of the expanded negative
/// thresholds below the initial value and above `v`, in order of crossing,
/// each once; given that the expanded negative thresholds descend.
pub proof fn lemma_linear_sweep_down(l: ControllerProfileControlLinearAssignment, states: Seq<ControllerManagerControllerControlState>, initial: int, v: int)
    requires
        !(l.neutral matches Some(n) && n > 0),
        states.len() > 0,
        states.last().value == v,
        forall|k: int| 0 <= k < states.len() ==> (#[trigger] states[k]).initial_value == initial,
        forall|k: int| 0 <= k < states.len() ==> (#[trigger] states[k]).value < 0 && states[k].value <= initial,
        forall|j: int, k: int| 0 <= j < k < states.len() ==> (#[trigger] states[j]).value >= (#[trigger] states[k]).value,
        forall|i: int, j: int|
            0 <= i < j < same_side(expanded(l.thresholds@), -1).len() ==> (#[trigger] same_side(expanded(l.thresholds@), -1)[i]).value
                >= (#[trigger] same_side(expanded(l.thresholds@), -1)[j]).value,
    ensures
        ({
            let ts = same_side(expanded(l.thresholds@), -1);
            &&& linear_sweep(l, states).0 == ts.subrange(count_exceeding(ts, initial) as int, count_exceeding(ts, v) as int).map_values(
                |t: ControllerProfileControlLinearAssignmentThreshold| activation_of(t),
            )
            &&& forall|i: int|
                0 <= i < ts.len() ==> (count_exceeding(ts, initial) <= i < count_exceeding(ts, v) <==> v < (#[trigger] ts[i]).value
                    <= initial)
        }),
{
    let ts = same_side(expanded(l.thresholds@), -1);
    lemma_same_side_negative(expanded(l.thresholds@), -1);
    lemma_count_prefix_descending(ts, initial);
    lemma_count_prefix_descending(ts, v);
    lemma_linear_sweep_down_inner(l, states, initial);
}

proof fn lemma_linear_sweep_down_inner(l: ControllerProfileControlLinearAssignment, states: Seq<ControllerManagerControllerControlState>, initial: int)
    requires
        !(l.neutral matches Some(n) && n > 0),
        states.len() > 0,
        forall|k: int| 0 <= k < states.len() ==> (#[trigger] states[k]).initial_value == initial,
        forall|k: int| 0 <= k < states.len() ==> (#[trigger] states[k]).value < 0 && states[k].value <= initial,
        forall|j: int, k: int| 0 <= j < k < states.len() ==> (#[trigger] states[j]).value >= (#[trigger] states[k]).value,
        forall|i: int, j: int|
            0 <= i < j < same_side(expanded(l.thresholds@), -1).len() ==> (#[trigger] same_side(expanded(l.thresholds@), -1)[i]).value
                >= (#[trigger] same_side(expanded(l.thresholds@), -1)[j]).value,
    ensures
        ({
            let ts = same_side(expanded(l.thresholds@), -1);
            let (out, r) = linear_sweep(l, states);
            &&& out == ts.subrange(count_exceeding(ts, initial) as int, count_exceeding(ts, states.last().value as int) as int).map_values(
                |t: ControllerProfileControlLinearAssignmentThreshold| activation_of(t),
            )
            &&& linear_passed(l, r, states.last()) == count_exceeding(ts, states.last().value as int)
            &&& count_exceeding(ts, initial) <= count_exceeding(ts, states.last().value as int) <= ts.len()
        }),
    decreases states.len(),
{
    let ts = same_side(expanded(l.thresholds@), -1);
    let f = |t: ControllerProfileControlLinearAssignmentThreshold| activation_of(t);
    let s = states.last();
    let x = s.value as int;
    assert(s == states[states.len() - 1]);
    lemma_same_side_negative(expanded(l.thresholds@), x);
    assert(linear_side(l, s) == ts);
    lemma_count_prefix_descending(ts, x);
    lemma_count_prefix_descending(ts, initial);
    let c0 = count_exceeding(ts, initial) as int;
    let cx = count_exceeding(ts, x) as int;
    if states.len() == 1 {
        assert(states.drop_last().len() == 0);
        let calls = linear_calls(l, None, s);
        assert(linear_passed(l, None, s) == c0);
        assert(c0 <= cx) by {
            if c0 > cx {
                assert(initial < ts[cx].value);
            }
        }
        if cx > c0 {
            lemma_dispatched_activations(ts, c0, (cx - c0) as nat);
            lemma_fold_nonempty(None, s, calls);
            let e = Seq::<ProfileRunnerAssignmentCallAction>::empty();
            assert(e + dispatched(calls) == dispatched(calls));
        } else {
            assert(calls.len() == 0);
            assert(ts.subrange(c0, cx).map_values(f) =~= seq![]);
        }
    } else {
        let prev = states.drop_last();
        assert forall|k: int| 0 <= k < prev.len() implies (#[trigger] prev[k]).initial_value == initial && prev[k].value < 0
            && prev[k].value <= initial by {
            assert(prev[k] == states[k]);
        }
        assert forall|j: int, k: int| 0 <= j < k < prev.len() implies (#[trigger] prev[j]).value >= (#[trigger] prev[k]).value by {
            assert(prev[j] == states[j] && prev[k] == states[k]);
        }
        lemma_linear_sweep_down_inner(l, prev, initial);
        let (out, r) = linear_sweep(l, prev);
        let ps = prev.last();
        assert(ps == states[states.len() - 2]);
        let y = ps.value as int;
        lemma_same_side_negative(expanded(l.thresholds@), y);
        assert(linear_side(l, ps) == ts);
        lemma_count_prefix_descending(ts, y);
        let cy = count_exceeding(ts, y) as int;
        assert(linear_passed(l, r, s) == linear_passed(l, r, ps));
        assert(cy <= cx) by {
            if cy > cx {
                assert(y < ts[cx].value);
            }
        }
        let calls = linear_calls(l, r, s);
        if cx > cy {
            lemma_dispatched_activations(ts, cy, (cx - cy) as nat);
            lemma_fold_nonempty(r, s, calls);
            assert(ts.subrange(c0, cx).map_values(f) =~= ts.subrange(c0, cy).map_values(f) + ts.subrange(cy, cx).map_values(f));
        } else {
            assert(cx == cy);
            assert(calls.len() == 0);
            assert(dispatched(calls) =~= seq![]);
            assert(out + dispatched(calls) =~= out);
        }
    }
}


/// What one assignment slot hands on over a series of states, starting
/// with no recorded call, and the slot's record at the end.
pub open spec fn slot_trace(a: ControllerProfileControlAssignment, states: Seq<ControllerManagerControllerControlState>) -> (
    Seq<ProfileRunnerAssignmentCallAction>,
    Option<CallRecord>,
)
    decreases states.len(),
{
    if states.len() == 0 {
        (seq![], None)
    } else {
        let (out, r) = slot_trace(a, states.drop_last());
        let s = states.last();
        let calls = slot_calls(a, r, s);
        (out + dispatched(calls), fold_record(r, s, calls))
    }
}

/// The actions of a series of calls, one after the other.
pub open spec fn concat_all(outs: Seq<Seq<ProfileRunnerAssignmentCallAction>>) -> Seq<ProfileRunnerAssignmentCallAction>
    decreases outs.len(),
{
    if outs.len() == 0 {
        seq![]
    } else {
        concat_all(outs.drop_last()) + outs.last()
    }
}

/// Successive interpreter states `runners[0..]`, each obtained from the one
/// before by a `run` that reached assignment `a` at slot `k` of control
/// `name` (what `run` ensures of that slot), start from an empty slot and
/// hand on, slot by slot, exactly the slot trace of the states seen.
pub proof fn lemma_runs_follow_slot_trace(
    runners: Seq<ProfileRunner>,
    outs: Seq<Seq<ProfileRunnerAssignmentCallAction>>,
    a: ControllerProfileControlAssignment,
    name: Seq<char>,
    k: int,
    states: Seq<ControllerManagerControllerControlState>,
)
    requires
        runners.len() == states.len() + 1,
        outs.len() == states.len(),
        runners[0].last_call(name, k) is None,
        forall|j: int|
            0 <= j < states.len() ==> (#[trigger] runners[j + 1]).last_call(name, k) == fold_record(
                runners[j].last_call(name, k),
                states[j],
                slot_calls(a, runners[j].last_call(name, k), states[j]),
            ) && outs[j] == dispatched(slot_calls(a, runners[j].last_call(name, k), states[j])),
    ensures
        runners.last().last_call(name, k) == slot_trace(a, states).1,
        concat_all(outs) == slot_trace(a, states).0,
    decreases states.len(),
{
    if states.len() > 0 {
        let n = states.len() - 1;
        let rs = runners.drop_last();
        let os = outs.drop_last();
        let ss = states.drop_last();
        assert forall|j: int| 0 <= j < ss.len() implies (#[trigger] rs[j + 1]).last_call(name, k) == fold_record(
            rs[j].last_call(name, k),
            ss[j],
            slot_calls(a, rs[j].last_call(name, k), ss[j]),
        ) && os[j] == dispatched(slot_calls(a, rs[j].last_call(name, k), ss[j])) by {
            assert(rs[j + 1] == runners[j + 1] && rs[j] == runners[j] && ss[j] == states[j] && os[j] == outs[j]);
        }
        lemma_runs_follow_slot_trace(rs, os, a, name, k, ss);
        assert(rs.last() == runners[n]);
        assert(runners.last() == runners[n + 1]);
        assert(states.last() == states[n]);
        assert(outs.last() == outs[n]);
    }
}

/// The Linear sweep is the slot trace of its assignment.
pub proof fn lemma_linear_sweep_is_slot_trace(l: ControllerProfileControlLinearAssignment, states: Seq<ControllerManagerControllerControlState>)
    ensures
        linear_sweep(l, states) == slot_trace(ControllerProfileControlAssignment::Linear(l), states),
    decreases states.len(),
{
    if states.len() > 0 {
        lemma_linear_sweep_is_slot_trace(l, states.drop_last());
    }
}

/// The Momentary trace counts the actions of its slot trace: those handed
/// on at or above the threshold, those below it, and the same final record.
pub proof fn lemma_momentary_trace_is_slot_trace(m: ControllerProfileControlMomentaryAssignment, states: Seq<ControllerManagerControllerControlState>)
    ensures
        momentary_trace(m, states).2 == slot_trace(ControllerProfileControlAssignment::Momentary(m), states).1,
        momentary_trace(m, states).0 + momentary_trace(m, states).1 == slot_trace(
            ControllerProfileControlAssignment::Momentary(m),
            states,
        ).0.len(),
    decreases states.len(),
{
    if states.len() > 0 {
        lemma_momentary_trace_is_slot_trace(m, states.drop_last());
    }
}

} // verus!
