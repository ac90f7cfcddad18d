use vstd::prelude::*;

use crate::calibration::{ControllerCalibration, ControllerCalibrationData, same_calibration};
use crate::value::{SCALE, abs, abs_i64, in_limit};

verus! {

/// Changes of value smaller than this (0.0005) count as jitter.
pub const MARGIN_OF_ERROR: i64 = 5;

/// A value must move this far (0.05) from the last turning point before
/// the direction changes.
pub const DIRECTION_CHANGE_THRESHOLD: i64 = 500;

/// The state of one live control. Values are fixed-point.
#[derive(Debug, Clone, Copy)]
pub struct ControllerManagerControllerControlState {
    /// Sign of the last movement (-1, 0, 1) and the value where it last changed.
    pub direction: (i8, i64),
    pub value: i64,
    pub previous_value: i64,
    pub initial_value: i64,
    pub raw_value: i16,
    pub raw_previous_value: i16,
    pub raw_initial_value: i16,
}

impl ControllerManagerControllerControlState {
    /// Values small enough for the arithmetic of the interpreter.
    pub open spec fn wf(&self) -> bool {
        &&& in_limit(self.value as int)
        &&& in_limit(self.previous_value as int)
        &&& in_limit(self.initial_value as int)
        &&& in_limit(self.direction.1 as int)
    }

    /// A fresh state resting at `idle_value` (zero if none).
    pub fn new(idle_value: Option<i64>) -> (r: Self)
        ensures
            r.value == r.previous_value,
            r.value == r.initial_value,
            r.direction == (0i8, r.value),
            r.value == match idle_value {
                Some(v) => v,
                None => 0,
            },
            r.raw_value == 0 && r.raw_previous_value == 0 && r.raw_initial_value == 0,
    {
        let v = match idle_value {
            Some(v) => v,
            None => 0,
        };
        ControllerManagerControllerControlState {
            direction: (0, v),
            value: v,
            previous_value: v,
            initial_value: v,
            raw_value: 0,
            raw_previous_value: 0,
            raw_initial_value: 0,
        }
    }
}

/// Readings stamped before this many milliseconds after start-up are
/// synthetic initial motion.
pub const INITIAL_EVENTS_THRESHOLD_MS: u32 = 500;

/// Whether a reading with this platform timestamp is taken into account.
pub fn accepts_reading_at(timestamp: u32) -> (r: bool)
    ensures
        r == (timestamp > INITIAL_EVENTS_THRESHOLD_MS),
{
    timestamp > INITIAL_EVENTS_THRESHOLD_MS
}

/// A control's new state, published after each update.
#[derive(Debug)]
pub struct ControllerManagerChangeEvent {
    pub usb_id: String,
    pub control_name: String,
    pub control_state: ControllerManagerControllerControlState,
}

impl ControllerManagerChangeEvent {
    pub open spec fn spec_has_changed(&self) -> bool {
        self.control_state.value != self.control_state.previous_value && self.control_state.direction.0 != 0
    }

    /// The value moved and a direction is known.
    pub fn has_changed(&self) -> (r: bool)
        ensures
            r == self.spec_has_changed(),
    {
        self.control_state.value != self.control_state.previous_value && self.control_state.direction.0 != 0
    }
}

#[derive(PartialEq, Eq, Structural, Clone, Copy, Debug)]
pub enum SDLControlKind {
    Axis,
    Button,
    Hat,
}

/// One hardware control and its logical name.
#[derive(Debug)]
pub struct ControllerSdlMapControl {
    pub kind: SDLControlKind,
    pub index: u8,
    pub name: String,
}

/// The control names of one device.
#[derive(Debug)]
pub struct ControllerSdlMap {
    pub name: String,
    /// `VVVV:PPPP`.
    pub usb_id: String,
    pub data: Vec<ControllerSdlMapControl>,
}

impl ControllerSdlMap {
    /// Whether a hardware control already has a name.
    pub fn has_control(&self, kind: SDLControlKind, index: u8) -> (r: bool)
        ensures
            r == exists|i: int| 0 <= i < self.data@.len() && (#[trigger] self.data@[i]).kind == kind && self.data@[i].index == index,
    {
        let mut i: usize = 0;
        while i < self.data.len()
            invariant
                i <= self.data@.len(),
                forall|j: int| 0 <= j < i ==> !((#[trigger] self.data@[j]).kind == kind && self.data@[j].index == index),
            decreases self.data.len() - i,
        {
            if self.data[i].kind == kind && self.data[i].index == index {
                return true;
            }
            i = i + 1;
        }
        false
    }
}

/// One control of a connected device.
pub struct ControllerManagerControllerControl {
    pub usb_id: String,
    pub name: String,
    pub sdl_mapping: ControllerSdlMapControl,
    pub calibration: Option<ControllerCalibrationData>,
    pub state: ControllerManagerControllerControlState,
}

/// The direction after a value change: it flips only once the value has
/// moved far enough from the last turning point; a reset clears it.
pub open spec fn next_direction(old: (i8, i64), value: i64, is_reset: bool) -> (i8, i64) {
    if is_reset {
        (0i8, value)
    } else if value - old.1 > DIRECTION_CHANGE_THRESHOLD {
        (1i8, value)
    } else if value - old.1 < -DIRECTION_CHANGE_THRESHOLD {
        (-1i8, value)
    } else {
        old
    }
}

/// The new value, previous value and initial value after a reading;
/// `None` when a calibrated axis reads inside its deadzone.
pub open spec fn next_values(
    kind: SDLControlKind,
    calibration: Option<ControllerCalibrationData>,
    s: ControllerManagerControllerControlState,
    raw: i16,
    is_reset: bool,
) -> Option<(i64, i64, i64)> {
    let plain = (raw as int * SCALE) as i64;
    let keep = |v: i64|
        (
            v,
            if is_reset {
                v
            } else {
                s.value
            },
            if is_reset {
                v
            } else {
                s.initial_value
            },
        );
    match kind {
        SDLControlKind::Axis => match calibration {
            Some(c) => match c.spec_normalize(raw) {
                Some(x) => Some(keep(x as i64)),
                None => None,
            },
            None => if is_reset || abs(s.value - plain) >= MARGIN_OF_ERROR {
                Some(keep(plain))
            } else {
                Some((s.value, s.value, s.initial_value))
            },
        },
        _ => Some(keep(plain)),
    }
}

/// The values after a deadzone reading of a calibrated axis: the value
/// holds; a reset re-bases previous and initial on it.
pub open spec fn held_values(s: ControllerManagerControllerControlState, is_reset: bool) -> (i64, i64, i64) {
    if is_reset {
        (s.value, s.value, s.value)
    } else {
        (s.value, s.previous_value, s.initial_value)
    }
}

/// A control's state after a reading: the raw fields always move; the
/// direction follows the new value (a reset clears it).
pub open spec fn next_state(c: ControllerManagerControllerControl, raw: i16, is_reset: bool) -> ControllerManagerControllerControlState {
    let s = c.state;
    let (v, p, i) = match next_values(c.sdl_mapping.kind, c.calibration, s, raw, is_reset) {
        Some(t) => t,
        None => held_values(s, is_reset),
    };
    ControllerManagerControllerControlState {
        value: v,
        previous_value: p,
        initial_value: i,
        direction: next_direction(s.direction, v, is_reset),
        raw_value: raw,
        raw_previous_value: if is_reset { raw } else { s.raw_value },
        raw_initial_value: if is_reset { raw } else { s.raw_initial_value },
    }
}

/// Whether a reading publishes a change event: all but deadzone readings
/// of a calibrated axis do.
pub open spec fn publishes(c: ControllerManagerControllerControl, raw: i16, is_reset: bool) -> bool {
    next_values(c.sdl_mapping.kind, c.calibration, c.state, raw, is_reset) is Some
}

/// The first control of a kind and index.
pub open spec fn control_at(cs: Seq<ControllerManagerControllerControl>, kind: SDLControlKind, index: u8, i: int) -> Option<int>
    decreases cs.len() - i,
{
    if i < 0 || i >= cs.len() {
        None
    } else if cs[i].sdl_mapping.kind == kind && cs[i].sdl_mapping.index == index {
        Some(i)
    } else {
        control_at(cs, kind, index, i + 1)
    }
}

impl ControllerManagerControllerControl {
    pub open spec fn wf(&self) -> bool {
        &&& self.state.wf()
        &&& (self.calibration matches Some(c) ==> c.wf())
    }

    pub fn new(
        usb_id: String,
        name: String,
        sdl_mapping: ControllerSdlMapControl,
        calibration: Option<&ControllerCalibrationData>,
    ) -> (r: Self)
        requires
            calibration matches Some(c) ==> c.wf() && -100_000 <= c.idle <= 100_000,
        ensures
            r.wf(),
            r.usb_id == usb_id,
            r.name == name,
            r.sdl_mapping == sdl_mapping,
            r.calibration is Some <==> calibration is Some,
            r.calibration matches Some(d) ==> same_calibration(d, *calibration->Some_0),
            r.state == ControllerManagerControllerControlState::new_spec(
                match calibration {
                    Some(c) => Some((c.idle as int * SCALE) as i64),
                    None => None,
                },
            ),
    {
        let idle = match calibration {
            Some(c) => Some(c.idle as i64 * SCALE),
            None => None,
        };
        let cal = match calibration {
            Some(c) => Some(c.duplicate()),
            None => None,
        };
        ControllerManagerControllerControl {
            usb_id,
            name,
            sdl_mapping,
            calibration: cal,
            state: ControllerManagerControllerControlState::new(idle),
        }
    }

    /// The two values differ by less than the margin of error.
    pub fn is_within_margin_of_error(&self, one: i64, two: i64) -> (r: bool)
        requires
            in_limit(one as int),
            in_limit(two as int),
        ensures
            r == (abs(one - two) < MARGIN_OF_ERROR),
    {
        abs_i64(one - two) < MARGIN_OF_ERROR
    }

    /// Takes a raw reading (a reset one re-bases the control) and returns
    /// the change event to publish, or `None` for a calibrated axis inside
    /// its deadzone.
    pub fn update_value(&mut self, value: i16, is_reset: bool) -> (r: Option<ControllerManagerChangeEvent>)
        requires
            old(self).wf(),
        ensures
            final(self).wf(),
            final(self).usb_id == old(self).usb_id,
            final(self).name == old(self).name,
            final(self).sdl_mapping == old(self).sdl_mapping,
            final(self).calibration == old(self).calibration,
            final(self).state == next_state(*old(self), value, is_reset),
            r is Some <==> publishes(*old(self), value, is_reset),
            r matches Some(e) ==> e.usb_id == old(self).usb_id && e.control_name == old(self).name && e.control_state
                == final(self).state,
            final(self).state.raw_value == value,
            final(self).state.raw_previous_value == if is_reset { value } else { old(self).state.raw_value },
            final(self).state.raw_initial_value == if is_reset { value } else { old(self).state.raw_initial_value },
    {
        self.state.raw_previous_value = if is_reset {
            value
        } else {
            self.state.raw_value
        };
        if is_reset {
            self.state.raw_initial_value = value;
        }
        self.state.raw_value = value;
        let plain: i64 = value as i64 * SCALE;
        let next: Option<i64> = match self.sdl_mapping.kind {
            SDLControlKind::Axis => match &self.calibration {
                Some(calibration) => calibration.normalize(value),
                None => {
                    if is_reset || !self.is_within_margin_of_error(self.state.value, plain) {
                        Some(plain)
                    } else {
                        Some(self.state.value)
                    }
                },
            },
            _ => Some(plain),
        };
        let v = match next {
            Some(v) => {
                self.state.previous_value = if is_reset {
                    v
                } else {
                    self.state.value
                };
                v
            },
            None => {
                if is_reset {
                    self.state.previous_value = self.state.value;
                }
                self.state.value
            },
        };
        if is_reset {
            self.state.initial_value = v;
        }
        self.state.value = v;
        let last = self.state.direction.1;
        self.state.direction = if is_reset {
            (0, v)
        } else if v - last > DIRECTION_CHANGE_THRESHOLD {
            (1, v)
        } else if v - last < -DIRECTION_CHANGE_THRESHOLD {
            (-1, v)
        } else {
            self.state.direction
        };
        match next {
            Some(_) => Some(
                ControllerManagerChangeEvent {
                    usb_id: self.usb_id.clone(),
                    control_name: self.name.clone(),
                    control_state: self.state,
                },
            ),
            None => None,
        }
    }
}

impl ControllerManagerControllerControlState {
    pub open spec fn new_spec(idle_value: Option<i64>) -> Self {
        let v = match idle_value {
            Some(v) => v,
            None => 0,
        };
        ControllerManagerControllerControlState {
            direction: (0, v),
            value: v,
            previous_value: v,
            initial_value: v,
            raw_value: 0,
            raw_previous_value: 0,
            raw_initial_value: 0,
        }
    }
}

/// The device calibration has data for the named control.
pub open spec fn calibrated(calibration: Option<&ControllerCalibration>, name: Seq<char>) -> bool {
    calibration matches Some(c) && exists|j: int| 0 <= j < c.data@.len() && (#[trigger] c.data@[j]).id@ == name
}

/// The mapped controls of one connected device.
pub struct ControllerManagerController {
    pub usb_id: String,
    pub controls: Vec<ControllerManagerControllerControl>,
}

impl ControllerManagerController {
    pub open spec fn wf(&self) -> bool {
        forall|i: int| 0 <= i < self.controls.len() ==> (#[trigger] self.controls@[i]).wf()
    }

    /// One control per entry of the mapping, with the calibration whose id
    /// is the control's name. The caller resets each control with a reading.
    pub fn new(usb_id: String, mapping: Option<&ControllerSdlMap>, calibration: Option<&ControllerCalibration>) -> (r: Self)
        requires
            calibration matches Some(c) ==> forall|i: int| 0 <= i < c.data.len() ==> (#[trigger] c.data@[i]).wf()
                && -100_000 <= c.data@[i].idle <= 100_000,
        ensures
            r.wf(),
            r.usb_id == usb_id,
            r.controls.len() == match mapping {
                Some(m) => m.data.len(),
                None => 0,
            },
            mapping matches Some(m) ==> forall|i: int| 0 <= i < r.controls.len() ==>
                (#[trigger] r.controls@[i]).name@ == m.data@[i].name@ && r.controls@[i].sdl_mapping.kind == m.data@[i].kind
                && r.controls@[i].sdl_mapping.index == m.data@[i].index && r.controls@[i].usb_id == usb_id
                && (r.controls@[i].calibration is Some <==> calibrated(calibration, m.data@[i].name@))
                && (r.controls@[i].calibration matches Some(d) ==> d.id@ == m.data@[i].name@ && exists|j: int|
                    0 <= j < calibration->Some_0.data@.len() && same_calibration(d, #[trigger] calibration->Some_0.data@[j])
                    && r.controls@[i].state == ControllerManagerControllerControlState::new_spec(Some((d.idle as int * SCALE) as i64)))
                && (r.controls@[i].calibration is None ==> r.controls@[i].state == ControllerManagerControllerControlState::new_spec(None)),
    {
        let mut controls: Vec<ControllerManagerControllerControl> = Vec::new();
        if let Some(m) = mapping {
            let mut i: usize = 0;
            while i < m.data.len()
                invariant
                    i <= m.data.len(),
                    controls@.len() == i,
                    calibration matches Some(c) ==> forall|k: int| 0 <= k < c.data.len() ==> (#[trigger] c.data@[k]).wf()
                        && -100_000 <= c.data@[k].idle <= 100_000,
                    forall|k: int| 0 <= k < i ==> (#[trigger] controls@[k]).wf() && controls@[k].name@ == m.data@[k].name@
                        && controls@[k].sdl_mapping.kind == m.data@[k].kind && controls@[k].sdl_mapping.index == m.data@[k].index
                        && controls@[k].usb_id == usb_id
                        && (controls@[k].calibration is Some <==> calibrated(calibration, m.data@[k].name@))
                        && (controls@[k].calibration matches Some(d) ==> d.id@ == m.data@[k].name@ && exists|j: int|
                            0 <= j < calibration->Some_0.data@.len() && same_calibration(d, #[trigger] calibration->Some_0.data@[j])
                            && controls@[k].state == ControllerManagerControllerControlState::new_spec(Some((d.idle as int * SCALE) as i64)))
                        && (controls@[k].calibration is None ==> controls@[k].state == ControllerManagerControllerControlState::new_spec(None)),
                decreases m.data.len() - i,
            {
                let entry = &m.data[i];
                let data = match calibration {
                    Some(c) => c.control_data(&entry.name),
                    None => None,
                };
                let control = ControllerManagerControllerControl::new(
                    usb_id.clone(),
                    entry.name.clone(),
                    ControllerSdlMapControl { kind: entry.kind, index: entry.index, name: entry.name.clone() },
                    data.as_ref(),
                );
                controls.push(control);
                i = i + 1;
            }
        }
        ControllerManagerController { usb_id, controls }
    }

    /// Routes a reading to the first control of that kind and index; `None`
    /// when no control matches or the reading is deadzone noise.
    pub fn process(&mut self, kind: SDLControlKind, index: u8, value: i16) -> (r: Option<ControllerManagerChangeEvent>)
        requires
            old(self).wf(),
        ensures
            final(self).wf(),
            final(self).usb_id == old(self).usb_id,
            final(self).controls.len() == old(self).controls.len(),
            match control_at(old(self).controls@, kind, index, 0) {
                None => r is None && final(self).controls@ == old(self).controls@,
                Some(i) => {
                    let c = old(self).controls@[i];
                    &&& final(self).controls@ == old(self).controls@.update(
                        i,
                        ControllerManagerControllerControl { state: next_state(c, value, false), ..c },
                    )
                    &&& (r is Some <==> publishes(c, value, false))
                    &&& r matches Some(e) ==> e.usb_id == c.usb_id && e.control_name == c.name && e.control_state == next_state(
                        c,
                        value,
                        false,
                    )
                },
            },
    {
        let n = self.controls.len();
        let mut i: usize = 0;
        while i < n
            invariant
                n == self.controls.len(),
                i <= n,
                self.controls@ == old(self).controls@,
                self.usb_id == old(self).usb_id,
                self.wf(),
                control_at(self.controls@, kind, index, 0) == control_at(self.controls@, kind, index, i as int),
            decreases n - i,
        {
            if self.controls[i].sdl_mapping.kind == kind && self.controls[i].sdl_mapping.index == index {
                let mut c = self.controls.remove(i);
                let e = c.update_value(value, false);
                self.controls.insert(i, c);
                proof {
                    assert(self.controls@ =~= old(self).controls@.update(
                        i as int,
                        ControllerManagerControllerControl { state: next_state(old(self).controls@[i as int], value, false), ..old(self).controls@[i as int] },
                    ));
                    assert forall|j: int| 0 <= j < self.controls.len() implies (#[trigger] self.controls@[j]).wf() by {
                        if j != i {
                            assert(self.controls@[j] == old(self).controls@[j]);
                        }
                    }
                }
                return e;
            }
            i = i + 1;
        }
        None
    }
}

} // verus!
