use vstd::prelude::*;

use crate::value::{SCALE, clamp, clamp_i64};

verus! {

/// Calibration of one control, in raw reading units.
#[derive(Debug)]
pub struct ControllerCalibrationData {
    /// The control's name in the device mapping (`throttle1`, `button1`).
    pub id: String,
    pub deadzone: Option<i32>,
    pub invert: Option<bool>,
    pub min: i32,
    pub max: i32,
    pub idle: i32,
    /// The easing curve sampled at every fixed-point step of `[0, 1]`:
    /// entry `t` is the eased value of `t / SCALE`, in fixed-point units.
    /// Without it the easing is the identity.
    pub easing_table: Option<Vec<i64>>,
}

/// Calibration of every control of one device.
#[derive(Debug)]
pub struct ControllerCalibration {
    /// `VVVV:PPPP`.
    pub usb_id: String,
    pub data: Vec<ControllerCalibrationData>,
}

/// `|num / den|` rounded to the nearest fixed-point unit and clamped to
/// `[0, 1]`; a zero denominator gives an unbounded ratio unless `num` is
/// zero too.
pub open spec fn unit_ratio(num: int, den: int) -> int {
    if den == 0 {
        if num != 0 {
            SCALE as int
        } else {
            0
        }
    } else {
        let n = if num < 0 {
            -num
        } else {
            num
        };
        let d = if den < 0 {
            -den
        } else {
            den
        };
        clamp((2 * n * SCALE + d) / (2 * d), 0, SCALE as int)
    }
}

fn unit_ratio_exec(num: i64, den: i64) -> (r: i64)
    requires
        -0x4_0000_0000 <= num <= 0x4_0000_0000,
        -0x4_0000_0000 <= den <= 0x4_0000_0000,
    ensures
        r == unit_ratio(num as int, den as int),
        0 <= r <= SCALE,
{
    if den == 0 {
        if num != 0 {
            SCALE
        } else {
            0
        }
    } else {
        let n = if num < 0 {
            -num
        } else {
            num
        };
        let d = if den < 0 {
            -den
        } else {
            den
        };
        assert(2 * n * SCALE <= 2 * 0x4_0000_0000 * SCALE) by (nonlinear_arith)
            requires
                0 <= n <= 0x4_0000_0000,
        ;
        clamp_i64((2 * n * SCALE + d) / (2 * d), 0, SCALE)
    }
}

/// Same calibration; easing tables compared by contents.
pub open spec fn same_calibration(a: ControllerCalibrationData, b: ControllerCalibrationData) -> bool {
    &&& a.id == b.id
    &&& a.deadzone == b.deadzone
    &&& a.invert == b.invert
    &&& a.min == b.min
    &&& a.max == b.max
    &&& a.idle == b.idle
    &&& (a.easing_table is Some <==> b.easing_table is Some)
    &&& (a.easing_table is Some ==> a.easing_table->Some_0@ == b.easing_table->Some_0@)
}

impl ControllerCalibrationData {
    /// An empty calibration for a control: zero range, no deadzone, no easing.
    pub fn new(name: &String) -> (r: Self)
        ensures
            r.id@ == name@,
            r.deadzone is None && r.invert is None && r.easing_table is None,
            r.min == 0 && r.max == 0 && r.idle == 0,
            r.wf(),
    {
        ControllerCalibrationData {
            id: name.clone(),
            deadzone: None,
            invert: None,
            min: 0,
            max: 0,
            idle: 0,
            easing_table: None,
        }
    }

    /// Widens the calibration to a reading seen while calibrating: the range
    /// grows to include it and idle follows the lowest reading.
    pub fn observe(&mut self, value: i16)
        ensures
            final(self).min == if (value as i32) < old(self).min { value as i32 } else { old(self).min },
            final(self).max == if (value as i32) > old(self).max { value as i32 } else { old(self).max },
            final(self).idle == if (value as i32) < old(self).idle { value as i32 } else { old(self).idle },
            final(self).id == old(self).id,
            final(self).deadzone == old(self).deadzone,
            final(self).invert == old(self).invert,
            final(self).easing_table == old(self).easing_table,
    {
        let v = value as i32;
        if v < self.min {
            self.min = v;
        }
        if v > self.max {
            self.max = v;
        }
        if v < self.idle {
            self.idle = v;
        }
    }

    pub open spec fn wf(&self) -> bool {
        self.easing_table matches Some(t) ==> t@.len() == SCALE + 1
    }

    /// The reading after inversion.
    pub open spec fn oriented(&self, raw: i16) -> int {
        if self.invert == Some(true) {
            -(raw as int)
        } else {
            raw as int
        }
    }

    pub open spec fn low_edge(&self) -> int {
        self.idle - match self.deadzone {
            Some(d) => d as int,
            None => 0,
        }
    }

    pub open spec fn high_edge(&self) -> int {
        self.idle + match self.deadzone {
            Some(d) => d as int,
            None => 0,
        }
    }

    /// The eased value of `t`, in `[0, 1]`.
    pub open spec fn eased(&self, t: int) -> int {
        match self.easing_table {
            Some(table) => clamp(table@[t] as int, 0, SCALE as int),
            None => t,
        }
    }

    /// `None` inside the deadzone band around idle; otherwise the eased
    /// distance from the band towards `min` (negative) or `max` (positive).
    pub open spec fn spec_normalize(&self, raw: i16) -> Option<int> {
        let v = self.oriented(raw);
        let lo = self.low_edge();
        let hi = self.high_edge();
        if lo <= v <= hi {
            None
        } else if v < lo && self.min != self.idle {
            Some(-self.eased(unit_ratio(v - lo, self.min - lo)))
        } else {
            Some(self.eased(unit_ratio(v - hi, self.max - hi)))
        }
    }

    /// Normalizes a raw reading to `[-1, 1]`, or `None` inside the deadzone.
    pub fn normalize(&self, incoming_value: i16) -> (r: Option<i64>)
        requires
            self.wf(),
        ensures
            r matches Some(x) ==> Some(x as int) == self.spec_normalize(incoming_value),
            r is None <==> self.spec_normalize(incoming_value) is None,
            r is None <==> self.low_edge() <= self.oriented(incoming_value) <= self.high_edge(),
            r matches Some(x) ==> -SCALE <= x <= SCALE,
    {
        let dz: i64 = match self.deadzone {
            Some(d) => d as i64,
            None => 0,
        };
        let lo: i64 = self.idle as i64 - dz;
        let hi: i64 = self.idle as i64 + dz;
        let v: i64 = match self.invert {
            Some(true) => -(incoming_value as i64),
            _ => incoming_value as i64,
        };
        if v >= lo && v <= hi {
            return None;
        }
        if v < lo && self.min != self.idle {
            let t = unit_ratio_exec(v - lo, self.min as i64 - lo);
            Some(-self.ease(t))
        } else {
            let t = unit_ratio_exec(v - hi, self.max as i64 - hi);
            Some(self.ease(t))
        }
    }

    fn ease(&self, t: i64) -> (r: i64)
        requires
            self.wf(),
            0 <= t <= SCALE,
        ensures
            r == self.eased(t as int),
            0 <= r <= SCALE,
    {
        match &self.easing_table {
            Some(table) => clamp_i64(table[t as usize], 0, SCALE),
            None => t,
        }
    }

    /// A copy; the easing table is copied by contents.
    pub fn duplicate(&self) -> (r: Self)
        ensures
            r.id == self.id,
            r.deadzone == self.deadzone,
            r.invert == self.invert,
            r.min == self.min,
            r.max == self.max,
            r.idle == self.idle,
            r.easing_table is Some <==> self.easing_table is Some,
            r.easing_table is Some ==> r.easing_table->Some_0@ == self.easing_table->Some_0@,
            self.wf() ==> r.wf(),
            same_calibration(r, *self),
    {
        let table = match &self.easing_table {
            Some(t) => {
                let mut c: Vec<i64> = Vec::new();
                let mut i: usize = 0;
                while i < t.len()
                    invariant
                        i <= t.len(),
                        c@ == t@.subrange(0, i as int),
                    decreases t.len() - i,
                {
                    c.push(t[i]);
                    i = i + 1;
                }
                assert(c@ == t@);
                Some(c)
            },
            None => None,
        };
        ControllerCalibrationData {
            id: self.id.clone(),
            deadzone: self.deadzone,
            invert: self.invert,
            min: self.min,
            max: self.max,
            idle: self.idle,
            easing_table: table,
        }
    }
}

/// A reading inside the deadzone band gives `None`; any other reading gives
/// a value in `[-1, 1]`.
pub proof fn lemma_normalize_range(c: ControllerCalibrationData, raw: i16)
    requires
        c.wf(),
    ensures
        c.low_edge() <= c.oriented(raw) <= c.high_edge() ==> c.spec_normalize(raw) is None,
        !(c.low_edge() <= c.oriented(raw) <= c.high_edge()) ==> (c.spec_normalize(raw) matches Some(x) && -SCALE <= x
            <= SCALE),
{
    let v = c.oriented(raw);
    let lo = c.low_edge();
    let hi = c.high_edge();
    let t = if v < lo && c.min != c.idle {
        unit_ratio(v - lo, c.min - lo)
    } else {
        unit_ratio(v - hi, c.max - hi)
    };
    assert(0 <= t <= SCALE);
}

impl ControllerCalibration {
    /// The calibration of the first control with the given id.
    pub fn control_data(&self, id: &String) -> (r: Option<ControllerCalibrationData>)
        ensures
            r is None <==> forall|i: int| 0 <= i < self.data.len() ==> (#[trigger] self.data@[i]).id@ != id@,
            r matches Some(d) ==> exists|i: int|
                0 <= i < self.data.len() && same_calibration(d, #[trigger] self.data@[i]) && d.id@ == id@
                    && d.min == self.data@[i].min && d.max == self.data@[i].max && d.idle == self.data@[i].idle
                    && d.deadzone == self.data@[i].deadzone && d.invert == self.data@[i].invert
                    && (d.easing_table is Some <==> self.data@[i].easing_table is Some)
                    && (d.easing_table is Some ==> d.easing_table->Some_0@ == self.data@[i].easing_table->Some_0@)
                    && forall|j: int| 0 <= j < i ==> (#[trigger] self.data@[j]).id@ != id@,
    {
        let mut i: usize = 0;
        while i < self.data.len()
            invariant
                i <= self.data.len(),
                forall|j: int| 0 <= j < i ==> (#[trigger] self.data@[j]).id@ != id@,
            decreases self.data.len() - i,
        {
            if self.data[i].id == *id {
                return Some(self.data[i].duplicate());
            }
            i = i + 1;
        }
        None
    }
}

} // verus!
