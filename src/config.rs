use vstd::prelude::*;

use vstd::string::{StrSliceExecFns, StringExecFns};

use crate::calibration::ControllerCalibration;
use crate::controller::ControllerSdlMap;
use crate::profile::ControllerProfile;
use crate::text::{lower_of, lowercase};

verus! {

/// What `slug::slugify` returns for a string.
pub uninterp spec fn slug_of(s: Seq<char>) -> Seq<char>;

/// Relies on `slug::slugify`: the result depends on the characters alone.
#[verifier::external_body]
fn slugify(s: &str) -> (r: String)
    ensures
        r@ == slug_of(s@),
{
    slug::slugify(s)
}

/// The configuration: device mappings, calibrations and profiles.
pub struct ConfigLoader {
    pub controller_sdl_mappings: Vec<ControllerSdlMap>,
    pub controller_calibrations: Vec<ControllerCalibration>,
    /// Kept in order of name; profiles of equal name in order of arrival.
    pub controller_profiles: Vec<ControllerProfile>,
}

/// `a` sorts before `b`, comparing characters by code point.
pub open spec fn precedes(a: Seq<char>, b: Seq<char>) -> bool
    decreases a.len(),
{
    if a.len() == 0 {
        b.len() > 0
    } else if b.len() == 0 {
        false
    } else if a[0] != b[0] {
        (a[0] as u32) < (b[0] as u32)
    } else {
        precedes(a.drop_first(), b.drop_first())
    }
}

fn name_precedes(a: &str, b: &str) -> (r: bool)
    ensures
        r == precedes(a@, b@),
{
    let n = a.unicode_len();
    let m = b.unicode_len();
    let mut i: usize = 0;
    assert(a@.skip(0) =~= a@);
    assert(b@.skip(0) =~= b@);
    while i < n && i < m
        invariant
            n == a@.len(),
            m == b@.len(),
            i <= n,
            i <= m,
            precedes(a@, b@) == precedes(a@.skip(i as int), b@.skip(i as int)),
        decreases n - i,
    {
        let x = a.get_char(i);
        let y = b.get_char(i);
        proof {
            assert(a@.skip(i as int)[0] == x);
            assert(b@.skip(i as int)[0] == y);
            assert(a@.skip(i as int).drop_first() == a@.skip(i + 1));
            assert(b@.skip(i as int).drop_first() == b@.skip(i + 1));
        }
        if x != y {
            return (x as u32) < (y as u32);
        }
        i = i + 1;
    }
    i == n && i < m
}

/// The profile matches `name` and, with `usb` given, is bound to that
/// device; without it, is bound to none.
pub open spec fn profile_matches(p: ControllerProfile, name: Seq<char>, usb: Option<Seq<char>>) -> bool {
    &&& p.name@ == name
    &&& match usb {
        Some(u) => p.usb_id matches Some(x) && x@ == u,
        None => p.usb_id is None,
    }
}

/// The first matching profile at or after position `i`.
pub open spec fn first_profile(ps: Seq<ControllerProfile>, name: Seq<char>, usb: Option<Seq<char>>, i: int) -> Option<int>
    decreases ps.len() - i,
{
    if i < 0 || i >= ps.len() {
        None
    } else if profile_matches(ps[i], name, usb) {
        Some(i)
    } else {
        first_profile(ps, name, usb, i + 1)
    }
}

proof fn lemma_first_profile_range(ps: Seq<ControllerProfile>, name: Seq<char>, usb: Option<Seq<char>>, i: int)
    ensures
        first_profile(ps, name, usb, i) matches Some(k) ==> 0 <= i <= k < ps.len(),
    decreases ps.len() - i,
{
    if 0 <= i < ps.len() && !profile_matches(ps[i], name, usb) {
        lemma_first_profile_range(ps, name, usb, i + 1);
    }
}

/// The profile that applies to a device: the one bound to it, else the one
/// bound to none.
pub open spec fn profile_for(ps: Seq<ControllerProfile>, name: Seq<char>, usb: Option<Seq<char>>) -> Option<int> {
    match usb {
        Some(u) => match first_profile(ps, name, Some(u), 0) {
            Some(i) => Some(i),
            None => first_profile(ps, name, None, 0),
        },
        None => first_profile(ps, name, None, 0),
    }
}

pub open spec fn usb_view(u: Option<&String>) -> Option<Seq<char>> {
    match u {
        Some(x) => Some(x@),
        None => None,
    }
}

/// The name of the file a configuration item is stored under.
pub open spec fn file_name_of(name: Seq<char>) -> Seq<char> {
    slug_of(name) + ".json"@
}

impl ConfigLoader {
    /// Every profile is well formed.
    pub open spec fn wf(&self) -> bool {
        forall|i: int| 0 <= i < self.controller_profiles@.len() ==> (#[trigger] self.controller_profiles@[i]).wf()
    }

    pub fn new() -> (r: Self)
        ensures
            r.controller_sdl_mappings@.len() == 0,
            r.controller_calibrations@.len() == 0,
            r.controller_profiles@.len() == 0,
    {
        ConfigLoader {
            controller_sdl_mappings: Vec::new(),
            controller_calibrations: Vec::new(),
            controller_profiles: Vec::new(),
        }
    }

    pub fn register_sdl_mapping(&mut self, mapping: ControllerSdlMap)
        ensures
            final(self).controller_sdl_mappings@ == old(self).controller_sdl_mappings@.push(mapping),
            final(self).controller_calibrations@ == old(self).controller_calibrations@,
            final(self).controller_profiles@ == old(self).controller_profiles@,
    {
        self.controller_sdl_mappings.push(mapping);
    }

    pub fn register_calibration(&mut self, calibration: ControllerCalibration)
        ensures
            final(self).controller_calibrations@ == old(self).controller_calibrations@.push(calibration),
            final(self).controller_sdl_mappings@ == old(self).controller_sdl_mappings@,
            final(self).controller_profiles@ == old(self).controller_profiles@,
    {
        self.controller_calibrations.push(calibration);
    }

    /// Adds a profile after every profile whose name does not sort after it.
    pub fn register_profile(&mut self, profile: ControllerProfile)
        ensures
            final(self).controller_sdl_mappings@ == old(self).controller_sdl_mappings@,
            final(self).controller_calibrations@ == old(self).controller_calibrations@,
            exists|k: int|
                0 <= k <= old(self).controller_profiles@.len() && final(self).controller_profiles@
                    == old(self).controller_profiles@.insert(k, profile) && (forall|j: int|
                    0 <= j < k ==> !precedes(profile.name@, (#[trigger] old(self).controller_profiles@[j]).name@)) && (k
                    < old(self).controller_profiles@.len() ==> precedes(
                    profile.name@,
                    old(self).controller_profiles@[k].name@,
                )),
    {
        let n = self.controller_profiles.len();
        let mut k: usize = 0;
        while k < n && !name_precedes(profile.name.as_str(), self.controller_profiles[k].name.as_str())
            invariant
                n == self.controller_profiles.len(),
                self.controller_profiles@ == old(self).controller_profiles@,
                self.controller_sdl_mappings@ == old(self).controller_sdl_mappings@,
                self.controller_calibrations@ == old(self).controller_calibrations@,
                k <= n,
                forall|j: int| 0 <= j < k ==> !precedes(profile.name@, (#[trigger] self.controller_profiles@[j]).name@),
            decreases n - k,
        {
            k = k + 1;
        }
        let ghost before = self.controller_profiles@;
        let ghost p = profile;
        self.controller_profiles.insert(k, profile);
        proof {
            assert(self.controller_profiles@ == before.insert(k as int, p));
        }
    }

    /// The mapping of a device, its id compared without regard to case.
    pub fn find_sdl_mapping(&self, usb_id: &String) -> (r: Option<&ControllerSdlMap>)
        ensures
            r is None <==> forall|i: int| 0 <= i < self.controller_sdl_mappings@.len() ==> lower_of(
                (#[trigger] self.controller_sdl_mappings@[i]).usb_id@,
            ) != lower_of(usb_id@),
            r matches Some(m) ==> exists|i: int|
                0 <= i < self.controller_sdl_mappings@.len() && *m == #[trigger] self.controller_sdl_mappings@[i] && lower_of(
                    m.usb_id@,
                ) == lower_of(usb_id@) && forall|j: int| 0 <= j < i ==> lower_of(
                    (#[trigger] self.controller_sdl_mappings@[j]).usb_id@,
                ) != lower_of(usb_id@),
    {
        let wanted = lowercase(usb_id.as_str());
        let mut i: usize = 0;
        while i < self.controller_sdl_mappings.len()
            invariant
                i <= self.controller_sdl_mappings@.len(),
                wanted@ == lower_of(usb_id@),
                forall|j: int| 0 <= j < i ==> lower_of((#[trigger] self.controller_sdl_mappings@[j]).usb_id@) != lower_of(usb_id@),
            decreases self.controller_sdl_mappings.len() - i,
        {
            if lowercase(self.controller_sdl_mappings[i].usb_id.as_str()) == wanted {
                return Some(&self.controller_sdl_mappings[i]);
            }
            i = i + 1;
        }
        None
    }

    /// The calibration of a device, its id compared without regard to case.
    pub fn find_controller_calibration(&self, usb_id: &String) -> (r: Option<&ControllerCalibration>)
        ensures
            r is None <==> forall|i: int| 0 <= i < self.controller_calibrations@.len() ==> lower_of(
                (#[trigger] self.controller_calibrations@[i]).usb_id@,
            ) != lower_of(usb_id@),
            r matches Some(m) ==> exists|i: int|
                0 <= i < self.controller_calibrations@.len() && *m == #[trigger] self.controller_calibrations@[i] && lower_of(
                    m.usb_id@,
                ) == lower_of(usb_id@) && forall|j: int| 0 <= j < i ==> lower_of(
                    (#[trigger] self.controller_calibrations@[j]).usb_id@,
                ) != lower_of(usb_id@),
    {
        let wanted = lowercase(usb_id.as_str());
        let mut i: usize = 0;
        while i < self.controller_calibrations.len()
            invariant
                i <= self.controller_calibrations@.len(),
                wanted@ == lower_of(usb_id@),
                forall|j: int| 0 <= j < i ==> lower_of((#[trigger] self.controller_calibrations@[j]).usb_id@) != lower_of(usb_id@),
            decreases self.controller_calibrations.len() - i,
        {
            if lowercase(self.controller_calibrations[i].usb_id.as_str()) == wanted {
                return Some(&self.controller_calibrations[i]);
            }
            i = i + 1;
        }
        None
    }

    fn first_profile_index(&self, name: &String, usb_id: Option<&String>) -> (r: Option<usize>)
        ensures
            r matches Some(i) ==> Some(i as int) == first_profile(self.controller_profiles@, name@, usb_view(usb_id), 0),
            r is None ==> first_profile(self.controller_profiles@, name@, usb_view(usb_id), 0) is None,
            r matches Some(i) ==> i < self.controller_profiles@.len(),
    {
        proof {
            lemma_first_profile_range(self.controller_profiles@, name@, usb_view(usb_id), 0);
        }
        let ghost usb = usb_view(usb_id);
        let ghost ps = self.controller_profiles@;
        let mut i: usize = 0;
        while i < self.controller_profiles.len()
            invariant
                ps == self.controller_profiles@,
                usb == usb_view(usb_id),
                i <= ps.len(),
                first_profile(ps, name@, usb, 0) == first_profile(ps, name@, usb, i as int),
            decreases ps.len() - i,
        {
            let p = &self.controller_profiles[i];
            let same_name = p.name == *name;
            let same_usb = match usb_id {
                Some(u) => match &p.usb_id {
                    Some(x) => *x == *u,
                    None => false,
                },
                None => p.usb_id.is_none(),
            };
            let hit = same_name && same_usb;
            proof {
                assert(*p == ps[i as int]);
                assert(same_name == (p.name@ == name@));
                assert(hit == profile_matches(ps[i as int], name@, usb));
            }
            if hit {
                return Some(i);
            }
            i = i + 1;
        }
        None
    }

    /// The profile of that name for a device: the one bound to the device,
    /// else the one bound to none.
    pub fn find_controller_profile(&self, name: &String, controller_usb_id: Option<&String>) -> (r: Option<&ControllerProfile>)
        ensures
            r is None <==> profile_for(self.controller_profiles@, name@, usb_view(controller_usb_id)) is None,
            r matches Some(p) ==> *p == self.controller_profiles@[profile_for(
                self.controller_profiles@,
                name@,
                usb_view(controller_usb_id),
            )->Some_0],
            self.wf() ==> (r matches Some(p) ==> p.wf()),
    {
        proof {
            lemma_first_profile_range(self.controller_profiles@, name@, usb_view(controller_usb_id), 0);
            lemma_first_profile_range(self.controller_profiles@, name@, None, 0);
        }
        match controller_usb_id {
            Some(u) => match self.first_profile_index(name, Some(u)) {
                Some(i) => Some(&self.controller_profiles[i]),
                None => match self.first_profile_index(name, None) {
                    Some(i) => Some(&self.controller_profiles[i]),
                    None => None,
                },
            },
            None => match self.first_profile_index(name, None) {
                Some(i) => Some(&self.controller_profiles[i]),
                None => None,
            },
        }
    }

    /// `<slug of name>.json`.
    pub fn file_name(name: &String) -> (r: String)
        ensures
            r@ == file_name_of(name@),
    {
        let s = slugify(name.as_str());
        s.concat(".json")
    }
}

} // verus!
