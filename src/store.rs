//! The profile store: profiles, their assignments, the schedule list and the
//! scheduler's run state.

use vstd::prelude::*;
use crate::assoc::{
    assoc_view, has_key, keys_unique, lemma_assoc_empty, lemma_assoc_index, lemma_assoc_push,
    lemma_assoc_update,
};
use crate::model::{copy_entries, EntryView, MonitorInfo, ScheduleEntry, WallpaperProfile};
use crate::text::{decimal, decimal2, push_decimal, push_decimal2, str_eq};

verus! {

/// The text after the last `.` of a path's file name, as std's path rules find it.
pub uninterp spec fn extension_of(path: Seq<char>) -> Option<Seq<char>>;

/// The lower-case form of a text, by Unicode's rules.
pub uninterp spec fn lower_of(s: Seq<char>) -> Seq<char>;

/// Relies on `std::path::Path::extension`: the extension of the path's file
/// name, if it has one.
#[verifier::external_body]
fn path_extension(path: &str) -> (r: Option<String>)
    ensures
        r is None <==> extension_of(path@) is None,
        r matches Some(e) ==> extension_of(path@) == Some(e@),
{
    match std::path::Path::new(path).extension() {
        Some(e) => Some(e.to_string_lossy().into_owned()),
        None => None,
    }
}

/// Relies on `str::to_lowercase`: the lower-case form of `s`.
#[verifier::external_body]
fn lowercase(s: &str) -> (r: String)
    ensures
        r@ == lower_of(s@),
{
    s.to_lowercase()
}

/// The image formats a wallpaper may have, by lower-case extension.
pub open spec fn supported_extension(e: Seq<char>) -> bool {
    e == "jpg"@ || e == "jpeg"@ || e == "png"@ || e == "bmp"@ || e == "gif"@ || e == "tiff"@
}

/// A path passes the format check when it has a supported extension; `e` is
/// its lower-case extension.
pub open spec fn extension_accepted(e: Option<Seq<char>>) -> bool {
    match e {
        None => false,
        Some(x) => supported_extension(x),
    }
}

/// The lower-case extension of a path.
pub open spec fn lower_extension_of(path: Seq<char>) -> Option<Seq<char>> {
    match extension_of(path) {
        None => None,
        Some(e) => Some(lower_of(e)),
    }
}

pub open spec fn opt_view(e: Option<String>) -> Option<Seq<char>> {
    match e {
        None => None,
        Some(s) => Some(s@),
    }
}

/// Whether a lower-case extension names a supported image format.
pub fn is_supported_extension(e: &str) -> (r: bool)
    ensures
        r == supported_extension(e@),
{
    str_eq(e, "jpg") || str_eq(e, "jpeg") || str_eq(e, "png") || str_eq(e, "bmp") || str_eq(e, "gif")
        || str_eq(e, "tiff")
}

/// Monitors, profiles, the schedule list and whether the scheduler runs.
#[derive(Debug, Clone)]
pub struct WallpaperManager {
    pub monitors: Vec<MonitorInfo>,
    pub profiles: Vec<WallpaperProfile>,
    pub schedule: Vec<ScheduleEntry>,
    pub scheduler_running: bool,
}

impl WallpaperManager {
    pub open spec fn profile_pairs(&self) -> Seq<(Seq<char>, Map<Seq<char>, Seq<char>>)> {
        self.profiles@.map_values(|p: WallpaperProfile| (p.name@, p.wallpapers()))
    }

    /// Profile name to its device assignments.
    pub open spec fn profiles_view(&self) -> Map<Seq<char>, Map<Seq<char>, Seq<char>>> {
        assoc_view(self.profile_pairs())
    }

    pub open spec fn schedule_view(&self) -> Seq<EntryView> {
        self.schedule@.map_values(|e: ScheduleEntry| e@)
    }

    /// The device names of the known monitors, in enumeration order.
    pub open spec fn device_names(&self) -> Seq<Seq<char>> {
        self.monitors@.map_values(|m: MonitorInfo| m.device_name@)
    }

    /// Profile names are distinct, and so are the devices within each profile.
    pub open spec fn wf(&self) -> bool {
        &&& keys_unique(self.profile_pairs())
        &&& forall|i: int| 0 <= i < self.profiles@.len() ==> (#[trigger] self.profiles@[i]).wf()
    }

    /// What an assignment of `path` to `device` in profile `name` requires:
    /// the profile exists, the file exists, its format is accepted and the
    /// device is a known monitor.
    pub open spec fn assignment_ok(
        &self,
        name: Seq<char>,
        device: Seq<char>,
        file_exists: bool,
        lower_ext: Option<Seq<char>>,
    ) -> bool {
        &&& self.profiles_view().contains_key(name)
        &&& file_exists
        &&& extension_accepted(lower_ext)
        &&& self.device_names().contains(device)
    }

    /// A store with no monitors, profiles or schedule entries, and the
    /// scheduler stopped.
    pub fn new() -> (r: WallpaperManager)
        ensures
            r.wf(),
            r.monitors@.len() == 0,
            r.profiles_view() == Map::<Seq<char>, Map<Seq<char>, Seq<char>>>::empty(),
            r.schedule_view() == Seq::<EntryView>::empty(),
            !r.scheduler_running,
    {
        let r = WallpaperManager {
            monitors: Vec::new(),
            profiles: Vec::new(),
            schedule: Vec::new(),
            scheduler_running: false,
        };
        proof {
            lemma_assoc_empty::<Map<Seq<char>, Seq<char>>>();
            assert(r.profile_pairs() =~= Seq::empty());
            assert(r.schedule_view() =~= Seq::empty());
        }
        r
    }

    /// The position of the profile called `name`.
    pub fn find_profile(&self, name: &str) -> (r: Option<usize>)
        ensures
            r matches Some(i) ==> i < self.profiles@.len() && self.profiles@[i as int].name@ == name@,
            r is None ==> !self.profiles_view().contains_key(name@),
    {
        let mut i: usize = 0;
        while i < self.profiles.len()
            invariant
                i <= self.profiles@.len(),
                forall|k: int| 0 <= k < i ==> self.profiles@[k].name@ != name@,
            decreases self.profiles@.len() - i,
        {
            if str_eq(self.profiles[i].name.as_str(), name) {
                return Some(i);
            }
            i = i + 1;
        }
        proof {
            if has_key(self.profile_pairs(), name@) {
                let k = choose|k: int| 0 <= k < self.profile_pairs().len()
                    && (#[trigger] self.profile_pairs()[k]).0 == name@;
                assert(self.profile_pairs()[k].0 == self.profiles@[k].name@);
            }
        }
        None
    }

    /// Whether `device` is the device name of a known monitor.
    pub fn has_device(&self, device: &str) -> (r: bool)
        ensures
            r == self.device_names().contains(device@),
    {
        let mut i: usize = 0;
        while i < self.monitors.len()
            invariant
                i <= self.monitors@.len(),
                forall|k: int| 0 <= k < i ==> self.monitors@[k].device_name@ != device@,
            decreases self.monitors@.len() - i,
        {
            if str_eq(self.monitors[i].device_name.as_str(), device) {
                assert(self.device_names()[i as int] == device@);
                return true;
            }
            i = i + 1;
        }
        proof {
            if self.device_names().contains(device@) {
                let k = choose|k: int| 0 <= k < self.device_names().len()
                    && self.device_names()[k] == device@;
                assert(self.device_names()[k] == self.monitors@[k].device_name@);
            }
        }
        false
    }

    /// Sets profile `name` to have no assignments, adding it where it is new.
    pub(crate) fn put_empty_profile(&mut self, name: &str)
        requires
            old(self).wf(),
        ensures
            final(self).wf(),
            final(self).profiles_view() == old(self).profiles_view().insert(
                name@,
                Map::<Seq<char>, Seq<char>>::empty(),
            ),
            final(self).monitors == old(self).monitors,
            final(self).schedule == old(self).schedule,
            final(self).scheduler_running == old(self).scheduler_running,
    {
        let fresh = WallpaperProfile { name: name.to_owned(), monitor_wallpapers: Vec::new() };
        proof {
            lemma_assoc_empty::<Seq<char>>();
            assert(fresh.pairs() =~= Seq::empty());
        }
        let ghost old_pairs = self.profile_pairs();
        match self.find_profile(name) {
            Some(i) => {
                self.profiles.set(i, fresh);
                proof {
                    lemma_assoc_update(old_pairs, i as int, Map::<Seq<char>, Seq<char>>::empty());
                    assert(self.profile_pairs() =~= old_pairs.update(
                        i as int,
                        (old_pairs[i as int].0, Map::<Seq<char>, Seq<char>>::empty()),
                    ));
                }
            },
            None => {
                self.profiles.push(fresh);
                proof {
                    lemma_assoc_push(old_pairs, name@, Map::<Seq<char>, Seq<char>>::empty());
                    assert(self.profile_pairs() =~= old_pairs.push(
                        (name@, Map::<Seq<char>, Seq<char>>::empty()),
                    ));
                }
            },
        }
    }

    /// Assigns `path` to `device` in the profile at position `i`.
    pub(crate) fn put_assignment(&mut self, i: usize, device: &str, path: &str)
        requires
            old(self).wf(),
            i < old(self).profiles@.len(),
        ensures
            final(self).wf(),
            final(self).profiles_view() == old(self).profiles_view().insert(
                old(self).profiles@[i as int].name@,
                old(self).profiles_view()[old(self).profiles@[i as int].name@].insert(device@, path@),
            ),
            final(self).monitors == old(self).monitors,
            final(self).schedule == old(self).schedule,
            final(self).scheduler_running == old(self).scheduler_running,
    {
        let ghost old_pairs = self.profile_pairs();
        let mut p = self.profiles.remove(i);
        let ghost old_inner = p.pairs();
        proof {
            assert(old(self).profiles@[i as int] == p);
            lemma_assoc_index(old_pairs, i as int);
        }
        let mut j: usize = 0;
        let mut found = false;
        while j < p.monitor_wallpapers.len() && !found
            invariant
                old_inner == p.pairs(),
                j <= p.monitor_wallpapers@.len(),
                found ==> j < p.monitor_wallpapers@.len() && p.monitor_wallpapers@[j as int].0@ == device@,
                forall|k: int| 0 <= k < j ==> p.monitor_wallpapers@[k].0@ != device@,
            decreases p.monitor_wallpapers@.len() - j + (if found { 0int } else { 1int }),
        {
            if str_eq(p.monitor_wallpapers[j].0.as_str(), device) {
                found = true;
            } else {
                j = j + 1;
            }
        }
        let entry = (device.to_owned(), path.to_owned());
        if found {
            p.monitor_wallpapers.set(j, entry);
            proof {
                assert(old_inner[j as int].0 == device@);
                lemma_assoc_update(old_inner, j as int, path@);
                assert(p.pairs() =~= old_inner.update(j as int, (old_inner[j as int].0, path@)));
            }
        } else {
            proof {
                if has_key(old_inner, device@) {
                    let k = choose|k: int| 0 <= k < old_inner.len() && (#[trigger] old_inner[k]).0 == device@;
                    assert(old_inner[k].0 == p.monitor_wallpapers@[k].0@);
                }
            }
            p.monitor_wallpapers.push(entry);
            proof {
                lemma_assoc_push(old_inner, device@, path@);
                assert(p.pairs() =~= old_inner.push((device@, path@)));
            }
        }
        self.profiles.insert(i, p);
        proof {
            let name = old_pairs[i as int].0;
            lemma_assoc_update(old_pairs, i as int, p.wallpapers());
            assert(self.profile_pairs() =~= old_pairs.update(i as int, (name, p.wallpapers())));
            assert forall|k: int| 0 <= k < self.profiles@.len() implies (#[trigger] self.profiles@[k]).wf() by {
                if k != i {
                    assert(self.profiles@[k] == old(self).profiles@[k]);
                }
            }
        }
    }

    /// Adds an empty profile called `name`, unless one of that name exists.
    pub fn create_profile(&mut self, name: &str) -> (r: bool)
        requires
            old(self).wf(),
        ensures
            final(self).wf(),
            r == !old(self).profiles_view().contains_key(name@),
            (r, final(self).profiles_view()) == create_effect(old(self).profiles_view(), name@),
            r ==> final(self).profiles_view() == old(self).profiles_view().insert(
                name@,
                Map::<Seq<char>, Seq<char>>::empty(),
            ),
            r ==> final(self).monitors == old(self).monitors && final(self).schedule == old(self).schedule
                && final(self).scheduler_running == old(self).scheduler_running,
            !r ==> *final(self) == *old(self),
    {
        if let Some(i) = self.find_profile(name) {
            proof {
                lemma_assoc_index(self.profile_pairs(), i as int);
            }
            return false;
        }
        self.put_empty_profile(name);
        true
    }

    /// Assigns `path` to `device` in profile `name`, where `file_exists` says
    /// whether `path` names an existing file and `lower_ext` is the lower-case
    /// extension of `path`. Fails, changing nothing, unless the profile exists,
    /// the file exists, the format is supported and the device is a known
    /// monitor.
    pub fn set_wallpaper_in_profile_with_extension(
        &mut self,
        name: &str,
        device: &str,
        path: &str,
        file_exists: bool,
        lower_ext: Option<String>,
    ) -> (r: bool)
        requires
            old(self).wf(),
        ensures
            final(self).wf(),
            r == old(self).assignment_ok(name@, device@, file_exists, opt_view(lower_ext)),
            r ==> final(self).profiles_view() == old(self).profiles_view().insert(
                name@,
                old(self).profiles_view()[name@].insert(device@, path@),
            ),
            r ==> final(self).monitors == old(self).monitors && final(self).schedule == old(self).schedule
                && final(self).scheduler_running == old(self).scheduler_running,
            !r ==> *final(self) == *old(self),
    {
        let i = match self.find_profile(name) {
            Some(i) => i,
            None => {
                return false;
            },
        };
        if !file_exists {
            return false;
        }
        let ext_ok = match &lower_ext {
            Some(e) => is_supported_extension(e.as_str()),
            None => false,
        };
        if !ext_ok {
            return false;
        }
        if !self.has_device(device) {
            return false;
        }
        proof {
            lemma_assoc_index(self.profile_pairs(), i as int);
        }
        self.put_assignment(i, device, path);
        true
    }

    /// Assigns `path` to `device` in profile `name`, checking the format by the
    /// path's extension; `file_exists` says whether `path` names an existing
    /// file.
    pub fn set_wallpaper_in_profile(&mut self, name: &str, device: &str, path: &str, file_exists: bool) -> (r: bool)
        requires
            old(self).wf(),
        ensures
            final(self).wf(),
            r == old(self).assignment_ok(name@, device@, file_exists, lower_extension_of(path@)),
            r ==> final(self).profiles_view() == old(self).profiles_view().insert(
                name@,
                old(self).profiles_view()[name@].insert(device@, path@),
            ),
            r ==> final(self).monitors == old(self).monitors && final(self).schedule == old(self).schedule
                && final(self).scheduler_running == old(self).scheduler_running,
            !r ==> *final(self) == *old(self),
    {
        let lower_ext = match path_extension(path) {
            Some(e) => Some(lowercase(e.as_str())),
            None => None,
        };
        self.set_wallpaper_in_profile_with_extension(name, device, path, file_exists, lower_ext)
    }

    /// The profile names, in store order.
    pub fn list_profiles(&self) -> (r: Vec<String>)
        requires
            self.wf(),
        ensures
            r@.map_values(|s: String| s@) == self.profile_pairs().map_values(
                |p: (Seq<char>, Map<Seq<char>, Seq<char>>)| p.0,
            ),
            forall|k: Seq<char>| self.profiles_view().contains_key(k) <==> r@.map_values(|s: String| s@).contains(k),
    {
        let mut r: Vec<String> = Vec::new();
        let mut i: usize = 0;
        while i < self.profiles.len()
            invariant
                i <= self.profiles@.len(),
                r@.len() == i,
                forall|k: int| 0 <= k < i ==> (#[trigger] r@[k])@ == self.profiles@[k].name@,
            decreases self.profiles@.len() - i,
        {
            r.push(self.profiles[i].name.clone());
            i = i + 1;
        }
        let ghost names = r@.map_values(|s: String| s@);
        let ghost pairs = self.profile_pairs();
        assert(names =~= pairs.map_values(|p: (Seq<char>, Map<Seq<char>, Seq<char>>)| p.0));
        assert forall|k: Seq<char>| self.profiles_view().contains_key(k) <==> names.contains(k) by {
            if self.profiles_view().contains_key(k) {
                let j = choose|j: int| 0 <= j < pairs.len() && (#[trigger] pairs[j]).0 == k;
                assert(names[j] == k);
            }
            if names.contains(k) {
                let j = choose|j: int| 0 <= j < names.len() && names[j] == k;
                assert(pairs[j].0 == k);
            }
        }
        r
    }

    /// Appends an enabled entry applying profile `name` at `hour:minute`.
    /// Fails, changing nothing, unless the profile exists and the time is a
    /// valid 24-hour time.
    pub fn add_schedule(&mut self, name: &str, hour: u32, minute: u32) -> (r: bool)
        requires
            old(self).wf(),
        ensures
            final(self).wf(),
            r == (old(self).profiles_view().contains_key(name@) && hour <= 23 && minute <= 59),
            r ==> final(self).schedule_view() == old(self).schedule_view().push(
                EntryView { profile_name: name@, hour, minute, enabled: true },
            ),
            r ==> final(self).monitors == old(self).monitors && final(self).profiles == old(self).profiles
                && final(self).scheduler_running == old(self).scheduler_running,
            !r ==> *final(self) == *old(self),
    {
        match self.find_profile(name) {
            Some(i) => {
                proof {
                    lemma_assoc_index(self.profile_pairs(), i as int);
                }
            },
            None => {
                return false;
            },
        }
        if hour > 23 || minute > 59 {
            return false;
        }
        self.schedule.push(ScheduleEntry { profile_name: name.to_owned(), hour, minute, enabled: true });
        assert(self.schedule_view() =~= old(self).schedule_view().push(
            EntryView { profile_name: name@, hour, minute, enabled: true },
        ));
        true
    }

    /// Marks the scheduler running. Where it was stopped, returns the snapshot
    /// of the schedule that the new run works from; where it was running
    /// already, returns `None` and changes nothing.
    pub fn start_scheduler(&mut self) -> (r: Option<Vec<ScheduleEntry>>)
        ensures
            (r is Some, final(self).scheduler_running) == start_effect(old(self).scheduler_running),
            r matches Some(v) ==> v@.map_values(|e: ScheduleEntry| e@) == old(self).schedule_view(),
            final(self).monitors == old(self).monitors,
            final(self).profiles == old(self).profiles,
            final(self).schedule == old(self).schedule,
    {
        if self.scheduler_running {
            return None;
        }
        self.scheduler_running = true;
        Some(copy_entries(&self.schedule))
    }

    /// Marks the scheduler stopped; returns whether it was running.
    pub fn stop_scheduler(&mut self) -> (r: bool)
        ensures
            (r, final(self).scheduler_running) == stop_effect(old(self).scheduler_running),
            final(self).monitors == old(self).monitors,
            final(self).profiles == old(self).profiles,
            final(self).schedule == old(self).schedule,
    {
        if !self.scheduler_running {
            return false;
        }
        self.scheduler_running = false;
        true
    }
}

/// How the schedule list shows entry `e` at position `i` (from 0).
pub open spec fn schedule_line(i: nat, e: EntryView) -> Seq<char> {
    decimal(i + 1) + ". "@ + e.profile_name + " at "@ + decimal2(e.hour as nat) + ":"@ + decimal2(e.minute as nat)
        + if e.enabled { " (enabled)"@ } else { " (disabled)"@ }
}

impl WallpaperManager {
    /// One line per schedule entry, numbered from 1: profile, time as `HH:MM`,
    /// and whether the entry is enabled.
    pub fn list_schedule(&self) -> (r: Vec<String>)
        ensures
            r@.len() == self.schedule@.len(),
            forall|i: int| 0 <= i < r@.len() ==> (#[trigger] r@[i])@ == schedule_line(i as nat, self.schedule@[i]@),
    {
        let mut r: Vec<String> = Vec::new();
        let mut i: usize = 0;
        while i < self.schedule.len()
            invariant
                i <= self.schedule@.len(),
                r@.len() == i,
                forall|k: int| 0 <= k < i ==> (#[trigger] r@[k])@ == schedule_line(k as nat, self.schedule@[k]@),
            decreases self.schedule@.len() - i,
        {
            let e = &self.schedule[i];
            let mut s = String::new();
            push_decimal(&mut s, i as u64 + 1);
            s.append(". ");
            s.append(e.profile_name.as_str());
            s.append(" at ");
            push_decimal2(&mut s, e.hour as u64);
            s.append(":");
            push_decimal2(&mut s, e.minute as u64);
            if e.enabled {
                s.append(" (enabled)");
            } else {
                s.append(" (disabled)");
            }
            assert(s@ =~= schedule_line(i as nat, e@));
            r.push(s);
            i = i + 1;
        }
        r
    }
}

/// What starting does to the run flag: whether a new run begins, and the flag after.
pub open spec fn start_effect(running: bool) -> (bool, bool) {
    (!running, true)
}

/// What stopping does to the run flag: whether a run was stopped, and the flag after.
pub open spec fn stop_effect(running: bool) -> (bool, bool) {
    (running, false)
}

/// What creating profile `n` does to the profiles: whether it succeeds, and
/// the profiles after.
pub open spec fn create_effect(
    profiles: Map<Seq<char>, Map<Seq<char>, Seq<char>>>,
    n: Seq<char>,
) -> (bool, Map<Seq<char>, Map<Seq<char>, Seq<char>>>) {
    if profiles.contains_key(n) {
        (false, profiles)
    } else {
        (true, profiles.insert(n, Map::empty()))
    }
}

/// Creating the same new profile twice succeeds once, then fails and leaves
/// the profiles as the first call made them.
pub proof fn lemma_create_profile_twice(profiles: Map<Seq<char>, Map<Seq<char>, Seq<char>>>, n: Seq<char>)
    requires
        !profiles.contains_key(n),
    ensures
        create_effect(profiles, n).0,
        !create_effect(create_effect(profiles, n).1, n).0,
        create_effect(create_effect(profiles, n).1, n).1 == create_effect(profiles, n).1,
        create_effect(profiles, n).1[n] == Map::<Seq<char>, Seq<char>>::empty(),
{
}

/// Starting twice in a row leaves the scheduler running with one new run;
/// stopping a scheduler that never started changes nothing.
pub proof fn lemma_scheduler_start_stop(running: bool)
    ensures
        start_effect(start_effect(running).1).1,
        !start_effect(start_effect(running).1).0,
        stop_effect(false) == (false, false),
{
}

} // verus!
