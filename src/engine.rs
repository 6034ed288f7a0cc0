//! Decisions around the wallpaper engine: correlating its monitor identifiers
//! with enumerated monitors, the fallback order for setting one wallpaper, and
//! applying a whole profile.

use vstd::prelude::*;
use crate::assoc::{assoc_view, keys_unique, lemma_assoc_index};
use crate::model::{MonitorInfo, Rect, WallpaperProfile};
use crate::store::WallpaperManager;
use crate::text::{decimal, has_prefix, push_decimal, seq_contains, str_contains, str_eq, strip_prefix};

verus! {

/// The prefix of an OS display device path, `\\.\`.
pub open spec fn device_path_prefix() -> Seq<char> {
    "\\\\.\\"@
}

/// A monitor with device name `name` corresponds to engine identifier `id`
/// when the name, without the device path prefix, occurs in the identifier.
pub open spec fn correlates(name: Seq<char>, id: Seq<char>) -> bool {
    has_prefix(name, device_path_prefix())
        && seq_contains(id, name.subrange(device_path_prefix().len() as int, name.len() as int))
}

/// The first of `names` that corresponds to `id`.
pub open spec fn first_correlated(names: Seq<Seq<char>>, id: Seq<char>) -> Option<Seq<char>>
    decreases names.len(),
{
    if names.len() == 0 {
        None
    } else if correlates(names[0], id) {
        Some(names[0])
    } else {
        first_correlated(names.drop_first(), id)
    }
}

/// The display name of the engine identifier `id` at position `i`: the first
/// corresponding monitor's name, else `Monitor <i + 1>`.
pub open spec fn display_name(names: Seq<Seq<char>>, id: Seq<char>, i: nat) -> Seq<char> {
    match first_correlated(names, id) {
        Some(n) => n,
        None => "Monitor "@ + decimal(i + 1),
    }
}

pub open spec fn monitor_names(known: Seq<MonitorInfo>) -> Seq<Seq<char>> {
    known.map_values(|m: MonitorInfo| m.device_name@)
}

/// Pairs each engine identifier with its display name, in engine order.
pub fn resolve_engine_monitors(known: &Vec<MonitorInfo>, engine_ids: &Vec<String>) -> (r: Vec<(String, String)>)
    ensures
        r@.len() == engine_ids@.len(),
        forall|i: int| 0 <= i < r@.len() ==> (#[trigger] r@[i]).1@ == engine_ids@[i]@
            && r@[i].0@ == display_name(monitor_names(known@), engine_ids@[i]@, i as nat),
{
    let mut r: Vec<(String, String)> = Vec::new();
    let mut i: usize = 0;
    while i < engine_ids.len()
        invariant
            i <= engine_ids@.len(),
            r@.len() == i,
            forall|k: int| 0 <= k < i ==> (#[trigger] r@[k]).1@ == engine_ids@[k]@
                && r@[k].0@ == display_name(monitor_names(known@), engine_ids@[k]@, k as nat),
        decreases engine_ids@.len() - i,
    {
        let id = engine_ids[i].as_str();
        let name = match correlated_monitor(known, id) {
            Some(k) => known[k].device_name.clone(),
            None => {
                let mut s = String::from_str("Monitor ");
                push_decimal(&mut s, i as u64 + 1);
                s
            },
        };
        r.push((name, engine_ids[i].clone()));
        i = i + 1;
    }
    r
}

/// The position of the first monitor in `known` that corresponds to `id`.
pub fn correlated_monitor(known: &Vec<MonitorInfo>, id: &str) -> (r: Option<usize>)
    ensures
        r matches Some(k) ==> k < known@.len() && correlates(known@[k as int].device_name@, id@)
            && (forall|j: int| 0 <= j < k ==> !correlates(#[trigger] known@[j].device_name@, id@))
            && first_correlated(monitor_names(known@), id@) == Some(known@[k as int].device_name@),
        r is None ==> first_correlated(monitor_names(known@), id@) is None
            && forall|j: int| 0 <= j < known@.len() ==> !correlates(#[trigger] known@[j].device_name@, id@),
{
    let ghost names = monitor_names(known@);
    assert(names.subrange(0, names.len() as int) =~= names);
    let mut k: usize = 0;
    while k < known.len()
        invariant
            k <= known@.len(),
            names == monitor_names(known@),
            forall|j: int| 0 <= j < k ==> !correlates(#[trigger] known@[j].device_name@, id@),
            first_correlated(names, id@) == first_correlated(names.subrange(k as int, names.len() as int), id@),
        decreases known@.len() - k,
    {
        let ghost rest = names.subrange(k as int, names.len() as int);
        assert(rest.drop_first() =~= names.subrange(k + 1, names.len() as int));
        assert(rest[0] == known@[k as int].device_name@);
        let name = known[k].device_name.as_str();
        match strip_prefix(name, "\\\\.\\") {
            Some(part) => {
                if str_contains(id, part.as_str()) {
                    return Some(k);
                }
            },
            None => {},
        }
        k = k + 1;
    }
    assert(names.subrange(k as int, names.len() as int).len() == 0);
    None
}

/// Monitor `k` is the first of `names` that corresponds to `id`.
pub open spec fn is_first_correlated(names: Seq<Seq<char>>, id: Seq<char>, k: int) -> bool {
    &&& 0 <= k < names.len()
    &&& correlates(names[k], id)
    &&& forall|j: int| 0 <= j < k ==> !correlates(names[j], id)
}

/// The engine identifier that monitor `k` takes on a refresh: the last of
/// `ids` whose first corresponding monitor is `k`, if any.
pub open spec fn assigned_id(names: Seq<Seq<char>>, ids: Seq<Seq<char>>, k: int) -> Option<Seq<char>>
    decreases ids.len(),
{
    if ids.len() == 0 {
        None
    } else if is_first_correlated(names, ids.last(), k) {
        Some(ids.last())
    } else {
        assigned_id(names, ids.drop_last(), k)
    }
}

/// Whether engine identifier `id`, at position `i` of the engine's list, is
/// tried for device `device`: equal, either contains the other, or it is the
/// engine's first monitor.
pub open spec fn id_matches(id: Seq<char>, device: Seq<char>, i: int) -> bool {
    id == device || seq_contains(id, device) || seq_contains(device, id) || i == 0
}

/// The engine identifiers tried for `device`, in engine order; `ids[i]` is
/// the identifier at engine index `i`, `None` where the engine did not
/// report it.
pub open spec fn matching_ids(ids: Seq<Option<Seq<char>>>, device: Seq<char>) -> Seq<Seq<char>>
    decreases ids.len(),
{
    if ids.len() == 0 {
        Seq::empty()
    } else {
        let r = matching_ids(ids.drop_last(), device);
        match ids.last() {
            Some(id) => if id_matches(id, device, ids.len() - 1) {
                r.push(id)
            } else {
                r
            },
            None => r,
        }
    }
}

/// Every target tried when setting a wallpaper for `device`: the matching
/// engine identifiers, then `device` itself as an identifier.
pub open spec fn set_targets(ids: Seq<Option<Seq<char>>>, device: Seq<char>) -> Seq<Seq<char>> {
    matching_ids(ids, device).push(device)
}

pub open spec fn opt_strings_view(v: Seq<Option<String>>) -> Seq<Option<Seq<char>>> {
    v.map_values(|o: Option<String>| crate::store::opt_view(o))
}

pub open spec fn strings_view(v: Seq<String>) -> Seq<Seq<char>> {
    v.map_values(|s: String| s@)
}

/// Setting one wallpaper: tries each target in turn and stops at the first
/// that the engine accepts.
pub struct SetRun {
    pub targets: Vec<String>,
    pub next: usize,
    pub succeeded: bool,
}

impl SetRun {
    /// A run over the targets for `device`, given the engine's identifiers by
    /// engine index (`None` where the engine did not report one).
    pub fn new(engine_ids: &Vec<Option<String>>, device: &str) -> (r: SetRun)
        ensures
            strings_view(r.targets@) == set_targets(opt_strings_view(engine_ids@), device@),
            r.next == 0,
            !r.succeeded,
    {
        let ghost ids = opt_strings_view(engine_ids@);
        let mut targets: Vec<String> = Vec::new();
        let mut i: usize = 0;
        while i < engine_ids.len()
            invariant
                i <= engine_ids@.len(),
                ids == opt_strings_view(engine_ids@),
                strings_view(targets@) == matching_ids(ids.subrange(0, i as int), device@),
            decreases engine_ids@.len() - i,
        {
            proof {
                let sub = ids.subrange(0, i as int + 1);
                assert(sub.drop_last() =~= ids.subrange(0, i as int));
                assert(sub.last() == crate::store::opt_view(engine_ids@[i as int]));
            }
            if let Some(id_string) = &engine_ids[i] {
                let id = id_string.as_str();
                let m = i == 0 || str_eq(id, device) || str_contains(id, device) || str_contains(device, id);
                if m {
                    let ghost prev = strings_view(targets@);
                    targets.push(id_string.clone());
                    assert(strings_view(targets@) =~= prev.push(id@));
                }
            }
            i = i + 1;
            assert(strings_view(targets@) =~= matching_ids(ids.subrange(0, i as int), device@));
        }
        assert(ids.subrange(0, i as int) =~= ids);
        targets.push(device.to_owned());
        assert(strings_view(targets@) =~= set_targets(ids, device@));
        SetRun { targets, next: 0, succeeded: false }
    }

    /// The target to try next, if the run goes on: none after a success or
    /// once every target has been tried.
    pub fn next_target(&self) -> (r: Option<String>)
        ensures
            r is Some <==> (!self.succeeded && self.next < self.targets@.len()),
            r matches Some(t) ==> t@ == self.targets@[self.next as int]@,
    {
        if self.succeeded || self.next >= self.targets.len() {
            None
        } else {
            Some(self.targets[self.next].clone())
        }
    }

    /// Records whether the engine accepted the target last handed out.
    pub fn record(&mut self, ok: bool)
        requires
            !old(self).succeeded,
            old(self).next < old(self).targets@.len(),
        ensures
            final(self).targets == old(self).targets,
            final(self).next == old(self).next + 1,
            final(self).succeeded == ok,
    {
        if self.next < self.targets.len() {
            self.next = self.next + 1;
        }
        self.succeeded = ok;
    }
}

/// Applying a profile: every assignment is tried, whatever became of the
/// earlier ones, and the run succeeds when all of them did.
pub struct ApplyRun {
    pub assignments: Vec<(String, String)>,
    pub next: usize,
    pub all_ok: bool,
}

/// Progress of an apply run: assignments tried, and whether all succeeded.
pub open spec fn apply_step(state: (nat, bool), ok: bool) -> (nat, bool) {
    (state.0 + 1, state.1 && ok)
}

/// The progress after recording `results` in order on a fresh run.
pub open spec fn apply_after(results: Seq<bool>) -> (nat, bool)
    decreases results.len(),
{
    if results.len() == 0 {
        (0, true)
    } else {
        apply_step(apply_after(results.drop_last()), results.last())
    }
}

/// A run over `n` assignments, fed any `n` outcomes, tries all `n` and
/// succeeds exactly when every outcome was a success.
pub proof fn lemma_apply_tries_all(results: Seq<bool>)
    ensures
        apply_after(results).0 == results.len(),
        apply_after(results).1 == (forall|i: int| 0 <= i < results.len() ==> #[trigger] results[i]),
    decreases results.len(),
{
    if results.len() > 0 {
        let p = results.drop_last();
        lemma_apply_tries_all(p);
        if forall|i: int| 0 <= i < results.len() ==> #[trigger] results[i] {
            assert forall|i: int| 0 <= i < p.len() implies #[trigger] p[i] by {
                assert(p[i] == results[i]);
            }
        }
        if !(forall|i: int| 0 <= i < results.len() ==> #[trigger] results[i]) {
            let j = choose|j: int| 0 <= j < results.len() && !results[j];
            if j < p.len() {
                assert(p[j] == results[j]);
            }
        }
    }
}

/// Driving a fresh run over the assignments `pairs` of a profile (distinct
/// devices) with any `n` outcomes, where `n` is the number of assignments:
/// the run hands out pair `i` at attempt `i`, so it makes exactly as many
/// attempts as the profile has devices, tries every (device, path) pair of
/// the profile exactly once, whatever the outcomes, and succeeds exactly when
/// every outcome was a success.
pub proof fn lemma_apply_covers_profile(pairs: Seq<(Seq<char>, Seq<char>)>, results: Seq<bool>)
    requires
        keys_unique(pairs),
        results.len() == pairs.len(),
    ensures
        apply_after(results).0 == assoc_view(pairs).dom().len(),
        apply_after(results).1 == (forall|i: int| 0 <= i < results.len() ==> #[trigger] results[i]),
        forall|d: Seq<char>| #[trigger] assoc_view(pairs).contains_key(d) ==> exists|i: int|
            0 <= i < pairs.len() && pairs[i] == (d, assoc_view(pairs)[d]),
        forall|i: int, j: int| 0 <= i < pairs.len() && 0 <= j < pairs.len() && #[trigger] pairs[i] == #[trigger] pairs[j] ==> i == j,
        forall|i: int| 0 <= i < pairs.len() ==> assoc_view(pairs).contains_key((#[trigger] pairs[i]).0)
            && assoc_view(pairs)[pairs[i].0] == pairs[i].1,
{
    lemma_apply_tries_all(results);
    let keys = pairs.map_values(|p: (Seq<char>, Seq<char>)| p.0);
    assert(keys.no_duplicates()) by {
        assert forall|i: int, j: int| 0 <= i < keys.len() && 0 <= j < keys.len() && i != j implies keys[i] != keys[j] by {
            assert(keys[i] == pairs[i].0 && keys[j] == pairs[j].0);
        }
    }
    keys.unique_seq_to_set();
    assert forall|d: Seq<char>| #[trigger] assoc_view(pairs).dom().contains(d) <==> keys.to_set().contains(d) by {
        if assoc_view(pairs).dom().contains(d) {
            let i = crate::assoc::index_of(pairs, d);
            assert(keys[i] == d);
        }
        if keys.to_set().contains(d) {
            let i = choose|i: int| 0 <= i < keys.len() && keys[i] == d;
            assert(pairs[i].0 == d);
        }
    }
    assert(assoc_view(pairs).dom() =~= keys.to_set());
    assert forall|i: int| 0 <= i < pairs.len() implies assoc_view(pairs).contains_key((#[trigger] pairs[i]).0)
        && assoc_view(pairs)[pairs[i].0] == pairs[i].1 by {
        lemma_assoc_index(pairs, i);
    }
    assert forall|d: Seq<char>| #[trigger] assoc_view(pairs).contains_key(d) implies exists|i: int|
        0 <= i < pairs.len() && pairs[i] == (d, assoc_view(pairs)[d]) by {
        let i = crate::assoc::index_of(pairs, d);
        lemma_assoc_index(pairs, i);
        assert(pairs[i] == (d, assoc_view(pairs)[d]));
    }
}

impl ApplyRun {
    pub open spec fn pairs(&self) -> Seq<(Seq<char>, Seq<char>)> {
        self.assignments@.map_values(|p: (String, String)| (p.0@, p.1@))
    }

    /// The assignment to try next, once per assignment, whatever the outcomes.
    pub fn next_assignment(&self) -> (r: Option<(String, String)>)
        ensures
            r is Some <==> self.next < self.assignments@.len(),
            r matches Some(a) ==> (a.0@, a.1@) == self.pairs()[self.next as int],
    {
        if self.next >= self.assignments.len() {
            None
        } else {
            let a = &self.assignments[self.next];
            Some((a.0.clone(), a.1.clone()))
        }
    }

    /// Records whether the assignment last handed out was applied.
    pub fn record(&mut self, ok: bool)
        requires
            old(self).next < old(self).assignments@.len(),
        ensures
            final(self).assignments == old(self).assignments,
            (final(self).next as nat, final(self).all_ok) == apply_step((old(self).next as nat, old(self).all_ok), ok),
    {
        if self.next < self.assignments.len() {
            self.next = self.next + 1;
        }
        self.all_ok = self.all_ok && ok;
    }

    /// Whether every assignment tried so far was applied.
    pub fn succeeded(&self) -> (r: bool)
        ensures
            r == self.all_ok,
    {
        self.all_ok
    }
}

/// A copy of a profile's assignments.
fn copy_pairs(v: &Vec<(String, String)>) -> (r: Vec<(String, String)>)
    ensures
        r@.map_values(|p: (String, String)| (p.0@, p.1@)) == v@.map_values(|p: (String, String)| (p.0@, p.1@)),
{
    let mut r: Vec<(String, String)> = Vec::new();
    let mut i: usize = 0;
    while i < v.len()
        invariant
            i <= v@.len(),
            r@.len() == i,
            forall|k: int| 0 <= k < i ==> (#[trigger] r@[k]).0@ == v@[k].0@ && r@[k].1@ == v@[k].1@,
        decreases v@.len() - i,
    {
        r.push((v[i].0.clone(), v[i].1.clone()));
        i = i + 1;
    }
    assert(r@.map_values(|p: (String, String)| (p.0@, p.1@)) =~= v@.map_values(|p: (String, String)| (p.0@, p.1@)));
    r
}

impl WallpaperManager {
    /// A run that applies every assignment of profile `name`, or `None` where
    /// no such profile exists.
    pub fn apply_profile(&self, name: &str) -> (r: Option<ApplyRun>)
        requires
            self.wf(),
        ensures
            r is Some <==> self.profiles_view().contains_key(name@),
            r matches Some(run) ==> run.next == 0 && run.all_ok && keys_unique(run.pairs())
                && assoc_view(run.pairs()) == self.profiles_view()[name@],
    {
        match self.find_profile(name) {
            Some(i) => {
                proof {
                    lemma_assoc_index(self.profile_pairs(), i as int);
                }
                let p: &WallpaperProfile = &self.profiles[i];
                let assignments = copy_pairs(&p.monitor_wallpapers);
                assert(self.profiles@[i as int].wf());
                Some(ApplyRun { assignments, next: 0, all_ok: true })
            },
            None => None,
        }
    }

    /// Replaces the monitors with a fresh enumeration. Each engine identifier
    /// becomes the device name of the monitor it corresponds to (by the OS
    /// device names of the enumeration); a monitor that no identifier
    /// corresponds to keeps its OS device name.
    pub fn refresh_monitors(&mut self, enumerated: Vec<MonitorInfo>, engine_ids: &Vec<String>)
        requires
            old(self).wf(),
        ensures
            final(self).wf(),
            final(self).monitors@.len() == enumerated@.len(),
            forall|i: int| 0 <= i < enumerated@.len() ==> {
                let m = #[trigger] final(self).monitors@[i];
                &&& m.handle == enumerated@[i].handle
                &&& m.rect == enumerated@[i].rect
                &&& m.is_primary == enumerated@[i].is_primary
                &&& m.device_name@ == match assigned_id(
                    monitor_names(enumerated@),
                    strings_view(engine_ids@),
                    i,
                ) {
                    Some(e) => e,
                    None => enumerated@[i].device_name@,
                }
            },
            final(self).profiles == old(self).profiles,
            final(self).schedule == old(self).schedule,
            final(self).scheduler_running == old(self).scheduler_running,
    {
        let ghost names = monitor_names(enumerated@);
        let ghost ids = strings_view(engine_ids@);
        let mut monitors: Vec<MonitorInfo> = Vec::new();
        let mut i: usize = 0;
        while i < enumerated.len()
            invariant
                i <= enumerated@.len(),
                monitors@.len() == i,
                forall|k: int| 0 <= k < i ==> {
                    let m = #[trigger] monitors@[k];
                    &&& m.handle == enumerated@[k].handle
                    &&& m.rect == enumerated@[k].rect
                    &&& m.is_primary == enumerated@[k].is_primary
                    &&& m.device_name@ == enumerated@[k].device_name@
                },
            decreases enumerated@.len() - i,
        {
            let e = &enumerated[i];
            let rect = Rect { left: e.rect.left, top: e.rect.top, right: e.rect.right, bottom: e.rect.bottom };
            monitors.push(MonitorInfo { handle: e.handle, rect, device_name: e.device_name.clone(), is_primary: e.is_primary });
            i = i + 1;
        }
        let mut j: usize = 0;
        assert(ids.subrange(0, 0) =~= Seq::<Seq<char>>::empty());
        while j < engine_ids.len()
            invariant
                j <= engine_ids@.len(),
                names == monitor_names(enumerated@),
                ids == strings_view(engine_ids@),
                monitors@.len() == enumerated@.len(),
                forall|k: int| 0 <= k < enumerated@.len() ==> {
                    let m = #[trigger] monitors@[k];
                    &&& m.handle == enumerated@[k].handle
                    &&& m.rect == enumerated@[k].rect
                    &&& m.is_primary == enumerated@[k].is_primary
                    &&& m.device_name@ == match assigned_id(names, ids.subrange(0, j as int), k) {
                        Some(e) => e,
                        None => enumerated@[k].device_name@,
                    }
                },
            decreases engine_ids@.len() - j,
        {
            let id = engine_ids[j].as_str();
            let ghost pre = ids.subrange(0, j as int + 1);
            assert(pre.drop_last() =~= ids.subrange(0, j as int));
            assert(pre.last() == id@);
            match correlated_monitor(&enumerated, id) {
                Some(k) => {
                    assert(is_first_correlated(names, id@, k as int)) by {
                        assert forall|q: int| 0 <= q < k implies !correlates(names[q], id@) by {
                            assert(names[q] == enumerated@[q].device_name@);
                        }
                    }
                    assert forall|q: int| 0 <= q < enumerated@.len() && q != k implies !is_first_correlated(names, id@, q) by {
                        if q < k {
                            assert(names[q] == enumerated@[q].device_name@);
                        } else if q > k && is_first_correlated(names, id@, q) {
                            assert(!correlates(names[k as int], id@));
                        }
                    }
                    let e = &enumerated[k];
                    let rect = Rect { left: e.rect.left, top: e.rect.top, right: e.rect.right, bottom: e.rect.bottom };
                    monitors.set(k, MonitorInfo { handle: e.handle, rect, device_name: engine_ids[j].clone(), is_primary: e.is_primary });
                },
                None => {
                    assert forall|q: int| 0 <= q < enumerated@.len() implies !is_first_correlated(names, id@, q) by {
                        assert(names[q] == enumerated@[q].device_name@);
                    }
                },
            }
            j = j + 1;
        }
        assert(ids.subrange(0, j as int) =~= ids);
        self.monitors = monitors;
    }
}

} // verus!
