//! What the background scheduler decides on each poll.

use vstd::prelude::*;
use crate::engine::strings_view;
use crate::model::{EntryView, ScheduleEntry};

verus! {

/// Seconds between two polls of the clock.
pub const POLL_SECS: u64 = 30;

/// Seconds to wait after an entry fires, so that it does not fire again
/// within the same minute.
pub const DEBOUNCE_SECS: u64 = 60;

/// An entry fires at `hour:minute` when it is enabled and set to that time.
pub open spec fn fires(e: EntryView, hour: u32, minute: u32) -> bool {
    e.enabled && e.hour == hour && e.minute == minute
}

/// The profile names of the entries that fire at `hour:minute`, in schedule order.
pub open spec fn due_names(s: Seq<EntryView>, hour: u32, minute: u32) -> Seq<Seq<char>>
    decreases s.len(),
{
    if s.len() == 0 {
        Seq::empty()
    } else {
        let r = due_names(s.drop_last(), hour, minute);
        if fires(s.last(), hour, minute) {
            r.push(s.last().profile_name)
        } else {
            r
        }
    }
}

pub open spec fn entries_view(s: Seq<ScheduleEntry>) -> Seq<EntryView> {
    s.map_values(|e: ScheduleEntry| e@)
}

/// The profiles due at `hour:minute`, in schedule order.
pub fn due_profiles(schedule: &Vec<ScheduleEntry>, hour: u32, minute: u32) -> (r: Vec<String>)
    ensures
        strings_view(r@) == due_names(entries_view(schedule@), hour, minute),
{
    let ghost s = entries_view(schedule@);
    let mut r: Vec<String> = Vec::new();
    let mut i: usize = 0;
    while i < schedule.len()
        invariant
            i <= schedule@.len(),
            s == entries_view(schedule@),
            strings_view(r@) == due_names(s.subrange(0, i as int), hour, minute),
        decreases schedule@.len() - i,
    {
        let e = &schedule[i];
        proof {
            let sub = s.subrange(0, i as int + 1);
            assert(sub.drop_last() =~= s.subrange(0, i as int));
            assert(sub.last() == e@);
        }
        if e.enabled && e.hour == hour && e.minute == minute {
            r.push(e.profile_name.clone());
        }
        i = i + 1;
        assert(strings_view(r@) =~= due_names(s.subrange(0, i as int), hour, minute));
    }
    assert(s.subrange(0, i as int) =~= s);
    r
}

/// How long to wait after a poll that found `n_due` due entries: the
/// debounce interval after a firing, the poll interval otherwise.
pub fn wait_after_poll(n_due: usize) -> (r: u64)
    ensures
        r == if n_due > 0 { DEBOUNCE_SECS } else { POLL_SECS },
{
    if n_due > 0 { DEBOUNCE_SECS } else { POLL_SECS }
}

/// Relies on chrono's `Local::now`, read through `Timelike::hour` (0 to 23)
/// and `Timelike::minute` (0 to 59): the local time of day.
#[verifier::external_body]
fn local_time_of_day() -> (r: (u32, u32))
    ensures
        r.0 < 24,
        r.1 < 60,
{
    let now = chrono::Local::now();
    (chrono::Timelike::hour(&now), chrono::Timelike::minute(&now))
}

/// One poll: reads the local time of day and returns it with the profiles
/// of `schedule` due then.
///
/// Open design decision: a due profile is only reported, not applied. The
/// scheduler runs on a snapshot of the schedule and holds no handle back to
/// the profile store; closing that gap needs a callback or channel to an
/// apply operation.
pub fn poll_schedule(schedule: &Vec<ScheduleEntry>) -> (r: (u32, u32, Vec<String>))
    ensures
        r.0 < 24,
        r.1 < 60,
        strings_view(r.2@) == due_names(entries_view(schedule@), r.0, r.1),
{
    let (hour, minute) = local_time_of_day();
    let due = due_profiles(schedule, hour, minute);
    (hour, minute, due)
}

} // verus!
