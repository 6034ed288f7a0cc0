//! The data the library works on: monitors, profiles and schedule entries.

use vstd::prelude::*;
use crate::assoc::{assoc_view, keys_unique};

verus! {

/// How a wallpaper image is laid out on a monitor.
#[derive(Debug, Clone, Copy, PartialEq, Eq)]
pub enum DesktopWallpaperPosition {
    Center,
    Tile,
    Stretch,
    Fit,
    Fill,
    Span,
}

pub open spec fn position_name(p: DesktopWallpaperPosition) -> Seq<char> {
    match p {
        DesktopWallpaperPosition::Center => "Center"@,
        DesktopWallpaperPosition::Tile => "Tile"@,
        DesktopWallpaperPosition::Stretch => "Stretch"@,
        DesktopWallpaperPosition::Fit => "Fit"@,
        DesktopWallpaperPosition::Fill => "Fill"@,
        DesktopWallpaperPosition::Span => "Span"@,
    }
}

impl DesktopWallpaperPosition {
    /// The name of the position.
    pub fn to_string(&self) -> (r: &'static str)
        ensures
            r@ == position_name(*self),
    {
        match self {
            DesktopWallpaperPosition::Center => "Center",
            DesktopWallpaperPosition::Tile => "Tile",
            DesktopWallpaperPosition::Stretch => "Stretch",
            DesktopWallpaperPosition::Fit => "Fit",
            DesktopWallpaperPosition::Fill => "Fill",
            DesktopWallpaperPosition::Span => "Span",
        }
    }

    /// The number the wallpaper engine uses for the position.
    pub fn value(&self) -> (r: i32)
        ensures
            0 <= r <= 5,
            r == 0 <==> *self == DesktopWallpaperPosition::Center,
            r == 1 <==> *self == DesktopWallpaperPosition::Tile,
            r == 2 <==> *self == DesktopWallpaperPosition::Stretch,
            r == 3 <==> *self == DesktopWallpaperPosition::Fit,
            r == 4 <==> *self == DesktopWallpaperPosition::Fill,
            r == 5 <==> *self == DesktopWallpaperPosition::Span,
    {
        match self {
            DesktopWallpaperPosition::Center => 0,
            DesktopWallpaperPosition::Tile => 1,
            DesktopWallpaperPosition::Stretch => 2,
            DesktopWallpaperPosition::Fit => 3,
            DesktopWallpaperPosition::Fill => 4,
            DesktopWallpaperPosition::Span => 5,
        }
    }
}

/// A monitor's bounding rectangle, in pixels of monitor coordinates.
#[derive(Debug, Clone, Copy, PartialEq, Eq)]
pub struct Rect {
    pub left: i32,
    pub top: i32,
    pub right: i32,
    pub bottom: i32,
}

/// One physical monitor as the display enumeration reports it.
///
/// `handle` is the operating system's token for the monitor, valid for one
/// enumeration pass. `device_name` starts as the OS device path and is
/// replaced by the wallpaper engine's identifier when monitors are refreshed.
#[derive(Debug, Clone)]
pub struct MonitorInfo {
    pub handle: usize,
    pub rect: Rect,
    pub device_name: String,
    pub is_primary: bool,
}

/// A named set of wallpaper assignments, one path per device identifier.
#[derive(Debug, Clone)]
pub struct WallpaperProfile {
    pub name: String,
    pub monitor_wallpapers: Vec<(String, String)>,
}

impl WallpaperProfile {
    pub open spec fn pairs(&self) -> Seq<(Seq<char>, Seq<char>)> {
        self.monitor_wallpapers@.map_values(|p: (String, String)| (p.0@, p.1@))
    }

    /// Device identifier to wallpaper path.
    pub open spec fn wallpapers(&self) -> Map<Seq<char>, Seq<char>> {
        assoc_view(self.pairs())
    }

    /// No device identifier is assigned twice.
    pub open spec fn wf(&self) -> bool {
        keys_unique(self.pairs())
    }
}

/// A schedule entry as the contracts see it.
pub struct EntryView {
    pub profile_name: Seq<char>,
    pub hour: u32,
    pub minute: u32,
    pub enabled: bool,
}

/// A profile to apply at a time of day.
#[derive(Debug, Clone)]
pub struct ScheduleEntry {
    pub profile_name: String,
    pub hour: u32,
    pub minute: u32,
    pub enabled: bool,
}

impl View for ScheduleEntry {
    type V = EntryView;

    open spec fn view(&self) -> EntryView {
        EntryView {
            profile_name: self.profile_name@,
            hour: self.hour,
            minute: self.minute,
            enabled: self.enabled,
        }
    }
}

impl ScheduleEntry {
    /// A copy of the entry.
    pub fn copy(&self) -> (r: ScheduleEntry)
        ensures
            r@ == self@,
    {
        ScheduleEntry {
            profile_name: self.profile_name.clone(),
            hour: self.hour,
            minute: self.minute,
            enabled: self.enabled,
        }
    }
}

/// A copy of a list of schedule entries.
pub fn copy_entries(v: &Vec<ScheduleEntry>) -> (r: Vec<ScheduleEntry>)
    ensures
        r@.map_values(|e: ScheduleEntry| e@) == v@.map_values(|e: ScheduleEntry| e@),
{
    let mut r: Vec<ScheduleEntry> = Vec::new();
    let mut i: usize = 0;
    while i < v.len()
        invariant
            i <= v@.len(),
            r@.len() == i,
            forall|k: int| 0 <= k < i ==> (#[trigger] r@[k])@ == v@[k]@,
        decreases v@.len() - i,
    {
        r.push(v[i].copy());
        i = i + 1;
    }
    assert(r@.map_values(|e: ScheduleEntry| e@) =~= v@.map_values(|e: ScheduleEntry| e@));
    r
}

} // verus!
