use wallpaper_manager::model::{DesktopWallpaperPosition, MonitorInfo, Rect};
use wallpaper_manager::store::{is_supported_extension, WallpaperManager};

fn monitor(name: &str) -> MonitorInfo {
    MonitorInfo {
        handle: 1,
        rect: Rect { left: 0, top: 0, right: 1920, bottom: 1080 },
        device_name: name.to_string(),
        is_primary: true,
    }
}

fn manager_with(names: &[&str]) -> WallpaperManager {
    let mut m = WallpaperManager::new();
    for n in names {
        m.monitors.push(monitor(n));
    }
    m
}

fn assignments(m: &WallpaperManager, profile: &str) -> Vec<(String, String)> {
    let i = m.find_profile(profile).unwrap();
    let mut v = m.profiles[i].monitor_wallpapers.clone();
    v.sort();
    v
}

#[test]
fn assign_to_unknown_device_fails_and_changes_nothing() {
    let mut m = manager_with(&["MON_A"]);
    assert!(m.create_profile("work"));
    assert!(m.set_wallpaper_in_profile("work", "MON_A", "a.png", true));
    let before = assignments(&m, "work");
    assert!(!m.set_wallpaper_in_profile("work", "MON_B", "b.png", true));
    assert!(!m.set_wallpaper_in_profile("work", "", "b.png", true));
    assert_eq!(assignments(&m, "work"), before);
}

#[test]
fn create_profile_twice_keeps_first() {
    let mut m = manager_with(&["MON_A"]);
    assert!(m.create_profile("home"));
    assert!(m.set_wallpaper_in_profile("home", "MON_A", "x.jpg", true));
    let after_first = assignments(&m, "home");
    assert!(!m.create_profile("home"));
    assert_eq!(assignments(&m, "home"), after_first);
    assert_eq!(m.list_profiles(), vec!["home".to_string()]);
}

#[test]
fn extension_check_is_case_insensitive() {
    let mut m = manager_with(&["MON_A"]);
    assert!(m.create_profile("p"));
    assert!(!m.set_wallpaper_in_profile("p", "MON_A", "photo.webp", true));
    assert!(m.set_wallpaper_in_profile("p", "MON_A", "photo.PNG", true));
    assert!(m.set_wallpaper_in_profile("p", "MON_A", "dir/photo.JpEg", true));
    assert!(!m.set_wallpaper_in_profile("p", "MON_A", "noextension", true));
    assert!(!m.set_wallpaper_in_profile_with_extension("p", "MON_A", "noextension", true, None));
    assert_eq!(assignments(&m, "p"), vec![("MON_A".to_string(), "dir/photo.JpEg".to_string())]);
}

#[test]
fn supported_extensions() {
    for e in ["jpg", "jpeg", "png", "bmp", "gif", "tiff"] {
        assert!(is_supported_extension(e));
    }
    assert!(!is_supported_extension("PNG"));
    assert!(!is_supported_extension("webp"));
    assert!(!is_supported_extension(""));
}

#[test]
fn assign_failures() {
    let mut m = manager_with(&["MON_A"]);
    assert!(!m.set_wallpaper_in_profile("missing", "MON_A", "a.png", true));
    assert!(m.create_profile("p"));
    assert!(!m.set_wallpaper_in_profile("p", "MON_A", "a.png", false));
    assert!(m.set_wallpaper_in_profile_with_extension("p", "MON_A", "a", true, Some("gif".to_string())));
    assert!(!m.set_wallpaper_in_profile_with_extension("p", "MON_A", "a", true, Some("GIF".to_string())));
}

#[test]
fn assign_overwrites_device() {
    let mut m = manager_with(&["MON_A", "MON_B"]);
    assert!(m.create_profile("p"));
    assert!(m.set_wallpaper_in_profile("p", "MON_A", "1.png", true));
    assert!(m.set_wallpaper_in_profile("p", "MON_B", "2.png", true));
    assert!(m.set_wallpaper_in_profile("p", "MON_A", "3.png", true));
    assert_eq!(
        assignments(&m, "p"),
        vec![("MON_A".to_string(), "3.png".to_string()), ("MON_B".to_string(), "2.png".to_string())]
    );
}

#[test]
fn add_schedule_checks() {
    let mut m = WallpaperManager::new();
    assert!(!m.add_schedule("p", 8, 0));
    assert!(m.create_profile("p"));
    assert!(!m.add_schedule("p", 24, 0));
    assert!(!m.add_schedule("p", 0, 60));
    assert!(m.add_schedule("p", 23, 59));
    assert!(m.add_schedule("p", 7, 5));
    assert_eq!(m.schedule.len(), 2);
    assert_eq!(m.schedule[0].hour, 23);
    assert!(m.schedule[1].enabled);
    assert_eq!(
        m.list_schedule(),
        vec!["1. p at 23:59 (enabled)".to_string(), "2. p at 07:05 (enabled)".to_string()]
    );
}

#[test]
fn scheduler_start_twice_and_stop_unstarted() {
    let mut m = WallpaperManager::new();
    assert!(!m.stop_scheduler());
    assert!(!m.scheduler_running);
    assert!(m.create_profile("p"));
    assert!(m.add_schedule("p", 1, 2));
    let first = m.start_scheduler();
    assert!(m.scheduler_running);
    let snapshot = first.unwrap();
    assert_eq!(snapshot.len(), 1);
    assert_eq!(snapshot[0].profile_name, "p");
    assert!(m.start_scheduler().is_none());
    assert!(m.scheduler_running);
    assert!(m.stop_scheduler());
    assert!(!m.scheduler_running);
    assert!(!m.stop_scheduler());
}

#[test]
fn position_names() {
    assert_eq!(DesktopWallpaperPosition::Center.to_string(), "Center");
    assert_eq!(DesktopWallpaperPosition::Tile.to_string(), "Tile");
    assert_eq!(DesktopWallpaperPosition::Stretch.to_string(), "Stretch");
    assert_eq!(DesktopWallpaperPosition::Fit.to_string(), "Fit");
    assert_eq!(DesktopWallpaperPosition::Fill.to_string(), "Fill");
    assert_eq!(DesktopWallpaperPosition::Span.to_string(), "Span");
    assert_eq!(DesktopWallpaperPosition::Span.value(), 5);
    assert_eq!(DesktopWallpaperPosition::Center.value(), 0);
}
