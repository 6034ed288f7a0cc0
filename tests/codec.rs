use wallpaper_manager::codec::{parse_schedule_line, split_commas};
use wallpaper_manager::model::{MonitorInfo, Rect};
use wallpaper_manager::scheduler::{due_profiles, poll_schedule, wait_after_poll, DEBOUNCE_SECS, POLL_SECS};
use wallpaper_manager::store::WallpaperManager;
use wallpaper_manager::text::{parse_i32, parse_u32, str_contains, strip_prefix};

fn lines(v: &[&str]) -> Vec<String> {
    v.iter().map(|s| s.to_string()).collect()
}

fn sorted(m: &WallpaperManager) -> Vec<(String, Vec<(String, String)>)> {
    let mut v: Vec<(String, Vec<(String, String)>)> = m
        .profiles
        .iter()
        .map(|p| {
            let mut a = p.monitor_wallpapers.clone();
            a.sort();
            (p.name.clone(), a)
        })
        .collect();
    v.sort();
    v
}

fn store() -> WallpaperManager {
    let mut m = WallpaperManager::new();
    for n in ["MON_A", "MON_B"] {
        m.monitors.push(MonitorInfo {
            handle: 0,
            rect: Rect { left: 0, top: 0, right: 1, bottom: 1 },
            device_name: n.to_string(),
            is_primary: false,
        });
    }
    assert!(m.create_profile("work"));
    assert!(m.create_profile("home"));
    assert!(m.create_profile("empty"));
    assert!(m.set_wallpaper_in_profile("work", "MON_A", "C:\\w\\a=b.png", true));
    assert!(m.set_wallpaper_in_profile("work", "MON_B", "C:\\w\\b.jpg", true));
    assert!(m.set_wallpaper_in_profile("home", "MON_A", "h.bmp", true));
    assert!(m.add_schedule("work", 9, 0));
    assert!(m.add_schedule("home", 18, 30));
    m.schedule[1].enabled = false;
    m
}

#[test]
fn save_format() {
    let m = store();
    let out = m.save_config();
    assert_eq!(
        out,
        lines(&[
            "[PROFILES]",
            "PROFILE:work",
            "  MON_A=C:\\w\\a=b.png",
            "  MON_B=C:\\w\\b.jpg",
            "PROFILE:home",
            "  MON_A=h.bmp",
            "PROFILE:empty",
            "[SCHEDULE]",
            "work,9,0,1",
            "home,18,30,0",
        ])
    );
}

#[test]
fn save_then_load_round_trip() {
    let m = store();
    let saved = m.save_config();
    let mut fresh = WallpaperManager::new();
    fresh.load_config(&saved);
    assert_eq!(sorted(&fresh), sorted(&m));
    assert_eq!(fresh.schedule.len(), 2);
    for i in 0..2 {
        assert_eq!(fresh.schedule[i].profile_name, m.schedule[i].profile_name);
        assert_eq!(fresh.schedule[i].hour, m.schedule[i].hour);
        assert_eq!(fresh.schedule[i].minute, m.schedule[i].minute);
        assert_eq!(fresh.schedule[i].enabled, m.schedule[i].enabled);
    }
}

#[test]
fn load_replaces_and_skips_malformed() {
    let mut m = store();
    m.load_config(&lines(&[
        "",
        "  orphan=x.png",
        "[PROFILES]",
        "PROFILE:a",
        "  D1=x1",
        "  noequals",
        "   D2 = x2",
        "junk",
        "[SCHEDULE]",
        "a,7,15,1",
        "a,7,15",
        "a,x,15,1",
        "a,+8,0,-0",
        "b,1,2,3,4",
        "c,25,61,99999999999",
        "d,4294967295,0,+1",
        "e,4294967296,0,1",
        "[OTHER]",
        "z,1,1,1",
    ]));
    assert_eq!(
        sorted(&m),
        vec![(
            "a".to_string(),
            vec![(" D2 ".to_string(), " x2".to_string()), ("D1".to_string(), "x1".to_string())]
        )]
    );
    let got: Vec<(String, u32, u32, bool)> =
        m.schedule.iter().map(|e| (e.profile_name.clone(), e.hour, e.minute, e.enabled)).collect();
    assert_eq!(
        got,
        vec![
            ("a".to_string(), 7, 15, true),
            ("a".to_string(), 8, 0, false),
            ("d".to_string(), 4294967295, 0, true),
        ]
    );
    assert_eq!(m.monitors.len(), 2);
}

#[test]
fn profile_header_resets_existing_profile() {
    let mut m = WallpaperManager::new();
    m.load_config(&lines(&["[PROFILES]", "PROFILE:a", "  D=1", "PROFILE:a", "  E=2"]));
    assert_eq!(sorted(&m), vec![("a".to_string(), vec![("E".to_string(), "2".to_string())])]);
}

#[test]
fn empty_profile_name_drops_its_assignments() {
    let mut m = WallpaperManager::new();
    m.load_config(&lines(&["[PROFILES]", "PROFILE:", "  D=1"]));
    assert_eq!(sorted(&m), vec![("".to_string(), vec![])]);
}

#[test]
fn split_and_parse() {
    assert_eq!(split_commas("a,,b"), lines(&["a", "", "b"]));
    assert_eq!(split_commas(""), lines(&[""]));
    assert_eq!(parse_u32("42"), Some(42));
    assert_eq!(parse_u32("+7"), Some(7));
    assert_eq!(parse_u32("-0"), None);
    assert_eq!(parse_u32("+"), None);
    assert_eq!(parse_u32(""), None);
    assert_eq!(parse_u32("4294967296"), None);
    assert_eq!(parse_u32(" 1"), None);
    assert_eq!(parse_i32("-2147483648"), Some(i32::MIN));
    assert_eq!(parse_i32("2147483647"), Some(i32::MAX));
    assert_eq!(parse_i32("2147483648"), None);
    assert_eq!(parse_i32("-"), None);
    assert_eq!(parse_i32("007"), Some(7));
    let e = parse_schedule_line("x,1,2,1").unwrap();
    assert_eq!((e.profile_name.as_str(), e.hour, e.minute, e.enabled), ("x", 1, 2, true));
    assert!(parse_schedule_line("x,1,2").is_none());
}

#[test]
fn text_helpers() {
    assert!(str_contains("abcdef", "cde"));
    assert!(str_contains("abc", ""));
    assert!(!str_contains("abc", "abcd"));
    assert_eq!(strip_prefix("\\\\.\\DISPLAY3", "\\\\.\\"), Some("DISPLAY3".to_string()));
    assert_eq!(strip_prefix("DISPLAY3", "\\\\.\\"), None);
}

#[test]
fn due_entries_match_enabled_time() {
    let mut m = WallpaperManager::new();
    assert!(m.create_profile("a"));
    assert!(m.create_profile("b"));
    assert!(m.add_schedule("a", 8, 30));
    assert!(m.add_schedule("b", 8, 30));
    assert!(m.add_schedule("a", 9, 30));
    m.schedule[1].enabled = false;
    assert_eq!(due_profiles(&m.schedule, 8, 30), vec!["a".to_string()]);
    assert_eq!(due_profiles(&m.schedule, 9, 30), vec!["a".to_string()]);
    assert!(due_profiles(&m.schedule, 10, 0).is_empty());
    let (h, mi, _) = poll_schedule(&m.schedule);
    assert!(h < 24 && mi < 60);
}

#[test]
fn wait_after_poll_debounces_only_after_firing() {
    assert_eq!(wait_after_poll(0), 30);
    assert_eq!(wait_after_poll(1), 60);
    assert_eq!(wait_after_poll(3), DEBOUNCE_SECS);
    assert_eq!(POLL_SECS, 30);
}
