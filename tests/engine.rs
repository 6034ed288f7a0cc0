use wallpaper_manager::engine::{correlated_monitor, resolve_engine_monitors, SetRun};
use wallpaper_manager::model::{MonitorInfo, Rect};
use wallpaper_manager::store::WallpaperManager;

fn monitor(name: &str, handle: usize) -> MonitorInfo {
    MonitorInfo {
        handle,
        rect: Rect { left: 0, top: 0, right: 100, bottom: 50 },
        device_name: name.to_string(),
        is_primary: handle == 0,
    }
}

#[test]
fn resolver_correlates_by_device_suffix() {
    let known = vec![monitor("\\\\.\\DISPLAY1", 0)];
    let ids = vec!["\\\\?\\DISPLAY#DISPLAY1#4&1234".to_string(), "\\\\?\\OTHER#X".to_string()];
    let r = resolve_engine_monitors(&known, &ids);
    assert_eq!(r.len(), 2);
    assert_eq!(r[0], ("\\\\.\\DISPLAY1".to_string(), ids[0].clone()));
    assert_eq!(r[1], ("Monitor 2".to_string(), ids[1].clone()));
}

#[test]
fn resolver_falls_back_to_numbered_name() {
    let known = vec![monitor("\\\\.\\DISPLAY1", 0)];
    let ids = vec!["ENGINE-ID-7".to_string()];
    let r = resolve_engine_monitors(&known, &ids);
    assert_eq!(r[0].0, "Monitor 1");
    assert_eq!(r[0].1, "ENGINE-ID-7");
    let none: Vec<MonitorInfo> = Vec::new();
    let many: Vec<String> = (0..12).map(|i| format!("id{}", i)).collect();
    let r = resolve_engine_monitors(&none, &many);
    assert_eq!(r[11].0, "Monitor 12");
}

#[test]
fn resolver_first_match_wins() {
    let known = vec![monitor("\\\\.\\DISPLAY1", 0), monitor("\\\\.\\DISPLAY", 1), monitor("DISPLAY1", 2)];
    let ids = vec!["x-DISPLAY1-y".to_string()];
    assert_eq!(resolve_engine_monitors(&known, &ids)[0].0, "\\\\.\\DISPLAY1");
    assert_eq!(correlated_monitor(&known, "x-DISPLAY-y"), Some(1));
    assert_eq!(correlated_monitor(&known, "nothing"), None);
}

#[test]
fn set_run_targets_in_order() {
    let ids = vec![Some("first".to_string()), Some("abc-DEV-xyz".to_string()), Some("other".to_string()), Some("DEV".to_string())];
    let run = SetRun::new(&ids, "DEV");
    assert_eq!(
        run.targets,
        vec!["first".to_string(), "abc-DEV-xyz".to_string(), "DEV".to_string(), "DEV".to_string()]
    );
    let unreported_first = vec![None, Some("other".to_string()), Some("xDEVx".to_string())];
    assert_eq!(SetRun::new(&unreported_first, "DEV").targets, vec!["xDEVx".to_string(), "DEV".to_string()]);
    let empty: Vec<Option<String>> = Vec::new();
    assert_eq!(SetRun::new(&empty, "DEV").targets, vec!["DEV".to_string()]);
}

#[test]
fn set_run_stops_at_first_success() {
    let ids = vec![Some("a".to_string()), Some("b".to_string())];
    let mut run = SetRun::new(&ids, "ab");
    let mut tried = Vec::new();
    let answers = [false, true, true];
    let mut k = 0;
    while let Some(t) = run.next_target() {
        tried.push(t);
        run.record(answers[k]);
        k += 1;
    }
    assert_eq!(tried, vec!["a".to_string(), "b".to_string()]);
    assert!(run.succeeded);
}

#[test]
fn set_run_fails_when_all_fail() {
    let ids = vec![Some("a".to_string())];
    let mut run = SetRun::new(&ids, "zz");
    let mut n = 0;
    while let Some(_) = run.next_target() {
        run.record(false);
        n += 1;
    }
    assert_eq!(n, 2);
    assert!(!run.succeeded);
}

#[test]
fn apply_tries_every_assignment() {
    let mut m = WallpaperManager::new();
    for i in 0..4 {
        m.monitors.push(monitor(&format!("M{}", i), i));
    }
    assert!(m.create_profile("p"));
    for i in 0..4 {
        assert!(m.set_wallpaper_in_profile("p", &format!("M{}", i), &format!("{}.png", i), true));
    }
    let mut run = m.apply_profile("p").unwrap();
    let mut calls = 0;
    while let Some(_) = run.next_assignment() {
        calls += 1;
        run.record(calls > 2);
    }
    assert_eq!(calls, 4);
    assert!(!run.succeeded());

    let mut run = m.apply_profile("p").unwrap();
    while let Some(_) = run.next_assignment() {
        run.record(true);
    }
    assert!(run.succeeded());
    assert!(m.apply_profile("missing").is_none());
}

#[test]
fn refresh_renames_correlated_monitors() {
    let mut m = WallpaperManager::new();
    let found = vec![monitor("\\\\.\\DISPLAY1", 10), monitor("\\\\.\\DISPLAY2", 11), monitor("\\\\.\\DISPLAY3", 12)];
    let ids = vec!["ENG#DISPLAY2#0".to_string(), "ENG#HDMI7#0".to_string()];
    m.refresh_monitors(found, &ids);
    assert_eq!(m.monitors.len(), 3);
    assert_eq!(m.monitors[0].device_name, "\\\\.\\DISPLAY1");
    assert_eq!(m.monitors[1].device_name, "ENG#DISPLAY2#0");
    assert_eq!(m.monitors[1].handle, 11);
    assert_eq!(m.monitors[2].device_name, "\\\\.\\DISPLAY3");
    assert!(m.has_device("ENG#DISPLAY2#0"));
    assert!(!m.has_device("ENG#HDMI7#0"));
    assert!(!m.has_device("\\\\.\\DISPLAY2"));
}

#[test]
fn refresh_keeps_unmatched_os_path() {
    let mut m = WallpaperManager::new();
    let ids = vec!["ENG#HDMI7#0".to_string()];
    m.refresh_monitors(vec![monitor("\\\\.\\DISPLAY1", 0)], &ids);
    assert_eq!(m.monitors[0].device_name, "\\\\.\\DISPLAY1");
}
