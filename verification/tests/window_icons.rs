use std::collections::HashMap;
use volume_controller::audio::audio_system::AppInfo;
use volume_controller::window_icons::{
    class_names, clean_title, enrich, icon_to_png, match_window, normalize, parse_largest_icon,
    pick_window, read_window, wanted_icons, WindowRef,
};

fn win(pid: Option<u32>, classes: &[&str], name: Option<&str>) -> WindowRef {
    WindowRef {
        window: 0,
        pid,
        classes: classes.iter().map(|c| normalize(c)).collect(),
        name: name.map(normalize),
        title: name.map(|s| s.to_string()),
    }
}

#[test]
fn normalize_strips_exe_and_lowercases() {
    assert_eq!(normalize("StarCitizen.exe"), "starcitizen");
    assert_eq!(normalize("  Star Citizen "), "star citizen");
}

#[test]
fn clean_title_strips_runtime_decorations() {
    assert_eq!(
        clean_title("Baldur's Gate 3 (3840x2160) - (Vulkan) - (6 + 6 WT)"),
        "Baldur's Gate 3"
    );
    assert_eq!(clean_title("Star Citizen "), "Star Citizen");
    assert_eq!(clean_title("Steam"), "Steam");
}

#[test]
fn pid_match_wins_over_name() {
    let windows = vec![
        win(Some(2393666), &["starcitizen.exe"], Some("Star Citizen")),
        win(Some(999), &["other"], Some("other")),
    ];
    let pick = pick_window(&windows, &[Some(2393666), None], &["other".into()]);
    assert_eq!(pick.unwrap().pid, Some(2393666));
}

#[test]
fn class_match_bridges_cef_pid_mismatch() {
    // Audio PID (utility process) doesn't match the window PID; class does.
    let windows = vec![win(Some(2565940), &["steamwebhelper", "steam"], Some("Steam"))];
    let pick = pick_window(&windows, &[Some(2569877), None], &["steamwebhelper".into()]);
    assert!(pick.is_some());
}

#[test]
fn no_match_returns_none() {
    let windows = vec![win(Some(1), &["foo"], Some("foo"))];
    assert!(pick_window(&windows, &[Some(2), None], &["bar".into()]).is_none());
}

#[test]
fn parses_largest_of_two_icons() {
    // Two images: 1x1 then 2x2. Pixels are 0xAARRGGBB.
    let data: Vec<u32> = vec![
        1, 1, 0xFF112233, // 1x1
        2, 2, 0xFFAABBCC, 0xFF445566, 0xFF778899, 0xFF000000, // 2x2
    ];
    let (w, h, rgba) = parse_largest_icon(&data).unwrap();
    assert_eq!((w, h), (2, 2));
    assert_eq!(rgba.len(), 2 * 2 * 4);
    // First pixel 0xFFAABBCC -> R=AA, G=BB, B=CC, A=FF
    assert_eq!(&rgba[0..4], &[0xAA, 0xBB, 0xCC, 0xFF]);
}

#[test]
fn rejects_truncated_icon_data() {
    // Claims 4x4 but doesn't provide the pixels.
    let data: Vec<u32> = vec![4, 4, 0xFFFFFFFF];
    assert!(parse_largest_icon(&data).is_none());
}

#[test]
fn first_of_equally_large_icons_is_taken() {
    let data = [1, 2, 1, 2, 2, 1, 3, 4, 0, 5, 6];
    let (w, h, rgba) = parse_largest_icon(&data).unwrap();
    assert_eq!((w, h), (1, 2));
    assert_eq!(rgba, vec![0, 0, 1, 0, 0, 0, 2, 0]);
    assert!(parse_largest_icon(&[]).is_none());
    assert!(parse_largest_icon(&[7]).is_none());
    assert!(parse_largest_icon(&[u32::MAX, u32::MAX, 0]).is_none());
}

#[test]
fn suffix_is_dropped_once_and_names_may_be_blank() {
    assert_eq!(normalize("a.exe.exe"), "a.exe");
    assert_eq!(normalize("Game .EXE"), "game");
    assert_eq!(normalize(".exe"), "");
    assert_eq!(normalize("ÄPP"), "äpp");
    assert_eq!(clean_title(" (x)"), "(x)");
    assert_eq!(clean_title("a - b (c)"), "a");
    assert_eq!(clean_title("é (x"), "é");
}

#[test]
fn class_goes_before_name() {
    let windows = vec![
        win(Some(1), &["x"], Some("steam")),
        win(Some(2), &["steam"], Some("y")),
    ];
    let pick = pick_window(&windows, &[None, None], &["steam".into()]);
    assert_eq!(pick.unwrap().pid, Some(2));
    let pick = pick_window(&windows[..1], &[None], &["steam".into()]);
    assert_eq!(pick.unwrap().pid, Some(1));
    let unowned = vec![win(None, &[], None)];
    assert!(pick_window(&unowned, &[None], &[]).is_none());
}

#[test]
fn window_classes_are_split_and_told_apart() {
    assert_eq!(class_names(b"Steam\0steam.exe\0\0 \0Web\xff\0"), vec!["steam", "web\u{fffd}"]);
    assert!(class_names(b"").is_empty());
    let w = read_window(5, Some(6), Some(b"a\0B".to_vec()), Some(b" Title.exe ".to_vec()));
    assert_eq!((w.window, w.pid), (5, Some(6)));
    assert_eq!(w.classes, vec!["a", "b"]);
    assert_eq!(w.title.as_deref(), Some("Title.exe"));
    assert_eq!(w.name.as_deref(), Some("title"));
    let blank = read_window(5, None, None, Some(b"  ".to_vec()));
    assert_eq!((blank.title, blank.name), (None, None));
}

fn playing(pid: Option<u32>, name: &str) -> AppInfo {
    AppInfo {
        uid: 1,
        member_uids: vec![1],
        app_name: name.to_string(),
        app_id: name.to_string(),
        icon_search_name: name.to_lowercase(),
        pid,
        sink_name: None,
        mute: false,
        vol_percent: 0,
        icon_name: None,
        is_device: false,
        is_browser: false,
        is_multi_sink_app: false,
        client_pid: None,
        client_name: None,
        client_binary: None,
        wm_class: None,
        window_icon: None,
        kick_art: None,
        kick_pending: false,
    }
}

#[test]
fn streams_take_class_icon_and_name_of_their_window() {
    let mut window = win(Some(9), &["bg3.exe"], Some("Baldur's Gate 3 (3840x2160) - (Vulkan)"));
    window.window = 77;
    let windows = vec![window];
    let mut device = playing(Some(9), "Speakers");
    device.is_device = true;
    let mut by_client = playing(None, "x");
    by_client.client_binary = Some("BG3.exe".to_string());
    let mut apps = vec![playing(Some(9), "Wwise"), device, playing(Some(8), "other"), by_client];
    assert_eq!(wanted_icons(&apps, &windows), vec![77, 77]);
    assert!(match_window(&apps[1], &windows).is_none());

    let icons = HashMap::from([(77u32, vec![1u32, 2, 0xff010203, 0x80040506])]);
    enrich(&mut apps, &windows, &icons);
    assert_eq!(apps[0].app_name, "Baldur's Gate 3");
    assert_eq!(apps[0].wm_class.as_deref(), Some("bg3"));
    let icon = apps[0].window_icon.as_ref().unwrap();
    assert_eq!(icon.max_dim, 2);
    let png = image::load_from_memory(&icon.png).unwrap().to_rgba8();
    assert_eq!((png.width(), png.height()), (1, 2));
    assert_eq!(png.into_raw(), vec![1, 2, 3, 255, 4, 5, 6, 0x80]);
    assert_eq!(apps[1].app_name, "Speakers");
    assert!(apps[1].window_icon.is_none() && apps[2].wm_class.is_none());
    assert_eq!(apps[3].app_name, "Baldur's Gate 3");

    // Without the property there is no icon.
    let mut apps = vec![playing(Some(9), "Wwise")];
    enrich(&mut apps, &windows, &HashMap::new());
    assert!(apps[0].window_icon.is_none());
    assert!(icon_to_png(&[0, 0]).is_none());
}

#[test]
fn browser_streams_keep_their_tabs() {
    let windows = vec![win(Some(9), &["firefox"], Some("Something else - Mozilla Firefox"))];
    let mut tab = playing(Some(9), "A Video");
    tab.is_browser = true;
    let mut known = playing(Some(9), "A Video");
    known.is_browser = true;
    known.client_binary = Some("Firefox-bin".to_string());
    let mut apps = vec![tab, known];
    assert!(wanted_icons(&apps, &windows).is_empty());
    enrich(&mut apps, &windows, &HashMap::new());
    for app in &apps {
        assert!(match_window(app, &windows).is_none());
        assert_eq!(app.app_name, "A Video");
        assert_eq!(app.wm_class, None);
        assert!(app.window_icon.is_none());
    }
}

#[test]
fn programs_with_a_browser_engine_take_the_name_of_their_window() {
    let windows = vec![win(Some(9), &["steamwebhelper", "steam"], Some("Steam"))];
    let mut app = playing(Some(8), "Chromium");
    app.is_browser = true;
    app.client_binary = Some("steamwebhelper".to_string());
    let mut apps = vec![app];
    enrich(&mut apps, &windows, &HashMap::new());
    assert_eq!(apps[0].app_name, "Steam");
    assert_eq!(apps[0].wm_class.as_deref(), Some("steamwebhelper"));
}
