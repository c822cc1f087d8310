use std::collections::{HashMap, HashSet};
use volume_controller::audio::audio_system::AppInfo;
use volume_controller::audio::collapse::{collapse_indistinct, sort_uids};
use volume_controller::audio::pulse::{
    classify_node, device_app, get_display_name, get_icon_search_name, is_browser_node,
    list_applications, stream_app, total_level, ClientProps, DeviceProps, StreamProps,
};
use volume_controller::audio::pulse_monitor::{
    calls_for_refresh, connection_step, select_restored_browser_unmutes, Change, ConnectionState,
    ConnectionStep, Facility,
};

fn app(uid: u32, pid: Option<u32>, name: &str, vol: f32, mute: bool) -> AppInfo {
    AppInfo {
        uid,
        member_uids: vec![uid],
        app_name: name.to_string(),
        app_id: name.to_string(),
        icon_search_name: name.to_lowercase(),
        pid,
        sink_name: None,
        mute,
        vol_percent: vol.to_bits(),
        icon_name: None,
        is_device: false,
        is_browser: false,
        is_multi_sink_app: false,
        client_pid: None,
        client_name: None,
        client_binary: None,
        wm_class: None,
        window_icon: None,
        kick_art: None,
        kick_pending: false,
    }
}

#[test]
fn collapses_same_pid_same_name_streams() {
    // A game (one PID) opening three indistinct streams + a separate browser.
    let out = collapse_indistinct(vec![
        app(101, Some(3651136), "Gothic 1 Remake", 76.0, false),
        app(102, Some(3651136), "Gothic 1 Remake", 46.0, false),
        app(103, Some(3651136), "Gothic 1 Remake", 78.0, false),
        app(200, Some(1577), "MidnightSumo - Twitch", 50.0, false),
    ]);

    assert_eq!(out.len(), 2, "Gothic's 3 streams collapse to 1, Firefox stays");
    let gothic = out.iter().find(|a| a.app_name == "Gothic 1 Remake").unwrap();
    assert_eq!(gothic.member_uids, vec![101, 102, 103], "controls all 3 streams");
    assert_eq!(gothic.uid, 101, "stable identity = lowest uid");
    assert_eq!(f32::from_bits(gothic.vol_percent), 78.0, "reports the loudest member");
}

#[test]
fn mute_only_when_all_members_muted() {
    let all_muted = collapse_indistinct(vec![
        app(1, Some(9), "Game", 50.0, true),
        app(2, Some(9), "Game", 50.0, true),
    ]);
    assert!(all_muted[0].mute, "muted when every member is muted");

    let partial = collapse_indistinct(vec![
        app(1, Some(9), "Game", 50.0, true),
        app(2, Some(9), "Game", 50.0, false),
    ]);
    assert!(!partial[0].mute, "unmuted when any member is unmuted");
}

#[test]
fn keeps_distinct_and_pidless_streams_separate() {
    // Two browser tabs (same PID, different titles) must stay separate,
    // and a stream without a PID is never grouped.
    let out = collapse_indistinct(vec![
        app(1, Some(50), "YouTube — song A", 50.0, false),
        app(2, Some(50), "Twitch — stream B", 50.0, false),
        app(3, None, "Some App", 50.0, false),
        app(4, None, "Some App", 50.0, false),
    ]);
    assert_eq!(out.len(), 4, "distinct tabs and pid-less streams are untouched");
    assert!(out.iter().all(|a| a.member_uids.len() == 1));
}

#[test]
fn collapsed_group_takes_the_place_of_its_first_stream() {
    let out = collapse_indistinct(vec![
        app(30, Some(1), "GAME", 10.0, false),
        app(7, Some(2), "Player", 20.0, false),
        app(12, Some(1), "game", 5.0, false),
        app(21, Some(1), "Game", 0.0, false),
    ]);
    let names: Vec<&str> = out.iter().map(|a| a.app_name.as_str()).collect();
    assert_eq!(names, vec!["GAME", "Player"]);
    assert_eq!(out[0].uid, 12);
    assert_eq!(out[0].member_uids, vec![12, 21, 30]);
    assert_eq!(f32::from_bits(out[0].vol_percent), 10.0);
}

#[test]
fn collapsed_streams_are_controlled_once_and_stay_collapsed() {
    let streams = vec![
        app(30, Some(1), "GAME", 10.0, false),
        app(7, None, "Player", 20.0, false),
        app(12, Some(1), "game", 5.0, true),
        app(8, None, "Player", 30.0, false),
    ];
    let once = collapse_indistinct(streams);
    let mut controlled: Vec<u32> = once.iter().flat_map(|a| a.member_uids.clone()).collect();
    controlled.sort();
    assert_eq!(controlled, vec![7, 8, 12, 30]);
    let twice = collapse_indistinct(once.iter().map(AppInfo::duplicate).collect());
    assert_eq!(format!("{twice:?}"), format!("{once:?}"));
}

#[test]
fn uids_are_sorted_with_repetitions() {
    assert_eq!(sort_uids(&vec![5, 1, 4, 1, 0]), vec![0, 1, 1, 4, 5]);
    assert_eq!(sort_uids(&vec![]), Vec::<u32>::new());
}

fn stream(uid: u32, is_browser: bool, mute: bool) -> AppInfo {
    AppInfo {
        uid,
        member_uids: vec![uid],
        app_name: "stream".to_string(),
        app_id: "stream".to_string(),
        icon_search_name: "stream".to_string(),
        pid: None,
        sink_name: None,
        mute,
        vol_percent: 100.0f32.to_bits(),
        icon_name: None,
        is_device: false,
        is_browser,
        is_multi_sink_app: false,
        client_pid: None,
        client_name: None,
        client_binary: None,
        wm_class: None,
        window_icon: None,
        kick_art: None,
        kick_pending: false,
    }
}

#[test]
fn unmutes_new_muted_browser_stream() {
    // A tab we've never seen, muted only because module-stream-restore replayed
    // the per-app mute, gets unmuted.
    let mut seen = HashSet::new();
    let mut apps = vec![stream(7, true, true)];

    let unmute = select_restored_browser_unmutes(&mut apps, &mut seen);

    assert_eq!(unmute, vec![7]);
    assert!(!apps[0].mute, "the new tab is reported as unmuted");
    assert!(seen.contains(&7), "the handled tab is now seen");
}

#[test]
fn leaves_already_seen_muted_browser_stream_alone() {
    // The tab the user actively muted (already seen) must stay muted.
    let mut seen = HashSet::from([7]);
    let mut apps = vec![stream(7, true, true)];

    let unmute = select_restored_browser_unmutes(&mut apps, &mut seen);

    assert!(unmute.is_empty());
    assert!(apps[0].mute, "the deliberately muted tab stays muted");
}

#[test]
fn ignores_non_browser_and_device_streams() {
    // A muted non-browser app (e.g. a game) and a muted device are never touched:
    // only browsers suffer the shared-restore-key inheritance.
    let mut seen = HashSet::new();
    let mut device = stream(2, false, true);
    device.is_device = true;
    let mut apps = vec![stream(1, false, true), device];

    let unmute = select_restored_browser_unmutes(&mut apps, &mut seen);

    assert!(unmute.is_empty());
    assert!(apps[0].mute && apps[1].mute, "neither is unmuted");
}

#[test]
fn new_then_seen_across_refreshes() {
    // First refresh: a new muted tab is unmuted. Second refresh with the same
    // (now unmuted) tab leaves it alone, and a user-mute that lands after is kept.
    let mut seen = HashSet::new();

    let mut first = vec![stream(7, true, true)];
    assert_eq!(select_restored_browser_unmutes(&mut first, &mut seen), vec![7]);

    // Same tab returns, now muted by the user via the Stream Deck.
    let mut second = vec![stream(7, true, true)];
    let unmute = select_restored_browser_unmutes(&mut second, &mut seen);
    assert!(unmute.is_empty());
    assert!(second[0].mute, "a seen tab the user muted is preserved");
}

#[test]
fn closed_tab_drops_from_seen_so_reused_uid_counts_as_new() {
    // uid 7 seen, then the tab closes (absent from the next refresh). When uid 7
    // is later reused by a brand-new muted tab, it must be treated as new again.
    let mut seen = HashSet::new();
    let mut present = vec![stream(7, true, false)];
    select_restored_browser_unmutes(&mut present, &mut seen);
    assert!(seen.contains(&7));

    // Refresh with no streams: uid 7 drops out of the seen-set.
    let mut empty: Vec<AppInfo> = vec![];
    select_restored_browser_unmutes(&mut empty, &mut seen);
    assert!(!seen.contains(&7));

    // uid 7 reused by a new muted tab: unmuted.
    let mut reused = vec![stream(7, true, true)];
    assert_eq!(select_restored_browser_unmutes(&mut reused, &mut seen), vec![7]);
}

#[test]
fn one_seen_member_keeps_a_collapsed_tab_muted() {
    let mut seen = HashSet::from([3]);
    let mut group = stream(2, true, true);
    group.member_uids = vec![2, 3];
    let mut apps = vec![group];
    assert!(select_restored_browser_unmutes(&mut apps, &mut seen).is_empty());
    assert!(apps[0].mute);
    assert_eq!(seen, HashSet::from([2, 3]));
}

#[test]
fn events_that_call_for_a_refresh() {
    assert!(calls_for_refresh(Some(Facility::SinkInput), Some(Change::New)));
    assert!(calls_for_refresh(Some(Facility::SinkInput), Some(Change::Removed)));
    assert!(calls_for_refresh(Some(Facility::SinkInput), Some(Change::Changed)));
    assert!(calls_for_refresh(Some(Facility::Sink), Some(Change::Changed)));
    assert!(!calls_for_refresh(Some(Facility::Sink), Some(Change::New)));
    assert!(!calls_for_refresh(Some(Facility::Other), Some(Change::Changed)));
    assert!(!calls_for_refresh(None, Some(Change::Changed)));
    assert!(!calls_for_refresh(Some(Facility::SinkInput), None));
}

#[test]
fn connection_is_waited_for_until_it_is_decided() {
    assert_eq!(connection_step(ConnectionState::Pending), ConnectionStep::Wait);
    assert_eq!(connection_step(ConnectionState::Ready), ConnectionStep::Subscribe);
    assert_eq!(connection_step(ConnectionState::Failed), ConnectionStep::GiveUp);
    assert_eq!(connection_step(ConnectionState::Terminated), ConnectionStep::GiveUp);
}

fn props(index: u32) -> StreamProps {
    StreamProps {
        index,
        client: None,
        name: None,
        node_name: None,
        media_name: None,
        application_name: None,
        process_binary: None,
        process_id: None,
        icon_name: None,
        mute: false,
        vol_percent: 0,
    }
}

fn text(s: &str) -> Option<String> {
    Some(s.to_string())
}

#[test]
fn browsers_are_known_by_their_node_name() {
    assert!(is_browser_node("Firefox"));
    assert!(is_browser_node("org.CHROMIUM.Chromium"));
    assert!(!is_browser_node("spotify"));
    let mut s = props(1);
    assert_eq!(classify_node(&s), (None, true));
    s.node_name = text("Spotify");
    assert_eq!(classify_node(&s), (text("Spotify"), false));
}

#[test]
fn names_fall_back_from_property_to_property() {
    let mut s = props(1);
    assert_eq!(get_display_name(&s), "app_stream");
    assert_eq!(get_icon_search_name(&s), "app_stream");
    s.name = text("Sink Input");
    assert_eq!(get_display_name(&s), "Sink Input");
    assert_eq!(get_icon_search_name(&s), "sink input");
    s.process_binary = text("Player-Bin");
    assert_eq!(get_display_name(&s), "Sink Input");
    assert_eq!(get_icon_search_name(&s), "player-bin");
    s.application_name = text("Player");
    assert_eq!(get_display_name(&s), "Player");
    assert_eq!(get_icon_search_name(&s), "player");
    s.media_name = text("A Song");
    assert_eq!(get_display_name(&s), "A Song");
    assert_eq!(get_icon_search_name(&s), "player");
    s.node_name = text("Game.Node");
    assert_eq!(get_display_name(&s), "Game.Node");
    assert_eq!(get_icon_search_name(&s), "game.node");
    s.node_name = text("Firefox");
    assert_eq!(get_display_name(&s), "A Song");
}

#[test]
fn sparse_streams_take_their_identity_from_the_client() {
    let mut s = props(5);
    s.client = Some(77);
    s.process_id = text("not a number");
    s.mute = true;
    let mut clients = HashMap::new();
    clients.insert(
        77,
        ClientProps {
            name: text("Client"),
            binary: text("client-bin"),
            process_id: text("4242"),
        },
    );
    let a = stream_app(&s, &clients);
    assert_eq!((a.uid, a.pid, a.client_pid), (5, None, Some(4242)));
    assert_eq!(a.client_name.as_deref(), Some("Client"));
    assert_eq!(a.client_binary.as_deref(), Some("client-bin"));
    assert_eq!(a.member_uids, vec![5]);
    assert!(a.mute && a.is_browser && !a.is_device);
    s.client = Some(78);
    assert_eq!(stream_app(&s, &clients).client_pid, None);
}

#[test]
fn device_stands_for_the_system() {
    let d = DeviceProps { index: 3, description: None, mute: true, vol_percent: 7 };
    let a = device_app(&d);
    assert_eq!(a.app_name, "System Audio");
    assert_eq!(a.sink_name.as_deref(), Some("System Audio"));
    assert_eq!(a.icon_name.as_deref(), Some("audio-card"));
    assert_eq!((a.uid, a.pid, a.mute, a.is_device), (3, None, true, true));
}

#[test]
fn same_named_streams_are_flagged() {
    let mut a = props(1);
    a.node_name = text("Spotify");
    a.process_id = text("10");
    let mut b = props(2);
    b.node_name = text("spotify");
    b.process_id = text("20");
    let mut c = props(3);
    c.node_name = text("Game");
    c.process_id = text("30");
    let mut d = props(4);
    d.node_name = text("GAME");
    d.process_id = text("30");
    let device = DeviceProps {
        index: 0,
        description: text("Speakers"),
        mute: false,
        vol_percent: 1,
    };
    let list = list_applications(Some(device), &[a, b, c, d], &HashMap::new());
    let names: Vec<&str> = list.iter().map(|a| a.app_name.as_str()).collect();
    assert_eq!(names, vec!["Speakers", "Spotify", "spotify", "Game"]);
    let flags: Vec<bool> = list.iter().map(|a| a.is_multi_sink_app).collect();
    assert_eq!(flags, vec![false, true, true, false]);
    assert_eq!(list[3].member_uids, vec![3, 4]);
}

#[test]
fn levels_are_summed_unless_they_overflow() {
    assert_eq!(total_level(&[]), Some(0));
    assert_eq!(total_level(&[98304, 49152]), Some(147456));
    assert_eq!(total_level(&[u32::MAX, 1]), None);
}
