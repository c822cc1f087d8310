use volume_controller::audio::audio_system::AppInfo;
use volume_controller::mpris::{
    any_lacks_name, claim_art, clean_stream_title, enrich_generic_names, is_art_file_of,
    is_generic_name, is_player_bus_name, list_art_candidates, pick_art, ArtFile, ArtPick,
    MediaPlayer, POST_WINDOW, PRE_WINDOW,
};
use volume_controller::text::TextSet;

#[test]
fn strips_kick_suffix() {
    assert_eq!(
        clean_stream_title("PaymoneyWubby Stream - Watch Live on Kick"),
        "PaymoneyWubby Stream"
    );
}

#[test]
fn strips_case_insensitively_and_trims() {
    assert_eq!(clean_stream_title("Cool Channel - youtube"), "Cool Channel");
    assert_eq!(clean_stream_title("  Spaced Out - Twitch  "), "Spaced Out");
}

#[test]
fn leaves_unrecognized_titles_untouched() {
    assert_eq!(clean_stream_title("Just A Title"), "Just A Title");
}

#[test]
fn titles_outside_ascii_are_cleaned_too() {
    assert_eq!(clean_stream_title("日本語 - Twitch"), "日本語");
    assert_eq!(clean_stream_title("ééééé"), "ééééé");
    assert_eq!(clean_stream_title("\u{3000}x\u{a0}"), "x");
}

/// A fixed base time well clear of the epoch, so that offsets can go in either
/// direction.
fn base() -> i128 {
    1_000_000 * 1_000_000_000
}

fn at(offset_secs: i64) -> i128 {
    base() + offset_secs as i128 * 1_000_000_000
}

fn cand(name: &str, offset_secs: i64) -> (String, i128) {
    (name.to_string(), at(offset_secs))
}

fn found(name: &str) -> ArtPick {
    ArtPick::Match(name.to_string())
}

#[test]
fn observed_match_in_window() {
    let cands = vec![cand("a.png", 1)];
    assert_eq!(pick_art(&cands, Some(base()), 1), found("a.png"));
}

#[test]
fn observed_no_match_outside_window() {
    let cands = vec![cand("a.png", 10)];
    assert_eq!(pick_art(&cands, Some(base()), 1), ArtPick::NoArt);
}

#[test]
fn observed_picks_closest() {
    let cands = vec![cand("far.png", 4), cand("near.png", 1)];
    assert_eq!(pick_art(&cands, Some(base()), 1), found("near.png"));
}

#[test]
fn observed_tiebreak_prefers_after() {
    // Equal distance (1s) on either side: prefer art written at/after start.
    let cands = vec![cand("before.png", -1), cand("after.png", 1)];
    assert_eq!(pick_art(&cands, Some(base()), 1), found("after.png"));
}

#[test]
fn cold_start_single_stream_picks_newest() {
    let cands = vec![cand("old.png", -100), cand("new.png", -10)];
    assert_eq!(pick_art(&cands, None, 1), found("new.png"));
}

#[test]
fn cold_start_ambiguous_pid_refuses() {
    let cands = vec![cand("a.png", -10), cand("b.png", -5)];
    assert_eq!(pick_art(&cands, None, 2), ArtPick::NoArt);
}

#[test]
fn cold_start_no_files_is_no_art() {
    assert_eq!(pick_art(&[], None, 1), ArtPick::NoArt);
}

#[test]
fn window_ends_belong_to_it() {
    let first = vec![("a.png".to_string(), base() - PRE_WINDOW)];
    let last = vec![("a.png".to_string(), base() + POST_WINDOW)];
    assert_eq!(pick_art(&first, Some(base()), 9), found("a.png"));
    assert_eq!(pick_art(&last, Some(base()), 9), found("a.png"));
    let early = vec![("a.png".to_string(), base() - PRE_WINDOW - 1)];
    let late = vec![("a.png".to_string(), base() + POST_WINDOW + 1)];
    assert_eq!(pick_art(&early, Some(base()), 1), ArtPick::NoArt);
    assert_eq!(pick_art(&late, Some(base()), 1), ArtPick::NoArt);
}

#[test]
fn ties_go_to_the_first_observed_and_the_last_newest() {
    let cands = vec![cand("a.png", 1), cand("b.png", 1)];
    assert_eq!(pick_art(&cands, Some(base()), 1), found("a.png"));
    assert_eq!(pick_art(&cands, None, 1), found("b.png"));
    let ends = vec![("a.png".to_string(), i128::MIN), ("b.png".to_string(), i128::MAX)];
    assert_eq!(pick_art(&ends, Some(i128::MAX), 1), found("b.png"));
    assert_eq!(pick_art(&ends, Some(i128::MIN), 1), found("a.png"));
}

#[test]
fn placeholders_are_known_in_any_case() {
    for name in ["AudioStream", "audio stream", "AUDIO-SRC", "app_stream", "Playback"] {
        assert!(is_generic_name(name));
    }
    assert!(!is_generic_name("Firefox"));
    assert!(!is_generic_name(""));
    // The Kelvin sign is lowered to a plain k.
    assert!(is_generic_name("PLAYBAC\u{212a}"));
}

fn file(name: &str, offset_secs: Option<i64>, data: Option<&[u8]>) -> ArtFile {
    ArtFile {
        path: format!("/art/{name}"),
        file_name: name.to_string(),
        written: offset_secs.map(at),
        data: data.map(|d| d.to_vec()),
    }
}

#[test]
fn art_files_are_named_by_process() {
    assert!(is_art_file_of("42_1.png", 42));
    assert!(!is_art_file_of("421_1.png", 42));
    assert!(!is_art_file_of("42_1.jpg", 42));
    assert!(is_art_file_of("0_.png", 0));
    assert!(is_art_file_of("4294967295_x.png", u32::MAX));
}

#[test]
fn claimed_and_undated_files_are_no_candidates() {
    let files = [
        file("42_1.png", Some(1), None),
        file("42_2.png", Some(2), None),
        file("42_3.png", None, None),
        file("43_1.png", Some(1), None),
    ];
    let mut exclude = TextSet::new();
    exclude.insert("/art/42_1.png".to_string());
    assert_eq!(
        list_art_candidates(&files, 42, &exclude),
        vec![("/art/42_2.png".to_string(), at(2))]
    );
}

#[test]
fn claimed_art_goes_to_nobody_else() {
    let files = [
        file("42_1.png", Some(0), Some(&[1, 2])),
        file("42_2.png", Some(3), Some(&[3])),
    ];
    let mut claimed = TextSet::new();
    assert_eq!(
        claim_art(&files, 42, Some(base()), 2, &claimed),
        Some(("/art/42_1.png".to_string(), vec![1, 2]))
    );
    claimed.insert("/art/42_1.png".to_string());
    assert_eq!(
        claim_art(&files, 42, Some(base()), 2, &claimed),
        Some(("/art/42_2.png".to_string(), vec![3]))
    );
    claimed.insert("/art/42_2.png".to_string());
    assert_eq!(claim_art(&files, 42, Some(base()), 2, &claimed), None);
}

#[test]
fn unreadable_art_is_not_claimed() {
    let files = [file("42_1.png", Some(0), None)];
    assert_eq!(claim_art(&files, 42, Some(base()), 1, &TextSet::new()), None);
}

fn unnamed(pid: Option<u32>, name: &str) -> AppInfo {
    AppInfo {
        uid: 1,
        member_uids: vec![1],
        app_name: name.to_string(),
        app_id: "Firefox".to_string(),
        icon_search_name: "firefox".to_string(),
        pid,
        sink_name: None,
        mute: false,
        vol_percent: 0,
        icon_name: None,
        is_device: false,
        is_browser: true,
        is_multi_sink_app: false,
        client_pid: None,
        client_name: None,
        client_binary: None,
        wm_class: None,
        window_icon: None,
        kick_art: None,
        kick_pending: false,
    }
}

#[test]
fn generic_names_are_replaced_by_player_titles() {
    let player = |pid: u32, title: Option<&str>| MediaPlayer {
        pid,
        title: title.map(|t| t.to_string()),
    };
    let players = [
        player(2, Some("wrong process")),
        player(1, None),
        player(1, Some("   ")),
        player(1, Some("Playback - YouTube")),
        player(1, Some("xQc Stream - Watch Live on Kick")),
    ];
    let mut apps = vec![
        unnamed(Some(1), "AudioStream"),
        unnamed(None, "AudioStream"),
        unnamed(Some(1), "Real Name"),
        unnamed(Some(3), "playback"),
    ];
    assert!(any_lacks_name(&apps));
    enrich_generic_names(&mut apps, &players);
    let names: Vec<&str> = apps.iter().map(|a| a.app_name.as_str()).collect();
    assert_eq!(names, vec!["xQc Stream", "AudioStream", "Real Name", "playback"]);
    assert!(!any_lacks_name(&apps[..3]));
}

#[test]
fn players_are_known_by_their_bus_name() {
    assert!(is_player_bus_name("org.mpris.MediaPlayer2.firefox.instance1"));
    assert!(!is_player_bus_name("org.mpris.MediaPlayer2"));
    assert!(!is_player_bus_name(":1.5"));
}
