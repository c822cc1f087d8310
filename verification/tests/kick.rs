use base64::Engine;
use volume_controller::audio::audio_system::AppInfo;
use volume_controller::kick::{
    api_url, avatar_png, avatar_url, curl_args, curl_body, display_name, enrich_kick_art,
    extract_profile_pic, kick_slug, AvatarCache, FAILURE_BACKOFF,
};

#[test]
fn slug_from_standard_kick_title() {
    assert_eq!(
        kick_slug("asmongold Stream - Watch Live on Kick").as_deref(),
        Some("asmongold")
    );
}

#[test]
fn slug_lowercased() {
    assert_eq!(
        kick_slug("xQc Stream - Watch Live on Kick").as_deref(),
        Some("xqc")
    );
}

#[test]
fn slug_without_stream_word() {
    assert_eq!(
        kick_slug("trainwreckstv - Watch Live on Kick").as_deref(),
        Some("trainwreckstv")
    );
}

#[test]
fn slug_allows_underscores() {
    assert_eq!(
        kick_slug("some_streamer Stream - Watch Live on Kick").as_deref(),
        Some("some_streamer")
    );
}

#[test]
fn non_kick_titles_are_none() {
    assert_eq!(kick_slug("PaymoneyWubby - Twitch"), None);
    assert_eq!(kick_slug("Some Song - YouTube"), None);
    assert_eq!(kick_slug("Just A Title"), None);
}

#[test]
fn multiword_remainder_is_not_a_slug() {
    // After stripping boilerplate this isn't a single username token, so we
    // refuse rather than fetch a bogus slug.
    assert_eq!(kick_slug("Some Cool Channel - Watch Live on Kick"), None);
}

#[test]
fn extract_profile_pic_handles_escaped_slashes() {
    let body = r#"{"id":1,"profile_pic":"https:\/\/files.kick.com\/a\/b.webp","x":2}"#;
    assert_eq!(
        extract_profile_pic(body).as_deref(),
        Some("https://files.kick.com/a/b.webp")
    );
}

#[test]
fn extract_profile_pic_null_is_none() {
    assert_eq!(extract_profile_pic(r#"{"profile_pic":null}"#), None);
}

#[test]
fn extract_profile_pic_absent_is_none() {
    assert_eq!(extract_profile_pic(r#"{"slug":"x"}"#), None);
}

#[test]
fn profile_pic_needs_an_end_and_a_content() {
    assert_eq!(extract_profile_pic(r#"{"profile_pic":"http"#), None);
    assert_eq!(extract_profile_pic(r#"{"profile_pic":""}"#), None);
    assert_eq!(extract_profile_pic("\"profile_pic\": \n \"u\"").as_deref(), Some("u"));
}

#[test]
fn boilerplate_is_stripped_in_any_case() {
    assert_eq!(kick_slug("  XQC stream - KICK ").as_deref(), Some("xqc"));
    assert_eq!(kick_slug(" - Kick"), None);
    assert_eq!(kick_slug("ünder - Kick"), None);
    assert_eq!(kick_slug("é"), None);
}

#[test]
fn only_kick_titles_are_cut_for_display() {
    assert_eq!(display_name("xQc Stream - Watch Live on Kick"), "xQc");
    assert_eq!(display_name("Some Song - YouTube"), "Some Song - YouTube");
}

fn named(uid: u32, name: &str) -> AppInfo {
    AppInfo {
        uid,
        member_uids: vec![uid],
        app_name: name.to_string(),
        app_id: "Firefox".to_string(),
        icon_search_name: "firefox".to_string(),
        pid: Some(1),
        sink_name: None,
        mute: false,
        vol_percent: 0,
        icon_name: None,
        is_device: false,
        is_browser: true,
        is_multi_sink_app: false,
        client_pid: None,
        client_name: None,
        client_binary: None,
        wm_class: None,
        window_icon: None,
        kick_art: None,
        kick_pending: false,
    }
}

#[test]
fn avatars_are_fetched_once_and_retried_after_the_backoff() {
    let mut cache = AvatarCache::new();
    let tabs = || {
        vec![
            named(1, "xQc Stream - Watch Live on Kick"),
            named(2, "Some Song - YouTube"),
            named(3, "XQC - Kick"),
            named(4, "other - Kick"),
        ]
    };
    let mut apps = tabs();
    assert_eq!(enrich_kick_art(&mut apps, &mut cache, 0), vec!["xqc", "other"]);
    let pending: Vec<bool> = apps.iter().map(|a| a.kick_pending).collect();
    assert_eq!(pending, vec![true, false, true, true]);

    // A second pass before anything has come back starts nothing.
    let mut apps = tabs();
    assert!(enrich_kick_art(&mut apps, &mut cache, 1).is_empty());
    assert!(apps[0].kick_pending && apps[3].kick_pending);

    cache.finish_fetch("xqc".to_string(), Some(vec![9, 8, 7]), 2);
    cache.finish_fetch("other".to_string(), None, 10);
    let mut apps = tabs();
    assert!(enrich_kick_art(&mut apps, &mut cache, 10 + FAILURE_BACKOFF - 1).is_empty());
    assert_eq!(apps[0].kick_art, Some(vec![9, 8, 7]));
    assert_eq!(apps[2].kick_art, Some(vec![9, 8, 7]));
    assert!(!apps[3].kick_pending && apps[3].kick_art.is_none());

    let mut apps = tabs();
    assert_eq!(
        enrich_kick_art(&mut apps, &mut cache, 10 + FAILURE_BACKOFF),
        vec!["other"]
    );
    assert!(apps[3].kick_pending);
}

#[test]
fn requests_are_made_as_a_browser() {
    assert_eq!(api_url("xqc"), "https://kick.com/api/v2/channels/xqc");
    assert_eq!(
        curl_args("https://a/b"),
        vec![
            "-fsSL",
            "--max-time",
            "15",
            "-A",
            "Mozilla/5.0 (X11; Linux x86_64; rv:128.0) Gecko/20100101 Firefox/128.0",
            "https://a/b",
        ]
    );
    assert_eq!(curl_body(true, vec![1]), Some(vec![1]));
    assert_eq!(curl_body(false, vec![1]), None);
    assert_eq!(curl_body(true, vec![]), None);
}

#[test]
fn answers_with_broken_text_are_still_read() {
    let mut json = vec![0xff, 0xfe];
    json.extend_from_slice(br#"{"profile_pic":"http:\/\/x"}"#);
    assert_eq!(avatar_url(&json).as_deref(), Some("http://x"));
    assert_eq!(avatar_url(b"{}"), None);
}

#[test]
fn avatars_become_png() {
    // A lossy WebP of one pixel.
    let text = "UklGRiIAAABXRUJQVlA4IBYAAAAwAQCdASoBAAEADsD+JaQAA3AAAAAA";
    let webp = base64::engine::general_purpose::STANDARD.decode(text).unwrap();
    let png = avatar_png(&webp).unwrap();
    assert_eq!(&png[..8], &[0x89, b'P', b'N', b'G', 13, 10, 26, 10]);
    let pixel = image::load_from_memory(&webp).unwrap().to_rgba8();
    let back = image::load_from_memory(&png).unwrap().to_rgba8();
    assert_eq!((back.width(), back.height()), (1, 1));
    assert_eq!(back.into_raw(), pixel.into_raw());
    assert_eq!(avatar_png(&png), Some(png));
    assert_eq!(avatar_png(b"no picture"), None);
}
