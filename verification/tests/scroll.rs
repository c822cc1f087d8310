use volume_controller::mixer::MixerChannel;
use volume_controller::scroll::{
    header_redraw, is_lcd_scrolling, is_stale, lcd_redraw, sync_scroll_state, ScrollState,
};

fn channel(name: &str) -> MixerChannel {
    MixerChannel {
        header_id: None,
        upper_vol_btn_id: None,
        lower_vol_btn_id: None,
        dial_id: None,
        uid: 1,
        member_uids: vec![1],
        pid: None,
        app_name: name.to_string(),
        app_id: name.to_string(),
        sink_name: None,
        mute: false,
        vol_percent: 50.0f32.to_bits(),
        icon_uri: "plain".to_string(),
        icon_uri_mute: "grey".to_string(),
        uses_default_icon: false,
        mpris_art_data: None,
        mpris_art_path: None,
        locked: false,
        first_seen: None,
        art_resolved: false,
        is_device: false,
        is_multi_sink_app: false,
    }
}

#[test]
fn short_labels_stand_still() {
    let mut state = ScrollState::new();
    sync_scroll_state(&mut state, &[channel("12345678")], &[false]);
    for _ in 0..20 {
        let tick = state.tick();
        assert!(tick.lcd.is_empty() && tick.headers.is_empty());
    }
    assert!(!is_lcd_scrolling(&state, 0));
}

#[test]
fn long_labels_go_round() {
    let mut state = ScrollState::new();
    sync_scroll_state(&mut state, &[channel("abcdefghi")], &[true]);
    assert!(is_lcd_scrolling(&state, 0) && !is_lcd_scrolling(&state, 1));
    let mut shown: Vec<String> = Vec::new();
    for n in 1..=(8 * 12) {
        let tick = state.tick();
        assert_eq!(tick.lcd, vec![0]);
        assert_eq!(tick.headers.len(), if n % 8 == 0 { 1 } else { 0 });
        for (column, title) in tick.headers {
            assert_eq!(column, 0);
            shown.push(title);
        }
    }
    assert_eq!(shown[0], "bcdefghi");
    assert_eq!(shown[1], "cdefghi ");
    assert_eq!(shown[8], "   abcde");
    assert_eq!(shown[10], " abcdefg");
    assert_eq!(shown[11], "abcdefgh");
    assert!(shown.iter().all(|s| s.chars().count() == 8));
}

#[test]
fn labels_go_on_until_they_change() {
    let mut state = ScrollState::new();
    let mut channels = vec![channel("a long label"), channel("another long one")];
    sync_scroll_state(&mut state, &channels, &[true, false]);
    for _ in 0..7 {
        state.tick();
    }
    assert!(!is_stale(&state, 0, &channels[0]));
    channels[1].app_name = "a third long one".to_string();
    assert!(is_stale(&state, 1, &channels[1]));
    // What is told of an unchanged label does not matter.
    sync_scroll_state(&mut state, &channels, &[false, true]);
    assert!(is_lcd_scrolling(&state, 0) && is_lcd_scrolling(&state, 1));
    let tick = state.tick();
    assert_eq!(tick.headers, vec![(0, " long la".to_string())]);
    sync_scroll_state(&mut state, &channels[..1], &[]);
    assert_eq!(state.text(0).as_deref(), Some("a long label"));
    assert_eq!(state.text(1), None);
    assert!(is_stale(&state, 1, &channels[1]));
}

#[test]
fn labels_are_what_the_channel_shows() {
    let mut kick = channel("some_streamer Stream - Watch Live on Kick");
    assert_eq!(kick.display_label(), "some_streamer");
    let mut state = ScrollState::new();
    sync_scroll_state(&mut state, std::slice::from_ref(&kick), &[]);
    assert_eq!(state.text(0).as_deref(), Some("some_streamer"));
    kick.is_multi_sink_app = true;
    assert_eq!(kick.display_label(), "some_streamer Stream - Watch Live on Kick");
    kick.sink_name = Some("AudioStream".to_string());
    assert_eq!(kick.display_label(), "AudioStream");
}

#[test]
fn redraws_need_a_place() {
    let mut c = channel("x");
    assert!(lcd_redraw(std::slice::from_ref(&c), 0, "t".to_string()).is_none());
    assert_eq!(header_redraw(std::slice::from_ref(&c), 0), None);
    c.dial_id = Some("dial".to_string());
    c.header_id = Some("header".to_string());
    let d = lcd_redraw(std::slice::from_ref(&c), 0, "t".to_string()).unwrap();
    assert_eq!((d.dial_id.as_str(), d.icon_uri.as_str(), d.title.as_str()), ("dial", "plain", "t"));
    assert_eq!((f32::from_bits(d.vol_percent), d.mute), (50.0, false));
    c.mute = true;
    let d = lcd_redraw(std::slice::from_ref(&c), 0, "t".to_string()).unwrap();
    assert_eq!((d.icon_uri.as_str(), d.mute), ("grey", true));
    assert_eq!(header_redraw(std::slice::from_ref(&c), 0).as_deref(), Some("header"));
    assert!(lcd_redraw(std::slice::from_ref(&c), 1, "t".to_string()).is_none());
    assert_eq!(header_redraw(std::slice::from_ref(&c), 1), None);
}
