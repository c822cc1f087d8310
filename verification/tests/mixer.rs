use std::collections::HashMap;
use volume_controller::audio::audio_system::AppInfo;
use volume_controller::mixer::art::{count_pids, resolve_art};
use volume_controller::mixer::create::is_ignored;
use volume_controller::mixer::memory::{
    recover_identity_from_memory, remember_channel_art, remembered_art_for, ART_MEMORY_TTL,
};
use volume_controller::mixer::update::title_collides;
use volume_controller::mixer::{
    create_mixer_channels, update_mixer_channels, ArtMemory, Icon, MixerChannel, PlannedChannel,
};
use volume_controller::mpris::{ArtFile, SETTLE};
use volume_controller::text::TextSet;

const SECOND: i128 = 1_000_000_000;
const NOW: i128 = 1_000_000 * SECOND;

fn remember(mem: &mut ArtMemory, pid: u32, name: &str, path: &str) {
    mem.remember(pid, name, path.to_string(), vec![1u8, 2, 3], NOW);
}

fn claimed(paths: &[&str]) -> TextSet {
    let mut set = TextSet::new();
    for p in paths {
        set.insert(p.to_string());
    }
    set
}

#[test]
fn restores_remembered_art_for_confirmed_identity() {
    // After a stream's real media.name is re-confirmed, its prior art is
    // restored, keyed on PID + the confirmed name only.
    let pid = 900_001;
    let mut mem = ArtMemory::new();
    remember(&mut mem, pid, "Example Stream - Twitch", "/run/firefox-mpris/900001_1.png");
    let got = remembered_art_for(&mem, pid, "Example Stream - Twitch", &TextSet::new());
    assert_eq!(
        got,
        Some(("/run/firefox-mpris/900001_1.png".to_string(), vec![1u8, 2, 3]))
    );
}

#[test]
fn does_not_restore_a_different_identitys_art() {
    // A different identity remembered on the same PID must not be returned:
    // the key is PID + exact name, never PID alone.
    let pid = 900_002;
    let mut mem = ArtMemory::new();
    remember(&mut mem, pid, "Example Video - YouTube", "/run/firefox-mpris/900002_1.png");
    assert_eq!(
        remembered_art_for(&mem, pid, "Example Stream - Twitch", &TextSet::new()),
        None
    );
}

#[test]
fn never_steals_art_a_live_stream_still_holds() {
    let pid = 900_003;
    let path = "/run/firefox-mpris/900003_1.png";
    let mut mem = ArtMemory::new();
    remember(&mut mem, pid, "Example Stream - Twitch", path);
    let claimed = claimed(&[path]);
    assert_eq!(
        remembered_art_for(&mem, pid, "Example Stream - Twitch", &claimed),
        None
    );
}

#[test]
fn no_memory_for_identity_yields_nothing() {
    let pid = 900_004;
    let mem = ArtMemory::new();
    assert_eq!(remembered_art_for(&mem, pid, "Anything", &TextSet::new()), None);
}

fn live(names: &[&str]) -> TextSet {
    let mut set = TextSet::new();
    for n in names {
        set.insert(n.to_lowercase());
    }
    set
}

#[test]
fn recovers_lone_dormant_identity_for_mis_tagged_stream() {
    // A returning stream wears a live video's title; its own remembered
    // identity is the only one remembered-but-absent, so it's recovered.
    let pid = 900_101;
    let mut mem = ArtMemory::new();
    remember(&mut mem, pid, "Example Stream - Twitch", "/run/firefox-mpris/900101_1.png");
    let live = live(&["example video - youtube", "example video"]);
    assert_eq!(
        recover_identity_from_memory(&mem, pid, &live).as_deref(),
        Some("Example Stream - Twitch")
    );
}

#[test]
fn does_not_reuse_an_identity_still_on_screen() {
    let pid = 900_102;
    let mut mem = ArtMemory::new();
    remember(&mut mem, pid, "Example Stream - Twitch", "/run/firefox-mpris/900102_1.png");
    // That stream is still live: nothing dormant to recover.
    assert_eq!(
        recover_identity_from_memory(&mem, pid, &live(&["example stream - twitch"])),
        None
    );
}

#[test]
fn refuses_to_guess_between_multiple_dormant_identities() {
    let pid = 900_103;
    let mut mem = ArtMemory::new();
    remember(&mut mem, pid, "Example Stream A - Twitch", "/run/firefox-mpris/900103_1.png");
    remember(&mut mem, pid, "Example Stream B - Twitch", "/run/firefox-mpris/900103_2.png");
    assert_eq!(recover_identity_from_memory(&mem, pid, &live(&[])), None);
}

#[test]
fn other_processes_do_not_make_an_identity_ambiguous() {
    let mut mem = ArtMemory::new();
    remember(&mut mem, 1, "A", "/a");
    remember(&mut mem, 2, "B", "/b");
    remember(&mut mem, 1, "A", "/c");
    assert_eq!(recover_identity_from_memory(&mem, 1, &live(&[])).as_deref(), Some("A"));
    assert_eq!(
        remembered_art_for(&mem, 1, "A", &TextSet::new()),
        Some(("/c".to_string(), vec![1, 2, 3]))
    );
}

#[test]
fn art_is_forgotten_after_its_time() {
    let mut mem = ArtMemory::new();
    mem.remember(1, "A", "/a".to_string(), vec![1], NOW);
    mem.remember(1, "B", "/b".to_string(), vec![2], NOW + 1);
    mem.prune(NOW + ART_MEMORY_TTL);
    assert_eq!(remembered_art_for(&mem, 1, "A", &TextSet::new()), None);
    assert_eq!(
        remembered_art_for(&mem, 1, "B", &TextSet::new()),
        Some(("/b".to_string(), vec![2]))
    );
    // A clock that goes backwards forgets nothing.
    mem.prune(0);
    assert!(remembered_art_for(&mem, 1, "B", &TextSet::new()).is_some());
}

fn app(uid: u32, pid: Option<u32>, name: &str) -> AppInfo {
    AppInfo {
        uid,
        member_uids: vec![uid],
        app_name: name.to_string(),
        app_id: "Firefox".to_string(),
        icon_search_name: "firefox".to_string(),
        pid,
        sink_name: Some(format!("sink {uid}")),
        mute: false,
        vol_percent: 50.0f32.to_bits(),
        icon_name: None,
        is_device: false,
        is_browser: true,
        is_multi_sink_app: false,
        client_pid: None,
        client_name: None,
        client_binary: None,
        wm_class: Some("class".to_string()),
        window_icon: None,
        kick_art: None,
        kick_pending: false,
    }
}

fn art(name: &str, written: i128, data: &[u8]) -> ArtFile {
    ArtFile {
        path: format!("/art/{name}"),
        file_name: name.to_string(),
        written: Some(written),
        data: Some(data.to_vec()),
    }
}

/// Answers every lookup, and tells what was asked for: the art, and whether the
/// window was asked too.
fn answer(planned: Vec<PlannedChannel>, is_default: bool) -> (Vec<MixerChannel>, Vec<Asked>) {
    let mut channels = Vec::new();
    let mut asked = Vec::new();
    for mut p in planned {
        let uid = p.channel.uid;
        while let Some(q) = p.next_query() {
            asked.push((uid, q.art.clone(), q.wm_class.is_some()));
            p.answer(Icon {
                uri: format!("icon {uid}"),
                uri_mute: format!("mute {uid}"),
                is_default,
            });
        }
        channels.push(p.channel);
    }
    (channels, asked)
}

type Asked = (u32, Option<Vec<u8>>, bool);

#[test]
fn ignored_apps_are_left_out() {
    let list = ["Spotify".to_string()];
    let mut a = app(1, None, "A Song");
    a.app_id = "Spotify".to_string();
    assert!(is_ignored(&a, &list));
    assert!(is_ignored(&app(1, None, "Spotify"), &list));
    assert!(!is_ignored(&app(1, None, "spotify"), &list));
    let apps = vec![a, app(2, None, "B")];
    let planned = create_mixer_channels(vec![], apps, &list, &[], NOW);
    assert_eq!(planned.len(), 1);
    assert_eq!(planned[0].channel.uid, 2);
}

#[test]
fn kick_streams_are_not_counted() {
    let apps = [
        app(1, Some(5), "xqc Stream - Watch Live on Kick"),
        app(2, Some(5), "A - Twitch"),
        app(3, Some(6), "B"),
        app(4, Some(6), "C"),
        app(5, None, "D"),
    ];
    assert_eq!(count_pids(&apps), HashMap::from([(5, 1), (6, 2)]));
}

#[test]
fn titles_collide_by_process() {
    let apps = [
        app(1, Some(5), "Video - YouTube"),
        app(2, Some(5), "VIDEO"),
        app(3, Some(6), "Video"),
    ];
    assert!(title_collides(&apps, Some(5), "video - Twitch"));
    assert!(!title_collides(&apps, Some(6), "Video"));
    assert!(!title_collides(&apps, None, "Video"));
}

#[test]
fn cold_start_claims_art_only_when_alone() {
    let files = [art("5_1.png", NOW - SECOND, &[7])];
    let planned = create_mixer_channels(vec![], vec![app(1, Some(5), "A")], &[], &files, NOW);
    let c = &planned[0].channel;
    assert_eq!(c.mpris_art_path.as_deref(), Some("/art/5_1.png"));
    assert_eq!(c.mpris_art_data, Some(vec![7]));
    assert!(c.art_resolved && c.locked && c.first_seen.is_none());

    // A sibling makes it ambiguous, and nothing on disk too leaves it open.
    let apps = vec![app(1, Some(5), "A"), app(2, Some(5), "B")];
    let planned = create_mixer_channels(vec![], apps, &[], &files, NOW);
    assert!(planned.iter().all(|p| !p.channel.art_resolved && p.channel.mpris_art_path.is_none()));
    assert!(planned.iter().all(|p| !p.channel.locked));
    let planned = create_mixer_channels(vec![], vec![app(1, Some(5), "A")], &[], &[], NOW);
    assert!(!planned[0].channel.art_resolved && !planned[0].channel.locked);

    // A Kick sibling does not.
    let apps = vec![app(1, Some(5), "xqc - Kick"), app(2, Some(5), "B")];
    let planned = create_mixer_channels(vec![], apps, &[], &files, NOW);
    assert_eq!(planned[0].channel.mpris_art_path, None);
    assert_eq!(planned[1].channel.mpris_art_data, Some(vec![7]));
}

#[test]
fn a_shared_process_is_asked_for_art_again_once_it_is_not_shared() {
    let files = [art("5_1.png", NOW - SECOND, &[7])];
    let mut mem = ArtMemory::new();
    let apps = vec![app(1, Some(5), "A"), app(2, Some(5), "B")];
    let (channels, _) = answer(create_mixer_channels(vec![], apps, &[], &files, NOW), false);

    let apps = vec![app(1, Some(5), "A"), app(2, Some(5), "B")];
    let planned = update_mixer_channels(&channels, &mut mem, apps, &[], &files, NOW + SECOND);
    assert!(planned.iter().all(|p| !p.channel.art_resolved && p.channel.mpris_art_path.is_none()));
    let (channels, _) = answer(planned, false);

    let apps = vec![app(2, Some(5), "B")];
    let planned = update_mixer_channels(&channels, &mut mem, apps, &[], &files, NOW + 2 * SECOND);
    let c = &planned[0].channel;
    assert!(c.art_resolved);
    assert_eq!(c.mpris_art_path.as_deref(), Some("/art/5_1.png"));
}

#[test]
fn further_columns_stay_at_cold_start() {
    let planned =
        create_mixer_channels(vec![], vec![app(1, None, "A"), app(2, None, "B")], &[], &[], NOW);
    let (channels, asked) = answer(planned, false);
    assert_eq!(asked, vec![(1, None, true), (2, None, true)]);
    let planned = create_mixer_channels(channels, vec![app(3, None, "C")], &[], &[], NOW);
    let (channels, asked) = answer(planned, false);
    let uids: Vec<u32> = channels.iter().map(|c| c.uid).collect();
    assert_eq!(uids, vec![3, 2]);
    assert_eq!(channels[1].icon_uri, "icon 2");
    assert_eq!(asked, vec![(3, None, true)]);
}

#[test]
fn observed_streams_wait_before_they_claim() {
    let mut mem = ArtMemory::new();
    let files = [art("5_1.png", NOW + SECOND, &[7])];
    let planned =
        update_mixer_channels(&[], &mut mem, vec![app(1, Some(5), "A")], &[], &files, NOW);
    let (channels, asked) = answer(planned, true);
    assert_eq!(asked, vec![(1, None, true)]);
    assert_eq!(channels[0].first_seen, Some(NOW));
    assert!(!channels[0].art_resolved && channels[0].mpris_art_path.is_none());

    let early = NOW + SETTLE - 1;
    let planned =
        update_mixer_channels(&channels, &mut mem, vec![app(1, Some(5), "A")], &[], &files, early);
    assert!(!planned[0].channel.art_resolved);

    let later = NOW + SETTLE;
    let planned =
        update_mixer_channels(&channels, &mut mem, vec![app(1, Some(5), "A")], &[], &files, later);
    let (channels, asked) = answer(planned, false);
    assert_eq!(channels[0].mpris_art_data, Some(vec![7]));
    assert!(channels[0].art_resolved && channels[0].locked);
    assert_eq!(channels[0].icon_uri, "icon 1");
    assert_eq!(asked, vec![(1, Some(vec![7]), false)]);
}

#[test]
fn decisions_without_art_are_final() {
    let mut mem = ArtMemory::new();
    let planned = update_mixer_channels(&[], &mut mem, vec![app(1, Some(5), "A")], &[], &[], NOW);
    let (channels, _) = answer(planned, false);
    let later = NOW + 10 * SECOND;
    let planned =
        update_mixer_channels(&channels, &mut mem, vec![app(1, Some(5), "A")], &[], &[], later);
    let (channels, _) = answer(planned, false);
    assert!(channels[0].art_resolved && channels[0].locked);
    let files = [art("5_1.png", NOW, &[7])];
    let planned =
        update_mixer_channels(&channels, &mut mem, vec![app(1, Some(5), "A")], &[], &files, later);
    assert_eq!(planned[0].channel.mpris_art_path, None);
}

fn settled(uid: u32, pid: u32, name: &str, path: &str, data: &[u8]) -> MixerChannel {
    MixerChannel {
        header_id: Some("h".to_string()),
        upper_vol_btn_id: Some("u".to_string()),
        lower_vol_btn_id: Some("l".to_string()),
        dial_id: Some("d".to_string()),
        uid,
        member_uids: vec![uid],
        pid: Some(pid),
        app_name: name.to_string(),
        app_id: "Firefox".to_string(),
        sink_name: None,
        mute: false,
        vol_percent: 0,
        icon_uri: "old".to_string(),
        icon_uri_mute: "old mute".to_string(),
        uses_default_icon: false,
        mpris_art_data: Some(data.to_vec()),
        mpris_art_path: Some(path.to_string()),
        locked: true,
        first_seen: Some(NOW - 100 * SECOND),
        art_resolved: true,
        is_device: false,
        is_multi_sink_app: false,
    }
}

#[test]
fn locked_channels_change_only_live_data() {
    let mut mem = ArtMemory::new();
    let prev = [settled(1, 5, "A - Twitch", "/art/5_1.png", &[7])];
    let mut generic = app(1, Some(5), "AudioStream");
    generic.mute = true;
    generic.member_uids = vec![1, 4];
    let planned = update_mixer_channels(&prev, &mut mem, vec![generic], &[], &[], NOW);
    let (channels, asked) = answer(planned, true);
    let c = &channels[0];
    assert!(asked.is_empty());
    assert_eq!(c.app_name, "A - Twitch");
    assert_eq!(c.mpris_art_data, Some(vec![7]));
    assert_eq!((c.icon_uri.as_str(), c.icon_uri_mute.as_str()), ("old", "old mute"));
    assert!(c.locked && c.mute);
    assert_eq!(c.member_uids, vec![1, 4]);
    assert_eq!(c.sink_name.as_deref(), Some("sink 1"));
    assert_eq!(f32::from_bits(c.vol_percent), 50.0);
    assert!(c.header_id.is_none() && c.dial_id.is_none());
    assert!(c.upper_vol_btn_id.is_none() && c.lower_vol_btn_id.is_none());
}

#[test]
fn default_icons_are_looked_up_again() {
    let mut mem = ArtMemory::new();
    let mut prev = settled(1, 5, "A", "/art/5_1.png", &[7]);
    prev.uses_default_icon = true;
    let planned =
        update_mixer_channels(&[prev], &mut mem, vec![app(1, Some(5), "A")], &[], &[], NOW);
    let (channels, asked) = answer(planned, true);
    assert_eq!(asked, vec![(1, Some(vec![7]), true)]);
    assert_eq!(channels[0].icon_uri, "icon 1");
}

#[test]
fn name_shift_drops_stale_art() {
    let mut mem = ArtMemory::new();
    let prev = [settled(1, 5, "A - Twitch", "/art/5_1.png", &[7])];
    let planned =
        update_mixer_channels(&prev, &mut mem, vec![app(1, Some(5), "B - Twitch")], &[], &[], NOW);
    let (channels, asked) = answer(planned, true);
    let c = &channels[0];
    assert_eq!(c.app_name, "B - Twitch");
    assert!(c.mpris_art_path.is_none() && c.mpris_art_data.is_none());
    assert!(!c.locked && !c.art_resolved);
    assert_eq!(c.first_seen, Some(NOW));
    // The lookup gave the default icon, so it is made once more.
    assert_eq!(asked, vec![(1, None, true), (1, None, true)]);

    // Going back restores what is remembered of the name.
    let planned = update_mixer_channels(
        &channels,
        &mut mem,
        vec![app(1, Some(5), "A - Twitch")],
        &[],
        &[],
        NOW + SECOND,
    );
    let (channels, asked) = answer(planned, false);
    assert_eq!(channels[0].mpris_art_path.as_deref(), Some("/art/5_1.png"));
    assert!(channels[0].locked);
    assert_eq!(asked, vec![(1, Some(vec![7]), false)]);
}

#[test]
fn wrong_tags_do_not_rename_a_locked_channel() {
    let mut mem = ArtMemory::new();
    let prev = [
        settled(1, 5, "Stream - Twitch", "/art/5_1.png", &[7]),
        settled(2, 5, "Video - YouTube", "/art/5_2.png", &[8]),
    ];
    let apps = vec![app(1, Some(5), "Video - YouTube"), app(2, Some(5), "Video - YouTube")];
    let planned = update_mixer_channels(&prev, &mut mem, apps, &[], &[], NOW);
    assert_eq!(planned[0].channel.app_name, "Stream - Twitch");
    assert_eq!(planned[0].channel.mpris_art_data, Some(vec![7]));
    assert_eq!(planned[1].channel.app_name, "Video - YouTube");
}

#[test]
fn recreated_streams_inherit_their_art() {
    let mut mem = ArtMemory::new();
    let prev = [settled(1, 5, "A - Twitch", "/art/5_1.png", &[7])];
    let planned =
        update_mixer_channels(&prev, &mut mem, vec![app(9, Some(5), "A - Twitch")], &[], &[], NOW);
    let (channels, asked) = answer(planned, false);
    assert_eq!(channels[0].uid, 9);
    assert_eq!(channels[0].mpris_art_path.as_deref(), Some("/art/5_1.png"));
    assert!(channels[0].art_resolved && channels[0].locked);
    assert_eq!(asked, vec![(9, Some(vec![7]), false)]);

    // Its art stays remembered while it is gone, but not for ever.
    let gone = NOW + ART_MEMORY_TTL - 1;
    update_mixer_channels(&[], &mut mem, vec![], &[], &[], gone);
    assert!(remembered_art_for(&mem, 5, "A - Twitch", &TextSet::new()).is_some());
    update_mixer_channels(&[], &mut mem, vec![], &[], &[], gone + 1);
    assert!(remembered_art_for(&mem, 5, "A - Twitch", &TextSet::new()).is_none());
}

#[test]
fn mistagged_new_stream_takes_the_dormant_identity() {
    let mut mem = ArtMemory::new();
    let prev = [
        settled(1, 5, "Stream - Twitch", "/art/5_1.png", &[7]),
        settled(2, 5, "Video - YouTube", "/art/5_2.png", &[8]),
    ];
    let apps = vec![app(2, Some(5), "Video - YouTube"), app(3, Some(5), "Video - YouTube")];
    let planned = update_mixer_channels(&prev, &mut mem, apps, &[], &[], NOW);
    let c = &planned[1].channel;
    assert_eq!((c.uid, c.app_name.as_str()), (3, "Stream - Twitch"));
    assert_eq!(c.mpris_art_data, Some(vec![7]));

    // The wrong title stays; the recovered name is kept.
    let channels: Vec<MixerChannel> = planned.into_iter().map(|p| p.channel).collect();
    let apps = vec![app(2, Some(5), "Video - YouTube"), app(3, Some(5), "Video - YouTube")];
    let planned = update_mixer_channels(&channels, &mut mem, apps, &[], &[], NOW + SECOND);
    assert_eq!(planned[1].channel.app_name, "Stream - Twitch");
}

#[test]
fn two_channels_never_hold_one_file() {
    let mut mem = ArtMemory::new();
    // A stream under a new uid reports the identity of one that is still there.
    let prev = [settled(1, 5, "A", "/art/5_1.png", &[7])];
    let apps = vec![app(9, Some(5), "A"), app(1, Some(5), "A")];
    let planned = update_mixer_channels(&prev, &mut mem, apps, &[], &[], NOW);
    assert_eq!(planned[0].channel.mpris_art_path, None);
    assert_eq!(planned[1].channel.mpris_art_path.as_deref(), Some("/art/5_1.png"));

    // Two streams compete for one file.
    let mut a = settled(1, 5, "A", "", &[]);
    a.mpris_art_path = None;
    a.mpris_art_data = None;
    a.art_resolved = false;
    a.locked = false;
    a.first_seen = Some(NOW);
    let mut b = a.clone();
    b.uid = 2;
    b.app_name = "B".to_string();
    let files = [art("5_1.png", NOW, &[7])];
    let apps = vec![app(1, Some(5), "A"), app(2, Some(5), "B")];
    let later = NOW + 5 * SECOND;
    let planned = update_mixer_channels(&[a, b], &mut mem, apps, &[], &files, later);
    assert_eq!(planned[0].channel.mpris_art_data, Some(vec![7]));
    assert_eq!(planned[1].channel.mpris_art_path, None);
    assert!(planned[1].channel.art_resolved);
}

#[test]
fn kick_channels_show_their_avatar_once_it_is_there() {
    let mut mem = ArtMemory::new();
    let mut pending = app(1, Some(5), "xqc - Kick");
    pending.kick_pending = true;
    let files = [art("5_1.png", NOW, &[7])];
    let planned = update_mixer_channels(&[], &mut mem, vec![pending], &[], &files, NOW);
    let (channels, _) = answer(planned, false);
    assert!(!channels[0].locked);
    let mut ready = app(1, Some(5), "xqc - Kick");
    ready.kick_art = Some(vec![9]);
    let later = NOW + 5 * SECOND;
    let planned = update_mixer_channels(&channels, &mut mem, vec![ready], &[], &files, later);
    let (channels, asked) = answer(planned, true);
    assert_eq!(channels[0].mpris_art_data, Some(vec![9]));
    assert_eq!(channels[0].mpris_art_path, None);
    assert!(channels[0].locked);
    assert_eq!(asked, vec![(1, Some(vec![9]), false)]);
}

#[test]
fn devices_are_decided_at_once() {
    let mut mem = ArtMemory::new();
    let mut device = app(0, None, "Speakers");
    device.is_device = true;
    let planned = update_mixer_channels(&[], &mut mem, vec![device], &[], &[], NOW);
    let c = &planned[0].channel;
    assert!(c.art_resolved && c.locked && c.is_device);
    assert_eq!(c.first_seen, None);
}

#[test]
fn uids_are_continued_once() {
    let mut mem = ArtMemory::new();
    let prev = [settled(1, 5, "A", "/art/5_1.png", &[7])];
    let apps = vec![app(1, Some(5), "A"), app(1, Some(6), "B")];
    let planned = update_mixer_channels(&prev, &mut mem, apps, &[], &[], NOW);
    assert_eq!(planned[0].channel.first_seen, Some(NOW - 100 * SECOND));
    assert_eq!(planned[1].channel.first_seen, Some(NOW));
    assert_eq!(planned[1].channel.pid, Some(6));
}

#[test]
fn placeholders_are_not_remembered() {
    let mut mem = ArtMemory::new();
    remember_channel_art(&mut mem, &settled(1, 5, "AudioStream", "/p", &[1]), NOW);
    assert!(remembered_art_for(&mem, 5, "AudioStream", &TextSet::new()).is_none());
    remember_channel_art(&mut mem, &settled(1, 5, "Real", "/p", &[1]), NOW);
    assert!(remembered_art_for(&mem, 5, "Real", &TextSet::new()).is_some());
}

#[test]
fn clock_before_the_first_sight_is_not_too_early() {
    let mut c = settled(1, 5, "A", "", &[]);
    c.mpris_art_path = None;
    c.mpris_art_data = None;
    c.art_resolved = false;
    c.first_seen = Some(NOW);
    let mut taken = TextSet::new();
    let files = [art("5_1.png", NOW, &[7])];
    assert!(resolve_art(&mut c, &files, NOW - 1, &HashMap::new(), &mut taken));
    assert!(taken.contains("/art/5_1.png") && c.art_resolved);
    assert_eq!(c.mpris_art_data, Some(vec![7]));
}
