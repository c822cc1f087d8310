//! The channels of the streams that are playing when the mixer starts.

use super::art::{
    art_decision, count_pids, pid_counts, resolve_art, with_claim, with_decision, ArtDecision,
};
use super::channel::{
    channel_views, planned_views, ChannelView, IconQuery, MixerChannel, PlannedChannel,
    PlannedView, QueryView,
};
use crate::audio::audio_system::{
    app_views, copy_bytes, copy_icon, copy_uids, AppInfo, AppView,
};
use crate::kick::{kick_slug, slug_in};
use crate::mpris::{file_views, is_generic, is_generic_name, ArtFile, ArtFileView};
use crate::text::{list_contains, opt_bytes, texts, TextSet};
use std::collections::HashMap;
use vstd::prelude::*;
use vstd::string::*;

verus! {

/// Whether an entry is on the exclude list.
pub open spec fn is_listed(app: AppView, ignored: Seq<Seq<char>>) -> bool {
    ignored.contains(app.app_id) || ignored.contains(app.app_name)
}

/// Whether an app is on the user's exclude list. Matches the stable app id
/// (so an app stays excluded across track/tab/title changes) and, for backward
/// compatibility, the display name (older entries were stored that way).
pub fn is_ignored(app: &AppInfo, ignored_apps: &[String]) -> (r: bool)
    ensures
        r == is_listed(app@, texts(ignored_apps@)),
{
    list_contains(ignored_apps, &app.app_id) || list_contains(ignored_apps, &app.app_name)
}

/// The entries that are not on the exclude list.
pub open spec fn active(apps: Seq<AppView>, ignored: Seq<Seq<char>>) -> Seq<AppView>
    decreases apps.len(),
{
    if apps.len() == 0 {
        Seq::empty()
    } else if is_listed(apps.last(), ignored) {
        active(apps.drop_last(), ignored)
    } else {
        active(apps.drop_last(), ignored).push(apps.last())
    }
}

pub(super) fn active_apps(applications: &[AppInfo], ignored_apps: &[String]) -> (r: Vec<AppInfo>)
    ensures
        app_views(r@) == active(app_views(applications@), texts(ignored_apps@)),
{
    let ghost all = app_views(applications@);
    let mut out: Vec<AppInfo> = Vec::new();
    let mut i: usize = 0;
    proof {
        assert(all.take(0) =~= Seq::empty());
        assert(app_views(out@) =~= Seq::empty());
    }
    while i < applications.len()
        invariant
            i <= applications.len(),
            all == app_views(applications@),
            app_views(out@) == active(all.take(i as int), texts(ignored_apps@)),
        decreases applications.len() - i,
    {
        let ghost before = app_views(out@);
        assert(all.take(i + 1).drop_last() =~= all.take(i as int));
        assert(all.take(i + 1).last() == applications@[i as int]@);
        if !is_ignored(&applications[i], ignored_apps) {
            out.push(applications[i].duplicate());
            assert(app_views(out@) =~= before.push(applications@[i as int]@));
        }
        i += 1;
    }
    assert(all.take(all.len() as int) =~= all);
    out
}

/// The lookup of an icon that is made from art.
pub open spec fn art_query(app: AppView, art: Seq<u8>) -> QueryView {
    QueryView {
        icon_name: app.icon_name,
        icon_search_name: app.icon_search_name,
        art: Some(art),
        wm_class: None,
        window_icon: None,
    }
}

/// The lookup of an icon by everything that is known of a stream.
pub open spec fn full_query(app: AppView, art: Option<Seq<u8>>) -> QueryView {
    QueryView {
        icon_name: app.icon_name,
        icon_search_name: app.icon_search_name,
        art,
        wm_class: app.wm_class,
        window_icon: app.window_icon,
    }
}

pub(super) fn look_up_art(app: &AppInfo, art: &Option<Vec<u8>>) -> (r: IconQuery)
    requires
        art is Some,
    ensures
        r@ == art_query(app@, art->0@),
{
    let r = IconQuery {
        icon_name: app.icon_name.clone(),
        icon_search_name: app.icon_search_name.clone(),
        art: copy_bytes(art),
        wm_class: None,
        window_icon: None,
    };
    assert(r@ =~= art_query(app@, art->0@));
    r
}

pub(super) fn look_up_all(app: &AppInfo, art: &Option<Vec<u8>>) -> (r: IconQuery)
    ensures
        r@ == full_query(app@, opt_bytes(*art)),
{
    let r = IconQuery {
        icon_name: app.icon_name.clone(),
        icon_search_name: app.icon_search_name.clone(),
        art: copy_bytes(art),
        wm_class: app.wm_class.clone(),
        window_icon: copy_icon(&app.window_icon),
    };
    assert(r@ =~= full_query(app@, opt_bytes(*art)));
    r
}

/// A channel for a stream, before anything is decided of its art. It has no icon
/// until the first lookup is answered.
pub open spec fn blank_channel(app: AppView, name: Seq<char>) -> ChannelView {
    ChannelView {
        header_id: None,
        upper_vol_btn_id: None,
        lower_vol_btn_id: None,
        dial_id: None,
        uid: app.uid,
        member_uids: app.member_uids,
        pid: app.pid,
        app_name: name,
        app_id: app.app_id,
        sink_name: app.sink_name,
        mute: app.mute,
        vol_percent: app.vol_percent,
        icon_uri: ""@,
        icon_uri_mute: ""@,
        uses_default_icon: true,
        mpris_art_data: app.kick_art,
        mpris_art_path: None,
        locked: false,
        first_seen: None,
        art_resolved: false,
        is_device: app.is_device,
        is_multi_sink_app: app.is_multi_sink_app,
    }
}

pub(super) fn open_channel(app: &AppInfo, name: String) -> (r: MixerChannel)
    ensures
        r@ == blank_channel(app@, name@),
{
    let r = MixerChannel {
        header_id: None,
        upper_vol_btn_id: None,
        lower_vol_btn_id: None,
        dial_id: None,
        uid: app.uid,
        member_uids: copy_uids(&app.member_uids),
        pid: app.pid,
        app_name: name,
        app_id: app.app_id.clone(),
        sink_name: app.sink_name.clone(),
        mute: app.mute,
        vol_percent: app.vol_percent,
        icon_uri: "".to_owned(),
        icon_uri_mute: "".to_owned(),
        uses_default_icon: true,
        mpris_art_data: copy_bytes(&app.kick_art),
        mpris_art_path: None,
        locked: false,
        first_seen: None,
        art_resolved: false,
        is_device: app.is_device,
        is_multi_sink_app: app.is_multi_sink_app,
    };
    assert(r@ =~= blank_channel(app@, name@));
    r
}

/// Whether a channel can be locked: it has a real name, its art is decided, and
/// no avatar is on its way.
pub open spec fn is_settled(name: Seq<char>, art_resolved: bool, kick_pending: bool) -> bool {
    !is_generic(name) && art_resolved && !kick_pending
}

/// The channel of a stream at cold start, and the claimed paths after it.
pub open spec fn created(
    app: AppView,
    counts: Map<u32, usize>,
    files: Seq<ArtFileView>,
    now: i128,
    claimed: Set<Seq<char>>,
) -> (PlannedView, Set<Seq<char>>) {
    let blank = blank_channel(app, app.app_name);
    let decision = if slug_in(app.app_name) is Some {
        ArtDecision { resolved: true, claim: None }
    } else {
        art_decision(blank, counts, files, now, claimed)
    };
    let channel = ChannelView {
        locked: is_settled(app.app_name, decision.resolved, app.kick_pending),
        ..with_decision(blank, decision)
    };
    let lookup = match decision.claim {
        Some(art) => art_query(app, art.1),
        None => full_query(app, app.kick_art),
    };
    (
        PlannedView { channel, lookup: Some(lookup), retry: None },
        with_claim(claimed, decision.claim),
    )
}

fn create_channel(
    app: &AppInfo,
    counts: &HashMap<u32, usize>,
    files: &[ArtFile],
    now: i128,
    claimed: &mut TextSet,
) -> (r: PlannedChannel)
    ensures
        (r@, final(claimed)@) == created(
            app@,
            counts@,
            file_views(files@),
            now,
            old(claimed)@,
        ),
{
    let ghost expected = created(app@, counts@, file_views(files@), now, claimed@);
    let mut channel = open_channel(app, app.app_name.clone());
    let took = if kick_slug(&app.app_name).is_some() {
        // Kick streams never write their own MPRIS art file; their only art
        // source is the avatar. Skip the file-claim so a sibling tab's art
        // can't be mis-attributed.
        channel.art_resolved = true;
        false
    } else {
        resolve_art(&mut channel, files, now, counts, claimed)
    };
    // Keep a Kick channel unlocked until its avatar fetch settles, so a later
    // refresh can swap in the avatar instead of locking the default icon.
    channel.locked = !is_generic_name(&channel.app_name) && channel.art_resolved
        && !app.kick_pending;
    let lookup = if took {
        look_up_art(app, &channel.mpris_art_data)
    } else {
        look_up_all(app, &app.kick_art)
    };
    let r = PlannedChannel { channel, lookup: Some(lookup), retry: None };
    assert(r@.channel =~= expected.0.channel);
    assert(r@ =~= expected.0);
    r
}

/// The channels of the first `n` streams at cold start, and the claimed paths
/// after them.
pub open spec fn created_channels(
    apps: Seq<AppView>,
    files: Seq<ArtFileView>,
    now: i128,
    n: int,
) -> (Seq<PlannedView>, Set<Seq<char>>)
    decreases n,
{
    if n <= 0 {
        (Seq::empty(), Set::empty())
    } else {
        let (planned, claimed) = created_channels(apps, files, now, n - 1);
        let (next, after) = created(apps[n - 1], pid_counts(apps), files, now, claimed);
        (planned.push(next), after)
    }
}

/// A channel that is left as it is.
pub open spec fn kept(channel: ChannelView) -> PlannedView {
    PlannedView { channel, lookup: None, retry: None }
}

/// The channels at cold start: those of the streams in the first columns, and
/// what was there in the further ones.
pub open spec fn channels_at_start(
    existing: Seq<ChannelView>,
    apps: Seq<AppView>,
    files: Seq<ArtFileView>,
    now: i128,
) -> Seq<PlannedView> {
    let planned = created_channels(apps, files, now, apps.len() as int).0;
    if existing.len() <= planned.len() {
        planned
    } else {
        planned + existing.skip(planned.len() as int).map_values(|c: ChannelView| kept(c))
    }
}

/// The channels of the streams that are playing when the mixer starts. These
/// streams may have been playing for a while, so there is no reliable timing
/// anchor for them. `existing` are the channels that there are already: those in
/// columns beyond the last stream stay.
pub fn create_mixer_channels(
    existing: Vec<MixerChannel>,
    applications: Vec<AppInfo>,
    ignored_apps: &[String],
    files: &[ArtFile],
    now: i128,
) -> (r: Vec<PlannedChannel>)
    ensures
        planned_views(r@) == channels_at_start(
            channel_views(existing@),
            active(app_views(applications@), texts(ignored_apps@)),
            file_views(files@),
            now,
        ),
{
    let apps = active_apps(&applications, ignored_apps);
    let counts = count_pids(&apps);
    let ghost all = app_views(apps@);
    let ghost disk = file_views(files@);
    let mut claimed = TextSet::new();
    let mut out: Vec<PlannedChannel> = Vec::new();
    let mut i: usize = 0;
    assert(planned_views(out@) =~= Seq::empty());
    while i < apps.len()
        invariant
            i <= apps.len(),
            out.len() == i,
            all == app_views(apps@),
            disk == file_views(files@),
            counts@ == pid_counts(all),
            (planned_views(out@), claimed@) == created_channels(all, disk, now, i as int),
        decreases apps.len() - i,
    {
        let ghost before = planned_views(out@);
        assert(all[i as int] == apps@[i as int]@);
        let next = create_channel(&apps[i], &counts, files, now, &mut claimed);
        out.push(next);
        assert(planned_views(out@) =~= before.push(next@));
        i += 1;
    }
    let ghost planned = planned_views(out@);
    let ghost old_views = channel_views(existing@);
    while i < existing.len()
        invariant
            planned.len() <= i,
            i <= existing.len() || i == planned.len(),
            old_views == channel_views(existing@),
            planned_views(out@) == (if old_views.len() <= planned.len() {
                planned
            } else {
                planned + old_views.subrange(planned.len() as int, i as int).map_values(
                    |c: ChannelView| kept(c),
                )
            }),
        decreases existing.len() - i,
    {
        let ghost before = planned_views(out@);
        let next = PlannedChannel { channel: existing[i].clone(), lookup: None, retry: None };
        out.push(next);
        proof {
            assert(next@ =~= kept(old_views[i as int]));
            assert(planned_views(out@) =~= before.push(next@));
            assert(planned_views(out@) =~= planned + old_views.subrange(
                planned.len() as int,
                i + 1,
            ).map_values(|c: ChannelView| kept(c)));
        }
        i += 1;
    }
    proof {
        if old_views.len() > planned.len() {
            assert(old_views.subrange(planned.len() as int, i as int) =~= old_views.skip(
                planned.len() as int,
            ));
        }
    }
    out
}

} // verus!
