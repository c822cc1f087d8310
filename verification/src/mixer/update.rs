//! How the channels follow the list of streams from one refresh to the next.

use super::art::{
    apply_art, art_decision, count_pids, pid_counts, resolve_art, with_art, with_claim,
    with_decision,
};
use super::channel::{
    channel_views, planned_views, ChannelView, IconQuery, MixerChannel, PlannedChannel,
    PlannedView,
};
use super::create::{
    active, active_apps, art_query, blank_channel, full_query, is_settled, look_up_all,
    look_up_art, open_channel,
};
use super::memory::{
    pruned, recover_identity_from_memory, recovered, remember_channel_art, remembered_art_for,
    restorable, with_channel, ArtMemory, ArtRecord,
};
use crate::audio::audio_system::{app_views, copy_bytes, copy_uids, AppInfo, AppView};
use crate::kick::{kick_slug, slug_in};
use crate::mpris::{
    art_view, clean_stream_title, cleaned_title, file_views, is_generic, is_generic_name,
    ArtFile, ArtFileView,
};
use crate::text::{lowercased, same_text, texts, to_lowercase, TextSet};
use std::collections::HashMap;
use vstd::prelude::*;
use vstd::string::*;

verus! {

/// What titles are compared by: cleaned, and in lower case.
pub open spec fn title_key(name: Seq<char>) -> Seq<char> {
    lowercased(cleaned_title(name))
}

/// How many streams of a process have a title.
pub open spec fn title_count(apps: Seq<AppView>, pid: u32, key: Seq<char>) -> nat
    decreases apps.len(),
{
    if apps.len() == 0 {
        0
    } else {
        let earlier = title_count(apps.drop_last(), pid, key);
        if apps.last().pid == Some(pid) && title_key(apps.last().app_name) == key {
            earlier + 1
        } else {
            earlier
        }
    }
}

/// Whether more than one stream of a process has a title: the tell-tale that a
/// browser tagged a freshly created stream with the active session's title
/// instead of its own tab's.
pub open spec fn collides(apps: Seq<AppView>, pid: Option<u32>, name: Seq<char>) -> bool {
    pid is Some && title_count(apps, pid->0, title_key(name)) > 1
}

/// Whether a stream's name duplicates that of another live sibling on its PID.
/// Such a name must not be trusted as identity.
pub fn title_collides(apps: &[AppInfo], pid: Option<u32>, name: &str) -> (r: bool)
    ensures
        r == collides(app_views(apps@), pid, name@),
{
    let ghost all = app_views(apps@);
    let owner: u32 = match pid {
        Some(p) => p,
        None => {
            return false;
        },
    };
    let key = to_lowercase(&clean_stream_title(name));
    let mut count: usize = 0;
    let mut i: usize = 0;
    assert(all.take(0) =~= Seq::empty());
    while i < apps.len()
        invariant
            i <= apps.len(),
            count <= i,
            all == app_views(apps@),
            key@ == title_key(name@),
            count == title_count(all.take(i as int), owner, key@),
        decreases apps.len() - i,
    {
        assert(all.take(i + 1).drop_last() =~= all.take(i as int));
        assert(all.take(i + 1).last() == apps@[i as int]@);
        if let Some(p) = apps[i].pid {
            if p == owner {
                let other = to_lowercase(&clean_stream_title(&apps[i].app_name));
                if same_text(&other, &key) {
                    count += 1;
                }
            }
        }
        i += 1;
    }
    assert(all.take(all.len() as int) =~= all);
    count > 1
}

/// The names of all streams, in lower case.
pub open spec fn live_names(apps: Seq<AppView>) -> Set<Seq<char>>
    decreases apps.len(),
{
    if apps.len() == 0 {
        Set::empty()
    } else {
        live_names(apps.drop_last()).insert(lowercased(apps.last().app_name))
    }
}

fn collect_live_names(apps: &[AppInfo]) -> (r: TextSet)
    ensures
        r@ == live_names(app_views(apps@)),
{
    let ghost all = app_views(apps@);
    let mut names = TextSet::new();
    let mut i: usize = 0;
    assert(all.take(0) =~= Seq::empty());
    while i < apps.len()
        invariant
            i <= apps.len(),
            all == app_views(apps@),
            names@ == live_names(all.take(i as int)),
        decreases apps.len() - i,
    {
        assert(all.take(i + 1).drop_last() =~= all.take(i as int));
        assert(all.take(i + 1).last() == apps@[i as int]@);
        names.insert(to_lowercase(&apps[i].app_name));
        i += 1;
    }
    assert(all.take(all.len() as int) =~= all);
    names
}

/// The channels that count as the previous ones: of two with one uid, the one in
/// the later column.
pub open spec fn current(channels: Seq<ChannelView>, n: int) -> Seq<ChannelView>
    decreases n,
{
    if n <= 0 {
        Seq::empty()
    } else if is_current(channels, n - 1) {
        current(channels, n - 1).push(channels[n - 1])
    } else {
        current(channels, n - 1)
    }
}

/// Whether no later channel has the uid of channel `k`.
pub open spec fn is_current(channels: Seq<ChannelView>, k: int) -> bool {
    forall|j: int| k < j < channels.len() ==> (#[trigger] channels[j]).uid != channels[k].uid
}

fn has_later_uid(channels: &[MixerChannel], k: usize) -> (r: bool)
    requires
        k < channels@.len(),
    ensures
        r == !is_current(channel_views(channels@), k as int),
{
    let ghost all = channel_views(channels@);
    let n: usize = channels.len();
    let mut j: usize = k + 1;
    while j < n
        invariant
            k < j <= n == channels@.len(),
            all == channel_views(channels@),
            forall|i: int| k < i < j ==> (#[trigger] all[i]).uid != all[k as int].uid,
        decreases n - j,
    {
        assert(all[j as int].uid == channels@[j as int].uid);
        assert(all[k as int].uid == channels@[k as int].uid);
        if channels[j].uid == channels[k].uid {
            return true;
        }
        j += 1;
    }
    false
}

fn current_channels(channels: &[MixerChannel]) -> (r: Vec<MixerChannel>)
    ensures
        channel_views(r@) == current(channel_views(channels@), channels@.len() as int),
{
    let ghost all = channel_views(channels@);
    let mut out: Vec<MixerChannel> = Vec::new();
    let mut i: usize = 0;
    assert(channel_views(out@) =~= Seq::empty());
    while i < channels.len()
        invariant
            i <= channels.len(),
            all == channel_views(channels@),
            channel_views(out@) == current(all, i as int),
        decreases channels.len() - i,
    {
        if !has_later_uid(channels, i) {
            let ghost before = channel_views(out@);
            let next = channels[i].clone();
            out.push(next);
            assert(channel_views(out@) =~= before.push(all[i as int]));
        }
        i += 1;
    }
    out
}

/// The channel with a uid, if there is one.
pub open spec fn channel_with_uid(channels: Seq<ChannelView>, uid: u32) -> Option<ChannelView>
    decreases channels.len(),
{
    if channels.len() == 0 {
        None
    } else if channels[0].uid == uid {
        Some(channels[0])
    } else {
        channel_with_uid(channels.drop_first(), uid)
    }
}

fn find_channel(channels: &[MixerChannel], uid: u32) -> (r: Option<&MixerChannel>)
    ensures
        match r {
            Some(ch) => channel_with_uid(channel_views(channels@), uid) == Some(ch@),
            None => channel_with_uid(channel_views(channels@), uid) is None,
        },
{
    let ghost all = channel_views(channels@);
    let mut i: usize = 0;
    assert(all.skip(0) =~= all);
    while i < channels.len()
        invariant
            i <= channels.len(),
            all == channel_views(channels@),
            channel_with_uid(all, uid) == channel_with_uid(all.skip(i as int), uid),
        decreases channels.len() - i,
    {
        assert(all.skip(i as int)[0] == channels@[i as int]@);
        if channels[i].uid == uid {
            return Some(&channels[i]);
        }
        assert(all.skip(i as int).drop_first() =~= all.skip(i + 1));
        i += 1;
    }
    None
}

/// A memory that has taken in the art of some channels.
pub open spec fn remembered(
    memory: Map<(u32, Seq<char>), ArtRecord>,
    channels: Seq<ChannelView>,
    now: i128,
) -> Map<(u32, Seq<char>), ArtRecord>
    decreases channels.len(),
{
    if channels.len() == 0 {
        memory
    } else {
        with_channel(remembered(memory, channels.drop_last(), now), channels.last(), now)
    }
}

/// Everything that decides on the channels of one refresh: the streams, the
/// channels that there were (no two with one uid), what is remembered, the art
/// files on disk, and the time.
pub struct Refresh {
    pub apps: Seq<AppView>,
    pub previous: Seq<ChannelView>,
    pub memory: Map<(u32, Seq<char>), ArtRecord>,
    pub files: Seq<ArtFileView>,
    pub now: i128,
}

/// The refresh that a list of streams brings about. Art that was not seen for too
/// long is forgotten, and that of every previous channel is remembered, also if
/// its stream has just disappeared.
pub open spec fn refresh_of(
    previous: Seq<ChannelView>,
    memory: Map<(u32, Seq<char>), ArtRecord>,
    apps: Seq<AppView>,
    ignored: Seq<Seq<char>>,
    files: Seq<ArtFileView>,
    now: i128,
) -> Refresh {
    let channels = current(previous, previous.len() as int);
    Refresh {
        apps: active(apps, ignored),
        previous: channels,
        memory: remembered(pruned(memory, now), channels, now),
        files,
        now,
    }
}

/// The paths that the first `n` streams hold from before.
pub open spec fn held_paths(r: Refresh, n: int) -> Set<Seq<char>>
    decreases n,
{
    if n <= 0 {
        Set::empty()
    } else {
        let earlier = held_paths(r, n - 1);
        match channel_with_uid(r.previous, r.apps[n - 1].uid) {
            Some(ch) => match ch.mpris_art_path {
                Some(path) => earlier.insert(path),
                None => earlier,
            },
            None => earlier,
        }
    }
}

/// Whether stream `i` is the first one with its uid.
pub open spec fn is_first_with_uid(apps: Seq<AppView>, i: int) -> bool {
    forall|j: int| 0 <= j < i ==> (#[trigger] apps[j]).uid != apps[i].uid
}

/// The channel that stream `i` continues, if there is one.
pub open spec fn predecessor(r: Refresh, i: int) -> Option<ChannelView> {
    if is_first_with_uid(r.apps, i) {
        channel_with_uid(r.previous, r.apps[i].uid)
    } else {
        None
    }
}

/// Whether a stream has changed its name for real. A name that collides with a
/// live sibling's is a wrong tag, not a change of content.
pub open spec fn has_shifted(r: Refresh, app: AppView, prev: ChannelView) -> bool {
    &&& !is_generic(app.app_name)
    &&& app.app_name != prev.app_name
    &&& !collides(r.apps, app.pid, app.app_name)
}

/// The claimed paths once a channel has given up its art.
pub open spec fn without_path(claimed: Set<Seq<char>>, path: Option<Seq<char>>) -> Set<Seq<char>> {
    match path {
        Some(p) => claimed.remove(p),
        None => claimed,
    }
}

/// The art remembered for an optional process and a name.
pub open spec fn remembered_for(
    r: Refresh,
    pid: Option<u32>,
    name: Seq<char>,
    claimed: Set<Seq<char>>,
) -> Option<(Seq<char>, Seq<u8>)> {
    match pid {
        Some(p) => restorable(r.memory, p, name, claimed),
        None => None,
    }
}

/// A channel whose stream has new content: it takes the new name, gives up its
/// art for what is remembered of the new name, and is open for a new decision if
/// that is nothing. Also the art, and the claimed paths afterwards.
pub open spec fn shifted(
    r: Refresh,
    app: AppView,
    prev: ChannelView,
    claimed: Set<Seq<char>>,
) -> (ChannelView, Option<(Seq<char>, Seq<u8>)>, Set<Seq<char>>) {
    let released = without_path(claimed, prev.mpris_art_path);
    let art = remembered_for(r, app.pid, app.app_name, released);
    let reset = ChannelView {
        locked: false,
        app_name: app.app_name,
        mpris_art_path: None,
        mpris_art_data: None,
        first_seen: Some(r.now),
        art_resolved: art is Some,
        ..prev
    };
    (
        match art {
            Some(a) => with_art(reset, a),
            None => reset,
        },
        art,
        with_claim(released, art),
    )
}

/// A channel with the live data of its stream.
pub open spec fn with_live_data(ch: ChannelView, app: AppView) -> ChannelView {
    ChannelView {
        header_id: None,
        upper_vol_btn_id: None,
        lower_vol_btn_id: None,
        dial_id: None,
        mute: app.mute,
        vol_percent: app.vol_percent,
        sink_name: app.sink_name,
        is_device: app.is_device,
        is_multi_sink_app: app.is_multi_sink_app,
        member_uids: app.member_uids,
        app_id: app.app_id,
        ..ch
    }
}

/// A channel after its art was looked after, the bytes of the art that it newly
/// shows, if any, and the claimed paths afterwards. A Kick stream never writes an
/// art file: it claims none, and shows its avatar once there is one.
pub open spec fn art_settled(
    r: Refresh,
    app: AppView,
    ch: ChannelView,
    claimed: Set<Seq<char>>,
) -> (ChannelView, Option<Seq<u8>>, Set<Seq<char>>) {
    if slug_in(app.app_name) is Some {
        if ch.mpris_art_data is None {
            (
                ChannelView { art_resolved: true, mpris_art_data: app.kick_art, ..ch },
                app.kick_art,
                claimed,
            )
        } else {
            (ChannelView { art_resolved: true, ..ch }, None, claimed)
        }
    } else {
        let decision = art_decision(ch, pid_counts(r.apps), r.files, r.now, claimed);
        (
            with_decision(ch, decision),
            match decision.claim {
                Some(art) => Some(art.1),
                None => None,
            },
            with_claim(claimed, decision.claim),
        )
    }
}

/// A channel after its name was looked after: unless it is locked, it takes the
/// stream's name, if that is a real one, and is locked if it is settled.
pub open spec fn name_settled(app: AppView, ch: ChannelView) -> ChannelView {
    if ch.locked {
        ch
    } else {
        let name = if is_generic(app.app_name) {
            ch.app_name
        } else {
            app.app_name
        };
        ChannelView {
            app_name: name,
            locked: is_settled(name, ch.art_resolved, app.kick_pending),
            ..ch
        }
    }
}

/// The channel of a stream that goes on, and the claimed paths after it. The icon
/// is looked up if the art or the name has changed, and while the channel has
/// only the default icon.
pub open spec fn continued(
    r: Refresh,
    app: AppView,
    prev: ChannelView,
    claimed: Set<Seq<char>>,
) -> (PlannedView, Set<Seq<char>>) {
    let (base, restored, held) = if has_shifted(r, app, prev) {
        shifted(r, app, prev, claimed)
    } else {
        (prev, None, claimed)
    };
    let (shown, art, after) = art_settled(r, app, with_live_data(base, app), held);
    (
        PlannedView {
            channel: name_settled(app, shown),
            lookup: if art is Some {
                Some(art_query(app, art->0))
            } else if restored is Some {
                Some(art_query(app, (restored->0).1))
            } else if has_shifted(r, app, prev) {
                Some(full_query(app, None))
            } else {
                None
            },
            retry: if slug_in(app.app_name) is Some {
                None
            } else {
                Some(full_query(app, shown.mpris_art_data))
            },
        },
        after,
    )
}

/// The name of a new stream. One that reports a placeholder, or a title that
/// collides with a live sibling's, takes the one identity of its process that is
/// remembered and not on screen.
pub open spec fn started_name(r: Refresh, app: AppView) -> Seq<char> {
    if is_generic(app.app_name) || collides(r.apps, app.pid, app.app_name) {
        match app.pid {
            Some(pid) => match recovered(r.memory, live_names(r.apps), pid) {
                Some(name) => name,
                None => app.app_name,
            },
            None => app.app_name,
        }
    } else {
        app.app_name
    }
}

/// The art that a new stream inherits from its predecessor under another uid.
pub open spec fn inherited(r: Refresh, app: AppView, claimed: Set<Seq<char>>) -> Option<
    (Seq<char>, Seq<u8>),
> {
    if is_generic(started_name(r, app)) {
        None
    } else {
        remembered_for(r, app.pid, started_name(r, app), claimed)
    }
}

/// The channel of a new stream, and the claimed paths after it.
pub open spec fn started(r: Refresh, app: AppView, claimed: Set<Seq<char>>) -> (
    PlannedView,
    Set<Seq<char>>,
) {
    let name = started_name(r, app);
    let art = inherited(r, app, claimed);
    let resolved = art is Some || app.pid is None;
    let blank = ChannelView {
        first_seen: if app.pid is Some {
            Some(r.now)
        } else {
            None
        },
        art_resolved: resolved,
        locked: is_settled(name, resolved, app.kick_pending),
        ..blank_channel(app, name)
    };
    (
        PlannedView {
            channel: match art {
                Some(a) => with_art(blank, a),
                None => blank,
            },
            lookup: Some(
                match art {
                    Some(a) => art_query(app, a.1),
                    None => full_query(app, app.kick_art),
                },
            ),
            retry: None,
        },
        with_claim(claimed, art),
    )
}

/// The channels of the first `n` streams, and the claimed paths after them.
pub open spec fn processed(r: Refresh, n: int) -> (Seq<PlannedView>, Set<Seq<char>>)
    decreases n,
{
    if n <= 0 {
        (Seq::empty(), held_paths(r, r.apps.len() as int))
    } else {
        let (planned, claimed) = processed(r, n - 1);
        let (next, after) = match predecessor(r, n - 1) {
            Some(prev) => continued(r, r.apps[n - 1], prev, claimed),
            None => started(r, r.apps[n - 1], claimed),
        };
        (planned.push(next), after)
    }
}

/// The channels that a refresh gives, in the order of the streams.
pub open spec fn refreshed(r: Refresh) -> Seq<PlannedView> {
    processed(r, r.apps.len() as int).0
}

/// The channels in a list of planned ones.
pub open spec fn channels_in(planned: Seq<PlannedView>) -> Seq<ChannelView> {
    planned.map_values(|p: PlannedView| p.channel)
}

/// What is remembered after a refresh: also the art of every channel that it
/// gave, as of now.
pub open spec fn memory_after(r: Refresh) -> Map<(u32, Seq<char>), ArtRecord> {
    remembered(r.memory, channels_in(refreshed(r)), r.now)
}

fn take_live_data(app: &AppInfo, channel: &mut MixerChannel)
    ensures
        final(channel)@ == with_live_data(old(channel)@, app@),
{
    let ghost expected = with_live_data(channel@, app@);
    channel.header_id = None;
    channel.upper_vol_btn_id = None;
    channel.lower_vol_btn_id = None;
    channel.dial_id = None;
    channel.mute = app.mute;
    channel.vol_percent = app.vol_percent;
    channel.sink_name = app.sink_name.clone();
    channel.is_device = app.is_device;
    channel.is_multi_sink_app = app.is_multi_sink_app;
    channel.member_uids = copy_uids(&app.member_uids);
    channel.app_id = app.app_id.clone();
    assert(channel@ =~= expected);
}

fn settle_name(app: &AppInfo, channel: &mut MixerChannel)
    ensures
        final(channel)@ == name_settled(app@, old(channel)@),
{
    let ghost expected = name_settled(app@, channel@);
    if !channel.locked {
        if !is_generic_name(&app.app_name) {
            channel.app_name = app.app_name.clone();
        }
        channel.locked = !is_generic_name(&channel.app_name) && channel.art_resolved
            && !app.kick_pending;
    }
    assert(channel@ =~= expected);
}

/// What the channel of one stream is decided from.
struct Scene<'a> {
    apps: &'a [AppInfo],
    previous: &'a [MixerChannel],
    memory: &'a ArtMemory,
    files: &'a [ArtFile],
    now: i128,
    counts: &'a HashMap<u32, usize>,
    live: &'a TextSet,
}

impl<'a> Scene<'a> {
    spec fn refresh(self) -> Refresh {
        Refresh {
            apps: app_views(self.apps@),
            previous: channel_views(self.previous@),
            memory: self.memory@,
            files: file_views(self.files@),
            now: self.now,
        }
    }

    spec fn is_consistent(self) -> bool {
        &&& self.counts@ == pid_counts(app_views(self.apps@))
        &&& self.live@ == live_names(app_views(self.apps@))
    }

    fn art_remembered(&self, pid: Option<u32>, name: &str, claimed: &TextSet) -> (r: Option<
        (String, Vec<u8>),
    >)
        ensures
            art_view(r) == remembered_for(self.refresh(), pid, name@, claimed@),
    {
        match pid {
            Some(p) => remembered_art_for(self.memory, p, name, claimed),
            None => None,
        }
    }

    fn shift_channel(&self, app: &AppInfo, prev: &mut MixerChannel, claimed: &mut TextSet) -> (r:
        bool)
        ensures
            ({
                let (channel, art, held) = shifted(
                    self.refresh(),
                    app@,
                    old(prev)@,
                    old(claimed)@,
                );
                &&& final(prev)@ == channel
                &&& final(claimed)@ == held
                &&& r == (art is Some)
            }),
    {
        let ghost expected = shifted(self.refresh(), app@, prev@, claimed@);
        if let Some(path) = &prev.mpris_art_path {
            claimed.remove(path);
        }
        prev.locked = false;
        prev.app_name = app.app_name.clone();
        prev.mpris_art_path = None;
        prev.mpris_art_data = None;
        // New content is a fresh stream as far as art goes: re-anchor the timing
        // and re-open the claim decision.
        prev.first_seen = Some(self.now);
        prev.art_resolved = false;
        match self.art_remembered(app.pid, &app.app_name, claimed) {
            Some((path, data)) => {
                apply_art(prev, path, data, claimed);
                prev.art_resolved = true;
                assert(prev@ =~= expected.0);
                true
            },
            None => {
                assert(prev@ =~= expected.0);
                false
            },
        }
    }

    fn settle_art(&self, app: &AppInfo, channel: &mut MixerChannel, claimed: &mut TextSet) -> (r:
        bool)
        requires
            self.is_consistent(),
        ensures
            ({
                let (shown, art, after) = art_settled(
                    self.refresh(),
                    app@,
                    old(channel)@,
                    old(claimed)@,
                );
                &&& final(channel)@ == shown
                &&& final(claimed)@ == after
                &&& r == (art is Some)
                &&& r ==> shown.mpris_art_data == art
            }),
    {
        let ghost expected = art_settled(self.refresh(), app@, channel@, claimed@);
        if kick_slug(&app.app_name).is_some() {
            channel.art_resolved = true;
            let avatar = channel.mpris_art_data.is_none() && app.kick_art.is_some();
            if avatar {
                channel.mpris_art_data = copy_bytes(&app.kick_art);
            }
            assert(channel@ =~= expected.0);
            avatar
        } else {
            resolve_art(channel, self.files, self.now, self.counts, claimed)
        }
    }

    fn continue_channel(&self, app: &AppInfo, prev: MixerChannel, claimed: &mut TextSet) -> (r:
        PlannedChannel)
        requires
            self.is_consistent(),
        ensures
            (r@, final(claimed)@) == continued(self.refresh(), app@, prev@, old(claimed)@),
    {
        let ghost refresh = self.refresh();
        let ghost expected = continued(refresh, app@, prev@, claimed@);
        let mut channel = prev;
        let mut lookup: Option<IconQuery> = None;
        if !is_generic_name(&app.app_name) && !same_text(&app.app_name, &channel.app_name)
            && !title_collides(self.apps, app.pid, &app.app_name) {
            let restored = self.shift_channel(app, &mut channel, claimed);
            lookup = Some(
                if restored {
                    look_up_art(app, &channel.mpris_art_data)
                } else {
                    look_up_all(app, &None)
                },
            );
        }
        take_live_data(app, &mut channel);
        if self.settle_art(app, &mut channel, claimed) {
            lookup = Some(look_up_art(app, &channel.mpris_art_data));
        }
        // A window that maps late must still be able to upgrade the icon, so a
        // channel on the default icon looks again at every refresh.
        let retry: Option<IconQuery> = if kick_slug(&app.app_name).is_some() {
            None
        } else {
            Some(look_up_all(app, &channel.mpris_art_data))
        };
        settle_name(app, &mut channel);
        let r = PlannedChannel { channel, lookup, retry };
        assert(r@ =~= expected.0);
        r
    }

    fn start_channel(&self, app: &AppInfo, claimed: &mut TextSet) -> (r: PlannedChannel)
        requires
            self.is_consistent(),
        ensures
            (r@, final(claimed)@) == started(self.refresh(), app@, old(claimed)@),
    {
        let ghost refresh = self.refresh();
        let ghost expected = started(refresh, app@, claimed@);
        let mut name = app.app_name.clone();
        if is_generic_name(&app.app_name) || title_collides(self.apps, app.pid, &app.app_name) {
            if let Some(pid) = app.pid {
                if let Some(known) = recover_identity_from_memory(self.memory, pid, self.live) {
                    name = known;
                }
            }
        }
        assert(name@ == started_name(refresh, app@));
        let good_name = !is_generic_name(&name);
        let art: Option<(String, Vec<u8>)> = if good_name {
            self.art_remembered(app.pid, &name, claimed)
        } else {
            None
        };
        assert(art_view(art) == inherited(refresh, app@, claimed@));
        let mut channel = open_channel(app, name);
        channel.art_resolved = art.is_some() || app.pid.is_none();
        channel.first_seen = if app.pid.is_some() {
            Some(self.now)
        } else {
            None
        };
        channel.locked = good_name && channel.art_resolved && !app.kick_pending;
        let lookup = match art {
            Some((path, data)) => {
                apply_art(&mut channel, path, data, claimed);
                look_up_art(app, &channel.mpris_art_data)
            },
            None => look_up_all(app, &app.kick_art),
        };
        let r = PlannedChannel { channel, lookup: Some(lookup), retry: None };
        assert(r@.channel =~= expected.0.channel);
        assert(r@ =~= expected.0);
        r
    }
}

fn remember_channels(memory: &mut ArtMemory, channels: &[MixerChannel], now: i128)
    ensures
        final(memory)@ == remembered(old(memory)@, channel_views(channels@), now),
{
    let ghost all = channel_views(channels@);
    let ghost before = memory@;
    let mut i: usize = 0;
    assert(all.take(0) =~= Seq::empty());
    while i < channels.len()
        invariant
            i <= channels.len(),
            all == channel_views(channels@),
            memory@ == remembered(before, all.take(i as int), now),
        decreases channels.len() - i,
    {
        assert(all.take(i + 1).drop_last() =~= all.take(i as int));
        assert(all.take(i + 1).last() == channels@[i as int]@);
        remember_channel_art(memory, &channels[i], now);
        i += 1;
    }
    assert(all.take(all.len() as int) =~= all);
}

fn remember_planned(memory: &mut ArtMemory, planned: &[PlannedChannel], now: i128)
    ensures
        final(memory)@ == remembered(old(memory)@, channels_in(planned_views(planned@)), now),
{
    let ghost all = channels_in(planned_views(planned@));
    let ghost before = memory@;
    let mut i: usize = 0;
    assert(all.take(0) =~= Seq::empty());
    while i < planned.len()
        invariant
            i <= planned.len(),
            all == channels_in(planned_views(planned@)),
            memory@ == remembered(before, all.take(i as int), now),
        decreases planned.len() - i,
    {
        assert(all.take(i + 1).drop_last() =~= all.take(i as int));
        assert(all.take(i + 1).last() == planned@[i as int]@.channel);
        remember_channel_art(memory, &planned[i].channel, now);
        i += 1;
    }
    assert(all.take(all.len() as int) =~= all);
}

impl<'a> Scene<'a> {
    fn collect_held_paths(&self) -> (r: TextSet)
        ensures
            r@ == held_paths(self.refresh(), self.apps@.len() as int),
    {
        let ghost refresh = self.refresh();
        let mut claimed = TextSet::new();
        let mut i: usize = 0;
        while i < self.apps.len()
            invariant
                i <= self.apps.len(),
                refresh == self.refresh(),
                claimed@ == held_paths(refresh, i as int),
            decreases self.apps.len() - i,
        {
            assert(refresh.apps[i as int] == self.apps@[i as int]@);
            if let Some(ch) = find_channel(self.previous, self.apps[i].uid) {
                if let Some(path) = &ch.mpris_art_path {
                    claimed.insert(path.clone());
                }
            }
            i += 1;
        }
        claimed
    }

    fn is_first(&self, i: usize) -> (r: bool)
        requires
            i < self.apps@.len(),
        ensures
            r == is_first_with_uid(self.refresh().apps, i as int),
    {
        let ghost all = self.refresh().apps;
        let n: usize = self.apps.len();
        let mut j: usize = 0;
        while j < i
            invariant
                j <= i < n == self.apps@.len(),
                all == app_views(self.apps@),
                forall|k: int| 0 <= k < j ==> (#[trigger] all[k]).uid != all[i as int].uid,
            decreases i - j,
        {
            assert(all[j as int].uid == self.apps@[j as int].uid);
            assert(all[i as int].uid == self.apps@[i as int].uid);
            if self.apps[j].uid == self.apps[i].uid {
                return false;
            }
            j += 1;
        }
        true
    }

    fn process(&self) -> (r: Vec<PlannedChannel>)
        requires
            self.is_consistent(),
        ensures
            planned_views(r@) == refreshed(self.refresh()),
    {
        let ghost refresh = self.refresh();
        // Claiming up front what the streams hold from before guarantees that a
        // slot without art cannot claim a path that another active slot owns,
        // whatever the order of the streams.
        let mut claimed = self.collect_held_paths();
        let mut out: Vec<PlannedChannel> = Vec::new();
        let mut i: usize = 0;
        assert(planned_views(out@) =~= Seq::empty());
        while i < self.apps.len()
            invariant
                i <= self.apps.len(),
                self.is_consistent(),
                refresh == self.refresh(),
                (planned_views(out@), claimed@) == processed(refresh, i as int),
            decreases self.apps.len() - i,
        {
            let app = &self.apps[i];
            let ghost before = planned_views(out@);
            assert(refresh.apps[i as int] == app@);
            let prev: Option<&MixerChannel> = if self.is_first(i) {
                find_channel(self.previous, app.uid)
            } else {
                None
            };
            let next = match prev {
                Some(ch) => self.continue_channel(app, ch.clone(), &mut claimed),
                None => self.start_channel(app, &mut claimed),
            };
            out.push(next);
            assert(planned_views(out@) =~= before.push(next@));
            i += 1;
        }
        out
    }
}

/// The channels after a refresh of the list of streams: one for each stream that
/// is not on the exclude list, in the order of the list.
///
/// A stream is known by its uid. One that goes on keeps its channel with its name,
/// icon and art, and only its live data change, until its name shifts to other
/// content. A new stream takes over the art that is remembered of its identity,
/// and otherwise waits for a later refresh to claim art. `memory` is brought up to
/// date, and `files` are the art files on disk.
pub fn update_mixer_channels(
    previous: &[MixerChannel],
    memory: &mut ArtMemory,
    applications: Vec<AppInfo>,
    ignored_apps: &[String],
    files: &[ArtFile],
    now: i128,
) -> (r: Vec<PlannedChannel>)
    ensures
        ({
            let refresh = refresh_of(
                channel_views(previous@),
                old(memory)@,
                app_views(applications@),
                texts(ignored_apps@),
                file_views(files@),
                now,
            );
            &&& planned_views(r@) == refreshed(refresh)
            &&& final(memory)@ == memory_after(refresh)
        }),
{
    let ghost refresh = refresh_of(
        channel_views(previous@),
        memory@,
        app_views(applications@),
        texts(ignored_apps@),
        file_views(files@),
        now,
    );
    let apps = active_apps(&applications, ignored_apps);
    let channels = current_channels(previous);
    memory.prune(now);
    remember_channels(memory, &channels, now);
    let counts = count_pids(&apps);
    let live = collect_live_names(&apps);
    let planned = {
        let scene = Scene {
            apps: &apps,
            previous: &channels,
            memory: &*memory,
            files,
            now,
            counts: &counts,
            live: &live,
        };
        assert(scene.refresh() == refresh);
        scene.process()
    };
    remember_planned(memory, &planned, now);
    planned
}

} // verus!
