//! What holds of the channels whatever streams come and go.

use super::art::pid_counts;
use super::channel::{ChannelView, PlannedView};
use super::create::{active, created, created_channels, is_listed};
use super::memory::{is_dormant, is_fresh, pruned, recovered, ArtRecord, ART_MEMORY_TTL};
use super::update::{
    art_settled, channel_with_uid, channels_in, collides, continued, current, has_shifted,
    held_paths, memory_after, predecessor, processed, refresh_of, refreshed, remembered,
    remembered_for, shifted, started, with_live_data, without_path, Refresh,
};
use crate::audio::audio_system::AppView;
use crate::kick::slug_in;
use crate::mpris::{is_generic, law_claimed_art_is_never_taken, ArtFileView};
use crate::text::lowercased;
use vstd::prelude::*;

verus! {

/// No entry of the exclude list is active, and every other one is.
pub proof fn law_ignored_apps_never_appear(apps: Seq<AppView>, ignored: Seq<Seq<char>>, i: int)
    ensures
        0 <= i < active(apps, ignored).len() ==> !is_listed(active(apps, ignored)[i], ignored)
            && apps.contains(active(apps, ignored)[i]),
        0 <= i < apps.len() && !is_listed(apps[i], ignored) ==> active(apps, ignored).contains(
            apps[i],
        ),
    decreases apps.len(),
{
    if apps.len() > 0 {
        let rest = apps.drop_last();
        let earlier = active(rest, ignored);
        law_ignored_apps_never_appear(rest, ignored, i);
        if 0 <= i < earlier.len() {
            let k = choose|k: int| 0 <= k < rest.len() && rest[k] == earlier[i];
            assert(apps[k] == earlier[i]);
        }
        if !is_listed(apps.last(), ignored) {
            assert(active(apps, ignored).last() == apps.last());
            assert(apps[apps.len() - 1] == apps.last());
            if 0 <= i < rest.len() && !is_listed(apps[i], ignored) {
                let k = choose|k: int| 0 <= k < earlier.len() && earlier[k] == rest[i];
                assert(active(apps, ignored)[k] == apps[i]);
            }
        }
    }
}

/// The channel that stream `i` gets, and the claimed paths after it.
pub open spec fn step(r: Refresh, i: int) -> (PlannedView, Set<Seq<char>>) {
    match predecessor(r, i) {
        Some(prev) => continued(r, r.apps[i], prev, processed(r, i).1),
        None => started(r, r.apps[i], processed(r, i).1),
    }
}

proof fn lemma_processed(r: Refresh, n: int)
    requires
        0 <= n <= r.apps.len(),
    ensures
        processed(r, n).0.len() == n,
        forall|i: int| 0 <= i < n ==> #[trigger] processed(r, n).0[i] == step(r, i).0,
    decreases n,
{
    if n > 0 {
        lemma_processed(r, n - 1);
    }
}

/// A refresh gives each stream the channel that it continues or starts, with the
/// paths that are claimed once the streams before it have theirs.
pub proof fn law_streams_continue_or_start(r: Refresh, i: int)
    requires
        0 <= i < r.apps.len(),
    ensures
        refreshed(r)[i] == step(r, i).0,
        processed(r, i + 1).1 == step(r, i).1,
{
    lemma_processed(r, r.apps.len() as int);
}

proof fn lemma_channel_with_uid(channels: Seq<ChannelView>, uid: u32)
    ensures
        channel_with_uid(channels, uid) matches Some(ch) ==> ch.uid == uid && channels.contains(ch),
    decreases channels.len(),
{
    if channels.len() > 0 && channels[0].uid != uid {
        let rest = channels.drop_first();
        lemma_channel_with_uid(rest, uid);
        if let Some(ch) = channel_with_uid(rest, uid) {
            let k = choose|k: int| 0 <= k < rest.len() && rest[k] == ch;
            assert(channels[k + 1] == ch);
        }
    }
}

/// A channel shows the live data of its stream, and is in no place yet.
pub open spec fn shows(ch: ChannelView, app: AppView) -> bool {
    &&& ch.uid == app.uid
    &&& ch.member_uids == app.member_uids
    &&& ch.app_id == app.app_id
    &&& ch.sink_name == app.sink_name
    &&& ch.mute == app.mute
    &&& ch.vol_percent == app.vol_percent
    &&& ch.is_device == app.is_device
    &&& ch.is_multi_sink_app == app.is_multi_sink_app
    &&& ch.header_id is None
    &&& ch.upper_vol_btn_id is None
    &&& ch.lower_vol_btn_id is None
    &&& ch.dial_id is None
}

/// After a refresh there is one channel for each active stream, in the order of
/// the streams, and each one shows the live data of its stream.
pub proof fn law_channels_follow_the_streams(r: Refresh)
    ensures
        refreshed(r).len() == r.apps.len(),
        forall|i: int|
            0 <= i < r.apps.len() ==> shows((#[trigger] refreshed(r)[i]).channel, r.apps[i]),
{
    let n = r.apps.len() as int;
    lemma_processed(r, n);
    assert forall|i: int| 0 <= i < n implies shows(
        (#[trigger] refreshed(r)[i]).channel,
        r.apps[i],
    ) by {
        lemma_channel_with_uid(r.previous, r.apps[i].uid);
        assert(refreshed(r)[i] == step(r, i).0);
    }
}

/// Whether no two channels hold one art file.
pub open spec fn art_is_distinct(channels: Seq<ChannelView>) -> bool {
    forall|i: int, j: int|
        #![trigger channels[i], channels[j]]
        0 <= i < j < channels.len() && channels[i].mpris_art_path is Some
            ==> channels[i].mpris_art_path != channels[j].mpris_art_path
}

proof fn lemma_art_settled_paths(
    r: Refresh,
    app: AppView,
    ch: ChannelView,
    claimed: Set<Seq<char>>,
)
    ensures
        ({
            let (shown, _, after) = art_settled(r, app, ch, claimed);
            &&& forall|t: Seq<char>| claimed.contains(t) ==> #[trigger] after.contains(t)
            &&& shown.mpris_art_path == ch.mpris_art_path || (shown.mpris_art_path matches Some(p)
                && !claimed.contains(p) && after.contains(p))
        }),
{
    if ch.pid is Some {
        law_claimed_art_is_never_taken(
            r.files,
            ch.pid->0,
            ch.first_seen,
            super::art::sharing(pid_counts(r.apps), ch.pid->0),
            claimed,
        );
    }
}

proof fn lemma_continued_paths(
    r: Refresh,
    app: AppView,
    prev: ChannelView,
    claimed: Set<Seq<char>>,
)
    requires
        prev.mpris_art_path matches Some(p) ==> claimed.contains(p),
    ensures
        ({
            let (planned, after) = continued(r, app, prev, claimed);
            &&& forall|t: Seq<char>|
                claimed.contains(t) && prev.mpris_art_path != Some(t) ==> #[trigger] after.contains(t)
            &&& planned.channel.mpris_art_path matches Some(p) ==> after.contains(p) && (
            prev.mpris_art_path == Some(p) || !claimed.contains(p))
        }),
{
    let (base, _, held) = if has_shifted(r, app, prev) {
        shifted(r, app, prev, claimed)
    } else {
        (prev, None, claimed)
    };
    lemma_art_settled_paths(r, app, with_live_data(base, app), held);
}

proof fn lemma_held_paths(r: Refresh, n: int, j: int)
    requires
        0 <= j < n <= r.apps.len(),
        channel_with_uid(r.previous, r.apps[j].uid) is Some,
        channel_with_uid(r.previous, r.apps[j].uid)->0.mpris_art_path is Some,
    ensures
        held_paths(r, n).contains(
            channel_with_uid(r.previous, r.apps[j].uid)->0.mpris_art_path->0,
        ),
    decreases n,
{
    if j < n - 1 {
        lemma_held_paths(r, n - 1, j);
    }
}

/// Two streams that continue a channel each, and come one after the other, hold
/// different files from before.
proof fn lemma_predecessors_hold_different_art(r: Refresh, i: int, j: int)
    requires
        art_is_distinct(r.previous),
        0 <= i < j < r.apps.len(),
        predecessor(r, i) is Some,
        predecessor(r, j) is Some,
        predecessor(r, i)->0.mpris_art_path is Some,
    ensures
        predecessor(r, i)->0.mpris_art_path != predecessor(r, j)->0.mpris_art_path,
{
    lemma_channel_with_uid(r.previous, r.apps[i].uid);
    lemma_channel_with_uid(r.previous, r.apps[j].uid);
    let a = predecessor(r, i)->0;
    let b = predecessor(r, j)->0;
    let k = choose|k: int| 0 <= k < r.previous.len() && r.previous[k] == a;
    let l = choose|l: int| 0 <= l < r.previous.len() && r.previous[l] == b;
    assert(r.apps[i].uid != r.apps[j].uid);
    assert(r.previous[k].uid != r.previous[l].uid);
}

/// What holds while the streams are gone through: the channels so far hold
/// different files, all of them claimed; and what a later stream holds from
/// before is claimed and held by none of them.
spec fn claims_are_kept(r: Refresh, n: int) -> bool {
    let (planned, claimed) = processed(r, n);
    &&& art_is_distinct(channels_in(planned))
    &&& forall|i: int|
        0 <= i < n ==> ((#[trigger] planned[i]).channel.mpris_art_path matches Some(p)
            ==> claimed.contains(p))
    &&& forall|j: int|
        n <= j < r.apps.len() ==> (#[trigger] predecessor(r, j) matches Some(ch) ==> (
        ch.mpris_art_path matches Some(p) ==> claimed.contains(p) && forall|i: int|
            0 <= i < n ==> (#[trigger] planned[i]).channel.mpris_art_path != Some(p)))
}

proof fn lemma_claims_are_kept(r: Refresh, n: int)
    requires
        art_is_distinct(r.previous),
        0 <= n <= r.apps.len(),
    ensures
        claims_are_kept(r, n),
    decreases n,
{
    let (planned, claimed) = processed(r, n);
    if n == 0 {
        assert forall|j: int|
            0 <= j < r.apps.len() && #[trigger] predecessor(r, j) is Some && predecessor(
                r,
                j,
            )->0.mpris_art_path is Some implies claimed.contains(
            predecessor(r, j)->0.mpris_art_path->0,
        ) by {
            lemma_held_paths(r, r.apps.len() as int, j);
        }
    } else {
        let m = n - 1;
        let (before, held) = processed(r, m);
        lemma_claims_are_kept(r, m);
        lemma_processed(r, m);
        lemma_processed(r, n);
        let own = match predecessor(r, m) {
            Some(prev) => prev.mpris_art_path,
            None => None,
        };
        if let Some(prev) = predecessor(r, m) {
            lemma_continued_paths(r, r.apps[m], prev, held);
        }
        let next = planned[m].channel.mpris_art_path;
        assert(forall|t: Seq<char>| held.contains(t) && own != Some(t) ==> claimed.contains(t));
        assert(next matches Some(p) ==> claimed.contains(p) && (own == Some(p) || !held.contains(
            p,
        )));
        assert forall|i: int| 0 <= i < m implies #[trigger] planned[i] == before[i] by {}
        assert forall|i: int| 0 <= i < m && (#[trigger] before[i]).channel.mpris_art_path is Some implies {
            let p = before[i].channel.mpris_art_path->0;
            held.contains(p) && own != Some(p)
        } by {
            assert(own is Some ==> predecessor(r, m) is Some);
        }
        let channels = channels_in(planned);
        assert(art_is_distinct(channels)) by {
            let earlier = channels_in(before);
            assert forall|i: int, j: int|
                #![trigger channels[i], channels[j]]
                0 <= i < j < channels.len() && channels[i].mpris_art_path is Some implies channels[i].mpris_art_path
                != channels[j].mpris_art_path by {
                assert(planned[i] == before[i]);
                if j < m {
                    assert(planned[j] == before[j]);
                    assert(earlier[i] == channels[i] && earlier[j] == channels[j]);
                }
            }
        }
        assert forall|i: int| 0 <= i < n && (#[trigger] planned[i]).channel.mpris_art_path is Some implies claimed.contains(
            planned[i].channel.mpris_art_path->0,
        ) by {
            if i < m {
                assert(planned[i] == before[i]);
            }
        }
        assert forall|j: int|
            n <= j < r.apps.len() && #[trigger] predecessor(r, j) is Some && predecessor(
                r,
                j,
            )->0.mpris_art_path is Some implies {
            let p = predecessor(r, j)->0.mpris_art_path->0;
            claimed.contains(p) && forall|i: int|
                0 <= i < n ==> (#[trigger] planned[i]).channel.mpris_art_path != Some(p)
        } by {
            let p = predecessor(r, j)->0.mpris_art_path->0;
            assert(held.contains(p));
            if own is Some {
                lemma_predecessors_hold_different_art(r, m, j);
            }
            assert forall|i: int| 0 <= i < n implies (#[trigger] planned[i]).channel.mpris_art_path
                != Some(p) by {
                if i < m {
                    assert(planned[i] == before[i]);
                }
            }
        }
    }
}

proof fn lemma_current(channels: Seq<ChannelView>, n: int)
    requires
        0 <= n <= channels.len(),
        art_is_distinct(channels),
    ensures
        art_is_distinct(current(channels, n)),
        forall|i: int|
            0 <= i < current(channels, n).len() ==> exists|k: int|
                0 <= k < n && #[trigger] current(channels, n)[i] == #[trigger] channels[k],
    decreases n,
{
    if n > 0 {
        lemma_current(channels, n - 1);
        let earlier = current(channels, n - 1);
        let all = current(channels, n);
        assert forall|i: int| 0 <= i < all.len() implies exists|k: int|
            0 <= k < n && #[trigger] all[i] == #[trigger] channels[k] by {
            if i < earlier.len() {
                let k = choose|k: int| 0 <= k < n - 1 && earlier[i] == #[trigger] channels[k];
                assert(all[i] == channels[k]);
            } else {
                assert(all[i] == channels[n - 1]);
            }
        }
        assert forall|i: int, j: int|
            #![trigger all[i], all[j]]
            0 <= i < j < all.len() && all[i].mpris_art_path is Some implies all[i].mpris_art_path
            != all[j].mpris_art_path by {
            assert(all[i] == earlier[i]);
            if j < earlier.len() {
                assert(all[j] == earlier[j]);
            } else {
                let k = choose|k: int| 0 <= k < n - 1 && earlier[i] == #[trigger] channels[k];
                assert(channels[k].mpris_art_path != channels[n - 1].mpris_art_path);
            }
        }
    }
}

/// A refresh never lets two channels hold one art file, if no two did before:
/// a slot without art cannot take a file that another active slot owns, whatever
/// the order of the streams.
pub proof fn law_channels_never_share_art(
    previous: Seq<ChannelView>,
    memory: Map<(u32, Seq<char>), ArtRecord>,
    apps: Seq<AppView>,
    ignored: Seq<Seq<char>>,
    files: Seq<ArtFileView>,
    now: i128,
)
    requires
        art_is_distinct(previous),
    ensures
        art_is_distinct(
            channels_in(refreshed(refresh_of(previous, memory, apps, ignored, files, now))),
        ),
{
    let r = refresh_of(previous, memory, apps, ignored, files, now);
    lemma_current(previous, previous.len() as int);
    lemma_claims_are_kept(r, r.apps.len() as int);
}

/// Nor do two channels share a file when the mixer starts.
pub proof fn law_first_channels_never_share_art(
    apps: Seq<AppView>,
    files: Seq<ArtFileView>,
    now: i128,
    n: int,
)
    requires
        0 <= n <= apps.len(),
    ensures
        created_channels(apps, files, now, n).0.len() == n,
        art_is_distinct(channels_in(created_channels(apps, files, now, n).0)),
        forall|i: int|
            0 <= i < n ==> ((#[trigger] created_channels(
                apps,
                files,
                now,
                n,
            ).0[i]).channel.mpris_art_path matches Some(p) ==> created_channels(
                apps,
                files,
                now,
                n,
            ).1.contains(p)),
    decreases n,
{
    if n > 0 {
        let (before, held) = created_channels(apps, files, now, n - 1);
        let (planned, claimed) = created_channels(apps, files, now, n);
        law_first_channels_never_share_art(apps, files, now, n - 1);
        let app = apps[n - 1];
        if app.pid is Some {
            law_claimed_art_is_never_taken(
                files,
                app.pid->0,
                None,
                super::art::sharing(pid_counts(apps), app.pid->0),
                held,
            );
        }
        assert forall|i: int| 0 <= i < n - 1 implies #[trigger] planned[i] == before[i] by {}
        let channels = channels_in(planned);
        let earlier = channels_in(before);
        assert forall|i: int, j: int|
            #![trigger channels[i], channels[j]]
            0 <= i < j < channels.len() && channels[i].mpris_art_path is Some implies channels[i].mpris_art_path
            != channels[j].mpris_art_path by {
            assert(planned[i] == before[i]);
            if j < n - 1 {
                assert(planned[j] == before[j]);
                assert(earlier[i] == channels[i] && earlier[j] == channels[j]);
            }
        }
    }
}

/// Whether a channel is locked only with a real name and a final decision on its
/// art.
pub open spec fn is_sound(ch: ChannelView) -> bool {
    ch.locked ==> ch.art_resolved && !is_generic(ch.app_name)
}

/// A channel is never locked with a placeholder for a name or with its art
/// undecided.
pub proof fn law_locked_channels_are_settled(r: Refresh)
    requires
        forall|k: int| 0 <= k < r.previous.len() ==> is_sound(#[trigger] r.previous[k]),
    ensures
        forall|i: int| 0 <= i < r.apps.len() ==> is_sound((#[trigger] refreshed(r)[i]).channel),
{
    let n = r.apps.len() as int;
    lemma_processed(r, n);
    assert forall|i: int| 0 <= i < n implies is_sound((#[trigger] refreshed(r)[i]).channel) by {
        assert(refreshed(r)[i] == step(r, i).0);
        lemma_channel_with_uid(r.previous, r.apps[i].uid);
        if let Some(prev) = predecessor(r, i) {
            let k = choose|k: int| 0 <= k < r.previous.len() && r.previous[k] == prev;
            assert(is_sound(r.previous[k]));
        }
    }
}

/// Nor when the mixer starts.
pub proof fn law_first_channels_are_settled(
    app: AppView,
    counts: Map<u32, usize>,
    files: Seq<ArtFileView>,
    now: i128,
    claimed: Set<Seq<char>>,
)
    ensures
        is_sound(created(app, counts, files, now, claimed).0.channel),
{
}

/// A locked channel keeps its name, its lock and its art while the name of its
/// stream does not shift: only live data change, except that a Kick channel
/// without art shows its avatar once there is one. Unless that happens no lookup
/// is needed, but for an icon that is still the default one.
pub proof fn law_locked_channel_keeps_name_and_art(
    r: Refresh,
    app: AppView,
    prev: ChannelView,
    claimed: Set<Seq<char>>,
)
    requires
        is_sound(prev),
        prev.locked,
        !has_shifted(r, app, prev),
    ensures
        ({
            let (planned, after) = continued(r, app, prev, claimed);
            let avatar = slug_in(app.app_name) is Some && prev.mpris_art_data is None;
            &&& planned.channel == (ChannelView {
                mpris_art_data: if avatar {
                    app.kick_art
                } else {
                    prev.mpris_art_data
                },
                ..with_live_data(prev, app)
            })
            &&& after == claimed
            &&& planned.lookup is Some ==> avatar && app.kick_art is Some
            &&& !prev.uses_default_icon && !avatar ==> planned.next_query() is None
        }),
{
    let planned = continued(r, app, prev, claimed).0;
    let avatar = slug_in(app.app_name) is Some && prev.mpris_art_data is None;
    assert(planned.channel =~= ChannelView {
        mpris_art_data: if avatar {
            app.kick_art
        } else {
            prev.mpris_art_data
        },
        ..with_live_data(prev, app)
    });
}

/// A title that collides with that of a live sibling, and a placeholder, never
/// count as a change of name: they leave a locked channel as it is.
pub proof fn law_wrong_tags_are_no_shift(r: Refresh, app: AppView, prev: ChannelView)
    requires
        is_generic(app.app_name) || collides(r.apps, app.pid, app.app_name),
    ensures
        !has_shifted(r, app, prev),
{
}

/// When the name of a stream shifts, its channel takes the new name and drops its
/// art: it has what is remembered of the new name, or else none but an avatar.
pub proof fn law_shift_drops_stale_art(
    r: Refresh,
    app: AppView,
    prev: ChannelView,
    claimed: Set<Seq<char>>,
)
    requires
        has_shifted(r, app, prev),
    ensures
        ({
            let ch = continued(r, app, prev, claimed).0.channel;
            let released = without_path(claimed, prev.mpris_art_path);
            &&& ch.app_name == app.app_name
            &&& ch.first_seen == Some(r.now)
            &&& match remembered_for(r, app.pid, app.app_name, released) {
                Some(art) => ch.mpris_art_path == Some(art.0) && ch.mpris_art_data == Some(art.1)
                    && ch.art_resolved,
                None => ch.mpris_art_path is None && (ch.mpris_art_data is None || slug_in(
                    app.app_name,
                ) is Some && ch.mpris_art_data == app.kick_art),
            }
        }),
{
}

/// A Kick stream never claims an art file, so a sibling tab's art is not
/// mis-attributed to it.
pub proof fn law_kick_streams_claim_no_file(
    r: Refresh,
    app: AppView,
    prev: ChannelView,
    claimed: Set<Seq<char>>,
)
    requires
        slug_in(app.app_name) is Some,
    ensures
        created(app, pid_counts(r.apps), r.files, r.now, claimed).0.channel.mpris_art_path is None,
        !has_shifted(r, app, prev) ==> {
            let (planned, after) = continued(r, app, prev, claimed);
            planned.channel.mpris_art_path == prev.mpris_art_path && after == claimed
        },
{
}

/// The art of a channel under the identity that it is remembered by.
pub open spec fn has_identity(ch: ChannelView, pid: u32, name: Seq<char>) -> bool {
    &&& ch.pid == Some(pid)
    &&& ch.app_name == name
    &&& !is_generic(name)
    &&& ch.mpris_art_path is Some
    &&& ch.mpris_art_data is Some
}

proof fn lemma_remembered(
    memory: Map<(u32, Seq<char>), ArtRecord>,
    channels: Seq<ChannelView>,
    now: i128,
    k: int,
    pid: u32,
    name: Seq<char>,
)
    requires
        0 <= k < channels.len(),
        has_identity(channels[k], pid, name),
        forall|j: int|
            k < j < channels.len() ==> !has_identity(#[trigger] channels[j], pid, name),
    ensures
        remembered(memory, channels, now).contains_key((pid, name)),
        remembered(memory, channels, now)[(pid, name)] == (ArtRecord {
            path: channels[k].mpris_art_path->0,
            data: channels[k].mpris_art_data->0,
            last_seen: now,
        }),
    decreases channels.len(),
{
    let rest = channels.drop_last();
    if k < channels.len() - 1 {
        assert forall|j: int| k < j < rest.len() implies !has_identity(
            #[trigger] rest[j],
            pid,
            name,
        ) by {
            assert(rest[j] == channels[j]);
        }
        lemma_remembered(memory, rest, now, k, pid, name);
        assert(!has_identity(channels[channels.len() - 1], pid, name));
    } else {
        assert(channels.last() == channels[k]);
    }
}

proof fn lemma_last_with_identity(channels: Seq<ChannelView>, k: int, pid: u32, name: Seq<char>) -> (
l: int)
    requires
        0 <= k < channels.len(),
        has_identity(channels[k], pid, name),
    ensures
        k <= l < channels.len(),
        has_identity(channels[l], pid, name),
        forall|j: int|
            l < j < channels.len() ==> !has_identity(#[trigger] channels[j], pid, name),
    decreases channels.len() - k,
{
    if exists|j: int| k < j < channels.len() && has_identity(#[trigger] channels[j], pid, name) {
        let j = choose|j: int|
            k < j < channels.len() && has_identity(#[trigger] channels[j], pid, name);
        lemma_last_with_identity(channels, j, pid, name)
    } else {
        k
    }
}

/// After a refresh the art of every channel with a process and a real name is
/// remembered as of now, so that it is forgotten only once the stream has been
/// gone for [`ART_MEMORY_TTL`].
pub proof fn law_live_art_is_remembered(r: Refresh, i: int, pid: u32, name: Seq<char>, later: i128)
    requires
        0 <= i < r.apps.len(),
        has_identity(refreshed(r)[i].channel, pid, name),
    ensures
        memory_after(r).contains_key((pid, name)),
        memory_after(r)[(pid, name)].last_seen == r.now,
        pruned(memory_after(r), later).contains_key((pid, name)) <==> later < r.now
            + ART_MEMORY_TTL,
{
    lemma_processed(r, r.apps.len() as int);
    let channels = channels_in(refreshed(r));
    assert(channels[i] == refreshed(r)[i].channel);
    let l = lemma_last_with_identity(channels, i, pid, name);
    lemma_remembered(r.memory, channels, r.now, l, pid, name);
}

/// A stream that is recreated under another uid inherits the art of its
/// predecessor, if no active stream holds that file: the new stream reports the
/// name and the process that a previous channel had, and no other previous channel
/// had them.
pub proof fn law_recreated_stream_inherits_its_art(
    previous: Seq<ChannelView>,
    memory: Map<(u32, Seq<char>), ArtRecord>,
    apps: Seq<AppView>,
    ignored: Seq<Seq<char>>,
    files: Seq<ArtFileView>,
    now: i128,
    app: AppView,
    claimed: Set<Seq<char>>,
    k: int,
)
    requires
        ({
            let r = refresh_of(previous, memory, apps, ignored, files, now);
            &&& 0 <= k < r.previous.len()
            &&& app.pid is Some
            &&& has_identity(r.previous[k], app.pid->0, app.app_name)
            &&& forall|j: int|
                0 <= j < r.previous.len() && j != k ==> !has_identity(
                    #[trigger] r.previous[j],
                    app.pid->0,
                    app.app_name,
                )
            &&& !collides(r.apps, app.pid, app.app_name)
            &&& !claimed.contains(r.previous[k].mpris_art_path->0)
        }),
    ensures
        ({
            let r = refresh_of(previous, memory, apps, ignored, files, now);
            let ch = started(r, app, claimed).0.channel;
            &&& ch.app_name == app.app_name
            &&& ch.mpris_art_path == r.previous[k].mpris_art_path
            &&& ch.mpris_art_data == r.previous[k].mpris_art_data
            &&& ch.art_resolved
            &&& started(r, app, claimed).1.contains(ch.mpris_art_path->0)
        }),
{
    let r = refresh_of(previous, memory, apps, ignored, files, now);
    lemma_remembered(pruned(memory, now), r.previous, now, k, app.pid->0, app.app_name);
}

proof fn lemma_memory_is_kept(
    memory: Map<(u32, Seq<char>), ArtRecord>,
    channels: Seq<ChannelView>,
    now: i128,
    pid: u32,
    name: Seq<char>,
)
    requires
        forall|j: int| 0 <= j < channels.len() ==> !has_identity(#[trigger] channels[j], pid, name),
    ensures
        remembered(memory, channels, now).contains_key((pid, name)) == memory.contains_key(
            (pid, name),
        ),
        remembered(memory, channels, now)[(pid, name)] == memory[(pid, name)],
    decreases channels.len(),
{
    if channels.len() > 0 {
        let rest = channels.drop_last();
        assert forall|j: int| 0 <= j < rest.len() implies !has_identity(
            #[trigger] rest[j],
            pid,
            name,
        ) by {
            assert(rest[j] == channels[j]);
        }
        lemma_memory_is_kept(memory, rest, now, pid, name);
        assert(!has_identity(channels[channels.len() - 1], pid, name));
    }
}

/// A stream that comes back under its name while its art is still remembered gets
/// it back, if no active stream holds that file.
pub proof fn law_returning_stream_gets_its_art_back(
    previous: Seq<ChannelView>,
    memory: Map<(u32, Seq<char>), ArtRecord>,
    apps: Seq<AppView>,
    ignored: Seq<Seq<char>>,
    files: Seq<ArtFileView>,
    now: i128,
    app: AppView,
    claimed: Set<Seq<char>>,
)
    requires
        app.pid is Some,
        memory.contains_key((app.pid->0, app.app_name)),
        is_fresh(memory[(app.pid->0, app.app_name)], now),
        !is_generic(app.app_name),
        !claimed.contains(memory[(app.pid->0, app.app_name)].path),
        ({
            let r = refresh_of(previous, memory, apps, ignored, files, now);
            &&& !collides(r.apps, app.pid, app.app_name)
            &&& forall|j: int|
                0 <= j < r.previous.len() ==> !has_identity(
                    #[trigger] r.previous[j],
                    app.pid->0,
                    app.app_name,
                )
        }),
    ensures
        ({
            let r = refresh_of(previous, memory, apps, ignored, files, now);
            let ch = started(r, app, claimed).0.channel;
            let art = memory[(app.pid->0, app.app_name)];
            &&& ch.mpris_art_path == Some(art.path)
            &&& ch.mpris_art_data == Some(art.data)
            &&& ch.art_resolved
        }),
{
    let r = refresh_of(previous, memory, apps, ignored, files, now);
    lemma_memory_is_kept(pruned(memory, now), r.previous, now, app.pid->0, app.app_name);
}

/// A new stream that cannot be trusted to name itself takes a remembered identity
/// only if that one belongs to its process, is not on screen, and is the only such
/// one.
pub proof fn law_identity_is_never_guessed(
    memory: Map<(u32, Seq<char>), ArtRecord>,
    live: Set<Seq<char>>,
    pid: u32,
)
    ensures
        recovered(memory, live, pid) matches Some(name) ==> {
            &&& memory.contains_key((pid, name))
            &&& !live.contains(lowercased(name))
            &&& forall|other: Seq<char>| #[trigger]
                is_dormant(memory, live, pid, other) ==> other == name
        },
        forall|a: Seq<char>, b: Seq<char>|
            #![trigger is_dormant(memory, live, pid, a), is_dormant(memory, live, pid, b)]
            is_dormant(memory, live, pid, a) && is_dormant(memory, live, pid, b) && a != b
                ==> recovered(memory, live, pid) is None,
{
}

/// Art that a live stream holds is never handed to a new one.
pub proof fn law_new_streams_never_steal_art(r: Refresh, app: AppView, claimed: Set<Seq<char>>)
    ensures
        started(r, app, claimed).0.channel.mpris_art_path matches Some(p) ==> !claimed.contains(p),
{
}

} // verus!
