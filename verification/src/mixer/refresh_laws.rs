//! What a refresh and a cold start give each stream, told from the streams, the
//! channels that there were, the memory and the files alone.

use super::art::{pid_count, pid_counts, sharing};
use super::channel::ChannelView;
use super::create::{active, channels_at_start, created, created_channels};
use super::laws::{has_identity, law_streams_continue_or_start};
use super::memory::{is_dormant, is_sole_dormant, pruned, recovered, ArtRecord};
use super::update::{
    channel_with_uid, channels_in, collides, continued, current, held_paths, is_current,
    is_first_with_uid, live_names, memory_after, predecessor, processed, refresh_of, refreshed,
    remembered, started, started_name, title_count, title_key, Refresh,
};
use crate::audio::audio_system::AppView;
use crate::kick::slug_in;
use crate::mpris::{
    cleaned_title, is_generic, law_art_in_the_window_is_claimed, names_art_of, ArtFileView,
};
use crate::text::lowercased;
use vstd::prelude::*;

verus! {

/// Whether another stream of the same process has the same title as stream `i`, the
/// words of its site and case aside.
pub open spec fn has_twin(apps: Seq<AppView>, i: int) -> bool {
    apps[i].pid is Some && exists|j: int|
        {
            &&& 0 <= j < apps.len()
            &&& j != i
            &&& (#[trigger] apps[j]).pid == apps[i].pid
            &&& lowercased(cleaned_title(apps[j].app_name)) == lowercased(
                cleaned_title(apps[i].app_name),
            )
        }
}

spec fn is_titled(app: AppView, pid: u32, key: Seq<char>) -> bool {
    app.pid == Some(pid) && lowercased(cleaned_title(app.app_name)) == key
}

proof fn lemma_title_count(apps: Seq<AppView>, pid: u32, key: Seq<char>)
    ensures
        title_count(apps, pid, key) > 0 <==> exists|i: int|
            0 <= i < apps.len() && is_titled(#[trigger] apps[i], pid, key),
        title_count(apps, pid, key) > 1 <==> exists|i: int, j: int|
            0 <= i < j < apps.len() && is_titled(#[trigger] apps[i], pid, key) && is_titled(
                #[trigger] apps[j],
                pid,
                key,
            ),
    decreases apps.len(),
{
    if apps.len() > 0 {
        let rest = apps.drop_last();
        let last = apps.len() - 1;
        lemma_title_count(rest, pid, key);
        assert(apps.last() == apps[last]);
        assert forall|i: int| 0 <= i < rest.len() implies rest[i] == #[trigger] apps[i] by {}
        assert(is_titled(apps[last], pid, key) <==> title_count(apps, pid, key) == title_count(
            rest,
            pid,
            key,
        ) + 1);
        if title_count(rest, pid, key) > 0 {
            let i = choose|i: int| 0 <= i < rest.len() && is_titled(#[trigger] rest[i], pid, key);
            assert(is_titled(apps[i], pid, key));
            if is_titled(apps[last], pid, key) {
                assert(is_titled(apps[i], pid, key) && is_titled(apps[last], pid, key));
            }
        }
        if title_count(rest, pid, key) > 1 {
            let (i, j) = choose|i: int, j: int|
                0 <= i < j < rest.len() && is_titled(#[trigger] rest[i], pid, key) && is_titled(
                    #[trigger] rest[j],
                    pid,
                    key,
                );
            assert(is_titled(apps[i], pid, key) && is_titled(apps[j], pid, key));
        }
        if exists|i: int| 0 <= i < apps.len() && is_titled(#[trigger] apps[i], pid, key) {
            let i = choose|i: int| 0 <= i < apps.len() && is_titled(#[trigger] apps[i], pid, key);
            if i < last {
                assert(is_titled(rest[i], pid, key));
            }
        }
        if exists|i: int, j: int|
            0 <= i < j < apps.len() && is_titled(#[trigger] apps[i], pid, key) && is_titled(
                #[trigger] apps[j],
                pid,
                key,
            ) {
            let (i, j) = choose|i: int, j: int|
                0 <= i < j < apps.len() && is_titled(#[trigger] apps[i], pid, key) && is_titled(
                    #[trigger] apps[j],
                    pid,
                    key,
                );
            assert(is_titled(rest[i], pid, key));
            if j < last {
                assert(is_titled(rest[j], pid, key));
            }
        }
    }
}

/// The title of a stream collides exactly if another stream of its process has it too.
pub proof fn law_titles_collide_with_a_twin(apps: Seq<AppView>, i: int)
    requires
        0 <= i < apps.len(),
    ensures
        collides(apps, apps[i].pid, apps[i].app_name) <==> has_twin(apps, i),
{
    if apps[i].pid is Some {
        let pid = apps[i].pid->0;
        let key = title_key(apps[i].app_name);
        lemma_title_count(apps, pid, key);
        assert(is_titled(apps[i], pid, key));
        if has_twin(apps, i) {
            let j = choose|j: int|
                {
                    &&& 0 <= j < apps.len()
                    &&& j != i
                    &&& (#[trigger] apps[j]).pid == apps[i].pid
                    &&& lowercased(cleaned_title(apps[j].app_name)) == lowercased(
                        cleaned_title(apps[i].app_name),
                    )
                };
            assert(is_titled(apps[j], pid, key));
            if i < j {
                assert(is_titled(apps[i], pid, key) && is_titled(apps[j], pid, key));
            } else {
                assert(is_titled(apps[j], pid, key) && is_titled(apps[i], pid, key));
            }
        }
        if collides(apps, apps[i].pid, apps[i].app_name) {
            let (a, b) = choose|a: int, b: int|
                0 <= a < b < apps.len() && is_titled(#[trigger] apps[a], pid, key) && is_titled(
                    #[trigger] apps[b],
                    pid,
                    key,
                );
            let j = if a == i {
                b
            } else {
                a
            };
            assert(apps[j].pid == apps[i].pid);
        }
    }
}

/// The streams that share a process, as far as art goes, are those that are no Kick
/// streams: there is more than one exactly if two of them have the process.
pub proof fn law_sharing_counts_the_streams_of_a_process(apps: Seq<AppView>, pid: u32)
    requires
        apps.len() <= usize::MAX,
    ensures
        sharing(pid_counts(apps), pid) > 1 <==> exists|i: int, j: int|
            {
                &&& 0 <= i < j < apps.len()
                &&& (#[trigger] apps[i]).pid == Some(pid)
                &&& slug_in(apps[i].app_name) is None
                &&& (#[trigger] apps[j]).pid == Some(pid)
                &&& slug_in(apps[j].app_name) is None
            },
{
    lemma_pid_count(apps, pid);
}

spec fn writes_art(app: AppView, pid: u32) -> bool {
    app.pid == Some(pid) && slug_in(app.app_name) is None
}

proof fn lemma_pid_count(apps: Seq<AppView>, pid: u32)
    ensures
        pid_count(apps, pid) <= apps.len(),
        pid_count(apps, pid) > 0 <==> exists|i: int|
            0 <= i < apps.len() && writes_art(#[trigger] apps[i], pid),
        pid_count(apps, pid) > 1 <==> exists|i: int, j: int|
            0 <= i < j < apps.len() && writes_art(#[trigger] apps[i], pid) && writes_art(
                #[trigger] apps[j],
                pid,
            ),
    decreases apps.len(),
{
    if apps.len() > 0 {
        let rest = apps.drop_last();
        let last = apps.len() - 1;
        lemma_pid_count(rest, pid);
        assert(apps.last() == apps[last]);
        assert forall|i: int| 0 <= i < rest.len() implies rest[i] == #[trigger] apps[i] by {}
        assert(writes_art(apps[last], pid) <==> pid_count(apps, pid) == pid_count(rest, pid) + 1);
        if pid_count(rest, pid) > 0 {
            let i = choose|i: int| 0 <= i < rest.len() && writes_art(#[trigger] rest[i], pid);
            assert(writes_art(apps[i], pid));
            if writes_art(apps[last], pid) {
                assert(writes_art(apps[i], pid) && writes_art(apps[last], pid));
            }
        }
        if pid_count(rest, pid) > 1 {
            let (i, j) = choose|i: int, j: int|
                0 <= i < j < rest.len() && writes_art(#[trigger] rest[i], pid) && writes_art(
                    #[trigger] rest[j],
                    pid,
                );
            assert(writes_art(apps[i], pid) && writes_art(apps[j], pid));
        }
        if exists|i: int| 0 <= i < apps.len() && writes_art(#[trigger] apps[i], pid) {
            let i = choose|i: int| 0 <= i < apps.len() && writes_art(#[trigger] apps[i], pid);
            if i < last {
                assert(writes_art(rest[i], pid));
            }
        }
        if exists|i: int, j: int|
            0 <= i < j < apps.len() && writes_art(#[trigger] apps[i], pid) && writes_art(
                #[trigger] apps[j],
                pid,
            ) {
            let (i, j) = choose|i: int, j: int|
                0 <= i < j < apps.len() && writes_art(#[trigger] apps[i], pid) && writes_art(
                    #[trigger] apps[j],
                    pid,
                );
            assert(writes_art(rest[i], pid));
            if j < last {
                assert(writes_art(rest[j], pid));
            }
        }
    }
}

/// The streams that a refresh goes by are those that are not on the exclude list,
/// neither by their app id nor by their name, in their order.
pub proof fn law_active_streams_are_those_not_excluded(
    apps: Seq<AppView>,
    ignored: Seq<Seq<char>>,
)
    ensures
        active(apps, ignored) == apps.filter(
            |a: AppView| !ignored.contains(a.app_id) && !ignored.contains(a.app_name),
        ),
    decreases apps.len(),
{
    reveal(Seq::filter);
    if apps.len() > 0 {
        law_active_streams_are_those_not_excluded(apps.drop_last(), ignored);
    }
}

/// The channels that count as the previous ones are those with a uid that no later
/// channel has; no two of them have one uid.
pub proof fn law_latest_channel_of_a_uid_counts(channels: Seq<ChannelView>, k: int)
    requires
        0 <= k < channels.len(),
    ensures
        (forall|j: int| k < j < channels.len() ==> (#[trigger] channels[j]).uid != channels[k].uid)
            ==> current(channels, channels.len() as int).contains(channels[k]),
        forall|a: int, b: int|
            #![trigger current(channels, channels.len() as int)[a], current(
                channels,
                channels.len() as int,
            )[b]]
            0 <= a < b < current(channels, channels.len() as int).len() ==> current(
                channels,
                channels.len() as int,
            )[a].uid != current(channels, channels.len() as int)[b].uid,
        forall|a: int|
            0 <= a < current(channels, channels.len() as int).len() ==> channels.contains(
                #[trigger] current(channels, channels.len() as int)[a],
            ),
{
    lemma_current_uids(channels, channels.len() as int);
    if is_current(channels, k) {
        assert(current(channels, channels.len() as int).contains(channels[k]));
    }
}

spec fn is_latest(channels: Seq<ChannelView>, n: int, ch: ChannelView) -> bool {
    exists|k: int|
        #![trigger channels[k]]
        0 <= k < n && is_current(channels, k) && channels[k] == ch
}

proof fn lemma_current_uids(channels: Seq<ChannelView>, n: int)
    requires
        0 <= n <= channels.len(),
    ensures
        forall|a: int|
            #![trigger current(channels, n)[a]]
            0 <= a < current(channels, n).len() ==> is_latest(
                channels,
                n,
                current(channels, n)[a],
            ),
        forall|a: int, b: int|
            #![trigger current(channels, n)[a], current(channels, n)[b]]
            0 <= a < b < current(channels, n).len() ==> current(channels, n)[a].uid != current(
                channels,
                n,
            )[b].uid,
        forall|k: int|
            0 <= k < n && #[trigger] is_current(channels, k) ==> current(channels, n).contains(
                channels[k],
            ),
    decreases n,
{
    if n > 0 {
        lemma_current_uids(channels, n - 1);
        let earlier = current(channels, n - 1);
        let all = current(channels, n);
        assert forall|a: int| #![trigger all[a]] 0 <= a < all.len() implies is_latest(
            channels,
            n,
            all[a],
        ) by {
            if a < earlier.len() {
                let k = choose|k: int|
                    #![trigger channels[k]]
                    0 <= k < n - 1 && is_current(channels, k) && channels[k] == earlier[a];
                assert(channels[k] == all[a]);
            } else {
                assert(all[a] == channels[n - 1]);
            }
        }
        assert forall|a: int, b: int|
            #![trigger all[a], all[b]]
            0 <= a < b < all.len() implies all[a].uid != all[b].uid by {
            assert(all[a] == earlier[a]);
            if b < earlier.len() {
                assert(all[b] == earlier[b]);
            } else {
                let k = choose|k: int|
                    #![trigger channels[k]]
                    0 <= k < n - 1 && is_current(channels, k) && channels[k] == earlier[a];
                assert(channels[n - 1].uid != channels[k].uid);
            }
        }
        assert forall|k: int| 0 <= k < n && #[trigger] is_current(channels, k) implies all.contains(
            channels[k],
        ) by {
            if k < n - 1 {
                let a = choose|a: int| 0 <= a < earlier.len() && earlier[a] == channels[k];
                assert(all[a] == channels[k]);
            } else {
                assert(all[earlier.len() as int] == channels[k]);
            }
        }
    }
}

proof fn lemma_predecessor(r: Refresh, i: int, k: int)
    requires
        0 <= i < r.apps.len(),
        0 <= k < r.previous.len(),
        r.previous[k].uid == r.apps[i].uid,
        forall|a: int, b: int|
            #![trigger r.previous[a], r.previous[b]]
            0 <= a < b < r.previous.len() ==> r.previous[a].uid != r.previous[b].uid,
        forall|j: int| 0 <= j < i ==> (#[trigger] r.apps[j]).uid != r.apps[i].uid,
    ensures
        predecessor(r, i) == Some(r.previous[k]),
{
    lemma_channel_at(r.previous, k);
}

proof fn lemma_channel_at(channels: Seq<ChannelView>, k: int)
    requires
        0 <= k < channels.len(),
        forall|a: int, b: int|
            #![trigger channels[a], channels[b]]
            0 <= a < b < channels.len() ==> channels[a].uid != channels[b].uid,
    ensures
        channel_with_uid(channels, channels[k].uid) == Some(channels[k]),
    decreases channels.len(),
{
    if k > 0 {
        assert(channels[0].uid != channels[k].uid);
        let rest = channels.drop_first();
        assert(rest[k - 1] == channels[k]);
        assert forall|a: int, b: int|
            #![trigger rest[a], rest[b]]
            0 <= a < b < rest.len() implies rest[a].uid != rest[b].uid by {
            assert(rest[a] == channels[a + 1] && rest[b] == channels[b + 1]);
        }
        lemma_channel_at(rest, k - 1);
    }
}

proof fn lemma_no_channel(channels: Seq<ChannelView>, uid: u32)
    ensures
        channel_with_uid(channels, uid) matches Some(ch) ==> exists|k: int|
            0 <= k < channels.len() && #[trigger] channels[k] == ch && ch.uid == uid,
    decreases channels.len(),
{
    if channels.len() > 0 && channels[0].uid != uid {
        let rest = channels.drop_first();
        lemma_no_channel(rest, uid);
        if let Some(ch) = channel_with_uid(rest, uid) {
            let k = choose|k: int| 0 <= k < rest.len() && #[trigger] rest[k] == ch;
            assert(channels[k + 1] == ch);
        }
    } else if channels.len() > 0 {
        assert(channels[0] == channels[0]);
    }
}

/// Every icon lookup of a stream's channel goes by the icon name and the icon key of
/// that stream, and carries the art that the channel shows. A lookup that is not made
/// from claimed or remembered art, or a Kick avatar, also goes by the class and the
/// icon of the stream's window; a retry always does.
pub proof fn law_lookups_go_by_the_stream(r: Refresh, i: int)
    requires
        0 <= i < r.apps.len(),
    ensures
        ({
            let app = r.apps[i];
            let plan = refreshed(r)[i];
            &&& plan.lookup matches Some(q) ==> {
                &&& q.icon_name == app.icon_name
                &&& q.icon_search_name == app.icon_search_name
                &&& q.art == plan.channel.mpris_art_data
                &&& plan.channel.mpris_art_path is None && slug_in(app.app_name) is None
                    ==> q.wm_class == app.wm_class && q.window_icon == app.window_icon
                &&& q.art is None ==> q.wm_class == app.wm_class && q.window_icon
                    == app.window_icon
                &&& plan.channel.mpris_art_path is Some ==> q.wm_class is None && q.window_icon
                    is None
            }
            &&& plan.retry matches Some(q) ==> {
                &&& q.icon_name == app.icon_name
                &&& q.icon_search_name == app.icon_search_name
                &&& q.art == plan.channel.mpris_art_data
                &&& q.wm_class == app.wm_class
                &&& q.window_icon == app.window_icon
            }
        }),
{
    law_streams_continue_or_start(r, i);
}

/// The same holds of the lookups at cold start, and every stream has one there.
pub proof fn law_first_lookups_go_by_the_stream(
    apps: Seq<AppView>,
    files: Seq<ArtFileView>,
    now: i128,
    i: int,
)
    requires
        0 <= i < apps.len(),
    ensures
        ({
            let app = apps[i];
            let plan = channels_at_start(Seq::empty(), apps, files, now)[i];
            &&& channels_at_start(Seq::empty(), apps, files, now).len() == apps.len()
            &&& plan.retry is None
            &&& plan.lookup matches Some(q) && {
                &&& q.icon_name == app.icon_name
                &&& q.icon_search_name == app.icon_search_name
                &&& q.art == plan.channel.mpris_art_data
                &&& if plan.channel.mpris_art_path is Some {
                    q.wm_class is None && q.window_icon is None
                } else {
                    q.wm_class == app.wm_class && q.window_icon == app.window_icon
                }
            }
        }),
{
    lemma_created(apps, files, now, apps.len() as int);
}

proof fn lemma_created(apps: Seq<AppView>, files: Seq<ArtFileView>, now: i128, n: int)
    requires
        0 <= n <= apps.len(),
    ensures
        created_channels(apps, files, now, n).0.len() == n,
        forall|i: int|
            0 <= i < n ==> #[trigger] created_channels(apps, files, now, n).0[i] == created(
                apps[i],
                pid_counts(apps),
                files,
                now,
                created_channels(apps, files, now, i).1,
            ).0,
    decreases n,
{
    if n > 0 {
        lemma_created(apps, files, now, n - 1);
    }
}

/// Whether stream `i` has changed to other content since a channel was given to it: it
/// reports another name, which is a real one and that of no other stream of its
/// process.
pub open spec fn has_new_content(r: Refresh, i: int, prev: ChannelView) -> bool {
    &&& !is_generic(r.apps[i].app_name)
    &&& r.apps[i].app_name != prev.app_name
    &&& !has_twin(r.apps, i)
}

/// What becomes of the channel of a stream that goes on. The stream is known by its
/// uid. Its process, its icon and, while the content is the same, its time stay; a
/// locked channel keeps its name too, and any other takes the stream's, unless that is
/// a placeholder. New content brings a new name and starts the time anew. The channel
/// is locked once it has a real name and its art is decided, while no avatar is on its
/// way, and stays so until the content changes.
pub proof fn law_channel_of_a_stream_that_goes_on(r: Refresh, i: int, k: int)
    requires
        0 <= i < r.apps.len(),
        0 <= k < r.previous.len(),
        r.previous[k].uid == r.apps[i].uid,
        forall|a: int, b: int|
            #![trigger r.previous[a], r.previous[b]]
            0 <= a < b < r.previous.len() ==> r.previous[a].uid != r.previous[b].uid,
        forall|j: int| 0 <= j < i ==> (#[trigger] r.apps[j]).uid != r.apps[i].uid,
    ensures
        ({
            let app = r.apps[i];
            let prev = r.previous[k];
            let ch = refreshed(r)[i].channel;
            let new = has_new_content(r, i, prev);
            &&& ch.pid == prev.pid
            &&& ch.icon_uri == prev.icon_uri
            &&& ch.icon_uri_mute == prev.icon_uri_mute
            &&& ch.uses_default_icon == prev.uses_default_icon
            &&& new ==> ch.app_name == app.app_name && ch.first_seen == Some(r.now)
            &&& !new ==> ch.first_seen == prev.first_seen
            &&& !new && (prev.locked || is_generic(app.app_name)) ==> ch.app_name == prev.app_name
            &&& !new && !prev.locked && !is_generic(app.app_name) ==> ch.app_name == app.app_name
            &&& ch.locked <==> (prev.locked && !new) || (!is_generic(ch.app_name)
                && ch.art_resolved && !app.kick_pending)
        }),
{
    lemma_predecessor(r, i, k);
    law_streams_continue_or_start(r, i);
    law_titles_collide_with_a_twin(r.apps, i);
}

/// When the icon of a stream that goes on is looked up: at once if its content or its
/// art has changed, and otherwise only for as long as it shows the default icon. A
/// Kick stream waits for its avatar instead.
pub proof fn law_icons_are_looked_up_when_they_change(r: Refresh, i: int, k: int)
    requires
        0 <= i < r.apps.len(),
        0 <= k < r.previous.len(),
        r.previous[k].uid == r.apps[i].uid,
        forall|a: int, b: int|
            #![trigger r.previous[a], r.previous[b]]
            0 <= a < b < r.previous.len() ==> r.previous[a].uid != r.previous[b].uid,
        forall|j: int| 0 <= j < i ==> (#[trigger] r.apps[j]).uid != r.apps[i].uid,
    ensures
        ({
            let app = r.apps[i];
            let prev = r.previous[k];
            let plan = refreshed(r)[i];
            &&& plan.retry is Some <==> slug_in(app.app_name) is None
            &&& has_new_content(r, i, prev) ==> plan.lookup is Some
            &&& plan.channel.mpris_art_path != prev.mpris_art_path ==> plan.lookup is Some
            &&& plan.channel.mpris_art_data != prev.mpris_art_data ==> plan.lookup is Some
            &&& !has_new_content(r, i, prev) && prev.art_resolved && slug_in(app.app_name) is None
                ==> plan.lookup is None
            &&& !has_new_content(r, i, prev) && (prev.art_resolved || prev.mpris_art_path is None)
                && plan.channel.mpris_art_path == prev.mpris_art_path
                && plan.channel.mpris_art_data == prev.mpris_art_data ==> plan.lookup is None
        }),
{
    lemma_predecessor(r, i, k);
    law_streams_continue_or_start(r, i);
    law_titles_collide_with_a_twin(r.apps, i);
}

/// Art stays with its stream: while the content is the same and the decision on the
/// art is made, a channel keeps the file and the bytes that it has, but for a Kick
/// channel without art, which shows its avatar.
pub proof fn law_decided_art_stays(r: Refresh, i: int, k: int)
    requires
        0 <= i < r.apps.len(),
        0 <= k < r.previous.len(),
        r.previous[k].uid == r.apps[i].uid,
        forall|a: int, b: int|
            #![trigger r.previous[a], r.previous[b]]
            0 <= a < b < r.previous.len() ==> r.previous[a].uid != r.previous[b].uid,
        forall|j: int| 0 <= j < i ==> (#[trigger] r.apps[j]).uid != r.apps[i].uid,
        !has_new_content(r, i, r.previous[k]),
        r.previous[k].art_resolved,
    ensures
        ({
            let app = r.apps[i];
            let prev = r.previous[k];
            let ch = refreshed(r)[i].channel;
            &&& ch.art_resolved
            &&& ch.mpris_art_path == prev.mpris_art_path
            &&& ch.mpris_art_data == (if slug_in(app.app_name) is Some && prev.mpris_art_data
                is None {
                app.kick_art
            } else {
                prev.mpris_art_data
            })
        }),
{
    lemma_predecessor(r, i, k);
    law_streams_continue_or_start(r, i);
    law_titles_collide_with_a_twin(r.apps, i);
}

proof fn lemma_after_continued(r: Refresh, app: AppView, prev: ChannelView, claimed: Set<Seq<char>>)
    ensures
        forall|p: Seq<char>| #[trigger]
            continued(r, app, prev, claimed).1.contains(p) ==> claimed.contains(p) || continued(
                r,
                app,
                prev,
                claimed,
            ).0.channel.mpris_art_path == Some(p),
{
}

proof fn lemma_claimed(r: Refresh, n: int, p: Seq<char>)
    requires
        0 <= n <= r.apps.len(),
        processed(r, n).1.contains(p),
    ensures
        held_paths(r, r.apps.len() as int).contains(p) || exists|j: int|
            0 <= j < n && (#[trigger] refreshed(r)[j]).channel.mpris_art_path == Some(p),
    decreases n,
{
    if n > 0 {
        law_streams_continue_or_start(r, n - 1);
        let before = processed(r, n - 1).1;
        if before.contains(p) {
            lemma_claimed(r, n - 1, p);
            if !held_paths(r, r.apps.len() as int).contains(p) {
                let j = choose|j: int|
                    0 <= j < n - 1 && (#[trigger] refreshed(r)[j]).channel.mpris_art_path == Some(
                        p,
                    );
                assert(refreshed(r)[j].channel.mpris_art_path == Some(p));
            }
        } else {
            if let Some(prev) = predecessor(r, n - 1) {
                lemma_after_continued(r, r.apps[n - 1], prev, before);
            }
            assert(refreshed(r)[n - 1].channel.mpris_art_path == Some(p));
        }
    }
}

proof fn lemma_held(r: Refresh, n: int, p: Seq<char>)
    requires
        0 <= n <= r.apps.len(),
        held_paths(r, n).contains(p),
    ensures
        exists|k: int|
            0 <= k < r.previous.len() && (#[trigger] r.previous[k]).mpris_art_path == Some(p)
                && exists|j: int|
                0 <= j < n && (#[trigger] r.apps[j]).uid == r.previous[k].uid,
    decreases n,
{
    if n > 0 {
        lemma_no_channel(r.previous, r.apps[n - 1].uid);
        if held_paths(r, n - 1).contains(p) {
            lemma_held(r, n - 1, p);
            let k = choose|k: int|
                0 <= k < r.previous.len() && (#[trigger] r.previous[k]).mpris_art_path == Some(p)
                    && exists|j: int|
                    0 <= j < n - 1 && (#[trigger] r.apps[j]).uid == r.previous[k].uid;
            let j = choose|j: int|
                0 <= j < n - 1 && (#[trigger] r.apps[j]).uid == r.previous[k].uid;
            assert(r.apps[j].uid == r.previous[k].uid);
            assert(r.previous[k].mpris_art_path == Some(p));
        } else {
            let ch = channel_with_uid(r.previous, r.apps[n - 1].uid)->0;
            let k = choose|k: int|
                0 <= k < r.previous.len() && #[trigger] r.previous[k] == ch && ch.uid
                    == r.apps[n - 1].uid;
            assert(r.apps[n - 1].uid == r.previous[k].uid);
            assert(r.previous[k].mpris_art_path == Some(p));
        }
    }
}

/// Whether no live stream has a file: no previous channel of a stream that goes on,
/// and no channel of a stream before `i`.
pub open spec fn nobody_holds(r: Refresh, i: int, path: Seq<char>) -> bool {
    &&& forall|k: int, j: int|
        #![trigger r.previous[k], r.apps[j]]
        0 <= k < r.previous.len() && 0 <= j < r.apps.len() && r.apps[j].uid == r.previous[k].uid
            ==> r.previous[k].mpris_art_path != Some(path)
    &&& forall|j: int| 0 <= j < i ==> (#[trigger] refreshed(r)[j]).channel.mpris_art_path != Some(path)
}

proof fn lemma_nobody_holds(r: Refresh, i: int, path: Seq<char>)
    requires
        0 <= i <= r.apps.len(),
        nobody_holds(r, i, path),
    ensures
        !processed(r, i).1.contains(path),
{
    if processed(r, i).1.contains(path) {
        lemma_claimed(r, i, path);
        if held_paths(r, r.apps.len() as int).contains(path) {
            lemma_held(r, r.apps.len() as int, path);
            let k = choose|k: int|
                0 <= k < r.previous.len() && (#[trigger] r.previous[k]).mpris_art_path == Some(path)
                    && exists|j: int|
                    0 <= j < r.apps.len() && (#[trigger] r.apps[j]).uid == r.previous[k].uid;
            let j = choose|j: int|
                0 <= j < r.apps.len() && (#[trigger] r.apps[j]).uid == r.previous[k].uid;
            assert(r.previous[k].mpris_art_path != Some(path));
        } else {
            let j = choose|j: int|
                0 <= j < i && (#[trigger] refreshed(r)[j]).channel.mpris_art_path == Some(path);
            assert(refreshed(r)[j].channel.mpris_art_path != Some(path));
        }
    }
}

/// An observed stream whose art is undecided, and that is no Kick stream, gets art as
/// soon as it is a second and a half old, if a file of its process that nobody holds
/// was written from two seconds before to four seconds after it was first seen; with
/// art or without, the decision is then made. Before that it stays open.
pub proof fn law_waiting_stream_gets_its_art(r: Refresh, i: int, k: int, f: int)
    requires
        0 <= i < r.apps.len(),
        0 <= k < r.previous.len(),
        r.previous[k].uid == r.apps[i].uid,
        forall|a: int, b: int|
            #![trigger r.previous[a], r.previous[b]]
            0 <= a < b < r.previous.len() ==> r.previous[a].uid != r.previous[b].uid,
        forall|j: int| 0 <= j < i ==> (#[trigger] r.apps[j]).uid != r.apps[i].uid,
        !has_new_content(r, i, r.previous[k]),
        slug_in(r.apps[i].app_name) is None,
        !r.previous[k].art_resolved,
        r.previous[k].pid is Some,
        r.previous[k].first_seen is Some,
        forall|a: int| 0 <= a < r.files.len() ==> (#[trigger] r.files[a]).data is Some,
        0 <= f < r.files.len(),
        names_art_of(r.files[f].file_name, r.previous[k].pid->0),
        nobody_holds(r, i, r.files[f].path),
        r.files[f].written matches Some(t) && r.previous[k].first_seen->0 - 2_000_000_000 <= t
            <= r.previous[k].first_seen->0 + 4_000_000_000,
    ensures
        ({
            let prev = r.previous[k];
            let ch = refreshed(r)[i].channel;
            let age = r.now - prev.first_seen->0;
            &&& age >= 1_500_000_000 ==> ch.art_resolved && ch.mpris_art_path is Some
                && ch.mpris_art_data is Some && refreshed(r)[i].lookup is Some
            &&& 0 <= age < 1_500_000_000 ==> !ch.art_resolved && ch.mpris_art_path
                == prev.mpris_art_path && ch.mpris_art_data == prev.mpris_art_data
        }),
{
    lemma_predecessor(r, i, k);
    law_streams_continue_or_start(r, i);
    law_titles_collide_with_a_twin(r.apps, i);
    lemma_nobody_holds(r, i, r.files[f].path);
    let claimed = processed(r, i).1;
    law_art_in_the_window_is_claimed(
        r.files,
        r.previous[k].pid->0,
        r.previous[k].first_seen->0,
        sharing(pid_counts(r.apps), r.previous[k].pid->0),
        claimed,
    );
    assert(names_art_of(r.files[f].file_name, r.previous[k].pid->0));
}

/// Where a new file comes from that the channel of a stream that goes on shows: it was
/// claimed by the rules of its process, its time and the files that others hold, or,
/// with new content, it is remembered of the new name.
pub proof fn law_new_art_is_claimed_or_remembered(r: Refresh, i: int, k: int, path: Seq<char>)
    requires
        0 <= i < r.apps.len(),
        0 <= k < r.previous.len(),
        r.previous[k].uid == r.apps[i].uid,
        forall|a: int, b: int|
            #![trigger r.previous[a], r.previous[b]]
            0 <= a < b < r.previous.len() ==> r.previous[a].uid != r.previous[b].uid,
        forall|j: int| 0 <= j < i ==> (#[trigger] r.apps[j]).uid != r.apps[i].uid,
        refreshed(r)[i].channel.mpris_art_path == Some(path),
        r.previous[k].mpris_art_path != Some(path),
    ensures
        ({
            let app = r.apps[i];
            let prev = r.previous[k];
            let ch = refreshed(r)[i].channel;
            ||| {
                &&& !has_new_content(r, i, prev)
                &&& !prev.art_resolved
                &&& slug_in(app.app_name) is None
                &&& prev.pid matches Some(pid) && exists|f: int|
                    0 <= f < r.files.len() && (#[trigger] r.files[f]).path == path && names_art_of(
                        r.files[f].file_name,
                        pid,
                    ) && r.files[f].written is Some
            }
            ||| {
                &&& has_new_content(r, i, prev)
                &&& app.pid matches Some(pid) && r.memory.contains_key((pid, app.app_name))
                    && r.memory[(pid, app.app_name)].path == path && ch.mpris_art_data == Some(
                    r.memory[(pid, app.app_name)].data,
                )
            }
        }),
{
    lemma_predecessor(r, i, k);
    law_streams_continue_or_start(r, i);
    law_titles_collide_with_a_twin(r.apps, i);
    let prev = r.previous[k];
    if !has_new_content(r, i, prev) {
        let pid = prev.pid->0;
        let claimed = processed(r, i).1;
        let c = crate::mpris::candidates_in(r.files, pid, claimed);
        let count = sharing(pid_counts(r.apps), pid);
        let l = choose|l: int| crate::mpris::is_pick(c, prev.first_seen, count, l);
        assert(crate::mpris::is_pick(c, prev.first_seen, count, l));
        crate::mpris::law_candidates_are_unclaimed_art_files(r.files, pid, claimed, l);
    }
}

proof fn lemma_live_names(apps: Seq<AppView>, key: Seq<char>)
    ensures
        live_names(apps).contains(key) <==> exists|j: int|
            0 <= j < apps.len() && lowercased((#[trigger] apps[j]).app_name) == key,
    decreases apps.len(),
{
    if apps.len() > 0 {
        let rest = apps.drop_last();
        lemma_live_names(rest, key);
        assert(apps.last() == apps[apps.len() - 1]);
        assert forall|j: int| 0 <= j < rest.len() implies rest[j] == #[trigger] apps[j] by {}
        if live_names(rest).contains(key) {
            let j = choose|j: int|
                0 <= j < rest.len() && lowercased((#[trigger] rest[j]).app_name) == key;
            assert(lowercased(apps[j].app_name) == key);
        }
        if exists|j: int| 0 <= j < apps.len() && lowercased((#[trigger] apps[j]).app_name) == key {
            let j = choose|j: int|
                0 <= j < apps.len() && lowercased((#[trigger] apps[j]).app_name) == key;
            if j < rest.len() {
                assert(lowercased(rest[j].app_name) == key);
            }
        }
    }
}

/// Whether a name is remembered for a process, and no stream has it, case aside.
pub open spec fn is_off_screen(r: Refresh, pid: u32, name: Seq<char>) -> bool {
    &&& r.memory.contains_key((pid, name))
    &&& forall|j: int|
        0 <= j < r.apps.len() ==> lowercased((#[trigger] r.apps[j]).app_name) != lowercased(name)
}

proof fn lemma_off_screen(r: Refresh, pid: u32, name: Seq<char>)
    ensures
        is_dormant(r.memory, live_names(r.apps), pid, name) <==> is_off_screen(r, pid, name),
{
    lemma_live_names(r.apps, lowercased(name));
}

/// The name of a new stream is the one that it reports, if that is a real one and no
/// other stream of its process has it. Otherwise it takes the one name that is
/// remembered for its process and not on screen; where there is none or more than one,
/// it keeps what it reports.
pub proof fn law_name_of_a_new_stream(r: Refresh, i: int, name: Seq<char>, other: Seq<char>)
    requires
        0 <= i < r.apps.len(),
        (forall|k: int|
            0 <= k < r.previous.len() ==> (#[trigger] r.previous[k]).uid != r.apps[i].uid) || (
        exists|j: int| 0 <= j < i && (#[trigger] r.apps[j]).uid == r.apps[i].uid),
    ensures
        ({
            let app = r.apps[i];
            let ch = refreshed(r)[i].channel;
            let doubtful = is_generic(app.app_name) || has_twin(r.apps, i);
            &&& !doubtful || app.pid is None ==> ch.app_name == app.app_name
            &&& doubtful && app.pid is Some && is_off_screen(r, app.pid->0, name) && (forall|
                n: Seq<char>,
            | #[trigger]
                is_off_screen(r, app.pid->0, n) ==> n == name) ==> ch.app_name == name
            &&& doubtful && app.pid is Some && (forall|n: Seq<char>| !#[trigger]
                is_off_screen(r, app.pid->0, n)) ==> ch.app_name == app.app_name
            &&& app.pid is Some && name != other && is_off_screen(r, app.pid->0, name)
                && is_off_screen(r, app.pid->0, other) ==> ch.app_name == app.app_name
        }),
{
    lemma_starts(r, i);
    law_titles_collide_with_a_twin(r.apps, i);
    let app = r.apps[i];
    if app.pid is Some {
        let pid = app.pid->0;
        let live = live_names(r.apps);
        assert forall|n: Seq<char>| #[trigger] is_dormant(r.memory, live, pid, n) <==> is_off_screen(
            r,
            pid,
            n,
        ) by {
            lemma_off_screen(r, pid, n);
        }
        if is_off_screen(r, pid, name) && (forall|n: Seq<char>| #[trigger]
            is_off_screen(r, pid, n) ==> n == name) {
            assert(is_dormant(r.memory, live, pid, name));
            assert(is_sole_dormant(r.memory, live, pid, name));
            let found = choose|n: Seq<char>| is_sole_dormant(r.memory, live, pid, n);
            assert(is_sole_dormant(r.memory, live, pid, found));
            assert(is_off_screen(r, pid, found));
        }
        if name != other && is_off_screen(r, pid, name) && is_off_screen(r, pid, other) {
            assert(is_dormant(r.memory, live, pid, name));
            assert(is_dormant(r.memory, live, pid, other));
            super::laws::law_identity_is_never_guessed(r.memory, live, pid);
        }
        if forall|n: Seq<char>| !#[trigger] is_off_screen(r, pid, n) {
            assert(recovered(r.memory, live, pid) is None) by {
                if recovered(r.memory, live, pid) is Some {
                    let found = choose|n: Seq<char>| is_sole_dormant(r.memory, live, pid, n);
                    assert(is_sole_dormant(r.memory, live, pid, found));
                    assert(is_off_screen(r, pid, found));
                }
            }
        }
    }
}

proof fn lemma_starts(r: Refresh, i: int)
    requires
        0 <= i < r.apps.len(),
        (forall|k: int|
            0 <= k < r.previous.len() ==> (#[trigger] r.previous[k]).uid != r.apps[i].uid) || (
        exists|j: int| 0 <= j < i && (#[trigger] r.apps[j]).uid == r.apps[i].uid),
    ensures
        refreshed(r)[i] == started(r, r.apps[i], processed(r, i).1).0,
{
    law_streams_continue_or_start(r, i);
    if exists|j: int| 0 <= j < i && (#[trigger] r.apps[j]).uid == r.apps[i].uid {
        let j = choose|j: int| 0 <= j < i && (#[trigger] r.apps[j]).uid == r.apps[i].uid;
        assert(r.apps[j].uid == r.apps[i].uid);
        assert(!is_first_with_uid(r.apps, i));
    } else {
        lemma_no_channel(r.previous, r.apps[i].uid);
        if let Some(ch) = channel_with_uid(r.previous, r.apps[i].uid) {
            let k = choose|k: int|
                0 <= k < r.previous.len() && #[trigger] r.previous[k] == ch && ch.uid
                    == r.apps[i].uid;
            assert(r.previous[k].uid != r.apps[i].uid);
        }
    }
}

/// What else a new stream's channel is: of the stream's process, first seen now if it
/// has one, without an icon until the one lookup that it asks for is answered. It
/// takes over the art that is remembered of its process and name, if no live stream
/// has the file, and shows no art but its avatar otherwise. Its art is decided if it
/// took art over or has no process, and it is locked if that is so, its name is a real
/// one, and no avatar is on its way.
pub proof fn law_channel_of_a_new_stream(r: Refresh, i: int)
    requires
        0 <= i < r.apps.len(),
        (forall|k: int|
            0 <= k < r.previous.len() ==> (#[trigger] r.previous[k]).uid != r.apps[i].uid) || (
        exists|j: int| 0 <= j < i && (#[trigger] r.apps[j]).uid == r.apps[i].uid),
    ensures
        ({
            let app = r.apps[i];
            let plan = refreshed(r)[i];
            let ch = plan.channel;
            let key = (app.pid->0, ch.app_name);
            &&& ch.pid == app.pid
            &&& ch.first_seen == (if app.pid is Some {
                Some(r.now)
            } else {
                None
            })
            &&& ch.icon_uri.len() == 0
            &&& ch.icon_uri_mute.len() == 0
            &&& ch.uses_default_icon
            &&& plan.lookup is Some
            &&& plan.retry is None
            &&& ch.mpris_art_path is None ==> ch.mpris_art_data == app.kick_art
            &&& ch.mpris_art_path matches Some(path) ==> {
                &&& app.pid is Some
                &&& !is_generic(ch.app_name)
                &&& r.memory.contains_key(key)
                &&& r.memory[key].path == path
                &&& ch.mpris_art_data == Some(r.memory[key].data)
            }
            &&& app.pid is Some && !is_generic(ch.app_name) && r.memory.contains_key(key)
                && nobody_holds(r, i, r.memory[key].path) ==> ch.mpris_art_path == Some(
                r.memory[key].path,
            )
            &&& ch.art_resolved <==> ch.mpris_art_path is Some || app.pid is None
            &&& ch.locked <==> ch.art_resolved && !is_generic(ch.app_name) && !app.kick_pending
        }),
{
    lemma_starts(r, i);
    let app = r.apps[i];
    let name = started_name(r, app);
    reveal_strlit("");
    if app.pid is Some && r.memory.contains_key((app.pid->0, name)) && nobody_holds(
        r,
        i,
        r.memory[(app.pid->0, name)].path,
    ) {
        lemma_nobody_holds(r, i, r.memory[(app.pid->0, name)].path);
    }
}

/// What a refresh remembers: the art of every previous channel with a process, a real
/// name and an art file, as of now, and of other identities what was remembered before
/// and seen less than half a minute ago.
pub proof fn law_memory_at_a_refresh(
    previous: Seq<ChannelView>,
    memory: Map<(u32, Seq<char>), ArtRecord>,
    apps: Seq<AppView>,
    ignored: Seq<Seq<char>>,
    files: Seq<ArtFileView>,
    now: i128,
    pid: u32,
    name: Seq<char>,
)
    ensures
        ({
            let r = refresh_of(previous, memory, apps, ignored, files, now);
            let known = exists|k: int|
                0 <= k < r.previous.len() && has_identity(#[trigger] r.previous[k], pid, name);
            &&& known ==> r.memory.contains_key((pid, name)) && r.memory[(pid, name)].last_seen
                == now && exists|k: int|
                {
                    &&& 0 <= k < r.previous.len()
                    &&& has_identity(#[trigger] r.previous[k], pid, name)
                    &&& r.previous[k].mpris_art_path == Some(r.memory[(pid, name)].path)
                    &&& r.previous[k].mpris_art_data == Some(r.memory[(pid, name)].data)
                }
            &&& !known ==> {
                &&& r.memory.contains_key((pid, name)) <==> memory.contains_key((pid, name)) && now
                    < memory[(pid, name)].last_seen + 30_000_000_000
                &&& r.memory.contains_key((pid, name)) ==> r.memory[(pid, name)] == memory[(
                    pid,
                    name,
                )]
            }
        }),
{
    let r = refresh_of(previous, memory, apps, ignored, files, now);
    lemma_what_is_remembered(pruned(memory, now), r.previous, now, pid, name);
}

proof fn lemma_what_is_remembered(
    memory: Map<(u32, Seq<char>), ArtRecord>,
    channels: Seq<ChannelView>,
    now: i128,
    pid: u32,
    name: Seq<char>,
)
    ensures
        ({
            let known = exists|k: int|
                0 <= k < channels.len() && has_identity(#[trigger] channels[k], pid, name);
            let after = remembered(memory, channels, now);
            &&& known ==> after.contains_key((pid, name)) && after[(pid, name)].last_seen == now
                && exists|k: int|
                {
                    &&& 0 <= k < channels.len()
                    &&& has_identity(#[trigger] channels[k], pid, name)
                    &&& channels[k].mpris_art_path == Some(after[(pid, name)].path)
                    &&& channels[k].mpris_art_data == Some(after[(pid, name)].data)
                }
            &&& !known ==> after.contains_key((pid, name)) == memory.contains_key((pid, name))
                && after[(pid, name)] == memory[(pid, name)]
        }),
    decreases channels.len(),
{
    if channels.len() > 0 {
        let rest = channels.drop_last();
        let last = channels.len() - 1;
        lemma_what_is_remembered(memory, rest, now, pid, name);
        assert(channels.last() == channels[last]);
        assert forall|k: int| 0 <= k < rest.len() implies rest[k] == #[trigger] channels[k] by {}
        if has_identity(channels[last], pid, name) {
            assert(remembered(memory, channels, now)[(pid, name)].path
                == channels[last].mpris_art_path->0);
        } else if exists|k: int|
            0 <= k < channels.len() && has_identity(#[trigger] channels[k], pid, name) {
            let k = choose|k: int|
                0 <= k < channels.len() && has_identity(#[trigger] channels[k], pid, name);
            assert(has_identity(rest[k], pid, name));
            let before = remembered(memory, rest, now);
            let l = choose|l: int|
                {
                    &&& 0 <= l < rest.len()
                    &&& has_identity(#[trigger] rest[l], pid, name)
                    &&& rest[l].mpris_art_path == Some(before[(pid, name)].path)
                    &&& rest[l].mpris_art_data == Some(before[(pid, name)].data)
                };
            assert(has_identity(channels[l], pid, name));
        } else {
            assert forall|k: int| 0 <= k < rest.len() implies !has_identity(
                #[trigger] rest[k],
                pid,
                name,
            ) by {
                assert(!has_identity(channels[k], pid, name));
            }
        }
    }
}

/// What is remembered after a refresh: the art of every channel that it gave, as of
/// now, and of other identities what was remembered at the refresh.
pub proof fn law_memory_after_a_refresh(r: Refresh, pid: u32, name: Seq<char>)
    ensures
        ({
            let known = exists|i: int|
                0 <= i < refreshed(r).len() && has_identity(
                    (#[trigger] refreshed(r)[i]).channel,
                    pid,
                    name,
                );
            let after = memory_after(r);
            &&& known ==> after.contains_key((pid, name)) && after[(pid, name)].last_seen == r.now
                && exists|i: int|
                {
                    &&& 0 <= i < refreshed(r).len()
                    &&& has_identity((#[trigger] refreshed(r)[i]).channel, pid, name)
                    &&& refreshed(r)[i].channel.mpris_art_path == Some(after[(pid, name)].path)
                    &&& refreshed(r)[i].channel.mpris_art_data == Some(after[(pid, name)].data)
                }
            &&& !known ==> after.contains_key((pid, name)) == r.memory.contains_key((pid, name))
                && after[(pid, name)] == r.memory[(pid, name)]
        }),
{
    let channels = channels_in(refreshed(r));
    lemma_what_is_remembered(r.memory, channels, r.now, pid, name);
    assert forall|i: int| 0 <= i < refreshed(r).len() implies (#[trigger] refreshed(
        r,
    )[i]).channel == channels[i] by {}
    if exists|k: int| 0 <= k < channels.len() && has_identity(#[trigger] channels[k], pid, name) {
        let after = memory_after(r);
        let k = choose|k: int|
            {
                &&& 0 <= k < channels.len()
                &&& has_identity(#[trigger] channels[k], pid, name)
                &&& channels[k].mpris_art_path == Some(after[(pid, name)].path)
                &&& channels[k].mpris_art_data == Some(after[(pid, name)].data)
            };
        assert(has_identity(refreshed(r)[k].channel, pid, name));
    } else {
        assert forall|i: int| 0 <= i < refreshed(r).len() implies !has_identity(
            (#[trigger] refreshed(r)[i]).channel,
            pid,
            name,
        ) by {
            assert(!has_identity(channels[i], pid, name));
        }
    }
}

/// The channel of a stream at cold start shows the stream as it is: its name and its
/// live data, no time, and no icon until the lookup is answered. It holds no art file
/// unless it claimed one; a Kick stream claims none. It is locked if its name is a real
/// one, its art is decided and no avatar is on its way.
pub proof fn law_channel_at_cold_start(
    apps: Seq<AppView>,
    files: Seq<ArtFileView>,
    now: i128,
    i: int,
)
    requires
        0 <= i < apps.len(),
    ensures
        ({
            let app = apps[i];
            let ch = channels_at_start(Seq::empty(), apps, files, now)[i].channel;
            &&& super::laws::shows(ch, app)
            &&& ch.pid == app.pid
            &&& ch.app_name == app.app_name
            &&& ch.first_seen is None
            &&& ch.uses_default_icon
            &&& ch.mpris_art_path is None ==> ch.mpris_art_data == app.kick_art
            &&& ch.mpris_art_path is Some ==> ch.art_resolved && ch.mpris_art_data is Some
            &&& slug_in(app.app_name) is Some || app.pid is None ==> ch.mpris_art_path is None
                && ch.art_resolved
            &&& slug_in(app.app_name) is None && app.pid is Some && ch.mpris_art_path is None
                ==> !ch.art_resolved
            &&& ch.locked <==> ch.art_resolved && !is_generic(ch.app_name) && !app.kick_pending
        }),
{
    lemma_created(apps, files, now, apps.len() as int);
}

proof fn lemma_claimed_at_start(
    apps: Seq<AppView>,
    files: Seq<ArtFileView>,
    now: i128,
    n: int,
    p: Seq<char>,
)
    requires
        0 <= n <= apps.len(),
        created_channels(apps, files, now, n).1.contains(p),
    ensures
        exists|j: int|
            0 <= j < n && (#[trigger] created_channels(
                apps,
                files,
                now,
                apps.len() as int,
            ).0[j]).channel.mpris_art_path == Some(p),
    decreases n,
{
    if n > 0 {
        let all = created_channels(apps, files, now, apps.len() as int).0;
        lemma_created(apps, files, now, apps.len() as int);
        if created_channels(apps, files, now, n - 1).1.contains(p) {
            lemma_claimed_at_start(apps, files, now, n - 1, p);
            let j = choose|j: int|
                0 <= j < n - 1 && (#[trigger] all[j]).channel.mpris_art_path == Some(p);
            assert(all[j].channel.mpris_art_path == Some(p));
        } else {
            assert(all[n - 1].channel.mpris_art_path == Some(p));
        }
    }
}

/// A stream that is alone in its process at cold start, and is no Kick stream, claims
/// an art file that is no older than any other of its process that no stream before it
/// has claimed; one that shares its process claims none.
pub proof fn law_first_art_is_the_newest(
    apps: Seq<AppView>,
    files: Seq<ArtFileView>,
    now: i128,
    i: int,
    f: int,
)
    requires
        0 <= i < apps.len(),
        apps.len() <= usize::MAX,
        apps[i].pid is Some,
        slug_in(apps[i].app_name) is None,
        forall|k: int| 0 <= k < files.len() ==> (#[trigger] files[k]).data is Some,
        forall|a: int, b: int|
            #![trigger files[a], files[b]]
            0 <= a < b < files.len() ==> files[a].path != files[b].path,
        0 <= f < files.len(),
        names_art_of(files[f].file_name, apps[i].pid->0),
        files[f].written is Some,
        forall|j: int|
            0 <= j < i ==> (#[trigger] channels_at_start(
                Seq::empty(),
                apps,
                files,
                now,
            )[j]).channel.mpris_art_path != Some(files[f].path),
    ensures
        ({
            let ch = channels_at_start(Seq::empty(), apps, files, now)[i].channel;
            let alone = forall|j: int|
                0 <= j < apps.len() && j != i && (#[trigger] apps[j]).pid == apps[i].pid
                    ==> slug_in(apps[j].app_name) is Some;
            &&& !alone ==> ch.mpris_art_path is None
            &&& alone ==> (ch.mpris_art_path matches Some(path) && exists|k: int|
                {
                    &&& 0 <= k < files.len()
                    &&& (#[trigger] files[k]).path == path
                    &&& ch.mpris_art_data == files[k].data
                    &&& names_art_of(files[k].file_name, apps[i].pid->0)
                    &&& files[k].written matches Some(t) && t >= files[f].written->0
                })
        }),
{
    lemma_created(apps, files, now, apps.len() as int);
    let all = created_channels(apps, files, now, apps.len() as int).0;
    assert(channels_at_start(Seq::empty(), apps, files, now) == all);
    let claimed = created_channels(apps, files, now, i).1;
    let pid = apps[i].pid->0;
    let count = sharing(pid_counts(apps), pid);
    if claimed.contains(files[f].path) {
        lemma_claimed_at_start(apps, files, now, i, files[f].path);
        let j = choose|j: int|
            0 <= j < i && (#[trigger] all[j]).channel.mpris_art_path == Some(files[f].path);
        assert(channels_at_start(Seq::empty(), apps, files, now)[j].channel.mpris_art_path
            != Some(files[f].path));
    }
    crate::mpris::law_cold_start_claims_the_newest(files, pid, count, claimed, f);
    law_sharing_counts_the_streams_of_a_process(apps, pid);
    let alone = forall|j: int|
        0 <= j < apps.len() && j != i && (#[trigger] apps[j]).pid == apps[i].pid ==> slug_in(
            apps[j].app_name,
        ) is Some;
    if !alone {
        let j = choose|j: int|
            0 <= j < apps.len() && j != i && (#[trigger] apps[j]).pid == apps[i].pid && slug_in(
                apps[j].app_name,
            ) is None;
        if i < j {
            assert(apps[i].pid == Some(pid) && apps[j].pid == Some(pid));
        } else {
            assert(apps[j].pid == Some(pid) && apps[i].pid == Some(pid));
        }
        assert(count > 1);
    } else if count > 1 {
        let (a, b) = choose|a: int, b: int|
            {
                &&& 0 <= a < b < apps.len()
                &&& (#[trigger] apps[a]).pid == Some(pid)
                &&& slug_in(apps[a].app_name) is None
                &&& (#[trigger] apps[b]).pid == Some(pid)
                &&& slug_in(apps[b].app_name) is None
            };
        assert(apps[a].pid == apps[i].pid && apps[b].pid == apps[i].pid);
    }
}

/// Channels in columns beyond the last stream stay as they are at cold start, and ask
/// for nothing.
pub proof fn law_further_columns_stay(
    existing: Seq<ChannelView>,
    apps: Seq<AppView>,
    files: Seq<ArtFileView>,
    now: i128,
    i: int,
)
    requires
        0 <= i,
    ensures
        channels_at_start(existing, apps, files, now).len() == (if existing.len() > apps.len() {
            existing.len()
        } else {
            apps.len()
        }),
        i < apps.len() ==> channels_at_start(existing, apps, files, now)[i] == channels_at_start(
            Seq::empty(),
            apps,
            files,
            now,
        )[i],
        apps.len() <= i < existing.len() ==> channels_at_start(existing, apps, files, now)[i].channel
            == existing[i] && channels_at_start(existing, apps, files, now)[i].lookup is None
            && channels_at_start(existing, apps, files, now)[i].retry is None,
{
    lemma_created(apps, files, now, apps.len() as int);
}

} // verus!
