//! What a change on the audio server calls for.

use super::audio_system::{app_views, AppInfo, AppView};
use std::collections::HashSet;
use vstd::prelude::*;

verus! {

/// The part of the audio server that an event is about.
#[derive(Clone, Copy, Debug, PartialEq, Eq, Structural)]
pub enum Facility {
    SinkInput,
    Sink,
    Other,
}

/// What happened to it.
#[derive(Clone, Copy, Debug, PartialEq, Eq, Structural)]
pub enum Change {
    New,
    Removed,
    Changed,
}

/// Whether an event bears on the list: a stream that came, went or changed, or a sink
/// that changed.
pub open spec fn bears_on_the_list(facility: Option<Facility>, change: Option<Change>) -> bool {
    match (facility, change) {
        (Some(Facility::SinkInput), Some(_)) => true,
        (Some(Facility::Sink), Some(Change::Changed)) => true,
        _ => false,
    }
}

/// Every event of a stream bears on the list; of a sink only that it changed, such as
/// its volume; and nothing else does.
pub proof fn law_events_that_bear_on_the_list(facility: Option<Facility>, change: Option<Change>)
    ensures
        bears_on_the_list(facility, change) <==> change is Some && (facility == Some(
            Facility::SinkInput,
        ) || (facility == Some(Facility::Sink) && change == Some(Change::Changed))),
{
}

/// Whether an event calls for a refresh: a stream that came, went or changed, or
/// a sink that changed.
pub fn calls_for_refresh(facility: Option<Facility>, change: Option<Change>) -> (r: bool)
    ensures
        r == bears_on_the_list(facility, change),
        r == match (facility, change) {
            (Some(Facility::SinkInput), Some(_)) => true,
            (Some(Facility::Sink), Some(Change::Changed)) => true,
            _ => false,
        },
{
    match (facility, change) {
        (Some(Facility::SinkInput), Some(_)) => true,
        (Some(Facility::Sink), Some(Change::Changed)) => true,
        _ => false,
    }
}

/// How far the connection to the audio server has come.
#[derive(Clone, Copy, Debug, PartialEq, Eq, Structural)]
pub enum ConnectionState {
    Ready,
    Failed,
    Terminated,
    Pending,
}

/// What to do next about a connection.
#[derive(Clone, Copy, Debug, PartialEq, Eq, Structural)]
pub enum ConnectionStep {
    /// Listen for events.
    Subscribe,
    /// The connection cannot be had any more.
    GiveUp,
    /// Look again after a while.
    Wait,
}

/// What to do next about a connection in some state.
pub open spec fn next_step(state: ConnectionState) -> ConnectionStep {
    match state {
        ConnectionState::Ready => ConnectionStep::Subscribe,
        ConnectionState::Failed => ConnectionStep::GiveUp,
        ConnectionState::Terminated => ConnectionStep::GiveUp,
        ConnectionState::Pending => ConnectionStep::Wait,
    }
}

/// Events are listened for exactly if the connection is ready, and it is given up
/// exactly if it has failed or ended; until then it is waited for.
pub proof fn law_connections_are_waited_for(state: ConnectionState)
    ensures
        next_step(state) == ConnectionStep::Subscribe <==> state == ConnectionState::Ready,
        next_step(state) == ConnectionStep::GiveUp <==> state == ConnectionState::Failed || state
            == ConnectionState::Terminated,
        next_step(state) == ConnectionStep::Wait <==> state == ConnectionState::Pending,
{
}

/// What to do next about a connection.
pub fn connection_step(state: ConnectionState) -> (r: ConnectionStep)
    ensures
        r == next_step(state),
        r == match state {
            ConnectionState::Ready => ConnectionStep::Subscribe,
            ConnectionState::Failed => ConnectionStep::GiveUp,
            ConnectionState::Terminated => ConnectionStep::GiveUp,
            ConnectionState::Pending => ConnectionStep::Wait,
        },
{
    match state {
        ConnectionState::Ready => ConnectionStep::Subscribe,
        ConnectionState::Failed => ConnectionStep::GiveUp,
        ConnectionState::Terminated => ConnectionStep::GiveUp,
        ConnectionState::Pending => ConnectionStep::Wait,
    }
}

/// Whether an entry came up muted only because the audio server replayed an
/// earlier mute: it is a muted browser stream, and none of its members was there
/// before.
pub open spec fn is_restored_mute(app: AppView, seen: Set<u32>) -> bool {
    &&& !app.is_device
    &&& app.is_browser
    &&& app.mute
    &&& forall|k: int|
        0 <= k < app.member_uids.len() ==> !seen.contains(#[trigger] app.member_uids[k])
}

/// An entry with a replayed mute lifted.
pub open spec fn with_mute_lifted(app: AppView, seen: Set<u32>) -> AppView {
    if is_restored_mute(app, seen) {
        AppView { mute: false, ..app }
    } else {
        app
    }
}

/// The members of all entries with a replayed mute.
pub open spec fn restored_mutes(apps: Seq<AppView>, seen: Set<u32>) -> Seq<u32>
    decreases apps.len(),
{
    if apps.len() == 0 {
        Seq::empty()
    } else {
        let earlier = restored_mutes(apps.drop_last(), seen);
        if is_restored_mute(apps.last(), seen) {
            earlier + apps.last().member_uids
        } else {
            earlier
        }
    }
}

/// The members of all entries but devices.
pub open spec fn stream_uids(apps: Seq<AppView>) -> Set<u32>
    decreases apps.len(),
{
    if apps.len() == 0 {
        Set::empty()
    } else {
        let earlier = stream_uids(apps.drop_last());
        if apps.last().is_device {
            earlier
        } else {
            earlier.union(apps.last().member_uids.to_set())
        }
    }
}

fn none_seen(uids: &Vec<u32>, seen: &HashSet<u32>) -> (r: bool)
    ensures
        r == (forall|k: int| 0 <= k < uids@.len() ==> !seen@.contains(#[trigger] uids@[k])),
{
    let mut k: usize = 0;
    while k < uids.len()
        invariant
            k <= uids.len(),
            forall|j: int| 0 <= j < k ==> !seen@.contains(#[trigger] uids@[j]),
        decreases uids.len() - k,
    {
        if seen.contains(&uids[k]) {
            assert(seen@.contains(uids@[k as int]));
            return false;
        }
        k += 1;
    }
    true
}

fn append_uids(out: &mut Vec<u32>, uids: &Vec<u32>)
    ensures
        final(out)@ == old(out)@ + uids@,
{
    let mut k: usize = 0;
    assert(uids@.take(0) =~= Seq::empty());
    while k < uids.len()
        invariant
            k <= uids.len(),
            out@ =~= old(out)@ + uids@.take(k as int),
        decreases uids.len() - k,
    {
        out.push(uids[k]);
        assert(uids@.take(k + 1) =~= uids@.take(k as int).push(uids@[k as int]));
        k += 1;
    }
    assert(uids@.take(uids@.len() as int) =~= uids@);
}

fn insert_uids(seen: &mut HashSet<u32>, uids: &Vec<u32>)
    ensures
        final(seen)@ == old(seen)@.union(uids@.to_set()),
{
    let mut k: usize = 0;
    assert(seen@ =~= old(seen)@.union(uids@.take(0).to_set()));
    while k < uids.len()
        invariant
            k <= uids.len(),
            seen@ == old(seen)@.union(uids@.take(k as int).to_set()),
        decreases uids.len() - k,
    {
        seen.insert(uids[k]);
        proof {
            let taken = uids@.take(k as int);
            assert(uids@.take(k + 1) =~= taken.push(uids@[k as int]));
            taken.lemma_push_to_set_commute(uids@[k as int]);
            assert(seen@ =~= old(seen)@.union(uids@.take(k + 1).to_set()));
        }
        k += 1;
    }
    assert(uids@.take(uids@.len() as int) =~= uids@);
}

/// Flips each newly seen muted browser stream to unmuted, returns the member
/// uids to unmute on the audio server, and refreshes `seen` to the streams
/// present now.
///
/// Every browser tab shares one restore key, so muting one tab makes PulseAudio
/// start every *new* tab muted. An unseen muted browser stream is a victim of
/// that; a muted stream that was there before was muted on purpose and is left
/// alone. Closed tabs drop out of `seen`, so a reused index counts as new again.
pub fn select_restored_browser_unmutes(
    applications: &mut Vec<AppInfo>,
    seen: &mut HashSet<u32>,
) -> (r: Vec<u32>)
    ensures
        app_views(final(applications)@) == app_views(old(applications)@).map_values(
            |a: AppView| with_mute_lifted(a, old(seen)@),
        ),
        r@ == restored_mutes(app_views(old(applications)@), old(seen)@),
        final(seen)@ == stream_uids(app_views(old(applications)@)),
{
    let ghost before = app_views(applications@);
    let ghost known = seen@;
    let mut to_unmute: Vec<u32> = Vec::new();
    let mut i: usize = 0;
    assert(before.take(0) =~= Seq::empty());
    while i < applications.len()
        invariant
            i <= applications.len(),
            applications.len() == before.len(),
            seen@ == known,
            forall|j: int|
                0 <= j < i ==> (#[trigger] applications@[j])@ == with_mute_lifted(before[j], known),
            forall|j: int| i <= j < applications.len() ==> (#[trigger] applications@[j])@ == before[j],
            to_unmute@ == restored_mutes(before.take(i as int), known),
        decreases applications.len() - i,
    {
        proof {
            assert(applications@[i as int]@ == before[i as int]);
            assert(before.take(i + 1).drop_last() =~= before.take(i as int));
            assert(before.take(i + 1).last() == before[i as int]);
        }
        if !applications[i].is_device && applications[i].is_browser && applications[i].mute
            && none_seen(&applications[i].member_uids, seen) {
            append_uids(&mut to_unmute, &applications[i].member_uids);
            applications[i].mute = false;
        }
        assert(applications@[i as int]@ =~= with_mute_lifted(before[i as int], known));
        i += 1;
    }
    assert(before.take(before.len() as int) =~= before);

    seen.clear();
    let mut k: usize = 0;
    while k < applications.len()
        invariant
            k <= applications.len(),
            applications.len() == before.len(),
            forall|j: int|
                0 <= j < before.len() ==> (#[trigger] applications@[j])@ == with_mute_lifted(
                    before[j],
                    known,
                ),
            seen@ == stream_uids(before.take(k as int)),
        decreases applications.len() - k,
    {
        proof {
            assert(applications@[k as int]@ == with_mute_lifted(before[k as int], known));
            assert(before.take(k + 1).drop_last() =~= before.take(k as int));
            assert(before.take(k + 1).last() == before[k as int]);
        }
        if !applications[k].is_device {
            insert_uids(seen, &applications[k].member_uids);
        }
        k += 1;
    }
    assert(app_views(applications@) =~= before.map_values(
        |a: AppView| with_mute_lifted(a, known),
    ));
    to_unmute
}

/// The streams that were present at one refresh are what the next one counts as
/// seen, and nothing else.
pub proof fn law_seen_are_the_streams_present(apps: Seq<AppView>, uid: u32)
    ensures
        stream_uids(apps).contains(uid) <==> exists|i: int|
            0 <= i < apps.len() && !apps[i].is_device && (#[trigger] apps[i]).member_uids.contains(
                uid,
            ),
    decreases apps.len(),
{
    if apps.len() > 0 {
        let rest = apps.drop_last();
        law_seen_are_the_streams_present(rest, uid);
        assert(apps.last() == apps[apps.len() - 1]);
        if stream_uids(rest).contains(uid) {
            let i = choose|i: int|
                0 <= i < rest.len() && !rest[i].is_device && (#[trigger] rest[i]).member_uids.contains(
                    uid,
                );
            assert(apps[i] == rest[i]);
        }
        if exists|i: int|
            0 <= i < apps.len() && !apps[i].is_device && (#[trigger] apps[i]).member_uids.contains(
                uid,
            ) {
            let i = choose|i: int|
                0 <= i < apps.len() && !apps[i].is_device && (#[trigger] apps[i]).member_uids.contains(
                    uid,
                );
            if i < rest.len() {
                assert(rest[i] == apps[i]);
            }
        }
    }
}

/// A stream that was present at one refresh and comes back muted at the next
/// keeps its mute: whoever muted it meant to.
pub proof fn law_seen_mutes_are_kept(earlier: Seq<AppView>, i: int, app: AppView)
    requires
        0 <= i < earlier.len(),
        !earlier[i].is_device,
        exists|k: int|
            #![trigger app.member_uids[k]]
            0 <= k < app.member_uids.len() && earlier[i].member_uids.contains(app.member_uids[k]),
    ensures
        with_mute_lifted(app, stream_uids(earlier)) == app,
{
    let k = choose|k: int|
        #![trigger app.member_uids[k]]
        0 <= k < app.member_uids.len() && earlier[i].member_uids.contains(app.member_uids[k]);
    law_seen_are_the_streams_present(earlier, app.member_uids[k]);
    assert(earlier[i].member_uids.contains(app.member_uids[k]));
}

/// The streams to unmute on the audio server are the members of every entry that is a
/// muted browser's and of which no member was there before: all of them, and no other.
pub proof fn law_restored_mutes_are_lifted_on_the_server(
    apps: Seq<AppView>,
    seen: Set<u32>,
    uid: u32,
)
    ensures
        restored_mutes(apps, seen).contains(uid) <==> exists|i: int|
            {
                &&& 0 <= i < apps.len()
                &&& (#[trigger] apps[i]).member_uids.contains(uid)
                &&& !apps[i].is_device
                &&& apps[i].is_browser
                &&& apps[i].mute
                &&& forall|m: u32| #[trigger] apps[i].member_uids.contains(m) ==> !seen.contains(m)
            },
    decreases apps.len(),
{
    if apps.len() > 0 {
        let rest = apps.drop_last();
        let last = apps.last();
        let earlier = restored_mutes(rest, seen);
        law_restored_mutes_are_lifted_on_the_server(rest, seen, uid);
        lemma_restored_mute(last, seen);
        assert(last == apps[apps.len() - 1]);
        assert forall|i: int| 0 <= i < rest.len() implies rest[i] == #[trigger] apps[i] by {}
        if is_restored_mute(last, seen) {
            lemma_contained_in_either(earlier, last.member_uids, uid);
        }
        if earlier.contains(uid) {
            let i = choose|i: int|
                {
                    &&& 0 <= i < rest.len()
                    &&& (#[trigger] rest[i]).member_uids.contains(uid)
                    &&& !rest[i].is_device
                    &&& rest[i].is_browser
                    &&& rest[i].mute
                    &&& forall|m: u32| #[trigger]
                        rest[i].member_uids.contains(m) ==> !seen.contains(m)
                };
            assert(apps[i] == rest[i]);
        }
        if exists|i: int|
            {
                &&& 0 <= i < apps.len()
                &&& (#[trigger] apps[i]).member_uids.contains(uid)
                &&& !apps[i].is_device
                &&& apps[i].is_browser
                &&& apps[i].mute
                &&& forall|m: u32| #[trigger] apps[i].member_uids.contains(m) ==> !seen.contains(m)
            } {
            let i = choose|i: int|
                {
                    &&& 0 <= i < apps.len()
                    &&& (#[trigger] apps[i]).member_uids.contains(uid)
                    &&& !apps[i].is_device
                    &&& apps[i].is_browser
                    &&& apps[i].mute
                    &&& forall|m: u32| #[trigger]
                        apps[i].member_uids.contains(m) ==> !seen.contains(m)
                };
            if i < rest.len() {
                assert(rest[i] == apps[i]);
            }
        }
    }
}

proof fn lemma_restored_mute(app: AppView, seen: Set<u32>)
    ensures
        is_restored_mute(app, seen) <==> {
            &&& !app.is_device
            &&& app.is_browser
            &&& app.mute
            &&& forall|m: u32| #[trigger] app.member_uids.contains(m) ==> !seen.contains(m)
        },
{
    if forall|m: u32| #[trigger] app.member_uids.contains(m) ==> !seen.contains(m) {
        assert forall|k: int| 0 <= k < app.member_uids.len() implies !seen.contains(
            #[trigger] app.member_uids[k],
        ) by {
            assert(app.member_uids.contains(app.member_uids[k]));
        }
    }
}

proof fn lemma_contained_in_either(a: Seq<u32>, b: Seq<u32>, n: u32)
    ensures
        (a + b).contains(n) <==> a.contains(n) || b.contains(n),
{
    let whole = a + b;
    if a.contains(n) {
        let i = choose|i: int| 0 <= i < a.len() && a[i] == n;
        assert(whole[i] == n);
    }
    if b.contains(n) {
        let i = choose|i: int| 0 <= i < b.len() && b[i] == n;
        assert(whole[a.len() + i] == n);
    }
    if whole.contains(n) {
        let i = choose|i: int| 0 <= i < whole.len() && whole[i] == n;
        if i < a.len() {
            assert(a[i] == n);
        } else {
            assert(b[i - a.len()] == n);
        }
    }
}

/// An entry is shown without its mute exactly if it is a muted browser's of which no
/// member was there before, and nothing else of it changes.
pub proof fn law_lifting_changes_the_mute_alone(app: AppView, seen: Set<u32>)
    ensures
        with_mute_lifted(app, seen) == (AppView {
            mute: with_mute_lifted(app, seen).mute,
            ..app
        }),
        with_mute_lifted(app, seen).mute <==> app.mute && (app.is_device || !app.is_browser || exists|
            m: u32,
        |
            #[trigger] app.member_uids.contains(m) && seen.contains(m)),
{
    lemma_restored_mute(app, seen);
}

/// What one refresh unmutes, the next leaves alone: every stream that was present
/// counts as seen, so a mute that comes later stays.
pub proof fn law_later_mutes_are_kept(earlier: Seq<AppView>, later: Seq<AppView>, i: int, j: int)
    requires
        0 <= i < earlier.len(),
        0 <= j < later.len(),
        !earlier[i].is_device,
        exists|m: u32| #[trigger]
            earlier[i].member_uids.contains(m) && later[j].member_uids.contains(m),
    ensures
        with_mute_lifted(later[j], stream_uids(earlier)) == later[j],
{
    let m = choose|m: u32| #[trigger]
        earlier[i].member_uids.contains(m) && later[j].member_uids.contains(m);
    law_seen_are_the_streams_present(earlier, m);
    assert(earlier[i].member_uids.contains(m));
    lemma_restored_mute(later[j], stream_uids(earlier));
    assert(later[j].member_uids.contains(m));
}

} // verus!
