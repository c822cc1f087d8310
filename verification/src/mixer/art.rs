//! Which art a channel claims, and when.

use super::channel::{ChannelView, MixerChannel};
use crate::audio::audio_system::{app_views, AppInfo, AppView};
use crate::kick::{kick_slug, slug_in};
use crate::mpris::{claim_art, claimable_art, file_views, ArtFile, ArtFileView, SETTLE};
use crate::text::TextSet;
use std::collections::HashMap;
use vstd::prelude::*;

verus! {

/// How many streams of a process can have written its art files. Kick streams
/// never write one, so they are not counted.
pub open spec fn pid_count(apps: Seq<AppView>, pid: u32) -> nat
    decreases apps.len(),
{
    if apps.len() == 0 {
        0
    } else {
        let earlier = pid_count(apps.drop_last(), pid);
        if apps.last().pid == Some(pid) && slug_in(apps.last().app_name) is None {
            earlier + 1
        } else {
            earlier
        }
    }
}

/// The counts of all processes that have such a stream.
pub open spec fn pid_counts(apps: Seq<AppView>) -> Map<u32, usize> {
    Map::new(|pid: u32| pid_count(apps, pid) > 0, |pid: u32| pid_count(apps, pid) as usize)
}

proof fn lemma_pid_count_bound(apps: Seq<AppView>, pid: u32)
    ensures
        pid_count(apps, pid) <= apps.len(),
    decreases apps.len(),
{
    if apps.len() > 0 {
        lemma_pid_count_bound(apps.drop_last(), pid);
    }
}

/// Count how many active streams share each PID, so the cold-start art claim can
/// tell an unambiguous single-stream PID from an ambiguous multi-stream one. A
/// Kick stream doesn't make a shared PID ambiguous for a sibling tab's claim.
pub fn count_pids(apps: &[AppInfo]) -> (r: HashMap<u32, usize>)
    ensures
        r@ == pid_counts(app_views(apps@)),
{
    broadcast use vstd::std_specs::hash::group_hash_axioms;

    let ghost all = app_views(apps@);
    let mut counts: HashMap<u32, usize> = HashMap::new();
    let mut i: usize = 0;
    proof {
        assert(all.take(0) =~= Seq::empty());
        assert(counts@ =~= pid_counts(all.take(0)));
    }
    while i < apps.len()
        invariant
            i <= apps.len(),
            all == app_views(apps@),
            counts@ == pid_counts(all.take(i as int)),
        decreases apps.len() - i,
    {
        let ghost so_far = all.take(i as int);
        let ghost longer = all.take(i + 1);
        proof {
            assert(longer.drop_last() =~= so_far);
            assert(longer.last() == apps@[i as int]@);
        }
        if kick_slug(&apps[i].app_name).is_none() {
            if let Some(pid) = apps[i].pid {
                proof {
                    lemma_pid_count_bound(so_far, pid);
                }
                let seen: usize = match counts.get(&pid) {
                    Some(n) => *n,
                    None => 0,
                };
                assert(seen == pid_count(so_far, pid));
                counts.insert(pid, seen + 1);
            }
        }
        proof {
            assert(counts@ =~= pid_counts(longer));
        }
        i += 1;
    }
    assert(all.take(all.len() as int) =~= all);
    counts
}

/// How many streams share a process, going by the counts; one that was not
/// counted is taken to be alone.
pub open spec fn sharing(counts: Map<u32, usize>, pid: u32) -> nat {
    if counts.contains_key(pid) {
        counts[pid] as nat
    } else {
        1
    }
}

/// What was decided of a channel's art: whether that is final, and the art that
/// is claimed, if any.
#[verifier::ext_equal]
pub struct ArtDecision {
    pub resolved: bool,
    pub claim: Option<(Seq<char>, Seq<u8>)>,
}

/// Whether an observed stream is too young for its art to have been written.
pub open spec fn is_too_early(first_seen: i128, now: i128) -> bool {
    first_seen <= now < first_seen + SETTLE
}

/// The decision on a channel's art. A decision that was made stays. A channel
/// without a process gets none. An observed stream waits [`SETTLE`] and then
/// claims what there is, if anything, for good. A stream from cold start claims
/// only if it is alone in its process, and for as long as it is not, or there is
/// nothing to claim, the decision stays open.
pub open spec fn art_decision(
    ch: ChannelView,
    counts: Map<u32, usize>,
    files: Seq<ArtFileView>,
    now: i128,
    claimed: Set<Seq<char>>,
) -> ArtDecision {
    if ch.art_resolved || ch.pid is None {
        ArtDecision { resolved: true, claim: None }
    } else {
        let pid = ch.pid->0;
        let count = sharing(counts, pid);
        let art = claimable_art(files, pid, ch.first_seen, count, claimed);
        match ch.first_seen {
            Some(first_seen) => if is_too_early(first_seen, now) {
                ArtDecision { resolved: false, claim: None }
            } else {
                ArtDecision { resolved: true, claim: art }
            },
            None => if count > 1 {
                ArtDecision { resolved: false, claim: None }
            } else {
                ArtDecision { resolved: art is Some, claim: art }
            },
        }
    }
}

/// A channel with a piece of art.
pub open spec fn with_art(ch: ChannelView, art: (Seq<char>, Seq<u8>)) -> ChannelView {
    ChannelView { mpris_art_data: Some(art.1), mpris_art_path: Some(art.0), ..ch }
}

/// A channel on whose art a decision was made.
pub open spec fn with_decision(ch: ChannelView, decision: ArtDecision) -> ChannelView {
    match decision.claim {
        Some(art) => ChannelView { art_resolved: decision.resolved, ..with_art(ch, art) },
        None => ChannelView { art_resolved: decision.resolved, ..ch },
    }
}

/// The claimed paths, with that of a piece of art.
pub open spec fn with_claim(
    claimed: Set<Seq<char>>,
    art: Option<(Seq<char>, Seq<u8>)>,
) -> Set<Seq<char>> {
    match art {
        Some(a) => claimed.insert(a.0),
        None => claimed,
    }
}

/// Apply a claimed art file to a channel and mark the path claimed.
pub fn apply_art(
    channel: &mut MixerChannel,
    path: String,
    bytes: Vec<u8>,
    claimed_paths: &mut TextSet,
)
    ensures
        final(channel)@ == with_art(old(channel)@, (path@, bytes@)),
        final(claimed_paths)@ == old(claimed_paths)@.insert(path@),
{
    let ghost before = channel@;
    claimed_paths.insert(path.clone());
    channel.mpris_art_data = Some(bytes);
    channel.mpris_art_path = Some(path);
    assert(channel@ =~= with_art(before, (path@, bytes@)));
}

fn is_young(first_seen: i128, now: i128) -> (r: bool)
    ensures
        r == is_too_early(first_seen, now),
{
    first_seen <= now && (first_seen > i128::MAX - SETTLE || now < first_seen + SETTLE)
}

/// Make (or defer) the art-claim decision for a channel. No-op once resolved.
/// Returns whether a file was claimed.
///
/// For an observed stream (`first_seen = Some`) it waits `SETTLE` for the art to
/// be written, then commits a final decision either way. At cold start it
/// best-effort claims for unambiguous single-stream PIDs and otherwise leaves
/// the channel unresolved so a later refresh can try again once the art lands.
pub fn resolve_art(
    channel: &mut MixerChannel,
    files: &[ArtFile],
    now: i128,
    pid_counts: &HashMap<u32, usize>,
    claimed_paths: &mut TextSet,
) -> (r: bool)
    ensures
        ({
            let decision = art_decision(
                old(channel)@,
                pid_counts@,
                file_views(files@),
                now,
                old(claimed_paths)@,
            );
            &&& final(channel)@ == with_decision(old(channel)@, decision)
            &&& final(claimed_paths)@ == with_claim(old(claimed_paths)@, decision.claim)
            &&& r == (decision.claim is Some)
        }),
{
    broadcast use vstd::std_specs::hash::group_hash_axioms;

    let ghost before = channel@;
    let ghost decision = art_decision(
        channel@,
        pid_counts@,
        file_views(files@),
        now,
        claimed_paths@,
    );
    if channel.art_resolved {
        assert(channel@ =~= with_decision(before, decision));
        return false;
    }
    let pid: u32 = match channel.pid {
        Some(pid) => pid,
        None => {
            // Devices / system audio never have Firefox art.
            channel.art_resolved = true;
            assert(channel@ =~= with_decision(before, decision));
            return false;
        },
    };
    let same_pid_count: usize = match pid_counts.get(&pid) {
        Some(n) => *n,
        None => 1,
    };
    match channel.first_seen {
        Some(first_seen) => {
            if is_young(first_seen, now) {
                // The browser may not have written art yet. Retry later.
                assert(channel@ =~= with_decision(before, decision));
                return false;
            }
        },
        None => {
            if same_pid_count > 1 {
                // Refuse to guess while the PID is shared.
                assert(channel@ =~= with_decision(before, decision));
                return false;
            }
        },
    }
    match claim_art(files, pid, channel.first_seen, same_pid_count, claimed_paths) {
        Some((path, bytes)) => {
            apply_art(channel, path, bytes, claimed_paths);
            channel.art_resolved = true;
            assert(channel@ =~= with_decision(before, decision));
            true
        },
        None => {
            if channel.first_seen.is_some() {
                channel.art_resolved = true;
            }
            assert(channel@ =~= with_decision(before, decision));
            false
        },
    }
}

/// Once made, a decision is final: it stays made, and nothing is claimed any
/// more.
pub proof fn law_decisions_are_final(
    ch: ChannelView,
    counts: Map<u32, usize>,
    files: Seq<ArtFileView>,
    now: i128,
    claimed: Set<Seq<char>>,
)
    requires
        ch.art_resolved,
    ensures
        with_decision(ch, art_decision(ch, counts, files, now, claimed)) == ch,
        with_claim(claimed, art_decision(ch, counts, files, now, claimed).claim) == claimed,
{
    assert(with_decision(ch, art_decision(ch, counts, files, now, claimed)) =~= ch);
}

/// An observed stream is decided on as soon as it is [`SETTLE`] old, with or
/// without art; one from cold start is decided on when it claims art, which it does
/// not while it shares its process.
pub proof fn law_when_a_decision_is_made(
    ch: ChannelView,
    counts: Map<u32, usize>,
    files: Seq<ArtFileView>,
    now: i128,
    claimed: Set<Seq<char>>,
)
    requires
        !ch.art_resolved,
        ch.pid is Some,
    ensures
        ({
            let decision = art_decision(ch, counts, files, now, claimed);
            &&& ch.first_seen matches Some(t) ==> (now >= t + SETTLE ==> decision.resolved) && (t
                <= now < t + SETTLE ==> !decision.resolved)
            &&& ch.first_seen is None ==> (decision.resolved <==> decision.claim is Some)
            &&& ch.first_seen is None && sharing(counts, ch.pid->0) > 1 ==> !decision.resolved
        }),
{
}

/// What becomes of a channel whose art is not decided on. One without a process gets
/// none, for good. One that was seen to begin waits for a second and a half. Then, or
/// from cold start if no other stream shares the process, it takes the art that it can
/// claim; nothing but its art changes, and the file counts as claimed.
pub proof fn law_channel_takes_its_art(
    ch: ChannelView,
    counts: Map<u32, usize>,
    files: Seq<ArtFileView>,
    now: i128,
    claimed: Set<Seq<char>>,
)
    requires
        !ch.art_resolved,
    ensures
        ({
            let decision = art_decision(ch, counts, files, now, claimed);
            let after = with_decision(ch, decision);
            let waits = match ch.first_seen {
                Some(t) => 0 <= now - t < 1_500_000_000,
                None => counts.contains_key(ch.pid->0) && counts[ch.pid->0] > 1,
            };
            let count = if counts.contains_key(ch.pid->0) {
                counts[ch.pid->0] as nat
            } else {
                1
            };
            let art = claimable_art(files, ch.pid->0, ch.first_seen, count, claimed);
            if ch.pid is None {
                &&& after == (ChannelView { art_resolved: true, ..ch })
                &&& with_claim(claimed, decision.claim) == claimed
            } else if waits {
                &&& after == ch
                &&& with_claim(claimed, decision.claim) == claimed
            } else if art is Some {
                &&& after == (ChannelView {
                    art_resolved: true,
                    mpris_art_path: Some((art->0).0),
                    mpris_art_data: Some((art->0).1),
                    ..ch
                })
                &&& with_claim(claimed, decision.claim) == claimed.insert((art->0).0)
            } else {
                &&& after == (ChannelView { art_resolved: ch.first_seen is Some, ..ch })
                &&& with_claim(claimed, decision.claim) == claimed
            }
        }),
{
    let after = with_decision(ch, art_decision(ch, counts, files, now, claimed));
    assert(!after.art_resolved && after.mpris_art_path == ch.mpris_art_path && after.mpris_art_data
        == ch.mpris_art_data ==> after =~= ch);
}

} // verus!
