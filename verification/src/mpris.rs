//! Names and art that browsers publish for their media.
//!
//! A browser writes the art of its media sessions to files that carry only its
//! process id, so a file is tied to a stream by the time it was written. Times
//! are counted in nanoseconds from the Unix epoch.

use crate::audio::audio_system::{app_views, AppInfo, AppView};
use crate::text::{
    ascii_lower, decimal, decimal_text, ends_with, ends_with_ignoring_case,
    lemma_decimal, lowercased, opt_bytes, opt_text, same_ignoring_case, same_text,
    starts_with, strip_suffix_ci, stripped, to_lowercase, trim, trimmed, TextSet,
};
use vstd::prelude::*;
use vstd::string::*;

verus! {

/// How far *before* a stream's first-seen time art may have been written and
/// still be considered that stream's art (covers art landing slightly ahead of
/// the sink-input being observed).
pub const PRE_WINDOW: i128 = 2_000_000_000;

/// How far *after* a stream's first-seen time art may arrive (browsers often
/// write media-session art a few seconds after the audio element starts).
pub const POST_WINDOW: i128 = 4_000_000_000;

/// Minimum age of an observed stream before an art decision is made. Gives the
/// browser time to write its art file.
pub const SETTLE: i128 = 1_500_000_000;

/// Whether a lower-case name is one of the generic placeholders.
pub open spec fn is_placeholder(lower: Seq<char>) -> bool {
    ||| lower == "audiostream"@
    ||| lower == "audio stream"@
    ||| lower == "audio-src"@
    ||| lower == "app_stream"@
    ||| lower == "playback"@
}

/// Whether a name is a generic placeholder, in whatever case.
pub open spec fn is_generic(name: Seq<char>) -> bool {
    is_placeholder(lowercased(name))
}

/// Whether a lower-case name is one of the generic placeholders.
pub fn is_generic_lower(lower: &str) -> (r: bool)
    ensures
        r == is_placeholder(lower@),
{
    same_text(lower, "audiostream") || same_text(lower, "audio stream") || same_text(
        lower,
        "audio-src",
    ) || same_text(lower, "app_stream") || same_text(lower, "playback")
}

/// Check if a name is a generic placeholder that shouldn't be displayed.
pub fn is_generic_name(name: &str) -> (r: bool)
    ensures
        r == is_generic(name@),
{
    is_generic_lower(&to_lowercase(name))
}

/// A page title without the words that the site appends to it.
pub open spec fn cleaned_title(title: Seq<char>) -> Seq<char> {
    let name = trimmed(title);
    match stripped(name, " - Watch Live on Kick"@) {
        Some(body) => trimmed(body),
        None => match stripped(name, " - Kick"@) {
            Some(body) => trimmed(body),
            None => match stripped(name, " - Twitch"@) {
                Some(body) => trimmed(body),
                None => match stripped(name, " - YouTube"@) {
                    Some(body) => trimmed(body),
                    None => name,
                },
            },
        },
    }
}

/// Strip known site boilerplate suffixes from a page title.
/// "PaymoneyWubby Stream - Watch Live on Kick" -> "PaymoneyWubby Stream"
pub fn clean_stream_title(title: &str) -> (r: String)
    ensures
        r@ == cleaned_title(title@),
{
    let name = trim(title);
    let body: &str = match strip_suffix_ci(name, " - Watch Live on Kick") {
        Some(body) => trim(body),
        None => match strip_suffix_ci(name, " - Kick") {
            Some(body) => trim(body),
            None => match strip_suffix_ci(name, " - Twitch") {
                Some(body) => trim(body),
                None => match strip_suffix_ci(name, " - YouTube") {
                    Some(body) => trim(body),
                    None => name,
                },
            },
        },
    };
    body.to_owned()
}

/// Result of selecting art for a stream from the candidate files.
#[derive(Debug, PartialEq)]
pub enum ArtPick {
    Match(String),
    NoArt,
}

/// The path that was picked, if one was.
pub open spec fn pick_path(pick: ArtPick) -> Option<Seq<char>> {
    match pick {
        ArtPick::Match(path) => Some(path@),
        ArtPick::NoArt => None,
    }
}

/// The content of a list of candidates: each file's path and the time it was
/// written.
pub open spec fn candidate_views(candidates: Seq<(String, i128)>) -> Seq<(Seq<char>, i128)> {
    candidates.map_values(|c: (String, i128)| (c.0@, c.1))
}

/// Whether a file was written close enough to a stream's start to be its art.
pub open spec fn in_window(written: i128, start: i128) -> bool {
    start - PRE_WINDOW <= written <= start + POST_WINDOW
}

/// How far apart two times are.
pub open spec fn distance(a: i128, b: i128) -> int {
    if a >= b {
        a - b
    } else {
        b - a
    }
}

/// Whether a file written at `a` suits a stream that began at `start` better
/// than one written at `b`: it is closer, or it is as close and, unlike the
/// other, was not written before the stream began.
pub open spec fn closer(a: i128, b: i128, start: i128) -> bool {
    ||| distance(a, start) < distance(b, start)
    ||| distance(a, start) == distance(b, start) && a >= start && b < start
}

/// Whether candidate `i` is the art of a stream that was seen to begin at
/// `start`: it lies in the window, no other one there is closer, and of equally
/// close ones it comes first.
pub open spec fn is_observed_pick(c: Seq<(Seq<char>, i128)>, start: i128, i: int) -> bool {
    &&& 0 <= i < c.len()
    &&& in_window(c[i].1, start)
    &&& forall|j: int|
        0 <= j < c.len() && in_window((#[trigger] c[j]).1, start) ==> !closer(c[j].1, c[i].1, start)
    &&& forall|j: int|
        0 <= j < i && in_window((#[trigger] c[j]).1, start) ==> closer(c[i].1, c[j].1, start)
}

/// Whether candidate `i` is the newest; of equally new ones, the last.
pub open spec fn is_newest_pick(c: Seq<(Seq<char>, i128)>, i: int) -> bool {
    &&& 0 <= i < c.len()
    &&& forall|j: int| 0 <= j < c.len() ==> (#[trigger] c[j]).1 <= c[i].1
    &&& forall|j: int| i < j < c.len() ==> (#[trigger] c[j]).1 < c[i].1
}

/// Whether candidate `i` is the one to pick. A stream that was already playing
/// at cold start gets the newest file, unless it shares its process with others.
pub open spec fn is_pick(
    c: Seq<(Seq<char>, i128)>,
    first_seen: Option<i128>,
    same_pid_count: nat,
    i: int,
) -> bool {
    match first_seen {
        Some(start) => is_observed_pick(c, start, i),
        None => same_pid_count <= 1 && is_newest_pick(c, i),
    }
}

/// The path of the candidate to pick, if there is one.
pub open spec fn picked(
    c: Seq<(Seq<char>, i128)>,
    first_seen: Option<i128>,
    same_pid_count: nat,
) -> Option<Seq<char>> {
    if exists|i: int| is_pick(c, first_seen, same_pid_count, i) {
        Some(c[choose|i: int| is_pick(c, first_seen, same_pid_count, i)].0)
    } else {
        None
    }
}

/// At most one candidate is the one to pick.
pub proof fn law_pick_is_unique(
    c: Seq<(Seq<char>, i128)>,
    first_seen: Option<i128>,
    same_pid_count: nat,
    i: int,
    j: int,
)
    requires
        is_pick(c, first_seen, same_pid_count, i),
        is_pick(c, first_seen, same_pid_count, j),
    ensures
        i == j,
{
    if i < j {
        assert(c[i] == c[i] && c[j] == c[j]);
    } else if j < i {
        assert(c[i] == c[i] && c[j] == c[j]);
    }
}

proof fn lemma_picked(
    c: Seq<(Seq<char>, i128)>,
    first_seen: Option<i128>,
    same_pid_count: nat,
    i: int,
)
    requires
        is_pick(c, first_seen, same_pid_count, i),
    ensures
        picked(c, first_seen, same_pid_count) == Some(c[i].0),
{
    let k = choose|k: int| is_pick(c, first_seen, same_pid_count, k);
    law_pick_is_unique(c, first_seen, same_pid_count, i, k);
}

/// Art is found for an observed stream exactly when some candidate lies in its
/// window.
pub proof fn law_observed_art_exists(
    c: Seq<(Seq<char>, i128)>,
    start: i128,
    same_pid_count: nat,
)
    ensures
        picked(c, Some(start), same_pid_count) is Some <==> exists|j: int|
            0 <= j < c.len() && in_window((#[trigger] c[j]).1, start),
{
    if exists|j: int| 0 <= j < c.len() && in_window((#[trigger] c[j]).1, start) {
        let i = lemma_observed_pick_of_prefix(c, start, c.len() as int);
        assert(c.take(c.len() as int) =~= c);
        lemma_picked(c, Some(start), same_pid_count, i);
    }
}

proof fn lemma_observed_pick_of_prefix(c: Seq<(Seq<char>, i128)>, start: i128, n: int) -> (i: int)
    requires
        0 <= n <= c.len(),
        exists|j: int| 0 <= j < n && in_window((#[trigger] c[j]).1, start),
    ensures
        is_observed_pick(c.take(n), start, i),
    decreases n,
{
    let s = c.take(n);
    let last = c[n - 1];
    assert forall|j: int| 0 <= j < n implies #[trigger] s[j] == c[j] by {}
    if exists|j: int| 0 <= j < n - 1 && in_window((#[trigger] c[j]).1, start) {
        let before = c.take(n - 1);
        let i = lemma_observed_pick_of_prefix(c, start, n - 1);
        assert forall|j: int| 0 <= j < n - 1 implies #[trigger] s[j] == before[j] by {}
        if in_window(last.1, start) && closer(last.1, c[i].1, start) {
            assert(s[n - 1] == last);
            assert forall|j: int|
                0 <= j < n && in_window((#[trigger] s[j]).1, start) implies !closer(
                s[j].1,
                last.1,
                start,
            ) by {
                if j < n - 1 {
                    assert(before[j] == s[j]);
                }
            }
            assert forall|j: int|
                0 <= j < n - 1 && in_window((#[trigger] s[j]).1, start) implies closer(
                last.1,
                s[j].1,
                start,
            ) by {
                assert(before[j] == s[j]);
                assert(!closer(before[j].1, before[i].1, start));
            }
            n - 1
        } else {
            assert forall|j: int|
                0 <= j < n && in_window((#[trigger] s[j]).1, start) implies !closer(
                s[j].1,
                s[i].1,
                start,
            ) by {
                if j < n - 1 {
                    assert(before[j] == s[j]);
                }
            }
            assert forall|j: int|
                0 <= j < i && in_window((#[trigger] s[j]).1, start) implies closer(
                s[i].1,
                s[j].1,
                start,
            ) by {
                assert(before[j] == s[j]);
            }
            i
        }
    } else {
        assert(in_window(s[n - 1].1, start));
        assert forall|j: int| 0 <= j < n && in_window((#[trigger] s[j]).1, start) implies j == n
            - 1 by {
            assert(s[j] == c[j]);
        }
        n - 1
    }
}

fn pick_observed(candidates: &[(String, i128)], start: i128) -> (r: Option<usize>)
    ensures
        match r {
            Some(i) => is_observed_pick(candidate_views(candidates@), start, i as int),
            None => forall|j: int|
                0 <= j < candidates@.len() ==> !in_window((#[trigger] candidates@[j]).1, start),
        },
{
    let ghost c = candidate_views(candidates@);
    let mut best: Option<usize> = None;
    let mut i: usize = 0;
    while i < candidates.len()
        invariant
            i <= candidates.len(),
            c == candidate_views(candidates@),
            match best {
                Some(b) => {
                    &&& b < i
                    &&& in_window(c[b as int].1, start)
                    &&& forall|j: int|
                        0 <= j < i && in_window((#[trigger] c[j]).1, start) ==> !closer(
                            c[j].1,
                            c[b as int].1,
                            start,
                        )
                    &&& forall|j: int|
                        0 <= j < b && in_window((#[trigger] c[j]).1, start) ==> closer(
                            c[b as int].1,
                            c[j].1,
                            start,
                        )
                },
                None => forall|j: int| 0 <= j < i ==> !in_window((#[trigger] c[j]).1, start),
            },
        decreases candidates.len() - i,
    {
        let written: i128 = candidates[i].1;
        assert(c[i as int].1 == written);
        if is_within_window(written, start) {
            let better = match best {
                None => true,
                Some(b) => {
                    let other: i128 = candidates[b].1;
                    assert(c[b as int].1 == other);
                    let dist: i128 = gap(written, start);
                    let best_dist: i128 = gap(other, start);
                    dist < best_dist || (dist == best_dist && written >= start && other < start)
                },
            };
            if better {
                best = Some(i);
            }
        }
        i += 1;
    }
    proof {
        if best is None {
            assert forall|j: int| 0 <= j < candidates@.len() implies !in_window(
                (#[trigger] candidates@[j]).1,
                start,
            ) by {
                assert(c[j].1 == candidates@[j].1);
            }
        }
    }
    best
}

fn is_within_window(written: i128, start: i128) -> (r: bool)
    ensures
        r == in_window(written, start),
{
    if start >= i128::MIN + PRE_WINDOW && written < start - PRE_WINDOW {
        return false;
    }
    if start <= i128::MAX - POST_WINDOW && written > start + POST_WINDOW {
        return false;
    }
    true
}

fn gap(written: i128, start: i128) -> (r: i128)
    requires
        in_window(written, start),
    ensures
        r == distance(written, start),
{
    if written >= start {
        written - start
    } else {
        start - written
    }
}

fn pick_newest(candidates: &[(String, i128)]) -> (r: Option<usize>)
    ensures
        match r {
            Some(i) => is_newest_pick(candidate_views(candidates@), i as int),
            None => candidates@.len() == 0,
        },
{
    let ghost c = candidate_views(candidates@);
    if candidates.len() == 0 {
        return None;
    }
    let mut best: usize = 0;
    let mut i: usize = 1;
    while i < candidates.len()
        invariant
            best < i <= candidates.len(),
            c == candidate_views(candidates@),
            forall|j: int| 0 <= j < i ==> (#[trigger] c[j]).1 <= c[best as int].1,
            forall|j: int| best < j < i ==> (#[trigger] c[j]).1 < c[best as int].1,
        decreases candidates.len() - i,
    {
        assert(c[i as int].1 == candidates@[i as int].1);
        assert(c[best as int].1 == candidates@[best as int].1);
        if candidates[i].1 >= candidates[best].1 {
            best = i;
        }
        i += 1;
    }
    Some(best)
}

/// Pure art-selection logic.
///
/// - `first_seen = Some(t)`: the stream's start was observed. Only files written
///   within `[t - PRE_WINDOW, t + POST_WINDOW]` count, and the one closest to `t`
///   is picked, biasing toward art written at/after `t`. No file in the window
///   gives `NoArt`: an unrelated sibling's art is never borrowed.
/// - `first_seen = None`: the stream was already playing at cold start (true
///   start unknown). If it's the only browser stream on its PID, the newest file
///   is picked; if it shares the PID with others, `NoArt`.
pub fn pick_art(
    candidates: &[(String, i128)],
    first_seen: Option<i128>,
    same_pid_count: usize,
) -> (r: ArtPick)
    ensures
        pick_path(r) == picked(candidate_views(candidates@), first_seen, same_pid_count as nat),
{
    let ghost c = candidate_views(candidates@);
    let best: Option<usize> = match first_seen {
        Some(start) => pick_observed(candidates, start),
        None => if same_pid_count > 1 {
            None
        } else {
            pick_newest(candidates)
        },
    };
    match best {
        Some(i) => {
            proof {
                lemma_picked(c, first_seen, same_pid_count as nat, i as int);
            }
            ArtPick::Match(candidates[i].0.clone())
        },
        None => {
            proof {
                assert forall|i: int| !is_pick(c, first_seen, same_pid_count as nat, i) by {
                    if 0 <= i < c.len() {
                        assert(c[i].1 == candidates@[i].1);
                    }
                }
            }
            ArtPick::NoArt
        },
    }
}

/// A file in the browser's art directory.
#[derive(Debug)]
pub struct ArtFile {
    pub path: String,
    /// The last component of the path.
    pub file_name: String,
    /// When the file was born, or else last modified; `None` if neither is known.
    pub written: Option<i128>,
    /// What the file holds; `None` if it could not be read.
    pub data: Option<Vec<u8>>,
}

/// The mathematical content of an [`ArtFile`].
#[verifier::ext_equal]
pub struct ArtFileView {
    pub path: Seq<char>,
    pub file_name: Seq<char>,
    pub written: Option<i128>,
    pub data: Option<Seq<u8>>,
}

impl View for ArtFile {
    type V = ArtFileView;

    open spec fn view(&self) -> ArtFileView {
        ArtFileView {
            path: self.path@,
            file_name: self.file_name@,
            written: self.written,
            data: opt_bytes(self.data),
        }
    }
}

/// The contents of a list of files.
pub open spec fn file_views(files: Seq<ArtFile>) -> Seq<ArtFileView> {
    files.map_values(|f: ArtFile| f@)
}

/// Whether a file name is that of an art file of a process: `{pid}_{counter}.png`.
pub open spec fn names_art_of(file_name: Seq<char>, pid: u32) -> bool {
    &&& (decimal(pid as nat) + "_"@).is_prefix_of(file_name)
    &&& ".png"@.is_suffix_of(file_name)
}

/// Whether a file name is that of an art file of a process.
pub fn is_art_file_of(file_name: &str, pid: u32) -> (r: bool)
    ensures
        r == names_art_of(file_name@, pid),
{
    let prefix = decimal_text(pid).concat("_");
    starts_with(file_name, &prefix) && ends_with(file_name, ".png")
}

/// The art files of a process that are not claimed, with the times they were
/// written.
pub open spec fn candidates_in(
    files: Seq<ArtFileView>,
    pid: u32,
    exclude: Set<Seq<char>>,
) -> Seq<(Seq<char>, i128)>
    decreases files.len(),
{
    if files.len() == 0 {
        Seq::empty()
    } else {
        let earlier = candidates_in(files.drop_last(), pid, exclude);
        let file = files.last();
        if names_art_of(file.file_name, pid) && !exclude.contains(file.path) && file.written is Some {
            earlier.push((file.path, file.written->0))
        } else {
            earlier
        }
    }
}

/// Enumerate unclaimed MPRIS art files for a PID, each paired with the time it
/// was written. Since multiple streams share a PID, callers pass the set of paths
/// already claimed by other channels so a new slot never picks up another slot's
/// art.
pub fn list_art_candidates(files: &[ArtFile], pid: u32, exclude: &TextSet) -> (r: Vec<
    (String, i128),
>)
    ensures
        candidate_views(r@) == candidates_in(file_views(files@), pid, exclude@),
{
    let ghost all = file_views(files@);
    let mut out: Vec<(String, i128)> = Vec::new();
    let mut i: usize = 0;
    assert(all.take(0) =~= Seq::empty());
    assert(candidate_views(out@) =~= Seq::empty());
    while i < files.len()
        invariant
            i <= files.len(),
            all == file_views(files@),
            candidate_views(out@) == candidates_in(all.take(i as int), pid, exclude@),
        decreases files.len() - i,
    {
        let file = &files[i];
        let ghost before = out@;
        proof {
            assert(all.take(i + 1).drop_last() =~= all.take(i as int));
            assert(all.take(i + 1).last() == file@);
        }
        if is_art_file_of(&file.file_name, pid) && !exclude.contains(&file.path) {
            if let Some(written) = file.written {
                out.push((file.path.clone(), written));
                assert(candidate_views(out@) =~= candidate_views(before).push(
                    (file.path@, written),
                ));
            }
        }
        i += 1;
    }
    assert(all.take(all.len() as int) =~= all);
    out
}

/// What the file at a path holds.
pub open spec fn data_at(files: Seq<ArtFileView>, path: Seq<char>) -> Option<Seq<u8>>
    decreases files.len(),
{
    if files.len() == 0 {
        None
    } else if files[0].path == path {
        files[0].data
    } else {
        data_at(files.drop_first(), path)
    }
}

fn read_art(files: &[ArtFile], path: &str) -> (r: Option<Vec<u8>>)
    ensures
        opt_bytes(r) == data_at(file_views(files@), path@),
{
    let ghost all = file_views(files@);
    let mut i: usize = 0;
    assert(all.skip(0) =~= all);
    while i < files.len()
        invariant
            i <= files.len(),
            all == file_views(files@),
            data_at(all, path@) == data_at(all.skip(i as int), path@),
        decreases files.len() - i,
    {
        assert(all.skip(i as int)[0] == files@[i as int]@);
        if same_text(&files[i].path, path) {
            return crate::audio::audio_system::copy_bytes(&files[i].data);
        }
        assert(all.skip(i as int).drop_first() =~= all.skip(i + 1));
        i += 1;
    }
    None
}

/// The art that a stream can claim: the path of the file that correlates with it
/// and what the file holds.
pub open spec fn claimable_art(
    files: Seq<ArtFileView>,
    pid: u32,
    first_seen: Option<i128>,
    same_pid_count: nat,
    exclude: Set<Seq<char>>,
) -> Option<(Seq<char>, Seq<u8>)> {
    match picked(candidates_in(files, pid, exclude), first_seen, same_pid_count) {
        None => None,
        Some(path) => match data_at(files, path) {
            Some(data) => Some((path, data)),
            None => None,
        },
    }
}

/// The content of a piece of art.
pub open spec fn art_view(art: Option<(String, Vec<u8>)>) -> Option<(Seq<char>, Seq<u8>)> {
    match art {
        Some(a) => Some((a.0@, a.1@)),
        None => None,
    }
}

/// Try to claim unclaimed MPRIS art for a PID, tying the file to the stream by
/// timing (see [`pick_art`]). Returns the file path (so the caller can mark it
/// claimed) and the bytes, or `None` when nothing correlates confidently.
pub fn claim_art(
    files: &[ArtFile],
    pid: u32,
    first_seen: Option<i128>,
    same_pid_count: usize,
    exclude: &TextSet,
) -> (r: Option<(String, Vec<u8>)>)
    ensures
        art_view(r) == claimable_art(
            file_views(files@),
            pid,
            first_seen,
            same_pid_count as nat,
            exclude@,
        ),
{
    let candidates = list_art_candidates(files, pid, exclude);
    match pick_art(&candidates, first_seen, same_pid_count) {
        ArtPick::Match(path) => match read_art(files, &path) {
            Some(data) => Some((path, data)),
            None => None,
        },
        ArtPick::NoArt => None,
    }
}

/// Every candidate is a file of the directory that carries the process id, and
/// none of them is excluded.
pub proof fn law_candidates_are_unclaimed_art_files(
    files: Seq<ArtFileView>,
    pid: u32,
    exclude: Set<Seq<char>>,
    i: int,
)
    requires
        0 <= i < candidates_in(files, pid, exclude).len(),
    ensures
        !exclude.contains(candidates_in(files, pid, exclude)[i].0),
        exists|k: int|
            #![trigger files[k]]
            0 <= k < files.len() && names_art_of(files[k].file_name, pid) && files[k].written is Some
                && (candidates_in(files, pid, exclude)[i]) == (files[k].path, files[k].written->0),
    decreases files.len(),
{
    let rest = files.drop_last();
    let earlier = candidates_in(rest, pid, exclude);
    if i < earlier.len() {
        law_candidates_are_unclaimed_art_files(rest, pid, exclude, i);
        let k = choose|k: int|
            #![trigger rest[k]]
            0 <= k < rest.len() && names_art_of(rest[k].file_name, pid) && rest[k].written is Some
                && earlier[i] == (rest[k].path, rest[k].written->0);
        assert(rest[k] == files[k]);
    } else {
        assert(files[files.len() - 1] == files.last());
    }
}

/// Art that another channel holds is never claimed.
pub proof fn law_claimed_art_is_never_taken(
    files: Seq<ArtFileView>,
    pid: u32,
    first_seen: Option<i128>,
    same_pid_count: nat,
    exclude: Set<Seq<char>>,
)
    ensures
        claimable_art(files, pid, first_seen, same_pid_count, exclude) matches Some(art)
            ==> !exclude.contains(art.0),
{
    let c = candidates_in(files, pid, exclude);
    if picked(c, first_seen, same_pid_count) is Some {
        let i = choose|i: int| is_pick(c, first_seen, same_pid_count, i);
        assert(is_pick(c, first_seen, same_pid_count, i));
        law_candidates_are_unclaimed_art_files(files, pid, exclude, i);
    }
}

/// A media player on the session bus: the process that owns it and the title
/// that it publishes, if any.
#[derive(Debug)]
pub struct MediaPlayer {
    pub pid: u32,
    pub title: Option<String>,
}

/// The mathematical content of a [`MediaPlayer`].
#[verifier::ext_equal]
pub struct PlayerView {
    pub pid: u32,
    pub title: Option<Seq<char>>,
}

impl View for MediaPlayer {
    type V = PlayerView;

    open spec fn view(&self) -> PlayerView {
        PlayerView { pid: self.pid, title: opt_text(self.title) }
    }
}

/// The contents of a list of players.
pub open spec fn player_views(players: Seq<MediaPlayer>) -> Seq<PlayerView> {
    players.map_values(|p: MediaPlayer| p@)
}

/// Whether a bus name is that of a media player.
pub fn is_player_bus_name(name: &str) -> (r: bool)
    ensures
        r == "org.mpris.MediaPlayer2."@.is_prefix_of(name@),
{
    starts_with(name, "org.mpris.MediaPlayer2.")
}

/// Whether an entry is in need of a name: it belongs to a process, and its name
/// is a placeholder.
pub open spec fn lacks_name(app: AppView) -> bool {
    app.pid is Some && is_generic(app.app_name)
}

/// The first usable title that the players of a process publish: one that,
/// cleaned, is neither empty nor a placeholder.
pub open spec fn usable_title(players: Seq<PlayerView>, pid: u32) -> Option<Seq<char>>
    decreases players.len(),
{
    if players.len() == 0 {
        None
    } else {
        match players[0].title {
            Some(title) => if players[0].pid == pid && cleaned_title(title).len() > 0
                && !is_generic(cleaned_title(title)) {
                Some(cleaned_title(title))
            } else {
                usable_title(players.drop_first(), pid)
            },
            None => usable_title(players.drop_first(), pid),
        }
    }
}

/// An entry with the name that a player gives it, where it lacks one.
pub open spec fn with_player_title(app: AppView, players: Seq<PlayerView>) -> AppView {
    if lacks_name(app) && usable_title(players, app.pid->0) is Some {
        AppView { app_name: usable_title(players, app.pid->0)->0, ..app }
    } else {
        app
    }
}

/// Whether any entry is in need of a name.
pub fn any_lacks_name(apps: &[AppInfo]) -> (r: bool)
    ensures
        r == exists|i: int| 0 <= i < apps@.len() && lacks_name((#[trigger] apps@[i])@),
{
    let mut i: usize = 0;
    while i < apps.len()
        invariant
            i <= apps.len(),
            forall|j: int| 0 <= j < i ==> !lacks_name((#[trigger] apps@[j])@),
        decreases apps.len() - i,
    {
        if apps[i].pid.is_some() && is_generic_name(&apps[i].app_name) {
            assert(lacks_name(apps@[i as int]@));
            return true;
        }
        i += 1;
    }
    false
}

fn find_title(players: &[MediaPlayer], pid: u32) -> (r: Option<String>)
    ensures
        opt_text(r) == usable_title(player_views(players@), pid),
{
    let ghost all = player_views(players@);
    let mut i: usize = 0;
    assert(all.skip(0) =~= all);
    while i < players.len()
        invariant
            i <= players.len(),
            all == player_views(players@),
            usable_title(all, pid) == usable_title(all.skip(i as int), pid),
        decreases players.len() - i,
    {
        let player = &players[i];
        assert(all.skip(i as int)[0] == player@);
        assert(all.skip(i as int).drop_first() =~= all.skip(i + 1));
        if let Some(title) = &player.title {
            if player.pid == pid {
                let cleaned = clean_stream_title(title);
                if !cleaned.as_str().is_empty() && !is_generic_name(&cleaned) {
                    return Some(cleaned);
                }
            }
        }
        i += 1;
    }
    None
}

/// Recover real names for streams whose PulseAudio `media.name` is a generic
/// placeholder (e.g. "AudioStream"). Sites that don't use the W3C Media Session
/// API leave `media.name` generic, but the browser still publishes the page
/// title over MPRIS. The players are matched to the stream by owner PID.
///
/// Limitation: a browser process exposes a single MPRIS player reflecting its
/// active media session, so two generic streams in the same process would both
/// receive that one title. Streams with a real `media.name` are left untouched.
pub fn enrich_generic_names(apps: &mut Vec<AppInfo>, players: &[MediaPlayer])
    ensures
        app_views(final(apps)@) == app_views(old(apps)@).map_values(
            |a: AppView| with_player_title(a, player_views(players@)),
        ),
{
    let ghost before = app_views(apps@);
    let ghost all = player_views(players@);
    let mut i: usize = 0;
    while i < apps.len()
        invariant
            i <= apps.len(),
            apps.len() == before.len(),
            all == player_views(players@),
            forall|j: int|
                0 <= j < i ==> (#[trigger] apps@[j])@ == with_player_title(before[j], all),
            forall|j: int| i <= j < apps.len() ==> (#[trigger] apps@[j])@ == before[j],
        decreases apps.len() - i,
    {
        assert(apps@[i as int]@ == before[i as int]);
        if let Some(pid) = apps[i].pid {
            if is_generic_name(&apps[i].app_name) {
                if let Some(title) = find_title(players, pid) {
                    apps[i].app_name = title;
                }
            }
        }
        assert(apps@[i as int]@ =~= with_player_title(before[i as int], all));
        i += 1;
    }
    assert(app_views(apps@) =~= before.map_values(|a: AppView| with_player_title(a, all)));
}

/// A recovered name is never empty and never a placeholder, and an entry that
/// has a name of its own keeps it.
pub proof fn law_recovered_names_are_real(app: AppView, players: Seq<PlayerView>)
    ensures
        !is_generic(app.app_name) ==> with_player_title(app, players) == app,
        with_player_title(app, players).app_name != app.app_name ==> {
            &&& with_player_title(app, players).app_name.len() > 0
            &&& !is_generic(with_player_title(app, players).app_name)
        },
{
    if app.pid is Some {
        lemma_usable_title(players, app.pid->0);
    }
}

proof fn lemma_usable_title(players: Seq<PlayerView>, pid: u32)
    ensures
        usable_title(players, pid) matches Some(title) ==> title.len() > 0 && !is_generic(title),
    decreases players.len(),
{
    if players.len() > 0 {
        lemma_usable_title(players.drop_first(), pid);
    }
}

/// A file name is that of a process's art exactly if it is the process id, an
/// underscore, anything, and `.png`.
pub proof fn law_art_files_carry_their_process(pid: u32, counter: Seq<char>)
    ensures
        names_art_of(decimal(pid as nat) + "_"@ + counter + ".png"@, pid),
{
    let name = decimal(pid as nat) + "_"@ + counter + ".png"@;
    let prefix = decimal(pid as nat) + "_"@;
    assert(name.subrange(0, prefix.len() as int) =~= prefix);
    assert(name.subrange(name.len() - ".png"@.len(), name.len() as int) =~= ".png"@);
}

/// No file is the art of two processes, and every art file ends in `.png`.
pub proof fn law_art_files_are_of_one_process(file_name: Seq<char>, one: u32, other: u32)
    requires
        names_art_of(file_name, one),
    ensures
        file_name.len() >= 4,
        file_name.skip(file_name.len() - 4) == ".png"@,
        names_art_of(file_name, other) ==> one == other,
{
    reveal_strlit("_");
    reveal_strlit(".png");
    assert(file_name.skip(file_name.len() - 4) =~= ".png"@);
    if names_art_of(file_name, other) {
        let a = decimal(one as nat);
        let b = decimal(other as nat);
        lemma_decimal(one as nat);
        lemma_decimal(other as nat);
        let p = a + "_"@;
        let q = b + "_"@;
        assert(forall|i: int| 0 <= i < p.len() ==> #[trigger] p[i] == file_name[i]);
        assert(forall|i: int| 0 <= i < q.len() ==> #[trigger] q[i] == file_name[i]);
        if a.len() < b.len() {
            assert(p[a.len() as int] == '_');
            assert(q[a.len() as int] == b[a.len() as int]);
            assert('0' <= b[a.len() as int] <= '9');
        } else if b.len() < a.len() {
            assert(q[b.len() as int] == '_');
            assert(p[b.len() as int] == a[b.len() as int]);
            assert('0' <= a[b.len() as int] <= '9');
        } else {
            assert forall|i: int| 0 <= i < a.len() implies a[i] == b[i] by {
                assert(p[i] == q[i]);
            }
            assert(a =~= b);
        }
    }
}

/// Every art file of a process that is not excluded, and whose time is known, is a
/// candidate.
pub proof fn law_every_unclaimed_art_file_is_a_candidate(
    files: Seq<ArtFileView>,
    pid: u32,
    exclude: Set<Seq<char>>,
    k: int,
)
    requires
        0 <= k < files.len(),
        names_art_of(files[k].file_name, pid),
        !exclude.contains(files[k].path),
        files[k].written is Some,
    ensures
        candidates_in(files, pid, exclude).contains((files[k].path, files[k].written->0)),
    decreases files.len(),
{
    let rest = files.drop_last();
    let earlier = candidates_in(rest, pid, exclude);
    let wanted = (files[k].path, files[k].written->0);
    let last = (files.last().path, files.last().written->0);
    if k < rest.len() {
        assert(rest[k] == files[k]);
        law_every_unclaimed_art_file_is_a_candidate(rest, pid, exclude, k);
    }
    crate::text::lemma_push_contains(earlier, last, wanted);
}

/// Whether a file is one that a stream of a process may take.
spec fn is_free(file: ArtFileView, pid: u32, exclude: Set<Seq<char>>) -> bool {
    names_art_of(file.file_name, pid) && !exclude.contains(file.path) && file.written is Some
}

proof fn lemma_candidates(files: Seq<ArtFileView>, pid: u32, exclude: Set<Seq<char>>, i: int) -> (k:
    int)
    requires
        0 <= i < candidates_in(files, pid, exclude).len(),
    ensures
        0 <= k < files.len(),
        is_free(files[k], pid, exclude),
        candidates_in(files, pid, exclude)[i] == (files[k].path, files[k].written->0),
    decreases files.len(),
{
    let rest = files.drop_last();
    let earlier = candidates_in(rest, pid, exclude);
    if i < earlier.len() {
        let k = lemma_candidates(rest, pid, exclude, i);
        assert(rest[k] == files[k]);
        k
    } else {
        assert(files[files.len() - 1] == files.last());
        files.len() - 1
    }
}

proof fn lemma_data_at(files: Seq<ArtFileView>, k: int)
    requires
        0 <= k < files.len(),
        forall|a: int, b: int|
            #![trigger files[a], files[b]]
            0 <= a < b < files.len() ==> files[a].path != files[b].path,
    ensures
        data_at(files, files[k].path) == files[k].data,
    decreases files.len(),
{
    if k > 0 {
        assert(files[0].path != files[k].path);
        let rest = files.drop_first();
        assert(rest[k - 1] == files[k]);
        assert forall|a: int, b: int|
            #![trigger rest[a], rest[b]]
            0 <= a < b < rest.len() implies rest[a].path != rest[b].path by {
            assert(rest[a] == files[a + 1] && rest[b] == files[b + 1]);
        }
        lemma_data_at(rest, k - 1);
    }
}

/// What an observed stream claims, told from the files alone. The claimed file is an
/// art file of its process that nobody holds, written no more than two seconds before
/// and four seconds after the stream began, and no other such file is closer in time,
/// or as close but, unlike it, not too early. Its own bytes come with it.
pub proof fn law_claimed_art_is_the_closest_in_time(
    files: Seq<ArtFileView>,
    pid: u32,
    start: i128,
    same_pid_count: nat,
    exclude: Set<Seq<char>>,
    path: Seq<char>,
    data: Seq<u8>,
    j: int,
)
    requires
        claimable_art(files, pid, Some(start), same_pid_count, exclude) == Some((path, data)),
        forall|a: int, b: int|
            #![trigger files[a], files[b]]
            0 <= a < b < files.len() ==> files[a].path != files[b].path,
        0 <= j < files.len(),
    ensures
        exists|k: int|
            {
                &&& 0 <= k < files.len()
                &&& (#[trigger] files[k]).path == path
                &&& files[k].data == Some(data)
                &&& names_art_of(files[k].file_name, pid)
                &&& !exclude.contains(path)
                &&& files[k].written matches Some(t) && {
                    &&& start - 2_000_000_000 <= t <= start + 4_000_000_000
                    &&& names_art_of(files[j].file_name, pid) && !exclude.contains(files[j].path)
                        && files[j].written is Some && start - 2_000_000_000
                        <= files[j].written->0 <= start + 4_000_000_000 ==> {
                        let u = files[j].written->0;
                        let mine = if t >= start { t - start } else { start - t };
                        let other = if u >= start { u - start } else { start - u };
                        &&& mine <= other
                        &&& mine == other && u >= start ==> t >= start
                    }
                }
            },
{
    let c = candidates_in(files, pid, exclude);
    let i = choose|i: int| is_pick(c, Some(start), same_pid_count, i);
    assert(is_pick(c, Some(start), same_pid_count, i));
    let k = lemma_candidates(files, pid, exclude, i);
    lemma_data_at(files, k);
    if is_free(files[j], pid, exclude) {
        law_every_unclaimed_art_file_is_a_candidate(files, pid, exclude, j);
        let l = choose|l: int| 0 <= l < c.len() && c[l] == (files[j].path, files[j].written->0);
        assert(c[l].1 == files[j].written->0);
    }
    assert(files[k].path == path);
}

/// An observed stream claims art if some art file of its process that nobody holds
/// was written in its window, and the files can be read; where there is none, it
/// claims nothing.
pub proof fn law_art_in_the_window_is_claimed(
    files: Seq<ArtFileView>,
    pid: u32,
    start: i128,
    same_pid_count: nat,
    exclude: Set<Seq<char>>,
)
    requires
        forall|k: int| 0 <= k < files.len() ==> (#[trigger] files[k]).data is Some,
    ensures
        claimable_art(files, pid, Some(start), same_pid_count, exclude) is Some <==> exists|k: int|
            {
                &&& 0 <= k < files.len()
                &&& names_art_of((#[trigger] files[k]).file_name, pid)
                &&& !exclude.contains(files[k].path)
                &&& files[k].written matches Some(t) && start - 2_000_000_000 <= t <= start
                    + 4_000_000_000
            },
{
    let c = candidates_in(files, pid, exclude);
    law_observed_art_exists(c, start, same_pid_count);
    if exists|k: int|
        {
            &&& 0 <= k < files.len()
            &&& names_art_of((#[trigger] files[k]).file_name, pid)
            &&& !exclude.contains(files[k].path)
            &&& files[k].written matches Some(t) && start - 2_000_000_000 <= t <= start
                + 4_000_000_000
        } {
        let k = choose|k: int|
            {
                &&& 0 <= k < files.len()
                &&& names_art_of((#[trigger] files[k]).file_name, pid)
                &&& !exclude.contains(files[k].path)
                &&& files[k].written matches Some(t) && start - 2_000_000_000 <= t <= start
                    + 4_000_000_000
            };
        law_every_unclaimed_art_file_is_a_candidate(files, pid, exclude, k);
        let l = choose|l: int| 0 <= l < c.len() && c[l] == (files[k].path, files[k].written->0);
        assert(in_window(c[l].1, start));
        let i = choose|i: int| is_pick(c, Some(start), same_pid_count, i);
        assert(is_pick(c, Some(start), same_pid_count, i));
        let m = lemma_candidates(files, pid, exclude, i);
        lemma_readable(files, m);
    }
    if claimable_art(files, pid, Some(start), same_pid_count, exclude) is Some {
        let i = choose|i: int| is_pick(c, Some(start), same_pid_count, i);
        assert(is_pick(c, Some(start), same_pid_count, i));
        let m = lemma_candidates(files, pid, exclude, i);
        assert(names_art_of(files[m].file_name, pid));
    }
}

proof fn lemma_readable(files: Seq<ArtFileView>, k: int)
    requires
        0 <= k < files.len(),
        forall|i: int| 0 <= i < files.len() ==> (#[trigger] files[i]).data is Some,
    ensures
        data_at(files, files[k].path) is Some,
    decreases files.len(),
{
    if files[0].path != files[k].path {
        let rest = files.drop_first();
        assert(rest[k - 1] == files[k]);
        assert forall|i: int| 0 <= i < rest.len() implies (#[trigger] rest[i]).data is Some by {
            assert(rest[i] == files[i + 1]);
        }
        lemma_readable(rest, k - 1);
    }
}

/// A stream that was playing before it was observed claims the newest art file of its
/// process that nobody holds, if it is alone in the process, and else nothing.
pub proof fn law_cold_start_claims_the_newest(
    files: Seq<ArtFileView>,
    pid: u32,
    same_pid_count: nat,
    exclude: Set<Seq<char>>,
    j: int,
)
    requires
        forall|k: int| 0 <= k < files.len() ==> (#[trigger] files[k]).data is Some,
        forall|a: int, b: int|
            #![trigger files[a], files[b]]
            0 <= a < b < files.len() ==> files[a].path != files[b].path,
        0 <= j < files.len(),
        names_art_of(files[j].file_name, pid),
        !exclude.contains(files[j].path),
        files[j].written is Some,
    ensures
        same_pid_count > 1 ==> claimable_art(files, pid, None, same_pid_count, exclude) is None,
        same_pid_count <= 1 ==> (claimable_art(files, pid, None, same_pid_count, exclude) matches Some(
            art,
        ) && exists|k: int|
            {
                &&& 0 <= k < files.len()
                &&& (#[trigger] files[k]).path == art.0
                &&& files[k].data == Some(art.1)
                &&& names_art_of(files[k].file_name, pid)
                &&& !exclude.contains(art.0)
                &&& files[k].written matches Some(t) && t >= files[j].written->0
            }),
{
    let c = candidates_in(files, pid, exclude);
    law_every_unclaimed_art_file_is_a_candidate(files, pid, exclude, j);
    let l = choose|l: int| 0 <= l < c.len() && c[l] == (files[j].path, files[j].written->0);
    if same_pid_count <= 1 {
        let n = lemma_newest_of_prefix(c, c.len() as int);
        assert(c.take(c.len() as int) =~= c);
        lemma_picked(c, None, same_pid_count, n);
        let k = lemma_candidates(files, pid, exclude, n);
        lemma_data_at(files, k);
        assert(c[l].1 <= c[n].1);
        assert(files[k].path == c[n].0);
    } else {
        assert forall|i: int| !is_pick(c, None, same_pid_count, i) by {}
    }
}

proof fn lemma_newest_of_prefix(c: Seq<(Seq<char>, i128)>, n: int) -> (i: int)
    requires
        0 < n <= c.len(),
    ensures
        is_newest_pick(c.take(n), i),
    decreases n,
{
    let s = c.take(n);
    if n == 1 {
        0
    } else {
        let before = c.take(n - 1);
        let i = lemma_newest_of_prefix(c, n - 1);
        assert forall|j: int| 0 <= j < n - 1 implies #[trigger] s[j] == before[j] by {}
        if c[n - 1].1 >= c[i].1 {
            assert(s[n - 1] == c[n - 1]);
            n - 1
        } else {
            i
        }
    }
}

/// Of files that are equally close, the one that comes first in the directory is
/// picked; of equally new ones, the one that comes last.
pub proof fn law_ties_are_broken_by_place(c: Seq<(Seq<char>, i128)>, start: i128, i: int, j: int)
    requires
        0 <= i < j < c.len(),
        c[i].1 == c[j].1,
    ensures
        !is_pick(c, Some(start), 1, j),
        !is_pick(c, None, 1, i),
{
    assert(c[i] == c[i] && c[j] == c[j]);
}

/// A page title loses one of the endings that the sites append, ASCII case aside, and
/// the white space around it; any other title is only trimmed.
pub proof fn law_titles_lose_the_words_of_their_site(title: Seq<char>, body: Seq<char>, end: Seq<char>)
    requires
        trimmed(title) == body + end,
    ensures
        same_ignoring_case(end, " - Watch Live on Kick"@) || same_ignoring_case(end, " - Kick"@)
            || same_ignoring_case(end, " - Twitch"@) || same_ignoring_case(end, " - YouTube"@)
            ==> cleaned_title(title) == trimmed(body),
        !ends_with_ignoring_case(trimmed(title), " - Watch Live on Kick"@)
            && !ends_with_ignoring_case(trimmed(title), " - Kick"@) && !ends_with_ignoring_case(
            trimmed(title),
            " - Twitch"@,
        ) && !ends_with_ignoring_case(trimmed(title), " - YouTube"@) ==> cleaned_title(title)
            == trimmed(title),
{
    reveal_strlit(" - Watch Live on Kick");
    reveal_strlit(" - Kick");
    reveal_strlit(" - Twitch");
    reveal_strlit(" - YouTube");
    let name = trimmed(title);
    let long = " - Watch Live on Kick"@;
    let kick = " - Kick"@;
    let twitch = " - Twitch"@;
    let tube = " - YouTube"@;
    lemma_ending(body, end, long);
    lemma_ending(body, end, kick);
    lemma_ending(body, end, twitch);
    lemma_ending(body, end, tube);
    lemma_endings_differ(name, long, kick, 6);
    lemma_endings_differ(name, long, twitch, 1);
    lemma_endings_differ(name, long, tube, 1);
    lemma_endings_differ(name, kick, twitch, 1);
    lemma_endings_differ(name, kick, tube, 1);
    lemma_endings_differ(name, twitch, tube, 1);
}

proof fn lemma_ending(body: Seq<char>, end: Seq<char>, suffix: Seq<char>)
    ensures
        same_ignoring_case(end, suffix) ==> stripped(body + end, suffix) == Some(body),
{
    if end.len() == suffix.len() {
        crate::text::law_suffix_is_stripped(body, end, suffix);
    }
}

proof fn lemma_endings_differ(name: Seq<char>, a: Seq<char>, b: Seq<char>, d: int)
    requires
        0 < d <= a.len(),
        d <= b.len(),
        ascii_lower(a[a.len() - d]) != ascii_lower(b[b.len() - d]),
    ensures
        !(ends_with_ignoring_case(name, a) && ends_with_ignoring_case(name, b)),
{
    if ends_with_ignoring_case(name, a) && ends_with_ignoring_case(name, b) {
        let x = name.skip(name.len() - a.len());
        let y = name.skip(name.len() - b.len());
        assert(x[a.len() - d] == name[name.len() - d]);
        assert(y[b.len() - d] == name[name.len() - d]);
    }
}

/// A stream whose name is a placeholder takes the cleaned title of the first player of
/// its process whose title is any good: not empty and no placeholder once cleaned.
/// Without such a player, without a process, or with a name of its own it stays as it
/// is. Nothing but the name ever changes.
pub proof fn law_placeholders_take_the_first_good_title(
    app: AppView,
    players: Seq<PlayerView>,
    i: int,
)
    requires
        0 <= i < players.len(),
        app.pid is Some,
        is_generic(app.app_name),
    ensures
        ({
            let good = |p: PlayerView|
                app.pid == Some(p.pid) && p.title is Some && cleaned_title(p.title->0).len() > 0
                    && !is_generic(cleaned_title(p.title->0));
            &&& good(players[i]) && (forall|j: int| 0 <= j < i ==> !good(#[trigger] players[j]))
                ==> with_player_title(app, players) == (AppView {
                app_name: cleaned_title(players[i].title->0),
                ..app
            })
            &&& (forall|j: int| 0 <= j < players.len() ==> !good(#[trigger] players[j]))
                ==> with_player_title(app, players) == app
        }),
    decreases players.len(),
{
    let pid = app.pid->0;
    lemma_first_good_title(players, pid, i);
}

spec fn is_good(p: PlayerView, pid: u32) -> bool {
    p.pid == pid && p.title is Some && cleaned_title(p.title->0).len() > 0 && !is_generic(
        cleaned_title(p.title->0),
    )
}

proof fn lemma_first_good_title(players: Seq<PlayerView>, pid: u32, i: int)
    requires
        0 <= i < players.len(),
    ensures
        is_good(players[i], pid) && (forall|j: int| 0 <= j < i ==> !is_good(#[trigger] players[j], pid))
            ==> usable_title(players, pid) == Some(cleaned_title(players[i].title->0)),
        (forall|j: int| 0 <= j < players.len() ==> !is_good(#[trigger] players[j], pid))
            ==> usable_title(players, pid) is None,
    decreases players.len(),
{
    let rest = players.drop_first();
    assert forall|j: int| 0 <= j < rest.len() implies #[trigger] rest[j] == players[j + 1] by {}
    if i > 0 {
        lemma_first_good_title(rest, pid, i - 1);
    } else if rest.len() > 0 {
        lemma_first_good_title(rest, pid, 0);
    }
}

/// A stream without a process, or with a name of its own, is left as it is.
pub proof fn law_real_names_are_kept(app: AppView, players: Seq<PlayerView>)
    requires
        app.pid is None || !is_generic(app.app_name),
    ensures
        with_player_title(app, players) == app,
{
}

/// A name is a placeholder exactly if it is, case aside, one of five words.
pub proof fn law_placeholders_are_five_words(name: Seq<char>)
    ensures
        is_generic(name) <==> lowercased(name) == "audiostream"@ || lowercased(name)
            == "audio stream"@ || lowercased(name) == "audio-src"@ || lowercased(name)
            == "app_stream"@ || lowercased(name) == "playback"@,
{
}

} // verus!
