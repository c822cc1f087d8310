//! Art that is remembered by a stream's logical identity.

use super::channel::{ChannelView, MixerChannel};
use crate::mpris::{art_view, is_generic, is_generic_name, law_placeholders_are_five_words};
use crate::text::{lowercased, opt_text, same_text, to_lowercase, TextSet};
use vstd::prelude::*;
use vstd::string::*;

verus! {

/// How long a logical stream's art is remembered after the sink-input it was
/// attached to disappears, in nanoseconds. Long enough to bridge a stream being
/// torn down and recreated under a new sink-input index, short enough that art is
/// not mis-applied to an unrelated later stream that happens to reuse the
/// identity.
pub const ART_MEMORY_TTL: i128 = 30_000_000_000;

/// MPRIS art remembered by *logical* stream identity (PID + display name) rather
/// than the volatile sink-input index.
#[derive(Debug)]
struct RememberedArt {
    pid: u32,
    name: String,
    path: String,
    data: Vec<u8>,
    last_seen: i128,
}

/// A piece of remembered art.
#[verifier::ext_equal]
pub struct ArtRecord {
    pub path: Seq<char>,
    pub data: Seq<u8>,
    pub last_seen: i128,
}

impl RememberedArt {
    spec fn key(self) -> (u32, Seq<char>) {
        (self.pid, self.name@)
    }

    spec fn record(self) -> ArtRecord {
        ArtRecord { path: self.path@, data: self.data@, last_seen: self.last_seen }
    }
}

/// Everything that is remembered, each identity once.
#[derive(Debug)]
pub struct ArtMemory {
    entries: Vec<RememberedArt>,
}

spec fn keys_are_unique(entries: Seq<RememberedArt>) -> bool {
    forall|i: int, j: int|
        #![trigger entries[i], entries[j]]
        0 <= i < j < entries.len() ==> entries[i].key() != entries[j].key()
}

spec fn has_key(entries: Seq<RememberedArt>, key: (u32, Seq<char>)) -> bool {
    exists|i: int| 0 <= i < entries.len() && (#[trigger] entries[i]).key() == key
}

spec fn position_of(entries: Seq<RememberedArt>, key: (u32, Seq<char>)) -> int {
    choose|i: int| 0 <= i < entries.len() && (#[trigger] entries[i]).key() == key
}

spec fn memory_map(entries: Seq<RememberedArt>) -> Map<(u32, Seq<char>), ArtRecord> {
    Map::new(
        |key: (u32, Seq<char>)| has_key(entries, key),
        |key: (u32, Seq<char>)| entries[position_of(entries, key)].record(),
    )
}

proof fn lemma_position(entries: Seq<RememberedArt>, i: int)
    requires
        keys_are_unique(entries),
        0 <= i < entries.len(),
    ensures
        has_key(entries, entries[i].key()),
        position_of(entries, entries[i].key()) == i,
        memory_map(entries).contains_key(entries[i].key()),
        memory_map(entries)[entries[i].key()] == entries[i].record(),
{
    let key = entries[i].key();
    assert(has_key(entries, key));
    let k = position_of(entries, key);
    assert(0 <= k < entries.len() && entries[k].key() == key);
    if k < i {
        assert(entries[k].key() != entries[i].key());
    }
    if i < k {
        assert(entries[i].key() != entries[k].key());
    }
}

impl View for ArtMemory {
    type V = Map<(u32, Seq<char>), ArtRecord>;

    closed spec fn view(&self) -> Map<(u32, Seq<char>), ArtRecord> {
        memory_map(self.entries@)
    }
}

/// Whether a piece of art was last seen less than [`ART_MEMORY_TTL`] ago.
pub open spec fn is_fresh(record: ArtRecord, now: i128) -> bool {
    now < record.last_seen + ART_MEMORY_TTL
}

/// What is left of a memory once the art that was not seen for too long is
/// forgotten.
pub open spec fn pruned(
    memory: Map<(u32, Seq<char>), ArtRecord>,
    now: i128,
) -> Map<(u32, Seq<char>), ArtRecord> {
    Map::new(
        |key: (u32, Seq<char>)| memory.contains_key(key) && is_fresh(memory[key], now),
        |key: (u32, Seq<char>)| memory[key],
    )
}

/// A memory that has taken in the art of a channel, if the channel has a process,
/// a real name and claimed art.
pub open spec fn with_channel(
    memory: Map<(u32, Seq<char>), ArtRecord>,
    ch: ChannelView,
    now: i128,
) -> Map<(u32, Seq<char>), ArtRecord> {
    match (ch.pid, ch.mpris_art_path, ch.mpris_art_data) {
        (Some(pid), Some(path), Some(data)) => if is_generic(ch.app_name) {
            memory
        } else {
            memory.insert((pid, ch.app_name), ArtRecord { path, data, last_seen: now })
        },
        _ => memory,
    }
}

impl ArtMemory {
    #[verifier::type_invariant]
    spec fn identities_are_unique(self) -> bool {
        keys_are_unique(self.entries@)
    }

    /// A memory that holds nothing.
    pub fn new() -> (r: ArtMemory)
        ensures
            r@ == Map::<(u32, Seq<char>), ArtRecord>::empty(),
    {
        let r = ArtMemory { entries: Vec::new() };
        assert(r@ =~= Map::<(u32, Seq<char>), ArtRecord>::empty());
        r
    }

    /// Remembers art under an identity, in place of what was remembered for it.
    pub fn remember(&mut self, pid: u32, name: &str, path: String, data: Vec<u8>, now: i128)
        ensures
            final(self)@ == old(self)@.insert(
                (pid, name@),
                ArtRecord { path: path@, data: data@, last_seen: now },
            ),
    {
        proof {
            use_type_invariant(&*self);
        }
        let ghost before = self.entries@;
        let ghost key = (pid, name@);
        let mut kept: Vec<RememberedArt> = Vec::new();
        std::mem::swap(&mut kept, &mut self.entries);
        let art = RememberedArt { pid, name: name.to_owned(), path, data, last_seen: now };
        let mut i: usize = 0;
        while i < kept.len() && !(kept[i].pid == pid && same_text(&kept[i].name, name))
            invariant
                i <= kept.len(),
                kept@ == before,
                key == (pid, name@),
                forall|j: int| 0 <= j < i ==> (#[trigger] before[j]).key() != key,
            decreases kept.len() - i,
        {
            i += 1;
        }
        if i < kept.len() {
            kept.set(i, art);
            proof {
                assert(kept@ =~= before.update(i as int, art));
                assert(before[i as int].key() == key);
                assert(keys_are_unique(kept@)) by {
                    assert forall|a: int, b: int|
                        #![trigger kept@[a], kept@[b]]
                        0 <= a < b < kept@.len() implies kept@[a].key() != kept@[b].key() by {
                        assert(before[a].key() != before[b].key());
                    }
                }
            }
        } else {
            kept.push(art);
            proof {
                assert(kept@ =~= before.push(art));
                assert(keys_are_unique(kept@)) by {
                    assert forall|a: int, b: int|
                        #![trigger kept@[a], kept@[b]]
                        0 <= a < b < kept@.len() implies kept@[a].key() != kept@[b].key() by {
                        if b < before.len() {
                            assert(before[a].key() != before[b].key());
                        } else {
                            assert(before[a].key() != key);
                        }
                    }
                }
            }
        }
        proof {
            let old_map = memory_map(before);
            let new_map = memory_map(kept@);
            let record = art.record();
            lemma_position(kept@, i as int);
            assert forall|k: (u32, Seq<char>)| #[trigger] new_map.contains_key(k) == old_map.insert(
                key,
                record,
            ).contains_key(k) by {
                if has_key(before, k) {
                    let j = position_of(before, k);
                    assert(before[j].key() == k);
                    assert(kept@[j].key() == k);
                }
                if has_key(kept@, k) && k != key {
                    let j = position_of(kept@, k);
                    assert(kept@[j].key() == k);
                    assert(before[j].key() == k);
                }
            }
            assert forall|k: (u32, Seq<char>)| new_map.contains_key(k) implies #[trigger] new_map[k]
                == old_map.insert(key, record)[k] by {
                if k != key {
                    let j = position_of(kept@, k);
                    assert(kept@[j].key() == k);
                    assert(before[j] == kept@[j]);
                    lemma_position(before, j);
                }
            }
            assert(new_map =~= old_map.insert(key, record));
        }
        self.entries = kept;
    }

    /// Forgets the art that was not seen for [`ART_MEMORY_TTL`].
    pub fn prune(&mut self, now: i128)
        ensures
            final(self)@ == pruned(old(self)@, now),
    {
        proof {
            use_type_invariant(&*self);
        }
        let ghost before = self.entries@;
        let mut all: Vec<RememberedArt> = Vec::new();
        std::mem::swap(&mut all, &mut self.entries);
        let mut kept: Vec<RememberedArt> = Vec::new();
        let ghost mut origin: Seq<int> = Seq::empty();
        let mut i: usize = 0;
        while i < all.len()
            invariant
                i <= all.len(),
                all@ == before,
                origin.len() == kept.len(),
                forall|a: int|
                    #![trigger kept@[a]]
                    #![trigger origin[a]]
                    0 <= a < kept.len() ==> 0 <= origin[a] < i && kept@[a].key()
                        == before[origin[a]].key() && kept@[a].record() == before[origin[a]].record()
                        && is_fresh(kept@[a].record(), now),
                forall|a: int, b: int| 0 <= a < b < kept.len() ==> origin[a] < origin[b],
                forall|j: int|
                    0 <= j < i && is_fresh((#[trigger] before[j]).record(), now) ==> has_key(
                        kept@,
                        before[j].key(),
                    ),
            decreases all.len() - i,
        {
            let last_seen: i128 = all[i].last_seen;
            if last_seen > i128::MAX - ART_MEMORY_TTL || now < last_seen + ART_MEMORY_TTL {
                let ghost earlier = kept@;
                let ghost from = origin;
                let copy = all[i].data.clone();
                assert(copy@ =~= all@[i as int].data@);
                let art = RememberedArt {
                    pid: all[i].pid,
                    name: all[i].name.clone(),
                    path: all[i].path.clone(),
                    data: copy,
                    last_seen,
                };
                kept.push(art);
                proof {
                    origin = origin.push(i as int);
                    assert(art.record() =~= before[i as int].record());
                    assert(kept@[earlier.len() as int] == art);
                    assert(is_fresh(art.record(), now));
                    assert forall|a: int| 0 <= a < earlier.len() implies kept@[a] == earlier[a]
                        && #[trigger] origin[a] == from[a] by {}
                    assert forall|j: int|
                        0 <= j < i + 1 && is_fresh((#[trigger] before[j]).record(), now) implies has_key(
                        kept@,
                        before[j].key(),
                    ) by {
                        if j < i {
                            let k = position_of(earlier, before[j].key());
                            assert(earlier[k].key() == before[j].key());
                            assert(kept@[k].key() == before[j].key());
                        }
                    }
                }
            }
            i += 1;
        }
        proof {
            assert(keys_are_unique(kept@)) by {
                assert forall|a: int, b: int|
                    #![trigger kept@[a], kept@[b]]
                    0 <= a < b < kept@.len() implies kept@[a].key() != kept@[b].key() by {
                    assert(before[origin[a]].key() != before[origin[b]].key());
                }
            }
            let old_map = memory_map(before);
            let new_map = memory_map(kept@);
            assert forall|k: (u32, Seq<char>)| #[trigger] new_map.contains_key(k) == pruned(
                old_map,
                now,
            ).contains_key(k) by {
                if has_key(kept@, k) {
                    let a = position_of(kept@, k);
                    assert(kept@[a].key() == k);
                    lemma_position(before, origin[a]);
                }
                if has_key(before, k) {
                    let j = position_of(before, k);
                    assert(before[j].key() == k);
                    lemma_position(before, j);
                }
            }
            assert forall|k: (u32, Seq<char>)| new_map.contains_key(k) implies #[trigger] new_map[k]
                == pruned(old_map, now)[k] by {
                let a = position_of(kept@, k);
                assert(kept@[a].key() == k);
                lemma_position(before, origin[a]);
            }
            assert(new_map =~= pruned(old_map, now));
        }
        self.entries = kept;
    }

    fn find(&self, pid: u32, name: &str) -> (r: Option<&RememberedArt>)
        ensures
            match r {
                Some(art) => self@.contains_key((pid, name@)) && self@[(pid, name@)]
                    == art.record(),
                None => !self@.contains_key((pid, name@)),
            },
    {
        proof {
            use_type_invariant(self);
        }
        let ghost key = (pid, name@);
        let mut i: usize = 0;
        while i < self.entries.len()
            invariant
                i <= self.entries.len(),
                keys_are_unique(self.entries@),
                key == (pid, name@),
                forall|j: int| 0 <= j < i ==> (#[trigger] self.entries@[j]).key() != key,
            decreases self.entries.len() - i,
        {
            if self.entries[i].pid == pid && same_text(&self.entries[i].name, name) {
                proof {
                    lemma_position(self.entries@, i as int);
                }
                return Some(&self.entries[i]);
            }
            i += 1;
        }
        None
    }
}

/// Record a channel's claimed art under its logical identity, if it has both a
/// PID and a real (non-generic) name. No-op for channels without art.
pub fn remember_channel_art(memory: &mut ArtMemory, ch: &MixerChannel, now: i128)
    ensures
        final(memory)@ == with_channel(old(memory)@, ch@, now),
{
    if is_generic_name(&ch.app_name) {
        return;
    }
    if let Some(pid) = ch.pid {
        if let Some(path) = &ch.mpris_art_path {
            if let Some(data) = &ch.mpris_art_data {
                let copy = data.clone();
                assert(copy@ =~= data@);
                memory.remember(pid, &ch.app_name, path.clone(), copy, now);
            }
        }
    }
}

/// Whether an identity is remembered for a process and not on screen.
pub open spec fn is_dormant(
    memory: Map<(u32, Seq<char>), ArtRecord>,
    live_names: Set<Seq<char>>,
    pid: u32,
    name: Seq<char>,
) -> bool {
    memory.contains_key((pid, name)) && !live_names.contains(lowercased(name))
}

/// Whether an identity is the only dormant one of a process.
pub open spec fn is_sole_dormant(
    memory: Map<(u32, Seq<char>), ArtRecord>,
    live_names: Set<Seq<char>>,
    pid: u32,
    name: Seq<char>,
) -> bool {
    &&& is_dormant(memory, live_names, pid, name)
    &&& forall|other: Seq<char>| #[trigger]
        is_dormant(memory, live_names, pid, other) ==> other == name
}

/// The only dormant identity of a process, if there is just one.
pub open spec fn recovered(
    memory: Map<(u32, Seq<char>), ArtRecord>,
    live_names: Set<Seq<char>>,
    pid: u32,
) -> Option<Seq<char>> {
    if exists|name: Seq<char>| is_sole_dormant(memory, live_names, pid, name) {
        Some(choose|name: Seq<char>| is_sole_dormant(memory, live_names, pid, name))
    } else {
        None
    }
}

/// Re-identify a stream that Firefox tagged with the wrong title. A freshly
/// created sink-input can inherit the browser's *active* Media Session title
/// instead of its own tab's. If exactly one remembered identity on this PID is
/// *not* currently held by a live stream, it is almost certainly this returning
/// stream. Ambiguous/empty cases return `None`, never a guess. `live_names` holds
/// the lowercased names of every live stream, so an identity still on screen is
/// never reused.
pub fn recover_identity_from_memory(memory: &ArtMemory, pid: u32, live_names: &TextSet) -> (r:
    Option<String>)
    ensures
        opt_text(r) == recovered(memory@, live_names@, pid),
{
    proof {
        use_type_invariant(memory);
    }
    let ghost map = memory@;
    let ghost live = live_names@;
    let ghost entries = memory.entries@;
    let mut found: Option<usize> = None;
    let mut i: usize = 0;
    while i < memory.entries.len()
        invariant
            i <= memory.entries.len(),
            entries == memory.entries@,
            keys_are_unique(entries),
            map == memory_map(entries),
            live == live_names@,
            match found {
                Some(k) => k < i && entries[k as int].pid == pid && is_dormant(
                    map,
                    live,
                    pid,
                    entries[k as int].name@,
                ),
                None => true,
            },
            forall|j: int|
                0 <= j < i && (#[trigger] entries[j]).pid == pid && is_dormant(
                    map,
                    live,
                    pid,
                    entries[j].name@,
                ) ==> found == Some(j as usize),
        decreases memory.entries.len() - i,
    {
        proof {
            lemma_position(entries, i as int);
        }
        if memory.entries[i].pid == pid {
            let lower = to_lowercase(&memory.entries[i].name);
            if !live_names.contains(&lower) {
                assert(is_dormant(map, live, pid, entries[i as int].name@));
                if let Some(k) = found {
                    proof {
                        assert(entries[k as int].key() != entries[i as int].key());
                        assert forall|name: Seq<char>| !is_sole_dormant(map, live, pid, name) by {
                            if is_sole_dormant(map, live, pid, name) {
                                assert(is_dormant(map, live, pid, entries[i as int].name@));
                                assert(is_dormant(map, live, pid, entries[k as int].name@));
                            }
                        }
                    }
                    return None;
                }
                found = Some(i);
            }
        }
        i += 1;
    }
    proof {
        assert forall|name: Seq<char>| #[trigger] is_dormant(map, live, pid, name) implies found
            is Some && entries[found->0 as int].name@ == name by {
            let j = position_of(entries, (pid, name));
            assert(has_key(entries, (pid, name)));
            assert(entries[j].key() == (pid, name));
        }
    }
    match found {
        Some(k) => {
            let name = memory.entries[k].name.clone();
            proof {
                assert(is_sole_dormant(map, live, pid, name@));
                let other = choose|n: Seq<char>| is_sole_dormant(map, live, pid, n);
                assert(is_sole_dormant(map, live, pid, other));
                assert(is_dormant(map, live, pid, name@));
            }
            Some(name)
        },
        None => None,
    }
}

/// The art remembered for an identity, unless the file is claimed.
pub open spec fn restorable(
    memory: Map<(u32, Seq<char>), ArtRecord>,
    pid: u32,
    name: Seq<char>,
    claimed: Set<Seq<char>>,
) -> Option<(Seq<char>, Seq<u8>)> {
    if memory.contains_key((pid, name)) && !claimed.contains(memory[(pid, name)].path) {
        Some((memory[(pid, name)].path, memory[(pid, name)].data))
    } else {
        None
    }
}

/// Look up remembered art for a *confirmed* logical identity (PID + name) and
/// return it unless a still-active stream already holds that file. Keyed on the
/// confirmed name, so it can never graft an unrelated stream's art onto this one.
pub fn remembered_art_for(memory: &ArtMemory, pid: u32, name: &str, claimed_paths: &TextSet) -> (r:
    Option<(String, Vec<u8>)>)
    ensures
        art_view(r) == restorable(memory@, pid, name@, claimed_paths@),
{
    match memory.find(pid, name) {
        Some(art) => if claimed_paths.contains(&art.path) {
            None
        } else {
            let copy = art.data.clone();
            assert(copy@ =~= art.data@);
            Some((art.path.clone(), copy))
        },
        None => None,
    }
}

/// Art is remembered for thirty seconds after it was last seen, unchanged.
pub proof fn law_memory_lasts_thirty_seconds(
    memory: Map<(u32, Seq<char>), ArtRecord>,
    now: i128,
    key: (u32, Seq<char>),
)
    ensures
        pruned(memory, now).contains_key(key) <==> memory.contains_key(key) && now
            - memory[key].last_seen < 30_000_000_000,
        pruned(memory, now).contains_key(key) ==> pruned(memory, now)[key] == memory[key],
{
}

/// The art of a channel is remembered by its process and its name, if it has a process,
/// a name that is no placeholder and art. Nothing else in the memory changes.
pub proof fn law_art_is_remembered_by_process_and_name(
    memory: Map<(u32, Seq<char>), ArtRecord>,
    ch: ChannelView,
    now: i128,
    key: (u32, Seq<char>),
)
    ensures
        ({
            let after = with_channel(memory, ch, now);
            let has_art = ch.mpris_art_path is Some && ch.mpris_art_data is Some;
            let placeholder = lowercased(ch.app_name) == "audiostream"@ || lowercased(ch.app_name)
                == "audio stream"@ || lowercased(ch.app_name) == "audio-src"@ || lowercased(
                ch.app_name,
            ) == "app_stream"@ || lowercased(ch.app_name) == "playback"@;
            if ch.pid == Some(key.0) && ch.app_name == key.1 && has_art && !placeholder {
                &&& after.contains_key(key)
                &&& after[key].path == ch.mpris_art_path->0
                &&& after[key].data == ch.mpris_art_data->0
                &&& after[key].last_seen == now
            } else {
                &&& after.contains_key(key) <==> memory.contains_key(key)
                &&& memory.contains_key(key) ==> after[key] == memory[key]
            }
        }),
{
    law_placeholders_are_five_words(ch.app_name);
}

/// A name is recovered exactly if art is remembered under it for the process, no live
/// stream has it, case aside, and both hold of no other name.
pub proof fn law_sole_absent_name_is_recovered(
    memory: Map<(u32, Seq<char>), ArtRecord>,
    live_names: Set<Seq<char>>,
    pid: u32,
    name: Seq<char>,
)
    ensures
        recovered(memory, live_names, pid) == Some(name) <==> {
            &&& memory.contains_key((pid, name))
            &&& !live_names.contains(lowercased(name))
            &&& forall|other: Seq<char>|
                other != name && #[trigger] memory.contains_key((pid, other))
                    ==> live_names.contains(lowercased(other))
        },
{
    let absent = |n: Seq<char>|
        {
            &&& memory.contains_key((pid, n))
            &&& !live_names.contains(lowercased(n))
            &&& forall|other: Seq<char>|
                other != n && #[trigger] memory.contains_key((pid, other)) ==> live_names.contains(
                    lowercased(other),
                )
        };
    assert forall|n: Seq<char>| #[trigger] is_sole_dormant(memory, live_names, pid, n) == absent(
        n,
    ) by {
        if is_sole_dormant(memory, live_names, pid, n) {
            assert forall|other: Seq<char>|
                other != n && #[trigger] memory.contains_key(
                    (pid, other),
                ) implies live_names.contains(lowercased(other)) by {
                assert(!is_dormant(memory, live_names, pid, other));
            }
        }
    }
    if is_sole_dormant(memory, live_names, pid, name) {
        let found = choose|n: Seq<char>| is_sole_dormant(memory, live_names, pid, n);
        assert(is_sole_dormant(memory, live_names, pid, found));
        assert(is_dormant(memory, live_names, pid, found));
    }
}

/// The art restored for a name is the one remembered for that process and name, and
/// there is one unless none is remembered or its file is claimed.
pub proof fn law_restored_art_is_what_was_remembered(
    memory: Map<(u32, Seq<char>), ArtRecord>,
    pid: u32,
    name: Seq<char>,
    claimed: Set<Seq<char>>,
    path: Seq<char>,
    data: Seq<u8>,
)
    ensures
        restorable(memory, pid, name, claimed) == Some((path, data)) <==> {
            &&& memory.contains_key((pid, name))
            &&& memory[(pid, name)].path == path
            &&& memory[(pid, name)].data == data
            &&& !claimed.contains(path)
        },
{
}

} // verus!
