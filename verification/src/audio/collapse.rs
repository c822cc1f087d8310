//! Streams of one process under one name become one entry.

use super::audio_system::{app_views, AppInfo, AppView};
use crate::text::{lowercased, same_text, to_lowercase};
use vstd::prelude::*;
use vstd::string::*;

verus! {

/// The group that an entry belongs to: its process and its lower-case name.
/// Without a process it belongs to none.
pub open spec fn group_of(app: AppView) -> Option<(u32, Seq<char>)> {
    match app.pid {
        Some(pid) => Some((pid, lowercased(app.app_name))),
        None => None,
    }
}

/// Where a list holds the entry of a group.
pub open spec fn slot_of(out: Seq<AppView>, group: (u32, Seq<char>)) -> Option<int>
    decreases out.len(),
{
    if out.len() == 0 {
        None
    } else {
        match slot_of(out.drop_last(), group) {
            Some(i) => Some(i),
            None => if group_of(out.last()) == Some(group) {
                Some(out.len() - 1)
            } else {
                None
            },
        }
    }
}

/// An entry that has taken a further stream in: it keeps the lowest uid as its
/// identity, reports the loudest member's volume, and is muted only if every
/// member is.
pub open spec fn joined(entry: AppView, stream: AppView) -> AppView {
    AppView {
        member_uids: entry.member_uids.push(stream.uid),
        uid: if stream.uid < entry.uid {
            stream.uid
        } else {
            entry.uid
        },
        vol_percent: if stream.vol_percent > entry.vol_percent {
            stream.vol_percent
        } else {
            entry.vol_percent
        },
        mute: entry.mute && stream.mute,
        ..entry
    }
}

/// The entries that a list of streams comes to, each at the place of its first
/// stream, with the members in the order of the streams.
pub open spec fn grouped(streams: Seq<AppView>) -> Seq<AppView>
    decreases streams.len(),
{
    if streams.len() == 0 {
        Seq::empty()
    } else {
        let out = grouped(streams.drop_last());
        let stream = streams.last();
        match group_of(stream) {
            None => out.push(stream),
            Some(group) => match slot_of(out, group) {
                Some(i) => out.update(i, joined(out[i], stream)),
                None => out.push(stream),
            },
        }
    }
}

/// A number put into an ascending row, behind those that are not greater.
pub open spec fn placed(row: Seq<u32>, n: u32) -> Seq<u32>
    decreases row.len(),
{
    if row.len() == 0 || row.last() <= n {
        row.push(n)
    } else {
        placed(row.drop_last(), n).push(row.last())
    }
}

/// A row of numbers in ascending order.
pub open spec fn ascending(row: Seq<u32>) -> Seq<u32>
    decreases row.len(),
{
    if row.len() == 0 {
        row
    } else {
        placed(ascending(row.drop_last()), row.last())
    }
}

/// An entry with its members in ascending order.
pub open spec fn with_ascending_members(app: AppView) -> AppView {
    AppView { member_uids: ascending(app.member_uids), ..app }
}

/// The entries that a list of streams comes to.
pub open spec fn collapsed(streams: Seq<AppView>) -> Seq<AppView> {
    grouped(streams).map_values(|a: AppView| with_ascending_members(a))
}

fn place(row: &mut Vec<u32>, n: u32)
    ensures
        final(row)@ == placed(old(row)@, n),
    decreases old(row)@.len(),
{
    let ghost before = row@;
    if row.len() == 0 || row[row.len() - 1] <= n {
        row.push(n);
    } else {
        let last: u32 = row[row.len() - 1];
        let _ = row.pop();
        assert(row@ =~= before.drop_last());
        place(row, n);
        row.push(last);
    }
}

/// A row of numbers in ascending order.
pub fn sort_uids(row: &Vec<u32>) -> (r: Vec<u32>)
    ensures
        r@ == ascending(row@),
{
    let mut out: Vec<u32> = Vec::new();
    let mut i: usize = 0;
    assert(row@.take(0) =~= Seq::empty());
    while i < row.len()
        invariant
            i <= row.len(),
            out@ == ascending(row@.take(i as int)),
        decreases row.len() - i,
    {
        proof {
            assert(row@.take(i + 1).drop_last() =~= row@.take(i as int));
            assert(row@.take(i + 1).last() == row@[i as int]);
        }
        place(&mut out, row[i]);
        i += 1;
    }
    assert(row@.take(row@.len() as int) =~= row@);
    out
}

fn find_slot(out: &Vec<AppInfo>, pid: u32, name: &str) -> (r: Option<usize>)
    ensures
        match slot_of(app_views(out@), (pid, lowercased(name@))) {
            Some(i) => r matches Some(k) && k == i && k < out.len(),
            None => r is None,
        },
{
    let ghost all = app_views(out@);
    let ghost group = (pid, lowercased(name@));
    let wanted = to_lowercase(name);
    let mut i: usize = 0;
    assert(all.take(0) =~= Seq::empty());
    while i < out.len()
        invariant
            i <= out.len(),
            all == app_views(out@),
            group == (pid, lowercased(name@)),
            wanted@ == lowercased(name@),
            slot_of(all.take(i as int), group) is None,
        decreases out.len() - i,
    {
        proof {
            assert(all.take(i + 1).drop_last() =~= all.take(i as int));
            assert(all.take(i + 1).last() == out@[i as int]@);
        }
        if let Some(other) = out[i].pid {
            if other == pid {
                let lower = to_lowercase(&out[i].app_name);
                if same_text(&lower, &wanted) {
                    proof {
                        lemma_slot_of_prefix(all, group, i + 1);
                    }
                    return Some(i);
                }
            }
        }
        i += 1;
    }
    assert(all.take(all.len() as int) =~= all);
    None
}

proof fn lemma_slot_of_prefix(out: Seq<AppView>, group: (u32, Seq<char>), n: int)
    requires
        0 <= n <= out.len(),
        slot_of(out.take(n), group) is Some,
    ensures
        slot_of(out, group) == slot_of(out.take(n), group),
    decreases out.len() - n,
{
    if n < out.len() {
        assert(out.drop_last().take(n) =~= out.take(n));
        lemma_slot_of_prefix(out.drop_last(), group, n);
    } else {
        assert(out.take(n) =~= out);
    }
}

/// Collapse sink-inputs that belong to the same process *and* share a display
/// name into a single entry that controls all of them. This catches an app (e.g.
/// a Wine/Proton game) that opens several indistinct streams like "audio stream
/// #1/2/3": they all resolve to the same `node.name`, so they group together.
///
/// Streams that are meaningfully distinct keep different display names (browser
/// tabs carry their tab title via `media.name`), so they have different group
/// keys and are left untouched. Streams without a PID can't be safely attributed
/// to a process, so they pass through individually.
///
/// The merged entry keeps the lowest member uid as its stable identity, reports
/// the loudest member's volume, is muted only when every member is muted, and
/// lists all member uids so volume/mute can be applied to the whole group.
pub fn collapse_indistinct(streams: Vec<AppInfo>) -> (r: Vec<AppInfo>)
    ensures
        app_views(r@) == collapsed(app_views(streams@)),
{
    let ghost all = app_views(streams@);
    let mut out: Vec<AppInfo> = Vec::new();
    let mut i: usize = 0;
    assert(all.take(0) =~= Seq::empty());
    assert(app_views(out@) =~= Seq::empty());
    while i < streams.len()
        invariant
            i <= streams.len(),
            all == app_views(streams@),
            app_views(out@) == grouped(all.take(i as int)),
        decreases streams.len() - i,
    {
        let stream = &streams[i];
        let ghost before = app_views(out@);
        proof {
            assert(all.take(i + 1).drop_last() =~= all.take(i as int));
            assert(all.take(i + 1).last() == stream@);
        }
        let slot: Option<usize> = match stream.pid {
            Some(pid) => find_slot(&out, pid, &stream.app_name),
            None => None,
        };
        match slot {
            Some(k) => {
                let ghost entry = out@[k as int]@;
                assert(before[k as int] == entry);
                out[k].member_uids.push(stream.uid);
                if stream.uid < out[k].uid {
                    out[k].uid = stream.uid;
                }
                if stream.vol_percent > out[k].vol_percent {
                    out[k].vol_percent = stream.vol_percent;
                }
                if !stream.mute {
                    out[k].mute = false;
                }
                assert(out@[k as int]@ =~= joined(entry, stream@));
                assert(app_views(out@) =~= before.update(k as int, joined(entry, stream@)));
            },
            None => {
                let copy = stream.duplicate();
                out.push(copy);
                assert(app_views(out@) =~= before.push(stream@));
            },
        }
        i += 1;
    }
    assert(all.take(all.len() as int) =~= all);
    let ghost unsorted = app_views(out@);
    let mut k: usize = 0;
    while k < out.len()
        invariant
            k <= out.len(),
            out.len() == unsorted.len(),
            forall|j: int|
                0 <= j < k ==> (#[trigger] out@[j])@ == with_ascending_members(unsorted[j]),
            forall|j: int| k <= j < out.len() ==> (#[trigger] out@[j])@ == unsorted[j],
        decreases out.len() - k,
    {
        assert(out@[k as int]@ == unsorted[k as int]);
        let sorted = sort_uids(&out[k].member_uids);
        out[k].member_uids = sorted;
        assert(out@[k as int]@ =~= with_ascending_members(unsorted[k as int]));
        k += 1;
    }
    assert(app_views(out@) =~= collapsed(all));
    out
}

/// Whether stream `i` of a list belongs to a group.
pub open spec fn in_group(streams: Seq<AppView>, group: (u32, Seq<char>), i: int) -> bool {
    0 <= i < streams.len() && group_of(streams[i]) == Some(group)
}

/// The uids of a group's streams, in the order of the streams.
pub open spec fn group_uids(streams: Seq<AppView>, group: (u32, Seq<char>)) -> Seq<u32>
    decreases streams.len(),
{
    if streams.len() == 0 {
        Seq::empty()
    } else {
        let earlier = group_uids(streams.drop_last(), group);
        if group_of(streams.last()) == Some(group) {
            earlier.push(streams.last().uid)
        } else {
            earlier
        }
    }
}

/// Whether an entry speaks for a group of streams: it carries the lowest uid and
/// the loudest volume among them, and is muted exactly if all of them are.
pub open spec fn speaks_for(
    entry: AppView,
    streams: Seq<AppView>,
    group: (u32, Seq<char>),
) -> bool {
    &&& exists|i: int| #[trigger] in_group(streams, group, i) && streams[i].uid == entry.uid
    &&& forall|i: int| #[trigger] in_group(streams, group, i) ==> entry.uid <= streams[i].uid
    &&& exists|i: int| #[trigger]
        in_group(streams, group, i) && streams[i].vol_percent == entry.vol_percent
    &&& forall|i: int| #[trigger]
        in_group(streams, group, i) ==> streams[i].vol_percent <= entry.vol_percent
    &&& entry.mute == (forall|i: int| #[trigger] in_group(streams, group, i) ==> streams[i].mute)
}

proof fn lemma_slot(out: Seq<AppView>, group: (u32, Seq<char>))
    ensures
        match slot_of(out, group) {
            Some(i) => 0 <= i < out.len() && group_of(out[i]) == Some(group),
            None => forall|i: int| 0 <= i < out.len() ==> group_of(#[trigger] out[i]) != Some(group),
        },
    decreases out.len(),
{
    if out.len() > 0 {
        let rest = out.drop_last();
        lemma_slot(rest, group);
        if slot_of(out, group) is None {
            assert forall|i: int| 0 <= i < out.len() implies group_of(#[trigger] out[i]) != Some(
                group,
            ) by {
                if i < rest.len() {
                    assert(rest[i] == out[i]);
                }
            }
        }
    }
}

proof fn lemma_in_group_after_push(streams: Seq<AppView>, group: (u32, Seq<char>))
    requires
        streams.len() > 0,
    ensures
        forall|i: int| #[trigger]
            in_group(streams, group, i) <==> (in_group(streams.drop_last(), group, i) || (i
                == streams.len() - 1 && group_of(streams.last()) == Some(group))),
{
}

proof fn lemma_grouped(streams: Seq<AppView>)
    ensures
        forall|k: int|
            #![trigger grouped(streams)[k]]
            0 <= k < grouped(streams).len() ==> match group_of(grouped(streams)[k]) {
                Some(group) => speaks_for(grouped(streams)[k], streams, group),
                None => true,
            },
        forall|k: int, l: int|
            #![trigger grouped(streams)[k], grouped(streams)[l]]
            0 <= k < l < grouped(streams).len() && group_of(grouped(streams)[k]) is Some
                ==> group_of(grouped(streams)[k]) != group_of(grouped(streams)[l]),
        forall|i: int|
            #![trigger streams[i]]
            0 <= i < streams.len() ==> match group_of(streams[i]) {
                Some(group) => slot_of(grouped(streams), group) is Some,
                None => true,
            },
    decreases streams.len(),
{
    if streams.len() > 0 {
        let rest = streams.drop_last();
        let before = grouped(rest);
        let after = grouped(streams);
        let stream = streams.last();
        lemma_grouped(rest);
        if let Some(group) = group_of(stream) {
            lemma_slot(before, group);
        }
        assert forall|k: int| #![trigger after[k]] 0 <= k < after.len() implies match group_of(
            after[k],
        ) {
            Some(group) => speaks_for(after[k], streams, group),
            None => true,
        } by {
            if let Some(group) = group_of(after[k]) {
                lemma_in_group_after_push(streams, group);
                if group_of(stream) == Some(group) {
                    lemma_new_member(streams, before, group, k);
                } else {
                    assert(after[k] == before[k]);
                    lemma_same_members(before[k], streams, group);
                }
            }
        }
        assert forall|k: int, l: int|
            #![trigger after[k], after[l]]
            0 <= k < l < after.len() && group_of(after[k]) is Some implies group_of(after[k])
            != group_of(after[l]) by {
            assert(group_of(after[k]) == if k < before.len() {
                group_of(before[k])
            } else {
                group_of(stream)
            });
            assert(group_of(after[l]) == if l < before.len() {
                group_of(before[l])
            } else {
                group_of(stream)
            });
        }
        assert forall|i: int| #![trigger streams[i]] 0 <= i < streams.len() implies match group_of(
            streams[i],
        ) {
            Some(group) => slot_of(after, group) is Some,
            None => true,
        } by {
            if let Some(group) = group_of(streams[i]) {
                lemma_slot(after, group);
                lemma_slot(before, group);
                if i < rest.len() {
                    assert(rest[i] == streams[i]);
                    let k = slot_of(before, group)->0;
                    assert(group_of(after[k]) == Some(group));
                } else if let Some(k) = slot_of(before, group) {
                    assert(group_of(after[k]) == Some(group));
                } else {
                    assert(after[before.len() as int] == stream);
                }
            }
        }
    }
}

proof fn lemma_same_members(entry: AppView, streams: Seq<AppView>, group: (u32, Seq<char>))
    requires
        streams.len() > 0,
        group_of(streams.last()) != Some(group),
        speaks_for(entry, streams.drop_last(), group),
    ensures
        speaks_for(entry, streams, group),
{
    let rest = streams.drop_last();
    assert forall|i: int| #[trigger] in_group(streams, group, i) == in_group(rest, group, i) by {}
    let a = choose|i: int| #[trigger] in_group(rest, group, i) && rest[i].uid == entry.uid;
    assert(in_group(streams, group, a));
    let b = choose|i: int| #[trigger]
        in_group(rest, group, i) && rest[i].vol_percent == entry.vol_percent;
    assert(in_group(streams, group, b));
    if forall|i: int| #[trigger] in_group(streams, group, i) ==> streams[i].mute {
        assert forall|i: int| #[trigger] in_group(rest, group, i) implies rest[i].mute by {
            assert(in_group(streams, group, i));
        }
    }
}

proof fn lemma_new_member(
    streams: Seq<AppView>,
    before: Seq<AppView>,
    group: (u32, Seq<char>),
    k: int,
)
    requires
        streams.len() > 0,
        before == grouped(streams.drop_last()),
        group_of(streams.last()) == Some(group),
        0 <= k < grouped(streams).len(),
        group_of(grouped(streams)[k]) == Some(group),
        match slot_of(before, group) {
            Some(i) => 0 <= i < before.len() && group_of(before[i]) == Some(group) && speaks_for(
                before[i],
                streams.drop_last(),
                group,
            ),
            None => forall|i: int|
                0 <= i < before.len() ==> group_of(#[trigger] before[i]) != Some(group),
        },
        forall|k: int, l: int|
            #![trigger before[k], before[l]]
            0 <= k < l < before.len() && group_of(before[k]) is Some ==> group_of(before[k])
                != group_of(before[l]),
        slot_of(before, group) is None ==> forall|i: int| !#[trigger]
            in_group(streams.drop_last(), group, i),
    ensures
        speaks_for(grouped(streams)[k], streams, group),
{
    let rest = streams.drop_last();
    let stream = streams.last();
    let last = streams.len() - 1;
    let entry = grouped(streams)[k];
    assert(in_group(streams, group, last));
    match slot_of(before, group) {
        Some(i) => {
            assert(k == i) by {
                if k != i {
                    assert(before[k] == entry);
                    assert(before[i] == before[i]);
                }
            }
            let old = before[i];
            assert(entry == joined(old, stream));
            let a = choose|j: int| #[trigger] in_group(rest, group, j) && rest[j].uid == old.uid;
            assert(in_group(streams, group, a));
            let b = choose|j: int| #[trigger]
                in_group(rest, group, j) && rest[j].vol_percent == old.vol_percent;
            assert(in_group(streams, group, b));
            assert forall|j: int| #[trigger] in_group(streams, group, j) implies entry.uid
                <= streams[j].uid && streams[j].vol_percent <= entry.vol_percent && (entry.mute
                ==> streams[j].mute) by {
                if j < last {
                    assert(in_group(rest, group, j));
                }
            }
            if forall|j: int| #[trigger] in_group(streams, group, j) ==> streams[j].mute {
                assert forall|j: int| #[trigger] in_group(rest, group, j) implies rest[j].mute by {
                    assert(in_group(streams, group, j));
                }
            }
        },
        None => {
            assert(k == before.len()) by {
                if k < before.len() {
                    assert(before[k] == entry);
                }
            }
            assert(entry == stream);
            assert forall|j: int| #[trigger] in_group(streams, group, j) implies j == last by {
                if j < last {
                    assert(in_group(rest, group, j));
                }
            }
        },
    }
}

/// No two entries belong to one group, and every stream that belongs to a group
/// has its group's entry.
pub proof fn law_one_entry_for_each_group(streams: Seq<AppView>)
    ensures
        forall|k: int, l: int|
            #![trigger collapsed(streams)[k], collapsed(streams)[l]]
            0 <= k < l < collapsed(streams).len() && group_of(collapsed(streams)[k]) is Some
                ==> group_of(collapsed(streams)[k]) != group_of(collapsed(streams)[l]),
        forall|i: int|
            #![trigger streams[i]]
            0 <= i < streams.len() && group_of(streams[i]) is Some ==> exists|k: int|
                #![trigger collapsed(streams)[k]]
                0 <= k < collapsed(streams).len() && group_of(collapsed(streams)[k]) == group_of(
                    streams[i],
                ),
{
    let raw = grouped(streams);
    let out = collapsed(streams);
    lemma_grouped(streams);
    assert forall|k: int| 0 <= k < out.len() implies group_of(#[trigger] out[k]) == group_of(
        raw[k],
    ) by {}
    assert forall|i: int|
        #![trigger streams[i]]
        0 <= i < streams.len() && group_of(streams[i]) is Some implies exists|k: int|
        #![trigger out[k]]
        0 <= k < out.len() && group_of(out[k]) == group_of(streams[i]) by {
        let group = group_of(streams[i])->0;
        lemma_slot(raw, group);
        let k = slot_of(raw, group)->0;
        assert(group_of(out[k]) == Some(group));
    }
}

/// The entry of a group keeps the lowest member uid, reports the loudest
/// member's volume, and is muted exactly when every member is muted.
pub proof fn law_entry_speaks_for_its_group(streams: Seq<AppView>, k: int)
    requires
        0 <= k < collapsed(streams).len(),
    ensures
        group_of(collapsed(streams)[k]) matches Some(group) ==> speaks_for(
            collapsed(streams)[k],
            streams,
            group,
        ),
{
    lemma_grouped(streams);
    assert(grouped(streams)[k] == grouped(streams)[k]);
    let out = collapsed(streams)[k];
    if let Some(group) = group_of(out) {
        let raw = grouped(streams)[k];
        assert(speaks_for(raw, streams, group));
    }
}

/// Where every stream begins with itself as its only member, the members of a
/// group's entry are the uids of the group's streams, in ascending order.
pub proof fn law_entry_controls_its_whole_group(streams: Seq<AppView>, k: int)
    requires
        0 <= k < collapsed(streams).len(),
        forall|i: int|
            0 <= i < streams.len() ==> (#[trigger] streams[i]).member_uids == seq![streams[i].uid],
    ensures
        group_of(collapsed(streams)[k]) matches Some(group) ==> collapsed(streams)[k].member_uids
            == ascending(group_uids(streams, group)),
{
    lemma_grouped_members(streams);
    assert(grouped(streams)[k] == grouped(streams)[k]);
}

proof fn lemma_grouped_members(streams: Seq<AppView>)
    requires
        forall|i: int|
            0 <= i < streams.len() ==> (#[trigger] streams[i]).member_uids == seq![streams[i].uid],
    ensures
        forall|k: int|
            #![trigger grouped(streams)[k]]
            0 <= k < grouped(streams).len() ==> match group_of(grouped(streams)[k]) {
                Some(group) => grouped(streams)[k].member_uids == group_uids(streams, group),
                None => true,
            },
        forall|group: (u32, Seq<char>)|
            slot_of(grouped(streams), group) is None ==> #[trigger] group_uids(streams, group)
                == Seq::<u32>::empty(),
    decreases streams.len(),
{
    if streams.len() > 0 {
        let rest = streams.drop_last();
        let stream = streams.last();
        let before = grouped(rest);
        let after = grouped(streams);
        assert forall|i: int| 0 <= i < rest.len() implies (#[trigger] rest[i]).member_uids == seq![
            rest[i].uid,
        ] by {
            assert(rest[i] == streams[i]);
        }
        assert(stream == streams[streams.len() - 1]);
        lemma_grouped_members(rest);
        lemma_grouped(rest);
        if let Some(group) = group_of(stream) {
            lemma_slot(before, group);
        }
        assert forall|k: int| #![trigger after[k]] 0 <= k < after.len() implies match group_of(
            after[k],
        ) {
            Some(group) => after[k].member_uids == group_uids(streams, group),
            None => true,
        } by {
            if let Some(group) = group_of(after[k]) {
                if group_of(stream) == Some(group) {
                    match slot_of(before, group) {
                        Some(i) => {
                            if k != i {
                                assert(before[k] == after[k]);
                                assert(before[i] == before[i]);
                                assert(false);
                            }
                        },
                        None => {
                            if k < before.len() {
                                assert(before[k] == after[k]);
                                assert(false);
                            }
                            assert(group_uids(rest, group) == Seq::<u32>::empty());
                            assert(stream.member_uids =~= group_uids(rest, group).push(stream.uid));
                        },
                    }
                } else {
                    assert(after[k] == before[k]);
                }
            }
        }
        assert forall|group: (u32, Seq<char>)| slot_of(after, group) is None implies #[trigger]
        group_uids(streams, group) == Seq::<u32>::empty() by {
            lemma_slot(after, group);
            lemma_slot(before, group);
            if let Some(i) = slot_of(before, group) {
                assert(group_of(after[i]) == Some(group));
            } else {
                assert(group_uids(rest, group) == Seq::<u32>::empty());
                if group_of(stream) == Some(group) {
                    assert(after[before.len() as int] == stream);
                }
            }
        }
    } else {
        assert forall|group: (u32, Seq<char>)| #[trigger] group_uids(streams, group) == Seq::<
            u32,
        >::empty() by {}
    }
}

/// Streams without a process pass through one by one, in their order.
pub proof fn law_streams_without_process_pass_through(streams: Seq<AppView>)
    ensures
        collapsed(streams).filter(|a: AppView| a.pid is None) == streams.filter(
            |a: AppView| a.pid is None,
        ).map_values(|a: AppView| with_ascending_members(a)),
{
    lemma_loose_streams(streams);
    lemma_filter_of_mapped(grouped(streams));
}

proof fn lemma_filter_of_mapped(s: Seq<AppView>)
    ensures
        s.map_values(|a: AppView| with_ascending_members(a)).filter(|a: AppView| a.pid is None)
            == s.filter(|a: AppView| a.pid is None).map_values(
            |a: AppView| with_ascending_members(a),
        ),
    decreases s.len(),
{
    reveal(Seq::filter);
    let loose = |a: AppView| a.pid is None;
    let sorted = |a: AppView| with_ascending_members(a);
    if s.len() > 0 {
        let rest = s.drop_last();
        lemma_filter_of_mapped(rest);
        assert(s.map_values(sorted).drop_last() =~= rest.map_values(sorted));
        assert(s.map_values(sorted).last() == sorted(s.last()));
        assert(s.map_values(sorted).filter(loose) =~= s.filter(loose).map_values(sorted));
    } else {
        assert(s.map_values(sorted).filter(loose) =~= s.filter(loose).map_values(sorted));
    }
}

proof fn lemma_filter_keeps_update(s: Seq<AppView>, i: int, a: AppView)
    requires
        0 <= i < s.len(),
        s[i].pid is Some,
        a.pid is Some,
    ensures
        s.update(i, a).filter(|a: AppView| a.pid is None) == s.filter(|a: AppView| a.pid is None),
    decreases s.len(),
{
    reveal(Seq::filter);
    let updated = s.update(i, a);
    if i == s.len() - 1 {
        assert(updated.drop_last() =~= s.drop_last());
    } else {
        assert(updated.drop_last() =~= s.drop_last().update(i, a));
        assert(updated.last() == s.last());
        lemma_filter_keeps_update(s.drop_last(), i, a);
    }
}

proof fn lemma_loose_streams(streams: Seq<AppView>)
    ensures
        grouped(streams).filter(|a: AppView| a.pid is None) == streams.filter(
            |a: AppView| a.pid is None,
        ),
    decreases streams.len(),
{
    reveal(Seq::filter);
    if streams.len() > 0 {
        let rest = streams.drop_last();
        let stream = streams.last();
        let before = grouped(rest);
        lemma_loose_streams(rest);
        if let Some(group) = group_of(stream) {
            lemma_slot(before, group);
            match slot_of(before, group) {
                Some(i) => {
                    lemma_filter_keeps_update(before, i, joined(before[i], stream));
                },
                None => {
                    assert(before.push(stream).drop_last() =~= before);
                },
            }
        } else {
            assert(before.push(stream).drop_last() =~= before);
        }
    }
}

/// Sorting keeps the numbers and puts them in ascending order.
pub proof fn law_ascending_sorts(row: Seq<u32>)
    ensures
        ascending(row).to_multiset() == row.to_multiset(),
        forall|i: int, j: int|
            #![trigger ascending(row)[i], ascending(row)[j]]
            0 <= i <= j < ascending(row).len() ==> ascending(row)[i] <= ascending(row)[j],
    decreases row.len(),
{
    if row.len() > 0 {
        let rest = row.drop_last();
        law_ascending_sorts(rest);
        lemma_placed(ascending(rest), row.last());
        assert(row =~= rest.push(row.last()));
        vstd::seq_lib::to_multiset_build(rest, row.last());
    }
}

proof fn lemma_placed(row: Seq<u32>, n: u32)
    requires
        forall|i: int, j: int|
            #![trigger row[i], row[j]]
            0 <= i <= j < row.len() ==> row[i] <= row[j],
    ensures
        placed(row, n).to_multiset() == row.to_multiset().insert(n),
        forall|i: int, j: int|
            #![trigger placed(row, n)[i], placed(row, n)[j]]
            0 <= i <= j < placed(row, n).len() ==> placed(row, n)[i] <= placed(row, n)[j],
        row.len() > 0 ==> forall|i: int|
            #![trigger placed(row, n)[i]]
            0 <= i < placed(row, n).len() ==> placed(row, n)[i] <= row.last() || placed(row, n)[i]
                <= n,
    decreases row.len(),
{
    if row.len() == 0 || row.last() <= n {
        vstd::seq_lib::to_multiset_build(row, n);
        assert forall|i: int, j: int|
            #![trigger placed(row, n)[i], placed(row, n)[j]]
            0 <= i <= j < placed(row, n).len() implies placed(row, n)[i] <= placed(row, n)[j] by {
            if i < row.len() {
                assert(row[i] <= row[row.len() - 1]);
            }
        }
    } else {
        let rest = row.drop_last();
        let last = row.last();
        assert forall|i: int, j: int|
            #![trigger rest[i], rest[j]]
            0 <= i <= j < rest.len() implies rest[i] <= rest[j] by {
            assert(row[i] <= row[j]);
        }
        lemma_placed(rest, n);
        let p = placed(rest, n);
        vstd::seq_lib::to_multiset_build(p, last);
        vstd::seq_lib::to_multiset_build(rest, last);
        assert(row =~= rest.push(last));
        assert(row.to_multiset().insert(n) =~= rest.to_multiset().insert(n).insert(last));
        if rest.len() > 0 {
            assert(rest.last() <= last) by {
                assert(row[rest.len() - 1] <= row[row.len() - 1]);
            }
        }
        assert forall|i: int| 0 <= i < p.len() implies #[trigger] p[i] <= last by {
            if rest.len() == 0 {
                assert(p =~= seq![n]);
            }
        }
    }
}

/// The uids that a list of entries controls, entry by entry.
pub open spec fn controlled(entries: Seq<AppView>) -> Seq<u32>
    decreases entries.len(),
{
    if entries.len() == 0 {
        Seq::empty()
    } else {
        controlled(entries.drop_last()) + entries.last().member_uids
    }
}

/// Where every stream begins with itself as its only member, the entries control
/// the streams' uids and no others, each as often as it is a stream's: no stream is
/// lost, and none is controlled twice.
pub proof fn law_entries_control_every_stream_once(streams: Seq<AppView>)
    requires
        forall|i: int|
            0 <= i < streams.len() ==> (#[trigger] streams[i]).member_uids == seq![streams[i].uid],
    ensures
        controlled(collapsed(streams)).to_multiset() == streams.map_values(
            |a: AppView| a.uid,
        ).to_multiset(),
{
    lemma_grouped_controls(streams);
    lemma_controlled_in_order(grouped(streams));
}

proof fn lemma_grouped_controls(streams: Seq<AppView>)
    requires
        forall|i: int|
            0 <= i < streams.len() ==> (#[trigger] streams[i]).member_uids == seq![streams[i].uid],
    ensures
        controlled(grouped(streams)).to_multiset() == streams.map_values(
            |a: AppView| a.uid,
        ).to_multiset(),
    decreases streams.len(),
{
    let uid = |a: AppView| a.uid;
    if streams.len() > 0 {
        let rest = streams.drop_last();
        let stream = streams.last();
        let before = grouped(rest);
        assert forall|i: int| 0 <= i < rest.len() implies (#[trigger] rest[i]).member_uids == seq![
            rest[i].uid,
        ] by {
            assert(rest[i] == streams[i]);
        }
        assert(stream == streams[streams.len() - 1]);
        lemma_grouped_controls(rest);
        assert(streams.map_values(uid) =~= rest.map_values(uid).push(stream.uid));
        vstd::seq_lib::to_multiset_build(rest.map_values(uid), stream.uid);
        let slot = match group_of(stream) {
            Some(group) => slot_of(before, group),
            None => None,
        };
        match slot {
            Some(i) => {
                lemma_slot(before, group_of(stream)->0);
                lemma_controlled_of_joined(before, i, stream);
            },
            None => {
                assert(before.push(stream).drop_last() =~= before);
                assert(controlled(before.push(stream)) =~= controlled(before).push(stream.uid));
                vstd::seq_lib::to_multiset_build(controlled(before), stream.uid);
            },
        }
    } else {
        assert(streams.map_values(uid) =~= Seq::<u32>::empty());
    }
}

proof fn lemma_controlled_of_joined(entries: Seq<AppView>, i: int, stream: AppView)
    requires
        0 <= i < entries.len(),
    ensures
        controlled(entries.update(i, joined(entries[i], stream))).to_multiset() == controlled(
            entries,
        ).to_multiset().insert(stream.uid),
    decreases entries.len(),
{
    let updated = entries.update(i, joined(entries[i], stream));
    let rest = entries.drop_last();
    let last = entries.last().member_uids;
    if i == rest.len() {
        assert(updated.drop_last() =~= rest);
        assert(controlled(updated) =~= controlled(entries).push(stream.uid));
        vstd::seq_lib::to_multiset_build(controlled(entries), stream.uid);
    } else {
        let changed = rest.update(i, joined(rest[i], stream));
        lemma_controlled_of_joined(rest, i, stream);
        assert(updated.drop_last() =~= changed);
        vstd::seq_lib::lemma_multiset_commutative(controlled(changed), last);
        vstd::seq_lib::lemma_multiset_commutative(controlled(rest), last);
        assert(controlled(updated).to_multiset() =~= controlled(entries).to_multiset().insert(
            stream.uid,
        ));
    }
}

proof fn lemma_controlled_in_order(entries: Seq<AppView>)
    ensures
        controlled(
            entries.map_values(|a: AppView| with_ascending_members(a)),
        ).to_multiset() == controlled(entries).to_multiset(),
    decreases entries.len(),
{
    let sorted = |a: AppView| with_ascending_members(a);
    if entries.len() > 0 {
        let rest = entries.drop_last();
        let last = entries.last().member_uids;
        lemma_controlled_in_order(rest);
        assert(entries.map_values(sorted).drop_last() =~= rest.map_values(sorted));
        law_ascending_sorts(last);
        vstd::seq_lib::lemma_multiset_commutative(
            controlled(rest.map_values(sorted)),
            ascending(last),
        );
        vstd::seq_lib::lemma_multiset_commutative(controlled(rest), last);
    } else {
        assert(entries.map_values(sorted) =~= entries);
    }
}

/// What has collapsed stays as it is when it is collapsed again.
pub proof fn law_collapsing_again_changes_nothing(streams: Seq<AppView>)
    ensures
        collapsed(collapsed(streams)) == collapsed(streams),
{
    let once = collapsed(streams);
    law_one_entry_for_each_group(streams);
    lemma_apart_entries_stay(once);
    assert forall|k: int| 0 <= k < once.len() implies #[trigger] with_ascending_members(once[k])
        == once[k] by {
        law_ascending_sorts(grouped(streams)[k].member_uids);
        lemma_ascending_stays(once[k].member_uids);
        assert(with_ascending_members(once[k]) =~= once[k]);
    }
    assert(collapsed(once) =~= once);
}

proof fn lemma_apart_entries_stay(entries: Seq<AppView>)
    requires
        forall|k: int, l: int|
            #![trigger entries[k], entries[l]]
            0 <= k < l < entries.len() && group_of(entries[k]) is Some ==> group_of(entries[k])
                != group_of(entries[l]),
    ensures
        grouped(entries) == entries,
    decreases entries.len(),
{
    if entries.len() > 0 {
        let rest = entries.drop_last();
        assert forall|k: int, l: int|
            #![trigger rest[k], rest[l]]
            0 <= k < l < rest.len() && group_of(rest[k]) is Some implies group_of(rest[k])
            != group_of(rest[l]) by {
            assert(rest[k] == entries[k] && rest[l] == entries[l]);
        }
        lemma_apart_entries_stay(rest);
        if let Some(group) = group_of(entries.last()) {
            lemma_slot(rest, group);
            if let Some(i) = slot_of(rest, group) {
                assert(rest[i] == entries[i]);
                assert(entries.last() == entries[entries.len() - 1]);
            }
        }
        assert(rest.push(entries.last()) =~= entries);
    }
}

proof fn lemma_ascending_stays(row: Seq<u32>)
    requires
        forall|i: int, j: int|
            #![trigger row[i], row[j]]
            0 <= i <= j < row.len() ==> row[i] <= row[j],
    ensures
        ascending(row) == row,
    decreases row.len(),
{
    if row.len() > 0 {
        let rest = row.drop_last();
        assert forall|i: int, j: int|
            #![trigger rest[i], rest[j]]
            0 <= i <= j < rest.len() implies rest[i] <= rest[j] by {
            assert(row[i] <= row[j]);
        }
        lemma_ascending_stays(rest);
        if rest.len() > 0 {
            assert(row[rest.len() - 1] <= row[row.len() - 1]);
        }
        assert(rest.push(row.last()) =~= row);
    }
}

/// Where every stream begins with itself as its only member and no two have one uid,
/// two streams come to be controlled by one entry exactly if they are of one process
/// and have one name, case aside.
pub proof fn law_only_indistinct_streams_are_joined(streams: Seq<AppView>, i: int, j: int)
    requires
        0 <= i < streams.len(),
        0 <= j < streams.len(),
        i != j,
        forall|k: int|
            0 <= k < streams.len() ==> (#[trigger] streams[k]).member_uids == seq![streams[k].uid],
        forall|k: int, l: int|
            #![trigger streams[k], streams[l]]
            0 <= k < l < streams.len() ==> streams[k].uid != streams[l].uid,
    ensures
        (exists|e: int|
            {
                &&& 0 <= e < collapsed(streams).len()
                &&& (#[trigger] collapsed(streams)[e]).member_uids.contains(streams[i].uid)
                &&& collapsed(streams)[e].member_uids.contains(streams[j].uid)
            }) <==> {
            &&& streams[i].pid is Some
            &&& streams[i].pid == streams[j].pid
            &&& lowercased(streams[i].app_name) == lowercased(streams[j].app_name)
        },
{
    let out = collapsed(streams);
    let raw = grouped(streams);
    assert(streams[i].uid != streams[j].uid);
    if exists|e: int|
        {
            &&& 0 <= e < out.len()
            &&& (#[trigger] out[e]).member_uids.contains(streams[i].uid)
            &&& out[e].member_uids.contains(streams[j].uid)
        } {
        let e = choose|e: int|
            {
                &&& 0 <= e < out.len()
                &&& (#[trigger] out[e]).member_uids.contains(streams[i].uid)
                &&& out[e].member_uids.contains(streams[j].uid)
            };
        lemma_member_is_of_the_group(streams, e, i);
        lemma_member_is_of_the_group(streams, e, j);
        if group_of(out[e]) is None {
            lemma_loose_entries_have_one_member(streams);
            assert(raw[e] == raw[e]);
            law_ascending_sorts(raw[e].member_uids);
            lemma_ascending_contains(raw[e].member_uids, streams[i].uid);
            lemma_ascending_contains(raw[e].member_uids, streams[j].uid);
        }
    }
    if streams[i].pid is Some && streams[i].pid == streams[j].pid && lowercased(
        streams[i].app_name,
    ) == lowercased(streams[j].app_name) {
        let group = group_of(streams[i])->0;
        law_one_entry_for_each_group(streams);
        assert(streams[i] == streams[i]);
        let e = choose|e: int|
            #![trigger out[e]]
            0 <= e < out.len() && group_of(out[e]) == group_of(streams[i]);
        law_entry_controls_its_whole_group(streams, e);
        lemma_group_uid(streams, group, i);
        lemma_group_uid(streams, group, j);
        lemma_ascending_contains(group_uids(streams, group), streams[i].uid);
        lemma_ascending_contains(group_uids(streams, group), streams[j].uid);
        assert(out[e].member_uids.contains(streams[i].uid));
    }
}

proof fn lemma_ascending_contains(row: Seq<u32>, n: u32)
    ensures
        ascending(row).contains(n) <==> row.contains(n),
{
    law_ascending_sorts(row);
    row.to_multiset_ensures();
    ascending(row).to_multiset_ensures();
    assert(row.to_multiset().count(n) == ascending(row).to_multiset().count(n));
}

proof fn lemma_group_uid(streams: Seq<AppView>, group: (u32, Seq<char>), i: int)
    requires
        0 <= i < streams.len(),
        group_of(streams[i]) == Some(group),
    ensures
        group_uids(streams, group).contains(streams[i].uid),
    decreases streams.len(),
{
    let rest = streams.drop_last();
    let earlier = group_uids(rest, group);
    if i < rest.len() {
        assert(rest[i] == streams[i]);
        lemma_group_uid(rest, group, i);
    }
    if group_of(streams.last()) == Some(group) {
        crate::text::lemma_push_contains(earlier, streams.last().uid, streams[i].uid);
    }
}

proof fn lemma_group_uid_is_a_streams(streams: Seq<AppView>, group: (u32, Seq<char>), uid: u32)
    requires
        group_uids(streams, group).contains(uid),
    ensures
        exists|i: int|
            0 <= i < streams.len() && (#[trigger] streams[i]).uid == uid && group_of(streams[i])
                == Some(group),
    decreases streams.len(),
{
    let rest = streams.drop_last();
    if streams.len() > 0 {
        if group_of(streams.last()) == Some(group) {
            crate::text::lemma_push_contains(
                group_uids(rest, group),
                streams.last().uid,
                uid,
            );
        }
        if group_uids(rest, group).contains(uid) {
            lemma_group_uid_is_a_streams(rest, group, uid);
            let i = choose|i: int|
                0 <= i < rest.len() && (#[trigger] rest[i]).uid == uid && group_of(rest[i])
                    == Some(group);
            assert(streams[i] == rest[i]);
        } else {
            assert(streams.last() == streams[streams.len() - 1]);
        }
    }
}

proof fn lemma_member_is_of_the_group(streams: Seq<AppView>, e: int, i: int)
    requires
        0 <= e < collapsed(streams).len(),
        0 <= i < streams.len(),
        collapsed(streams)[e].member_uids.contains(streams[i].uid),
        forall|k: int|
            0 <= k < streams.len() ==> (#[trigger] streams[k]).member_uids == seq![streams[k].uid],
        forall|k: int, l: int|
            #![trigger streams[k], streams[l]]
            0 <= k < l < streams.len() ==> streams[k].uid != streams[l].uid,
    ensures
        group_of(collapsed(streams)[e]) matches Some(group) ==> group_of(streams[i]) == Some(group),
{
    if let Some(group) = group_of(collapsed(streams)[e]) {
        law_entry_controls_its_whole_group(streams, e);
        lemma_ascending_contains(group_uids(streams, group), streams[i].uid);
        lemma_group_uid_is_a_streams(streams, group, streams[i].uid);
        let k = choose|k: int|
            0 <= k < streams.len() && (#[trigger] streams[k]).uid == streams[i].uid && group_of(
                streams[k],
            ) == Some(group);
        if k != i {
            assert(streams[k].uid != streams[i].uid);
        }
    }
}

proof fn lemma_loose_entries_have_one_member(streams: Seq<AppView>)
    requires
        forall|k: int|
            0 <= k < streams.len() ==> (#[trigger] streams[k]).member_uids == seq![streams[k].uid],
    ensures
        forall|e: int|
            #![trigger grouped(streams)[e]]
            0 <= e < grouped(streams).len() && group_of(grouped(streams)[e]) is None
                ==> grouped(streams)[e].member_uids.len() == 1,
    decreases streams.len(),
{
    if streams.len() > 0 {
        let rest = streams.drop_last();
        let stream = streams.last();
        let before = grouped(rest);
        let after = grouped(streams);
        assert forall|k: int| 0 <= k < rest.len() implies (#[trigger] rest[k]).member_uids == seq![
            rest[k].uid,
        ] by {
            assert(rest[k] == streams[k]);
        }
        assert(stream == streams[streams.len() - 1]);
        lemma_loose_entries_have_one_member(rest);
        if let Some(group) = group_of(stream) {
            lemma_slot(before, group);
        }
        assert forall|e: int| #![trigger after[e]] 0 <= e < after.len() && group_of(after[e])
            is None implies after[e].member_uids.len() == 1 by {
            if e < before.len() {
                assert(group_of(before[e]) == group_of(after[e]));
                assert(after[e] == before[e]);
            } else {
                assert(after[e] == stream);
            }
        }
    }
}

/// Every entry is one of the streams, the first of its group, but for its uid, its
/// volume, its mute and its members.
pub proof fn law_entries_are_streams(streams: Seq<AppView>, e: int)
    requires
        0 <= e < collapsed(streams).len(),
    ensures
        exists|i: int|
            0 <= i < streams.len() && collapsed(streams)[e] == (AppView {
                uid: collapsed(streams)[e].uid,
                member_uids: collapsed(streams)[e].member_uids,
                mute: collapsed(streams)[e].mute,
                vol_percent: collapsed(streams)[e].vol_percent,
                ..#[trigger] streams[i]
            }),
{
    lemma_entry_is_a_stream(streams, e);
    let raw = grouped(streams)[e];
    let i = choose|i: int|
        0 <= i < streams.len() && raw == (AppView {
            uid: raw.uid,
            member_uids: raw.member_uids,
            mute: raw.mute,
            vol_percent: raw.vol_percent,
            ..#[trigger] streams[i]
        });
    assert(streams[i] == streams[i]);
}

proof fn lemma_entry_is_a_stream(streams: Seq<AppView>, e: int)
    requires
        0 <= e < grouped(streams).len(),
    ensures
        exists|i: int|
            0 <= i < streams.len() && grouped(streams)[e] == (AppView {
                uid: grouped(streams)[e].uid,
                member_uids: grouped(streams)[e].member_uids,
                mute: grouped(streams)[e].mute,
                vol_percent: grouped(streams)[e].vol_percent,
                ..#[trigger] streams[i]
            }),
    decreases streams.len(),
{
    let rest = streams.drop_last();
    let before = grouped(rest);
    if streams.len() > 0 {
        let stream = streams.last();
        if let Some(group) = group_of(stream) {
            lemma_slot(before, group);
        }
        if e < before.len() {
            lemma_entry_is_a_stream(rest, e);
            let old = before[e];
            let i = choose|i: int|
                0 <= i < rest.len() && old == (AppView {
                    uid: old.uid,
                    member_uids: old.member_uids,
                    mute: old.mute,
                    vol_percent: old.vol_percent,
                    ..#[trigger] rest[i]
                });
            assert(streams[i] == rest[i]);
        } else {
            assert(streams[streams.len() - 1] == stream);
        }
    }
}

/// The entries come in the order of their first streams: collapsing the streams one
/// after the other, each one joins an entry that is there or becomes the last one.
pub proof fn law_entries_keep_their_places(streams: Seq<AppView>, e: int)
    requires
        streams.len() > 0,
        0 <= e < collapsed(streams.drop_last()).len(),
    ensures
        collapsed(streams.drop_last()).len() <= collapsed(streams).len()
            <= collapsed(streams.drop_last()).len() + 1,
        collapsed(streams)[e].pid == collapsed(streams.drop_last())[e].pid,
        collapsed(streams)[e].app_name == collapsed(streams.drop_last())[e].app_name,
        collapsed(streams)[e].app_id == collapsed(streams.drop_last())[e].app_id,
{
    let before = grouped(streams.drop_last());
    if let Some(group) = group_of(streams.last()) {
        lemma_slot(before, group);
    }
}

} // verus!
