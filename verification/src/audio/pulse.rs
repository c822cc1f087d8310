//! From the audio server's sink-inputs to the list of entries.

use super::audio_system::{app_views, AppInfo, AppView};
use super::collapse::{collapse_indistinct, collapsed};
use crate::text::{
    contains, lowercased, occurs_in, opt_text, parse_u32, parsed_u32, same_text, to_lowercase,
};
use std::collections::HashMap;
use vstd::prelude::*;
use vstd::string::*;

verus! {

/// Identity recovered from a PulseAudio *client* proplist. Some apps (notably
/// pipewire-native ones) leave the sink-input proplist sparse and only populate
/// these on the owning client.
#[derive(Debug)]
pub struct ClientProps {
    pub name: Option<String>,
    pub binary: Option<String>,
    /// `application.process.id`, as the client writes it.
    pub process_id: Option<String>,
}

/// A sink-input with the properties that matter here.
#[derive(Debug)]
pub struct StreamProps {
    pub index: u32,
    /// The index of the owning client.
    pub client: Option<u32>,
    pub name: Option<String>,
    /// `node.name`
    pub node_name: Option<String>,
    /// `media.name`
    pub media_name: Option<String>,
    /// `application.name`
    pub application_name: Option<String>,
    /// `application.process.binary`
    pub process_binary: Option<String>,
    /// `application.process.id`
    pub process_id: Option<String>,
    /// `application.icon_name`
    pub icon_name: Option<String>,
    pub mute: bool,
    /// The volume in percent, as the bit pattern of an IEEE 754 single.
    pub vol_percent: u32,
}

/// The default sink, which stands for the whole system's audio.
#[derive(Debug)]
pub struct DeviceProps {
    pub index: u32,
    pub description: Option<String>,
    pub mute: bool,
    /// The volume in percent, as the bit pattern of an IEEE 754 single.
    pub vol_percent: u32,
}

/// Whether a lower-case node name names a web browser.
pub open spec fn names_browser(lower: Seq<char>) -> bool {
    ||| occurs_in(lower, "firefox"@)
    ||| occurs_in(lower, "chrome"@)
    ||| occurs_in(lower, "chromium"@)
    ||| occurs_in(lower, "brave"@)
    ||| occurs_in(lower, "edge"@)
    ||| occurs_in(lower, "opera"@)
    ||| occurs_in(lower, "vivaldi"@)
    ||| occurs_in(lower, "safari"@)
}

/// Whether a lower-case node name names a web browser.
pub fn is_browser_lower(lower: &str) -> (r: bool)
    ensures
        r == names_browser(lower@),
{
    contains(lower, "firefox") || contains(lower, "chrome") || contains(lower, "chromium")
        || contains(lower, "brave") || contains(lower, "edge") || contains(lower, "opera")
        || contains(lower, "vivaldi") || contains(lower, "safari")
}

/// Whether a node name names a web browser.
pub fn is_browser_node(name: &str) -> (r: bool)
    ensures
        r == names_browser(lowercased(name@)),
{
    is_browser_lower(&to_lowercase(name))
}

/// The first of two optional texts that is there.
pub open spec fn either(a: Option<Seq<char>>, b: Option<Seq<char>>) -> Option<Seq<char>> {
    if a is Some {
        a
    } else {
        b
    }
}

/// The text, or else the name of a stream that has none.
pub open spec fn or_placeholder(a: Option<Seq<char>>) -> Seq<char> {
    match a {
        Some(t) => t,
        None => "app_stream"@,
    }
}

impl StreamProps {
    /// Whether the stream counts as a browser's: its node is named after one, or
    /// it has no node name.
    pub open spec fn from_browser(&self) -> bool {
        match self.node_name {
            Some(node) => names_browser(lowercased(node@)),
            None => true,
        }
    }

    /// The name to show: the node's, or for a browser that of the media, the
    /// application or the stream.
    pub open spec fn shown_name(&self) -> Seq<char> {
        if self.from_browser() {
            or_placeholder(
                either(
                    either(opt_text(self.media_name), opt_text(self.application_name)),
                    opt_text(self.name),
                ),
            )
        } else {
            self.node_name->0@
        }
    }

    /// The name of the application, however little is known of it.
    pub open spec fn application(&self) -> Seq<char> {
        or_placeholder(
            either(
                either(opt_text(self.application_name), opt_text(self.process_binary)),
                opt_text(self.name),
            ),
        )
    }

    /// The key to look an icon up with.
    pub open spec fn icon_key(&self) -> Seq<char> {
        if self.from_browser() {
            lowercased(self.application())
        } else {
            lowercased(self.node_name->0@)
        }
    }
}

fn or_else_text(a: &Option<String>, b: &Option<String>) -> (r: Option<String>)
    ensures
        opt_text(r) == either(opt_text(*a), opt_text(*b)),
{
    if a.is_some() {
        a.clone()
    } else {
        b.clone()
    }
}

fn or_app_stream(a: Option<String>) -> (r: String)
    ensures
        r@ == or_placeholder(opt_text(a)),
{
    match a {
        Some(t) => t,
        None => "app_stream".to_owned(),
    }
}

/// Returns (node_name, is_browser). When node.name is absent the names fall
/// through to the media.name / application.name logic, as browsers' do.
pub fn classify_node(stream: &StreamProps) -> (r: (Option<String>, bool))
    ensures
        r.0 == stream.node_name,
        r.1 == stream.from_browser(),
{
    match &stream.node_name {
        Some(node) => (Some(node.clone()), is_browser_node(node)),
        None => (None, true),
    }
}

/// The name to show for a stream.
pub fn get_display_name(stream: &StreamProps) -> (r: String)
    ensures
        r@ == stream.shown_name(),
{
    let (node_name, is_browser) = classify_node(stream);
    if !is_browser {
        if let Some(node) = node_name {
            return node;
        }
    }
    or_app_stream(
        or_else_text(&or_else_text(&stream.media_name, &stream.application_name), &stream.name),
    )
}

fn application_name(stream: &StreamProps) -> (r: String)
    ensures
        r@ == stream.application(),
{
    or_app_stream(
        or_else_text(&or_else_text(&stream.application_name, &stream.process_binary), &stream.name),
    )
}

/// The key to look a stream's icon up with.
pub fn get_icon_search_name(stream: &StreamProps) -> (r: String)
    ensures
        r@ == stream.icon_key(),
{
    let (node_name, is_browser) = classify_node(stream);
    if !is_browser {
        if let Some(node) = node_name {
            return to_lowercase(&node);
        }
    }
    to_lowercase(&application_name(stream))
}

/// The process id that a property gives, if it is a number.
pub open spec fn process_number(id: Option<Seq<char>>) -> Option<u32> {
    match id {
        Some(t) => parsed_u32(t),
        None => None,
    }
}

fn parse_process_id(id: &Option<String>) -> (r: Option<u32>)
    ensures
        r == process_number(opt_text(*id)),
{
    match id {
        Some(t) => parse_u32(t),
        None => None,
    }
}

/// The client that owns a stream, as far as it is known.
pub open spec fn owner_of(stream: StreamProps, clients: Map<u32, ClientProps>) -> Option<
    ClientProps,
> {
    match stream.client {
        Some(id) => if clients.contains_key(id) {
            Some(clients[id])
        } else {
            None
        },
        None => None,
    }
}

/// The entry that a stream gives rise to.
pub open spec fn stream_entry(stream: StreamProps, clients: Map<u32, ClientProps>) -> AppView {
    let owner = owner_of(stream, clients);
    AppView {
        uid: stream.index,
        member_uids: seq![stream.index],
        app_name: stream.shown_name(),
        app_id: stream.application(),
        icon_search_name: stream.icon_key(),
        pid: process_number(opt_text(stream.process_id)),
        sink_name: opt_text(stream.name),
        mute: stream.mute,
        vol_percent: stream.vol_percent,
        icon_name: opt_text(stream.icon_name),
        is_device: false,
        is_browser: stream.from_browser(),
        is_multi_sink_app: false,
        client_pid: match owner {
            Some(c) => process_number(opt_text(c.process_id)),
            None => None,
        },
        client_name: match owner {
            Some(c) => opt_text(c.name),
            None => None,
        },
        client_binary: match owner {
            Some(c) => opt_text(c.binary),
            None => None,
        },
        wm_class: None,
        window_icon: None,
        kick_art: None,
        kick_pending: false,
    }
}

/// The entry that a stream gives rise to.
pub fn stream_app(stream: &StreamProps, clients: &HashMap<u32, ClientProps>) -> (r: AppInfo)
    ensures
        r@ == stream_entry(*stream, clients@),
{
    let mut member_uids: Vec<u32> = Vec::new();
    member_uids.push(stream.index);
    let (_, is_browser) = classify_node(stream);
    let mut app = AppInfo {
        uid: stream.index,
        member_uids,
        app_name: get_display_name(stream),
        app_id: application_name(stream),
        icon_search_name: get_icon_search_name(stream),
        pid: parse_process_id(&stream.process_id),
        sink_name: stream.name.clone(),
        mute: stream.mute,
        vol_percent: stream.vol_percent,
        icon_name: stream.icon_name.clone(),
        is_device: false,
        is_browser,
        is_multi_sink_app: false,
        client_pid: None,
        client_name: None,
        client_binary: None,
        wm_class: None,
        window_icon: None,
        kick_art: None,
        kick_pending: false,
    };
    if let Some(id) = stream.client {
        if let Some(owner) = clients.get(&id) {
            app.client_pid = parse_process_id(&owner.process_id);
            app.client_name = owner.name.clone();
            app.client_binary = owner.binary.clone();
        }
    }
    assert(app@ =~= stream_entry(*stream, clients@));
    app
}

/// The entry for the default sink.
pub open spec fn device_entry(device: DeviceProps) -> AppView {
    let name = match opt_text(device.description) {
        Some(d) => d,
        None => "System Audio"@,
    };
    AppView {
        uid: device.index,
        member_uids: seq![device.index],
        app_name: name,
        app_id: name,
        icon_search_name: name,
        pid: None,
        sink_name: Some("System Audio"@),
        mute: device.mute,
        vol_percent: device.vol_percent,
        icon_name: Some("audio-card"@),
        is_device: true,
        is_browser: false,
        is_multi_sink_app: false,
        client_pid: None,
        client_name: None,
        client_binary: None,
        wm_class: None,
        window_icon: None,
        kick_art: None,
        kick_pending: false,
    }
}

/// The entry for the default sink.
pub fn device_app(device: &DeviceProps) -> (r: AppInfo)
    ensures
        r@ == device_entry(*device),
{
    let name: String = match &device.description {
        Some(d) => d.clone(),
        None => "System Audio".to_owned(),
    };
    let mut member_uids: Vec<u32> = Vec::new();
    member_uids.push(device.index);
    let r = AppInfo {
        uid: device.index,
        member_uids,
        app_name: name.clone(),
        app_id: name.clone(),
        icon_search_name: name,
        pid: None,
        sink_name: Some("System Audio".to_owned()),
        mute: device.mute,
        vol_percent: device.vol_percent,
        icon_name: Some("audio-card".to_owned()),
        is_device: true,
        is_browser: false,
        is_multi_sink_app: false,
        client_pid: None,
        client_name: None,
        client_binary: None,
        wm_class: None,
        window_icon: None,
        kick_art: None,
        kick_pending: false,
    };
    assert(r@ =~= device_entry(*device));
    r
}

/// How many entries of a list bear a name, case aside.
pub open spec fn count_named(apps: Seq<AppView>, lower: Seq<char>) -> nat
    decreases apps.len(),
{
    if apps.len() == 0 {
        0
    } else {
        count_named(apps.drop_last(), lower) + if lowercased(apps.last().app_name) == lower {
            1nat
        } else {
            0
        }
    }
}

/// An entry of a list, flagged if another one bears its name. Devices are never
/// flagged.
pub open spec fn flagged(app: AppView, apps: Seq<AppView>) -> AppView {
    if app.is_device {
        app
    } else {
        AppView {
            is_multi_sink_app: count_named(apps, lowercased(app.app_name)) > 1,
            ..app
        }
    }
}

fn name_is_shared(apps: &Vec<AppInfo>, name: &str) -> (r: bool)
    ensures
        r == (count_named(app_views(apps@), lowercased(name@)) > 1),
{
    let ghost all = app_views(apps@);
    let wanted = to_lowercase(name);
    let mut count: usize = 0;
    let mut i: usize = 0;
    assert(all.take(0) =~= Seq::empty());
    while i < apps.len()
        invariant
            i <= apps.len(),
            count <= i,
            all == app_views(apps@),
            wanted@ == lowercased(name@),
            count == count_named(all.take(i as int), wanted@),
        decreases apps.len() - i,
    {
        proof {
            assert(all.take(i + 1).drop_last() =~= all.take(i as int));
            assert(all.take(i + 1).last() == apps@[i as int]@);
        }
        let lower = to_lowercase(&apps[i].app_name);
        if same_text(&lower, &wanted) {
            count += 1;
        }
        i += 1;
    }
    assert(all.take(all.len() as int) =~= all);
    count > 1
}

proof fn lemma_count_ignores_flags(a: Seq<AppView>, b: Seq<AppView>, lower: Seq<char>)
    requires
        a.len() == b.len(),
        forall|i: int| 0 <= i < a.len() ==> (#[trigger] a[i]).app_name == b[i].app_name,
    ensures
        count_named(a, lower) == count_named(b, lower),
    decreases a.len(),
{
    if a.len() > 0 {
        assert(a.last() == a[a.len() - 1]);
        assert forall|i: int| 0 <= i < a.len() - 1 implies (#[trigger] a.drop_last()[i]).app_name
            == b.drop_last()[i].app_name by {
            assert(a.drop_last()[i] == a[i]);
        }
        lemma_count_ignores_flags(a.drop_last(), b.drop_last(), lower);
    }
}

/// The entries for the default sink, if it is to be shown, and for the streams.
pub open spec fn unflagged_entries(
    device: Option<DeviceProps>,
    streams: Seq<StreamProps>,
    clients: Map<u32, ClientProps>,
) -> Seq<AppView> {
    let first = match device {
        Some(d) => seq![device_entry(d)],
        None => Seq::empty(),
    };
    first + collapsed(streams.map_values(|s: StreamProps| stream_entry(s, clients)))
}

/// The whole list of entries.
pub open spec fn entries(
    device: Option<DeviceProps>,
    streams: Seq<StreamProps>,
    clients: Map<u32, ClientProps>,
) -> Seq<AppView> {
    let all = unflagged_entries(device, streams, clients);
    all.map_values(|a: AppView| flagged(a, all))
}

/// The list of entries: the default sink first, where it is given, then the
/// streams, with those of one process under one name collapsed. Entries that
/// still share a name (e.g. two separate instances of the same app on different
/// PIDs) are flagged, so the UI can fall back to per-stream labels.
pub fn list_applications(
    device: Option<DeviceProps>,
    streams: &[StreamProps],
    clients: &HashMap<u32, ClientProps>,
) -> (r: Vec<AppInfo>)
    ensures
        app_views(r@) == entries(device, streams@, clients@),
{
    let ghost stream_entries = streams@.map_values(|s: StreamProps| stream_entry(s, clients@));
    let mut apps: Vec<AppInfo> = Vec::new();
    let mut i: usize = 0;
    while i < streams.len()
        invariant
            i <= streams.len(),
            stream_entries == streams@.map_values(|s: StreamProps| stream_entry(s, clients@)),
            app_views(apps@) =~= stream_entries.take(i as int),
        decreases streams.len() - i,
    {
        let ghost before = apps@;
        let app = stream_app(&streams[i], clients);
        apps.push(app);
        proof {
            assert(app_views(apps@) =~= app_views(before).push(app@));
            assert(stream_entries.take(i + 1) =~= stream_entries.take(i as int).push(
                stream_entries[i as int],
            ));
        }
        i += 1;
    }
    assert(stream_entries.take(stream_entries.len() as int) =~= stream_entries);
    let mut out: Vec<AppInfo> = Vec::new();
    if let Some(d) = &device {
        out.push(device_app(d));
    }
    let ghost first = app_views(out@);
    let mut rest = collapse_indistinct(apps);
    let ghost tail = app_views(rest@);
    out.append(&mut rest);
    let ghost all = unflagged_entries(device, streams@, clients@);
    proof {
        assert(app_views(out@) =~= first + tail);
        if device is Some {
            assert(first =~= seq![device_entry(device->0)]);
        } else {
            assert(first =~= Seq::<AppView>::empty());
        }
    }
    let mut k: usize = 0;
    while k < out.len()
        invariant
            k <= out.len(),
            out.len() == all.len(),
            forall|j: int| 0 <= j < k ==> (#[trigger] out@[j])@ == flagged(all[j], all),
            forall|j: int| k <= j < out.len() ==> (#[trigger] out@[j])@ == all[j],
        decreases out.len() - k,
    {
        assert(out@[k as int]@ == all[k as int]);
        if !out[k].is_device {
            let shared = name_is_shared(&out, &out[k].app_name);
            proof {
                assert forall|j: int| 0 <= j < all.len() implies (#[trigger] app_views(
                    out@,
                )[j]).app_name == all[j].app_name by {
                    assert(out@[j]@ == if j < k {
                        flagged(all[j], all)
                    } else {
                        all[j]
                    });
                }
                lemma_count_ignores_flags(
                    app_views(out@),
                    all,
                    lowercased(out@[k as int].app_name@),
                );
            }
            out[k].is_multi_sink_app = shared;
        }
        assert(out@[k as int]@ =~= flagged(all[k as int], all));
        k += 1;
    }
    assert(app_views(out@) =~= entries(device, streams@, clients@));
    out
}

spec fn has_name(app: AppView, lower: Seq<char>) -> bool {
    lowercased(app.app_name) == lower
}

proof fn lemma_count_named(apps: Seq<AppView>, lower: Seq<char>)
    ensures
        count_named(apps, lower) > 0 <==> exists|i: int|
            0 <= i < apps.len() && has_name(#[trigger] apps[i], lower),
        count_named(apps, lower) > 1 <==> exists|i: int, j: int|
            0 <= i < j < apps.len() && has_name(#[trigger] apps[i], lower) && has_name(
                #[trigger] apps[j],
                lower,
            ),
    decreases apps.len(),
{
    if apps.len() > 0 {
        let rest = apps.drop_last();
        let last = apps.len() - 1;
        lemma_count_named(rest, lower);
        assert forall|i: int| 0 <= i < rest.len() implies #[trigger] rest[i] == apps[i] by {}
        if exists|i: int| 0 <= i < rest.len() && has_name(#[trigger] rest[i], lower) {
            let i = choose|i: int| 0 <= i < rest.len() && has_name(#[trigger] rest[i], lower);
            assert(has_name(apps[i], lower));
            if has_name(apps[last], lower) {
                assert(0 <= i < last < apps.len());
            }
        }
        if exists|i: int, j: int|
            0 <= i < j < rest.len() && has_name(#[trigger] rest[i], lower) && has_name(
                #[trigger] rest[j],
                lower,
            ) {
            let (i, j) = choose|i: int, j: int|
                0 <= i < j < rest.len() && has_name(#[trigger] rest[i], lower) && has_name(
                    #[trigger] rest[j],
                    lower,
                );
            assert(has_name(apps[i], lower) && has_name(apps[j], lower));
        }
        if exists|i: int, j: int|
            0 <= i < j < apps.len() && has_name(#[trigger] apps[i], lower) && has_name(
                #[trigger] apps[j],
                lower,
            ) {
            let (i, j) = choose|i: int, j: int|
                0 <= i < j < apps.len() && has_name(#[trigger] apps[i], lower) && has_name(
                    #[trigger] apps[j],
                    lower,
                );
            assert(has_name(rest[i], lower));
            if j < last {
                assert(has_name(rest[j], lower));
            }
        }
        if exists|i: int| 0 <= i < apps.len() && has_name(#[trigger] apps[i], lower) {
            let i = choose|i: int| 0 <= i < apps.len() && has_name(#[trigger] apps[i], lower);
            if i < last {
                assert(has_name(rest[i], lower));
            }
        }
    }
}

/// An entry of the list is flagged exactly if it stands for a stream and another
/// entry bears its name, case aside.
pub proof fn law_shared_names_are_flagged(
    device: Option<DeviceProps>,
    streams: Seq<StreamProps>,
    clients: Map<u32, ClientProps>,
    i: int,
)
    requires
        0 <= i < entries(device, streams, clients).len(),
    ensures
        ({
            let list = entries(device, streams, clients);
            !list[i].is_device ==> (list[i].is_multi_sink_app <==> exists|j: int|
                0 <= j < list.len() && j != i && lowercased((#[trigger] list[j]).app_name)
                    == lowercased(list[i].app_name))
        }),
{
    let all = unflagged_entries(device, streams, clients);
    let list = entries(device, streams, clients);
    let lower = lowercased(list[i].app_name);
    assert forall|j: int| 0 <= j < all.len() implies (#[trigger] list[j]).app_name
        == all[j].app_name by {}
    lemma_count_named(all, lower);
    assert(has_name(all[i], lower));
    if exists|j: int|
        0 <= j < list.len() && j != i && lowercased((#[trigger] list[j]).app_name) == lower {
        let j = choose|j: int|
            0 <= j < list.len() && j != i && lowercased((#[trigger] list[j]).app_name) == lower;
        assert(has_name(all[j], lower));
    }
    if count_named(all, lower) > 1 {
        let (a, b) = choose|a: int, b: int|
            0 <= a < b < all.len() && has_name(#[trigger] all[a], lower) && has_name(
                #[trigger] all[b],
                lower,
            );
        let other = if a == i {
            b
        } else {
            a
        };
        assert(has_name(all[other], lower));
        assert(lowercased(list[other].app_name) == lower);
    }
}

/// The sum of some channel levels.
pub open spec fn level_sum(levels: Seq<u32>) -> nat
    decreases levels.len(),
{
    if levels.len() == 0 {
        0
    } else {
        level_sum(levels.drop_last()) + levels.last() as nat
    }
}

/// The sum of some channel levels, unless it overflows.
pub fn total_level(levels: &[u32]) -> (r: Option<u32>)
    ensures
        r == (if level_sum(levels@) <= u32::MAX {
            Some(level_sum(levels@) as u32)
        } else {
            None
        }),
{
    let mut total: u32 = 0;
    let mut i: usize = 0;
    assert(levels@.take(0) =~= Seq::empty());
    while i < levels.len()
        invariant
            i <= levels.len(),
            total == level_sum(levels@.take(i as int)),
        decreases levels.len() - i,
    {
        proof {
            assert(levels@.take(i + 1).drop_last() =~= levels@.take(i as int));
            assert(levels@.take(i + 1).last() == levels@[i as int]);
            lemma_level_sum_grows(levels@, i + 1);
        }
        if levels[i] > u32::MAX - total {
            return None;
        }
        total += levels[i];
        i += 1;
    }
    assert(levels@.take(levels@.len() as int) =~= levels@);
    Some(total)
}

proof fn lemma_level_sum_grows(levels: Seq<u32>, n: int)
    requires
        0 <= n <= levels.len(),
    ensures
        level_sum(levels.take(n)) <= level_sum(levels),
    decreases levels.len() - n,
{
    if n < levels.len() {
        lemma_level_sum_grows(levels.drop_last(), n);
        assert(levels.drop_last().take(n) =~= levels.take(n));
    } else {
        assert(levels.take(n) =~= levels);
    }
}

/// A node is a browser's exactly if its name, in lower case, contains that of one.
pub proof fn law_browsers_are_known_by_name(before: Seq<char>, after: Seq<char>, lower: Seq<char>)
    ensures
        names_browser(before + "firefox"@ + after),
        names_browser(before + "chrome"@ + after),
        names_browser(before + "chromium"@ + after),
        names_browser(before + "brave"@ + after),
        names_browser(before + "edge"@ + after),
        names_browser(before + "opera"@ + after),
        names_browser(before + "vivaldi"@ + after),
        names_browser(before + "safari"@ + after),
        names_browser(lower) ==> occurs_in(lower, "firefox"@) || occurs_in(lower, "chrome"@)
            || occurs_in(lower, "chromium"@) || occurs_in(lower, "brave"@) || occurs_in(
            lower,
            "edge"@,
        ) || occurs_in(lower, "opera"@) || occurs_in(lower, "vivaldi"@) || occurs_in(
            lower,
            "safari"@,
        ),
{
    lemma_occurs_between(before, "firefox"@, after);
    lemma_occurs_between(before, "chrome"@, after);
    lemma_occurs_between(before, "chromium"@, after);
    lemma_occurs_between(before, "brave"@, after);
    lemma_occurs_between(before, "edge"@, after);
    lemma_occurs_between(before, "opera"@, after);
    lemma_occurs_between(before, "vivaldi"@, after);
    lemma_occurs_between(before, "safari"@, after);
}

proof fn lemma_occurs_between(before: Seq<char>, word: Seq<char>, after: Seq<char>)
    ensures
        occurs_in(before + word + after, word),
{
    let whole = before + word + after;
    let at = before.len() as int;
    assert(whole.subrange(at, at + word.len()) =~= word);
    assert(crate::text::occurs_at(whole, word, at));
}

/// What a stream is called. One whose node is no browser's goes by the node's name,
/// and its icon by that in lower case. A browser's, and one without a node name, goes
/// by its media, or else its application, or else itself; its icon goes by its
/// application, or else its program, or else itself, in lower case. The application is
/// named in the same way for every stream.
pub proof fn law_names_of_a_stream(s: StreamProps)
    ensures
        s.node_name matches Some(node) && !names_browser(lowercased(node@)) ==> s.shown_name()
            == s.node_name->0@ && s.icon_key() == lowercased(s.node_name->0@) && !s.from_browser(),
        s.node_name is None || names_browser(lowercased(s.node_name->0@)) ==> {
            &&& s.from_browser()
            &&& s.media_name is Some ==> s.shown_name() == s.media_name->0@
            &&& s.media_name is None && s.application_name is Some ==> s.shown_name()
                == s.application_name->0@
            &&& s.media_name is None && s.application_name is None && s.name is Some
                ==> s.shown_name() == s.name->0@
            &&& s.media_name is None && s.application_name is None && s.name is None
                ==> s.shown_name() == "app_stream"@
            &&& s.icon_key() == lowercased(s.application())
        },
        s.application_name is Some ==> s.application() == s.application_name->0@,
        s.application_name is None && s.process_binary is Some ==> s.application()
            == s.process_binary->0@,
        s.application_name is None && s.process_binary is None && s.name is Some
            ==> s.application() == s.name->0@,
        s.application_name is None && s.process_binary is None && s.name is None
            ==> s.application() == "app_stream"@,
{
}

/// The entry of a stream carries the stream's own index, volume, mute, icon name and
/// process, and what is known of the client that owns it and of no other.
pub proof fn law_entry_of_a_stream(s: StreamProps, clients: Map<u32, ClientProps>, id: u32)
    ensures
        ({
            let e = stream_entry(s, clients);
            &&& e.uid == s.index
            &&& e.member_uids == seq![s.index]
            &&& e.mute == s.mute
            &&& e.vol_percent == s.vol_percent
            &&& e.app_name == s.shown_name()
            &&& e.app_id == s.application()
            &&& e.icon_search_name == s.icon_key()
            &&& e.is_browser == s.from_browser()
            &&& !e.is_device
            &&& s.icon_name is Some ==> e.icon_name == Some(s.icon_name->0@)
            &&& s.icon_name is None ==> e.icon_name is None
            &&& s.name is Some ==> e.sink_name == Some(s.name->0@)
            &&& s.name is None ==> e.sink_name is None
            &&& s.process_id is Some ==> e.pid == parsed_u32(s.process_id->0@)
            &&& s.process_id is None ==> e.pid is None
            &&& s.client == Some(id) && clients.contains_key(id) ==> {
                &&& clients[id].name is Some ==> e.client_name == Some(clients[id].name->0@)
                &&& clients[id].name is None ==> e.client_name is None
                &&& clients[id].binary is Some ==> e.client_binary == Some(clients[id].binary->0@)
                &&& clients[id].binary is None ==> e.client_binary is None
                &&& clients[id].process_id is Some ==> e.client_pid == parsed_u32(
                    clients[id].process_id->0@,
                )
                &&& clients[id].process_id is None ==> e.client_pid is None
            }
            &&& s.client is None || (s.client == Some(id) && !clients.contains_key(id))
                ==> e.client_name is None && e.client_binary is None && e.client_pid is None
            &&& e.wm_class is None && e.window_icon is None && e.kick_art is None
                && !e.kick_pending
        }),
{
}

/// The list begins with the default sink, where it is given, which goes by its
/// description; then come the collapsed streams, in their order. Nothing is added to
/// them but the flag.
pub proof fn law_list_is_the_device_and_the_streams(
    device: Option<DeviceProps>,
    streams: Seq<StreamProps>,
    clients: Map<u32, ClientProps>,
    k: int,
)
    ensures
        ({
            let list = entries(device, streams, clients);
            let tail = collapsed(streams.map_values(|s: StreamProps| stream_entry(s, clients)));
            let first: int = if device is Some {
                1
            } else {
                0
            };
            &&& list.len() == first + tail.len()
            &&& device matches Some(d) ==> {
                &&& list[0].is_device
                &&& list[0].uid == d.index
                &&& list[0].member_uids == seq![d.index]
                &&& list[0].mute == d.mute
                &&& list[0].vol_percent == d.vol_percent
                &&& list[0].pid is None
                &&& d.description is Some ==> list[0].app_name == d.description->0@
                &&& d.description is None ==> list[0].app_name == "System Audio"@
                &&& list[0].app_id == list[0].app_name
                &&& list[0].icon_search_name == list[0].app_name
                &&& list[0].icon_name == Some("audio-card"@)
                &&& list[0].sink_name == Some("System Audio"@)
                &&& !list[0].is_multi_sink_app
                &&& !list[0].is_browser
                &&& list[0].client_pid is None && list[0].client_name is None
                &&& list[0].client_binary is None
                &&& list[0].wm_class is None && list[0].window_icon is None
                &&& list[0].kick_art is None && !list[0].kick_pending
            }
            &&& 0 <= k < tail.len() ==> list[first + k] == (AppView {
                is_multi_sink_app: list[first + k].is_multi_sink_app,
                ..tail[k]
            })
        }),
{
    let tail = collapsed(streams.map_values(|s: StreamProps| stream_entry(s, clients)));
    if 0 <= k < tail.len() {
        super::collapse::law_entries_are_streams(
            streams.map_values(|s: StreamProps| stream_entry(s, clients)),
            k,
        );
    }
}

/// Two streams are controlled by one entry of the list exactly if they are of one
/// process and have one name, case aside.
pub proof fn law_listed_streams_share_an_entry(
    device: Option<DeviceProps>,
    streams: Seq<StreamProps>,
    clients: Map<u32, ClientProps>,
    i: int,
    j: int,
)
    requires
        0 <= i < streams.len(),
        0 <= j < streams.len(),
        i != j,
        forall|k: int, l: int|
            #![trigger streams[k], streams[l]]
            0 <= k < l < streams.len() ==> streams[k].index != streams[l].index,
    ensures
        ({
            let list = entries(device, streams, clients);
            let a = stream_entry(streams[i], clients);
            let b = stream_entry(streams[j], clients);
            (exists|e: int|
                {
                    &&& 0 <= e < list.len()
                    &&& !(#[trigger] list[e]).is_device
                    &&& list[e].member_uids.contains(streams[i].index)
                    &&& list[e].member_uids.contains(streams[j].index)
                }) <==> a.pid is Some && a.pid == b.pid && lowercased(a.app_name) == lowercased(
                b.app_name,
            )
        }),
{
    let given = streams.map_values(|s: StreamProps| stream_entry(s, clients));
    let list = entries(device, streams, clients);
    let tail = collapsed(given);
    let first: int = if device is Some {
        1
    } else {
        0
    };
    assert forall|k: int| 0 <= k < given.len() implies (#[trigger] given[k]).member_uids == seq![
        given[k].uid,
    ] by {}
    assert forall|k: int, l: int|
        #![trigger given[k], given[l]]
        0 <= k < l < given.len() implies given[k].uid != given[l].uid by {
        assert(streams[k].index != streams[l].index);
    }
    super::collapse::law_only_indistinct_streams_are_joined(given, i, j);
    assert(given[i].uid == streams[i].index && given[j].uid == streams[j].index);
    if exists|e: int|
        {
            &&& 0 <= e < list.len()
            &&& !(#[trigger] list[e]).is_device
            &&& list[e].member_uids.contains(streams[i].index)
            &&& list[e].member_uids.contains(streams[j].index)
        } {
        let e = choose|e: int|
            {
                &&& 0 <= e < list.len()
                &&& !(#[trigger] list[e]).is_device
                &&& list[e].member_uids.contains(streams[i].index)
                &&& list[e].member_uids.contains(streams[j].index)
            };
        law_list_is_the_device_and_the_streams(device, streams, clients, e - first);
        assert(tail[e - first].member_uids.contains(given[i].uid));
    }
    if exists|e: int|
        {
            &&& 0 <= e < tail.len()
            &&& (#[trigger] tail[e]).member_uids.contains(given[i].uid)
            &&& tail[e].member_uids.contains(given[j].uid)
        } {
        let e = choose|e: int|
            {
                &&& 0 <= e < tail.len()
                &&& (#[trigger] tail[e]).member_uids.contains(given[i].uid)
                &&& tail[e].member_uids.contains(given[j].uid)
            };
        law_list_is_the_device_and_the_streams(device, streams, clients, e);
        super::collapse::law_entries_are_streams(given, e);
        assert(!list[first + e].is_device);
    }
}

/// Every level counts once in the total.
pub proof fn law_total_is_the_sum(levels: Seq<u32>, level: u32)
    ensures
        level_sum(Seq::empty()) == 0,
        level_sum(levels.push(level)) == level_sum(levels) + level,
{
    assert(levels.push(level).drop_last() =~= levels);
}

} // verus!
