//! A mixer channel, and the icons that it asks for.

use crate::audio::audio_system::{copy_bytes, copy_icon, copy_uids};
use crate::kick::{display_name, shown_name};
use crate::text::{opt_bytes, opt_text};
use crate::window_icons::{opt_icon, WindowIcon, WindowIconView};
use vstd::prelude::*;

verus! {

/// One channel of the mixer. Times are counted in nanoseconds from the Unix
/// epoch.
#[derive(Debug)]
pub struct MixerChannel {
    pub header_id: Option<String>,
    pub upper_vol_btn_id: Option<String>,
    pub lower_vol_btn_id: Option<String>,
    pub dial_id: Option<String>,
    pub uid: u32,
    /// All sink-input indices this channel controls (collapsed multi-stream apps
    /// list every member here; a normal channel just holds `[uid]`). Volume and
    /// mute are applied to every member.
    pub member_uids: Vec<u32>,
    pub pid: Option<u32>,
    pub app_name: String,
    /// Stable app identity used for exclude-list matching.
    pub app_id: String,
    pub sink_name: Option<String>,
    pub mute: bool,
    /// The volume in percent, as the bit pattern of an IEEE 754 single.
    pub vol_percent: u32,
    pub icon_uri: String,
    pub icon_uri_mute: String,
    pub uses_default_icon: bool,
    /// The bytes of the art image that the channel shows, once it has one.
    pub mpris_art_data: Option<Vec<u8>>,
    /// Filesystem path of the MPRIS art file this channel has claimed.
    /// Other channels exclude this path so they never inherit this slot's art.
    pub mpris_art_path: Option<String>,
    /// Once true, name and art are kept by refreshes, until the stream's name
    /// shifts. Only volume, mute, and other live data update.
    pub locked: bool,
    /// When this sink-input was first observed appearing, used to correlate art
    /// files to the stream by timing. `None` means the stream was already playing
    /// at cold start (true start unknown).
    pub first_seen: Option<i128>,
    /// Once true, the art-claim decision is final and never re-attempted, whether
    /// it produced art or a deliberate "no art". Reset only on a name-shift.
    pub art_resolved: bool,
    pub is_device: bool,
    pub is_multi_sink_app: bool,
}

/// The mathematical content of a [`MixerChannel`].
#[verifier::ext_equal]
pub struct ChannelView {
    pub header_id: Option<Seq<char>>,
    pub upper_vol_btn_id: Option<Seq<char>>,
    pub lower_vol_btn_id: Option<Seq<char>>,
    pub dial_id: Option<Seq<char>>,
    pub uid: u32,
    pub member_uids: Seq<u32>,
    pub pid: Option<u32>,
    pub app_name: Seq<char>,
    pub app_id: Seq<char>,
    pub sink_name: Option<Seq<char>>,
    pub mute: bool,
    pub vol_percent: u32,
    pub icon_uri: Seq<char>,
    pub icon_uri_mute: Seq<char>,
    pub uses_default_icon: bool,
    pub mpris_art_data: Option<Seq<u8>>,
    pub mpris_art_path: Option<Seq<char>>,
    pub locked: bool,
    pub first_seen: Option<i128>,
    pub art_resolved: bool,
    pub is_device: bool,
    pub is_multi_sink_app: bool,
}

impl View for MixerChannel {
    type V = ChannelView;

    open spec fn view(&self) -> ChannelView {
        ChannelView {
            header_id: opt_text(self.header_id),
            upper_vol_btn_id: opt_text(self.upper_vol_btn_id),
            lower_vol_btn_id: opt_text(self.lower_vol_btn_id),
            dial_id: opt_text(self.dial_id),
            uid: self.uid,
            member_uids: self.member_uids@,
            pid: self.pid,
            app_name: self.app_name@,
            app_id: self.app_id@,
            sink_name: opt_text(self.sink_name),
            mute: self.mute,
            vol_percent: self.vol_percent,
            icon_uri: self.icon_uri@,
            icon_uri_mute: self.icon_uri_mute@,
            uses_default_icon: self.uses_default_icon,
            mpris_art_data: opt_bytes(self.mpris_art_data),
            mpris_art_path: opt_text(self.mpris_art_path),
            locked: self.locked,
            first_seen: self.first_seen,
            art_resolved: self.art_resolved,
            is_device: self.is_device,
            is_multi_sink_app: self.is_multi_sink_app,
        }
    }
}

/// The contents of a list of channels.
pub open spec fn channel_views(channels: Seq<MixerChannel>) -> Seq<ChannelView> {
    channels.map_values(|c: MixerChannel| c@)
}

impl Clone for MixerChannel {
    /// A copy of the channel.
    fn clone(&self) -> (r: MixerChannel)
        ensures
            r@ == self@,
    {
        MixerChannel {
            header_id: self.header_id.clone(),
            upper_vol_btn_id: self.upper_vol_btn_id.clone(),
            lower_vol_btn_id: self.lower_vol_btn_id.clone(),
            dial_id: self.dial_id.clone(),
            uid: self.uid,
            member_uids: copy_uids(&self.member_uids),
            pid: self.pid,
            app_name: self.app_name.clone(),
            app_id: self.app_id.clone(),
            sink_name: self.sink_name.clone(),
            mute: self.mute,
            vol_percent: self.vol_percent,
            icon_uri: self.icon_uri.clone(),
            icon_uri_mute: self.icon_uri_mute.clone(),
            uses_default_icon: self.uses_default_icon,
            mpris_art_data: copy_bytes(&self.mpris_art_data),
            mpris_art_path: self.mpris_art_path.clone(),
            locked: self.locked,
            first_seen: self.first_seen,
            art_resolved: self.art_resolved,
            is_device: self.is_device,
            is_multi_sink_app: self.is_multi_sink_app,
        }
    }
}

impl MixerChannel {
    /// Text shown on the LCD / header for this channel. Collapsed multi-sink apps
    /// show the sink name; everything else shows the stream name, with Kick tab
    /// titles trimmed to just the streamer handle. The full
    /// `"<handle> Stream - Watch Live on Kick"` is kept in `app_name` (the avatar
    /// fetch and Kick detection key off it) but is too long/noisy to display.
    pub fn display_label(&self) -> (r: String)
        ensures
            r@ == self@.label(),
    {
        if self.is_multi_sink_app {
            match &self.sink_name {
                Some(name) => name.clone(),
                None => self.app_name.clone(),
            }
        } else {
            display_name(&self.app_name)
        }
    }
}

impl ChannelView {
    /// The text shown for the channel.
    pub open spec fn label(self) -> Seq<char> {
        if self.is_multi_sink_app {
            match self.sink_name {
                Some(name) => name,
                None => self.app_name,
            }
        } else {
            shown_name(self.app_name)
        }
    }
}

/// What an icon is to be looked up with. Art goes before everything else.
#[derive(Debug)]
pub struct IconQuery {
    pub icon_name: Option<String>,
    pub icon_search_name: String,
    pub art: Option<Vec<u8>>,
    pub wm_class: Option<String>,
    pub window_icon: Option<WindowIcon>,
}

/// The mathematical content of an [`IconQuery`].
#[verifier::ext_equal]
pub struct QueryView {
    pub icon_name: Option<Seq<char>>,
    pub icon_search_name: Seq<char>,
    pub art: Option<Seq<u8>>,
    pub wm_class: Option<Seq<char>>,
    pub window_icon: Option<WindowIconView>,
}

impl View for IconQuery {
    type V = QueryView;

    open spec fn view(&self) -> QueryView {
        QueryView {
            icon_name: opt_text(self.icon_name),
            icon_search_name: self.icon_search_name@,
            art: opt_bytes(self.art),
            wm_class: opt_text(self.wm_class),
            window_icon: opt_icon(self.window_icon),
        }
    }
}

/// The content of an optional query.
pub open spec fn opt_query(query: Option<IconQuery>) -> Option<QueryView> {
    match query {
        Some(q) => Some(q@),
        None => None,
    }
}

impl IconQuery {
    fn duplicate(&self) -> (r: IconQuery)
        ensures
            r@ == self@,
    {
        IconQuery {
            icon_name: self.icon_name.clone(),
            icon_search_name: self.icon_search_name.clone(),
            art: copy_bytes(&self.art),
            wm_class: self.wm_class.clone(),
            window_icon: copy_icon(&self.window_icon),
        }
    }
}

/// An icon as it was found, in colour and as it looks when muted.
#[derive(Debug)]
pub struct Icon {
    pub uri: String,
    pub uri_mute: String,
    /// Whether nothing better than the default icon was found.
    pub is_default: bool,
}

/// A channel together with the icon lookups that it still needs: one to be made
/// in any case, and one for as long as the channel has only the default icon.
#[derive(Debug)]
pub struct PlannedChannel {
    pub channel: MixerChannel,
    pub lookup: Option<IconQuery>,
    pub retry: Option<IconQuery>,
}

/// The mathematical content of a [`PlannedChannel`].
#[verifier::ext_equal]
pub struct PlannedView {
    pub channel: ChannelView,
    pub lookup: Option<QueryView>,
    pub retry: Option<QueryView>,
}

impl View for PlannedChannel {
    type V = PlannedView;

    open spec fn view(&self) -> PlannedView {
        PlannedView {
            channel: self.channel@,
            lookup: opt_query(self.lookup),
            retry: opt_query(self.retry),
        }
    }
}

/// The contents of a list of planned channels.
pub open spec fn planned_views(planned: Seq<PlannedChannel>) -> Seq<PlannedView> {
    planned.map_values(|p: PlannedChannel| p@)
}

impl PlannedView {
    /// The lookup to make next.
    pub open spec fn next_query(self) -> Option<QueryView> {
        if self.lookup is Some {
            self.lookup
        } else if self.channel.uses_default_icon {
            self.retry
        } else {
            None
        }
    }

    /// The plan once that lookup has been answered.
    pub open spec fn answered(self, uri: Seq<char>, uri_mute: Seq<char>, is_default: bool) -> PlannedView {
        PlannedView {
            channel: ChannelView {
                icon_uri: uri,
                icon_uri_mute: uri_mute,
                uses_default_icon: is_default,
                ..self.channel
            },
            lookup: None,
            retry: if self.lookup is Some {
                self.retry
            } else {
                None
            },
        }
    }
}

impl PlannedChannel {
    /// The lookup to make next, if there is one.
    pub fn next_query(&self) -> (r: Option<IconQuery>)
        ensures
            opt_query(r) == self@.next_query(),
    {
        match &self.lookup {
            Some(query) => Some(query.duplicate()),
            None => if self.channel.uses_default_icon {
                match &self.retry {
                    Some(query) => Some(query.duplicate()),
                    None => None,
                }
            } else {
                None
            },
        }
    }

    /// Takes the icon that the lookup gave.
    pub fn answer(&mut self, icon: Icon)
        ensures
            final(self)@ == old(self)@.answered(icon.uri@, icon.uri_mute@, icon.is_default),
    {
        self.channel.icon_uri = icon.uri;
        self.channel.icon_uri_mute = icon.uri_mute;
        self.channel.uses_default_icon = icon.is_default;
        if self.lookup.is_some() {
            self.lookup = None;
        } else {
            self.retry = None;
        }
        assert(self@ =~= old(self)@.answered(icon.uri@, icon.uri_mute@, icon.is_default));
    }
}

/// A plan asks for at most two lookups, the second only if the first one found
/// nothing but the default icon.
pub proof fn law_at_most_two_lookups(
    plan: PlannedView,
    first: (Seq<char>, Seq<char>, bool),
    second: (Seq<char>, Seq<char>, bool),
)
    ensures
        ({
            let after_first = plan.answered(first.0, first.1, first.2);
            &&& !first.2 ==> after_first.next_query() is None
            &&& plan.lookup is None ==> after_first.next_query() is None
            &&& after_first.answered(second.0, second.1, second.2).next_query() is None
        }),
{
}

/// What is shown for a channel: one that shares its name goes by its sink, if it has
/// one; of any other a Kick title is cut down to the handle, and any other name is
/// shown as it is.
pub proof fn law_label_of_a_channel(ch: ChannelView)
    ensures
        ch.is_multi_sink_app && ch.sink_name is Some ==> ch.label() == ch.sink_name->0,
        ch.is_multi_sink_app && ch.sink_name is None ==> ch.label() == ch.app_name,
        !ch.is_multi_sink_app ==> match crate::kick::handle_in(ch.app_name) {
            Some(handle) => ch.label() == handle,
            None => ch.label() == ch.app_name,
        },
{
}

/// The lookup of a plan is made first; the retry is made only while the channel shows
/// the default icon. What a lookup gives is shown, and nothing else of the channel
/// changes.
pub proof fn law_answers_are_shown(
    plan: PlannedView,
    uri: Seq<char>,
    uri_mute: Seq<char>,
    is_default: bool,
)
    ensures
        plan.lookup is Some ==> plan.next_query() == plan.lookup,
        plan.lookup is None && plan.channel.uses_default_icon ==> plan.next_query() == plan.retry,
        plan.lookup is None && !plan.channel.uses_default_icon ==> plan.next_query() is None,
        ({
            let after = plan.answered(uri, uri_mute, is_default);
            &&& after.channel == (ChannelView {
                icon_uri: uri,
                icon_uri_mute: uri_mute,
                uses_default_icon: is_default,
                ..plan.channel
            })
            &&& plan.lookup is Some && is_default ==> after.next_query() == plan.retry
            &&& plan.lookup is Some && !is_default ==> after.next_query() is None
        }),
{
}

} // verus!
