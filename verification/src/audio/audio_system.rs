//! One stream, or one group of streams, that the audio server plays.

use crate::text::{opt_bytes, opt_text};
use crate::window_icons::{opt_icon, WindowIcon, WindowIconView};
use vstd::prelude::*;

verus! {

/// One entry of the audio server's list.
#[derive(Debug)]
pub struct AppInfo {
    pub uid: u32,
    /// Every PulseAudio sink-input index this entry controls. Usually just
    /// `[uid]`, but a collapsed app (e.g. a game opening "audio stream #1/2/3")
    /// carries all of its streams here so volume/mute apply to all of them.
    pub member_uids: Vec<u32>,
    pub app_name: String,
    /// Stable, content-independent identity for the app (PulseAudio
    /// `application.name`, e.g. "Spotify"/"Firefox"). Unlike `app_name`, it does
    /// not change when the track/tab/window title changes, so the exclude list
    /// keys off this to keep an app dismissed across tracks.
    pub app_id: String,
    pub icon_search_name: String,
    pub pid: Option<u32>,
    pub sink_name: Option<String>,
    pub mute: bool,
    /// The volume in percent, as the bit pattern of an IEEE 754 single. A
    /// percentage is never negative, so the louder of two has the larger pattern.
    pub vol_percent: u32,
    pub icon_name: Option<String>,
    pub is_device: bool,
    /// Whether the stream comes from a web browser.
    pub is_browser: bool,
    pub is_multi_sink_app: bool,
    /// PID from the owning PulseAudio *client* proplist. For some apps (e.g.
    /// pipewire-native ones) the sink-input has no PID but the client does.
    pub client_pid: Option<u32>,
    /// `application.name` from the client proplist.
    pub client_name: Option<String>,
    /// `application.process.binary` from the client proplist, a clean icon key.
    pub client_binary: Option<String>,
    /// Normalized app-id of the matched XWayland window (lowercased, `.exe`
    /// stripped), used as a high-quality themed-icon lookup key.
    pub wm_class: Option<String>,
    /// Real icon pixels pulled from the matched window's `_NET_WM_ICON`.
    pub window_icon: Option<WindowIcon>,
    /// The streamer's avatar, once it has been fetched.
    pub kick_art: Option<Vec<u8>>,
    /// Whether the avatar is still being fetched.
    pub kick_pending: bool,
}

/// The mathematical content of an [`AppInfo`].
#[verifier::ext_equal]
pub struct AppView {
    pub uid: u32,
    pub member_uids: Seq<u32>,
    pub app_name: Seq<char>,
    pub app_id: Seq<char>,
    pub icon_search_name: Seq<char>,
    pub pid: Option<u32>,
    pub sink_name: Option<Seq<char>>,
    pub mute: bool,
    pub vol_percent: u32,
    pub icon_name: Option<Seq<char>>,
    pub is_device: bool,
    pub is_browser: bool,
    pub is_multi_sink_app: bool,
    pub client_pid: Option<u32>,
    pub client_name: Option<Seq<char>>,
    pub client_binary: Option<Seq<char>>,
    pub wm_class: Option<Seq<char>>,
    pub window_icon: Option<WindowIconView>,
    pub kick_art: Option<Seq<u8>>,
    pub kick_pending: bool,
}

impl View for AppInfo {
    type V = AppView;

    open spec fn view(&self) -> AppView {
        AppView {
            uid: self.uid,
            member_uids: self.member_uids@,
            app_name: self.app_name@,
            app_id: self.app_id@,
            icon_search_name: self.icon_search_name@,
            pid: self.pid,
            sink_name: opt_text(self.sink_name),
            mute: self.mute,
            vol_percent: self.vol_percent,
            icon_name: opt_text(self.icon_name),
            is_device: self.is_device,
            is_browser: self.is_browser,
            is_multi_sink_app: self.is_multi_sink_app,
            client_pid: self.client_pid,
            client_name: opt_text(self.client_name),
            client_binary: opt_text(self.client_binary),
            wm_class: opt_text(self.wm_class),
            window_icon: opt_icon(self.window_icon),
            kick_art: opt_bytes(self.kick_art),
            kick_pending: self.kick_pending,
        }
    }
}

/// The contents of a list of entries.
pub open spec fn app_views(apps: Seq<AppInfo>) -> Seq<AppView> {
    apps.map_values(|a: AppInfo| a@)
}

impl AppInfo {
    /// A copy of the entry.
    pub fn duplicate(&self) -> (r: AppInfo)
        ensures
            r@ == self@,
    {
        AppInfo {
            uid: self.uid,
            member_uids: copy_uids(&self.member_uids),
            app_name: self.app_name.clone(),
            app_id: self.app_id.clone(),
            icon_search_name: self.icon_search_name.clone(),
            pid: self.pid,
            sink_name: self.sink_name.clone(),
            mute: self.mute,
            vol_percent: self.vol_percent,
            icon_name: self.icon_name.clone(),
            is_device: self.is_device,
            is_browser: self.is_browser,
            is_multi_sink_app: self.is_multi_sink_app,
            client_pid: self.client_pid,
            client_name: self.client_name.clone(),
            client_binary: self.client_binary.clone(),
            wm_class: self.wm_class.clone(),
            window_icon: copy_icon(&self.window_icon),
            kick_art: copy_bytes(&self.kick_art),
            kick_pending: self.kick_pending,
        }
    }
}

/// A copy of a list of stream indices.
pub(crate) fn copy_uids(uids: &Vec<u32>) -> (r: Vec<u32>)
    ensures
        r@ == uids@,
{
    let r = uids.clone();
    assert(r@ =~= uids@);
    r
}

/// A copy of an optional buffer.
pub(crate) fn copy_bytes(bytes: &Option<Vec<u8>>) -> (r: Option<Vec<u8>>)
    ensures
        opt_bytes(r) == opt_bytes(*bytes),
{
    match bytes {
        Some(b) => {
            let copy = b.clone();
            assert(copy@ =~= b@);
            Some(copy)
        },
        None => None,
    }
}

/// A copy of an optional icon.
pub(crate) fn copy_icon(icon: &Option<WindowIcon>) -> (r: Option<WindowIcon>)
    ensures
        opt_icon(r) == opt_icon(*icon),
{
    match icon {
        Some(i) => {
            let png = i.png.clone();
            assert(png@ =~= i.png@);
            Some(WindowIcon { max_dim: i.max_dim, png })
        },
        None => None,
    }
}

} // verus!
