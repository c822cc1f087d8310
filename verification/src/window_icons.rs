//! Application icons and names recovered from XWayland windows.
//!
//! On a Wayland session, X11 apps (games, launchers, Electron/CEF apps) run
//! under XWayland and still publish the classic X11 window properties. Streams of
//! web browsers are left alone; of the others:
//!   - `WM_CLASS` gives a clean app-id (e.g. "starcitizen") that maps onto the
//!     installed themed icon far better than the messy PulseAudio stream name.
//!   - `_NET_WM_ICON` carries the actual icon pixels, the only option for
//!     themeless apps (Wine games), and sometimes higher quality than the theme.

use crate::audio::audio_system::{app_views, AppInfo, AppView};
use crate::audio::pulse::{is_browser_node, names_browser};
use crate::codec::{lossy_text, png_file, text_from_bytes, write_png};
use crate::text::{
    ends_with, find, index_of, is_white_space, lemma_first_occurrence, lemma_trimmed,
    list_contains, lowercased, occurs_at, occurs_in, opt_bytes, opt_text, texts, to_lowercase,
    trim, trimmed,
};
use std::collections::HashMap;
use vstd::prelude::*;
use vstd::slice::slice_subrange;
use vstd::string::*;

verus! {

/// Decoded icon pixels pulled from a window's `_NET_WM_ICON`, PNG-encoded.
#[derive(Clone, Debug)]
pub struct WindowIcon {
    pub max_dim: u32,
    pub png: Vec<u8>,
}

/// The mathematical content of a [`WindowIcon`].
#[verifier::ext_equal]
pub struct WindowIconView {
    pub max_dim: u32,
    pub png: Seq<u8>,
}

impl View for WindowIcon {
    type V = WindowIconView;

    open spec fn view(&self) -> WindowIconView {
        WindowIconView { max_dim: self.max_dim, png: self.png@ }
    }
}

/// The content of an optional icon.
pub open spec fn opt_icon(icon: Option<WindowIcon>) -> Option<WindowIconView> {
    match icon {
        Some(i) => Some(i@),
        None => None,
    }
}

/// An app identifier as it is compared: in lower case, without the white space
/// around it and without a final `.exe`.
pub open spec fn normalized(s: Seq<char>) -> Seq<char> {
    let lower = lowercased(trimmed(s));
    if ".exe"@.is_suffix_of(lower) {
        trimmed(lower.take(lower.len() - ".exe"@.len()))
    } else {
        trimmed(lower)
    }
}

/// Normalize an app identifier for matching/lookup: lowercase, trim, drop a
/// trailing `.exe` (Wine windows report e.g. "starcitizen.exe").
pub fn normalize(s: &str) -> (r: String)
    ensures
        r@ == normalized(s@),
{
    let lower = to_lowercase(trim(s));
    if ends_with(&lower, ".exe") {
        let end: usize = lower.as_str().unicode_len() - ".exe".unicode_len();
        assert(lower@.subrange(0, end as int) =~= lower@.take(end as int));
        trim(lower.as_str().substring_char(0, end)).to_owned()
    } else {
        trim(&lower).to_owned()
    }
}

/// Where the runtime decorations of a title begin: at the first " (" or " - ".
pub open spec fn decorations_at(title: Seq<char>) -> Option<int> {
    match (index_of(title, " ("@), index_of(title, " - "@)) {
        (Some(a), Some(b)) => if a < b {
            Some(a)
        } else {
            Some(b)
        },
        (Some(a), None) => Some(a),
        (None, b) => b,
    }
}

/// A window title without its runtime decorations.
pub open spec fn undecorated(raw: Seq<char>) -> Seq<char> {
    let title = trimmed(raw);
    match decorations_at(title) {
        Some(at) => trimmed(title.take(at)),
        None => title,
    }
}

/// Reduce a window title to a clean app name by dropping trailing runtime
/// decorations: everything from the first " (" or " - " onward.
/// "Baldur's Gate 3 (3840x2160) - (Vulkan)" -> "Baldur's Gate 3".
pub fn clean_title(raw: &str) -> (r: String)
    ensures
        r@ == undecorated(raw@),
{
    let title = trim(raw);
    let cut: Option<usize> = match (find(title, " ("), find(title, " - ")) {
        (Some(a), Some(b)) => if a < b {
            Some(a)
        } else {
            Some(b)
        },
        (Some(a), None) => Some(a),
        (None, b) => b,
    };
    match cut {
        Some(at) => {
            assert(title@.subrange(0, at as int) =~= title@.take(at as int));
            trim(title.substring_char(0, at)).to_owned()
        },
        None => title.to_owned(),
    }
}

/// What is known of one toplevel window.
#[derive(Debug)]
pub struct WindowRef {
    pub window: u32,
    pub pid: Option<u32>,
    /// Normalized `WM_CLASS` strings (instance + class), deduped.
    pub classes: Vec<String>,
    /// Normalized `_NET_WM_NAME` (for matching).
    pub name: Option<String>,
    /// Raw `_NET_WM_NAME` (for display).
    pub title: Option<String>,
}

/// The mathematical content of a [`WindowRef`].
#[verifier::ext_equal]
pub struct WindowView {
    pub window: u32,
    pub pid: Option<u32>,
    pub classes: Seq<Seq<char>>,
    pub name: Option<Seq<char>>,
    pub title: Option<Seq<char>>,
}

impl View for WindowRef {
    type V = WindowView;

    open spec fn view(&self) -> WindowView {
        WindowView {
            window: self.window,
            pid: self.pid,
            classes: texts(self.classes@),
            name: opt_text(self.name),
            title: opt_text(self.title),
        }
    }
}

/// The contents of a list of windows.
pub open spec fn window_views(windows: Seq<WindowRef>) -> Seq<WindowView> {
    windows.map_values(|w: WindowRef| w@)
}

/// A list of keys with one more: the normalized form of a candidate, unless it
/// is empty or there already.
pub open spec fn with_key(keys: Seq<Seq<char>>, candidate: Seq<char>) -> Seq<Seq<char>> {
    let key = normalized(candidate);
    if key.len() == 0 || keys.contains(key) {
        keys
    } else {
        keys.push(key)
    }
}

fn add_key(keys: &mut Vec<String>, candidate: &str)
    ensures
        texts(final(keys)@) == with_key(texts(old(keys)@), candidate@),
{
    let ghost before = texts(keys@);
    let key = normalize(candidate);
    if !key.as_str().is_empty() && !list_contains(keys, &key) {
        keys.push(key);
        assert(texts(keys@) =~= before.push(key@));
    }
}

/// How many bytes stand in front of the first zero.
pub open spec fn bytes_before_zero(bytes: Seq<u8>) -> int
    decreases bytes.len(),
{
    if bytes.len() == 0 || bytes[0] == 0 {
        0
    } else {
        1 + bytes_before_zero(bytes.drop_first())
    }
}

/// A list of keys with those of a `WM_CLASS` property: the parts between its
/// zero bytes, empty ones aside.
pub open spec fn with_classes(keys: Seq<Seq<char>>, bytes: Seq<u8>) -> Seq<Seq<char>>
    decreases bytes.len(),
{
    let end = bytes_before_zero(bytes);
    let next = if end <= 0 {
        keys
    } else {
        with_key(keys, lossy_text(bytes.take(end)))
    };
    if 0 <= end < bytes.len() {
        with_classes(next, bytes.skip(end + 1))
    } else {
        next
    }
}

fn find_zero(bytes: &[u8], start: usize) -> (r: usize)
    requires
        start <= bytes@.len(),
    ensures
        start <= r <= bytes@.len(),
        r - start == bytes_before_zero(bytes@.skip(start as int)),
        r < bytes@.len() ==> bytes@[r as int] == 0,
{
    let ghost whole = bytes_before_zero(bytes@.skip(start as int));
    let mut i: usize = start;
    while i < bytes.len() && bytes[i] != 0
        invariant
            start <= i <= bytes@.len(),
            i - start + bytes_before_zero(bytes@.skip(i as int)) == whole,
        decreases bytes.len() - i,
    {
        assert(bytes@.skip(i as int)[0] == bytes@[i as int]);
        assert(bytes@.skip(i as int).drop_first() =~= bytes@.skip(i + 1));
        i += 1;
    }
    proof {
        if i < bytes@.len() {
            assert(bytes@.skip(i as int)[0] == bytes@[i as int]);
        }
    }
    i
}

/// The normalized strings of a `WM_CLASS` property, each one once.
pub fn class_names(bytes: &[u8]) -> (r: Vec<String>)
    ensures
        texts(r@) == with_classes(Seq::empty(), bytes@),
{
    let mut classes: Vec<String> = Vec::new();
    let mut start: usize = 0;
    proof {
        assert(texts(classes@) =~= Seq::empty());
        assert(bytes@.skip(0) =~= bytes@);
    }
    loop
        invariant
            start <= bytes@.len(),
            with_classes(texts(classes@), bytes@.skip(start as int)) == with_classes(
                Seq::empty(),
                bytes@,
            ),
        decreases bytes@.len() - start,
    {
        let end: usize = find_zero(bytes, start);
        let ghost rest = bytes@.skip(start as int);
        proof {
            assert(rest.take(end - start) =~= bytes@.subrange(start as int, end as int));
        }
        if end > start {
            let part = slice_subrange(bytes, start, end);
            add_key(&mut classes, &text_from_bytes(part));
        }
        if end >= bytes.len() {
            return classes;
        }
        assert(rest.skip(end - start + 1) =~= bytes@.skip(end + 1));
        start = end + 1;
    }
}

/// The strings of a `WM_CLASS` property are told apart and none of them is empty.
pub proof fn law_class_names_are_distinct(bytes: Seq<u8>)
    ensures
        with_classes(Seq::empty(), bytes).no_duplicates(),
        forall|i: int|
            0 <= i < with_classes(Seq::empty(), bytes).len() ==> (#[trigger] with_classes(
                Seq::empty(),
                bytes,
            )[i]).len() > 0,
{
    lemma_classes_are_keys(Seq::empty(), bytes);
}

spec fn are_keys(keys: Seq<Seq<char>>) -> bool {
    &&& keys.no_duplicates()
    &&& forall|i: int| 0 <= i < keys.len() ==> (#[trigger] keys[i]).len() > 0
}

proof fn lemma_classes_are_keys(keys: Seq<Seq<char>>, bytes: Seq<u8>)
    requires
        are_keys(keys),
    ensures
        are_keys(with_classes(keys, bytes)),
    decreases bytes.len(),
{
    let end = bytes_before_zero(bytes);
    let next = if end <= 0 {
        keys
    } else {
        with_key(keys, lossy_text(bytes.take(end)))
    };
    assert(are_keys(next));
    if 0 <= end < bytes.len() {
        lemma_classes_are_keys(next, bytes.skip(end + 1));
    }
}

/// The title that a `_NET_WM_NAME` property holds, if it is not blank.
pub open spec fn title_in(bytes: Option<Seq<u8>>) -> Option<Seq<char>> {
    match bytes {
        Some(b) => if trimmed(lossy_text(b)).len() > 0 {
            Some(trimmed(lossy_text(b)))
        } else {
            None
        },
        None => None,
    }
}

/// What the properties of a window say of it.
pub open spec fn window_of(
    window: u32,
    pid: Option<u32>,
    class: Option<Seq<u8>>,
    name: Option<Seq<u8>>,
) -> WindowView {
    WindowView {
        window,
        pid,
        classes: match class {
            Some(bytes) => with_classes(Seq::empty(), bytes),
            None => Seq::empty(),
        },
        name: match title_in(name) {
            Some(title) => if normalized(title).len() > 0 {
                Some(normalized(title))
            } else {
                None
            },
            None => None,
        },
        title: title_in(name),
    }
}

/// Reads a window from its properties: the process id, and the raw `WM_CLASS`
/// and `_NET_WM_NAME`.
pub fn read_window(
    window: u32,
    pid: Option<u32>,
    class: Option<Vec<u8>>,
    name: Option<Vec<u8>>,
) -> (r: WindowRef)
    ensures
        r@ == window_of(window, pid, opt_bytes(class), opt_bytes(name)),
{
    let classes: Vec<String> = match &class {
        Some(bytes) => class_names(bytes),
        None => Vec::new(),
    };
    let title: Option<String> = match &name {
        Some(bytes) => {
            let text = text_from_bytes(bytes);
            let title = trim(&text);
            if title.is_empty() {
                None
            } else {
                Some(title.to_owned())
            }
        },
        None => None,
    };
    let key: Option<String> = match &title {
        Some(t) => {
            let key = normalize(t);
            if key.as_str().is_empty() {
                None
            } else {
                Some(key)
            }
        },
        None => None,
    };
    let r = WindowRef { window, pid, classes, name: key, title };
    assert(r@ =~= window_of(window, pid, opt_bytes(class), opt_bytes(name)));
    r
}

/// Whether a window belongs to one of some processes.
pub open spec fn pid_matches(w: WindowView, pids: Seq<Option<u32>>) -> bool {
    w.pid is Some && pids.contains(w.pid)
}

/// Whether a window has one of some names among its classes.
pub open spec fn class_matches(w: WindowView, names: Seq<Seq<char>>) -> bool {
    exists|k: int| 0 <= k < names.len() && w.classes.contains(#[trigger] names[k])
}

/// Whether a window's own name is one of some names.
pub open spec fn name_matches(w: WindowView, names: Seq<Seq<char>>) -> bool {
    w.name is Some && names.contains(w.name->0)
}

/// The ways to tie a window to a stream, the most reliable first.
#[derive(Clone, Copy, PartialEq, Eq, Structural, Debug)]
pub enum Tie {
    Pid,
    Class,
    Name,
}

/// Whether a window is tied to a stream in a given way.
pub open spec fn is_tied(
    w: WindowView,
    tie: Tie,
    pids: Seq<Option<u32>>,
    names: Seq<Seq<char>>,
) -> bool {
    match tie {
        Tie::Pid => pid_matches(w, pids),
        Tie::Class => class_matches(w, names),
        Tie::Name => name_matches(w, names),
    }
}

/// The first window that is tied to a stream in a given way.
pub open spec fn first_tied(
    windows: Seq<WindowView>,
    tie: Tie,
    pids: Seq<Option<u32>>,
    names: Seq<Seq<char>>,
) -> Option<WindowView>
    decreases windows.len(),
{
    if windows.len() == 0 {
        None
    } else if is_tied(windows[0], tie, pids, names) {
        Some(windows[0])
    } else {
        first_tied(windows.drop_first(), tie, pids, names)
    }
}

/// The window that best corresponds to a stream.
pub open spec fn best_window(
    windows: Seq<WindowView>,
    pids: Seq<Option<u32>>,
    names: Seq<Seq<char>>,
) -> Option<WindowView> {
    match first_tied(windows, Tie::Pid, pids, names) {
        Some(w) => Some(w),
        None => match first_tied(windows, Tie::Class, pids, names) {
            Some(w) => Some(w),
            None => first_tied(windows, Tie::Name, pids, names),
        },
    }
}

fn has_pid(w: &WindowRef, pids: &[Option<u32>]) -> (r: bool)
    ensures
        r == pid_matches(w@, pids@),
{
    let pid: u32 = match w.pid {
        Some(pid) => pid,
        None => {
            return false;
        },
    };
    let mut i: usize = 0;
    while i < pids.len()
        invariant
            i <= pids.len(),
            w.pid == Some(pid),
            forall|j: int| 0 <= j < i ==> #[trigger] pids@[j] != w.pid,
        decreases pids.len() - i,
    {
        if let Some(p) = pids[i] {
            if p == pid {
                assert(pids@[i as int] == w.pid);
                return true;
            }
        }
        i += 1;
    }
    false
}

fn has_class(w: &WindowRef, names: &[String]) -> (r: bool)
    ensures
        r == class_matches(w@, texts(names@)),
{
    let ghost all = texts(names@);
    let mut i: usize = 0;
    while i < names.len()
        invariant
            i <= names.len(),
            all == texts(names@),
            forall|k: int| 0 <= k < i ==> !w@.classes.contains(#[trigger] all[k]),
        decreases names.len() - i,
    {
        assert(all[i as int] == names@[i as int]@);
        if list_contains(&w.classes, &names[i]) {
            return true;
        }
        i += 1;
    }
    false
}

fn has_tie(w: &WindowRef, tie: Tie, pids: &[Option<u32>], names: &[String]) -> (r: bool)
    ensures
        r == is_tied(w@, tie, pids@, texts(names@)),
{
    match tie {
        Tie::Pid => has_pid(w, pids),
        Tie::Class => has_class(w, names),
        Tie::Name => match &w.name {
            Some(name) => list_contains(names, name),
            None => false,
        },
    }
}

fn find_tied<'a>(
    windows: &'a [WindowRef],
    tie: Tie,
    pids: &[Option<u32>],
    names: &[String],
) -> (r: Option<&'a WindowRef>)
    ensures
        match r {
            Some(w) => first_tied(window_views(windows@), tie, pids@, texts(names@)) == Some(w@),
            None => first_tied(window_views(windows@), tie, pids@, texts(names@)) is None,
        },
{
    let ghost all = window_views(windows@);
    let mut i: usize = 0;
    assert(all.skip(0) =~= all);
    while i < windows.len()
        invariant
            i <= windows.len(),
            all == window_views(windows@),
            first_tied(all, tie, pids@, texts(names@)) == first_tied(
                all.skip(i as int),
                tie,
                pids@,
                texts(names@),
            ),
        decreases windows.len() - i,
    {
        assert(all.skip(i as int)[0] == windows@[i as int]@);
        if has_tie(&windows[i], tie, pids, names) {
            return Some(&windows[i]);
        }
        assert(all.skip(i as int).drop_first() =~= all.skip(i + 1));
        i += 1;
    }
    None
}

/// Choose the window that best corresponds to an audio stream. Priority: exact
/// PID (reliable for single-process apps), then WM_CLASS match (bridges CEF and
/// Electron apps whose audio runs in a detached utility process), then
/// window-name match.
pub fn pick_window<'a>(
    windows: &'a [WindowRef],
    pids: &[Option<u32>],
    names: &[String],
) -> (r: Option<&'a WindowRef>)
    ensures
        match r {
            Some(w) => best_window(window_views(windows@), pids@, texts(names@)) == Some(w@),
            None => best_window(window_views(windows@), pids@, texts(names@)) is None,
        },
{
    match find_tied(windows, Tie::Pid, pids, names) {
        Some(w) => Some(w),
        None => match find_tied(windows, Tie::Class, pids, names) {
            Some(w) => Some(w),
            None => find_tied(windows, Tie::Name, pids, names),
        },
    }
}

proof fn lemma_first_tied(
    windows: Seq<WindowView>,
    tie: Tie,
    pids: Seq<Option<u32>>,
    names: Seq<Seq<char>>,
)
    ensures
        match first_tied(windows, tie, pids, names) {
            Some(w) => windows.contains(w) && is_tied(w, tie, pids, names),
            None => forall|i: int|
                0 <= i < windows.len() ==> !is_tied(#[trigger] windows[i], tie, pids, names),
        },
    decreases windows.len(),
{
    if windows.len() > 0 && !is_tied(windows[0], tie, pids, names) {
        let rest = windows.drop_first();
        lemma_first_tied(rest, tie, pids, names);
        match first_tied(rest, tie, pids, names) {
            Some(w) => {
                let i = choose|i: int| 0 <= i < rest.len() && rest[i] == w;
                assert(windows[i + 1] == w);
            },
            None => {
                assert forall|i: int| 0 <= i < windows.len() implies !is_tied(
                    #[trigger] windows[i],
                    tie,
                    pids,
                    names,
                ) by {
                    if i > 0 {
                        assert(rest[i - 1] == windows[i]);
                    }
                }
            },
        }
    }
}

/// A picked window is one of the windows and is tied to the stream. If any
/// window has one of the stream's PIDs, the picked one has; if none has but some
/// window has one of the names as a class, the picked one has; and nothing is
/// picked only if no window is tied in any way.
pub proof fn law_pid_goes_before_class_before_name(
    windows: Seq<WindowView>,
    pids: Seq<Option<u32>>,
    names: Seq<Seq<char>>,
    i: int,
)
    requires
        0 <= i < windows.len(),
    ensures
        match best_window(windows, pids, names) {
            Some(w) => {
                &&& windows.contains(w)
                &&& pid_matches(windows[i], pids) ==> pid_matches(w, pids)
                &&& class_matches(windows[i], names) ==> pid_matches(w, pids) || class_matches(
                    w,
                    names,
                )
                &&& pid_matches(w, pids) || class_matches(w, names) || name_matches(w, names)
            },
            None => !pid_matches(windows[i], pids) && !class_matches(windows[i], names)
                && !name_matches(windows[i], names),
        },
{
    lemma_first_tied(windows, Tie::Pid, pids, names);
    lemma_first_tied(windows, Tie::Class, pids, names);
    lemma_first_tied(windows, Tie::Name, pids, names);
    assert(is_tied(windows[i], Tie::Pid, pids, names) == pid_matches(windows[i], pids));
    assert(is_tied(windows[i], Tie::Class, pids, names) == class_matches(windows[i], names));
    assert(is_tied(windows[i], Tie::Name, pids, names) == name_matches(windows[i], names));
}

/// One image of a `_NET_WM_ICON` property: its size, and where its pixels begin.
pub struct IconImage {
    pub width: u32,
    pub height: u32,
    pub start: int,
}

/// The images of a `_NET_WM_ICON` property from position `i` on: each one is
/// `[width, height, width*height pixels...]`. The list ends at the first one that
/// is empty or cut short.
pub open spec fn images_from(data: Seq<u32>, i: int) -> Seq<IconImage>
    decreases data.len() - i,
{
    if i < 0 || i + 2 > data.len() {
        Seq::empty()
    } else {
        let count = data[i] * data[i + 1];
        if count <= 0 || i + 2 + count > data.len() {
            Seq::empty()
        } else {
            seq![IconImage { width: data[i], height: data[i + 1], start: i + 2 }] + images_from(
                data,
                i + 2 + count,
            )
        }
    }
}

/// Whether image `k` is the largest, and of equally large ones the first.
pub open spec fn is_largest(images: Seq<IconImage>, k: int) -> bool {
    &&& 0 <= k < images.len()
    &&& forall|j: int|
        0 <= j < images.len() ==> (#[trigger] images[j]).width * images[j].height
            <= images[k].width * images[k].height
    &&& forall|j: int|
        0 <= j < k ==> (#[trigger] images[j]).width * images[j].height < images[k].width
            * images[k].height
}

/// Byte `c` of a pixel `0xAARRGGBB`, in the order red, green, blue, alpha.
pub open spec fn pixel_byte(px: u32, c: int) -> u8 {
    if c == 0 {
        (px / 0x1_0000 % 0x100) as u8
    } else if c == 1 {
        (px / 0x100 % 0x100) as u8
    } else if c == 2 {
        (px % 0x100) as u8
    } else {
        (px / 0x100_0000) as u8
    }
}

/// The bytes of some pixels, four for each.
pub open spec fn rgba_bytes(pixels: Seq<u32>) -> Seq<u8> {
    Seq::new(4 * pixels.len(), |i: int| pixel_byte(pixels[i / 4], i % 4))
}

/// The largest image of a `_NET_WM_ICON` property: its size and its bytes.
pub open spec fn largest_image(data: Seq<u32>) -> Option<(u32, u32, Seq<u8>)> {
    let images = images_from(data, 0);
    if images.len() == 0 {
        None
    } else {
        let image = images[choose|k: int| is_largest(images, k)];
        Some(
            (
                image.width,
                image.height,
                rgba_bytes(
                    data.subrange(image.start, image.start + image.width * image.height),
                ),
            ),
        )
    }
}

fn push_pixel(rgba: &mut Vec<u8>, px: u32)
    ensures
        final(rgba)@ == old(rgba)@ + seq![
            pixel_byte(px, 0),
            pixel_byte(px, 1),
            pixel_byte(px, 2),
            pixel_byte(px, 3),
        ],
{
    let ghost before = rgba@;
    proof {
        assert((px >> 16) & 0xff == px / 0x1_0000 % 0x100) by (bit_vector);
        assert((px >> 8) & 0xff == px / 0x100 % 0x100) by (bit_vector);
        assert(px & 0xff == px % 0x100) by (bit_vector);
        assert((px >> 24) & 0xff == px / 0x100_0000) by (bit_vector);
    }
    rgba.push(((px >> 16) & 0xff) as u8);
    rgba.push(((px >> 8) & 0xff) as u8);
    rgba.push((px & 0xff) as u8);
    rgba.push(((px >> 24) & 0xff) as u8);
    assert(rgba@ =~= before + seq![
        pixel_byte(px, 0),
        pixel_byte(px, 1),
        pixel_byte(px, 2),
        pixel_byte(px, 3),
    ]);
}

fn unpack_pixels(data: &[u32], start: usize, end: usize) -> (r: Vec<u8>)
    requires
        start <= end <= data@.len(),
    ensures
        r@ == rgba_bytes(data@.subrange(start as int, end as int)),
{
    let ghost pixels = data@.subrange(start as int, end as int);
    let mut rgba: Vec<u8> = Vec::new();
    let mut i: usize = start;
    while i < end
        invariant
            start <= i <= end <= data@.len(),
            pixels == data@.subrange(start as int, end as int),
            rgba@ == rgba_bytes(pixels.take(i - start)),
        decreases end - i,
    {
        let ghost n = i - start;
        let ghost before = rgba@;
        push_pixel(&mut rgba, data[i]);
        proof {
            let longer = rgba_bytes(pixels.take(n + 1));
            assert(pixels[n] == data@[i as int]);
            assert forall|k: int| 0 <= k < longer.len() implies rgba@[k] == longer[k] by {
                if k < 4 * n {
                    assert(before[k] == longer[k]);
                } else {
                    assert(k / 4 == n);
                    assert(k % 4 == k - 4 * n);
                }
            }
            assert(rgba@ =~= longer);
        }
        i += 1;
    }
    assert(pixels.take(pixels.len() as int) =~= pixels);
    rgba
}

/// `_NET_WM_ICON` is one or more images concatenated, each laid out as
/// `[width, height, width*height pixels...]` where every pixel is a 32-bit
/// non-premultiplied `0xAARRGGBB`. Return the largest image as (w, h, RGBA).
pub fn parse_largest_icon(data: &[u32]) -> (r: Option<(u32, u32, Vec<u8>)>)
    ensures
        match r {
            Some((w, h, rgba)) => largest_image(data@) == Some((w, h, rgba@)),
            None => largest_image(data@) is None,
        },
{
    let ghost images = images_from(data@, 0);
    let ghost mut seen: Seq<IconImage> = Seq::empty();
    let ghost mut at: int = 0;
    let mut best: Option<(u32, u32, usize, usize)> = None;
    let mut i: usize = 0;
    let mut more = true;
    assert(seen + images_from(data@, 0) =~= images);
    while more
        invariant
            i <= data@.len(),
            more ==> seen + images_from(data@, i as int) == images,
            !more ==> seen == images,
            match best {
                None => seen.len() == 0,
                Some((w, h, start, end)) => {
                    &&& is_largest(seen, at)
                    &&& seen[at] == (IconImage { width: w, height: h, start: start as int })
                    &&& end == start + w * h
                    &&& start <= end <= data@.len()
                },
            },
        decreases (if more {
            1 + data@.len() - i
        } else {
            0
        }),
    {
        if data.len() - i < 2 {
            assert(seen + images_from(data@, i as int) =~= seen);
            more = false;
        } else {
            let w: u32 = data[i];
            let h: u32 = data[i + 1];
            proof {
                assert(w * h <= 0xffff_ffff * 0xffff_ffff) by (nonlinear_arith);
                assert(w == 0 || h == 0 ==> w * h == 0) by (nonlinear_arith);
                assert(w > 0 && h > 0 ==> w * h > 0) by (nonlinear_arith);
            }
            let count: u64 = w as u64 * h as u64;
            let left: usize = data.len() - i - 2;
            if w == 0 || h == 0 || count > left as u64 {
                assert(seen + images_from(data@, i as int) =~= seen);
                more = false;
            } else {
                let ghost image = IconImage { width: w, height: h, start: i + 2 };
                let ghost before = seen;
                let larger = match best {
                    None => true,
                    Some((_, _, start, end)) => count > (end - start) as u64,
                };
                proof {
                    seen = seen.push(image);
                    assert(images_from(data@, i as int) =~= seq![image] + images_from(
                        data@,
                        i + 2 + count,
                    ));
                    assert(seen + images_from(data@, i + 2 + count) =~= before + images_from(
                        data@,
                        i as int,
                    ));
                    assert forall|j: int| 0 <= j < before.len() implies #[trigger] seen[j]
                        == before[j] by {}
                }
                let next: usize = i + 2 + count as usize;
                if larger {
                    best = Some((w, h, i + 2, next));
                    proof {
                        at = before.len() as int;
                    }
                }
                i = next;
            }
        }
    }
    match best {
        None => None,
        Some((w, h, start, end)) => {
            proof {
                let k = choose|k: int| is_largest(images, k);
                assert(is_largest(images, k));
                lemma_largest_is_unique(images, k, at);
            }
            let rgba = unpack_pixels(data, start, end);
            Some((w, h, rgba))
        },
    }
}

proof fn lemma_largest_is_unique(images: Seq<IconImage>, k: int, l: int)
    requires
        is_largest(images, k),
        is_largest(images, l),
    ensures
        k == l,
{
    if k < l {
        assert(images[k].width * images[k].height < images[l].width * images[l].height);
    } else if l < k {
        assert(images[l].width * images[l].height < images[k].width * images[k].height);
    }
}

/// The parsed image is one of the images of the property, no other one is
/// larger, and its bytes are four for each of its pixels.
pub proof fn law_largest_image_is_taken(data: Seq<u32>, j: int)
    requires
        0 <= j < images_from(data, 0).len(),
    ensures
        largest_image(data) matches Some((w, h, rgba)) && {
            &&& images_from(data, 0)[j].width * images_from(data, 0)[j].height <= w * h
            &&& exists|k: int|
                0 <= k < images_from(data, 0).len() && (#[trigger] images_from(data, 0)[k]).width == w
                    && images_from(data, 0)[k].height == h
            &&& rgba.len() == 4 * w * h
        },
{
    let images = images_from(data, 0);
    lemma_a_largest_exists(images);
    let k = choose|k: int| is_largest(images, k);
    assert(is_largest(images, k));
    lemma_image_bounds(data, 0, k);
    assert(images[k].width * images[k].height >= 0) by (nonlinear_arith);
    assert(4 * images[k].width * images[k].height == 4 * (images[k].width * images[k].height))
        by (nonlinear_arith);
}

proof fn lemma_a_largest_exists(images: Seq<IconImage>)
    requires
        images.len() > 0,
    ensures
        exists|k: int| is_largest(images, k),
    decreases images.len(),
{
    let rest = images.drop_last();
    let last = images.len() - 1;
    assert forall|j: int| 0 <= j < rest.len() implies #[trigger] rest[j] == images[j] by {}
    if rest.len() == 0 {
        assert(is_largest(images, 0));
    } else {
        lemma_a_largest_exists(rest);
        let k = choose|k: int| is_largest(rest, k);
        if images[last].width * images[last].height > rest[k].width * rest[k].height {
            assert forall|j: int| 0 <= j < images.len() implies (#[trigger] images[j]).width
                * images[j].height <= images[last].width * images[last].height by {
                if j < last {
                    assert(rest[j] == images[j]);
                }
            }
            assert forall|j: int| 0 <= j < last implies (#[trigger] images[j]).width
                * images[j].height < images[last].width * images[last].height by {
                assert(rest[j] == images[j]);
            }
            assert(is_largest(images, last));
        } else {
            assert forall|j: int| 0 <= j < images.len() implies (#[trigger] images[j]).width
                * images[j].height <= images[k].width * images[k].height by {
                if j < last {
                    assert(rest[j] == images[j]);
                }
            }
            assert forall|j: int| 0 <= j < k implies (#[trigger] images[j]).width
                * images[j].height < images[k].width * images[k].height by {
                assert(rest[j] == images[j]);
            }
            assert(is_largest(images, k));
        }
    }
}

proof fn lemma_image_bounds(data: Seq<u32>, i: int, k: int)
    requires
        0 <= i,
        0 <= k < images_from(data, i).len(),
    ensures
        ({
            let image = images_from(data, i)[k];
            0 <= image.start && image.start + image.width * image.height <= data.len()
        }),
    decreases data.len() - i,
{
    let count = data[i] * data[i + 1];
    if k > 0 {
        lemma_image_bounds(data, i + 2 + count, k - 1);
    }
}

/// The icon that a `_NET_WM_ICON` property holds: its largest image as a PNG
/// file.
pub open spec fn icon_in(data: Seq<u32>) -> Option<WindowIconView> {
    match largest_image(data) {
        None => None,
        Some((w, h, rgba)) => match png_file(w, h, rgba) {
            None => None,
            Some(png) => Some(
                WindowIconView {
                    max_dim: if w > h {
                        w
                    } else {
                        h
                    },
                    png,
                },
            ),
        },
    }
}

/// The icon of a `_NET_WM_ICON` property, if the property holds an image.
pub fn icon_to_png(data: &[u32]) -> (r: Option<WindowIcon>)
    ensures
        opt_icon(r) == icon_in(data@),
{
    match parse_largest_icon(data) {
        None => None,
        Some((w, h, rgba)) => {
            proof {
                law_largest_image_is_taken(data@, 0);
            }
            match write_png(w, h, rgba) {
                None => None,
                Some(png) => Some(
                    WindowIcon {
                        max_dim: if w > h {
                            w
                        } else {
                            h
                        },
                        png,
                    },
                ),
            }
        },
    }
}

/// The names by which a stream's window is known, normalized.
pub open spec fn window_names(app: AppView) -> Seq<Seq<char>> {
    let first = with_key(Seq::empty(), app.app_name);
    let second = match app.client_name {
        Some(name) => with_key(first, name),
        None => first,
    };
    match app.client_binary {
        Some(name) => with_key(second, name),
        None => second,
    }
}

/// Whether a stream is a web browser's, which goes by its tab and not by its window.
/// A stream also counts as a browser's where it has no node name or plays through a
/// browser's engine ("Chromium" for Steam): if the program behind it is known, and
/// is no browser, it is not one.
pub open spec fn is_browser_tab(app: AppView) -> bool {
    &&& app.is_browser
    &&& app.client_binary matches Some(binary) ==> names_browser(lowercased(binary))
}

/// The window of a stream, if there is one. Devices and web browsers have none.
pub open spec fn window_for(app: AppView, windows: Seq<WindowView>) -> Option<WindowView> {
    if app.is_device || is_browser_tab(app) {
        None
    } else {
        best_window(windows, seq![app.pid, app.client_pid], window_names(app))
    }
}

fn is_tab(app: &AppInfo) -> (r: bool)
    ensures
        r == is_browser_tab(app@),
{
    app.is_browser && match &app.client_binary {
        Some(binary) => is_browser_node(binary),
        None => true,
    }
}

/// The window of a stream, if there is one. Devices and web browsers have none.
pub fn match_window<'a>(app: &AppInfo, windows: &'a [WindowRef]) -> (r: Option<&'a WindowRef>)
    ensures
        match r {
            Some(w) => window_for(app@, window_views(windows@)) == Some(w@),
            None => window_for(app@, window_views(windows@)) is None,
        },
{
    if app.is_device || is_tab(app) {
        return None;
    }
    let pids: [Option<u32>; 2] = [app.pid, app.client_pid];
    assert(pids@ =~= seq![app.pid, app.client_pid]);
    let mut names: Vec<String> = Vec::new();
    assert(texts(names@) =~= Seq::empty());
    add_key(&mut names, &app.app_name);
    if let Some(name) = &app.client_name {
        add_key(&mut names, name);
    }
    if let Some(name) = &app.client_binary {
        add_key(&mut names, name);
    }
    pick_window(windows, &pids, &names)
}

/// The `_NET_WM_ICON` property of a window, empty if it was not read.
pub open spec fn icon_data(icons: Map<u32, Vec<u32>>, window: u32) -> Seq<u32> {
    if icons.contains_key(window) {
        icons[window]@
    } else {
        Seq::empty()
    }
}

/// A stream with what its window says of it.
pub open spec fn with_window(
    app: AppView,
    windows: Seq<WindowView>,
    icons: Map<u32, Vec<u32>>,
) -> AppView {
    match window_for(app, windows) {
        None => app,
        Some(w) => AppView {
            wm_class: if w.classes.len() > 0 {
                Some(w.classes[0])
            } else {
                None
            },
            window_icon: icon_in(icon_data(icons, w.window)),
            app_name: match w.title {
                Some(title) => if undecorated(title).len() > 0 {
                    undecorated(title)
                } else {
                    app.app_name
                },
                None => app.app_name,
            },
            ..app
        },
    }
}

fn attach_window(app: &mut AppInfo, windows: &[WindowRef], icons: &HashMap<u32, Vec<u32>>)
    ensures
        final(app)@ == with_window(old(app)@, window_views(windows@), icons@),
{
    broadcast use vstd::std_specs::hash::group_hash_axioms;

    let ghost before = app@;
    if let Some(w) = match_window(app, windows) {
        let class: Option<String> = if w.classes.len() > 0 {
            assert(w@.classes[0] == w.classes@[0]@);
            Some(w.classes[0].clone())
        } else {
            None
        };
        app.wm_class = class;
        let icon: Option<WindowIcon> = match icons.get(&w.window) {
            Some(data) => icon_to_png(data),
            None => None,
        };
        app.window_icon = icon;
        // The name of the window goes before the name of the stream, which is
        // often that of an engine or framework ("Wwise", "Chromium").
        if let Some(title) = &w.title {
            let name = clean_title(title);
            if !name.as_str().is_empty() {
                app.app_name = name;
            }
        }
        assert(app@ =~= with_window(before, window_views(windows@), icons@));
    }
}

/// The windows whose icons are needed to enrich some streams: the window of each
/// stream that has one.
pub open spec fn matched_windows(apps: Seq<AppView>, windows: Seq<WindowView>) -> Seq<u32>
    decreases apps.len(),
{
    if apps.len() == 0 {
        Seq::empty()
    } else {
        let earlier = matched_windows(apps.drop_last(), windows);
        match window_for(apps.last(), windows) {
            Some(w) => earlier.push(w.window),
            None => earlier,
        }
    }
}

/// The windows whose `_NET_WM_ICON` is needed to enrich some streams, one for
/// each stream that has a window.
pub fn wanted_icons(apps: &[AppInfo], windows: &[WindowRef]) -> (r: Vec<u32>)
    ensures
        r@ == matched_windows(app_views(apps@), window_views(windows@)),
{
    let ghost all = app_views(apps@);
    let mut out: Vec<u32> = Vec::new();
    let mut i: usize = 0;
    assert(all.take(0) =~= Seq::empty());
    while i < apps.len()
        invariant
            i <= apps.len(),
            all == app_views(apps@),
            out@ == matched_windows(all.take(i as int), window_views(windows@)),
        decreases apps.len() - i,
    {
        assert(all.take(i + 1).drop_last() =~= all.take(i as int));
        assert(all.take(i + 1).last() == apps@[i as int]@);
        if let Some(w) = match_window(&apps[i], windows) {
            out.push(w.window);
        }
        i += 1;
    }
    assert(all.take(all.len() as int) =~= all);
    out
}

/// Attach `wm_class` and `window_icon` to each non-browser stream by matching it to
/// an XWayland window, and name it by that window's title. `icons` holds the
/// `_NET_WM_ICON` properties of the windows (see [`wanted_icons`]). Without
/// windows nothing changes.
pub fn enrich(apps: &mut Vec<AppInfo>, windows: &[WindowRef], icons: &HashMap<u32, Vec<u32>>)
    ensures
        app_views(final(apps)@) == app_views(old(apps)@).map_values(
            |a: AppView| with_window(a, window_views(windows@), icons@),
        ),
{
    let ghost before = app_views(apps@);
    let ghost all = window_views(windows@);
    let mut i: usize = 0;
    while i < apps.len()
        invariant
            i <= apps.len(),
            apps.len() == before.len(),
            all == window_views(windows@),
            forall|j: int|
                0 <= j < i ==> (#[trigger] apps@[j])@ == with_window(before[j], all, icons@),
            forall|j: int| i <= j < apps.len() ==> (#[trigger] apps@[j])@ == before[j],
        decreases apps.len() - i,
    {
        assert(apps@[i as int]@ == before[i as int]);
        attach_window(&mut apps[i], windows, icons);
        i += 1;
    }
    assert(app_views(apps@) =~= before.map_values(|a: AppView| with_window(a, all, icons@)));
}

/// Enriching touches only the class, the icon and the name of an entry, and
/// leaves devices and web browsers, and everything while there are no windows, as
/// they are.
pub proof fn law_enriching_keeps_the_stream(
    app: AppView,
    windows: Seq<WindowView>,
    icons: Map<u32, Vec<u32>>,
)
    ensures
        with_window(app, windows, icons) == (AppView {
            wm_class: with_window(app, windows, icons).wm_class,
            window_icon: with_window(app, windows, icons).window_icon,
            app_name: with_window(app, windows, icons).app_name,
            ..app
        }),
        app.is_device || is_browser_tab(app) || windows.len() == 0 ==> with_window(app, windows, icons) == app,
{
    reveal_with_fuel(first_tied, 2);
}

/// A cleaned title has no runtime decorations left. A title without any is only
/// trimmed; any other is cut where the first one begins, at a " (" or a " - ".
pub proof fn law_titles_are_cut_at_the_first_decoration(raw: Seq<char>)
    ensures
        !occurs_in(undecorated(raw), " ("@),
        !occurs_in(undecorated(raw), " - "@),
        !occurs_in(trimmed(raw), " ("@) && !occurs_in(trimmed(raw), " - "@) ==> undecorated(raw)
            == trimmed(raw),
        occurs_in(trimmed(raw), " ("@) || occurs_in(trimmed(raw), " - "@) ==> exists|at: int|
            {
                &&& 0 <= at < trimmed(raw).len()
                &&& trimmed(#[trigger] trimmed(raw).take(at)) == undecorated(raw)
                &&& occurs_at(trimmed(raw), " ("@, at) || occurs_at(trimmed(raw), " - "@, at)
                &&& forall|j: int|
                    0 <= j < at ==> !#[trigger] occurs_at(trimmed(raw), " ("@, j) && !occurs_at(
                        trimmed(raw),
                        " - "@,
                        j,
                    )
            },
{
    reveal_strlit(" (");
    reveal_strlit(" - ");
    let title = trimmed(raw);
    let open = " ("@;
    let dash = " - "@;
    if occurs_in(title, open) {
        let k = choose|k: int| occurs_at(title, open, k);
        let _ = lemma_first_occurrence(title, open, k);
    }
    if occurs_in(title, dash) {
        let k = choose|k: int| occurs_at(title, dash, k);
        let _ = lemma_first_occurrence(title, dash, k);
    }
    if let Some(at) = decorations_at(title) {
        let head = title.take(at);
        assert forall|j: int| 0 <= j < at implies !#[trigger] occurs_at(title, open, j)
            && !occurs_at(title, dash, j) by {}
        lemma_no_occurrence_in_front(title, open, at);
        lemma_no_occurrence_in_front(title, dash, at);
        lemma_no_occurrence_once_trimmed(head, open);
        lemma_no_occurrence_once_trimmed(head, dash);
        assert(trimmed(title.take(at)) == undecorated(raw));
    }
}

proof fn lemma_no_occurrence_in_front(s: Seq<char>, pattern: Seq<char>, at: int)
    requires
        0 <= at <= s.len(),
        pattern.len() > 0,
        forall|j: int| 0 <= j < at ==> !#[trigger] occurs_at(s, pattern, j),
    ensures
        !occurs_in(s.take(at), pattern),
{
    let head = s.take(at);
    if occurs_in(head, pattern) {
        let j = choose|j: int| occurs_at(head, pattern, j);
        assert(head.subrange(j, j + pattern.len()) =~= s.subrange(j, j + pattern.len()));
        assert(occurs_at(s, pattern, j));
    }
}

proof fn lemma_no_occurrence_once_trimmed(s: Seq<char>, pattern: Seq<char>)
    requires
        !occurs_in(s, pattern),
    ensures
        !occurs_in(trimmed(s), pattern),
{
    let (lo, hi) = lemma_trimmed(s);
    let t = trimmed(s);
    if occurs_in(t, pattern) {
        let j = choose|j: int| occurs_at(t, pattern, j);
        assert(t.subrange(j, j + pattern.len()) =~= s.subrange(lo + j, lo + j + pattern.len()));
        assert(occurs_at(s, pattern, lo + j));
    }
}

/// A normalized identifier has no white space around it, and a final `.exe` makes no
/// difference to it.
pub proof fn law_identifiers_are_compared_without_their_ending(s: Seq<char>)
    ensures
        normalized(s).len() > 0 ==> !is_white_space(normalized(s)[0]) && !is_white_space(
            normalized(s).last(),
        ),
        !".exe"@.is_suffix_of(lowercased(trimmed(s))) ==> normalized(s) == trimmed(
            lowercased(trimmed(s)),
        ),
        forall|stem: Seq<char>|
            lowercased(trimmed(s)) == #[trigger] (stem + ".exe"@) ==> normalized(s) == trimmed(stem),
{
    let lower = lowercased(trimmed(s));
    if ".exe"@.is_suffix_of(lower) {
        let _ = lemma_trimmed(lower.take(lower.len() - ".exe"@.len()));
    } else {
        let _ = lemma_trimmed(lower);
    }
    assert forall|stem: Seq<char>|
        lower == #[trigger] (stem + ".exe"@) implies normalized(s) == trimmed(stem) by {
        assert(lower.subrange(lower.len() - ".exe"@.len(), lower.len() as int) =~= ".exe"@);
        assert(lower.take(lower.len() - ".exe"@.len()) =~= stem);
    }
}

/// Whether a text is a name of a stream's program: the normalized form of the
/// stream's name, its client's name or its client's binary.
spec fn is_name_of(app: AppView, key: Seq<char>) -> bool {
    &&& key.len() > 0
    &&& {
        ||| key == normalized(app.app_name)
        ||| app.client_name matches Some(name) && key == normalized(name)
        ||| app.client_binary matches Some(name) && key == normalized(name)
    }
}

proof fn lemma_window_names(app: AppView, key: Seq<char>)
    ensures
        window_names(app).contains(key) <==> is_name_of(app, key),
{
    let first = with_key(Seq::empty(), app.app_name);
    let second = match app.client_name {
        Some(name) => with_key(first, name),
        None => first,
    };
    lemma_with_key(Seq::empty(), app.app_name, key);
    if let Some(name) = app.client_name {
        lemma_with_key(first, name, key);
    }
    if let Some(name) = app.client_binary {
        lemma_with_key(second, name, key);
    }
    assert(!Seq::<Seq<char>>::empty().contains(key));
}

proof fn lemma_with_key(keys: Seq<Seq<char>>, candidate: Seq<char>, key: Seq<char>)
    ensures
        with_key(keys, candidate).contains(key) <==> keys.contains(key) || (key.len() > 0 && key
            == normalized(candidate)),
{
    crate::text::lemma_push_contains(keys, normalized(candidate), key);
}

/// The window of a stream, told from the windows and the stream alone: the first one
/// of its process or its client's; if there is none, the first one with a class that
/// is a name of the stream's program; if there is none either, the first one whose
/// own name is. Devices and browser tabs have no window.
pub proof fn law_window_of_a_stream(app: AppView, windows: Seq<WindowView>, i: int)
    requires
        0 <= i < windows.len(),
        !app.is_device,
        !app.is_browser,
    ensures
        ({
            let of_process = |w: WindowView|
                w.pid is Some && (w.pid == app.pid || w.pid == app.client_pid);
            let named = |key: Seq<char>|
                key.len() > 0 && (key == normalized(app.app_name) || (app.client_name is Some && key
                    == normalized(app.client_name->0)) || (app.client_binary is Some && key
                    == normalized(app.client_binary->0)));
            let of_class = |w: WindowView|
                exists|c: int| 0 <= c < w.classes.len() && named(#[trigger] w.classes[c]);
            let of_name = |w: WindowView| w.name is Some && named(w.name->0);
            let no_process = forall|j: int|
                0 <= j < windows.len() ==> !of_process(#[trigger] windows[j]);
            let no_class = forall|j: int|
                0 <= j < windows.len() ==> !of_class(#[trigger] windows[j]);
            let no_name = forall|j: int| 0 <= j < windows.len() ==> !of_name(#[trigger] windows[j]);
            &&& of_process(windows[i]) && (forall|j: int|
                0 <= j < i ==> !of_process(#[trigger] windows[j])) ==> window_for(app, windows)
                == Some(windows[i])
            &&& no_process && of_class(windows[i]) && (forall|j: int|
                0 <= j < i ==> !of_class(#[trigger] windows[j])) ==> window_for(app, windows)
                == Some(windows[i])
            &&& no_process && no_class && of_name(windows[i]) && (forall|j: int|
                0 <= j < i ==> !of_name(#[trigger] windows[j])) ==> window_for(app, windows)
                == Some(windows[i])
            &&& no_process && no_class && no_name ==> window_for(app, windows) is None
        }),
{
    let pids = seq![app.pid, app.client_pid];
    let names = window_names(app);
    assert forall|j: int| 0 <= j < windows.len() implies (#[trigger] is_tied(
        windows[j],
        Tie::Pid,
        pids,
        names,
    ) <==> windows[j].pid is Some && (windows[j].pid == app.pid || windows[j].pid
        == app.client_pid)) by {
        assert(pids[0] == app.pid && pids[1] == app.client_pid);
    }
    assert forall|j: int| 0 <= j < windows.len() implies (#[trigger] is_tied(
        windows[j],
        Tie::Class,
        pids,
        names,
    ) <==> exists|c: int|
        0 <= c < windows[j].classes.len() && is_name_of(app, #[trigger] windows[j].classes[c])) by {
        let w = windows[j];
        if class_matches(w, names) {
            let k = choose|k: int| 0 <= k < names.len() && w.classes.contains(#[trigger] names[k]);
            let c = choose|c: int| 0 <= c < w.classes.len() && w.classes[c] == names[k];
            lemma_window_names(app, names[k]);
            assert(is_name_of(app, w.classes[c]));
        }
        if exists|c: int| 0 <= c < w.classes.len() && is_name_of(app, #[trigger] w.classes[c]) {
            let c = choose|c: int|
                0 <= c < w.classes.len() && is_name_of(app, #[trigger] w.classes[c]);
            lemma_window_names(app, w.classes[c]);
            let k = choose|k: int| 0 <= k < names.len() && names[k] == w.classes[c];
            assert(w.classes.contains(names[k]));
        }
    }
    assert forall|j: int| 0 <= j < windows.len() implies (#[trigger] is_tied(
        windows[j],
        Tie::Name,
        pids,
        names,
    ) <==> windows[j].name is Some && is_name_of(app, windows[j].name->0)) by {
        if windows[j].name is Some {
            lemma_window_names(app, windows[j].name->0);
        }
    }
    lemma_tied_at(windows, Tie::Pid, pids, names, i);
    lemma_tied_at(windows, Tie::Class, pids, names, i);
    lemma_tied_at(windows, Tie::Name, pids, names, i);
    assert forall|w: WindowView, c: int| 0 <= c < w.classes.len() implies is_name_of(
        app,
        #[trigger] w.classes[c],
    ) == (w.classes[c].len() > 0 && (w.classes[c] == normalized(app.app_name) || (app.client_name
        is Some && w.classes[c] == normalized(app.client_name->0)) || (app.client_binary is Some
        && w.classes[c] == normalized(app.client_binary->0)))) by {}
}

proof fn lemma_tied_at(
    windows: Seq<WindowView>,
    tie: Tie,
    pids: Seq<Option<u32>>,
    names: Seq<Seq<char>>,
    i: int,
)
    requires
        0 <= i < windows.len(),
    ensures
        is_tied(windows[i], tie, pids, names) && (forall|j: int|
            0 <= j < i ==> !is_tied(#[trigger] windows[j], tie, pids, names)) ==> first_tied(
            windows,
            tie,
            pids,
            names,
        ) == Some(windows[i]),
        (forall|j: int|
            0 <= j < windows.len() ==> !is_tied(#[trigger] windows[j], tie, pids, names))
            ==> first_tied(windows, tie, pids, names) is None,
    decreases windows.len(),
{
    lemma_first_tied(windows, tie, pids, names);
    if i > 0 && !is_tied(windows[0], tie, pids, names) {
        let rest = windows.drop_first();
        lemma_tied_at(rest, tie, pids, names, i - 1);
        if is_tied(windows[i], tie, pids, names) && (forall|j: int|
            0 <= j < i ==> !is_tied(#[trigger] windows[j], tie, pids, names)) {
            assert(rest[i - 1] == windows[i]);
            assert forall|j: int| 0 <= j < i - 1 implies !is_tied(
                #[trigger] rest[j],
                tie,
                pids,
                names,
            ) by {
                assert(rest[j] == windows[j + 1]);
            }
        }
    }
}

/// A stream with a window carries the window's first class, the icon made from the
/// window's own icon property, and the window's cleaned title as its name, unless
/// nothing is left of that.
pub proof fn law_stream_shows_its_window(
    app: AppView,
    windows: Seq<WindowView>,
    icons: Map<u32, Vec<u32>>,
    w: WindowView,
)
    requires
        window_for(app, windows) == Some(w),
    ensures
        w.classes.len() > 0 ==> with_window(app, windows, icons).wm_class == Some(w.classes[0]),
        w.classes.len() == 0 ==> with_window(app, windows, icons).wm_class is None,
        icons.contains_key(w.window) ==> with_window(app, windows, icons).window_icon == icon_in(
            icons[w.window]@,
        ),
        !icons.contains_key(w.window) ==> with_window(app, windows, icons).window_icon is None,
        w.title matches Some(title) && undecorated(title).len() > 0 ==> with_window(
            app,
            windows,
            icons,
        ).app_name == undecorated(w.title->0),
        !(w.title matches Some(title) && undecorated(title).len() > 0) ==> with_window(
            app,
            windows,
            icons,
        ).app_name == app.app_name,
{
    reveal_with_fuel(images_from, 2);
}

/// The icon of every window that a stream is matched to is asked for, and no other.
pub proof fn law_wanted_icons_are_the_matched_windows(
    apps: Seq<AppView>,
    windows: Seq<WindowView>,
    window: u32,
)
    ensures
        matched_windows(apps, windows).contains(window) <==> exists|i: int|
            0 <= i < apps.len() && (window_for(#[trigger] apps[i], windows) matches Some(w)
                && w.window == window),
    decreases apps.len(),
{
    if apps.len() > 0 {
        let rest = apps.drop_last();
        law_wanted_icons_are_the_matched_windows(rest, windows, window);
        assert(apps.last() == apps[apps.len() - 1]);
        if let Some(w) = window_for(apps.last(), windows) {
            crate::text::lemma_push_contains(
                matched_windows(rest, windows),
                w.window,
                window,
            );
        }
        assert forall|i: int| 0 <= i < rest.len() implies rest[i] == #[trigger] apps[i] by {}
        if matched_windows(rest, windows).contains(window) {
            let i = choose|i: int|
                0 <= i < rest.len() && (window_for(#[trigger] rest[i], windows) matches Some(w)
                    && w.window == window);
            assert(apps[i] == rest[i]);
        }
    }
}

/// Devices have no window, and neither have the tabs of a browser: streams that count
/// as a browser's, unless the program behind them is known to be none. Such a stream
/// is matched like any other.
pub proof fn law_browser_tabs_have_no_window(app: AppView, windows: Seq<WindowView>)
    ensures
        app.is_device ==> window_for(app, windows) is None,
        app.is_browser && app.client_binary is None ==> window_for(app, windows) is None,
        app.is_browser && app.client_binary is Some ==> window_for(app, windows) == (
        if names_browser(lowercased(app.client_binary->0)) {
            None
        } else {
            window_for(AppView { is_browser: false, ..app }, windows)
        }),
{
    assert(window_names(app) == window_names(AppView { is_browser: false, ..app }));
}

/// The four bytes of a pixel are its red, green, blue and alpha: put together again as
/// `0xAARRGGBB` they are the pixel.
pub proof fn law_pixels_are_taken_apart(pixels: Seq<u32>, k: int)
    requires
        0 <= k < pixels.len(),
    ensures
        rgba_bytes(pixels).len() == 4 * pixels.len(),
        pixels[k] == 0x100_0000 * rgba_bytes(pixels)[4 * k + 3] + 0x1_0000 * rgba_bytes(
            pixels,
        )[4 * k] + 0x100 * rgba_bytes(pixels)[4 * k + 1] + rgba_bytes(pixels)[4 * k + 2],
{
    let px = pixels[k];
    assert((4 * k) / 4 == k && (4 * k + 1) / 4 == k && (4 * k + 2) / 4 == k && (4 * k + 3) / 4 == k);
    assert((4 * k) % 4 == 0 && (4 * k + 1) % 4 == 1 && (4 * k + 2) % 4 == 2 && (4 * k + 3) % 4
        == 3);
    assert(px == 0x100_0000 * (px / 0x100_0000) + 0x1_0000 * (px / 0x1_0000 % 0x100) + 0x100 * (px
        / 0x100 % 0x100) + px % 0x100);
}

spec fn shifted_by(images: Seq<IconImage>, n: int) -> Seq<IconImage> {
    images.map_values(|m: IconImage| IconImage { start: m.start + n, ..m })
}

proof fn lemma_images_behind(front: Seq<u32>, rest: Seq<u32>, i: int)
    requires
        0 <= i,
    ensures
        images_from(front + rest, front.len() + i) == shifted_by(
            images_from(rest, i),
            front.len() as int,
        ),
    decreases rest.len() - i,
{
    let data = front + rest;
    let n = front.len() as int;
    if i + 2 <= rest.len() {
        let count = rest[i] * rest[i + 1];
        assert(data[n + i] == rest[i] && data[n + i + 1] == rest[i + 1]);
        if count > 0 && i + 2 + count <= rest.len() {
            lemma_images_behind(front, rest, i + 2 + count);
            assert(images_from(data, n + i) =~= shifted_by(images_from(rest, i), n));
        } else {
            assert(images_from(data, n + i) =~= shifted_by(images_from(rest, i), n));
        }
    } else {
        assert(images_from(data, n + i) =~= shifted_by(images_from(rest, i), n));
    }
}

proof fn lemma_largest(data: Seq<u32>, k: int)
    requires
        is_largest(images_from(data, 0), k),
    ensures
        largest_image(data) == Some(
            (
                images_from(data, 0)[k].width,
                images_from(data, 0)[k].height,
                rgba_bytes(
                    data.subrange(
                        images_from(data, 0)[k].start,
                        images_from(data, 0)[k].start + images_from(data, 0)[k].width
                            * images_from(data, 0)[k].height,
                    ),
                ),
            ),
        ),
{
    let images = images_from(data, 0);
    let l = choose|l: int| is_largest(images, l);
    lemma_largest_is_unique(images, k, l);
}

/// A property that begins with an image shows that image, unless what follows it holds
/// a larger one, which is then shown. A property that begins with an empty image, or
/// one that is cut short, shows nothing.
pub proof fn law_images_follow_each_other(w: u32, h: u32, pixels: Seq<u32>, rest: Seq<u32>)
    requires
        pixels.len() == w * h,
        w > 0,
        h > 0,
    ensures
        largest_image(seq![w, h] + pixels + rest) == (match largest_image(rest) {
            Some(other) => if other.0 * other.1 > w * h {
                Some(other)
            } else {
                Some((w, h, rgba_bytes(pixels)))
            },
            None => Some((w, h, rgba_bytes(pixels))),
        }),
{
    let front = seq![w, h] + pixels;
    let data = front + rest;
    let n = front.len() as int;
    let images = images_from(data, 0);
    let others = images_from(rest, 0);
    assert(w * h > 0) by (nonlinear_arith)
        requires
            w > 0,
            h > 0,
    ;
    assert(data[0] == w && data[1] == h);
    assert(0 + 2 + w * h == n);
    lemma_images_behind(front, rest, 0);
    let head = IconImage { width: w, height: h, start: 2 };
    assert(images =~= seq![head] + shifted_by(others, n));
    assert forall|j: int| 0 <= j < others.len() implies (#[trigger] images[j + 1]) == (IconImage {
        start: others[j].start + n,
        ..others[j]
    }) by {}
    if others.len() > 0 {
        lemma_a_largest_exists(others);
        let k = choose|k: int| is_largest(others, k);
        lemma_largest(rest, k);
        lemma_image_bounds(rest, 0, k);
        let best = others[k];
        if best.width * best.height > w * h {
            assert forall|j: int| 0 <= j < images.len() implies (#[trigger] images[j]).width
                * images[j].height <= images[k + 1].width * images[k + 1].height by {
                if j > 0 {
                    assert(images[j - 1 + 1] == images[j]);
                    assert(others[j - 1].width * others[j - 1].height <= best.width * best.height);
                }
            }
            assert forall|j: int| 0 <= j < k + 1 implies (#[trigger] images[j]).width
                * images[j].height < images[k + 1].width * images[k + 1].height by {
                if j > 0 {
                    assert(images[j - 1 + 1] == images[j]);
                    assert(others[j - 1].width * others[j - 1].height < best.width * best.height);
                }
            }
            assert(is_largest(images, k + 1));
            lemma_largest(data, k + 1);
            let size = best.width * best.height;
            assert(size >= 0) by (nonlinear_arith)
                requires
                    size == best.width * best.height,
            ;
            assert(data.subrange(best.start + n, best.start + n + size) =~= rest.subrange(
                best.start,
                best.start + size,
            ));
        } else {
            assert forall|j: int| 0 <= j < images.len() implies (#[trigger] images[j]).width
                * images[j].height <= w * h by {
                if j > 0 {
                    assert(images[j - 1 + 1] == images[j]);
                    assert(others[j - 1].width * others[j - 1].height <= best.width * best.height);
                }
            }
            assert(is_largest(images, 0));
            lemma_largest(data, 0);
            assert(data.subrange(2, 2 + w * h) =~= pixels);
        }
    } else {
        assert(images =~= seq![head]);
        assert(is_largest(images, 0));
        lemma_largest(data, 0);
        assert(data.subrange(2, 2 + w * h) =~= pixels);
    }
}

/// Nothing is read from a property that begins with an empty image or one that is cut
/// short.
pub proof fn law_broken_images_are_not_read(data: Seq<u32>)
    requires
        data.len() < 2 || data[0] == 0 || data[1] == 0 || data.len() < 2 + data[0] * data[1],
    ensures
        largest_image(data) is None,
{
    if data.len() >= 2 {
        assert(data[0] == 0 || data[1] == 0 ==> data[0] * data[1] == 0) by (nonlinear_arith);
    }
}

/// The icon of a property is its largest image as a PNG file, and reports the longer
/// side of that image.
pub proof fn law_icon_is_the_largest_image(data: Seq<u32>, w: u32, h: u32, rgba: Seq<u8>)
    requires
        largest_image(data) == Some((w, h, rgba)),
    ensures
        icon_in(data) is Some == png_file(w, h, rgba) is Some,
        icon_in(data) matches Some(icon) ==> {
            &&& Some(icon.png) == png_file(w, h, rgba)
            &&& icon.max_dim >= w && icon.max_dim >= h
            &&& icon.max_dim == w || icon.max_dim == h
        },
{
}

/// What the strings of a `WM_CLASS` property are read as: the normalized forms of the
/// parts that zero bytes set apart, in their order, with repetitions and empty ones
/// left out.
pub proof fn law_class_is_read_part_by_part(part: Seq<u8>, rest: Seq<u8>, keys: Seq<Seq<char>>)
    requires
        forall|i: int| 0 <= i < part.len() ==> #[trigger] part[i] != 0,
        part.len() > 0,
    ensures
        ({
            let key = normalized(lossy_text(part));
            let next = if key.len() == 0 || keys.contains(key) {
                keys
            } else {
                keys.push(key)
            };
            &&& with_classes(keys, part) == next
            &&& with_classes(keys, part.push(0) + rest) == with_classes(next, rest)
        }),
        with_classes(keys, seq![0u8] + rest) == with_classes(keys, rest),
        with_classes(keys, Seq::empty()) == keys,
{
    lemma_zero_at(part, part.len() as int);
    assert(part.take(part.len() as int) =~= part);
    let whole = part.push(0) + rest;
    lemma_zero_at(whole, part.len() as int);
    assert(whole.take(part.len() as int) =~= part);
    assert(whole.skip(part.len() as int + 1) =~= rest);
    let blank = seq![0u8] + rest;
    assert(bytes_before_zero(blank) == 0);
    assert(blank.skip(1) =~= rest);
}

proof fn lemma_zero_at(bytes: Seq<u8>, n: int)
    requires
        0 <= n <= bytes.len(),
        forall|i: int| 0 <= i < n ==> #[trigger] bytes[i] != 0,
        n < bytes.len() ==> bytes[n] == 0,
    ensures
        bytes_before_zero(bytes) == n,
    decreases n,
{
    if n > 0 {
        let rest = bytes.drop_first();
        assert(bytes[0] != 0);
        assert forall|i: int| 0 <= i < n - 1 implies #[trigger] rest[i] != 0 by {
            assert(rest[i] == bytes[i + 1]);
        }
        lemma_zero_at(rest, n - 1);
    }
}

/// A window's title is what its name property holds, trimmed, unless that is blank;
/// its name for matching is the normalized title, unless that is empty; the window
/// and its process are as given.
pub proof fn law_window_is_read_from_its_properties(
    window: u32,
    pid: Option<u32>,
    class: Option<Seq<u8>>,
    name: Option<Seq<u8>>,
)
    ensures
        window_of(window, pid, class, name).window == window,
        window_of(window, pid, class, name).pid == pid,
        class is None ==> window_of(window, pid, class, name).classes.len() == 0,
        name is None ==> window_of(window, pid, class, name).title is None && window_of(
            window,
            pid,
            class,
            name,
        ).name is None,
        name matches Some(bytes) ==> {
            let w = window_of(window, pid, class, name);
            let title = trimmed(lossy_text(bytes));
            &&& title.len() > 0 ==> w.title == Some(title)
            &&& title.len() == 0 ==> w.title is None && w.name is None
            &&& title.len() > 0 && normalized(title).len() > 0 ==> w.name == Some(
                normalized(title),
            )
            &&& normalized(title).len() == 0 ==> w.name is None
        },
{
}

} // verus!
