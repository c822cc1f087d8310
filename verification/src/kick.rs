//! Kick.com edge case.
//!
//! Twitch/YouTube publish W3C Media Session metadata, so Firefox writes a media
//! art file that the art rules in [`crate::mpris`] claim. Kick.com doesn't, so a
//! Kick channel would be left with the browser's icon, although the streamer has
//! an avatar that Kick's public API exposes.
//!
//! This module recovers the channel *slug* from the browser tab title, keeps
//! what is known of each slug's avatar, and reads the API's answers.

use crate::audio::audio_system::{app_views, AppInfo, AppView};
use crate::codec::{as_png_file, lossy_text, rewrite_as_png, text_from_bytes};
use crate::text::{
    ascii_lower, ends_with_ignoring_case, find, index_of, is_white_space,
    law_suffix_is_stripped, lemma_first_occurrence, occurs_at, occurs_in, opt_bytes, opt_text,
    replace, replaced, same_ignoring_case, starts_with, strip_suffix_ci, stripped, to_lowercase,
    trim, trim_start, trimmed, without_leading_space, TextMap,
};
use crate::webp::{
    alpha_frame_is_fit, has_unfit_alpha_frame, is_free_of_lossless_part, runs_lossless_part,
};
use vstd::prelude::*;
use vstd::string::*;
use vstd::utf8::is_ascii_chars;

verus! {

/// How long to sit on a failed fetch before trying that slug again, in
/// nanoseconds.
pub const FAILURE_BACKOFF: u128 = 300_000_000_000;

/// The characters that a Kick username is made of.
pub open spec fn is_handle_char(c: char) -> bool {
    'a' <= c <= 'z' || 'A' <= c <= 'Z' || '0' <= c <= '9' || c == '_'
}

/// Whether a text can be a Kick username.
pub open spec fn is_username(s: Seq<char>) -> bool {
    &&& s.len() > 0
    &&& forall|i: int| 0 <= i < s.len() ==> is_handle_char(#[trigger] s[i])
}

/// A tab title without the words that Kick appends to it.
pub open spec fn kick_body(name: Seq<char>) -> Option<Seq<char>> {
    match stripped(name, " - Watch Live on Kick"@) {
        Some(body) => Some(body),
        None => stripped(name, " - Kick"@),
    }
}

/// The streamer's handle in a tab title: what is left of a Kick title in front
/// of the boilerplate, where it is one username.
pub open spec fn handle_in(media_name: Seq<char>) -> Option<Seq<char>> {
    match kick_body(trimmed(media_name)) {
        None => None,
        Some(body) => {
            let handle = trimmed(
                match stripped(trimmed(body), " Stream"@) {
                    Some(h) => h,
                    None => body,
                },
            );
            if is_username(handle) {
                Some(handle)
            } else {
                None
            }
        },
    }
}

/// The channel slug in a tab title: the handle in lower case.
pub open spec fn slug_in(media_name: Seq<char>) -> Option<Seq<char>> {
    match handle_in(media_name) {
        Some(handle) => Some(handle.map_values(|c: char| ascii_lower(c))),
        None => None,
    }
}

fn is_handle(handle: &str) -> (r: bool)
    ensures
        r == is_username(handle@),
{
    let chars = crate::text::chars_of(handle);
    let mut i: usize = 0;
    while i < chars.len()
        invariant
            i <= chars.len(),
            chars@ == handle@,
            forall|j: int| 0 <= j < i ==> is_handle_char(#[trigger] handle@[j]),
        decreases chars.len() - i,
    {
        let c = chars[i];
        if !(('a' <= c && c <= 'z') || ('A' <= c && c <= 'Z') || ('0' <= c && c <= '9') || c
            == '_') {
            assert(!is_handle_char(handle@[i as int]));
            return false;
        }
        i += 1;
    }
    chars.len() > 0
}

/// The streamer's handle in a tab title, as the title writes it.
pub fn kick_handle(media_name: &str) -> (r: Option<String>)
    ensures
        opt_text(r) == handle_in(media_name@),
{
    let name = trim(media_name);
    let body: &str = match strip_suffix_ci(name, " - Watch Live on Kick") {
        Some(body) => body,
        None => match strip_suffix_ci(name, " - Kick") {
            Some(body) => body,
            None => {
                return None;
            },
        },
    };
    let handle: &str = match strip_suffix_ci(trim(body), " Stream") {
        Some(h) => trim(h),
        None => trim(body),
    };
    if is_handle(handle) {
        Some(handle.to_owned())
    } else {
        None
    }
}

/// Recover a Kick channel slug from a browser tab title (PulseAudio `media.name`).
///
/// Kick titles look like `"<slug> Stream - Watch Live on Kick"`. A Kick username
/// is a single `[A-Za-z0-9_]` token, so once the boilerplate is stripped the
/// remainder must be one such token; otherwise the title isn't something that
/// can be turned into an API handle, and there is no slug.
pub fn kick_slug(media_name: &str) -> (r: Option<String>)
    ensures
        opt_text(r) == slug_in(media_name@),
{
    match kick_handle(media_name) {
        Some(handle) => {
            assert(is_ascii_chars(handle@)) by {
                assert forall|i: int| 0 <= i < handle@.len() implies 0 <= (#[trigger] handle@[i]) as u32
                    && (handle@[i] as u32) < 128 by {
                    assert(is_handle_char(handle@[i]));
                }
            }
            Some(to_lowercase(&handle))
        },
        None => None,
    }
}

/// The name to show for a stream: a Kick title is cut down to the streamer's
/// handle, every other name is shown as it is.
pub fn display_name(name: &str) -> (r: String)
    ensures
        r@ == shown_name(name@),
{
    match kick_handle(name) {
        Some(handle) => handle,
        None => name.to_owned(),
    }
}

/// The name that [`display_name`] gives.
pub open spec fn shown_name(name: Seq<char>) -> Seq<char> {
    match handle_in(name) {
        Some(handle) => handle,
        None => name,
    }
}

/// What is known of a slug's avatar.
#[derive(Debug)]
pub enum AvatarState {
    /// A fetch task is in flight; don't start another for this slug.
    Fetching,
    /// Avatar fetched and re-encoded to PNG.
    Ready(Vec<u8>),
    /// Last fetch failed at this instant; retry once `FAILURE_BACKOFF` elapses.
    Failed(u128),
}

/// The mathematical content of an [`AvatarState`].
#[verifier::ext_equal]
pub enum AvatarView {
    Fetching,
    Ready(Seq<u8>),
    Failed(u128),
}

impl View for AvatarState {
    type V = AvatarView;

    open spec fn view(&self) -> AvatarView {
        match self {
            AvatarState::Fetching => AvatarView::Fetching,
            AvatarState::Ready(png) => AvatarView::Ready(png@),
            AvatarState::Failed(at) => AvatarView::Failed(*at),
        }
    }
}

/// What is known of every slug's avatar. Instants are counted in nanoseconds on
/// one monotonic clock.
#[derive(Debug)]
pub struct AvatarCache {
    states: TextMap<AvatarState>,
}

impl View for AvatarCache {
    type V = Map<Seq<char>, AvatarView>;

    closed spec fn view(&self) -> Map<Seq<char>, AvatarView> {
        self.states@.map_values(|s: AvatarState| s@)
    }
}

/// Whether the fetch of a slug failed less than [`FAILURE_BACKOFF`] ago.
pub open spec fn recently_failed(
    cache: Map<Seq<char>, AvatarView>,
    slug: Seq<char>,
    now: u128,
) -> bool {
    cache.contains_key(slug) && (cache[slug] matches AvatarView::Failed(at) && now < at
        + FAILURE_BACKOFF)
}

/// Whether a slug is due for a fetch: it was never asked for, or it failed long
/// enough ago.
pub open spec fn is_due(cache: Map<Seq<char>, AvatarView>, slug: Seq<char>, now: u128) -> bool {
    ||| !cache.contains_key(slug)
    ||| cache[slug] is Failed && !recently_failed(cache, slug, now)
}

/// An entry with what the cache knows of its avatar: a ready avatar is attached,
/// an entry whose avatar is being fetched, or is due for it, is marked pending.
pub open spec fn with_avatar(
    app: AppView,
    cache: Map<Seq<char>, AvatarView>,
    now: u128,
) -> AppView {
    match slug_in(app.app_name) {
        None => app,
        Some(slug) => if cache.contains_key(slug) && cache[slug] is Ready {
            AppView { kick_art: Some(cache[slug]->Ready_0), ..app }
        } else if recently_failed(cache, slug, now) {
            app
        } else {
            AppView { kick_pending: true, ..app }
        },
    }
}

/// The slugs of a list that are due for a fetch, each one once.
pub open spec fn due_slugs(
    apps: Seq<AppView>,
    cache: Map<Seq<char>, AvatarView>,
    now: u128,
) -> Seq<Seq<char>>
    decreases apps.len(),
{
    if apps.len() == 0 {
        Seq::empty()
    } else {
        let earlier = due_slugs(apps.drop_last(), cache, now);
        match slug_in(apps.last().app_name) {
            Some(slug) => if is_due(cache, slug, now) && !earlier.contains(slug) {
                earlier.push(slug)
            } else {
                earlier
            },
            None => earlier,
        }
    }
}

/// A cache after the fetch of some slugs has begun.
pub open spec fn with_fetches(
    cache: Map<Seq<char>, AvatarView>,
    slugs: Seq<Seq<char>>,
) -> Map<Seq<char>, AvatarView> {
    cache.union_prefer_right(
        Map::new(|slug: Seq<char>| slugs.contains(slug), |slug: Seq<char>| AvatarView::Fetching),
    )
}

/// A cache that has taken in how the fetch of a slug ended: with an avatar, or with
/// none.
pub open spec fn with_outcome(
    cache: Map<Seq<char>, AvatarView>,
    slug: Seq<char>,
    fetched: Option<Seq<u8>>,
    now: u128,
) -> Map<Seq<char>, AvatarView> {
    match fetched {
        Some(png) => cache.insert(slug, AvatarView::Ready(png)),
        None => cache.insert(slug, AvatarView::Failed(now)),
    }
}

impl AvatarCache {
    /// A cache that knows of no avatar.
    pub fn new() -> (r: AvatarCache)
        ensures
            r@ == Map::<Seq<char>, AvatarView>::empty(),
    {
        let r = AvatarCache { states: TextMap::new() };
        assert(r@ =~= Map::<Seq<char>, AvatarView>::empty());
        r
    }

    fn state(&self, slug: &str) -> (r: Option<&AvatarState>)
        ensures
            match r {
                Some(state) => self@.contains_key(slug@) && self@[slug@] == state@,
                None => !self@.contains_key(slug@),
            },
    {
        self.states.get(slug)
    }

    fn put(&mut self, slug: String, state: AvatarState)
        ensures
            final(self)@ == old(self)@.insert(slug@, state@),
    {
        let ghost before = self@;
        self.states.insert(slug, state);
        assert(self@ =~= before.insert(slug@, state@));
    }

    /// Records how the fetch of a slug ended.
    pub fn finish_fetch(&mut self, slug: String, fetched: Option<Vec<u8>>, now: u128)
        ensures
            final(self)@ == with_outcome(old(self)@, slug@, opt_bytes(fetched), now),
            final(self)@ == old(self)@.insert(
                slug@,
                match opt_bytes(fetched) {
                    Some(png) => AvatarView::Ready(png),
                    None => AvatarView::Failed(now),
                },
            ),
    {
        match fetched {
            Some(png) => self.put(slug, AvatarState::Ready(png)),
            None => self.put(slug, AvatarState::Failed(now)),
        }
    }
}

/// For each Kick stream in `apps`, attaches a ready avatar or marks it pending.
/// Returns the slugs whose fetch is to be started, which the cache from then on
/// holds as being fetched. Streams that are not from Kick are left alone.
pub fn enrich_kick_art(apps: &mut Vec<AppInfo>, cache: &mut AvatarCache, now: u128) -> (r: Vec<
    String,
>)
    ensures
        app_views(final(apps)@) == app_views(old(apps)@).map_values(
            |a: AppView| with_avatar(a, old(cache)@, now),
        ),
        crate::text::texts(r@) == due_slugs(app_views(old(apps)@), old(cache)@, now),
        final(cache)@ == with_fetches(
            old(cache)@,
            due_slugs(app_views(old(apps)@), old(cache)@, now),
        ),
{
    let ghost before = app_views(apps@);
    let ghost known = cache@;
    let mut due: Vec<String> = Vec::new();
    let mut i: usize = 0;
    proof {
        assert(with_fetches(known, Seq::empty()) =~= known);
        assert(before.take(0) =~= Seq::empty());
        assert(crate::text::texts(due@) =~= Seq::empty());
    }
    while i < apps.len()
        invariant
            i <= apps.len(),
            apps.len() == before.len(),
            forall|j: int|
                0 <= j < i ==> (#[trigger] apps@[j])@ == with_avatar(before[j], known, now),
            forall|j: int| i <= j < apps.len() ==> (#[trigger] apps@[j])@ == before[j],
            crate::text::texts(due@) == due_slugs(before.take(i as int), known, now),
            cache@ == with_fetches(known, due_slugs(before.take(i as int), known, now)),
        decreases apps.len() - i,
    {
        let ghost fetched = due_slugs(before.take(i as int), known, now);
        proof {
            assert(before.take(i + 1).drop_last() =~= before.take(i as int));
            assert(before.take(i + 1).last() == before[i as int]);
            lemma_due_slugs_are_due(before.take(i as int), known, now);
        }
        assert(apps@[i as int]@ == before[i as int]);
        if let Some(slug) = kick_slug(&apps[i].app_name) {
            assert(slug_in(before[i as int].app_name) == Some(slug@));
            assert(fetched.contains(slug@) ==> is_due(known, slug@, now));
            match cache.state(&slug) {
                Some(AvatarState::Ready(png)) => {
                    let copy = png.clone();
                    assert(copy@ =~= png@);
                    apps[i].kick_art = Some(copy);
                },
                Some(AvatarState::Fetching) => {
                    apps[i].kick_pending = true;
                },
                Some(AvatarState::Failed(at)) if now < *at || now - *at < FAILURE_BACKOFF => {},
                _ => {
                    cache.put(slug.clone(), AvatarState::Fetching);
                    apps[i].kick_pending = true;
                    due.push(slug);
                    proof {
                        assert(crate::text::texts(due@) =~= fetched.push(slug@));
                        assert forall|t: Seq<char>| fetched.push(slug@).contains(t)
                            == (fetched.contains(t) || t == slug@) by {
                            crate::text::lemma_push_contains(fetched, slug@, t);
                        }
                        assert(cache@ =~= with_fetches(known, fetched.push(slug@)));
                    }
                },
            }
        }
        assert(apps@[i as int]@ =~= with_avatar(before[i as int], known, now));
        i += 1;
    }
    proof {
        assert(before.take(before.len() as int) =~= before);
        assert(app_views(apps@) =~= before.map_values(|a: AppView| with_avatar(a, known, now)));
    }
    due
}

proof fn lemma_due_slugs_are_due(
    apps: Seq<AppView>,
    cache: Map<Seq<char>, AvatarView>,
    now: u128,
)
    ensures
        forall|slug: Seq<char>|
            due_slugs(apps, cache, now).contains(slug) ==> is_due(cache, slug, now),
    decreases apps.len(),
{
    if apps.len() > 0 {
        lemma_due_slugs_are_due(apps.drop_last(), cache, now);
    }
}

/// The `profile_pic` URL in the body of a Kick channel API answer: the string
/// that follows the first such key, with its slashes unescaped.
pub open spec fn profile_pic_in(body: Seq<char>) -> Option<Seq<char>> {
    match index_of(body, "\"profile_pic\":"@) {
        None => None,
        Some(at) => {
            let after = without_leading_space(body.skip(at + "\"profile_pic\":"@.len()));
            if "\""@.is_prefix_of(after) {
                let rest = after.skip("\""@.len() as int);
                match index_of(rest, "\""@) {
                    None => None,
                    Some(end) => {
                        let url = replaced(rest.take(end), "\\/"@, "/"@);
                        if url.len() > 0 {
                            Some(url)
                        } else {
                            None
                        }
                    },
                }
            } else {
                None
            }
        },
    }
}

/// Pull the `profile_pic` URL out of a Kick channel API body without a JSON
/// dependency. Returns `None` if the field is absent or null.
pub fn extract_profile_pic(body: &str) -> (r: Option<String>)
    ensures
        opt_text(r) == profile_pic_in(body@),
{
    let key = "\"profile_pic\":";
    let at: usize = match find(body, key) {
        Some(at) => at,
        None => {
            return None;
        },
    };
    let tail = skip_chars(skip_chars(body, at), key.unicode_len());
    assert(tail@ =~= body@.skip(at + key@.len()));
    let after = trim_start(tail);
    if !starts_with(after, "\"") {
        return None;
    }
    let rest = skip_chars(after, "\"".unicode_len());
    let end: usize = match find(rest, "\"") {
        Some(end) => end,
        None => {
            return None;
        },
    };
    proof {
        reveal_strlit("\\/");
        assert(rest@.subrange(0, end as int) =~= rest@.take(end as int));
    }
    let url = replace(rest.substring_char(0, end), "\\/", "/");
    if url.as_str().is_empty() {
        None
    } else {
        Some(url)
    }
}

/// A text without its first `n` characters.
fn skip_chars(s: &str, n: usize) -> (r: &str)
    requires
        n <= s@.len(),
    ensures
        r@ == s@.skip(n as int),
{
    assert(s@.skip(n as int) =~= s@.subrange(n as int, s@.len() as int));
    s.substring_char(n, s.unicode_len())
}

/// The address of a channel in Kick's public API.
pub fn api_url(slug: &str) -> (r: String)
    ensures
        r@ == "https://kick.com/api/v2/channels/"@ + slug@,
{
    "https://kick.com/api/v2/channels/".to_owned().concat(slug)
}

/// The arguments for one GET request with the `curl` binary: fail on HTTP
/// errors, follow redirects, give up after some seconds, and present the
/// request as a browser's.
pub fn curl_args(url: &str) -> (r: Vec<String>)
    ensures
        crate::text::texts(r@) == seq![
            "-fsSL"@,
            "--max-time"@,
            "15"@,
            "-A"@,
            "Mozilla/5.0 (X11; Linux x86_64; rv:128.0) Gecko/20100101 Firefox/128.0"@,
            url@,
        ],
{
    let mut args: Vec<String> = Vec::new();
    args.push("-fsSL".to_owned());
    args.push("--max-time".to_owned());
    args.push("15".to_owned());
    args.push("-A".to_owned());
    args.push(
        "Mozilla/5.0 (X11; Linux x86_64; rv:128.0) Gecko/20100101 Firefox/128.0".to_owned(),
    );
    args.push(url.to_owned());
    assert(crate::text::texts(args@) =~= seq![
        "-fsSL"@,
        "--max-time"@,
        "15"@,
        "-A"@,
        "Mozilla/5.0 (X11; Linux x86_64; rv:128.0) Gecko/20100101 Firefox/128.0"@,
        url@,
    ]);
    args
}

/// What a finished `curl` run gave: its output, unless it failed or gave none.
pub fn curl_body(success: bool, stdout: Vec<u8>) -> (r: Option<Vec<u8>>)
    ensures
        r == (if success && stdout@.len() > 0 {
            Some(stdout)
        } else {
            None
        }),
{
    if success && !stdout.is_empty() {
        Some(stdout)
    } else {
        None
    }
}

/// The avatar's address in the answer of Kick's API.
pub fn avatar_url(json: &[u8]) -> (r: Option<String>)
    ensures
        opt_text(r) == profile_pic_in(lossy_text(json@)),
{
    extract_profile_pic(&text_from_bytes(json))
}

/// A downloaded avatar as a PNG file. Kick serves lossy WebP; as PNG the icon
/// pipeline handles it like any other art. A WebP on which the decoder panics, or
/// with a lossless part, on which it might, has none.
pub fn avatar_png(file: &[u8]) -> (r: Option<Vec<u8>>)
    ensures
        opt_bytes(r) == (if has_unfit_alpha_frame(file@) || runs_lossless_part(file@) {
            None
        } else {
            as_png_file(file@)
        }),
{
    if alpha_frame_is_fit(file) && is_free_of_lossless_part(file) {
        rewrite_as_png(file)
    } else {
        None
    }
}

/// A slug is a lower-case username: one token of `[a-z0-9_]`.
pub proof fn law_slug_is_a_lower_case_username(media_name: Seq<char>)
    ensures
        slug_in(media_name) matches Some(slug) ==> {
            &&& is_username(slug)
            &&& forall|i: int| 0 <= i < slug.len() ==> !('A' <= #[trigger] slug[i] <= 'Z')
        },
{
    if let Some(handle) = handle_in(media_name) {
        let slug = handle.map_values(|c: char| ascii_lower(c));
        assert forall|i: int| 0 <= i < slug.len() implies is_handle_char(#[trigger] slug[i])
            && !('A' <= slug[i] <= 'Z') by {
            assert(is_handle_char(handle[i]));
        }
    }
}

/// No fetch is started for a slug that is being fetched, is ready, or failed
/// recently, and none is started twice.
pub proof fn law_fetches_are_due_and_distinct(
    apps: Seq<AppView>,
    cache: Map<Seq<char>, AvatarView>,
    now: u128,
)
    ensures
        due_slugs(apps, cache, now).no_duplicates(),
        forall|slug: Seq<char>| #[trigger]
            due_slugs(apps, cache, now).contains(slug) ==> is_due(cache, slug, now),
    decreases apps.len(),
{
    if apps.len() > 0 {
        law_fetches_are_due_and_distinct(apps.drop_last(), cache, now);
        lemma_due_slugs_are_due(apps, cache, now);
    }
}

/// A second pass over the same streams, before any fetch has ended, starts no
/// further fetch, and leaves pending what the first pass left pending.
pub proof fn law_second_pass_starts_no_fetch(
    apps: Seq<AppView>,
    cache: Map<Seq<char>, AvatarView>,
    now: u128,
)
    ensures
        ({
            let after = with_fetches(cache, due_slugs(apps, cache, now));
            &&& due_slugs(apps, after, now) == Seq::<Seq<char>>::empty()
            &&& forall|i: int|
                0 <= i < apps.len() ==> with_avatar(#[trigger] apps[i], after, now) == with_avatar(
                    apps[i],
                    cache,
                    now,
                )
        }),
{
    let due = due_slugs(apps, cache, now);
    let after = with_fetches(cache, due);
    lemma_due_slugs_are_due(apps, cache, now);
    lemma_due_slugs_complete(apps, cache, now);
    assert forall|i: int| 0 <= i < apps.len() && slug_in((#[trigger] apps[i]).app_name) is Some implies {
        let slug = slug_in(apps[i].app_name)->0;
        &&& !is_due(after, slug, now)
        &&& with_avatar(apps[i], after, now) == with_avatar(apps[i], cache, now)
    } by {
        let slug = slug_in(apps[i].app_name)->0;
        if is_due(cache, slug, now) {
            assert(due.contains(slug));
        } else {
            assert(!due.contains(slug));
        }
    }
    lemma_nothing_due(apps, after, now);
}

proof fn lemma_due_slugs_complete(
    apps: Seq<AppView>,
    cache: Map<Seq<char>, AvatarView>,
    now: u128,
)
    ensures
        forall|i: int|
            0 <= i < apps.len() ==> match slug_in((#[trigger] apps[i]).app_name) {
                Some(slug) => is_due(cache, slug, now) ==> due_slugs(apps, cache, now).contains(
                    slug,
                ),
                None => true,
            },
    decreases apps.len(),
{
    if apps.len() > 0 {
        let rest = apps.drop_last();
        lemma_due_slugs_complete(rest, cache, now);
        let earlier = due_slugs(rest, cache, now);
        assert forall|i: int| 0 <= i < apps.len() implies match slug_in(
            (#[trigger] apps[i]).app_name,
        ) {
            Some(slug) => is_due(cache, slug, now) ==> due_slugs(apps, cache, now).contains(slug),
            None => true,
        } by {
            if let Some(slug) = slug_in(apps[i].app_name) {
                if let Some(last) = slug_in(apps.last().app_name) {
                    crate::text::lemma_push_contains(earlier, last, slug);
                }
                if i < rest.len() {
                    assert(rest[i] == apps[i]);
                }
            }
        }
    }
}

proof fn lemma_nothing_due(apps: Seq<AppView>, cache: Map<Seq<char>, AvatarView>, now: u128)
    requires
        forall|i: int|
            0 <= i < apps.len() && slug_in((#[trigger] apps[i]).app_name) is Some ==> !is_due(
                cache,
                slug_in(apps[i].app_name)->0,
                now,
            ),
    ensures
        due_slugs(apps, cache, now) == Seq::<Seq<char>>::empty(),
    decreases apps.len(),
{
    if apps.len() > 0 {
        let rest = apps.drop_last();
        assert forall|i: int|
            0 <= i < rest.len() && slug_in((#[trigger] rest[i]).app_name) is Some implies !is_due(
            cache,
            slug_in(rest[i].app_name)->0,
            now,
        ) by {
            assert(rest[i] == apps[i]);
        }
        lemma_nothing_due(rest, cache, now);
        assert(apps.last() == apps[apps.len() - 1]);
    }
}

/// Whose handle a Kick title shows. The title ends, case aside, in the words that Kick
/// appends; what stands in front of them, without a final " Stream" and the white
/// space around it, is the handle, if it is a username: letters, digits and
/// underscores alone. Any other title shows none.
pub proof fn law_handle_stands_before_the_words_of_kick(
    title: Seq<char>,
    body: Seq<char>,
    end: Seq<char>,
)
    requires
        trimmed(title) == body + end,
        same_ignoring_case(end, " - Watch Live on Kick"@) || same_ignoring_case(end, " - Kick"@),
    ensures
        forall|name: Seq<char>, word: Seq<char>|
            trimmed(body) == #[trigger] (name + word) && same_ignoring_case(word, " Stream"@)
                ==> handle_in(title) == (if is_username(trimmed(name)) {
                Some(trimmed(name))
            } else {
                None
            }),
        !ends_with_ignoring_case(trimmed(body), " Stream"@) ==> handle_in(title) == (
        if is_username(trimmed(body)) {
            Some(trimmed(body))
        } else {
            None
        }),
{
    reveal_strlit(" - Watch Live on Kick");
    reveal_strlit(" - Kick");
    reveal_strlit(" Stream");
    let long = " - Watch Live on Kick"@;
    let short = " - Kick"@;
    let name = trimmed(title);
    if same_ignoring_case(end, long) {
        law_suffix_is_stripped(body, end, long);
    } else {
        law_suffix_is_stripped(body, end, short);
        if ends_with_ignoring_case(name, long) {
            let x = name.skip(name.len() - long.len());
            assert(x[long.len() - 6] == name[name.len() - 6]);
            assert(name[name.len() - 6] == end[end.len() - 6]);
            assert(ascii_lower(end[1]) == ascii_lower(short[1]));
        }
    }
    assert forall|n: Seq<char>, word: Seq<char>|
        trimmed(body) == #[trigger] (n + word) && same_ignoring_case(
            word,
            " Stream"@,
        ) implies handle_in(title) == (if is_username(trimmed(n)) {
        Some(trimmed(n))
    } else {
        None
    }) by {
        law_suffix_is_stripped(n, word, " Stream"@);
    }
}

/// A title without the words of Kick at its end is no Kick title.
pub proof fn law_other_titles_show_no_handle(title: Seq<char>)
    requires
        !ends_with_ignoring_case(trimmed(title), " - Watch Live on Kick"@),
        !ends_with_ignoring_case(trimmed(title), " - Kick"@),
    ensures
        handle_in(title) is None,
        slug_in(title) is None,
        shown_name(title) == title,
{
}

/// The slug of a Kick title is its handle with the capitals lowered, letter by letter;
/// the handle itself is what is shown; and a username is made of ASCII letters, digits
/// and underscores.
pub proof fn law_slug_is_the_handle_in_lower_case(title: Seq<char>, handle: Seq<char>, i: int)
    requires
        handle_in(title) == Some(handle),
        0 <= i < handle.len(),
    ensures
        shown_name(title) == handle,
        slug_in(title) matches Some(slug) && slug.len() == handle.len() && slug[i] == (
        if 'A' <= handle[i] <= 'Z' {
            ((handle[i] as u32) + 32) as char
        } else {
            handle[i]
        }),
        'a' <= handle[i] <= 'z' || 'A' <= handle[i] <= 'Z' || '0' <= handle[i] <= '9' || handle[i]
            == '_',
{
    assert(is_handle_char(handle[i]));
}

/// The usernames are the texts of ASCII letters, digits and underscores that are not
/// empty.
pub proof fn law_usernames(s: Seq<char>)
    ensures
        is_username(s) <==> s.len() > 0 && forall|i: int|
            0 <= i < s.len() ==> 'a' <= #[trigger] s[i] <= 'z' || 'A' <= s[i] <= 'Z' || '0' <= s[i]
                <= '9' || s[i] == '_',
{
}

/// What a Kick stream shows of its avatar: a ready one is attached; while one is being
/// fetched, or is due for it, the stream is marked as pending; for five minutes after a
/// fetch has failed nothing happens. A stream that is not Kick's is left alone.
pub proof fn law_avatar_of_a_stream(
    app: AppView,
    cache: Map<Seq<char>, AvatarView>,
    now: u128,
)
    ensures
        slug_in(app.app_name) is None ==> with_avatar(app, cache, now) == app,
        slug_in(app.app_name) matches Some(slug) ==> {
            let shown = with_avatar(app, cache, now);
            let known = cache.contains_key(slug);
            &&& known && cache[slug] is Ready ==> shown == (AppView {
                kick_art: Some(cache[slug]->Ready_0),
                ..app
            })
            &&& !known || cache[slug] is Fetching ==> shown == (AppView {
                kick_pending: true,
                ..app
            })
            &&& known && cache[slug] is Failed && now < cache[slug]->Failed_0 + 300_000_000_000
                ==> shown == app
            &&& known && cache[slug] is Failed && now >= cache[slug]->Failed_0 + 300_000_000_000
                ==> shown == (AppView { kick_pending: true, ..app })
        },
{
}

/// A fetch is started for a slug exactly if a stream shows it and it was never asked
/// for, or its last fetch failed at least five minutes ago. From then on it counts as
/// being fetched, and nothing else that is known changes.
pub proof fn law_fetches_that_are_started(
    apps: Seq<AppView>,
    cache: Map<Seq<char>, AvatarView>,
    now: u128,
    slug: Seq<char>,
)
    ensures
        ({
            let due = due_slugs(apps, cache, now);
            let after = with_fetches(cache, due);
            &&& due.contains(slug) <==> (exists|i: int|
                0 <= i < apps.len() && slug_in((#[trigger] apps[i]).app_name) == Some(slug)) && (
            !cache.contains_key(slug) || (cache[slug] is Failed && now >= cache[slug]->Failed_0
                + 300_000_000_000))
            &&& due.contains(slug) ==> after.contains_key(slug) && after[slug] is Fetching
            &&& !due.contains(slug) ==> after.contains_key(slug) == cache.contains_key(slug) && (
            cache.contains_key(slug) ==> after[slug] == cache[slug])
        }),
{
    lemma_due_slugs_are_due(apps, cache, now);
    lemma_due_slugs_complete(apps, cache, now);
    lemma_due_slug_is_shown(apps, cache, now, slug);
}

proof fn lemma_due_slug_is_shown(
    apps: Seq<AppView>,
    cache: Map<Seq<char>, AvatarView>,
    now: u128,
    slug: Seq<char>,
)
    ensures
        due_slugs(apps, cache, now).contains(slug) ==> exists|i: int|
            0 <= i < apps.len() && slug_in((#[trigger] apps[i]).app_name) == Some(slug),
    decreases apps.len(),
{
    if apps.len() > 0 {
        let rest = apps.drop_last();
        lemma_due_slug_is_shown(rest, cache, now, slug);
        assert(apps.last() == apps[apps.len() - 1]);
        if let Some(last) = slug_in(apps.last().app_name) {
            crate::text::lemma_push_contains(due_slugs(rest, cache, now), last, slug);
        }
        if due_slugs(rest, cache, now).contains(slug) {
            let i = choose|i: int|
                0 <= i < rest.len() && slug_in((#[trigger] rest[i]).app_name) == Some(slug);
            assert(slug_in(apps[i].app_name) == Some(slug));
        }
    }
}

/// The address in an answer is the text in quotes behind the first `"profile_pic":`,
/// white space aside, with each `\/` read as a slash. There is none if the text is
/// empty.
pub proof fn law_address_is_read_from_the_answer(
    before: Seq<char>,
    space: Seq<char>,
    text: Seq<char>,
    after: Seq<char>,
)
    requires
        forall|i: int| 0 <= i < space.len() ==> is_white_space(#[trigger] space[i]),
        forall|i: int| 0 <= i < text.len() ==> #[trigger] text[i] != '"',
        forall|j: int|
            0 <= j < before.len() ==> !#[trigger] occurs_at(
                before + "\"profile_pic\":"@ + space + "\""@ + text + "\""@ + after,
                "\"profile_pic\":"@,
                j,
            ),
    ensures
        profile_pic_in(before + "\"profile_pic\":"@ + space + "\""@ + text + "\""@ + after) == (
        if text.len() > 0 {
            Some(replaced(text, "\\/"@, "/"@))
        } else {
            None
        }),
{
    reveal_strlit("\"profile_pic\":");
    reveal_strlit("\"");
    reveal_strlit("\\/");
    reveal_strlit("/");
    let key = "\"profile_pic\":"@;
    let quote = "\""@;
    let body = before + key + space + quote + text + quote + after;
    let at = before.len() as int;
    assert(body.subrange(at, at + key.len()) =~= key);
    assert(occurs_at(body, key, at));
    let found = lemma_first_occurrence(body, key, at);
    assert(found == at) by {
        if found < at {
            assert(!occurs_at(body, key, found));
        }
    }
    let tail = body.skip(at + key.len());
    let value = quote + text + quote + after;
    assert(tail =~= space + value);
    lemma_space_is_skipped(space, value);
    assert(value.subrange(0, quote.len() as int) =~= quote);
    let rest = value.skip(quote.len() as int);
    assert(rest =~= text + quote + after);
    let end = text.len() as int;
    assert(rest.subrange(end, end + quote.len()) =~= quote);
    assert(occurs_at(rest, quote, end));
    let close = lemma_first_occurrence(rest, quote, end);
    assert(close == end) by {
        if close < end {
            assert(rest.subrange(close, close + 1)[0] == text[close]);
        }
    }
    assert(rest.take(end) =~= text);
    lemma_replaced_is_not_empty(text, "\\/"@, "/"@);
}

proof fn lemma_space_is_skipped(space: Seq<char>, value: Seq<char>)
    requires
        forall|i: int| 0 <= i < space.len() ==> is_white_space(#[trigger] space[i]),
        value.len() > 0,
        !is_white_space(value[0]),
    ensures
        without_leading_space(space + value) == value,
    decreases space.len(),
{
    let whole = space + value;
    if space.len() > 0 {
        assert(whole[0] == space[0]);
        assert(whole.drop_first() =~= space.drop_first() + value);
        assert forall|i: int| 0 <= i < space.drop_first().len() implies is_white_space(
            #[trigger] space.drop_first()[i],
        ) by {
            assert(space.drop_first()[i] == space[i + 1]);
        }
        lemma_space_is_skipped(space.drop_first(), value);
    } else {
        assert(whole =~= value);
        assert(whole[0] == value[0]);
    }
}

proof fn lemma_replaced_is_not_empty(s: Seq<char>, from: Seq<char>, to: Seq<char>)
    requires
        from.len() > 0,
        to.len() > 0,
    ensures
        replaced(s, from, to).len() > 0 <==> s.len() > 0,
{
}

/// An answer without the field, or with anything but a text in it, gives no address.
pub proof fn law_answers_without_an_address(
    body: Seq<char>,
    before: Seq<char>,
    space: Seq<char>,
    value: Seq<char>,
)
    requires
        forall|i: int| 0 <= i < space.len() ==> is_white_space(#[trigger] space[i]),
        value.len() > 0,
        !is_white_space(value[0]),
        value[0] != '"',
        forall|j: int|
            0 <= j < before.len() ==> !#[trigger] occurs_at(
                before + "\"profile_pic\":"@ + space + value,
                "\"profile_pic\":"@,
                j,
            ),
    ensures
        !occurs_in(body, "\"profile_pic\":"@) ==> profile_pic_in(body) is None,
        profile_pic_in(before + "\"profile_pic\":"@ + space + value) is None,
{
    reveal_strlit("\"");
    let key = "\"profile_pic\":"@;
    let whole = before + key + space + value;
    let at = before.len() as int;
    assert(whole.subrange(at, at + key.len()) =~= key);
    assert(occurs_at(whole, key, at));
    let found = lemma_first_occurrence(whole, key, at);
    assert(found == at) by {
        if found < at {
            assert(!occurs_at(whole, key, found));
        }
    }
    assert(whole.skip(at + key.len()) =~= space + value);
    lemma_space_is_skipped(space, value);
    if "\""@.is_prefix_of(value) {
        assert(value.subrange(0, 1)[0] == value[0]);
    }
}

/// A fetched avatar is shown from then on, and not fetched again. After a fetch that
/// failed nothing is shown or fetched for five minutes, and then it is fetched again.
/// What is known of other slugs stays.
pub proof fn law_fetched_avatars_are_shown(
    app: AppView,
    cache: Map<Seq<char>, AvatarView>,
    slug: Seq<char>,
    png: Seq<u8>,
    ended: u128,
    now: u128,
    other: Seq<char>,
)
    requires
        slug_in(app.app_name) == Some(slug),
    ensures
        ({
            let ready = with_outcome(cache, slug, Some(png), ended);
            let failed = with_outcome(cache, slug, None, ended);
            &&& with_avatar(app, ready, now) == (AppView { kick_art: Some(png), ..app })
            &&& due_slugs(seq![app], ready, now) == Seq::<Seq<char>>::empty()
            &&& now < ended + 300_000_000_000 ==> with_avatar(app, failed, now) == app && due_slugs(
                seq![app],
                failed,
                now,
            ) == Seq::<Seq<char>>::empty()
            &&& now >= ended + 300_000_000_000 ==> with_avatar(app, failed, now) == (AppView {
                kick_pending: true,
                ..app
            }) && due_slugs(seq![app], failed, now) == seq![slug]
            &&& other != slug ==> {
                &&& ready.contains_key(other) == cache.contains_key(other)
                &&& failed.contains_key(other) == cache.contains_key(other)
                &&& cache.contains_key(other) ==> ready[other] == cache[other] && failed[other]
                    == cache[other]
            }
        }),
{
    let apps = seq![app];
    assert(apps.drop_last() =~= Seq::<AppView>::empty());
    assert(apps.last() == app);
    let ready = with_outcome(cache, slug, Some(png), ended);
    let failed = with_outcome(cache, slug, None, ended);
    reveal_with_fuel(due_slugs, 3);
    assert(due_slugs(apps.drop_last(), failed, now) =~= Seq::<Seq<char>>::empty());
    assert(due_slugs(apps.drop_last(), ready, now) =~= Seq::<Seq<char>>::empty());
    assert(Seq::<Seq<char>>::empty().push(slug) =~= seq![slug]);
}

} // verus!
