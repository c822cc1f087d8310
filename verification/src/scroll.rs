//! Scrolling of labels that are too long for the place they are shown in.
//!
//! A header shows eight characters of its label, and moves on by one character
//! every few ticks, round and round with a gap between end and start. On the LCD
//! a label is scrolled by pixels; here it is only known whether that is needed.

use crate::mixer::channel::{channel_views, ChannelView, MixerChannel};
use crate::text::{opt_text, same_text};
use vstd::prelude::*;
use vstd::string::*;

verus! {

/// How many characters a header shows.
pub const HEADER_WINDOW: usize = 8;

/// How many blanks stand between the end of a label and its start.
pub const HEADER_GAP_LEN: usize = 3;

/// After how many ticks a header advances by one character.
pub const HEADER_CHAR_TICKS: u32 = 8;

/// How far the label of one channel has been scrolled.
#[derive(Debug)]
pub struct ScrollEntry {
    text: String,
    needs_scroll_lcd: bool,
    char_offset: usize,
    char_tick_counter: u32,
}

/// The mathematical content of a [`ScrollEntry`].
#[verifier::ext_equal]
pub struct ScrollView {
    pub text: Seq<char>,
    pub needs_scroll_lcd: bool,
    pub char_offset: nat,
    pub char_tick_counter: nat,
}

impl View for ScrollEntry {
    type V = ScrollView;

    closed spec fn view(&self) -> ScrollView {
        ScrollView {
            text: self.text@,
            needs_scroll_lcd: self.needs_scroll_lcd,
            char_offset: self.char_offset as nat,
            char_tick_counter: self.char_tick_counter as nat,
        }
    }
}

/// The contents of a list of entries.
pub open spec fn scroll_views(entries: Seq<ScrollEntry>) -> Seq<ScrollView> {
    entries.map_values(|e: ScrollEntry| e@)
}

impl ScrollView {
    /// The state of a label that is shown from its start.
    pub open spec fn at_start(text: Seq<char>, needs_scroll_lcd: bool) -> ScrollView {
        ScrollView { text, needs_scroll_lcd, char_offset: 0, char_tick_counter: 0 }
    }

    /// Whether the label is too long for a header.
    pub open spec fn needs_scroll_header(self) -> bool {
        self.text.len() > HEADER_WINDOW
    }

    /// After how many characters the header shows the same again.
    pub open spec fn period(self) -> nat {
        (self.text.len() + HEADER_GAP_LEN) as nat
    }

    /// Whether the next tick advances the header.
    pub open spec fn is_due(self) -> bool {
        self.needs_scroll_header() && self.char_tick_counter + 1 >= HEADER_CHAR_TICKS
    }

    /// The state after one tick.
    pub open spec fn ticked(self) -> ScrollView {
        if self.is_due() {
            ScrollView {
                char_offset: (self.char_offset + 1) as nat % self.period(),
                char_tick_counter: 0,
                ..self
            }
        } else if self.needs_scroll_header() {
            ScrollView { char_tick_counter: self.char_tick_counter + 1, ..self }
        } else {
            self
        }
    }

    /// The characters that the header shows: eight of the label and its repetition
    /// after the gap.
    pub open spec fn window(self) -> Seq<char> {
        (self.text + "   "@ + self.text).subrange(
            self.char_offset as int,
            self.char_offset + HEADER_WINDOW,
        )
    }

    /// Whether the state is one that ticks lead to.
    pub open spec fn is_valid(self) -> bool {
        self.char_offset < self.period() && self.char_tick_counter < HEADER_CHAR_TICKS
    }
}

impl ScrollEntry {
    #[verifier::type_invariant]
    spec fn offsets_are_valid(self) -> bool {
        &&& self.char_offset < self.text@.len() + HEADER_GAP_LEN
        &&& self.char_tick_counter < HEADER_CHAR_TICKS
    }

    fn at_start(text: String, needs_scroll_lcd: bool) -> (r: ScrollEntry)
        ensures
            r@ == ScrollView::at_start(text@, needs_scroll_lcd),
    {
        ScrollEntry { text, needs_scroll_lcd, char_offset: 0, char_tick_counter: 0 }
    }

    fn duplicate(&self) -> (r: ScrollEntry)
        ensures
            r@ == self@,
    {
        proof {
            use_type_invariant(self);
        }
        ScrollEntry {
            text: self.text.clone(),
            needs_scroll_lcd: self.needs_scroll_lcd,
            char_offset: self.char_offset,
            char_tick_counter: self.char_tick_counter,
        }
    }

    /// The state after one tick, and what the header shows then, if it has
    /// advanced.
    fn after_tick(&self) -> (r: (ScrollEntry, Option<String>))
        ensures
            r.0@ == self@.ticked(),
            opt_text(r.1) == (if self@.is_due() {
                Some(self@.ticked().window())
            } else {
                None
            }),
    {
        proof {
            use_type_invariant(self);
            reveal_strlit("   ");
        }
        let count: usize = self.text.as_str().unicode_len();
        if count <= HEADER_WINDOW {
            return (self.duplicate(), None);
        }
        if self.char_tick_counter + 1 < HEADER_CHAR_TICKS {
            let next = ScrollEntry {
                text: self.text.clone(),
                needs_scroll_lcd: self.needs_scroll_lcd,
                char_offset: self.char_offset,
                char_tick_counter: self.char_tick_counter + 1,
            };
            return (next, None);
        }
        let full = self.text.clone().concat("   ").concat(&self.text);
        let total: usize = full.as_str().unicode_len();
        assert(total == 2 * count + HEADER_GAP_LEN);
        let char_offset: usize = (self.char_offset + 1) % (count + HEADER_GAP_LEN);
        let next = ScrollEntry {
            text: self.text.clone(),
            needs_scroll_lcd: self.needs_scroll_lcd,
            char_offset,
            char_tick_counter: 0,
        };
        let shown = full.as_str().substring_char(char_offset, char_offset + HEADER_WINDOW);
        (next, Some(shown.to_owned()))
    }
}

/// How far the labels of all channels have been scrolled, by column.
#[derive(Debug)]
pub struct ScrollState {
    entries: Vec<ScrollEntry>,
}

impl View for ScrollState {
    type V = Seq<ScrollView>;

    closed spec fn view(&self) -> Seq<ScrollView> {
        scroll_views(self.entries@)
    }
}

/// The state of a label once it is known what its channel shows: unless the text
/// has changed, it stays where it is.
pub open spec fn synced_entry(
    state: Seq<ScrollView>,
    column: int,
    label: Seq<char>,
    needs_scroll_lcd: bool,
) -> ScrollView {
    if column < state.len() && state[column].text == label {
        state[column]
    } else {
        ScrollView::at_start(label, needs_scroll_lcd)
    }
}

/// The states of the labels of some channels.
pub open spec fn synced(
    state: Seq<ScrollView>,
    channels: Seq<ChannelView>,
    overflows: Seq<bool>,
) -> Seq<ScrollView> {
    Seq::new(
        channels.len(),
        |i: int|
            synced_entry(state, i, channels[i].label(), i < overflows.len() && overflows[i]),
    )
}

/// The columns whose labels scroll on the LCD, among the first `n`.
pub open spec fn lcd_columns(state: Seq<ScrollView>, n: int) -> Seq<usize>
    decreases n,
{
    if n <= 0 {
        Seq::empty()
    } else if state[n - 1].needs_scroll_lcd {
        lcd_columns(state, n - 1).push((n - 1) as usize)
    } else {
        lcd_columns(state, n - 1)
    }
}

/// The columns whose headers the next tick advances, among the first `n`, and
/// what they show then.
pub open spec fn header_titles(state: Seq<ScrollView>, n: int) -> Seq<(usize, Seq<char>)>
    decreases n,
{
    if n <= 0 {
        Seq::empty()
    } else if state[n - 1].is_due() {
        header_titles(state, n - 1).push(((n - 1) as usize, state[n - 1].ticked().window()))
    } else {
        header_titles(state, n - 1)
    }
}

/// What a tick asks to be drawn again: labels on the LCD, by column, and headers
/// with the texts that they show.
#[derive(Debug)]
pub struct ScrollTick {
    pub lcd: Vec<usize>,
    pub headers: Vec<(usize, String)>,
}

/// The content of a list of headers.
pub open spec fn header_views(headers: Seq<(usize, String)>) -> Seq<(usize, Seq<char>)> {
    headers.map_values(|h: (usize, String)| (h.0, h.1@))
}

impl ScrollState {
    /// The state while there are no channels.
    pub fn new() -> (r: ScrollState)
        ensures
            r@ == Seq::<ScrollView>::empty(),
    {
        let r = ScrollState { entries: Vec::new() };
        assert(r@ =~= Seq::<ScrollView>::empty());
        r
    }

    /// The text that is scrolled in a column.
    pub fn text(&self, column: usize) -> (r: Option<String>)
        ensures
            opt_text(r) == (if column < self@.len() {
                Some(self@[column as int].text)
            } else {
                None
            }),
    {
        if column < self.entries.len() {
            Some(self.entries[column].text.clone())
        } else {
            None
        }
    }

    /// One tick of the animation: advances the headers, and tells what is to be
    /// drawn again.
    pub fn tick(&mut self) -> (r: ScrollTick)
        ensures
            final(self)@ == old(self)@.map_values(|e: ScrollView| e.ticked()),
            r.lcd@ == lcd_columns(old(self)@, old(self)@.len() as int),
            header_views(r.headers@) == header_titles(old(self)@, old(self)@.len() as int),
    {
        let ghost before = self@;
        let mut next: Vec<ScrollEntry> = Vec::new();
        let mut lcd: Vec<usize> = Vec::new();
        let mut headers: Vec<(usize, String)> = Vec::new();
        let mut i: usize = 0;
        assert(header_views(headers@) =~= Seq::empty());
        while i < self.entries.len()
            invariant
                i <= self.entries.len(),
                next.len() == i,
                before == scroll_views(self.entries@),
                forall|j: int| 0 <= j < i ==> (#[trigger] next@[j])@ == before[j].ticked(),
                lcd@ == lcd_columns(before, i as int),
                header_views(headers@) == header_titles(before, i as int),
            decreases self.entries.len() - i,
        {
            assert(before[i as int] == self.entries@[i as int]@);
            let ghost titles = header_views(headers@);
            if self.entries[i].needs_scroll_lcd {
                lcd.push(i);
            }
            let (entry, shown) = self.entries[i].after_tick();
            next.push(entry);
            if let Some(title) = shown {
                headers.push((i, title));
                assert(header_views(headers@) =~= titles.push((i, title@)));
            }
            i += 1;
        }
        self.entries = next;
        assert(self@ =~= before.map_values(|e: ScrollView| e.ticked()));
        ScrollTick { lcd, headers }
    }
}

/// Check if a channel's LCD text is actively scrolling.
pub fn is_lcd_scrolling(state: &ScrollState, channel_idx: u8) -> (r: bool)
    ensures
        r == (channel_idx < state@.len() && state@[channel_idx as int].needs_scroll_lcd),
{
    let column: usize = channel_idx as usize;
    column < state.entries.len() && state.entries[column].needs_scroll_lcd
}

/// Whether the state holds another text than a channel shows, so that it has to
/// be measured anew.
pub fn is_stale(state: &ScrollState, column: usize, channel: &MixerChannel) -> (r: bool)
    ensures
        r == !(column < state@.len() && state@[column as int].text == channel@.label()),
{
    column >= state.entries.len() || !same_text(
        &state.entries[column].text,
        &channel.display_label(),
    )
}

/// Synchronize scroll state with current mixer channels. Call after mixer channels
/// are updated. `overflows` tells of each column whether its label is too wide for
/// the LCD; it matters only where the label has changed (see [`is_stale`]), and a
/// label of which it tells nothing is taken to fit.
pub fn sync_scroll_state(state: &mut ScrollState, channels: &[MixerChannel], overflows: &[bool])
    ensures
        final(state)@ == synced(old(state)@, channel_views(channels@), overflows@),
{
    let ghost before = state@;
    let ghost all = channel_views(channels@);
    let mut next: Vec<ScrollEntry> = Vec::new();
    let mut i: usize = 0;
    while i < channels.len()
        invariant
            i <= channels.len(),
            next.len() == i,
            all == channel_views(channels@),
            before == state@,
            forall|j: int|
                0 <= j < i ==> (#[trigger] next@[j])@ == synced(before, all, overflows@)[j],
        decreases channels.len() - i,
    {
        assert(all[i as int] == channels@[i as int]@);
        let entry = if is_stale(state, i, &channels[i]) {
            ScrollEntry::at_start(
                channels[i].display_label(),
                i < overflows.len() && overflows[i],
            )
        } else {
            assert(state.entries@[i as int]@ == before[i as int]);
            state.entries[i].duplicate()
        };
        next.push(entry);
        i += 1;
    }
    state.entries = next;
    assert(state@ =~= synced(before, all, overflows@));
}

/// A label that is to be drawn again on the LCD of a dial.
#[derive(Debug)]
pub struct LcdRedraw {
    pub dial_id: String,
    pub icon_uri: String,
    pub title: String,
    pub vol_percent: u32,
    pub mute: bool,
}

/// The content of a redraw: the dial, the icon, the title, the volume and whether
/// it is muted.
pub open spec fn lcd_redraw_view(redraw: Option<LcdRedraw>) -> Option<
    (Seq<char>, Seq<char>, Seq<char>, u32, bool),
> {
    match redraw {
        Some(d) => Some((d.dial_id@, d.icon_uri@, d.title@, d.vol_percent, d.mute)),
        None => None,
    }
}

/// What to draw on the LCD of a channel, if it has a dial.
pub open spec fn redraw_of(ch: ChannelView, title: Seq<char>) -> Option<
    (Seq<char>, Seq<char>, Seq<char>, u32, bool),
> {
    match ch.dial_id {
        Some(dial) => Some(
            (
                dial,
                if ch.mute {
                    ch.icon_uri_mute
                } else {
                    ch.icon_uri
                },
                title,
                ch.vol_percent,
                ch.mute,
            ),
        ),
        None => None,
    }
}

/// A channel is drawn exactly if it has a dial, and on that one: a muted channel with
/// its muted icon, any other with its plain one, with its volume and the given title.
pub proof fn law_channels_are_drawn_on_their_dials(ch: ChannelView, title: Seq<char>)
    ensures
        redraw_of(ch, title) is Some <==> ch.dial_id is Some,
        redraw_of(ch, title) matches Some((dial, icon, shown, volume, mute)) ==> {
            &&& ch.dial_id == Some(dial)
            &&& mute == ch.mute
            &&& mute ==> icon == ch.icon_uri_mute
            &&& !mute ==> icon == ch.icon_uri
            &&& shown == title
            &&& volume == ch.vol_percent
        },
{
}

/// What to draw on the LCD of a column, if there is a channel with a dial: the
/// channel's icon, muted or not, with a title and the volume.
pub fn lcd_redraw(channels: &[MixerChannel], column: usize, title: String) -> (r: Option<LcdRedraw>)
    ensures
        column < channels@.len() ==> lcd_redraw_view(r) == redraw_of(
            channel_views(channels@)[column as int],
            title@,
        ),
        lcd_redraw_view(r) == (if column < channels@.len() {
            let ch = channel_views(channels@)[column as int];
            match ch.dial_id {
                Some(dial) => Some(
                    (
                        dial,
                        if ch.mute {
                            ch.icon_uri_mute
                        } else {
                            ch.icon_uri
                        },
                        title@,
                        ch.vol_percent,
                        ch.mute,
                    ),
                ),
                None => None,
            }
        } else {
            None
        }),
{
    if column >= channels.len() {
        return None;
    }
    let channel = &channels[column];
    match &channel.dial_id {
        Some(dial) => Some(
            LcdRedraw {
                dial_id: dial.clone(),
                icon_uri: if channel.mute {
                    channel.icon_uri_mute.clone()
                } else {
                    channel.icon_uri.clone()
                },
                title,
                vol_percent: channel.vol_percent,
                mute: channel.mute,
            },
        ),
        None => None,
    }
}

/// The header of a column, if there is a channel with one.
pub fn header_redraw(channels: &[MixerChannel], column: usize) -> (r: Option<String>)
    ensures
        opt_text(r) == (if column < channels@.len() {
            channel_views(channels@)[column as int].header_id
        } else {
            None
        }),
{
    if column < channels.len() {
        channels[column].header_id.clone()
    } else {
        None
    }
}

/// A header always shows as many characters as it has room for, and those are the
/// label, a gap and the label again, read in a circle.
pub proof fn law_window_goes_round(e: ScrollView, i: int)
    requires
        e.is_valid(),
        e.needs_scroll_header(),
        0 <= i < HEADER_WINDOW,
    ensures
        e.window().len() == HEADER_WINDOW,
        e.window()[i] == (e.text + "   "@)[(e.char_offset + i) % (e.period() as int)],
{
    reveal_strlit("   ");
    let p = e.period() as int;
    let k = e.char_offset + i;
    if k < p {
        assert(k % p == k) by (nonlinear_arith)
            requires
                0 <= k < p,
        ;
    } else {
        assert(k % p == k - p) by (nonlinear_arith)
            requires
                p <= k < 2 * p,
        ;
    }
}

/// Ticks keep a state valid, leave its text alone, and touch nothing of a label
/// that fits.
pub proof fn law_ticks_keep_the_label(e: ScrollView)
    requires
        e.is_valid(),
    ensures
        e.ticked().is_valid(),
        e.ticked().text == e.text,
        e.ticked().needs_scroll_lcd == e.needs_scroll_lcd,
        !e.needs_scroll_header() ==> e.ticked() == e,
{
    let p = e.period();
    assert((e.char_offset + 1) as nat % p < p) by (nonlinear_arith)
        requires
            p > 0,
    ;
}

/// How many ticks a header is from its start.
pub open spec fn elapsed(e: ScrollView) -> int {
    e.char_offset * HEADER_CHAR_TICKS + e.char_tick_counter
}

/// The state after `n` ticks.
pub open spec fn after_ticks(e: ScrollView, n: nat) -> ScrollView
    decreases n,
{
    if n == 0 {
        e
    } else {
        after_ticks(e, (n - 1) as nat).ticked()
    }
}

proof fn lemma_elapsed(e: ScrollView, n: nat)
    requires
        e.is_valid(),
        e.needs_scroll_header(),
    ensures
        after_ticks(e, n).is_valid(),
        after_ticks(e, n).text == e.text,
        after_ticks(e, n).needs_scroll_lcd == e.needs_scroll_lcd,
        elapsed(after_ticks(e, n)) == (elapsed(e) + n) % (e.period() * HEADER_CHAR_TICKS),
    decreases n,
{
    let p = e.period() as int;
    let cycle = p * HEADER_CHAR_TICKS;
    if n == 0 {
        assert(elapsed(e) < cycle);
        assert(elapsed(e) % cycle == elapsed(e)) by (nonlinear_arith)
            requires
                0 <= elapsed(e) < cycle,
        ;
    } else {
        let m = (n - 1) as nat;
        lemma_elapsed(e, m);
        let before = after_ticks(e, m);
        law_ticks_keep_the_label(before);
        let x = elapsed(e) + m;
        vstd::arithmetic::div_mod::lemma_add_mod_noop(x, 1, cycle);
        assert(1int % cycle == 1) by (nonlinear_arith)
            requires
                cycle > 1,
        ;
        assert((x + 1) % cycle == (elapsed(before) + 1) % cycle);
        if elapsed(before) + 1 < cycle {
            assert((elapsed(before) + 1) % cycle == elapsed(before) + 1) by (nonlinear_arith)
                requires
                    0 <= elapsed(before) + 1 < cycle,
            ;
            if before.is_due() {
                assert(before.char_offset + 1 < p);
                assert((before.char_offset + 1) as nat % before.period() == before.char_offset + 1)
                    by (nonlinear_arith)
                    requires
                        0 <= before.char_offset + 1 < before.period(),
                ;
            }
        } else {
            assert(elapsed(before) + 1 == cycle);
            assert(cycle % cycle == 0) by (nonlinear_arith)
                requires
                    cycle > 0,
            ;
            assert(before.is_due());
            assert(before.char_offset + 1 == p);
            assert(before.period() % before.period() == 0) by (nonlinear_arith)
                requires
                    before.period() > 0,
            ;
        }
    }
}

/// A header that scrolls comes back to where it was after as many ticks as it
/// takes to advance by the whole label and the gap.
pub proof fn law_header_comes_round(e: ScrollView)
    requires
        e.is_valid(),
        e.needs_scroll_header(),
    ensures
        after_ticks(e, (e.period() * HEADER_CHAR_TICKS) as nat) == e,
{
    let cycle = (e.period() * HEADER_CHAR_TICKS) as nat;
    let after = after_ticks(e, cycle);
    lemma_elapsed(e, cycle);
    assert((elapsed(e) + cycle) % (cycle as int) == elapsed(e)) by (nonlinear_arith)
        requires
            0 <= elapsed(e) < cycle,
    ;
    assert(after =~= e);
}

/// A label that has not changed goes on scrolling where it was; a new one starts
/// from its beginning; and there is one label for each channel.
pub proof fn law_sync_keeps_unchanged_labels(
    state: Seq<ScrollView>,
    channels: Seq<ChannelView>,
    overflows: Seq<bool>,
    i: int,
)
    requires
        0 <= i < channels.len(),
    ensures
        synced(state, channels, overflows).len() == channels.len(),
        synced(state, channels, overflows)[i].text == channels[i].label(),
        i < state.len() && state[i].text == channels[i].label() ==> synced(
            state,
            channels,
            overflows,
        )[i] == state[i],
        !(i < state.len() && state[i].text == channels[i].label()) ==> synced(
            state,
            channels,
            overflows,
        )[i].char_offset == 0,
{
}

/// Where a header stands after some ticks: a label of more than eight characters has
/// moved on by one character for every eight ticks, round the label and three blanks;
/// a shorter one has not moved. The header shows the next eight characters from there.
pub proof fn law_header_after_some_ticks(text: Seq<char>, needs_scroll_lcd: bool, n: nat, i: int)
    requires
        text.len() > 8,
        0 <= i < 8,
    ensures
        ({
            let e = after_ticks(ScrollView::at_start(text, needs_scroll_lcd), n);
            let round = text.len() + 3;
            &&& e.text == text
            &&& e.needs_scroll_lcd == needs_scroll_lcd
            &&& e.char_offset == (n as int / 8) % (round as int)
            &&& e.window().len() == 8
            &&& e.window()[i] == (text + "   "@)[((n as int / 8) % (round as int) + i) % (
            round as int)]
        }),
{
    let start = ScrollView::at_start(text, needs_scroll_lcd);
    let e = after_ticks(start, n);
    let round = (text.len() + 3) as int;
    lemma_elapsed(start, n);
    assert(e.char_offset * 8 + e.char_tick_counter == (n as int) % (round * 8));
    let q = n as int / 8;
    let m = (n as int) % (round * 8);
    assert(m / 8 == q % round) by {
        vstd::arithmetic::div_mod::lemma_breakdown(n as int, 8, round);
        assert(8 * round == round * 8) by (nonlinear_arith);
        assert(m == 8 * (q % round) + (n as int) % 8);
        assert(0 <= (n as int) % 8 < 8);
    }
    assert(m / 8 == e.char_offset);
    law_window_goes_round(e, i);
}

/// A label of at most eight characters is never moved.
pub proof fn law_short_labels_stay(text: Seq<char>, needs_scroll_lcd: bool, n: nat)
    requires
        text.len() <= 8,
    ensures
        after_ticks(ScrollView::at_start(text, needs_scroll_lcd), n) == ScrollView::at_start(
            text,
            needs_scroll_lcd,
        ),
    decreases n,
{
    if n > 0 {
        law_short_labels_stay(text, needs_scroll_lcd, (n - 1) as nat);
    }
}

/// A tick has the label of a column drawn again on the LCD exactly if it is too wide
/// for it, and its header exactly if it advances: then with the text that it shows
/// once it has.
pub proof fn law_tick_draws_what_moves(state: Seq<ScrollView>, column: usize, title: Seq<char>)
    requires
        state.len() <= usize::MAX,
    ensures
        lcd_columns(state, state.len() as int).contains(column) <==> column < state.len()
            && state[column as int].needs_scroll_lcd,
        header_titles(state, state.len() as int).contains((column, title)) <==> {
            &&& column < state.len()
            &&& state[column as int].text.len() > 8
            &&& state[column as int].char_tick_counter >= 7
            &&& title == state[column as int].ticked().window()
        },
{
    lemma_lcd_columns(state, state.len() as int, column);
    lemma_header_titles(state, state.len() as int, column, title);
}

proof fn lemma_lcd_columns(state: Seq<ScrollView>, n: int, column: usize)
    requires
        0 <= n <= state.len() <= usize::MAX,
    ensures
        lcd_columns(state, n).contains(column) <==> column < n
            && state[column as int].needs_scroll_lcd,
    decreases n,
{
    if n > 0 {
        lemma_lcd_columns(state, n - 1, column);
        crate::text::lemma_push_contains(
            lcd_columns(state, n - 1),
            (n - 1) as usize,
            column,
        );
    }
}

proof fn lemma_header_titles(state: Seq<ScrollView>, n: int, column: usize, title: Seq<char>)
    requires
        0 <= n <= state.len() <= usize::MAX,
    ensures
        header_titles(state, n).contains((column, title)) <==> column < n
            && state[column as int].is_due() && title == state[column as int].ticked().window(),
    decreases n,
{
    if n > 0 {
        lemma_header_titles(state, n - 1, column, title);
        crate::text::lemma_push_contains(
            header_titles(state, n - 1),
            ((n - 1) as usize, state[n - 1].ticked().window()),
            (column, title),
        );
    }
}

/// A label that has changed starts from its beginning, and scrolls on the LCD if it is
/// told to be too wide for it.
pub proof fn law_new_labels_start_anew(
    state: Seq<ScrollView>,
    channels: Seq<ChannelView>,
    overflows: Seq<bool>,
    i: int,
)
    requires
        0 <= i < channels.len(),
        i >= state.len() || state[i].text != channels[i].label(),
    ensures
        ({
            let e = synced(state, channels, overflows)[i];
            &&& e.text == channels[i].label()
            &&& e.char_offset == 0
            &&& e.char_tick_counter == 0
            &&& e.needs_scroll_lcd <==> i < overflows.len() && overflows[i]
        }),
{
}

} // verus!
