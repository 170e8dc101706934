//! The dashboard's state and how keys, clock ticks and fetched feeds change it.

use vstd::prelude::*;
use crate::rss::RssItem;

verus! {

broadcast use vstd::std_specs::iter::group_iter_axioms, vstd::string::group_string_axioms;

/// The pane that has the keyboard focus.
#[derive(PartialEq, Eq, Structural, Clone, Copy, Debug)]
pub enum ActivePane {
    Left,
    Center,
    Right,
}

/// The pane one step to the left, wrapping from the leftmost to the rightmost.
pub open spec fn pane_to_left(p: ActivePane) -> ActivePane {
    match p {
        ActivePane::Right => ActivePane::Center,
        ActivePane::Center => ActivePane::Left,
        ActivePane::Left => ActivePane::Right,
    }
}

/// The pane one step to the right, wrapping from the rightmost to the leftmost.
pub open spec fn pane_to_right(p: ActivePane) -> ActivePane {
    match p {
        ActivePane::Left => ActivePane::Center,
        ActivePane::Center => ActivePane::Right,
        ActivePane::Right => ActivePane::Left,
    }
}

/// A key press, as far as the dashboard tells keys apart.
#[derive(PartialEq, Eq, Structural, Clone, Copy, Debug)]
pub enum Key {
    Char(char),
    Left,
    Right,
    Up,
    Down,
    Enter,
    Other,
}

/// What a key asks the dashboard to do.
#[derive(PartialEq, Eq, Structural, Clone, Copy, Debug)]
pub enum Command {
    FocusLeft,
    FocusRight,
    SelectPrevious,
    SelectNext,
    OpenSelected,
    Ignore,
}

/// The key bindings: `h`/Left and `l`/Right move the focus, `k`/Up and `j`/Down
/// move the feed selection, Enter opens the selected headline.
pub open spec fn key_command(key: Key) -> Command {
    match key {
        Key::Char(c) => if c == 'h' {
            Command::FocusLeft
        } else if c == 'l' {
            Command::FocusRight
        } else if c == 'k' {
            Command::SelectPrevious
        } else if c == 'j' {
            Command::SelectNext
        } else {
            Command::Ignore
        },
        Key::Left => Command::FocusLeft,
        Key::Right => Command::FocusRight,
        Key::Up => Command::SelectPrevious,
        Key::Down => Command::SelectNext,
        Key::Enter => Command::OpenSelected,
        Key::Other => Command::Ignore,
    }
}

impl Key {
    /// The command this key is bound to.
    pub fn command(self) -> (c: Command)
        ensures
            c == key_command(self),
    {
        match self {
            Key::Char('h') | Key::Left => Command::FocusLeft,
            Key::Char('l') | Key::Right => Command::FocusRight,
            Key::Char('k') | Key::Up => Command::SelectPrevious,
            Key::Char('j') | Key::Down => Command::SelectNext,
            Key::Enter => Command::OpenSelected,
            _ => Command::Ignore,
        }
    }

    /// Whether this key ends the program (`q`).
    pub fn quits(self) -> (b: bool)
        ensures
            b == (self == Key::Char('q')),
    {
        match self {
            Key::Char(c) => c == 'q',
            _ => false,
        }
    }
}

/// The selection after moving up: the previous headline, wrapping from the first
/// to the last; no selection counts as the first. An empty list keeps it as is.
pub open spec fn scrolled_up(sel: Option<usize>, len: nat) -> Option<usize> {
    if len == 0 {
        sel
    } else {
        let cur = match sel {
            Some(c) => c as int,
            None => 0,
        };
        Some(
            if cur > 0 {
                (cur - 1) as usize
            } else {
                (len - 1) as usize
            },
        )
    }
}

/// The selection after moving down: the next headline, wrapping from the last to
/// the first; no selection counts as the first. An empty list keeps it as is.
pub open spec fn scrolled_down(sel: Option<usize>, len: nat) -> Option<usize> {
    if len == 0 {
        sel
    } else {
        let cur = match sel {
            Some(c) => c as int,
            None => 0,
        };
        Some(
            if cur < len - 1 {
                (cur + 1) as usize
            } else {
                0usize
            },
        )
    }
}

/// The dashboard's state.
pub struct App {
    /// The song shown in the music box.
    pub song_title: String,
    /// How far the music box has scrolled its title.
    pub scroll_offset: usize,
    /// Ticks so far, modulo 2^32.
    pub tick_counter: u32,
    /// The selected headline of the feed list.
    pub rss_selected: Option<usize>,
    pub active_pane: ActivePane,
    pub rss_items: Vec<RssItem>,
    /// The message to show when the last fetch failed.
    pub rss_error: Option<String>,
}

/// `a` and `b` agree on everything but the selection and the focus.
pub open spec fn same_content(a: App, b: App) -> bool {
    &&& a.song_title@ == b.song_title@
    &&& a.scroll_offset == b.scroll_offset
    &&& a.tick_counter == b.tick_counter
    &&& a.rss_items@ == b.rss_items@
    &&& crate::rss::opt_view(a.rss_error) == crate::rss::opt_view(b.rss_error)
}

/// The initial state: focus on the feed pane, its first row selected, no
/// items, no error, no song, counters at zero.
pub open spec fn is_initial(a: App) -> bool {
    &&& a.song_title@ == no_music()
    &&& a.scroll_offset == 0
    &&& a.tick_counter == 0
    &&& a.rss_selected == Some(0usize)
    &&& a.active_pane == ActivePane::Left
    &&& a.rss_items@.len() == 0
    &&& a.rss_error is None
}

impl Default for App {
    fn default() -> (a: Self)
        ensures
            is_initial(a),
    {
        App {
            song_title: "No Music Playing".to_owned(),
            scroll_offset: 0,
            tick_counter: 0,
            rss_selected: Some(0),
            active_pane: ActivePane::Left,
            rss_items: Vec::new(),
            rss_error: None,
        }
    }
}

/// Title shown before any song was detected.
pub open spec fn no_music() -> Seq<char> {
    "No Music Playing"@
}

impl App {
    /// The initial state (see `Default`).
    pub fn new() -> (a: Self)
        ensures
            is_initial(a),
    {
        Self::default()
    }

    /// Selects the previous headline, wrapping around; does nothing on an empty list.
    pub fn scroll_rss_up(&mut self)
        ensures
            final(self).rss_selected == scrolled_up(old(self).rss_selected, old(self).rss_items@.len()),
            final(self).active_pane == old(self).active_pane,
            same_content(*final(self), *old(self)),
    {
        if self.rss_items.len() == 0 {
            return;
        }
        let current = match self.rss_selected {
            Some(c) => c,
            None => 0,
        };
        let next = if current > 0 {
            current - 1
        } else {
            self.rss_items.len() - 1
        };
        self.rss_selected = Some(next);
    }

    /// Selects the next headline, wrapping around; does nothing on an empty list.
    pub fn scroll_rss_down(&mut self)
        ensures
            final(self).rss_selected == scrolled_down(old(self).rss_selected, old(self).rss_items@.len()),
            final(self).active_pane == old(self).active_pane,
            same_content(*final(self), *old(self)),
    {
        if self.rss_items.len() == 0 {
            return;
        }
        let current = match self.rss_selected {
            Some(c) => c,
            None => 0,
        };
        let next = if current < self.rss_items.len() - 1 {
            current + 1
        } else {
            0
        };
        self.rss_selected = Some(next);
    }

    /// Reacts to a key press (see `key_command`): moves the focus, moves the
    /// feed selection when the feed pane has the focus, or, on Enter in the feed
    /// pane, returns the link of the selected headline for the caller to open.
    pub fn handle_input(&mut self, key: Key) -> (open: Option<String>)
        ensures
            same_content(*final(self), *old(self)),
            crate::rss::opt_view(open) == (if key_command(key) == Command::OpenSelected {
                selected_link(*old(self))
            } else {
                None
            }),
            old(self).active_pane != ActivePane::Left ==> open is None,
            key_command(key) != Command::OpenSelected ==> open is None,
            (key_command(key) == Command::OpenSelected && old(self).active_pane == ActivePane::Left
                && old(self).rss_selected is Some && old(self).rss_selected->0
                < old(self).rss_items@.len()) ==> (
            open matches Some(l) && l@ == old(self).rss_items@[old(self).rss_selected->0 as int].link@),
            final(self).active_pane == (match key_command(key) {
                Command::FocusLeft => pane_to_left(old(self).active_pane),
                Command::FocusRight => pane_to_right(old(self).active_pane),
                _ => old(self).active_pane,
            }),
            final(self).rss_selected == (if old(self).active_pane != ActivePane::Left {
                old(self).rss_selected
            } else {
                match key_command(key) {
                    Command::SelectPrevious => scrolled_up(
                        old(self).rss_selected,
                        old(self).rss_items@.len(),
                    ),
                    Command::SelectNext => scrolled_down(
                        old(self).rss_selected,
                        old(self).rss_items@.len(),
                    ),
                    _ => old(self).rss_selected,
                }
            }),
    {
        match key.command() {
            Command::FocusLeft => {
                self.active_pane = match self.active_pane {
                    ActivePane::Right => ActivePane::Center,
                    ActivePane::Center => ActivePane::Left,
                    ActivePane::Left => ActivePane::Right,
                };
                None
            },
            Command::FocusRight => {
                self.active_pane = match self.active_pane {
                    ActivePane::Left => ActivePane::Center,
                    ActivePane::Center => ActivePane::Right,
                    ActivePane::Right => ActivePane::Left,
                };
                None
            },
            Command::SelectPrevious => {
                if let ActivePane::Left = self.active_pane {
                    self.scroll_rss_up();
                }
                None
            },
            Command::SelectNext => {
                if let ActivePane::Left = self.active_pane {
                    self.scroll_rss_down();
                }
                None
            },
            Command::OpenSelected => {
                if let ActivePane::Left = self.active_pane {
                    if let Some(i) = self.rss_selected {
                        if i < self.rss_items.len() {
                            return Some(self.rss_items[i].link.clone());
                        }
                    }
                }
                None
            },
            Command::Ignore => None,
        }
    }

    /// Whether the next tick looks up the current song: every fourth tick, by
    /// the tick counter as it will be after the increment.
    pub fn song_lookup_due(&self) -> (due: bool)
        ensures
            due == (((self.tick_counter as int + 1) % 0x1_0000_0000) % 4 == 0),
    {
        self.tick_counter.wrapping_add(1) % 4 == 0
    }

    /// One clock tick: advances the tick counter (wrapping). On every fourth tick
    /// the song that was looked up (`polled_song`, found by the caller when
    /// `song_lookup_due` said so) is taken: a different song replaces the title
    /// and restarts its scrolling. The title then scrolls one step (wrapping).
    /// On other ticks `polled_song` is not looked at.
    pub fn tick(&mut self, polled_song: Option<String>)
        ensures
            final(self).tick_counter as int == (old(self).tick_counter as int + 1) % 0x1_0000_0000,
            ({
                let due = final(self).tick_counter % 4 == 0;
                let changed = due && (polled_song matches Some(s) && s@ != old(self).song_title@);
                &&& changed ==> final(self).song_title@ == polled_song->0@
                    && final(self).scroll_offset == 1
                &&& !changed ==> final(self).song_title@ == old(self).song_title@
                    && final(self).scroll_offset == old(self).scroll_offset.wrapping_add(1)
            }),
            final(self).rss_selected == old(self).rss_selected,
            final(self).active_pane == old(self).active_pane,
            final(self).rss_items@ == old(self).rss_items@,
            crate::rss::opt_view(final(self).rss_error) == crate::rss::opt_view(old(self).rss_error),
    {
        self.tick_counter = self.tick_counter.wrapping_add(1);
        if self.tick_counter % 4 == 0 {
            if let Some(new_song) = polled_song {
                if !(new_song == self.song_title) {
                    self.scroll_offset = 0;
                    self.song_title = new_song;
                }
            }
        }
        self.scroll_offset = self.scroll_offset.wrapping_add(1);
    }

    /// Takes the outcome of a fetch round: new items replace the list and select
    /// its first row and clear the error; a failure empties the list and shows
    /// its message.
    pub fn apply_fetch_result(&mut self, result: Result<Vec<RssItem>, String>)
        ensures
            match result {
                Ok(items) => {
                    &&& final(self).rss_items@ == items@
                    &&& final(self).rss_error is None
                    &&& final(self).rss_selected == Some(0usize)
                },
                Err(e) => {
                    &&& final(self).rss_items@.len() == 0
                    &&& crate::rss::opt_view(final(self).rss_error) == Some(e@)
                    &&& final(self).rss_selected == old(self).rss_selected
                },
            },
            final(self).song_title@ == old(self).song_title@,
            final(self).scroll_offset == old(self).scroll_offset,
            final(self).tick_counter == old(self).tick_counter,
            final(self).active_pane == old(self).active_pane,
    {
        match result {
            Ok(new_items) => {
                self.rss_items = new_items;
                self.rss_error = None;
                self.rss_selected = Some(0);
            },
            Err(err) => {
                self.rss_items.clear();
                self.rss_error = Some(err);
            },
        }
    }
}

/// The link that Enter opens: that of the selected headline, when the feed pane
/// has the focus and the selection is on a headline.
pub open spec fn selected_link(app: App) -> Option<Seq<char>> {
    if app.active_pane == ActivePane::Left {
        match app.rss_selected {
            Some(i) => if i < app.rss_items@.len() {
                Some(app.rss_items@[i as int].link@)
            } else {
                None
            },
            None => None,
        }
    } else {
        None
    }
}

/// Enter opens a link only while the feed pane has the focus, and there it
/// opens the link of the selected headline (nothing when no headline is
/// selected).
pub proof fn law_enter_opens_only_from_the_feed_pane(app: App)
    ensures
        app.active_pane != ActivePane::Left ==> selected_link(app) is None,
        app.rss_selected is None ==> selected_link(app) is None,
        (app.active_pane == ActivePane::Left && app.rss_selected is Some && app.rss_selected->0
            < app.rss_items@.len()) ==> selected_link(app) == Some(
            app.rss_items@[app.rss_selected->0 as int].link@,
        ),
        key_command(Key::Enter) == Command::OpenSelected,
{
}

/// Moving the focus left and then right (or right and then left) returns it to
/// the pane it started on.
pub proof fn law_focus_moves_undo_each_other(p: ActivePane)
    ensures
        pane_to_right(pane_to_left(p)) == p,
        pane_to_left(pane_to_right(p)) == p,
{
}

/// Three moves in the same direction visit every pane and come back.
pub proof fn law_focus_cycles_through_three_panes(p: ActivePane)
    ensures
        pane_to_right(pane_to_right(pane_to_right(p))) == p,
        pane_to_left(pane_to_left(pane_to_left(p))) == p,
        pane_to_right(p) != p,
        pane_to_right(pane_to_right(p)) != p,
{
}

/// On a nonempty list, moving the selection down undoes moving it up, and
/// moving it up undoes moving it down.
pub proof fn law_scroll_moves_undo_each_other(i: usize, len: nat)
    requires
        i < len,
        len <= usize::MAX,
    ensures
        scrolled_down(scrolled_up(Some(i), len), len) == Some(i),
        scrolled_up(scrolled_down(Some(i), len), len) == Some(i),
{
}

/// On a nonempty list, a selection that is absent or on a headline stays on a
/// headline after any move.
pub proof fn law_scroll_stays_on_list(sel: Option<usize>, len: nat)
    requires
        0 < len <= usize::MAX,
        sel matches Some(i) ==> i < len,
    ensures
        scrolled_up(sel, len) matches Some(j) && j < len,
        scrolled_down(sel, len) matches Some(j) && j < len,
{
}

/// The selection after `n` moves down.
pub open spec fn scrolled_down_times(sel: Option<usize>, len: nat, n: nat) -> Option<usize>
    decreases n,
{
    if n == 0 {
        sel
    } else {
        scrolled_down(scrolled_down_times(sel, len, (n - 1) as nat), len)
    }
}

/// Moving down `n` times from headline `i` lands on headline `(i + n) mod len`:
/// the list wraps around, so `len` moves return to the start.
pub proof fn law_scroll_down_wraps_around(i: usize, len: nat, n: nat)
    requires
        i < len,
        len <= usize::MAX,
    ensures
        scrolled_down_times(Some(i), len, n) == Some(((i + n) % (len as int)) as usize),
    decreases n,
{
    if n == 0 {
        assert((i + 0) % (len as int) == i as int) by {
            vstd::arithmetic::div_mod::lemma_small_mod(i as nat, len);
        }
    } else {
        law_scroll_down_wraps_around(i, len, (n - 1) as nat);
        let a = i + n - 1;
        let r = a % (len as int);
        vstd::arithmetic::div_mod::lemma_mod_bound(a as int, len as int);
        vstd::arithmetic::div_mod::lemma_fundamental_div_mod(a as int, len as int);
        let q = a / (len as int);
        let d = len as int;
        assert(a + 1 == q * d + r + 1 && (q + 1) * d == q * d + d) by (nonlinear_arith)
            requires
                a == d * q + r,
        ;
        if r < len - 1 {
            assert((a + 1) % (len as int) == r + 1) by {
                vstd::arithmetic::div_mod::lemma_fundamental_div_mod_converse(
                    a + 1,
                    len as int,
                    q,
                    r + 1,
                );
            }
        } else {
            assert((a + 1) % (len as int) == 0) by {
                vstd::arithmetic::div_mod::lemma_fundamental_div_mod_converse(
                    a + 1,
                    len as int,
                    q + 1,
                    0,
                );
            }
        }
    }
}

/// The selection after `n` moves up.
pub open spec fn scrolled_up_times(sel: Option<usize>, len: nat, n: nat) -> Option<usize>
    decreases n,
{
    if n == 0 {
        sel
    } else {
        scrolled_up(scrolled_up_times(sel, len, (n - 1) as nat), len)
    }
}

/// Moving up `n` times from headline `i` lands on headline `(i - n) mod len`:
/// `len` moves up return to the start.
pub proof fn law_scroll_up_wraps_around(i: usize, len: nat, n: nat)
    requires
        i < len,
        len <= usize::MAX,
    ensures
        scrolled_up_times(Some(i), len, n) == Some(((i - n) % (len as int)) as usize),
    decreases n,
{
    let d = len as int;
    if n == 0 {
        vstd::arithmetic::div_mod::lemma_small_mod(i as nat, len);
    } else {
        law_scroll_up_wraps_around(i, len, (n - 1) as nat);
        let a = i - (n - 1);
        let r = a % d;
        vstd::arithmetic::div_mod::lemma_mod_bound(a, d);
        vstd::arithmetic::div_mod::lemma_fundamental_div_mod(a, d);
        let q = a / d;
        assert(a - 1 == q * d + r - 1 && (q - 1) * d == q * d - d) by (nonlinear_arith)
            requires
                a == d * q + r,
        ;
        if r > 0 {
            vstd::arithmetic::div_mod::lemma_fundamental_div_mod_converse(a - 1, d, q, r - 1);
        } else {
            vstd::arithmetic::div_mod::lemma_fundamental_div_mod_converse(a - 1, d, q - 1, d - 1);
        }
        assert(a - 1 == i - n);
    }
}

} // verus!
