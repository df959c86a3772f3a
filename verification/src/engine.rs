//! The input-method engine: the composition buffer, the key handling state
//! machine, the selection in the result list and the recent list.
//!
//! Everything here is a pure state transition; sending IBus signals, saving
//! the recent list and forwarding results to the popup are left to the
//! caller, which receives what to send in the returned values.
use vstd::prelude::*;

use crate::emoji::{DatabaseView, Emoji, EmojiDatabase, EmojiView, Settings, trigger_of};
use crate::search::database_search;
use crate::emoji::RecentView;
use crate::history::{after_use, entry_chars, lemma_after_use_distinct, legacy_entries, HistoryView, RecentHistory};
use crate::store::json_string_list;
use crate::text::{first_char, pop_char, push_char, str_lower, strip_leading, trim_start_char, same_text};

verus! {

broadcast use vstd::std_specs::vec::group_vec_axioms;

/// How many recently used emojis are kept.
pub const RECENTS_LIMIT: usize = 20;

/// IBus modifier bit of the Super key.
pub const SUPER_MASK: u32 = 0x400_0000;

/// IBus modifier bit of a key release.
pub const RELEASE_MASK: u32 = 0x4000_0000;

/// Key value of `;`.
pub const KEY_SEMICOLON: u32 = 0x3b;

/// Key value of Escape.
pub const KEY_ESCAPE: u32 = 0xff1b;

/// Key value of BackSpace.
pub const KEY_BACKSPACE: u32 = 0xff08;

/// Key value of Return.
pub const KEY_RETURN: u32 = 0xff0d;

/// Key value of Up.
pub const KEY_UP: u32 = 0xff52;

/// Key value of Down.
pub const KEY_DOWN: u32 = 0xff54;

/// The input-method engine.
#[derive(Debug)]
pub struct EmojiEngine {
    /// Composition buffer: what the user is currently typing.
    pub buffer: String,
    /// Whether the engine is currently active.
    pub enabled: bool,
    /// The emoji database.
    pub database: EmojiDatabase,
    /// Current selection index in the results.
    pub selected_index: usize,
    /// Recently used emoji characters, in the order of the ranked history.
    pub recents: Vec<String>,
    /// The ranked usage history behind the recent list.
    pub history: RecentHistory,
    /// Settings (trigger character).
    pub settings: Settings,
}

impl Default for EmojiEngine {
    fn default() -> (r: EmojiEngine)
        ensures
            r@.buffer.len() == 0,
            !r@.enabled,
            r@.database.emojis.len() == 0,
            r@.selected_index == 0,
            r@.recents.len() == 0,
            r@.history.recents.len() == 0,
            r@.history.recent_tick == 0,
            r@.trigger_char == seq![':'],
    {
        EmojiEngine::new()
    }
}

/// The view of an [`EmojiEngine`].
#[verifier::ext_equal]
pub struct EngineView {
    pub buffer: Seq<char>,
    pub enabled: bool,
    pub database: DatabaseView,
    pub selected_index: usize,
    pub recents: Seq<Seq<char>>,
    pub history: HistoryView,
    pub trigger_char: Seq<char>,
}

impl View for EmojiEngine {
    type V = EngineView;

    open spec fn view(&self) -> EngineView {
        EngineView {
            buffer: self.buffer@,
            enabled: self.enabled,
            database: self.database@,
            selected_index: self.selected_index,
            recents: self.recents.deep_view(),
            history: self.history@,
            trigger_char: self.settings.trigger_char@,
        }
    }
}

/// The trigger character of the engine's settings.
pub open spec fn trigger(v: EngineView) -> char {
    trigger_of(v.trigger_char)
}

/// The buffer holds a composition: it is non-empty and begins with the
/// trigger character.
pub open spec fn composing(v: EngineView) -> bool {
    v.buffer.len() > 0 && v.buffer[0] == trigger(v)
}

/// The query of the composition: the buffer without its leading trigger
/// characters.
pub open spec fn current_query(v: EngineView) -> Seq<char> {
    strip_leading(v.buffer, trigger(v))
}

/// What a database search with `query` and the recent list returns.
pub open spec fn search_results(db: DatabaseView, query: Seq<char>, recents: Seq<Seq<char>>) -> Seq<
    EmojiView,
> {
    if query.len() == 0 {
        Seq::empty()
    } else {
        database_search(db.emojis, str_lower(query), recents)
    }
}

/// The results listed for the current composition.
pub open spec fn current_results(v: EngineView) -> Seq<EmojiView> {
    search_results(v.database, current_query(v), v.recents)
}

/// The first `n` items of `s`, or all of them when there are fewer.
pub open spec fn cap<A>(s: Seq<A>, n: nat) -> Seq<A> {
    if s.len() <= n {
        s
    } else {
        s.take(n as int)
    }
}

/// The characters of the history's entries, in the history's order.
pub open spec fn ranked_chars(h: HistoryView) -> Seq<Seq<char>> {
    h.recents.map_values(|r: RecentView| r.char)
}

/// The state with history `h`, the recent list following it.
pub open spec fn with_history(v: EngineView, h: HistoryView) -> EngineView {
    EngineView { history: h, recents: ranked_chars(h), ..v }
}

/// The state after a use of `c`: the history counts the use and the recent
/// list follows the history's new order.
pub open spec fn used(v: EngineView, c: Seq<char>) -> EngineView {
    with_history(v, after_use(v.history, c))
}

/// The state after loading the text `content` of a recent-list file in its
/// plain form: a JSON array of characters, most recent first, becomes a
/// history of one use each (see `legacy_entries`); a text that is not such
/// an array changes nothing.
pub open spec fn with_loaded_recents(v: EngineView, content: Seq<char>) -> EngineView {
    match json_string_list(content) {
        Some(chars) => with_history(
            v,
            HistoryView { recents: legacy_entries(chars), recent_tick: chars.len() as u64 },
        ),
        None => v,
    }
}

/// The buffer of the fixed shortcut: with the trigger `:`, typing `:` after
/// it inserts [`shortcut_emoji`].
pub open spec fn shortcut_buffer() -> Seq<char> {
    seq![':', 'e', 'm', 'o', 'j', 'i']
}

/// The emoji that the fixed shortcut `:emoji:` inserts: 🙂.
pub open spec fn shortcut_emoji() -> Seq<char> {
    seq!['\u{1F642}']
}

/// The state with an empty buffer.
pub open spec fn reset(v: EngineView) -> EngineView {
    EngineView { buffer: Seq::empty(), ..v }
}

/// The state with another buffer.
pub open spec fn with_buffer(v: EngineView, b: Seq<char>) -> EngineView {
    EngineView { buffer: b, ..v }
}

/// The state with another selection.
pub open spec fn with_selection(v: EngineView, i: usize) -> EngineView {
    EngineView { selected_index: i, ..v }
}

/// The key is a Super+`;` press.
pub open spec fn is_super_semicolon(keyval: u32, state: u32) -> bool {
    (state & SUPER_MASK) != 0 && (state & RELEASE_MASK) == 0 && keyval == KEY_SEMICOLON
}

/// What a key event does: the next state, whether the key was consumed, and
/// the text to commit.
pub open spec fn key_event(pre: EngineView, keyval: u32, state: u32) -> (
    EngineView,
    bool,
    Option<Seq<char>>,
) {
    let t = trigger(pre);
    let b = pre.buffer;
    if !pre.enabled {
        (pre, false, None)
    } else if is_super_semicolon(keyval, state) {
        (if b.len() == 0 {
            with_buffer(pre, seq![t])
        } else {
            pre
        }, true, None)
    } else if 0x20 <= keyval <= 0x7e {
        let c = keyval as char;
        if c == ':' && t == ':' && b == shortcut_buffer() {
            (reset(pre), true, Some(shortcut_emoji()))
        } else if c == t && b.len() == 0 {
            (with_buffer(pre, seq![c]), true, None)
        } else if b.len() > 0 {
            (with_buffer(pre, b.push(c)), true, None)
        } else {
            (pre, false, None)
        }
    } else if keyval == KEY_ESCAPE {
        (reset(pre), true, None)
    } else if keyval == KEY_BACKSPACE {
        if b.len() > 0 {
            (with_buffer(pre, b.drop_last()), true, None)
        } else {
            (pre, false, None)
        }
    } else if keyval == KEY_RETURN {
        let results = current_results(pre);
        if composing(pre) && pre.selected_index < results.len() {
            let text = results[pre.selected_index as int].char;
            (
                reset(used(pre, text)),
                true,
                Some(text),
            )
        } else {
            (pre, false, None)
        }
    } else if keyval == KEY_UP {
        let count = current_results(pre).len();
        if composing(pre) && count > 0 {
            (
                with_selection(pre, ((pre.selected_index + count - 1) % (count as int)) as usize),
                true,
                None,
            )
        } else {
            (pre, false, None)
        }
    } else if keyval == KEY_DOWN {
        let count = current_results(pre).len();
        if composing(pre) && count > 0 {
            (with_selection(pre, ((pre.selected_index + 1) % (count as int)) as usize), true, None)
        } else {
            (pre, false, None)
        }
    } else {
        (if b.len() > 0 {
            reset(pre)
        } else {
            pre
        }, false, None)
    }
}

/// The character view of an optional text.
pub open spec fn text_of(t: Option<String>) -> Option<Seq<char>> {
    match t {
        Some(s) => Some(s@),
        None => None,
    }
}

/// What the engine reports after handling a key press: the key-handling
/// result, the preedit text to show, the result list for the popup and the
/// text to commit.
#[derive(Debug)]
pub struct KeyEventOutcome {
    /// Whether the key was consumed.
    pub handled: bool,
    /// The preedit text: the composition buffer.
    pub preedit_text: String,
    /// The preedit cursor position: the buffer's length in bytes.
    pub preedit_cursor: u32,
    /// Whether the preedit text is visible: the buffer is non-empty.
    pub preedit_visible: bool,
    /// Whether the result list is announced on the input bus: a composition
    /// is under way.
    pub show_results: bool,
    /// The result list (empty outside a composition).
    pub results: Vec<Emoji>,
    /// The selected index in the result list.
    pub selected: u32,
    /// The text to commit, if any.
    pub commit: Option<String>,
}

/// The state after a key press has been handled and the selection has been
/// brought back into the result list: a selection past the end of a
/// non-empty list returns to the first entry.
pub open spec fn settled(mid: EngineView) -> EngineView {
    let count = current_results(mid).len();
    if composing(mid) && mid.selected_index >= count && count > 0 {
        with_selection(mid, 0)
    } else {
        mid
    }
}

/// The buffer length in bytes, as the cursor position reports it.
pub open spec fn byte_len(s: Seq<char>) -> u32 {
    (vstd::utf8::encode_utf8(s).len() as usize) as u32
}

/// What a key press reports, given the state `mid` after its handling.
pub open spec fn outcome_matches(
    o: KeyEventOutcome,
    mid: EngineView,
    handled: bool,
    commit: Option<Seq<char>>,
) -> bool {
    &&& o.handled == handled
    &&& text_of(o.commit) == commit
    &&& o.preedit_text@ == mid.buffer
    &&& o.preedit_cursor == byte_len(mid.buffer)
    &&& o.preedit_visible == (mid.buffer.len() > 0)
    &&& o.show_results == composing(mid)
    &&& composing(mid) ==> o.results.deep_view() == current_results(mid) && o.selected == settled(
        mid,
    ).selected_index as u32
    &&& !composing(mid) ==> o.results@.len() == 0 && o.selected == 0
}

/// The characters of the history's entries, in its order.
fn history_chars(h: &RecentHistory) -> (r: Vec<String>)
    ensures
        r.deep_view() == ranked_chars(h@),
{
    let mut out: Vec<String> = Vec::new();
    let mut i: usize = 0;
    while i < h.recents.len()
        invariant
            i <= h.recents@.len(),
            out@.len() == i,
            forall|j: int| 0 <= j < i ==> #[trigger] out@[j]@ == h.recents@[j].char@,
        decreases h.recents@.len() - i,
    {
        out.push(crate::text::copy_str(h.recents[i].char.as_str()));
        i = i + 1;
    }
    assert(out.deep_view() =~= ranked_chars(h@));
    out
}

/// The character typed by a printable key value.
fn key_char(keyval: u32) -> (c: char)
    requires
        0x20 <= keyval <= 0x7e,
    ensures
        c == keyval as char,
{
    (keyval as u8) as char
}

impl EmojiEngine {
    /// A disabled engine with an empty buffer, an empty database, no recent
    /// emojis and the default settings.
    pub fn new() -> (r: EmojiEngine)
        ensures
            r@.buffer.len() == 0,
            !r@.enabled,
            r@.database.emojis.len() == 0,
            r@.database.version.len() == 0,
            r@.selected_index == 0,
            r@.recents.len() == 0,
            r@.history.recents.len() == 0,
            r@.history.recent_tick == 0,
            r@.trigger_char == seq![':'],
    {
        Self::with_database(EmojiDatabase::default())
    }

    /// A disabled engine over `database`, with an empty buffer, no recent
    /// emojis and the default settings.
    pub fn with_database(database: EmojiDatabase) -> (r: EmojiEngine)
        ensures
            r@.buffer.len() == 0,
            !r@.enabled,
            r@.database == database@,
            r@.selected_index == 0,
            r@.recents.len() == 0,
            r@.history.recents.len() == 0,
            r@.history.recent_tick == 0,
            r@.trigger_char == seq![':'],
    {
        let recents: Vec<String> = Vec::new();
        assert(recents.deep_view() =~= Seq::<Seq<char>>::empty());
        EmojiEngine {
            buffer: String::new(),
            enabled: false,
            database,
            selected_index: 0,
            recents,
            history: RecentHistory::new(),
            settings: Settings::default(),
        }
    }

    /// Makes `history` the engine's history; the recent list follows it.
    pub fn load_history(&mut self, history: RecentHistory)
        ensures
            final(self)@ == with_history(old(self)@, history@),
    {
        self.recents = history_chars(&history);
        self.history = history;
    }

    /// Records a use of `char` in the ranked history (see
    /// `RecentHistory::record_usage`); the recent list becomes the history's
    /// characters in its new order.
    pub fn record_usage(&mut self, char: String)
        ensures
            final(self)@ == used(old(self)@, char@),
    {
        self.history.record_usage(char);
        self.recents = history_chars(&self.history);
    }

    /// Takes the history from the text of a recent-list file in its plain
    /// form, a JSON array of characters, most recent first. When the text is
    /// not such an array the engine is left as it was and `false` is
    /// returned.
    pub fn load_recents(&mut self, content: &str) -> (loaded: bool)
        ensures
            loaded == json_string_list(content@) is Some,
            final(self)@ == with_loaded_recents(old(self)@, content@),
    {
        match RecentHistory::from_legacy_text(content) {
            Some(history) => {
                self.load_history(history);
                true
            },
            None => false,
        }
    }

    /// Clears the composition buffer.
    pub fn internal_reset(&mut self)
        ensures
            final(self)@ == reset(old(self)@),
    {
        self.buffer = String::new();
    }

    /// Activates the engine and clears the buffer.
    pub fn internal_enable(&mut self)
        ensures
            final(self)@ == (EngineView { enabled: true, ..reset(old(self)@) }),
    {
        self.enabled = true;
        self.internal_reset();
    }

    /// Deactivates the engine and clears the buffer.
    pub fn internal_disable(&mut self)
        ensures
            final(self)@ == (EngineView { enabled: false, ..reset(old(self)@) }),
    {
        self.enabled = false;
        self.internal_reset();
    }

    /// The results listed for the current composition, with the query.
    fn composition_results(&self) -> (r: Vec<Emoji>)
        ensures
            r.deep_view() == search_results(self.database@, current_query(self@), self@.recents),
    {
        let trigger = self.settings.trigger();
        let query = trim_start_char(self.buffer.as_str(), trigger);
        let r = self.database.search(query.as_str(), self.recents.as_slice());
        proof {
            if query@.len() == 0 {
                assert(r.deep_view() =~= Seq::<EmojiView>::empty());
            }
        }
        r
    }

    /// Whether the buffer holds the fixed shortcut `:emoji`.
    fn buffer_is_shortcut(&self) -> (r: bool)
        ensures
            r == (self@.buffer == shortcut_buffer()),
    {
        let shortcut = ":emoji";
        proof {
            reveal_strlit(":emoji");
        }
        assert(shortcut@ =~= shortcut_buffer());
        same_text(self.buffer.as_str(), shortcut)
    }

    /// Whether the buffer is non-empty and begins with the trigger.
    fn is_composing(&self) -> (r: bool)
        ensures
            r == composing(self@),
    {
        let trigger = self.settings.trigger();
        match first_char(self.buffer.as_str()) {
            Some(c) => c == trigger,
            None => false,
        }
    }

    /// Processes a key event: returns whether the key was consumed and the
    /// text to commit, if any.
    ///
    /// A disabled engine consumes nothing. Super+`;` opens a composition; a
    /// printable key starts one when it is the trigger and the buffer is
    /// empty, and extends a composition that is under way; with the trigger
    /// `:`, `:` typed after `:emoji` commits 🙂 instead. Escape cancels, BackSpace removes the
    /// last character, Return commits the selected result and records its
    /// use in the ranked history, Up and Down move the
    /// selection through the results, cyclically. Any other key cancels a
    /// composition and is passed on.
    pub fn internal_process_key_event(&mut self, keyval: u32, keycode: u32, state: u32) -> (r: (
        bool,
        Option<String>,
    ))
        ensures
            final(self)@ == key_event(old(self)@, keyval, state).0,
            r.0 == key_event(old(self)@, keyval, state).1,
            text_of(r.1) == key_event(old(self)@, keyval, state).2,
    {
        if !self.enabled {
            return (false, None);
        }
        let trigger = self.settings.trigger();
        if (state & SUPER_MASK) != 0 && (state & RELEASE_MASK) == 0 && keyval == KEY_SEMICOLON {
            if self.buffer.as_str().is_empty() {
                push_char(&mut self.buffer, trigger);
                assert(self.buffer@ =~= seq![trigger]);
            }
            return (true, None);
        }
        if 0x20 <= keyval && keyval <= 0x7e {
            let c = key_char(keyval);
            if c == ':' && trigger == ':' && self.buffer_is_shortcut() {
                self.internal_reset();
                let mut text = String::new();
                push_char(&mut text, '\u{1F642}');
                assert(text@ =~= shortcut_emoji());
                return (true, Some(text));
            }
            if c == trigger && self.buffer.as_str().is_empty() {
                push_char(&mut self.buffer, c);
                assert(self.buffer@ =~= seq![c]);
                return (true, None);
            }
            if !self.buffer.as_str().is_empty() {
                push_char(&mut self.buffer, c);
                return (true, None);
            }
            return (false, None);
        }
        if keyval == KEY_ESCAPE {
            self.internal_reset();
            (true, None)
        } else if keyval == KEY_BACKSPACE {
            if !self.buffer.as_str().is_empty() {
                let _ = pop_char(&mut self.buffer);
                if self.buffer.as_str().is_empty() {
                    self.internal_reset();
                }
                (true, None)
            } else {
                (false, None)
            }
        } else if keyval == KEY_RETURN {
            if self.is_composing() {
                let results = self.composition_results();
                if self.selected_index < results.len() {
                    let text = crate::text::copy_str(results[self.selected_index].char.as_str());
                    self.record_usage(crate::text::copy_str(text.as_str()));
                    self.internal_reset();
                    return (true, Some(text));
                }
            }
            (false, None)
        } else if keyval == KEY_UP {
            if self.is_composing() {
                let count = self.composition_results().len();
                if count > 0 {
                    let s = self.selected_index % count;
                    let next = if s == 0 {
                        count - 1
                    } else {
                        s - 1
                    };
                    assert(next as int == (self.selected_index + count - 1) % (count as int))
                        by (nonlinear_arith)
                        requires
                            count > 0,
                            s == self.selected_index % count,
                            next == (if s == 0 { count - 1 } else { s - 1 }),
                    ;
                    self.selected_index = next;
                    return (true, None);
                }
            }
            (false, None)
        } else if keyval == KEY_DOWN {
            if self.is_composing() {
                let count = self.composition_results().len();
                if count > 0 {
                    let s = self.selected_index % count;
                    let next = if s == count - 1 {
                        0
                    } else {
                        s + 1
                    };
                    assert(next as int == (self.selected_index + 1) % (count as int))
                        by (nonlinear_arith)
                        requires
                            count > 0,
                            s == self.selected_index % count,
                            next == (if s == count - 1 { 0 } else { s + 1 }),
                    ;
                    self.selected_index = next;
                    return (true, None);
                }
            }
            (false, None)
        } else {
            if !self.buffer.as_str().is_empty() {
                self.internal_reset();
            }
            (false, None)
        }
    }

    /// Handles a key event as the input bus delivers it. A key release is
    /// not handled and reports nothing (`None`). A key press goes through
    /// `internal_process_key_event` with its modifier state; then, during a
    /// composition, a selection past the end of the non-empty result list
    /// returns to the first entry. The outcome carries the preedit update,
    /// the result list and the text to commit.
    pub fn process_key_event(&mut self, keyval: u32, keycode: u32, state: u32) -> (r: Option<
        KeyEventOutcome,
    >)
        ensures
            (state & RELEASE_MASK) != 0 ==> r is None && final(self)@ == old(self)@,
            (state & RELEASE_MASK) == 0 ==> (r matches Some(o) && final(self)@ == settled(
                key_event(old(self)@, keyval, state).0,
            ) && outcome_matches(
                o,
                key_event(old(self)@, keyval, state).0,
                key_event(old(self)@, keyval, state).1,
                key_event(old(self)@, keyval, state).2,
            )),
    {
        if (state & RELEASE_MASK) != 0 {
            return None;
        }
        let (handled, commit) = self.internal_process_key_event(keyval, keycode, state);
        let preedit_text = crate::text::copy_str(self.buffer.as_str());
        let preedit_cursor = self.buffer.as_str().len() as u32;
        let preedit_visible = !self.buffer.as_str().is_empty();
        let show_results = self.is_composing();
        if show_results {
            let results = self.composition_results();
            let count = results.len();
            if self.selected_index >= count && count > 0 {
                self.selected_index = 0;
            }
            let selected = self.selected_index as u32;
            Some(
                KeyEventOutcome {
                    handled,
                    preedit_text,
                    preedit_cursor,
                    preedit_visible,
                    show_results,
                    results,
                    selected,
                    commit,
                },
            )
        } else {
            Some(
                KeyEventOutcome {
                    handled,
                    preedit_text,
                    preedit_cursor,
                    preedit_visible,
                    show_results,
                    results: Vec::new(),
                    selected: 0,
                    commit,
                },
            )
        }
    }

    /// Commits an emoji chosen in the popup: the use of a non-empty text is
    /// recorded (see `record_usage`) and the text returned for committing; the buffer is cleared
    /// either way.
    pub fn commit_emoji(&mut self, text: String) -> (r: Option<String>)
        ensures
            text@.len() > 0 ==> final(self)@ == reset(used(old(self)@, text@)) && text_of(r)
                == Some(text@),
            text@.len() == 0 ==> final(self)@ == reset(old(self)@) && r is None,
    {
        let mut out = None;
        if !text.as_str().is_empty() {
            self.record_usage(crate::text::copy_str(text.as_str()));
            out = Some(text);
        }
        self.internal_reset();
        out
    }
}

/// The buffer is empty or begins with the trigger character.
pub open spec fn buffer_well_formed(v: EngineView) -> bool {
    v.buffer.len() == 0 || v.buffer[0] == trigger(v)
}

/// A disabled engine consumes no key and does not change.
pub proof fn lemma_disabled_engine_ignores_keys(pre: EngineView, keyval: u32, state: u32)
    requires
        !pre.enabled,
    ensures
        key_event(pre, keyval, state) == (pre, false, None::<Seq<char>>),
{
}

/// Every key event keeps the buffer empty or beginning with the trigger
/// character.
pub proof fn lemma_key_event_keeps_buffer_well_formed(pre: EngineView, keyval: u32, state: u32)
    requires
        buffer_well_formed(pre),
    ensures
        buffer_well_formed(key_event(pre, keyval, state).0),
{
}

/// Key events leave the database, the settings and the enabled flag alone.
pub proof fn lemma_key_event_keeps_configuration(pre: EngineView, keyval: u32, state: u32)
    ensures
        key_event(pre, keyval, state).0.database == pre.database,
        key_event(pre, keyval, state).0.trigger_char == pre.trigger_char,
        key_event(pre, keyval, state).0.enabled == pre.enabled,
{
}

/// Up undoes Down: moving the selection down and then up returns to the
/// selected entry.
pub proof fn lemma_up_undoes_down(pre: EngineView, s1: u32, s2: u32)
    requires
        pre.enabled,
        composing(pre),
        pre.selected_index < current_results(pre).len(),
        current_results(pre).len() <= usize::MAX,
    ensures
        key_event(key_event(pre, KEY_DOWN, s1).0, KEY_UP, s2).0 == pre,
        key_event(pre, KEY_DOWN, s1).1,
{
    let count = current_results(pre).len();
    let sel = pre.selected_index as int;
    let mid = key_event(pre, KEY_DOWN, s1).0;
    assert(mid == with_selection(pre, ((sel + 1) % (count as int)) as usize));
    assert(current_results(mid) == current_results(pre));
    if sel + 1 < count {
        vstd::arithmetic::div_mod::lemma_small_mod((sel + 1) as nat, count as nat);
        assert(mid.selected_index == sel + 1);
        vstd::arithmetic::div_mod::lemma_mod_add_multiples_vanish(sel, count as int);
        vstd::arithmetic::div_mod::lemma_small_mod(sel as nat, count as nat);
        assert((mid.selected_index + count - 1) % (count as int) == sel);
    } else {
        vstd::arithmetic::div_mod::lemma_mod_self_0(count as int);
        assert(mid.selected_index == 0);
        vstd::arithmetic::div_mod::lemma_small_mod((count - 1) as nat, count as nat);
        assert((mid.selected_index + count - 1) % (count as int) == sel);
    }
    assert(key_event(mid, KEY_UP, s2).0 =~= pre);
}

/// Down undoes Up: moving the selection up and then down returns to the
/// selected entry.
pub proof fn lemma_down_undoes_up(pre: EngineView, s1: u32, s2: u32)
    requires
        pre.enabled,
        composing(pre),
        pre.selected_index < current_results(pre).len(),
        current_results(pre).len() <= usize::MAX,
    ensures
        key_event(key_event(pre, KEY_UP, s1).0, KEY_DOWN, s2).0 == pre,
        key_event(pre, KEY_UP, s1).1,
{
    let count = current_results(pre).len();
    let sel = pre.selected_index as int;
    let mid = key_event(pre, KEY_UP, s1).0;
    assert(mid == with_selection(pre, ((sel + count - 1) % (count as int)) as usize));
    assert(current_results(mid) == current_results(pre));
    if sel > 0 {
        vstd::arithmetic::div_mod::lemma_mod_add_multiples_vanish(sel - 1, count as int);
        vstd::arithmetic::div_mod::lemma_small_mod((sel - 1) as nat, count as nat);
        assert(mid.selected_index == sel - 1);
        vstd::arithmetic::div_mod::lemma_small_mod(sel as nat, count as nat);
        assert((mid.selected_index + 1) % (count as int) == sel);
    } else {
        vstd::arithmetic::div_mod::lemma_small_mod((count - 1) as nat, count as nat);
        assert(mid.selected_index == count - 1);
        vstd::arithmetic::div_mod::lemma_mod_self_0(count as int);
        assert((mid.selected_index + 1) % (count as int) == sel);
    }
    assert(key_event(mid, KEY_DOWN, s2).0 =~= pre);
}

/// The selection stays inside a non-empty result list under Up and Down.
pub proof fn lemma_navigation_stays_in_results(pre: EngineView, keyval: u32, state: u32)
    requires
        pre.enabled,
        composing(pre),
        current_results(pre).len() > 0,
        current_results(pre).len() <= usize::MAX,
        keyval == KEY_UP || keyval == KEY_DOWN,
    ensures
        key_event(pre, keyval, state).0.selected_index < current_results(pre).len(),
{
    let count = current_results(pre).len() as int;
    if keyval == KEY_UP {
        vstd::arithmetic::div_mod::lemma_mod_bound(pre.selected_index + count - 1, count);
    } else {
        vstd::arithmetic::div_mod::lemma_mod_bound(pre.selected_index + 1, count);
    }
}

/// A key commits text in two ways only. Return commits the selected
/// result: the text is the character of the selected entry, the use is
/// counted in the history, the recent list follows the history and the
/// buffer is cleared. With the trigger `:`, `:` typed after `:emoji`
/// commits 🙂 and clears the buffer, changing nothing else. Either way the key is consumed.
pub proof fn lemma_commit_records_selected(pre: EngineView, keyval: u32, state: u32)
    requires
        key_event(pre, keyval, state).2 is Some,
    ensures
        keyval == KEY_RETURN || (keyval == 0x3a && trigger(pre) == ':' && pre.buffer
            == shortcut_buffer()),
        keyval == KEY_RETURN ==> pre.selected_index < current_results(pre).len()
            && key_event(pre, keyval, state).2 == Some(
            current_results(pre)[pre.selected_index as int].char,
        ) && key_event(pre, keyval, state).0 == reset(
            used(pre, current_results(pre)[pre.selected_index as int].char),
        ),
        keyval != KEY_RETURN ==> key_event(pre, keyval, state).2 == Some(shortcut_emoji())
            && key_event(pre, keyval, state).0 == reset(pre),
        key_event(pre, keyval, state).0.buffer.len() == 0,
        key_event(pre, keyval, state).1,
{
}

/// Recording a use keeps each emoji once on the recent list: when the
/// history's characters are distinct before a use of `c`, the recent list
/// after it holds distinct characters, between one and `RECENTS_LIMIT` of
/// them, each `c` or a character of the history before.
pub proof fn lemma_record_usage_keeps_recents_distinct(v: EngineView, c: Seq<char>)
    requires
        ranked_chars(v.history).no_duplicates(),
    ensures
        used(v, c).recents.no_duplicates(),
        1 <= used(v, c).recents.len() <= RECENTS_LIMIT,
        forall|i: int|
            0 <= i < used(v, c).recents.len() ==> #[trigger] used(v, c).recents[i] == c
                || ranked_chars(v.history).contains(used(v, c).recents[i]),
{
    let h2 = after_use(v.history, c);
    assert(ranked_chars(v.history) =~= entry_chars(v.history.recents));
    assert(ranked_chars(h2) =~= entry_chars(h2.recents));
    lemma_after_use_distinct(v.history, c);
    assert forall|i: int| 0 <= i < used(v, c).recents.len() implies #[trigger] used(v, c).recents[i]
        == c || ranked_chars(v.history).contains(used(v, c).recents[i]) by {
        assert(used(v, c).recents[i] == h2.recents[i].char);
    }
}

/// The recent list follows the history: when it lists the history's
/// characters in the history's order before a key event, it still does
/// after it.
pub proof fn lemma_key_event_keeps_recents_ranked(pre: EngineView, keyval: u32, state: u32)
    requires
        pre.recents == ranked_chars(pre.history),
    ensures
        key_event(pre, keyval, state).0.recents == ranked_chars(key_event(pre, keyval, state).0.history),
{
}

/// BackSpace on a non-empty buffer of an enabled engine removes exactly its
/// last character: the new buffer is one character shorter and, with that
/// character put back, is the old buffer. The key is consumed, nothing is
/// committed and nothing else changes.
pub proof fn lemma_backspace_removes_last_char(pre: EngineView, state: u32)
    requires
        pre.enabled,
        pre.buffer.len() > 0,
    ensures
        key_event(pre, KEY_BACKSPACE, state).1,
        key_event(pre, KEY_BACKSPACE, state).2 is None,
        key_event(pre, KEY_BACKSPACE, state).0.buffer.len() + 1 == pre.buffer.len(),
        key_event(pre, KEY_BACKSPACE, state).0.buffer.push(pre.buffer.last()) == pre.buffer,
        key_event(pre, KEY_BACKSPACE, state).0 == (EngineView {
            buffer: key_event(pre, KEY_BACKSPACE, state).0.buffer,
            ..pre
        }),
{
    assert(pre.buffer.drop_last().push(pre.buffer.last()) =~= pre.buffer);
}

/// BackSpace undoes typing: a printable key typed into a composition under
/// way (other than the `:` that completes the `:emoji:` shortcut), followed
/// by BackSpace, gives back the state before the key.
pub proof fn lemma_backspace_undoes_typing(pre: EngineView, keyval: u32, s1: u32, s2: u32)
    requires
        pre.enabled,
        pre.buffer.len() > 0,
        0x20 <= keyval <= 0x7e,
        !is_super_semicolon(keyval, s1),
        !(keyval == 0x3a && trigger(pre) == ':' && pre.buffer == shortcut_buffer()),
    ensures
        key_event(pre, keyval, s1).1,
        key_event(key_event(pre, keyval, s1).0, KEY_BACKSPACE, s2).0 == pre,
{
    let c = keyval as char;
    assert(key_event(pre, keyval, s1).0 == with_buffer(pre, pre.buffer.push(c)));
    assert(pre.buffer.push(c).drop_last() =~= pre.buffer);
}

/// With an empty buffer, typing the trigger character opens a composition
/// holding just the trigger, and any other printable key is passed on
/// without changing the engine.
pub proof fn lemma_trigger_opens_composition(pre: EngineView, keyval: u32, state: u32)
    requires
        pre.enabled,
        pre.buffer.len() == 0,
        0x20 <= keyval <= 0x7e,
        !is_super_semicolon(keyval, state),
    ensures
        keyval as char == trigger(pre) ==> key_event(pre, keyval, state) == (
            EngineView { buffer: seq![trigger(pre)], ..pre },
            true,
            None::<Seq<char>>,
        ) && composing(key_event(pre, keyval, state).0),
        keyval as char != trigger(pre) ==> key_event(pre, keyval, state) == (pre, false, None::<Seq<char>>),
{
    assert(pre.buffer != shortcut_buffer());
}

/// Escape always empties the buffer of an enabled engine.
pub proof fn lemma_escape_cancels(pre: EngineView, state: u32)
    requires
        pre.enabled,
        !is_super_semicolon(KEY_ESCAPE, state),
    ensures
        key_event(pre, KEY_ESCAPE, state).0 == reset(pre),
        key_event(pre, KEY_ESCAPE, state).1,
{
}

/// After a key press during a composition with results, the selection is
/// inside the result list.
pub proof fn lemma_settled_selection_in_results(mid: EngineView)
    requires
        composing(mid),
        current_results(mid).len() > 0,
    ensures
        settled(mid).selected_index < current_results(mid).len(),
        current_results(settled(mid)) == current_results(mid),
{
}

} // verus!
