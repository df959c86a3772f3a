//! The data the engine works on: emojis, the database, settings and the
//! usage records of the ranked history, each with its mathematical view.
use vstd::prelude::*;

use crate::text::{copy_str, first_char};

verus! {

broadcast use vstd::std_specs::vec::group_vec_axioms;

/// One emoji of the database.
#[derive(Debug)]
pub struct Emoji {
    pub char: String,
    pub name: String,
    pub keywords: Vec<String>,
    pub variants: Vec<String>,
}

/// The view of an [`Emoji`]: its texts as character sequences.
pub struct EmojiView {
    pub char: Seq<char>,
    pub name: Seq<char>,
    pub keywords: Seq<Seq<char>>,
    pub variants: Seq<Seq<char>>,
}

impl View for Emoji {
    type V = EmojiView;

    open spec fn view(&self) -> EmojiView {
        EmojiView {
            char: self.char@,
            name: self.name@,
            keywords: self.keywords.deep_view(),
            variants: self.variants.deep_view(),
        }
    }
}

impl DeepView for Emoji {
    type V = EmojiView;

    open spec fn deep_view(&self) -> EmojiView {
        self.view()
    }
}

/// A copy of a list of strings.
pub fn copy_strings(v: &Vec<String>) -> (r: Vec<String>)
    ensures
        r.deep_view() == v.deep_view(),
{
    let mut out: Vec<String> = Vec::new();
    let mut i: usize = 0;
    while i < v.len()
        invariant
            i <= v@.len(),
            out@.len() == i,
            forall|j: int| 0 <= j < i ==> #[trigger] out@[j]@ == v@[j]@,
        decreases v@.len() - i,
    {
        out.push(copy_str(v[i].as_str()));
        i = i + 1;
    }
    assert(out.deep_view() =~= v.deep_view());
    out
}

impl Emoji {
    /// A copy of this emoji.
    pub fn duplicate(&self) -> (r: Emoji)
        ensures
            r@ == self@,
    {
        Emoji {
            char: copy_str(self.char.as_str()),
            name: copy_str(self.name.as_str()),
            keywords: copy_strings(&self.keywords),
            variants: copy_strings(&self.variants),
        }
    }
}

/// The emoji database: a version tag and the emojis in their listed order.
#[derive(Debug)]
pub struct EmojiDatabase {
    pub version: String,
    pub emojis: Vec<Emoji>,
}

/// The view of an [`EmojiDatabase`].
pub struct DatabaseView {
    pub version: Seq<char>,
    pub emojis: Seq<EmojiView>,
}

impl View for EmojiDatabase {
    type V = DatabaseView;

    open spec fn view(&self) -> DatabaseView {
        DatabaseView { version: self.version@, emojis: self.emojis.deep_view() }
    }
}

impl Default for EmojiDatabase {
    fn default() -> (r: EmojiDatabase)
        ensures
            r@.version.len() == 0,
            r@.emojis.len() == 0,
    {
        EmojiDatabase { version: String::new(), emojis: Vec::new() }
    }
}

/// User settings of the engine.
#[derive(Debug)]
pub struct Settings {
    pub trigger_char: String,
}

/// The trigger character the settings select: the first character of the
/// configured trigger, or `:` when it is empty.
pub open spec fn trigger_of(trigger_char: Seq<char>) -> char {
    if trigger_char.len() > 0 {
        trigger_char[0]
    } else {
        ':'
    }
}

impl Default for Settings {
    fn default() -> (r: Settings)
        ensures
            r.trigger_char@ == seq![':'],
    {
        let mut t = String::new();
        crate::text::push_char(&mut t, ':');
        Settings { trigger_char: t }
    }
}

impl Settings {
    /// The trigger character: the first character of `trigger_char`, or `:`.
    pub fn trigger(&self) -> (c: char)
        ensures
            c == trigger_of(self.trigger_char@),
    {
        match first_char(self.trigger_char.as_str()) {
            Some(c) => c,
            None => ':',
        }
    }

    /// The settings for a stored trigger value: the value itself, or the
    /// default settings when it is empty.
    pub fn from_stored_trigger(trigger_char: String) -> (r: Settings)
        ensures
            trigger_char@.len() > 0 ==> r.trigger_char@ == trigger_char@,
            trigger_char@.len() == 0 ==> r.trigger_char@ == seq![':'],
    {
        if trigger_char.as_str().is_empty() {
            Settings::default()
        } else {
            Settings { trigger_char }
        }
    }
}

/// One entry of the ranked usage history.
#[derive(Debug)]
pub struct RecentEmoji {
    pub char: String,
    pub count: u32,
    pub last_used: u64,
}

/// The view of a [`RecentEmoji`].
pub struct RecentView {
    pub char: Seq<char>,
    pub count: u32,
    pub last_used: u64,
}

impl View for RecentEmoji {
    type V = RecentView;

    open spec fn view(&self) -> RecentView {
        RecentView { char: self.char@, count: self.count, last_used: self.last_used }
    }
}

impl DeepView for RecentEmoji {
    type V = RecentView;

    open spec fn deep_view(&self) -> RecentView {
        self.view()
    }
}

} // verus!
