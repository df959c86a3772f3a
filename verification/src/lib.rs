//! Composition, search and ranking logic of an IBus emoji input method.
use vstd::prelude::*;

pub mod emoji;
pub mod engine;
pub mod history;
pub mod ibus;
pub mod picker;
pub mod search;
pub mod sort;
pub mod store;
pub mod text;

pub use emoji::{Emoji, EmojiDatabase, RecentEmoji, Settings};
pub use engine::{EmojiEngine, KeyEventOutcome};
pub use history::RecentHistory;

verus! {

} // verus!
