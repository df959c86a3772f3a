//! The ranked usage history: how often and how recently each emoji was
//! used, kept ordered by use count and then by last use.
use vstd::prelude::*;

use crate::emoji::{RecentEmoji, RecentView};
use crate::engine::{cap, RECENTS_LIMIT};
use crate::search::{lemma_rank_order_compares, rank_order};
use crate::sort::{
    lemma_stable_sort_exists, lemma_stable_sort_same_items, lemma_stable_sorted_is, sort_by_keys, sorted_by,
    stable_sorted,
};
use crate::store::{json_string_list, parse_recent_list};
use crate::text::same_text;

verus! {

broadcast use vstd::std_specs::vec::group_vec_axioms;

/// The ranked history: its entries and the tick of the latest use.
#[derive(Debug)]
pub struct RecentHistory {
    pub recents: Vec<RecentEmoji>,
    pub recent_tick: u64,
}

/// The view of a [`RecentHistory`].
#[verifier::ext_equal]
pub struct HistoryView {
    pub recents: Seq<RecentView>,
    pub recent_tick: u64,
}

impl View for RecentHistory {
    type V = HistoryView;

    open spec fn view(&self) -> HistoryView {
        HistoryView { recents: self.recents.deep_view(), recent_tick: self.recent_tick }
    }
}

/// The index of the first entry for `c` at or after `i`, or -1.
pub open spec fn entry_from(recents: Seq<RecentView>, c: Seq<char>, i: int) -> int
    decreases recents.len() - i,
{
    if i < 0 || i >= recents.len() {
        -1
    } else if recents[i].char == c {
        i
    } else {
        entry_from(recents, c, i + 1)
    }
}

/// The entries after a use of `c` at `tick`: the first entry for `c` counts
/// one more use (saturating) and is stamped `tick`; without an entry, a new
/// one with one use is appended.
pub open spec fn bumped(recents: Seq<RecentView>, c: Seq<char>, tick: u64) -> Seq<RecentView> {
    let i = entry_from(recents, c, 0);
    if i >= 0 {
        recents.update(
            i,
            RecentView { char: recents[i].char, count: recents[i].count.saturating_add(1), last_used: tick },
        )
    } else {
        recents.push(RecentView { char: c, count: 1, last_used: tick })
    }
}

/// The history order: more uses first, then the more recent use first.
pub open spec fn usage_order() -> spec_fn(RecentView) -> int {
    |r: RecentView| rank_order(Some((r.count, r.last_used)))
}

/// The history after a use of `c`: the tick advances (saturating), the use
/// is counted, the entries are ordered by use count and then by last use,
/// both descending, and at most `RECENTS_LIMIT` are kept.
pub open spec fn after_use(h: HistoryView, c: Seq<char>) -> HistoryView {
    let tick = h.recent_tick.saturating_add(1);
    HistoryView {
        recents: cap(stable_sorted(bumped(h.recents, c, tick), usage_order()), RECENTS_LIMIT as nat),
        recent_tick: tick,
    }
}

/// The largest `last_used` stamp of the entries, or 0.
pub open spec fn latest_use(recents: Seq<RecentView>) -> u64
    decreases recents.len(),
{
    if recents.len() == 0 {
        0
    } else if recents.last().last_used >= latest_use(recents.drop_last()) {
        recents.last().last_used
    } else {
        latest_use(recents.drop_last())
    }
}

/// The entries made from a plain list of characters, most recent first:
/// one use each, stamped from `chars.len()` downwards.
pub open spec fn legacy_entries(chars: Seq<Seq<char>>) -> Seq<RecentView> {
    Seq::new(
        chars.len(),
        |i: int| RecentView {
            char: chars[i],
            count: 1,
            last_used: (chars.len() as u64).saturating_sub(i as u64),
        },
    )
}

impl RecentHistory {
    /// An empty history.
    pub fn new() -> (r: RecentHistory)
        ensures
            r@.recents.len() == 0,
            r@.recent_tick == 0,
    {
        let recents: Vec<RecentEmoji> = Vec::new();
        assert(recents.deep_view() =~= Seq::<RecentView>::empty());
        RecentHistory { recents, recent_tick: 0 }
    }

    /// The history of stored entries: the tick resumes at the latest stamp.
    pub fn from_entries(recents: Vec<RecentEmoji>) -> (r: RecentHistory)
        ensures
            r@.recents == recents.deep_view(),
            r@.recent_tick == latest_use(recents.deep_view()),
            forall|i: int| 0 <= i < recents@.len() ==> #[trigger] recents@[i].last_used <= r@.recent_tick,
            recents@.len() > 0 ==> exists|i: int|
                0 <= i < recents@.len() && #[trigger] recents@[i].last_used == r@.recent_tick,
    {
        let mut latest: u64 = 0;
        let mut i: usize = 0;
        while i < recents.len()
            invariant
                i <= recents@.len(),
                latest == latest_use(recents.deep_view().take(i as int)),
            decreases recents@.len() - i,
        {
            assert(recents.deep_view().take(i + 1).drop_last() =~= recents.deep_view().take(i as int));
            if recents[i].last_used >= latest {
                latest = recents[i].last_used;
            }
            i = i + 1;
        }
        assert(recents.deep_view().take(i as int) =~= recents.deep_view());
        proof {
            let dv = recents.deep_view();
            lemma_latest_use_is_max(dv);
            assert(latest == latest_use(dv));
            assert forall|k: int| 0 <= k < recents@.len() implies #[trigger] recents@[k].last_used
                <= latest by {
                assert(dv[k] == recents@[k]@);
                assert(dv[k].last_used <= latest_use(dv));
            }
            if recents@.len() > 0 {
                let k = choose|k: int| 0 <= k < dv.len() && #[trigger] dv[k].last_used == latest_use(dv);
                assert(dv[k] == recents@[k]@);
            }
        }
        RecentHistory { recents, recent_tick: latest }
    }

    /// The history of a stored plain list of characters, most recent first:
    /// each counts one use, stamped from the list length downwards, and the
    /// tick resumes at the list length.
    pub fn from_legacy(chars: Vec<String>) -> (r: RecentHistory)
        ensures
            r@.recents == legacy_entries(chars.deep_view()),
            r@.recent_tick == chars@.len() as u64,
    {
        let tick = chars.len() as u64;
        let mut recents: Vec<RecentEmoji> = Vec::new();
        let mut i: usize = 0;
        while i < chars.len()
            invariant
                i <= chars@.len(),
                tick == chars@.len() as u64,
                recents@.len() == i,
                forall|j: int|
                    0 <= j < i ==> #[trigger] recents@[j]@ == legacy_entries(chars.deep_view())[j],
            decreases chars@.len() - i,
        {
            recents.push(
                RecentEmoji {
                    char: crate::text::copy_str(chars[i].as_str()),
                    count: 1,
                    last_used: tick.saturating_sub(i as u64),
                },
            );
            i = i + 1;
        }
        assert(recents.deep_view() =~= legacy_entries(chars.deep_view()));
        RecentHistory { recents, recent_tick: tick }
    }

    /// The history of a recent-list file in the plain form, a JSON array of
    /// characters; `None` when the text is not one.
    pub fn from_legacy_text(content: &str) -> (r: Option<RecentHistory>)
        ensures
            match json_string_list(content@) {
                Some(chars) => r matches Some(h) && h@.recents == legacy_entries(chars)
                    && h@.recent_tick == chars.len() as u64,
                None => r is None,
            },
    {
        match parse_recent_list(content) {
            Some(chars) => Some(RecentHistory::from_legacy(chars)),
            None => None,
        }
    }

    /// Records a use of `char`: advances the tick, counts the use on its
    /// entry (or adds one), orders the entries by use count and then by last
    /// use, both descending, and keeps at most `RECENTS_LIMIT`.
    pub fn record_usage(&mut self, char: String)
        ensures
            final(self)@ == after_use(old(self)@, char@),
    {
        let ghost start = self@;
        self.recent_tick = self.recent_tick.saturating_add(1);
        let tick = self.recent_tick;
        let mut i: usize = 0;
        while i < self.recents.len() && !same_text(self.recents[i].char.as_str(), char.as_str())
            invariant
                i <= self.recents@.len(),
                self.recents.deep_view() == start.recents,
                self.recent_tick == tick,
                entry_from(start.recents, char@, 0) == entry_from(start.recents, char@, i as int),
            decreases self.recents@.len() - i,
        {
            i = i + 1;
        }
        let ghost bumped_view = bumped(start.recents, char@, tick);
        if i < self.recents.len() {
            let e = RecentEmoji {
                char: crate::text::copy_str(self.recents[i].char.as_str()),
                count: self.recents[i].count.saturating_add(1),
                last_used: tick,
            };
            self.recents.set(i, e);
            assert(self.recents.deep_view() =~= bumped_view);
        } else {
            self.recents.push(RecentEmoji { char, count: 1, last_used: tick });
            assert(self.recents.deep_view() =~= bumped_view);
        }
        let ghost key = usage_order();
        let mut keys: Vec<u128> = Vec::new();
        let mut j: usize = 0;
        while j < self.recents.len()
            invariant
                j <= self.recents@.len(),
                keys@.len() == j,
                key == usage_order(),
                forall|x: int|
                    0 <= x < j ==> keys@[x] as int == key(#[trigger] self.recents@[x].deep_view()),
            decreases self.recents@.len() - j,
        {
            let r = &self.recents[j];
            keys.push(
                (u32::MAX - r.count) as u128 * 0x1_0000_0000_0000_0000u128 + (u64::MAX
                    - r.last_used) as u128,
            );
            j = j + 1;
        }
        sort_by_keys(self.recents.as_mut_slice(), &mut keys, Ghost(key));
        proof {
            lemma_stable_sorted_is(bumped_view, key, self.recents.deep_view());
        }
        let ghost sorted = self.recents.deep_view();
        self.recents.truncate(RECENTS_LIMIT);
        assert(self.recents.deep_view() =~= cap(sorted, RECENTS_LIMIT as nat));
        assert(self@ =~= after_use(start, char@));
    }
}

/// After a use, the history is ordered by use count and then by last use,
/// both descending, holds at most `RECENTS_LIMIT` entries, and its tick has
/// advanced by one unless it was already at its maximum.
pub proof fn lemma_after_use_ordered(h: HistoryView, c: Seq<char>)
    ensures
        sorted_by(after_use(h, c).recents, usage_order()),
        after_use(h, c).recents.len() <= RECENTS_LIMIT,
        h.recent_tick < u64::MAX ==> after_use(h, c).recent_tick == h.recent_tick + 1,
{
    let tick = h.recent_tick.saturating_add(1);
    let b = bumped(h.recents, c, tick);
    lemma_stable_sort_exists(b, usage_order());
    let s = stable_sorted(b, usage_order());
    let out = after_use(h, c).recents;
    assert forall|i: int, j: int| 0 <= i < j < out.len() implies usage_order()(out[i]) <= usage_order()(out[j]) by {
        assert(out[i] == s[i] && out[j] == s[j]);
    }
}

/// After a use, the entries are ordered by their actual use counts and then
/// by their last uses: of two entries, the earlier one has the larger
/// count, or the same count and the later (or same) last use.
pub proof fn lemma_after_use_ranks_by_count_then_recency(h: HistoryView, c: Seq<char>, i: int, j: int)
    requires
        0 <= i < j < after_use(h, c).recents.len(),
    ensures
        after_use(h, c).recents[i].count > after_use(h, c).recents[j].count || (
        after_use(h, c).recents[i].count == after_use(h, c).recents[j].count
            && after_use(h, c).recents[i].last_used >= after_use(h, c).recents[j].last_used),
{
    lemma_after_use_ordered(h, c);
    let out = after_use(h, c).recents;
    assert(usage_order()(out[i]) <= usage_order()(out[j]));
    lemma_rank_order_compares(
        Some((out[i].count, out[i].last_used)),
        Some((out[j].count, out[j].last_used)),
    );
}

/// The tick a stored history resumes at is the latest stamp among all its
/// entries: no entry was used later, and when there are entries one of them
/// carries it; an empty history resumes at 0.
pub proof fn lemma_latest_use_is_max(recents: Seq<RecentView>)
    ensures
        forall|i: int| 0 <= i < recents.len() ==> #[trigger] recents[i].last_used <= latest_use(recents),
        recents.len() > 0 ==> exists|i: int|
            0 <= i < recents.len() && #[trigger] recents[i].last_used == latest_use(recents),
        recents.len() == 0 ==> latest_use(recents) == 0,
    decreases recents.len(),
{
    if recents.len() > 0 {
        let d = recents.drop_last();
        lemma_latest_use_is_max(d);
        let n = recents.len() - 1;
        assert forall|i: int| 0 <= i < recents.len() implies #[trigger] recents[i].last_used <= latest_use(
            recents,
        ) by {
            if i < n {
                assert(recents[i] == d[i]);
            }
        }
        if recents.last().last_used >= latest_use(d) {
            assert(recents[n].last_used == latest_use(recents));
        } else {
            let k = choose|k: int| 0 <= k < d.len() && #[trigger] d[k].last_used == latest_use(d);
            assert(recents[k] == d[k]);
        }
    }
}

/// The characters of the entries, in their order.
pub open spec fn entry_chars(recents: Seq<RecentView>) -> Seq<Seq<char>> {
    recents.map_values(|r: RecentView| r.char)
}

proof fn lemma_entry_from_result(recents: Seq<RecentView>, c: Seq<char>, k: int)
    requires
        0 <= k,
    ensures
        entry_from(recents, c, k) >= 0 ==> k <= entry_from(recents, c, k) < recents.len()
            && recents[entry_from(recents, c, k)].char == c,
        entry_from(recents, c, k) < 0 ==> entry_from(recents, c, k) == -1 && forall|j: int|
            k <= j < recents.len() ==> recents[j].char != c,
    decreases recents.len() - k,
{
    if k < recents.len() && recents[k].char != c {
        lemma_entry_from_result(recents, c, k + 1);
    }
}

/// Bumping keeps the characters distinct and adds at most `c`.
proof fn lemma_bumped_chars(recents: Seq<RecentView>, c: Seq<char>, tick: u64)
    requires
        entry_chars(recents).no_duplicates(),
    ensures
        entry_chars(bumped(recents, c, tick)).no_duplicates(),
        bumped(recents, c, tick).len() >= 1,
        forall|i: int|
            0 <= i < bumped(recents, c, tick).len() ==> (#[trigger] bumped(recents, c, tick)[i]).char
                == c || entry_chars(recents).contains(bumped(recents, c, tick)[i].char),
{
    lemma_entry_from_result(recents, c, 0);
    let b = bumped(recents, c, tick);
    let i = entry_from(recents, c, 0);
    if i >= 0 {
        assert(entry_chars(b) =~= entry_chars(recents));
        assert forall|j: int| 0 <= j < b.len() implies (#[trigger] b[j]).char == c
            || entry_chars(recents).contains(b[j].char) by {
            assert(entry_chars(recents)[j] == b[j].char);
        }
    } else {
        assert(entry_chars(b) =~= entry_chars(recents).push(c));
        assert forall|j: int, l: int|
            0 <= j < entry_chars(b).len() && 0 <= l < entry_chars(b).len() && j != l implies entry_chars(
            b,
        )[j] != entry_chars(b)[l] by {
            if j < recents.len() && l < recents.len() {
                assert(entry_chars(b)[j] == entry_chars(recents)[j]);
                assert(entry_chars(b)[l] == entry_chars(recents)[l]);
            } else if j < recents.len() {
                assert(entry_chars(b)[j] == recents[j].char);
            } else {
                assert(entry_chars(b)[l] == recents[l].char);
            }
        }
        assert forall|j: int| 0 <= j < b.len() implies (#[trigger] b[j]).char == c
            || entry_chars(recents).contains(b[j].char) by {
            if j < recents.len() {
                assert(entry_chars(recents)[j] == b[j].char);
            }
        }
    }
}

/// A reordering of entries with distinct characters keeps them distinct
/// and holds only characters of the original entries.
proof fn lemma_permuted_chars(b: Seq<RecentView>, s: Seq<RecentView>)
    requires
        entry_chars(b).no_duplicates(),
        s.to_multiset() == b.to_multiset(),
    ensures
        entry_chars(s).no_duplicates(),
        s.len() == b.len(),
        forall|i: int| 0 <= i < s.len() ==> entry_chars(b).contains(#[trigger] s[i].char),
{
    broadcast use vstd::seq_lib::to_multiset_contains, vstd::seq_lib::to_multiset_len;

    assert(b.no_duplicates()) by {
        assert forall|i: int, j: int| 0 <= i < b.len() && 0 <= j < b.len() && i != j implies b[i]
            != b[j] by {
            assert(entry_chars(b)[i] == b[i].char);
            assert(entry_chars(b)[j] == b[j].char);
        }
    }
    b.lemma_multiset_has_no_duplicates();
    s.lemma_multiset_has_no_duplicates_conv();
    assert(s.len() == s.to_multiset().len());
    assert(b.len() == b.to_multiset().len());
    assert forall|i: int| 0 <= i < s.len() implies entry_chars(b).contains(#[trigger] s[i].char) by {
        assert(s.contains(s[i]));
        assert(b.to_multiset().count(s[i]) > 0);
        assert(b.contains(s[i]));
        let p = choose|p: int| 0 <= p < b.len() && b[p] == s[i];
        assert(entry_chars(b)[p] == s[i].char);
    }
    assert forall|i: int, j: int|
        0 <= i < entry_chars(s).len() && 0 <= j < entry_chars(s).len() && i != j implies entry_chars(
        s,
    )[i] != entry_chars(s)[j] by {
        if s[i].char == s[j].char {
            assert(s.contains(s[i]) && s.contains(s[j]));
            assert(b.to_multiset().count(s[i]) > 0 && b.to_multiset().count(s[j]) > 0);
            assert(b.contains(s[i]) && b.contains(s[j]));
            let p = choose|p: int| 0 <= p < b.len() && b[p] == s[i];
            let q = choose|q: int| 0 <= q < b.len() && b[q] == s[j];
            assert(entry_chars(b)[p] == entry_chars(b)[q]);
            assert(s[i] == s[j]);
        }
    }
}

/// Recording a use keeps each emoji once. When the entries hold distinct
/// characters before a use of `c`, they still do after it; afterwards the
/// history holds between one and `RECENTS_LIMIT` entries, each for `c` or
/// for a character it held before.
pub proof fn lemma_after_use_distinct(h: HistoryView, c: Seq<char>)
    requires
        entry_chars(h.recents).no_duplicates(),
    ensures
        entry_chars(after_use(h, c).recents).no_duplicates(),
        1 <= after_use(h, c).recents.len() <= RECENTS_LIMIT,
        forall|i: int|
            0 <= i < after_use(h, c).recents.len() ==> (#[trigger] after_use(h, c).recents[i]).char
                == c || entry_chars(h.recents).contains(after_use(h, c).recents[i].char),
{
    let tick = h.recent_tick.saturating_add(1);
    let b = bumped(h.recents, c, tick);
    lemma_bumped_chars(h.recents, c, tick);
    lemma_stable_sort_exists(b, usage_order());
    let s = stable_sorted(b, usage_order());
    lemma_stable_sort_same_items(b, usage_order(), s);
    lemma_permuted_chars(b, s);
    let out = after_use(h, c).recents;
    assert(out == cap(s, RECENTS_LIMIT as nat));
    assert(out.len() <= s.len());
    assert forall|i: int| 0 <= i < out.len() implies out[i] == s[i] by {}
    assert forall|i: int, j: int|
        0 <= i < entry_chars(out).len() && 0 <= j < entry_chars(out).len() && i != j implies entry_chars(
        out,
    )[i] != entry_chars(out)[j] by {
        assert(entry_chars(out)[i] == entry_chars(s)[i]);
        assert(entry_chars(out)[j] == entry_chars(s)[j]);
    }
    assert forall|i: int| 0 <= i < out.len() implies (#[trigger] out[i]).char == c
        || entry_chars(h.recents).contains(out[i].char) by {
        assert(out[i] == s[i]);
        assert(entry_chars(b).contains(s[i].char));
        let p = choose|p: int| 0 <= p < entry_chars(b).len() && entry_chars(b)[p] == s[i].char;
        assert(b[p].char == s[i].char);
    }
}

/// What a use does to the entries, when each character has one entry: the
/// tick advances by one (saturating); every entry afterwards is either the
/// entry of `c`, stamped with the new tick and counting one use more than
/// before (one, if `c` had no entry), or an entry of another character
/// exactly as it was.
pub proof fn lemma_after_use_entries(h: HistoryView, c: Seq<char>)
    requires
        entry_chars(h.recents).no_duplicates(),
    ensures
        after_use(h, c).recent_tick == h.recent_tick.saturating_add(1),
        forall|i: int|
            0 <= i < after_use(h, c).recents.len() && (#[trigger] after_use(h, c).recents[i]).char == c
                ==> after_use(h, c).recents[i].last_used == after_use(h, c).recent_tick && (
            (exists|k: int|
                0 <= k < h.recents.len() && h.recents[k].char == c && after_use(h, c).recents[i].count
                    == h.recents[k].count.saturating_add(1)) || ((forall|k: int|
                0 <= k < h.recents.len() ==> h.recents[k].char != c) && after_use(h, c).recents[i].count
                == 1)),
        forall|i: int|
            0 <= i < after_use(h, c).recents.len() && (#[trigger] after_use(h, c).recents[i]).char != c
                ==> h.recents.contains(after_use(h, c).recents[i]),
{
    broadcast use vstd::seq_lib::to_multiset_contains;

    let tick = h.recent_tick.saturating_add(1);
    let b = bumped(h.recents, c, tick);
    lemma_bumped_chars(h.recents, c, tick);
    lemma_entry_from_result(h.recents, c, 0);
    lemma_stable_sort_exists(b, usage_order());
    let s = stable_sorted(b, usage_order());
    lemma_stable_sort_same_items(b, usage_order(), s);
    let out = after_use(h, c).recents;
    assert(out == cap(s, RECENTS_LIMIT as nat));
    let e = entry_from(h.recents, c, 0);
    assert forall|i: int| 0 <= i < out.len() implies b.contains(#[trigger] out[i]) by {
        assert(out[i] == s[i]);
        assert(s.contains(s[i]));
        assert(s.to_multiset().count(s[i]) > 0);
    }
    assert forall|i: int|
        0 <= i < out.len() && (#[trigger] out[i]).char == c implies out[i].last_used == tick && (
    (exists|k: int|
        0 <= k < h.recents.len() && h.recents[k].char == c && out[i].count
            == h.recents[k].count.saturating_add(1)) || ((forall|k: int|
        0 <= k < h.recents.len() ==> h.recents[k].char != c) && out[i].count == 1)) by {
        assert(b.contains(out[i]));
        let p = choose|p: int| 0 <= p < b.len() && b[p] == out[i];
        if e >= 0 {
            if p != e {
                assert(b[p] == h.recents[p]);
                assert(entry_chars(h.recents)[p] == h.recents[p].char);
                assert(entry_chars(h.recents)[e] == h.recents[e].char);
            }
            assert(p == e);
        } else {
            if p < h.recents.len() {
                assert(b[p] == h.recents[p]);
            }
        }
    }
    assert forall|i: int|
        0 <= i < out.len() && (#[trigger] out[i]).char != c implies h.recents.contains(out[i]) by {
        assert(b.contains(out[i]));
        let p = choose|p: int| 0 <= p < b.len() && b[p] == out[i];
        if e >= 0 {
            assert(p != e);
            assert(b[p] == h.recents[p]);
        } else {
            assert(p < h.recents.len());
            assert(b[p] == h.recents[p]);
        }
    }
}

/// A use of an emoji already in the history counts one more use on its
/// entry rather than adding a second entry: the entries before ordering
/// and truncation are the old ones with that entry bumped.
pub proof fn lemma_use_of_known_emoji(h: HistoryView, c: Seq<char>, i: int)
    requires
        0 <= i < h.recents.len(),
        h.recents[i].char == c,
        forall|j: int| 0 <= j < i ==> h.recents[j].char != c,
    ensures
        bumped(h.recents, c, h.recent_tick.saturating_add(1)).len() == h.recents.len(),
        bumped(h.recents, c, h.recent_tick.saturating_add(1))[i].count == h.recents[i].count.saturating_add(1),
        bumped(h.recents, c, h.recent_tick.saturating_add(1))[i].last_used == h.recent_tick.saturating_add(1),
{
    lemma_entry_from_finds(h.recents, c, 0, i);
}

proof fn lemma_entry_from_finds(recents: Seq<RecentView>, c: Seq<char>, k: int, i: int)
    requires
        0 <= k <= i < recents.len(),
        recents[i].char == c,
        forall|j: int| 0 <= j < i ==> recents[j].char != c,
    ensures
        entry_from(recents, c, k) == i,
    decreases i - k,
{
    if k < i {
        lemma_entry_from_finds(recents, c, k + 1, i);
    }
}

} // verus!
