//! Emoji search: query normalization, prefix matching, variant expansion and
//! ordering of the results by the user's history.
use vstd::prelude::*;

use crate::emoji::{Emoji, EmojiDatabase, EmojiView, RecentEmoji, RecentView};
use crate::sort::{
    is_stable_sort, lemma_constant_key_keeps_order, lemma_filter_none, lemma_stable_sort_exists,
    lemma_stable_sort_same_items, lemma_stable_sorted_empty, lemma_stable_sorted_is, sort_by_keys,
    sorted_by, stable_sorted,
};
use crate::text::{
    ascii_lower, has_prefix, is_ascii_text, is_white_space, lemma_trim_ends, lemma_trim_keeps_ascii,
    lowercase, same_text, starts_with, str_lower, trim, trim_end_seq, trim_seq, trim_start_seq,
};

verus! {

broadcast use vstd::std_specs::vec::group_vec_axioms;

// ---------------------------------------------------------------------------
// Matching
// ---------------------------------------------------------------------------
/// An already lower-cased name or keyword list matches a (lower-cased,
/// non-empty) query when the name or one of the keywords starts with it.
pub open spec fn lowered_match(name: Seq<char>, keywords: Seq<Seq<char>>, query: Seq<char>) -> bool {
    query.len() > 0 && (has_prefix(name, query) || exists|i: int|
        0 <= i < keywords.len() && has_prefix(#[trigger] keywords[i], query))
}

/// The keywords of an emoji, lower-cased.
pub open spec fn lowered_keywords(keywords: Seq<Seq<char>>) -> Seq<Seq<char>> {
    keywords.map_values(|k: Seq<char>| str_lower(k))
}

/// An emoji matches a normalized query when its lower-cased name or one of
/// its lower-cased keywords starts with the query; an empty query matches
/// nothing.
pub open spec fn query_matches(e: EmojiView, query: Seq<char>) -> bool {
    lowered_match(str_lower(e.name), lowered_keywords(e.keywords), query)
}

/// The query form used for matching: trimmed, then lower-cased.
pub open spec fn normalized(query: Seq<char>) -> Seq<char> {
    str_lower(trim_seq(query))
}

/// The normalized form of an ASCII query: trimmed, then ASCII lower-cased.
pub open spec fn ascii_normalized(query: Seq<char>) -> Seq<char> {
    ascii_lower(trim_seq(query))
}

/// The query trimmed of surrounding white space and lower-cased; for an
/// ASCII query, its ASCII letters lower-cased.
pub fn normalize_query(query: &str) -> (r: String)
    ensures
        r@ == normalized(query@),
        is_ascii_text(query@) ==> r@ == ascii_normalized(query@),
{
    let t = trim(query);
    proof {
        if is_ascii_text(query@) {
            lemma_trim_keeps_ascii(query@);
        }
    }
    lowercase(t.as_str())
}

proof fn lemma_ascii_lower_keeps(s: Seq<char>)
    requires
        is_ascii_text(s),
    ensures
        is_ascii_text(ascii_lower(s)),
        ascii_lower(ascii_lower(s)) == ascii_lower(s),
        s.len() > 0 && !is_white_space(s[0]) ==> !is_white_space(ascii_lower(s)[0]),
        s.len() > 0 && !is_white_space(s.last()) ==> !is_white_space(ascii_lower(s).last()),
{
    let u = ascii_lower(s);
    assert forall|i: int| 0 <= i < u.len() implies (#[trigger] u[i] as u32) < 0x80 by {
        assert((s[i] as u32) < 0x80);
    }
    assert(ascii_lower(u) =~= u);
}

/// Normalizing an ASCII query twice gives what normalizing it once gives:
/// the normalized form is ASCII, has no white space at its ends and no
/// upper-case letter.
pub proof fn lemma_normalize_twice_ascii(query: Seq<char>)
    requires
        is_ascii_text(query),
    ensures
        is_ascii_text(ascii_normalized(query)),
        ascii_normalized(ascii_normalized(query)) == ascii_normalized(query),
{
    let t = trim_seq(query);
    lemma_trim_keeps_ascii(query);
    lemma_trim_ends(query);
    lemma_ascii_lower_keeps(t);
    let u = ascii_lower(t);
    assert(trim_start_seq(u) == u);
    assert(trim_end_seq(u) == u);
    assert(trim_seq(u) == u);
}

/// Letter case does not matter in an ASCII query: two ASCII queries that
/// are equal once their letters are lower-cased find the same emojis in the
/// same order (see `EmojiDatabase::search`).
pub proof fn lemma_ascii_query_case_insensitive(
    emojis: Seq<EmojiView>,
    q1: Seq<char>,
    q2: Seq<char>,
    recents: Seq<Seq<char>>,
)
    requires
        is_ascii_text(q1),
        is_ascii_text(q2),
        ascii_lower(q1) == ascii_lower(q2),
    ensures
        q1.len() == q2.len(),
        database_search(emojis, ascii_lower(q1), recents) == database_search(
            emojis,
            ascii_lower(q2),
            recents,
        ),
{
    assert(ascii_lower(q1).len() == q1.len());
}

/// Whether a lower-cased name or one of the lower-cased keywords starts
/// with the query (never for an empty query).
pub fn prefix_matches(lowered_name: &str, lowered_keywords: &Vec<String>, query: &str) -> (r: bool)
    ensures
        r == lowered_match(lowered_name@, lowered_keywords.deep_view(), query@),
{
    if query.is_empty() {
        return false;
    }
    if starts_with(lowered_name, query) {
        return true;
    }
    let mut i: usize = 0;
    while i < lowered_keywords.len()
        invariant
            i <= lowered_keywords@.len(),
            query@.len() > 0,
            forall|j: int|
                0 <= j < i ==> !has_prefix(#[trigger] lowered_keywords.deep_view()[j], query@),
        decreases lowered_keywords@.len() - i,
    {
        if starts_with(lowered_keywords[i].as_str(), query) {
            let ghost kws = lowered_keywords.deep_view();
            assert(has_prefix(kws[i as int], query@));
            assert(exists|j: int| 0 <= j < kws.len() && has_prefix(#[trigger] kws[j], query@));
            return true;
        }
        i = i + 1;
    }
    false
}

/// Whether `emoji` matches the normalized query: its name or one of its
/// keywords, lower-cased, starts with the query. An empty query matches
/// nothing.
pub fn matches_query(emoji: &Emoji, normalized_query: &str) -> (r: bool)
    ensures
        r == query_matches(emoji@, normalized_query@),
{
    let name = lowercase(emoji.name.as_str());
    let mut keywords: Vec<String> = Vec::new();
    let mut i: usize = 0;
    while i < emoji.keywords.len()
        invariant
            i <= emoji.keywords@.len(),
            keywords@.len() == i,
            forall|j: int|
                0 <= j < i ==> #[trigger] keywords@[j]@ == str_lower(emoji.keywords@[j]@),
        decreases emoji.keywords@.len() - i,
    {
        keywords.push(lowercase(emoji.keywords[i].as_str()));
        i = i + 1;
    }
    assert(keywords.deep_view() =~= lowered_keywords(emoji@.keywords));
    prefix_matches(name.as_str(), &keywords, normalized_query)
}

// ---------------------------------------------------------------------------
// Ordering by the ranked history
// ---------------------------------------------------------------------------
/// The `(count, last_used)` rank of `c` in the history: that of the last
/// entry for `c`, or none.
pub open spec fn history_rank(recents: Seq<RecentView>, c: Seq<char>) -> Option<(u32, u64)>
    decreases recents.len(),
{
    if recents.len() == 0 {
        None
    } else if recents.last().char == c {
        Some((recents.last().count, recents.last().last_used))
    } else {
        history_rank(recents.drop_last(), c)
    }
}

/// The use count of a rank (zero for none).
pub open spec fn use_count(rank: Option<(u32, u64)>) -> int {
    match rank {
        Some((count, _)) => count as int,
        None => 0,
    }
}

/// Sort key for an optional rank: ranked items first, by count and then by
/// last use, both descending; unranked items after them.
pub open spec fn rank_order(rank: Option<(u32, u64)>) -> int {
    match rank {
        Some((count, last_used)) => (u32::MAX - count) * 0x1_0000_0000_0000_0000 + (u64::MAX
            - last_used),
        None => 0x1_0000_0000_0000_0000_0000_0000,
    }
}

/// The ordering key of an emoji under a ranked history.
pub open spec fn history_key(recents: Seq<RecentView>) -> spec_fn(EmojiView) -> int {
    |e: EmojiView| rank_order(history_rank(recents, e.char))
}

fn history_rank_of(recents: &[RecentEmoji], c: &String) -> (r: Option<(u32, u64)>)
    ensures
        r == history_rank(recents.deep_view(), c@),
{
    let mut found: Option<(u32, u64)> = None;
    let mut i: usize = 0;
    while i < recents.len()
        invariant
            i <= recents@.len(),
            found == history_rank(recents.deep_view().take(i as int), c@),
        decreases recents@.len() - i,
    {
        if same_text(recents[i].char.as_str(), c.as_str()) {
            found = Some((recents[i].count, recents[i].last_used));
        }
        assert(recents.deep_view().take(i + 1).drop_last() =~= recents.deep_view().take(i as int));
        i = i + 1;
    }
    assert(recents.deep_view().take(i as int) =~= recents.deep_view());
    found
}

fn rank_order_of(rank: Option<(u32, u64)>) -> (r: u128)
    ensures
        r as int == rank_order(rank),
{
    match rank {
        Some((count, last_used)) => (u32::MAX - count) as u128 * 0x1_0000_0000_0000_0000u128 + (
        u64::MAX - last_used) as u128,
        None => 0x1_0000_0000_0000_0000_0000_0000u128,
    }
}

/// Orders `results` by the history: emojis with a history entry first, the
/// more often used before the less, and among equally often used the more
/// recently used first; emojis without an entry after them. Emojis that
/// compare equal keep their order.
pub fn sort_by_recents(results: &mut [Emoji], recents: &[RecentEmoji])
    ensures
        is_stable_sort(old(results).deep_view(), history_key(recents.deep_view()), final(results).deep_view()),
{
    let ghost key = history_key(recents.deep_view());
    let mut keys: Vec<u128> = Vec::new();
    let mut i: usize = 0;
    while i < results.len()
        invariant
            i <= results@.len(),
            keys@.len() == i,
            key == history_key(recents.deep_view()),
            forall|j: int|
                0 <= j < i ==> keys@[j] as int == key(#[trigger] results@[j].deep_view()),
        decreases results@.len() - i,
    {
        let rank = history_rank_of(recents, &results[i].char);
        keys.push(rank_order_of(rank));
        i = i + 1;
    }
    sort_by_keys(results, &mut keys, Ghost(key));
}

/// The emojis of the database that match the normalized query, in database
/// order.
pub open spec fn matching(emojis: Seq<EmojiView>, query: Seq<char>) -> Seq<EmojiView> {
    emojis.filter(|e: EmojiView| query_matches(e, query))
}

/// The result of a search with an already normalized query: the matching
/// emojis ordered by the history.
pub open spec fn ranked_search(emojis: Seq<EmojiView>, query: Seq<char>, recents: Seq<RecentView>) -> Seq<
    EmojiView,
> {
    stable_sorted(matching(emojis, query), history_key(recents))
}

/// Searches the database with a query that is already normalized: the
/// matching emojis, ordered by the history.
pub fn search_normalized(database: &EmojiDatabase, normalized_query: &str, recents: &[RecentEmoji]) -> (r:
    Vec<Emoji>)
    ensures
        is_stable_sort(
            matching(database@.emojis, normalized_query@),
            history_key(recents.deep_view()),
            r.deep_view(),
        ),
        r.deep_view() == ranked_search(database@.emojis, normalized_query@, recents.deep_view()),
{
    let ghost emojis = database@.emojis;
    let ghost pred = |e: EmojiView| query_matches(e, normalized_query@);
    let mut results: Vec<Emoji> = Vec::new();
    let mut i: usize = 0;
    while i < database.emojis.len()
        invariant
            i <= database.emojis@.len(),
            emojis == database@.emojis,
            pred == (|e: EmojiView| query_matches(e, normalized_query@)),
            results.deep_view() == emojis.take(i as int).filter(pred),
        decreases database.emojis@.len() - i,
    {
        let e = &database.emojis[i];
        assert(emojis.take(i + 1).drop_last() =~= emojis.take(i as int));
        reveal(Seq::filter);
        if matches_query(e, normalized_query) {
            let ghost before = results.deep_view();
            results.push(e.duplicate());
            assert(results.deep_view() =~= before.push(emojis[i as int]));
        }
        i = i + 1;
    }
    assert(emojis.take(i as int) =~= emojis);
    let ghost unsorted = results.deep_view();
    sort_by_recents(results.as_mut_slice(), recents);
    proof {
        lemma_stable_sorted_is(unsorted, history_key(recents.deep_view()), results.deep_view());
    }
    results
}

/// Searches the database: the emojis whose name or a keyword starts with the
/// trimmed, lower-cased query, ordered by the history. An empty query finds
/// nothing.
pub fn search(database: &EmojiDatabase, query: &str, recents: &[RecentEmoji]) -> (r: Vec<Emoji>)
    ensures
        r.deep_view() == ranked_search(database@.emojis, normalized(query@), recents.deep_view()),
{
    let normalized_query = normalize_query(query);
    if normalized_query.as_str().is_empty() {
        proof {
            let pred = |e: EmojiView| query_matches(e, normalized(query@));
            lemma_filter_none(database@.emojis, pred);
            assert(matching(database@.emojis, normalized(query@)) == Seq::<EmojiView>::empty());
            lemma_stable_sorted_empty(history_key(recents.deep_view()));
        }
        let empty: Vec<Emoji> = Vec::new();
        assert(empty.deep_view() =~= Seq::<EmojiView>::empty());
        return empty;
    }
    search_normalized(database, normalized_query.as_str(), recents)
}

// ---------------------------------------------------------------------------
// Database search with variants, ordered by the recent list
// ---------------------------------------------------------------------------
/// An emoji followed by one entry per variant: the variant character with
/// the emoji's name and keywords and no variants of its own.
pub open spec fn with_variants(e: EmojiView) -> Seq<EmojiView> {
    seq![e] + e.variants.map_values(
        |v: Seq<char>| EmojiView { char: v, name: e.name, keywords: e.keywords, variants: Seq::empty() },
    )
}

/// The matching emojis of the list, each followed by its variants, in list
/// order.
pub open spec fn expanded_matches(emojis: Seq<EmojiView>, query: Seq<char>) -> Seq<EmojiView>
    decreases emojis.len(),
{
    if emojis.len() == 0 {
        Seq::empty()
    } else if query_matches(emojis.last(), query) {
        expanded_matches(emojis.drop_last(), query) + with_variants(emojis.last())
    } else {
        expanded_matches(emojis.drop_last(), query)
    }
}

/// The index of the first occurrence of `c` at or after `i`, or `usize::MAX`.
pub open spec fn position_from(recents: Seq<Seq<char>>, c: Seq<char>, i: int) -> int
    decreases recents.len() - i,
{
    if i < 0 || i >= recents.len() {
        usize::MAX as int
    } else if recents[i] == c {
        i
    } else {
        position_from(recents, c, i + 1)
    }
}

/// The ordering key of an emoji under a recent list: the index of the first
/// recent entry equal to its character, or `usize::MAX`.
pub open spec fn recency_key(recents: Seq<Seq<char>>) -> spec_fn(EmojiView) -> int {
    |e: EmojiView| position_from(recents, e.char, 0)
}

/// The result of a database search with a lower-cased query.
pub open spec fn database_search(emojis: Seq<EmojiView>, lowered_query: Seq<char>, recents: Seq<Seq<char>>) -> Seq<
    EmojiView,
> {
    stable_sorted(expanded_matches(emojis, lowered_query), recency_key(recents))
}

fn recent_position(recents: &[String], c: &String) -> (r: usize)
    ensures
        r as int == position_from(recents.deep_view(), c@, 0),
{
    let mut i: usize = 0;
    while i < recents.len()
        invariant
            i <= recents@.len(),
            position_from(recents.deep_view(), c@, 0) == position_from(recents.deep_view(), c@, i as int),
        decreases recents@.len() - i,
    {
        if same_text(recents[i].as_str(), c.as_str()) {
            return i;
        }
        i = i + 1;
    }
    usize::MAX
}

/// Pushes the entries of one matching emoji: the emoji itself, then one
/// entry per variant.
fn push_with_variants(results: &mut Vec<Emoji>, e: &Emoji)
    ensures
        final(results).deep_view() == old(results).deep_view() + with_variants(e@),
{
    let ghost start = results.deep_view();
    results.push(e.duplicate());
    let mut k: usize = 0;
    while k < e.variants.len()
        invariant
            k <= e.variants@.len(),
            results.deep_view() == start + with_variants(e@).take(k + 1),
        decreases e.variants@.len() - k,
    {
        let ghost before = results.deep_view();
        let ve = Emoji {
            char: crate::text::copy_str(e.variants[k].as_str()),
            name: crate::text::copy_str(e.name.as_str()),
            keywords: crate::emoji::copy_strings(&e.keywords),
            variants: Vec::new(),
        };
        assert(ve.variants.deep_view() =~= Seq::<Seq<char>>::empty());
        assert(ve@ == with_variants(e@)[k + 1]);
        results.push(ve);
        assert(results.deep_view() =~= before.push(with_variants(e@)[k + 1]));
        assert(with_variants(e@).take(k + 2) =~= with_variants(e@).take(k + 1).push(with_variants(e@)[k + 1]));
        k = k + 1;
    }
    assert(with_variants(e@).take(k + 1) =~= with_variants(e@));
}

impl EmojiDatabase {
    /// Searches with an already lower-cased query: every matching emoji
    /// followed by its variants, then ordered so that emojis on the recent
    /// list come first, in the order of the list.
    pub fn search_lowered(&self, lowered_query: &str, recents: &[String]) -> (r: Vec<Emoji>)
        ensures
            is_stable_sort(
                expanded_matches(self@.emojis, lowered_query@),
                recency_key(recents.deep_view()),
                r.deep_view(),
            ),
            r.deep_view() == database_search(self@.emojis, lowered_query@, recents.deep_view()),
    {
        let ghost emojis = self@.emojis;
        let mut results: Vec<Emoji> = Vec::new();
        let mut i: usize = 0;
        while i < self.emojis.len()
            invariant
                i <= self.emojis@.len(),
                emojis == self@.emojis,
                results.deep_view() == expanded_matches(emojis.take(i as int), lowered_query@),
            decreases self.emojis@.len() - i,
        {
            let e = &self.emojis[i];
            assert(emojis.take(i + 1).drop_last() =~= emojis.take(i as int));
            if matches_query(e, lowered_query) {
                push_with_variants(&mut results, e);
            }
            i = i + 1;
        }
        assert(emojis.take(i as int) =~= emojis);
        let ghost unsorted = results.deep_view();
        let ghost key = recency_key(recents.deep_view());
        let mut keys: Vec<u128> = Vec::new();
        let mut j: usize = 0;
        while j < results.len()
            invariant
                j <= results@.len(),
                keys@.len() == j,
                key == recency_key(recents.deep_view()),
                forall|x: int| 0 <= x < j ==> keys@[x] as int == key(#[trigger] results@[x].deep_view()),
            decreases results@.len() - j,
        {
            let p = recent_position(recents, &results[j].char);
            keys.push(p as u128);
            j = j + 1;
        }
        sort_by_keys(results.as_mut_slice(), &mut keys, Ghost(key));
        proof {
            lemma_stable_sorted_is(unsorted, key, results.deep_view());
        }
        results
    }

    /// Searches the database: every emoji whose name or a keyword starts
    /// with the query, case-insensitively, followed by its variants; the
    /// entries whose character is on the recent list come first, in the
    /// order of the list, the others keep their order. An empty query
    /// finds nothing.
    pub fn search(&self, query: &str, recents: &[String]) -> (r: Vec<Emoji>)
        ensures
            query@.len() == 0 ==> r@.len() == 0,
            query@.len() > 0 ==> r.deep_view() == database_search(
                self@.emojis,
                str_lower(query@),
                recents.deep_view(),
            ),
            query@.len() > 0 && is_ascii_text(query@) ==> r.deep_view() == database_search(
                self@.emojis,
                ascii_lower(query@),
                recents.deep_view(),
            ),
    {
        if query.is_empty() {
            return Vec::new();
        }
        let lowered = lowercase(query);
        self.search_lowered(lowered.as_str(), recents)
    }
}

// ---------------------------------------------------------------------------
// Properties of the searches
// ---------------------------------------------------------------------------
/// A database search finds exactly the matching emojis and their variants,
/// each as often as it is listed: the recent list only changes the order.
pub proof fn lemma_database_search_finds_matches(
    emojis: Seq<EmojiView>,
    lowered_query: Seq<char>,
    recents: Seq<Seq<char>>,
)
    ensures
        database_search(emojis, lowered_query, recents).to_multiset() == expanded_matches(
            emojis,
            lowered_query,
        ).to_multiset(),
{
    let input = expanded_matches(emojis, lowered_query);
    lemma_stable_sort_exists(input, recency_key(recents));
    lemma_stable_sort_same_items(input, recency_key(recents), stable_sorted(input, recency_key(recents)));
}

/// With an empty recent list the results come in database order, each
/// matching emoji followed by its variants.
pub proof fn lemma_database_search_without_recents(emojis: Seq<EmojiView>, lowered_query: Seq<char>)
    ensures
        database_search(emojis, lowered_query, Seq::empty()) == expanded_matches(emojis, lowered_query),
{
    let key = recency_key(Seq::<Seq<char>>::empty());
    assert forall|e: EmojiView| #[trigger] key(e) == usize::MAX as int by {}
    lemma_constant_key_keeps_order(expanded_matches(emojis, lowered_query), key, usize::MAX as int);
}

/// In the results, an entry whose character comes earlier in the recent
/// list comes first; entries whose character is not on the list come
/// last.
pub proof fn lemma_database_search_orders_by_recents(
    emojis: Seq<EmojiView>,
    lowered_query: Seq<char>,
    recents: Seq<Seq<char>>,
    i: int,
    j: int,
)
    requires
        0 <= i < j < database_search(emojis, lowered_query, recents).len(),
    ensures
        position_from(recents, database_search(emojis, lowered_query, recents)[i].char, 0)
            <= position_from(recents, database_search(emojis, lowered_query, recents)[j].char, 0),
{
    let input = expanded_matches(emojis, lowered_query);
    lemma_stable_sort_exists(input, recency_key(recents));
    let r = database_search(emojis, lowered_query, recents);
    assert(sorted_by(r, recency_key(recents)));
    assert(recency_key(recents)(r[i]) <= recency_key(recents)(r[j]));
}

/// A ranked search finds exactly the matching emojis, each as often as it
/// is listed: the history only changes the order.
pub proof fn lemma_ranked_search_finds_matches(
    emojis: Seq<EmojiView>,
    query: Seq<char>,
    recents: Seq<RecentView>,
)
    ensures
        ranked_search(emojis, query, recents).to_multiset() == matching(emojis, query).to_multiset(),
{
    let input = matching(emojis, query);
    lemma_stable_sort_exists(input, history_key(recents));
    lemma_stable_sort_same_items(input, history_key(recents), stable_sorted(input, history_key(recents)));
}

/// In a ranked search, an emoji with a history entry comes before every
/// emoji without one, and among emojis with entries the more often used
/// comes first.
pub proof fn lemma_ranked_search_orders_by_history(
    emojis: Seq<EmojiView>,
    query: Seq<char>,
    recents: Seq<RecentView>,
    i: int,
    j: int,
)
    requires
        0 <= i < j < ranked_search(emojis, query, recents).len(),
    ensures
        history_rank(recents, ranked_search(emojis, query, recents)[j].char) is Some ==> history_rank(
            recents,
            ranked_search(emojis, query, recents)[i].char,
        ) is Some,
        history_rank(recents, ranked_search(emojis, query, recents)[i].char) is Some
            && history_rank(recents, ranked_search(emojis, query, recents)[j].char) is Some
            ==> use_count(history_rank(recents, ranked_search(emojis, query, recents)[i].char))
            >= use_count(history_rank(recents, ranked_search(emojis, query, recents)[j].char)),
{
    let input = matching(emojis, query);
    lemma_stable_sort_exists(input, history_key(recents));
    let r = ranked_search(emojis, query, recents);
    assert(history_key(recents)(r[i]) <= history_key(recents)(r[j]));
}


// ---------------------------------------------------------------------------
// What the orderings mean, in terms of the entries themselves
// ---------------------------------------------------------------------------
/// The rank of a character in the history is taken from its last entry: it
/// is none exactly when no entry has that character, and otherwise it is the
/// use count and last use of the last entry that has it.
pub proof fn lemma_history_rank_is_last_entry(recents: Seq<RecentView>, c: Seq<char>)
    ensures
        history_rank(recents, c) is None <==> forall|k: int|
            0 <= k < recents.len() ==> #[trigger] recents[k].char != c,
        history_rank(recents, c) is Some ==> exists|k: int|
            0 <= k < recents.len() && #[trigger] recents[k].char == c && history_rank(recents, c)
                == Some((recents[k].count, recents[k].last_used)) && forall|m: int|
                k < m < recents.len() ==> #[trigger] recents[m].char != c,
    decreases recents.len(),
{
    if recents.len() > 0 {
        let d = recents.drop_last();
        lemma_history_rank_is_last_entry(d, c);
        let n = recents.len() - 1;
        if recents.last().char == c {
            assert(recents[n].char == c);
        } else {
            assert forall|k: int| 0 <= k < d.len() implies d[k] == #[trigger] recents[k] by {}
            if history_rank(d, c) is Some {
                let k = choose|k: int|
                    0 <= k < d.len() && #[trigger] d[k].char == c && history_rank(d, c) == Some(
                        (d[k].count, d[k].last_used),
                    ) && forall|m: int| k < m < d.len() ==> #[trigger] d[m].char != c;
                assert(recents[k] == d[k]);
                assert forall|m: int| k < m < recents.len() implies #[trigger] recents[m].char != c by {
                    if m < n {
                        assert(recents[m] == d[m]);
                    }
                }
            } else {
                assert forall|k: int| 0 <= k < recents.len() implies #[trigger] recents[k].char != c by {
                    if k < n {
                        assert(recents[k] == d[k]);
                    }
                }
            }
        }
    }
}

/// How two ranks compare under the history order: a ranked item never comes
/// after an unranked one, and of two ranked items the first has the larger
/// use count, or the same count and the later (or same) last use.
pub proof fn lemma_rank_order_compares(a: Option<(u32, u64)>, b: Option<(u32, u64)>)
    requires
        rank_order(a) <= rank_order(b),
    ensures
        b is Some ==> a is Some,
        match (a, b) {
            (Some((ca, la)), Some((cb, lb))) => ca > cb || (ca == cb && la >= lb),
            _ => true,
        },
{
}

/// A sort by the history puts emojis with a history entry before those
/// without; of two emojis with entries, the earlier one has the larger use
/// count, or the same use count and the later (or same) last use.
pub proof fn lemma_history_sort_order(
    recents: Seq<RecentView>,
    input: Seq<EmojiView>,
    output: Seq<EmojiView>,
    i: int,
    j: int,
)
    requires
        is_stable_sort(input, history_key(recents), output),
        0 <= i < j < output.len(),
    ensures
        history_rank(recents, output[j].char) is Some ==> history_rank(recents, output[i].char) is Some,
        match (history_rank(recents, output[i].char), history_rank(recents, output[j].char)) {
            (Some((ci, li)), Some((cj, lj))) => ci > cj || (ci == cj && li >= lj),
            _ => true,
        },
{
    assert(history_key(recents)(output[i]) <= history_key(recents)(output[j]));
    lemma_rank_order_compares(
        history_rank(recents, output[i].char),
        history_rank(recents, output[j].char),
    );
}

/// In a ranked search, emojis with a history entry come first; of two
/// emojis with entries, the more often used comes first, and of two used
/// equally often, the more recently used.
pub proof fn lemma_ranked_search_orders_by_count_then_recency(
    emojis: Seq<EmojiView>,
    query: Seq<char>,
    recents: Seq<RecentView>,
    i: int,
    j: int,
)
    requires
        0 <= i < j < ranked_search(emojis, query, recents).len(),
    ensures
        history_rank(recents, ranked_search(emojis, query, recents)[j].char) is Some ==> history_rank(
            recents,
            ranked_search(emojis, query, recents)[i].char,
        ) is Some,
        match (
            history_rank(recents, ranked_search(emojis, query, recents)[i].char),
            history_rank(recents, ranked_search(emojis, query, recents)[j].char),
        ) {
            (Some((ci, li)), Some((cj, lj))) => ci > cj || (ci == cj && li >= lj),
            _ => true,
        },
{
    let input = matching(emojis, query);
    lemma_stable_sort_exists(input, history_key(recents));
    lemma_history_sort_order(recents, input, ranked_search(emojis, query, recents), i, j);
}

/// The position of `c` in the recent list from index `k` on is that of its
/// first occurrence there, or `usize::MAX` when it does not occur.
pub proof fn lemma_position_is_first_occurrence(recents: Seq<Seq<char>>, c: Seq<char>, k: int)
    requires
        0 <= k,
        recents.len() < usize::MAX,
    ensures
        position_from(recents, c, k) <= usize::MAX,
        position_from(recents, c, k) == usize::MAX <==> forall|m: int|
            k <= m < recents.len() ==> #[trigger] recents[m] != c,
        position_from(recents, c, k) < usize::MAX ==> k <= position_from(recents, c, k)
            < recents.len() && recents[position_from(recents, c, k)] == c && forall|m: int|
            k <= m < position_from(recents, c, k) ==> #[trigger] recents[m] != c,
    decreases recents.len() - k,
{
    if k < recents.len() && recents[k] != c {
        lemma_position_is_first_occurrence(recents, c, k + 1);
    }
}

/// In a database search, every entry whose character is on the recent list
/// comes before every entry whose character is not, and entries on the list
/// come in the order of their first occurrence in it: for an earlier entry
/// `i` and a later entry `j` on the list, the character of `i` occurs in the
/// list no later than any occurrence of the character of `j`.
pub proof fn lemma_database_search_recent_first(
    emojis: Seq<EmojiView>,
    lowered_query: Seq<char>,
    recents: Seq<Seq<char>>,
    i: int,
    j: int,
)
    requires
        0 <= i < j < database_search(emojis, lowered_query, recents).len(),
        recents.len() < usize::MAX,
    ensures
        recents.contains(database_search(emojis, lowered_query, recents)[j].char) ==> recents.contains(
            database_search(emojis, lowered_query, recents)[i].char,
        ),
        forall|kj: int|
            0 <= kj < recents.len() && #[trigger] recents[kj] == database_search(
                emojis,
                lowered_query,
                recents,
            )[j].char ==> exists|ki: int|
                0 <= ki <= kj && #[trigger] recents[ki] == database_search(
                    emojis,
                    lowered_query,
                    recents,
                )[i].char,
{
    let r = database_search(emojis, lowered_query, recents);
    lemma_database_search_orders_by_recents(emojis, lowered_query, recents, i, j);
    let ci = r[i].char;
    let cj = r[j].char;
    lemma_position_is_first_occurrence(recents, ci, 0);
    lemma_position_is_first_occurrence(recents, cj, 0);
    let pi = position_from(recents, ci, 0);
    let pj = position_from(recents, cj, 0);
    if recents.contains(cj) {
        let kj = choose|kj: int| 0 <= kj < recents.len() && recents[kj] == cj;
        assert(recents[kj] == cj);
        assert(pj < usize::MAX);
        assert(pi < usize::MAX);
        assert(recents[pi] == ci);
    }
    assert forall|kj: int| 0 <= kj < recents.len() && #[trigger] recents[kj] == cj implies exists|ki: int|
        0 <= ki <= kj && #[trigger] recents[ki] == ci by {
        assert(pj < usize::MAX);
        assert(pj <= kj);
        assert(recents[pi] == ci);
    }
}

} // verus!
