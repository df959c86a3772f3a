//! Decisions of the popup picker: remembered variant choices, the order in
//! which variants are offered, row texts, keyboard navigation and the
//! entry that a row activation commits.
use vstd::prelude::*;

use crate::emoji::Emoji;
use crate::text::{concat, copy_str, same_text, push_char};

verus! {

broadcast use vstd::std_specs::vec::group_vec_axioms;

// ---------------------------------------------------------------------------
// Remembered variant choices
// ---------------------------------------------------------------------------
/// The choices as a map from base emoji to chosen variant; a later entry for
/// the same base replaces an earlier one.
pub open spec fn choices_map(entries: Seq<(Seq<char>, Seq<char>)>) -> Map<Seq<char>, Seq<char>>
    decreases entries.len(),
{
    if entries.len() == 0 {
        Map::empty()
    } else {
        choices_map(entries.drop_last()).insert(entries.last().0, entries.last().1)
    }
}

/// The position of the first `c` in `s` at or after `i`, or -1.
pub open spec fn char_position(s: Seq<char>, c: char, i: int) -> int
    decreases s.len() - i,
{
    if i < 0 || i >= s.len() {
        -1
    } else if s[i] == c {
        i
    } else {
        char_position(s, c, i + 1)
    }
}

/// A stored entry `base=variant` split at its first `=`; none without one.
pub open spec fn split_choice(line: Seq<char>) -> Option<(Seq<char>, Seq<char>)> {
    let i = char_position(line, '=', 0);
    if i >= 0 {
        Some((line.take(i), line.skip(i + 1)))
    } else {
        None
    }
}

/// The choices read from stored entries, in order; entries without `=` are
/// skipped.
pub open spec fn parsed_choices(lines: Seq<Seq<char>>) -> Seq<(Seq<char>, Seq<char>)>
    decreases lines.len(),
{
    if lines.len() == 0 {
        Seq::empty()
    } else {
        match split_choice(lines.last()) {
            Some(p) => parsed_choices(lines.drop_last()).push(p),
            None => parsed_choices(lines.drop_last()),
        }
    }
}

/// The stored form of the choices: one `base=variant` entry each.
pub open spec fn choice_lines(entries: Seq<(Seq<char>, Seq<char>)>) -> Seq<Seq<char>> {
    entries.map_values(|p: (Seq<char>, Seq<char>)| p.0 + seq!['='] + p.1)
}

/// No two entries share a base.
pub open spec fn distinct_bases(entries: Seq<(Seq<char>, Seq<char>)>) -> bool {
    forall|i: int, j: int| 0 <= i < j < entries.len() ==> entries[i].0 != entries[j].0
}

/// The variant the user last chose for each base emoji.
#[derive(Debug)]
pub struct VariantPreferences {
    entries: Vec<(String, String)>,
}

impl View for VariantPreferences {
    type V = Map<Seq<char>, Seq<char>>;

    closed spec fn view(&self) -> Map<Seq<char>, Seq<char>> {
        choices_map(self.entries.deep_view())
    }
}

/// The predicate "the entry's base differs from `k`".
pub open spec fn base_differs(k: Seq<char>) -> spec_fn((Seq<char>, Seq<char>)) -> bool {
    |p: (Seq<char>, Seq<char>)| p.0 != k
}

proof fn lemma_choices_map_without(entries: Seq<(Seq<char>, Seq<char>)>, k: Seq<char>)
    ensures
        choices_map(entries.filter(base_differs(k))) == choices_map(entries).remove(k),
    decreases entries.len(),
{
    let pred = base_differs(k);
    reveal(Seq::filter);
    if entries.len() == 0 {
        assert(choices_map(entries).remove(k) =~= Map::empty());
    } else {
        let d = entries.drop_last();
        let x = entries.last();
        lemma_choices_map_without(d, k);
        if pred(x) {
            assert(entries.filter(pred) == d.filter(pred).push(x));
            assert(d.filter(pred).push(x).drop_last() =~= d.filter(pred));
            assert(choices_map(entries.filter(pred)) == choices_map(d.filter(pred)).insert(x.0, x.1));
        } else {
            assert(entries.filter(pred) == d.filter(pred));
        }
        assert(choices_map(entries.filter(pred)) =~= choices_map(entries).remove(k));
    }
}

proof fn lemma_filter_distinct<A>(s: Seq<(Seq<char>, A)>, p: spec_fn((Seq<char>, A)) -> bool)
    requires
        forall|i: int, j: int| 0 <= i < j < s.len() ==> s[i].0 != s[j].0,
    ensures
        forall|i: int, j: int| 0 <= i < j < s.filter(p).len() ==> s.filter(p)[i].0 != s.filter(p)[j].0,
    decreases s.len(),
{
    reveal(Seq::filter);
    if s.len() > 0 {
        let d = s.drop_last();
        lemma_filter_distinct(d, p);
        let fd = d.filter(p);
        if p(s.last()) {
            assert forall|i: int| 0 <= i < fd.len() implies fd[i].0 != s.last().0 by {
                assert(fd.contains(fd[i]));
                d.lemma_filter_contains_rev(p, fd[i]);
                let k = choose|k: int| 0 <= k < d.len() && d[k] == fd[i];
                assert(s[k] == d[k]);
            }
        }
    }
}

impl VariantPreferences {
    /// No remembered choices.
    pub fn new() -> (r: VariantPreferences)
        ensures
            r@ == Map::<Seq<char>, Seq<char>>::empty(),
            r.entries_view().len() == 0,
            r.wf(),
    {
        let entries: Vec<(String, String)> = Vec::new();
        assert(entries.deep_view() =~= Seq::<(Seq<char>, Seq<char>)>::empty());
        VariantPreferences { entries }
    }

    /// The entries hold each base once.
    pub closed spec fn wf(&self) -> bool {
        distinct_bases(self.entries.deep_view())
    }

    /// The entries in stored order.
    pub closed spec fn entries_view(&self) -> Seq<(Seq<char>, Seq<char>)> {
        self.entries.deep_view()
    }

    /// The variant remembered for `base`, if any.
    pub fn get(&self, base: &str) -> (r: Option<String>)
        ensures
            self@.contains_key(base@) ==> (r matches Some(v) && v@ == self@[base@]),
            !self@.contains_key(base@) ==> r is None,
    {
        let ghost es = self.entries.deep_view();
        let mut found: Option<String> = None;
        let mut i: usize = 0;
        while i < self.entries.len()
            invariant
                i <= self.entries@.len(),
                es == self.entries.deep_view(),
                choices_map(es.take(i as int)).contains_key(base@) ==> (found matches Some(v) && v@
                    == choices_map(es.take(i as int))[base@]),
                !choices_map(es.take(i as int)).contains_key(base@) ==> found is None,
            decreases self.entries@.len() - i,
        {
            assert(es.take(i + 1).drop_last() =~= es.take(i as int));
            if same_text(self.entries[i].0.as_str(), base) {
                found = Some(copy_str(self.entries[i].1.as_str()));
            }
            i = i + 1;
        }
        assert(es.take(i as int) =~= es);
        found
    }

    /// Remembers `variant` as the choice for `base`, replacing an earlier
    /// choice.
    pub fn insert(&mut self, base: String, variant: String)
        requires
            old(self).wf(),
        ensures
            final(self)@ == old(self)@.insert(base@, variant@),
            final(self).wf(),
    {
        let ghost es = self.entries.deep_view();
        let ghost pred = base_differs(base@);
        let mut kept: Vec<(String, String)> = Vec::new();
        let mut i: usize = 0;
        while i < self.entries.len()
            invariant
                i <= self.entries@.len(),
                es == self.entries.deep_view(),
                pred == base_differs(base@),
                kept.deep_view() == es.take(i as int).filter(pred),
            decreases self.entries@.len() - i,
        {
            assert(es.take(i + 1).drop_last() =~= es.take(i as int));
            reveal(Seq::filter);
            if !same_text(self.entries[i].0.as_str(), base.as_str()) {
                let ghost before = kept.deep_view();
                kept.push((copy_str(self.entries[i].0.as_str()), copy_str(self.entries[i].1.as_str())));
                assert(kept.deep_view() =~= before.push(es[i as int]));
            }
            i = i + 1;
        }
        assert(es.take(i as int) =~= es);
        proof {
            lemma_choices_map_without(es, base@);
            lemma_filter_distinct(es, pred);
            assert forall|j: int| 0 <= j < kept.deep_view().len() implies kept.deep_view()[j].0 != base@ by {
                es.lemma_filter_pred(pred, j);
            }
        }
        let ghost kv = kept.deep_view();
        kept.push((base, variant));
        assert(kept.deep_view() =~= kv.push((base@, variant@)));
        assert(kept.deep_view().drop_last() =~= kv);
        self.entries = kept;
        assert(self@ =~= old(self)@.insert(base@, variant@));
    }
}

/// Splits a stored entry at its first `=`.
fn split_entry(line: &str) -> (r: Option<(String, String)>)
    ensures
        split_choice(line@) is None ==> r is None,
        split_choice(line@) matches Some(p) ==> (r matches Some(q) && q.0@ == p.0 && q.1@ == p.1),
{
    let v = crate::text::chars_of(line);
    let n = v.len();
    let mut i: usize = 0;
    while i < n && v[i] != '='
        invariant
            v@ == line@,
            n == v@.len(),
            i <= n,
            char_position(line@, '=', 0) == char_position(line@, '=', i as int),
        decreases n - i,
    {
        i = i + 1;
    }
    if i == n {
        None
    } else {
        let base = crate::text::string_from_chars(&v, 0, i);
        let variant = crate::text::string_from_chars(&v, i + 1, n);
        Some((base, variant))
    }
}

/// Reads remembered choices from their stored entries `base=variant`;
/// entries without `=` are skipped and a later entry for a base replaces
/// an earlier one.
pub fn parse_variant_preferences(lines: &[String]) -> (r: VariantPreferences)
    ensures
        r@ == choices_map(parsed_choices(lines.deep_view())),
        r.wf(),
{
    let ghost ls = lines.deep_view();
    let mut prefs = VariantPreferences::new();
    let mut i: usize = 0;
    while i < lines.len()
        invariant
            i <= lines@.len(),
            ls == lines.deep_view(),
            prefs.wf(),
            prefs@ == choices_map(parsed_choices(ls.take(i as int))),
        decreases lines@.len() - i,
    {
        assert(ls.take(i + 1).drop_last() =~= ls.take(i as int));
        let ghost before = parsed_choices(ls.take(i as int));
        match split_entry(lines[i].as_str()) {
            Some((base, variant)) => {
                let ghost pair = (base@, variant@);
                prefs.insert(base, variant);
                assert(before.push(pair).drop_last() =~= before);
                assert(parsed_choices(ls.take(i + 1)) == before.push(pair));
            },
            None => {},
        }
        i = i + 1;
    }
    assert(ls.take(i as int) =~= ls);
    prefs
}

/// Writes the remembered choices as stored entries `base=variant`, one per
/// base.
pub fn format_variant_preferences(prefs: &VariantPreferences) -> (r: Vec<String>)
    ensures
        r.deep_view() == choice_lines(prefs.entries_view()),
{
    let ghost es = prefs.entries_view();
    let mut out: Vec<String> = Vec::new();
    let mut i: usize = 0;
    while i < prefs.entries.len()
        invariant
            i <= prefs.entries@.len(),
            es == prefs.entries.deep_view(),
            out@.len() == i,
            forall|j: int| 0 <= j < i ==> #[trigger] out@[j]@ == choice_lines(es)[j],
        decreases prefs.entries@.len() - i,
    {
        let mut line = copy_str(prefs.entries[i].0.as_str());
        push_char(&mut line, '=');
        let line = concat(line.as_str(), prefs.entries[i].1.as_str());
        out.push(line);
        i = i + 1;
    }
    assert(out.deep_view() =~= choice_lines(es));
    out
}

proof fn lemma_char_position_after_prefix(line: Seq<char>, k: Seq<char>, i: int)
    requires
        0 <= i <= k.len() < line.len(),
        line.take(k.len() as int) == k,
        line[k.len() as int] == '=',
        !k.contains('='),
    ensures
        char_position(line, '=', i) == k.len(),
    decreases k.len() - i,
{
    if i < k.len() {
        assert(line[i] == k[i]);
        lemma_char_position_after_prefix(line, k, i + 1);
    }
}

proof fn lemma_choices_map_bases(es: Seq<(Seq<char>, Seq<char>)>, k: Seq<char>)
    ensures
        choices_map(es).contains_key(k) <==> exists|i: int| 0 <= i < es.len() && #[trigger] es[i].0 == k,
    decreases es.len(),
{
    if es.len() > 0 {
        let d = es.drop_last();
        lemma_choices_map_bases(d, k);
        if choices_map(d).contains_key(k) {
            let i = choose|i: int| 0 <= i < d.len() && #[trigger] d[i].0 == k;
            assert(es[i].0 == k);
        }
        if exists|i: int| 0 <= i < es.len() && #[trigger] es[i].0 == k {
            let i = choose|i: int| 0 <= i < es.len() && #[trigger] es[i].0 == k;
            if i < es.len() - 1 {
                assert(d[i].0 == k);
            }
        }
    }
}

/// Writing remembered choices and reading them back gives the same choices,
/// as long as no base emoji contains `=`.
pub proof fn lemma_preferences_round_trip(prefs: &VariantPreferences)
    requires
        forall|k: Seq<char>| #[trigger] prefs@.contains_key(k) ==> !k.contains('='),
    ensures
        choices_map(parsed_choices(choice_lines(prefs.entries_view()))) == prefs@,
{
    let es = prefs.entries_view();
    assert forall|i: int| 0 <= i < es.len() implies !(#[trigger] es[i].0).contains('=') by {
        lemma_choices_map_bases(es, es[i].0);
        assert(prefs@.contains_key(es[i].0));
    }
    lemma_lines_round_trip(es);
}

/// Splitting each stored entry at its first `=` gives back the written
/// choices when no base contains `=`.
pub proof fn lemma_lines_round_trip(es: Seq<(Seq<char>, Seq<char>)>)
    requires
        forall|i: int| 0 <= i < es.len() ==> !(#[trigger] es[i].0).contains('='),
    ensures
        parsed_choices(choice_lines(es)) == es,
    decreases es.len(),
{
    if es.len() > 0 {
        let d = es.drop_last();
        assert forall|i: int| 0 <= i < d.len() implies !(#[trigger] d[i].0).contains('=') by {
            assert(d[i] == es[i]);
        }
        lemma_lines_round_trip(d);
        let lines = choice_lines(es);
        assert(lines.drop_last() =~= choice_lines(d));
        let x = es.last();
        let line = x.0 + seq!['='] + x.1;
        assert(lines.last() == line);
        assert(line.take(x.0.len() as int) =~= x.0);
        assert(!x.0.contains('=')) by {
            assert(es[es.len() - 1] == x);
        }
        lemma_char_position_after_prefix(line, x.0, 0);
        assert(line.skip(x.0.len() as int + 1) =~= x.1);
        assert(split_choice(line) == Some((x.0, x.1)));
        assert(d.push(x) =~= es);
    }
}

// ---------------------------------------------------------------------------
// Offering variants and labelling rows
// ---------------------------------------------------------------------------
/// The predicate "equals `t`".
pub open spec fn equals(t: Seq<char>) -> spec_fn(Seq<char>) -> bool {
    |v: Seq<char>| v == t
}

/// The predicate "differs from `t`".
pub open spec fn differs(t: Seq<char>) -> spec_fn(Seq<char>) -> bool {
    |v: Seq<char>| v != t
}

/// The variants in the order they are offered: the preferred one first,
/// the others in their listed order.
pub open spec fn preferred_first(variants: Seq<Seq<char>>, preferred: Option<Seq<char>>) -> Seq<
    Seq<char>,
> {
    match preferred {
        Some(t) => variants.filter(equals(t)) + variants.filter(differs(t)),
        None => variants,
    }
}

fn filter_text(variants: &Vec<String>, t: &String, keep_equal: bool) -> (r: Vec<String>)
    ensures
        keep_equal ==> r.deep_view() == variants.deep_view().filter(equals(t@)),
        !keep_equal ==> r.deep_view() == variants.deep_view().filter(differs(t@)),
{
    let ghost vs = variants.deep_view();
    let ghost pred = if keep_equal {
        equals(t@)
    } else {
        differs(t@)
    };
    let mut out: Vec<String> = Vec::new();
    let mut i: usize = 0;
    while i < variants.len()
        invariant
            i <= variants@.len(),
            vs == variants.deep_view(),
            pred == (if keep_equal {
                equals(t@)
            } else {
                differs(t@)
            }),
            out.deep_view() == vs.take(i as int).filter(pred),
        decreases variants@.len() - i,
    {
        assert(vs.take(i + 1).drop_last() =~= vs.take(i as int));
        reveal(Seq::filter);
        if same_text(variants[i].as_str(), t.as_str()) == keep_equal {
            let ghost before = out.deep_view();
            out.push(copy_str(variants[i].as_str()));
            assert(out.deep_view() =~= before.push(vs[i as int]));
        }
        i = i + 1;
    }
    assert(vs.take(i as int) =~= vs);
    out
}

/// The variants in the order the chooser offers them: the preferred
/// variant first, the others in their listed order.
pub fn order_variants(variants: &Vec<String>, preferred: Option<String>) -> (r: Vec<String>)
    ensures
        r.deep_view() == preferred_first(variants.deep_view(), crate::engine::text_of(preferred)),
{
    match preferred {
        Some(t) => {
            let mut first = filter_text(variants, &t, true);
            let mut rest = filter_text(variants, &t, false);
            let ghost a = first.deep_view();
            let ghost b = rest.deep_view();
            first.append(&mut rest);
            assert(first.deep_view() =~= a + b);
            first
        },
        None => crate::emoji::copy_strings(variants),
    }
}

/// The texts joined with `sep` between them.
pub open spec fn joined(texts: Seq<Seq<char>>, sep: Seq<char>) -> Seq<char>
    decreases texts.len(),
{
    if texts.len() == 0 {
        Seq::empty()
    } else if texts.len() == 1 {
        texts[0]
    } else {
        joined(texts.drop_last(), sep) + sep + texts.last()
    }
}

/// The keyword line of a row: the keywords joined with `, `, or a single
/// space when there are none.
pub open spec fn keyword_line(keywords: Seq<Seq<char>>) -> Seq<char> {
    if keywords.len() == 0 {
        seq![' ']
    } else {
        joined(keywords, seq![',', ' '])
    }
}

/// The keyword line of a row: the keywords joined with `, `, or a single
/// space when there are none.
pub fn keywords_text(keywords: &Vec<String>) -> (r: String)
    ensures
        r@ == keyword_line(keywords.deep_view()),
{
    let ghost ks = keywords.deep_view();
    let mut out = String::new();
    if keywords.len() == 0 {
        push_char(&mut out, ' ');
        assert(out@ =~= seq![' ']);
        return out;
    }
    let mut i: usize = 0;
    while i < keywords.len()
        invariant
            i <= keywords@.len(),
            ks == keywords.deep_view(),
            out@ == joined(ks.take(i as int), seq![',', ' ']),
        decreases keywords@.len() - i,
    {
        assert(ks.take(i + 1).drop_last() =~= ks.take(i as int));
        if i > 0 {
            push_char(&mut out, ',');
            push_char(&mut out, ' ');
        }
        let ghost before = out@;
        out = concat(out.as_str(), keywords[i].as_str());
        proof {
            if i == 0 {
                assert(ks.take(1) =~= seq![ks[0]]);
                assert(out@ =~= ks[0]);
            } else {
                assert(out@ =~= joined(ks.take(i as int), seq![',', ' ']) + seq![',', ' '] + ks[i as int]);
            }
        }
        i = i + 1;
    }
    assert(ks.take(i as int) =~= ks);
    out
}

/// The name line of a row: the name behind a colon.
pub fn name_label(name: &str) -> (r: String)
    ensures
        r@ == seq![':'] + name@,
{
    let mut out = String::new();
    push_char(&mut out, ':');
    concat(out.as_str(), name)
}

// ---------------------------------------------------------------------------
// Keyboard navigation
// ---------------------------------------------------------------------------
/// The selected row after moving by `delta` in a list of `count` rows,
/// wrapping around at either end.
pub fn wrap_selection(current: i32, delta: i32, count: i32) -> (r: i32)
    requires
        count > 0,
        i32::MIN <= current + delta <= i32::MAX,
    ensures
        r == (current + delta) % (count as int),
        0 <= r < count,
{
    let s: i64 = current as i64 + delta as i64;
    let c: i64 = count as i64;
    if s >= 0 {
        let r = s % c;
        proof {
            vstd::arithmetic::div_mod::lemma_mod_bound(s as int, c as int);
        }
        r as i32
    } else {
        let n: i64 = -s;
        let a: i64 = n % c;
        proof {
            vstd::arithmetic::div_mod::lemma_fundamental_div_mod(n as int, c as int);
            vstd::arithmetic::div_mod::lemma_mod_bound(n as int, c as int);
            let q = n as int / c as int;
            if a == 0 {
                assert(s as int == (-q) * (c as int) + 0) by (nonlinear_arith)
                    requires
                        n as int == c * q + a,
                        a == 0,
                        s == -n,
                ;
                vstd::arithmetic::div_mod::lemma_fundamental_div_mod_converse(s as int, c as int, -q, 0);
            } else {
                assert(s as int == (-q - 1) * (c as int) + (c - a)) by (nonlinear_arith)
                    requires
                        n as int == c * q + a,
                        s == -n,
                ;
                vstd::arithmetic::div_mod::lemma_fundamental_div_mod_converse(
                    s as int,
                    c as int,
                    -q - 1,
                    (c - a) as int,
                );
            }
        }
        if a == 0 {
            0
        } else {
            (c - a) as i32
        }
    }
}

/// A key pressed in the popup.
#[derive(Debug, Clone, Copy, PartialEq, Eq)]
pub enum PopupKey {
    Escape,
    Return,
    KeypadEnter,
    Up,
    Down,
    Left,
    Right,
    Tab,
    BackTab,
    Other,
}

/// What the popup does with a key.
#[derive(Debug, Clone, Copy, PartialEq, Eq)]
pub enum PopupAction {
    /// Hide the popup; the key is consumed.
    Hide,
    /// Commit the selected row, if any; the key is consumed.
    CommitSelected,
    /// Move the selection by the given number of rows; the key is consumed.
    Move(i32),
    /// Let the key through.
    Pass,
}

/// The popup's response to a key: Escape hides it, Return and keypad
/// Enter commit the selected row, Up, Left and Shift+Tab move the
/// selection back by one, Down, Right and Tab forward by one; other keys
/// pass through.
pub fn popup_key_action(key: PopupKey) -> (r: PopupAction)
    ensures
        key == PopupKey::Escape ==> r == PopupAction::Hide,
        (key == PopupKey::Return || key == PopupKey::KeypadEnter) ==> r == PopupAction::CommitSelected,
        (key == PopupKey::Up || key == PopupKey::Left || key == PopupKey::BackTab) ==> r == PopupAction::Move(-1i32),
        (key == PopupKey::Down || key == PopupKey::Right || key == PopupKey::Tab) ==> r == PopupAction::Move(1i32),
        key == PopupKey::Other ==> r == PopupAction::Pass,
{
    match key {
        PopupKey::Escape => PopupAction::Hide,
        PopupKey::Return | PopupKey::KeypadEnter => PopupAction::CommitSelected,
        PopupKey::Up | PopupKey::Left | PopupKey::BackTab => PopupAction::Move(-1),
        PopupKey::Down | PopupKey::Right | PopupKey::Tab => PopupAction::Move(1),
        PopupKey::Other => PopupAction::Pass,
    }
}

/// The character a row activation commits: that of the result at the row
/// index, or nothing when the index (taken as `usize`) is past the list.
pub fn selected_commit(results: &[Emoji], index: i32) -> (r: Option<String>)
    ensures
        (index as usize) < results@.len() ==> crate::engine::text_of(r) == Some(
            results@[(index as usize) as int].char@,
        ),
        (index as usize) >= results@.len() ==> r is None,
{
    let i = index as usize;
    if i < results.len() {
        Some(copy_str(results[i].char.as_str()))
    } else {
        None
    }
}

/// Moving the selection forward and then back returns to the same row.
pub proof fn lemma_wrap_back_and_forth(current: int, count: int)
    requires
        count > 0,
        0 <= current < count,
    ensures
        (((current + 1) % count) - 1) % count == current,
        (((current - 1) % count) + 1) % count == current,
{
    if current + 1 < count {
        vstd::arithmetic::div_mod::lemma_small_mod((current + 1) as nat, count as nat);
        vstd::arithmetic::div_mod::lemma_small_mod(current as nat, count as nat);
    } else {
        vstd::arithmetic::div_mod::lemma_mod_self_0(count);
        vstd::arithmetic::div_mod::lemma_fundamental_div_mod_converse(-1, count, -1, count - 1);
    }
    if current > 0 {
        vstd::arithmetic::div_mod::lemma_small_mod((current - 1) as nat, count as nat);
        vstd::arithmetic::div_mod::lemma_small_mod(current as nat, count as nat);
    } else {
        vstd::arithmetic::div_mod::lemma_fundamental_div_mod_converse(-1, count, -1, count - 1);
        vstd::arithmetic::div_mod::lemma_mod_self_0(count);
    }
}

} // verus!
