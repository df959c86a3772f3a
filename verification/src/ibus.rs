//! Decisions of the engine process around the input bus: where the emoji
//! data lives, which bus address file belongs to this machine, the address
//! it announces, whether a cached database is current, and whether a
//! commit request from the popup carries this launch's token.
use vstd::prelude::*;

use crate::text::{
    chars_of, concat, copy_str, has_prefix, push_char, same_text, starts_with, string_from_chars,
    trim, trim_seq,
};

verus! {

broadcast use vstd::std_specs::vec::group_vec_axioms;

/// A line without its carriage return, for a line that ended in `\r\n`.
pub open spec fn without_cr(line: Seq<char>) -> Seq<char> {
    if line.len() > 0 && line.last() == '\r' {
        line.drop_last()
    } else {
        line
    }
}

/// The lines finished by a newline so far, and the unfinished line.
pub open spec fn line_split(s: Seq<char>) -> (Seq<Seq<char>>, Seq<char>)
    decreases s.len(),
{
    if s.len() == 0 {
        (Seq::empty(), Seq::empty())
    } else {
        let prev = line_split(s.drop_last());
        if s.last() == '\n' {
            (prev.0.push(without_cr(prev.1)), Seq::empty())
        } else {
            (prev.0, prev.1.push(s.last()))
        }
    }
}

/// The lines of a text as `str::lines` yields them: split at `\n`, a `\r`
/// before the `\n` removed, and no empty line after a final newline.
pub open spec fn text_lines(s: Seq<char>) -> Seq<Seq<char>> {
    let split = line_split(s);
    if split.1.len() > 0 {
        split.0.push(split.1)
    } else {
        split.0
    }
}

/// The value of the first line that starts with `key`, trimmed; none when
/// no line does.
pub open spec fn value_after(lines: Seq<Seq<char>>, key: Seq<char>) -> Option<Seq<char>>
    decreases lines.len(),
{
    if lines.len() == 0 {
        None
    } else if has_prefix(lines[0], key) {
        Some(trim_seq(lines[0].skip(key.len() as int)))
    } else {
        value_after(lines.drop_first(), key)
    }
}

/// The lines of `s`, as `str::lines` yields them.
pub fn split_lines(s: &str) -> (r: Vec<String>)
    ensures
        r.deep_view() == text_lines(s@),
{
    let v = chars_of(s);
    let mut done: Vec<String> = Vec::new();
    let mut cur = String::new();
    let mut i: usize = 0;
    while i < v.len()
        invariant
            i <= v@.len(),
            v@ == s@,
            (done.deep_view(), cur@) == line_split(s@.take(i as int)),
        decreases v@.len() - i,
    {
        assert(s@.take(i + 1).drop_last() =~= s@.take(i as int));
        let c = v[i];
        if c == '\n' {
            let ghost before = done.deep_view();
            let line = cur;
            let cv = chars_of(line.as_str());
            let finished = if cv.len() > 0 && cv[cv.len() - 1] == '\r' {
                string_from_chars(&cv, 0, cv.len() - 1)
            } else {
                string_from_chars(&cv, 0, cv.len())
            };
            proof {
                assert(cv@.subrange(0, cv@.len() - 1) =~= cv@.drop_last());
                assert(cv@.subrange(0, cv@.len() as int) =~= cv@);
            }
            done.push(finished);
            assert(done.deep_view() =~= before.push(without_cr(line@)));
            cur = String::new();
        } else {
            push_char(&mut cur, c);
        }
        i = i + 1;
    }
    assert(s@.take(i as int) =~= s@);
    if !cur.as_str().is_empty() {
        let ghost before = done.deep_view();
        done.push(cur);
        assert(done.deep_view() =~= before.push(line_split(s@).1));
    }
    done
}

/// The bus address that an address file announces: the value of its first
/// line that starts with `IBUS_ADDRESS=`, trimmed.
pub fn parse_ibus_address(content: &str) -> (r: Option<String>)
    ensures
        crate::engine::text_of(r) == value_after(text_lines(content@), "IBUS_ADDRESS="@),
{
    let key = "IBUS_ADDRESS=";
    let klen = chars_of(key).len();
    let lines = split_lines(content);
    let ghost ls = lines.deep_view();
    assert(ls.skip(0) =~= ls);
    let mut i: usize = 0;
    while i < lines.len()
        invariant
            i <= lines@.len(),
            ls == lines.deep_view(),
            ls == text_lines(content@),
            klen == key@.len(),
            key@ == "IBUS_ADDRESS="@,
            value_after(ls, key@) == value_after(ls.skip(i as int), key@),
        decreases lines@.len() - i,
    {
        let ghost rest = ls.skip(i as int);
        assert(rest.drop_first() =~= ls.skip(i + 1));
        if starts_with(lines[i].as_str(), key) {
            let lv = chars_of(lines[i].as_str());
            let tail = string_from_chars(&lv, klen, lv.len());
            let value = trim(tail.as_str());
            assert(tail@ =~= ls[i as int].skip(key@.len() as int));
            assert(rest[0] == ls[i as int]);
            assert(value_after(rest, key@) == Some(trim_seq(rest[0].skip(key@.len() as int))));
            return Some(value);
        }
        i = i + 1;
    }
    None
}

/// Whether a file in the bus directory belongs to this machine: its name
/// starts with the machine id (the trimmed content of the machine-id file).
pub fn is_address_file(file_name: &str, machine_id_content: &str) -> (r: bool)
    ensures
        r == has_prefix(file_name@, trim_seq(machine_id_content@)),
{
    let machine_id = trim(machine_id_content);
    starts_with(file_name, machine_id.as_str())
}

/// The bus address to connect to: the `IBUS_ADDRESS` setting when it is
/// set and non-empty, otherwise the one read from the address file.
pub fn choose_address(env_value: Option<String>, from_file: Option<String>) -> (r: Option<String>)
    ensures
        match env_value {
            Some(e) if e@.len() > 0 => crate::engine::text_of(r) == Some(e@),
            _ => crate::engine::text_of(r) == crate::engine::text_of(from_file),
        },
{
    match env_value {
        Some(e) => {
            if e.as_str().is_empty() {
                from_file
            } else {
                Some(e)
            }
        },
        None => from_file,
    }
}

/// The installation prefix: the `PREFIX` setting, or `.local` under the
/// home directory (`/usr/local` when that is unknown).
pub open spec fn prefix_of(prefix_env: Option<Seq<char>>, home_env: Option<Seq<char>>) -> Seq<char> {
    match prefix_env {
        Some(p) => p,
        None => match home_env {
            Some(h) => h + "/.local"@,
            None => "/usr/local"@ + "/.local"@,
        },
    }
}

/// The installation prefix: the `PREFIX` setting, or `.local` under the
/// home directory (`/usr/local` when that is unknown).
pub fn install_prefix(prefix_env: Option<String>, home_env: Option<String>) -> (r: String)
    ensures
        r@ == prefix_of(crate::engine::text_of(prefix_env), crate::engine::text_of(home_env)),
{
    match prefix_env {
        Some(p) => p,
        None => {
            let home = match home_env {
                Some(h) => h,
                None => copy_str("/usr/local"),
            };
            concat(home.as_str(), "/.local")
        },
    }
}

/// The emoji data file: `emojis.json` in the `EMOJI_DATA_DIR` setting, or
/// in `share/gnome-emoji-input` under the prefix.
pub open spec fn data_file_of(prefix: Seq<char>, data_dir_env: Option<Seq<char>>) -> Seq<char> {
    match data_dir_env {
        Some(d) => d + "/emojis.json"@,
        None => prefix + "/share/gnome-emoji-input"@ + "/emojis.json"@,
    }
}

/// The emoji data file: `emojis.json` in the `EMOJI_DATA_DIR` setting, or
/// in `share/gnome-emoji-input` under the prefix.
pub fn database_file(prefix: &str, data_dir_env: Option<String>) -> (r: String)
    ensures
        r@ == data_file_of(prefix@, crate::engine::text_of(data_dir_env)),
{
    let dir = match data_dir_env {
        Some(d) => d,
        None => concat(prefix, "/share/gnome-emoji-input"),
    };
    concat(dir.as_str(), "/emojis.json")
}

/// Whether a cached database may be used: the source is gone, or the cache
/// was built from a source with the same modification time.
pub fn cache_is_current(source_exists: bool, cache_source_mtime: u64, source_mtime: u64) -> (r: bool)
    ensures
        r == (!source_exists || cache_source_mtime == source_mtime),
{
    !source_exists || cache_source_mtime == source_mtime
}

/// Whether a commit request from the popup is accepted: it carries this
/// launch's token.
pub fn commit_token_accepted(token: &str, expected: &str) -> (r: bool)
    ensures
        r == (token@ == expected@),
{
    same_text(token, expected)
}

} // verus!
