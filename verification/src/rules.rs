//! The rule file format, line by line.
//!
//! A rule file is a list of lines. A line of white space, or one whose first
//! character after any white space is `#`, says nothing. A line of the form
//! `[name]` makes `name` the current group. Every other line is a pattern of
//! the current group, taken as it stands.

use crate::config::Config;
use crate::engine::texts;
use crate::groups::patterns_of;
use vstd::prelude::*;
use vstd::string::StrSliceExecFns;

verus! {

/// What one line of a rule file is.
pub enum LineKind {
    /// A blank line or a comment.
    Skip,
    /// A header that names the current group.
    Header(Seq<char>),
    /// A pattern for the current group.
    Pattern,
}

/// The characters with Unicode's `White_Space` property.
pub open spec fn is_space(c: char) -> bool {
    let n = c as u32;
    ||| 0x09 <= n <= 0x0d
    ||| n == 0x20
    ||| n == 0x85
    ||| n == 0xa0
    ||| n == 0x1680
    ||| 0x2000 <= n <= 0x200a
    ||| n == 0x2028
    ||| n == 0x2029
    ||| n == 0x202f
    ||| n == 0x205f
    ||| n == 0x3000
}

/// The characters of a group name: ASCII letters and digits, `-` and `_`.
pub open spec fn is_name_char(c: char) -> bool {
    ||| 'a' <= c <= 'z'
    ||| 'A' <= c <= 'Z'
    ||| '0' <= c <= '9'
    ||| c == '-'
    ||| c == '_'
}

/// Whether the first `k` characters of `line` are all white space.
pub open spec fn spaces_before(line: Seq<char>, k: int) -> bool {
    forall|j: int| 0 <= j < k ==> is_space(#[trigger] line[j])
}

/// Whether `line` is blank or a comment: after its leading white space it
/// ends, or `#` follows.
pub open spec fn blank_or_comment(line: Seq<char>) -> bool {
    exists|k: int|
        0 <= k <= line.len() && #[trigger] spaces_before(line, k) && (k == line.len() || line[k]
            == '#')
}

/// The name that `line` declares, if it is a header: `[`, one or more name
/// characters, `]`, and nothing else.
pub open spec fn header_of(line: Seq<char>) -> Option<Seq<char>> {
    if line.len() >= 3 && line[0] == '[' && line[line.len() - 1] == ']' && forall|j: int|
        1 <= j < line.len() - 1 ==> is_name_char(#[trigger] line[j]) {
        Some(line.subrange(1, line.len() - 1))
    } else {
        None
    }
}

/// The kind of `line`. A comment is never a header, so the order of the two
/// tests does not matter.
pub open spec fn line_kind(line: Seq<char>) -> LineKind {
    if blank_or_comment(line) {
        LineKind::Skip
    } else {
        match header_of(line) {
            Some(name) => LineKind::Header(name),
            None => LineKind::Pattern,
        }
    }
}

/// The current group once the first `k` lines are read: the name in the
/// last header among them.
pub open spec fn target_after(lines: Seq<Seq<char>>, k: int) -> Option<Seq<char>>
    decreases k,
{
    if k <= 0 {
        None
    } else {
        match line_kind(lines[k - 1]) {
            LineKind::Header(name) => Some(name),
            _ => target_after(lines, k - 1),
        }
    }
}

/// Whether line `k` is a pattern that no header precedes.
pub open spec fn stray(lines: Seq<Seq<char>>, k: int) -> bool {
    line_kind(lines[k]) is Pattern && target_after(lines, k) is None
}

/// The groups that the first `k` lines declare: each pattern line is
/// appended to the group that is current where it stands.
pub open spec fn groups_after(lines: Seq<Seq<char>>, k: int) -> Map<Seq<char>, Seq<Seq<char>>>
    decreases k,
{
    if k <= 0 {
        Map::empty()
    } else {
        let before = groups_after(lines, k - 1);
        match (line_kind(lines[k - 1]), target_after(lines, k - 1)) {
            (LineKind::Pattern, Some(name)) => before.insert(
                name,
                patterns_of(before, name).push(lines[k - 1]),
            ),
            _ => before,
        }
    }
}

/// Why a rule file is refused.
#[derive(Debug, Clone)]
pub enum ConfigError {
    /// The line at `index` (counted from zero) is a pattern, and no header
    /// stands before it.
    NoTarget { index: usize, line: String },
}

/// Whether `c` is white space.
pub fn is_whitespace(c: char) -> (b: bool)
    ensures
        b == is_space(c),
{
    let n: u32 = c as u32;
    (0x09 <= n && n <= 0x0d) || n == 0x20 || n == 0x85 || n == 0xa0 || n == 0x1680 || (0x2000 <= n
        && n <= 0x200a) || n == 0x2028 || n == 0x2029 || n == 0x202f || n == 0x205f || n == 0x3000
}

/// Whether `c` may stand in a group name.
pub fn is_name_character(c: char) -> (b: bool)
    ensures
        b == is_name_char(c),
{
    ('a' <= c && c <= 'z') || ('A' <= c && c <= 'Z') || ('0' <= c && c <= '9') || c == '-' || c
        == '_'
}

/// Whether `line` is blank or a comment.
pub fn is_blank_or_comment(line: &str) -> (b: bool)
    ensures
        b == blank_or_comment(line@),
{
    let len = line.unicode_len();
    let mut k: usize = 0;
    while k < len
        invariant
            len == line@.len(),
            k <= len,
            spaces_before(line@, k as int),
        decreases len - k,
    {
        let c = line.get_char(k);
        if !is_whitespace(c) {
            proof {
                if c != '#' {
                    assert forall|m: int| 0 <= m <= line@.len() && #[trigger] spaces_before(
                        line@,
                        m,
                    ) implies !(m == line@.len() || line@[m] == '#') by {
                        if m > k {
                            assert(is_space(line@[k as int]));
                        }
                    }
                }
            }
            return c == '#';
        }
        k += 1;
    }
    true
}

/// The group name in `line`, if `line` is a header.
pub fn header_name(line: &str) -> (name: Option<String>)
    ensures
        match name {
            Some(n) => header_of(line@) == Some(n@),
            None => header_of(line@) is None,
        },
{
    let len = line.unicode_len();
    if len < 3 {
        return None;
    }
    if line.get_char(0) != '[' || line.get_char(len - 1) != ']' {
        return None;
    }
    let mut j: usize = 1;
    while j < len - 1
        invariant
            len == line@.len(),
            len >= 3,
            1 <= j <= len - 1,
            forall|m: int| 1 <= m < j ==> is_name_char(#[trigger] line@[m]),
        decreases len - j,
    {
        if !is_name_character(line.get_char(j)) {
            return None;
        }
        j += 1;
    }
    let name = line.substring_char(1, len - 1).to_owned();
    Some(name)
}

/// Reads the lines of one rule file into a configuration.
///
/// The file is refused at its first pattern line that no header precedes.
/// Otherwise every pattern line is in the result, under the group that was
/// current where it stood, in the order of the lines.
pub fn read_config(lines: &Vec<String>) -> (r: Result<Config, ConfigError>)
    ensures
        match r {
            Ok(config) => {
                &&& config.wf()
                &&& forall|k: int| 0 <= k < lines@.len() ==> !stray(texts(lines@), k)
                &&& config@ == groups_after(texts(lines@), lines@.len() as int)
            },
            Err(ConfigError::NoTarget { index, line }) => {
                &&& index < lines@.len()
                &&& stray(texts(lines@), index as int)
                &&& forall|k: int| 0 <= k < index ==> !stray(texts(lines@), k)
                &&& line@ == lines@[index as int]@
            },
        },
{
    let ghost all = texts(lines@);
    let mut config = Config::new();
    let mut current: Option<String> = None;
    let mut i: usize = 0;
    while i < lines.len()
        invariant
            i <= lines@.len(),
            all == texts(lines@),
            config.wf(),
            config@ == groups_after(all, i as int),
            forall|k: int| 0 <= k < i ==> !stray(all, k),
            match current {
                Some(name) => target_after(all, i as int) == Some(name@),
                None => target_after(all, i as int) is None,
            },
        decreases lines@.len() - i,
    {
        let line = &lines[i];
        if !is_blank_or_comment(line.as_str()) {
            match header_name(line.as_str()) {
                Some(name) => {
                    current = Some(name);
                },
                None => {
                    match &current {
                        Some(target) => {
                            config.add_pattern(target.as_str(), line.clone());
                        },
                        None => {
                            return Err(ConfigError::NoTarget { index: i, line: line.clone() });
                        },
                    }
                },
            }
        }
        i += 1;
    }
    Ok(config)
}

} // verus!
