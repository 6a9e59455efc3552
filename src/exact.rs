//! Detection of requirements that pin one exact version.
//!
//! The check runs on the requirement as written: once a requirement is read
//! as an interval set, `== 1.0.0` and `1.0.0` can no longer be told apart from
//! a range that admits later compatible versions.

use vstd::prelude::*;
use crate::version::{Version, VersionView, parsed_version};

verus! {

/// Unicode's `White_Space` property.
pub open spec fn is_white_space(c: char) -> bool {
    let n = c as u32;
    ||| (0x9 <= n && n <= 0xd)
    ||| n == 0x20
    ||| n == 0x85
    ||| n == 0xa0
    ||| n == 0x1680
    ||| (0x2000 <= n && n <= 0x200a)
    ||| n == 0x2028
    ||| n == 0x2029
    ||| n == 0x202f
    ||| n == 0x205f
    ||| n == 0x3000
}

/// The text without its leading white space.
pub open spec fn trim_start(s: Seq<char>) -> Seq<char>
    decreases s.len(),
{
    if s.len() > 0 && is_white_space(s[0]) {
        trim_start(s.drop_first())
    } else {
        s
    }
}

/// The text without its trailing white space.
pub open spec fn trim_end(s: Seq<char>) -> Seq<char>
    decreases s.len(),
{
    if s.len() > 0 && is_white_space(s.last()) {
        trim_end(s.drop_last())
    } else {
        s
    }
}

/// The text without its leading and trailing white space.
pub open spec fn trimmed(s: Seq<char>) -> Seq<char> {
    trim_end(trim_start(s))
}

/// Whether `c` has Unicode's `White_Space` property.
pub fn is_white_space_char(c: char) -> (r: bool)
    ensures
        r == is_white_space(c),
{
    let n = c as u32;
    (0x9 <= n && n <= 0xd) || n == 0x20 || n == 0x85 || n == 0xa0 || n == 0x1680 || (0x2000 <= n && n
        <= 0x200a) || n == 0x2028 || n == 0x2029 || n == 0x202f || n == 0x205f || n == 0x3000
}

/// The text without its leading and trailing white space.
pub fn trim_text(text: &str) -> (r: &str)
    ensures
        r@ == trimmed(text@),
{
    let n = text.unicode_len();
    let mut start: usize = 0;
    assert(text@.subrange(0, n as int) =~= text@);
    while start < n && is_white_space_char(text.get_char(start))
        invariant
            start <= n,
            n == text@.len(),
            trim_start(text@) == trim_start(text@.subrange(start as int, n as int)),
        decreases n - start,
    {
        assert(text@.subrange(start as int, n as int).drop_first() =~= text@.subrange(start + 1, n as int));
        start = start + 1;
    }
    assert(trim_start(text@) == text@.subrange(start as int, n as int));
    let mut end: usize = n;
    while end > start && is_white_space_char(text.get_char(end - 1))
        invariant
            start <= end <= n,
            n == text@.len(),
            trimmed(text@) == trim_end(text@.subrange(start as int, end as int)),
        decreases end - start,
    {
        assert(text@.subrange(start as int, end as int).drop_last() =~= text@.subrange(start as int, end - 1));
        end = end - 1;
    }
    assert(trimmed(text@) == text@.subrange(start as int, end as int));
    text.substring_char(start, end)
}

pub open spec fn is_ascii_digit(c: char) -> bool {
    '0' <= c && c <= '9'
}

/// Of a trimmed requirement: one that starts with `==` pins the version that
/// the rest, trimmed, denotes; one that starts with an ASCII digit pins the
/// version that it denotes as a whole; any other pins nothing, as does one
/// whose version does not parse.
pub open spec fn exact_pin_of_trimmed(t: Seq<char>) -> Option<VersionView> {
    if t.len() >= 2 && t[0] == '=' && t[1] == '=' {
        parsed_version(trimmed(t.subrange(2, t.len() as int)))
    } else if t.len() > 0 && is_ascii_digit(t[0]) {
        parsed_version(t)
    } else {
        None
    }
}

/// The version that a requirement pins exactly, read after trimming it.
pub open spec fn exact_pin(raw: Seq<char>) -> Option<VersionView> {
    exact_pin_of_trimmed(trimmed(raw))
}

/// The version that an already trimmed requirement pins exactly, if any.
pub fn exact_version_of_trimmed(version: &str) -> (r: Option<Version>)
    ensures
        match r {
            Some(v) => exact_pin_of_trimmed(version@) == Some(v@),
            None => exact_pin_of_trimmed(version@) is None,
        },
{
    let n = version.unicode_len();
    if n >= 2 && version.get_char(0) == '=' && version.get_char(1) == '=' {
        let rest = version.substring_char(2, n);
        Version::parse(trim_text(rest))
    } else if n >= 1 && ('0' as u32) <= (version.get_char(0) as u32) && (version.get_char(0) as u32) <= ('9' as u32) {
        Version::parse(version)
    } else {
        None
    }
}

/// The version that a requirement pins exactly, if it pins one.
pub fn parse_exact_version(ver: &str) -> (r: Option<Version>)
    ensures
        match r {
            Some(v) => exact_pin(ver@) == Some(v@),
            None => exact_pin(ver@) is None,
        },
{
    exact_version_of_trimmed(trim_text(ver))
}

} // verus!
