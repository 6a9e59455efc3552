//! Requirement ranges, releases and packages.

use vstd::prelude::*;
use crate::exact::is_ascii_digit;
use crate::version::{Identifier, Version, VersionView};

verus! {

/// A version requirement as written, such as `~> 0.1` or `>= 1.0.0 and < 2.0.0`.
#[derive(Clone, Debug, PartialEq, Eq)]
pub struct Range {
    pub text: String,
}

impl View for Range {
    type V = Seq<char>;

    open spec fn view(&self) -> Seq<char> {
        self.text@
    }
}

/// The value of the ASCII digit `c`.
pub open spec fn digit_value(c: char) -> int {
    (c as int) - ('0' as int)
}

/// The value of the run of ASCII digits that ends the text, read as a
/// decimal number; zero where the text does not end in a digit.
pub open spec fn trailing_number(s: Seq<char>) -> nat
    decreases s.len(),
{
    if s.len() > 0 && is_ascii_digit(s.last()) {
        (trailing_number(s.drop_last()) * 10 + digit_value(s.last())) as nat
    } else {
        0
    }
}

/// The largest number that `hexpm` can read and still add one to.
pub const NUMBER_LIMIT: u64 = 4294967295;

/// Every run of ASCII digits in the text, read as a number, is below
/// `u32::MAX`: reading a range then never overflows a `u32`, neither where it
/// parses a number nor where it adds one to it.
pub open spec fn numbers_fit(s: Seq<char>) -> bool {
    forall|i: int| 0 <= i <= s.len() ==> #[trigger] trailing_number(s.subrange(0, i)) < NUMBER_LIMIT
}

/// Whether every run of ASCII digits in the text, read as a number, is
/// below `u32::MAX`.
pub fn has_fitting_numbers(text: &str) -> (r: bool)
    ensures
        r == numbers_fit(text@),
{
    let n = text.unicode_len();
    let mut value: u64 = 0;
    let mut i: usize = 0;
    assert(text@.subrange(0, 0).len() == 0);
    while i < n
        invariant
            n == text@.len(),
            i <= n,
            value as nat == trailing_number(text@.subrange(0, i as int)),
            forall|k: int| 0 <= k <= i ==> #[trigger] trailing_number(text@.subrange(0, k)) < NUMBER_LIMIT,
        decreases n - i,
    {
        let c = text.get_char(i);
        let ghost upto = text@.subrange(0, i + 1);
        assert(upto.drop_last() =~= text@.subrange(0, i as int));
        assert(upto.last() == c);
        if ('0' as u32) <= (c as u32) && (c as u32) <= ('9' as u32) {
            let d = (c as u32 - '0' as u32) as u64;
            assert(d as int == digit_value(c));
            value = value * 10 + d;
            if value >= NUMBER_LIMIT {
                assert(trailing_number(text@.subrange(0, i + 1)) >= NUMBER_LIMIT);
                return false;
            }
        } else {
            value = 0;
        }
        i = i + 1;
    }
    true
}

/// Whether `hexpm` reads the requirement text as a range (`Some`) and, if so,
/// whether the version lies in it.
pub uninterp spec fn range_admits(range: Seq<char>, v: VersionView) -> Option<bool>;

/// Relies on `hexpm::version::Range::to_pubgrub`, which parses the requirement
/// into a `pubgrub` interval set, and on that set's `contains`; the two stand
/// in one item because the parser's error type is private to `hexpm`. Reading
/// a range adds one to its numbers (`>`, `<=`, `~>`, exact versions) and
/// parses the digit runs of prerelease labels into `u32`s with `unwrap`, which
/// panics on `u32::MAX` and above: `requires` leaves those texts out. The
/// answer depends on the text and the version alone; a text that does not
/// parse gives the parser's error message.
#[verifier::external_body]
pub(crate) fn range_contains(range: &Range, v: &Version) -> (r: Result<bool, String>)
    requires
        numbers_fit(range@),
    ensures
        match r {
            Ok(b) => range_admits(range@, v@) == Some(b),
            Err(_) => range_admits(range@, v@) is None,
        },
{
    let pre = v.pre.iter().map(|i| match i {
        Identifier::Numeric(n) => hexpm::version::Identifier::Numeric(*n),
        Identifier::AlphaNumeric(a) => hexpm::version::Identifier::AlphaNumeric(a.clone()),
    }).collect();
    let version = hexpm::version::Version { major: v.major, minor: v.minor, patch: v.patch, pre, build: v.build.clone() };
    match hexpm::version::Range::new(range.text.clone()).to_pubgrub() {
        Ok(set) => Ok(set.contains(&version)),
        Err(e) => Err(e.to_string()),
    }
}

impl Range {
    pub fn new(text: String) -> (r: Range)
        ensures
            r@ == text@,
    {
        Range { text }
    }

    pub fn as_str(&self) -> (r: &str)
        ensures
            r@ == self@,
    {
        self.text.as_str()
    }

    /// A copy.
    pub fn duplicate(&self) -> (r: Range)
        ensures
            r == *self,
    {
        Range { text: self.text.clone() }
    }

    /// Whether `v` lies in the range; `Err` with the parser's message where the
    /// text is not a range.
    pub fn contains(&self, v: &Version) -> (r: Result<bool, String>)
        requires
            numbers_fit(self@),
        ensures
            match r {
                Ok(b) => range_admits(self@, v@) == Some(b),
                Err(_) => range_admits(self@, v@) is None,
            },
    {
        range_contains(self, v)
    }
}

/// Why a release was retired.
#[derive(Clone, Copy, Debug, PartialEq, Eq)]
pub enum RetirementReason {
    Other,
    Invalid,
    Security,
    Deprecated,
    Renamed,
}

/// The retirement of a release: its reason and a free-text message.
#[derive(Clone, Debug, PartialEq, Eq)]
pub struct RetirementStatus {
    pub reason: RetirementReason,
    pub message: String,
}

/// A requirement that a release declares on another package.
#[derive(Clone, Debug, PartialEq, Eq)]
pub struct Dependency {
    pub name: String,
    pub requirement: Range,
    pub optional: bool,
}

impl Dependency {
    /// A copy.
    pub fn duplicate(&self) -> (r: Dependency)
        ensures
            r == *self,
    {
        Dependency { name: self.name.clone(), requirement: self.requirement.duplicate(), optional: self.optional }
    }
}

/// A copy of each dependency of a list.
pub fn duplicate_dependencies(deps: &Vec<Dependency>) -> (r: Vec<Dependency>)
    ensures
        r@ == deps@,
{
    let mut r: Vec<Dependency> = Vec::new();
    let mut i: usize = 0;
    while i < deps.len()
        invariant
            i <= deps.len(),
            r@ == deps@.subrange(0, i as int),
        decreases deps.len() - i,
    {
        r.push(deps[i].duplicate());
        i = i + 1;
        assert(r@ =~= deps@.subrange(0, i as int));
    }
    assert(deps@.subrange(0, deps.len() as int) =~= deps@);
    r
}

/// One published version of a package.
#[derive(Clone, Debug, PartialEq, Eq)]
pub struct Release {
    pub version: Version,
    pub requirements: Vec<Dependency>,
    /// `Some` where the release is retired.
    pub retirement_status: Option<RetirementStatus>,
    /// Checksum of the release's tarball, carried through untouched.
    pub outer_checksum: Vec<u8>,
}

impl Release {
    pub fn is_retired(&self) -> (r: bool)
        ensures
            r == self.retirement_status is Some,
    {
        self.retirement_status.is_some()
    }
}

/// A package and the releases known of it.
#[derive(Clone, Debug, PartialEq, Eq)]
pub struct Package {
    pub name: String,
    pub repository: String,
    pub releases: Vec<Release>,
}

} // verus!
