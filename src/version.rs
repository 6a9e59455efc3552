//! Versions `major.minor.patch[-pre][+build]` and their total order.

use vstd::prelude::*;

verus! {

/// One dot-separated component of a prerelease label.
#[derive(Clone, Debug, PartialEq, Eq, Hash)]
pub enum Identifier {
    Numeric(u32),
    AlphaNumeric(String),
}

/// A version: a numeric triple, an optional prerelease label (a non-empty
/// `pre`), and optional build metadata, which takes no part in ordering.
#[derive(Clone, Debug, PartialEq, Eq, Hash)]
pub struct Version {
    pub major: u32,
    pub minor: u32,
    pub patch: u32,
    pub pre: Vec<Identifier>,
    pub build: Option<String>,
}

/// The mathematical value of an [`Identifier`].
pub enum IdentView {
    Numeric(u32),
    AlphaNumeric(Seq<char>),
}

/// The mathematical value of a [`Version`].
pub struct VersionView {
    pub major: u32,
    pub minor: u32,
    pub patch: u32,
    pub pre: Seq<IdentView>,
    pub build: Option<Seq<char>>,
}

impl View for Identifier {
    type V = IdentView;

    open spec fn view(&self) -> IdentView {
        match self {
            Identifier::Numeric(n) => IdentView::Numeric(*n),
            Identifier::AlphaNumeric(s) => IdentView::AlphaNumeric(s@),
        }
    }
}

/// The characters of an optional string.
pub open spec fn opt_chars(s: Option<String>) -> Option<Seq<char>> {
    match s {
        Some(t) => Some(t@),
        None => None,
    }
}

impl View for Version {
    type V = VersionView;

    open spec fn view(&self) -> VersionView {
        VersionView {
            major: self.major,
            minor: self.minor,
            patch: self.patch,
            pre: self.pre@.map_values(|i: Identifier| i@),
            build: opt_chars(self.build),
        }
    }
}

impl VersionView {
    pub open spec fn is_pre(self) -> bool {
        self.pre.len() > 0
    }
}

/// Three-way comparison of integers: -1, 0 or 1.
pub open spec fn int_cmp(a: int, b: int) -> int {
    if a < b {
        -1
    } else if a > b {
        1
    } else {
        0
    }
}

/// Lexicographic order of character sequences, by code point; a proper
/// prefix sorts first.
pub open spec fn chars_cmp(a: Seq<char>, b: Seq<char>) -> int
    decreases a.len(),
{
    if a.len() == 0 {
        if b.len() == 0 {
            0
        } else {
            -1
        }
    } else if b.len() == 0 {
        1
    } else if a[0] != b[0] {
        int_cmp(a[0] as int, b[0] as int)
    } else {
        chars_cmp(a.drop_first(), b.drop_first())
    }
}

/// Numeric identifiers sort below alphanumeric ones.
pub open spec fn ident_cmp(a: IdentView, b: IdentView) -> int {
    match (a, b) {
        (IdentView::Numeric(x), IdentView::Numeric(y)) => int_cmp(x as int, y as int),
        (IdentView::Numeric(_), IdentView::AlphaNumeric(_)) => -1,
        (IdentView::AlphaNumeric(_), IdentView::Numeric(_)) => 1,
        (IdentView::AlphaNumeric(x), IdentView::AlphaNumeric(y)) => chars_cmp(x, y),
    }
}

/// Lexicographic order of identifier sequences; a proper prefix sorts first.
pub open spec fn idents_cmp(a: Seq<IdentView>, b: Seq<IdentView>) -> int
    decreases a.len(),
{
    if a.len() == 0 {
        if b.len() == 0 {
            0
        } else {
            -1
        }
    } else if b.len() == 0 {
        1
    } else if ident_cmp(a[0], b[0]) != 0 {
        ident_cmp(a[0], b[0])
    } else {
        idents_cmp(a.drop_first(), b.drop_first())
    }
}

/// Order of prerelease labels: no label sorts above every label.
pub open spec fn pre_cmp(a: Seq<IdentView>, b: Seq<IdentView>) -> int {
    if a.len() == 0 && b.len() == 0 {
        0
    } else if a.len() == 0 {
        1
    } else if b.len() == 0 {
        -1
    } else {
        idents_cmp(a, b)
    }
}

/// The total order of versions: the numeric triple first, then the
/// prerelease label. Build metadata is ignored.
pub open spec fn version_cmp(a: VersionView, b: VersionView) -> int {
    if a.major != b.major {
        int_cmp(a.major as int, b.major as int)
    } else if a.minor != b.minor {
        int_cmp(a.minor as int, b.minor as int)
    } else if a.patch != b.patch {
        int_cmp(a.patch as int, b.patch as int)
    } else {
        pre_cmp(a.pre, b.pre)
    }
}

pub proof fn lemma_chars_cmp_antisym(a: Seq<char>, b: Seq<char>)
    ensures
        chars_cmp(a, b) == -chars_cmp(b, a),
        -1 <= chars_cmp(a, b) <= 1,
    decreases a.len(),
{
    if a.len() > 0 && b.len() > 0 {
        lemma_chars_cmp_antisym(a.drop_first(), b.drop_first());
    }
}

pub proof fn lemma_ident_cmp_antisym(a: IdentView, b: IdentView)
    ensures
        ident_cmp(a, b) == -ident_cmp(b, a),
        -1 <= ident_cmp(a, b) <= 1,
{
    match (a, b) {
        (IdentView::AlphaNumeric(x), IdentView::AlphaNumeric(y)) => lemma_chars_cmp_antisym(x, y),
        _ => {},
    }
}

pub proof fn lemma_idents_cmp_antisym(a: Seq<IdentView>, b: Seq<IdentView>)
    ensures
        idents_cmp(a, b) == -idents_cmp(b, a),
        -1 <= idents_cmp(a, b) <= 1,
    decreases a.len(),
{
    if a.len() > 0 && b.len() > 0 {
        lemma_ident_cmp_antisym(a[0], b[0]);
        lemma_idents_cmp_antisym(a.drop_first(), b.drop_first());
    }
}

/// Swapping the arguments of the version order negates it.
pub proof fn lemma_version_cmp_antisym(a: VersionView, b: VersionView)
    ensures
        version_cmp(a, b) == -version_cmp(b, a),
        -1 <= version_cmp(a, b) <= 1,
{
    lemma_idents_cmp_antisym(a.pre, b.pre);
}

pub proof fn lemma_chars_cmp_zero(a: Seq<char>, b: Seq<char>)
    requires
        chars_cmp(a, b) == 0,
    ensures
        a == b,
    decreases a.len(),
{
    if a.len() == 0 {
        assert(a =~= b);
    } else if b.len() > 0 && a[0] == b[0] {
        lemma_chars_cmp_zero(a.drop_first(), b.drop_first());
        assert(a.drop_first().len() == b.drop_first().len());
        assert(a.len() == b.len());
        assert forall|i: int| 0 <= i < a.len() implies a[i] == b[i] by {
            if i > 0 {
                assert(a[i] == a.drop_first()[i - 1]);
                assert(b[i] == b.drop_first()[i - 1]);
            }
        }
        assert(a =~= b);
    }
}

pub proof fn lemma_chars_cmp_trans(a: Seq<char>, b: Seq<char>, c: Seq<char>)
    requires
        chars_cmp(a, b) <= 0,
        chars_cmp(b, c) <= 0,
    ensures
        chars_cmp(a, c) <= 0,
    decreases a.len(),
{
    if a.len() > 0 && b.len() > 0 && c.len() > 0 && a[0] == b[0] && b[0] == c[0] {
        lemma_chars_cmp_trans(a.drop_first(), b.drop_first(), c.drop_first());
    }
}

pub proof fn lemma_ident_cmp_zero(a: IdentView, b: IdentView)
    requires
        ident_cmp(a, b) == 0,
    ensures
        a == b,
{
    match (a, b) {
        (IdentView::AlphaNumeric(x), IdentView::AlphaNumeric(y)) => lemma_chars_cmp_zero(x, y),
        _ => {},
    }
}

pub proof fn lemma_ident_cmp_trans(a: IdentView, b: IdentView, c: IdentView)
    requires
        ident_cmp(a, b) <= 0,
        ident_cmp(b, c) <= 0,
    ensures
        ident_cmp(a, c) <= 0,
{
    match (a, b, c) {
        (IdentView::AlphaNumeric(x), IdentView::AlphaNumeric(y), IdentView::AlphaNumeric(z)) => {
            lemma_chars_cmp_trans(x, y, z)
        },
        _ => {},
    }
}

pub proof fn lemma_idents_cmp_trans(a: Seq<IdentView>, b: Seq<IdentView>, c: Seq<IdentView>)
    requires
        idents_cmp(a, b) <= 0,
        idents_cmp(b, c) <= 0,
    ensures
        idents_cmp(a, c) <= 0,
    decreases a.len(),
{
    if a.len() > 0 && b.len() > 0 && c.len() > 0 {
        lemma_ident_cmp_antisym(a[0], b[0]);
        lemma_ident_cmp_antisym(b[0], c[0]);
        lemma_ident_cmp_antisym(a[0], c[0]);
        lemma_ident_cmp_antisym(a[0], a[0]);
        let x = ident_cmp(a[0], b[0]);
        let y = ident_cmp(b[0], c[0]);
        if x == 0 {
            lemma_ident_cmp_zero(a[0], b[0]);
        }
        if y == 0 {
            lemma_ident_cmp_zero(b[0], c[0]);
        }
        if x == 0 && y == 0 {
            lemma_idents_cmp_trans(a.drop_first(), b.drop_first(), c.drop_first());
        } else if x < 0 && y < 0 {
            lemma_ident_cmp_trans(a[0], b[0], c[0]);
            if ident_cmp(a[0], c[0]) == 0 {
                lemma_ident_cmp_zero(a[0], c[0]);
            }
        }
    }
}

/// The version order is transitive.
pub proof fn lemma_version_cmp_trans(a: VersionView, b: VersionView, c: VersionView)
    requires
        version_cmp(a, b) <= 0,
        version_cmp(b, c) <= 0,
    ensures
        version_cmp(a, c) <= 0,
{
    if a.major == b.major && b.major == c.major && a.minor == b.minor && b.minor == c.minor
        && a.patch == b.patch && b.patch == c.patch {
        if a.pre.len() > 0 && b.pre.len() > 0 && c.pre.len() > 0 {
            lemma_idents_cmp_trans(a.pre, b.pre, c.pre);
        }
    }
}

/// Three-way comparison of two character strings, by code point.
pub fn compare_chars(a: &String, b: &String) -> (r: i8)
    ensures
        r as int == chars_cmp(a@, b@),
{
    let sa = a.as_str();
    let sb = b.as_str();
    let la = sa.unicode_len();
    let lb = sb.unicode_len();
    let mut i: usize = 0;
    assert(a@.subrange(0, la as int) =~= a@);
    assert(b@.subrange(0, lb as int) =~= b@);
    while i < la && i < lb
        invariant
            la == a@.len(),
            lb == b@.len(),
            sa@ == a@,
            sb@ == b@,
            i <= la,
            i <= lb,
            chars_cmp(a@, b@) == chars_cmp(a@.subrange(i as int, la as int), b@.subrange(i as int, lb as int)),
        decreases la - i,
    {
        let ca = sa.get_char(i);
        let cb = sb.get_char(i);
        let ghost ra = a@.subrange(i as int, la as int);
        let ghost rb = b@.subrange(i as int, lb as int);
        assert(ra.drop_first() =~= a@.subrange(i + 1, la as int));
        assert(rb.drop_first() =~= b@.subrange(i + 1, lb as int));
        if (ca as u32) < (cb as u32) {
            return -1;
        } else if (ca as u32) > (cb as u32) {
            return 1;
        }
        i = i + 1;
    }
    if i < la {
        1
    } else if i < lb {
        -1
    } else {
        0
    }
}

/// Three-way comparison of two identifiers.
pub fn compare_identifiers(a: &Identifier, b: &Identifier) -> (r: i8)
    ensures
        r as int == ident_cmp(a@, b@),
{
    match (a, b) {
        (Identifier::Numeric(x), Identifier::Numeric(y)) => {
            if *x < *y {
                -1
            } else if *x > *y {
                1
            } else {
                0
            }
        },
        (Identifier::Numeric(_), Identifier::AlphaNumeric(_)) => -1,
        (Identifier::AlphaNumeric(_), Identifier::Numeric(_)) => 1,
        (Identifier::AlphaNumeric(x), Identifier::AlphaNumeric(y)) => compare_chars(x, y),
    }
}

/// Three-way comparison of two identifier sequences, lexicographically.
fn compare_identifier_seqs(a: &Vec<Identifier>, b: &Vec<Identifier>) -> (r: i8)
    ensures
        r as int == idents_cmp(a@.map_values(|i: Identifier| i@), b@.map_values(|i: Identifier| i@)),
{
    let ghost va = a@.map_values(|i: Identifier| i@);
    let ghost vb = b@.map_values(|i: Identifier| i@);
    let mut i: usize = 0;
    assert(va.subrange(0, va.len() as int) =~= va);
    assert(vb.subrange(0, vb.len() as int) =~= vb);
    while i < a.len() && i < b.len()
        invariant
            i <= a.len(),
            i <= b.len(),
            va == a@.map_values(|i: Identifier| i@),
            vb == b@.map_values(|i: Identifier| i@),
            idents_cmp(va, vb) == idents_cmp(va.subrange(i as int, va.len() as int), vb.subrange(i as int, vb.len() as int)),
        decreases a.len() - i,
    {
        let c = compare_identifiers(&a[i], &b[i]);
        let ghost ra = va.subrange(i as int, va.len() as int);
        let ghost rb = vb.subrange(i as int, vb.len() as int);
        assert(ra.drop_first() =~= va.subrange(i + 1, va.len() as int));
        assert(rb.drop_first() =~= vb.subrange(i + 1, vb.len() as int));
        assert(ra[0] == a[i as int]@);
        assert(rb[0] == b[i as int]@);
        if c != 0 {
            return c;
        }
        i = i + 1;
    }
    if i < a.len() {
        1
    } else if i < b.len() {
        -1
    } else {
        0
    }
}

impl Version {
    pub fn new(major: u32, minor: u32, patch: u32) -> (r: Version)
        ensures
            r@ == (VersionView { major, minor, patch, pre: Seq::empty(), build: None }),
    {
        let r = Version { major, minor, patch, pre: Vec::new(), build: None };
        assert(r@.pre =~= Seq::<IdentView>::empty());
        r
    }

    /// Whether the version carries a prerelease label.
    pub fn is_pre(&self) -> (r: bool)
        ensures
            r == self@.is_pre(),
    {
        self.pre.len() > 0
    }

    /// Three-way comparison in the total order of versions.
    pub fn compare(&self, other: &Version) -> (r: i8)
        ensures
            r as int == version_cmp(self@, other@),
    {
        if self.major != other.major {
            if self.major < other.major { -1 } else { 1 }
        } else if self.minor != other.minor {
            if self.minor < other.minor { -1 } else { 1 }
        } else if self.patch != other.patch {
            if self.patch < other.patch { -1 } else { 1 }
        } else if self.pre.len() == 0 && other.pre.len() == 0 {
            0
        } else if self.pre.len() == 0 {
            1
        } else if other.pre.len() == 0 {
            -1
        } else {
            compare_identifier_seqs(&self.pre, &other.pre)
        }
    }
}

/// What `hexpm`'s version parser reads from a text, if it accepts it.
pub uninterp spec fn parsed_version(text: Seq<char>) -> Option<VersionView>;

/// Relies on `hexpm::version::Version::parse`: the version that a text
/// denotes, if the text is one; the result depends on the text alone.
#[verifier::external_body]
fn parse_version_text(text: &str) -> (r: Option<Version>)
    ensures
        match r {
            Some(v) => parsed_version(text@) == Some(v@),
            None => parsed_version(text@) is None,
        },
{
    let v = hexpm::version::Version::parse(text).ok()?;
    let pre = v.pre.into_iter().map(|i| match i {
        hexpm::version::Identifier::Numeric(n) => Identifier::Numeric(n),
        hexpm::version::Identifier::AlphaNumeric(a) => Identifier::AlphaNumeric(a),
    }).collect();
    Some(Version { major: v.major, minor: v.minor, patch: v.patch, pre, build: v.build })
}

/// The decimal digit `d`.
pub open spec fn digit_char(d: int) -> char {
    if d == 0 {
        '0'
    } else if d == 1 {
        '1'
    } else if d == 2 {
        '2'
    } else if d == 3 {
        '3'
    } else if d == 4 {
        '4'
    } else if d == 5 {
        '5'
    } else if d == 6 {
        '6'
    } else if d == 7 {
        '7'
    } else if d == 8 {
        '8'
    } else {
        '9'
    }
}

/// A number in decimal, without leading zeros.
pub open spec fn decimal(n: nat) -> Seq<char>
    decreases n,
{
    if n < 10 {
        seq![digit_char(n as int)]
    } else {
        decimal(n / 10).push(digit_char((n % 10) as int))
    }
}

pub open spec fn ident_text(i: IdentView) -> Seq<char> {
    match i {
        IdentView::Numeric(n) => decimal(n as nat),
        IdentView::AlphaNumeric(s) => s,
    }
}

/// The identifiers of a prerelease label, separated by dots.
pub open spec fn pre_text(ids: Seq<IdentView>) -> Seq<char>
    decreases ids.len(),
{
    if ids.len() == 0 {
        Seq::empty()
    } else if ids.len() == 1 {
        ident_text(ids[0])
    } else {
        pre_text(ids.drop_last()).push('.') + ident_text(ids.last())
    }
}

/// A version as text: `major.minor.patch`, then `-` and the prerelease label
/// if there is one, then `+` and the build metadata if there is any.
pub open spec fn version_text_of(v: VersionView) -> Seq<char> {
    let core = decimal(v.major as nat).push('.') + decimal(v.minor as nat).push('.') + decimal(v.patch as nat);
    let with_pre = if v.pre.len() > 0 {
        core.push('-') + pre_text(v.pre)
    } else {
        core
    };
    match v.build {
        Some(b) => with_pre.push('+') + b,
        None => with_pre,
    }
}

fn push_char(text: &mut String, c: char)
    requires
        c == '0' || c == '1' || c == '2' || c == '3' || c == '4' || c == '5' || c == '6' || c == '7'
            || c == '8' || c == '9' || c == '.' || c == '-' || c == '+',
    ensures
        final(text)@ == old(text)@.push(c),
{
    let s: &str = if c == '0' {
        "0"
    } else if c == '1' {
        "1"
    } else if c == '2' {
        "2"
    } else if c == '3' {
        "3"
    } else if c == '4' {
        "4"
    } else if c == '5' {
        "5"
    } else if c == '6' {
        "6"
    } else if c == '7' {
        "7"
    } else if c == '8' {
        "8"
    } else if c == '9' {
        "9"
    } else if c == '.' {
        "."
    } else if c == '-' {
        "-"
    } else {
        "+"
    };
    proof {
        reveal_strlit("0");
        reveal_strlit("1");
        reveal_strlit("2");
        reveal_strlit("3");
        reveal_strlit("4");
        reveal_strlit("5");
        reveal_strlit("6");
        reveal_strlit("7");
        reveal_strlit("8");
        reveal_strlit("9");
        reveal_strlit(".");
        reveal_strlit("-");
        reveal_strlit("+");
        assert(s@ =~= seq![c]);
    }
    text.append(s);
}

fn digit_of(d: u32) -> (c: char)
    requires
        d < 10,
    ensures
        c == digit_char(d as int),
{
    if d == 0 {
        '0'
    } else if d == 1 {
        '1'
    } else if d == 2 {
        '2'
    } else if d == 3 {
        '3'
    } else if d == 4 {
        '4'
    } else if d == 5 {
        '5'
    } else if d == 6 {
        '6'
    } else if d == 7 {
        '7'
    } else if d == 8 {
        '8'
    } else {
        '9'
    }
}

fn append_decimal(text: &mut String, n: u32)
    ensures
        final(text)@ == old(text)@ + decimal(n as nat),
    decreases n,
{
    if n >= 10 {
        append_decimal(text, n / 10);
    }
    push_char(text, digit_of(n % 10));
    proof {
        assert(final(text)@ =~= old(text)@ + decimal(n as nat));
    }
}

impl Identifier {
    /// A copy with the same value.
    pub fn duplicate(&self) -> (r: Identifier)
        ensures
            r@ == self@,
    {
        match self {
            Identifier::Numeric(n) => Identifier::Numeric(*n),
            Identifier::AlphaNumeric(s) => Identifier::AlphaNumeric(s.clone()),
        }
    }
}

impl Version {
    /// The version that `text` denotes, if it is one.
    pub fn parse(text: &str) -> (r: Option<Version>)
        ensures
            match r {
                Some(v) => parsed_version(text@) == Some(v@),
                None => parsed_version(text@) is None,
            },
    {
        parse_version_text(text)
    }

    /// The version as text, `major.minor.patch[-pre][+build]`.
    pub fn text(&self) -> (r: String)
        ensures
            r@ == version_text_of(self@),
    {
        let mut text = String::new();
        append_decimal(&mut text, self.major);
        push_char(&mut text, '.');
        append_decimal(&mut text, self.minor);
        push_char(&mut text, '.');
        append_decimal(&mut text, self.patch);
        let ghost core = text@;
        let ghost ids = self@.pre;
        if self.pre.len() > 0 {
            push_char(&mut text, '-');
            let ghost start = text@;
            let mut i: usize = 0;
            while i < self.pre.len()
                invariant
                    i <= self.pre.len(),
                    ids == self@.pre,
                    text@ == start + pre_text(ids.subrange(0, i as int)),
                decreases self.pre.len() - i,
            {
                let ghost before = text@;
                if i > 0 {
                    push_char(&mut text, '.');
                }
                match &self.pre[i] {
                    Identifier::Numeric(n) => append_decimal(&mut text, *n),
                    Identifier::AlphaNumeric(a) => text.append(a.as_str()),
                }
                proof {
                    let upto = ids.subrange(0, i + 1);
                    assert(upto.drop_last() =~= ids.subrange(0, i as int));
                    assert(upto.last() == self.pre@[i as int]@);
                    if i == 0 {
                        assert(ids.subrange(0, 0) =~= Seq::<IdentView>::empty());
                    }
                    assert(text@ =~= start + pre_text(upto));
                }
                i = i + 1;
            }
            assert(ids.subrange(0, ids.len() as int) =~= ids);
        }
        if let Some(b) = &self.build {
            push_char(&mut text, '+');
            text.append(b.as_str());
        }
        assert(text@ =~= version_text_of(self@));
        text
    }

    /// A copy with the same value.
    pub fn duplicate(&self) -> (r: Version)
        ensures
            r@ == self@,
    {
        let mut pre: Vec<Identifier> = Vec::new();
        let mut i: usize = 0;
        while i < self.pre.len()
            invariant
                i <= self.pre.len(),
                pre@.len() == i,
                forall|k: int| 0 <= k < i ==> #[trigger] pre@[k]@ == self.pre@[k]@,
            decreases self.pre.len() - i,
        {
            pre.push(self.pre[i].duplicate());
            i = i + 1;
        }
        let build = match &self.build {
            Some(b) => Some(b.clone()),
            None => None,
        };
        let r = Version { major: self.major, minor: self.minor, patch: self.patch, pre, build };
        assert(r@.pre =~= self@.pre);
        r
    }

    /// Whether the two versions have the same value, build metadata included.
    pub fn same(&self, other: &Version) -> (r: bool)
        ensures
            r == (self@ == other@),
    {
        if self.major != other.major || self.minor != other.minor || self.patch != other.patch {
            return false;
        }
        let builds_equal = match (&self.build, &other.build) {
            (Some(a), Some(b)) => *a == *b,
            (None, None) => true,
            _ => false,
        };
        if !builds_equal {
            return false;
        }
        if self.pre.len() != other.pre.len() {
            assert(self@.pre.len() != other@.pre.len());
            return false;
        }
        let mut i: usize = 0;
        while i < self.pre.len()
            invariant
                i <= self.pre.len(),
                self.pre.len() == other.pre.len(),
                forall|k: int| 0 <= k < i ==> #[trigger] self.pre@[k]@ == other.pre@[k]@,
            decreases self.pre.len() - i,
        {
            let equal = match (&self.pre[i], &other.pre[i]) {
                (Identifier::Numeric(a), Identifier::Numeric(b)) => *a == *b,
                (Identifier::AlphaNumeric(a), Identifier::AlphaNumeric(b)) => *a == *b,
                _ => false,
            };
            if !equal {
                assert(self@.pre[i as int] != other@.pre[i as int]);
                return false;
            }
            i = i + 1;
        }
        assert(self@.pre =~= other@.pre);
        true
    }
}

} // verus!
