//! Semantic versions: parsing, comparison and stability.

use std::cmp::Ordering;
use vstd::prelude::*;

use crate::chars;
use crate::number;
use crate::order;
use crate::text::{self, chars_of, string_of};

verus! {

/// A semantic version: `major.minor.patch`, with a suffix where it is a prerelease.
#[derive(Debug, Clone, PartialEq, Eq)]
pub struct SemVer {
    pub major: u32,
    pub minor: u32,
    pub patch: u32,
    pub prerelease: Option<String>,
}

/// What a [`SemVer`] says.
pub struct VersionView {
    pub major: nat,
    pub minor: nat,
    pub patch: nat,
    pub prerelease: Option<Seq<char>>,
}

impl View for SemVer {
    type V = VersionView;

    open spec fn view(&self) -> VersionView {
        VersionView {
            major: self.major as nat,
            minor: self.minor as nat,
            patch: self.patch as nat,
            prerelease: text::opt_text(self.prerelease),
        }
    }
}

/// The version of a base `major.minor.patch` and a suffix.
pub open spec fn version_of(base: Seq<char>, prerelease: Option<Seq<char>>) -> Option<VersionView> {
    let parts = text::split(base, '.');
    if parts.len() != 3 {
        None
    } else {
        match (
            number::parsed(parts[0], u32::MAX as int),
            number::parsed(parts[1], u32::MAX as int),
            number::parsed(parts[2], u32::MAX as int),
        ) {
            (Some(major), Some(minor), Some(patch)) => Some(
                VersionView { major, minor, patch, prerelease },
            ),
            _ => None,
        }
    }
}

/// The version that a text names: leading `v`s do not count, and the first hyphen
/// begins the suffix.
pub open spec fn parsed_version(s: Seq<char>) -> Option<VersionView> {
    let t = text::trim_start_char(s, 'v');
    match text::find_char(t, '-') {
        Some(k) => version_of(t.take(k), Some(t.skip(k + 1))),
        None => version_of(t, None),
    }
}

/// Whether version `a` is older than `b`: by major, minor and patch number, then a
/// prerelease before its stable version, then by the suffixes.
pub open spec fn is_older(a: VersionView, b: VersionView) -> bool {
    if a.major != b.major {
        a.major < b.major
    } else if a.minor != b.minor {
        a.minor < b.minor
    } else if a.patch != b.patch {
        a.patch < b.patch
    } else {
        match (a.prerelease, b.prerelease) {
            (Some(x), Some(y)) => order::precedes(x, y),
            (Some(_), None) => true,
            _ => false,
        }
    }
}

/// A version as text.
pub open spec fn version_text(v: VersionView) -> Seq<char> {
    let base = number::decimal(v.major) + "."@ + number::decimal(v.minor) + "."@ + number::decimal(
        v.patch,
    );
    match v.prerelease {
        Some(p) => base + "-"@ + p,
        None => base,
    }
}

fn parse_part(s: &[char]) -> (r: Option<u32>)
    ensures
        match r {
            Some(n) => number::parsed(s@, u32::MAX as int) == Some(n as nat),
            None => number::parsed(s@, u32::MAX as int) is None,
        },
{
    match number::parse_upto(s, u32::MAX as u64) {
        Some(n) => Some(n as u32),
        None => None,
    }
}

fn parse_base(base: &[char], prerelease: Option<String>) -> (r: Option<SemVer>)
    ensures
        match r {
            Some(v) => version_of(base@, text::opt_text(prerelease)) == Some(v@),
            None => version_of(base@, text::opt_text(prerelease)) is None,
        },
{
    let parts = text::split_on(base, '.');
    let ghost all = text::split(base@, '.');
    if parts.len() != 3 {
        return None;
    }
    assert(all[0] == parts@[0]@ && all[1] == parts@[1]@ && all[2] == parts@[2]@);
    match (parse_part(parts[0]), parse_part(parts[1]), parse_part(parts[2])) {
        (Some(major), Some(minor), Some(patch)) => Some(
            SemVer { major, minor, patch, prerelease },
        ),
        _ => None,
    }
}

impl SemVer {
    /// Parse a version such as `1.2.3`, `v1.2.3` or `1.2.3-alpha`.
    pub fn parse(s: &str) -> (r: Option<SemVer>)
        ensures
            match r {
                Some(v) => parsed_version(s@) == Some(v@),
                None => parsed_version(s@) is None,
            },
    {
        let c = chars_of(s);
        let t = text::trimmed_start_char(c.as_slice(), 'v');
        let n: usize = t.len();
        match text::find_ch(t, '-') {
            Some(k) => parse_base(text::upto(t, k), Some(string_of(text::from(t, k + 1)))),
            None => parse_base(t, None),
        }
    }

    /// Whether the version is stable: it has no suffix.
    pub fn is_stable(&self) -> (r: bool)
        ensures
            r == (self@.prerelease is None),
    {
        self.prerelease.is_none()
    }

    /// Compare two versions. A stable version is newer than a prerelease of the same base.
    pub fn compare(&self, other: &SemVer) -> (r: Ordering)
        ensures
            match r {
                Ordering::Less => is_older(self@, other@),
                Ordering::Greater => is_older(other@, self@),
                Ordering::Equal => self@ == other@,
            },
    {
        if self.major != other.major {
            return if self.major < other.major {
                Ordering::Less
            } else {
                Ordering::Greater
            };
        }
        if self.minor != other.minor {
            return if self.minor < other.minor {
                Ordering::Less
            } else {
                Ordering::Greater
            };
        }
        if self.patch != other.patch {
            return if self.patch < other.patch {
                Ordering::Less
            } else {
                Ordering::Greater
            };
        }
        match (&self.prerelease, &other.prerelease) {
            (None, None) => Ordering::Equal,
            (None, Some(_)) => Ordering::Greater,
            (Some(_), None) => Ordering::Less,
            (Some(a), Some(b)) => if text::same_str(a.as_str(), b.as_str()) {
                Ordering::Equal
            } else {
                proof {
                    order::law_order_is_total(a@, b@);
                }
                if order::before_str(a.as_str(), b.as_str()) {
                    Ordering::Less
                } else {
                    Ordering::Greater
                }
            },
        }
    }

    /// Whether the version is newer than another one.
    pub fn is_newer_than(&self, other: &SemVer) -> (r: bool)
        ensures
            r == is_older(other@, self@),
    {
        proof {
            law_version_order(self@, other@);
        }
        match self.compare(other) {
            Ordering::Greater => true,
            _ => false,
        }
    }

    /// The version as text.
    pub fn to_string(&self) -> (r: String)
        ensures
            r@ == version_text(self@),
    {
        let mut out = number::show(self.major as u64);
        text::push(&mut out, ".");
        text::push(&mut out, number::show(self.minor as u64).as_str());
        text::push(&mut out, ".");
        text::push(&mut out, number::show(self.patch as u64).as_str());
        if let Some(p) = &self.prerelease {
            text::push(&mut out, "-");
            text::push(&mut out, p.as_str());
        }
        out
    }
}

/// What comparing two versions gives.
pub open spec fn compared(a: VersionView, b: VersionView) -> Option<Ordering> {
    if is_older(a, b) {
        Some(Ordering::Less)
    } else if is_older(b, a) {
        Some(Ordering::Greater)
    } else {
        Some(Ordering::Equal)
    }
}

impl PartialOrd for SemVer {
    fn partial_cmp(&self, other: &SemVer) -> (r: Option<Ordering>) {
        proof {
            law_version_order(self@, other@);
        }
        Some(self.compare(other))
    }
}

impl vstd::std_specs::cmp::PartialOrdSpecImpl for SemVer {
    open spec fn obeys_partial_cmp_spec() -> bool {
        true
    }

    open spec fn partial_cmp_spec(&self, other: &SemVer) -> Option<Ordering> {
        compared(self@, other@)
    }
}

// ---------------------------------------------------------------------------
// Laws
// ---------------------------------------------------------------------------

/// Of two different versions exactly one is older.
pub proof fn law_version_order(a: VersionView, b: VersionView)
    ensures
        a == b <==> !is_older(a, b) && !is_older(b, a),
        !(is_older(a, b) && is_older(b, a)),
{
    match (a.prerelease, b.prerelease) {
        (Some(x), Some(y)) => {
            order::lemma_asymmetric(x, y);
            order::lemma_asymmetric(x, x);
            if x != y {
                order::law_order_is_total(x, y);
            }
        },
        _ => {},
    }
}

/// A version older than a second one is older than all that the second one is older
/// than.
pub proof fn law_version_order_is_transitive(a: VersionView, b: VersionView, c: VersionView)
    requires
        is_older(a, b),
        is_older(b, c),
    ensures
        is_older(a, c),
{
    match (a.prerelease, b.prerelease, c.prerelease) {
        (Some(x), Some(y), Some(z)) => {
            if order::precedes(x, y) && order::precedes(y, z) {
                order::law_order_is_transitive(x, y, z);
            }
        },
        _ => {},
    }
}

/// A prerelease is older than the stable version of the same base.
pub proof fn law_prerelease_before_stable(v: VersionView, suffix: Seq<char>)
    requires
        v.prerelease is None,
    ensures
        is_older(VersionView { prerelease: Some(suffix), ..v }, v),
{
}

proof fn lemma_digits_no_char(n: nat, c: char)
    requires
        !chars::is_digit(c),
    ensures
        !number::decimal(n).contains(c),
{
    number::law_value_of_decimal(n);
    assert forall|i: int| 0 <= i < number::decimal(n).len() implies number::decimal(n)[i] != c by {
        assert(chars::is_digit(number::decimal(n)[i]));
    }
}

proof fn lemma_find_after(a: Seq<char>, c: char, b: Seq<char>, i: int)
    requires
        !a.contains(c),
        0 <= i <= a.len(),
    ensures
        text::find_char_from(a + seq![c] + b, c, i) == Some(a.len() as int),
    decreases a.len() - i,
{
    let s = a + seq![c] + b;
    if i < a.len() {
        assert(s[i] == a[i]);
        assert(a.contains(a[i]));
        lemma_find_after(a, c, b, i + 1);
    } else {
        assert(s[i] == c);
    }
}

proof fn lemma_find_none(a: Seq<char>, c: char, i: int)
    requires
        !a.contains(c),
        0 <= i <= a.len(),
    ensures
        text::find_char_from(a, c, i) is None,
    decreases a.len() - i,
{
    if i < a.len() {
        assert(a.contains(a[i]));
        lemma_find_none(a, c, i + 1);
    }
}

proof fn lemma_split_after(a: Seq<char>, c: char, b: Seq<char>)
    requires
        !a.contains(c),
    ensures
        text::split(a + seq![c] + b, c) == seq![a] + text::split(b, c),
{
    let s = a + seq![c] + b;
    lemma_find_after(a, c, b, 0);
    assert(s.take(a.len() as int) =~= a);
    assert(s.skip(a.len() as int + 1) =~= b);
}

proof fn lemma_split_none(a: Seq<char>, c: char)
    requires
        !a.contains(c),
    ensures
        text::split(a, c) == seq![a],
{
    lemma_find_none(a, c, 0);
}

/// Parsing the text of a version gives the version back.
pub proof fn law_parse_shown_version(v: VersionView)
    requires
        v.major <= u32::MAX,
        v.minor <= u32::MAX,
        v.patch <= u32::MAX,
    ensures
        parsed_version(version_text(v)) == Some(v),
{
    reveal_strlit(".");
    reveal_strlit("-");
    assert("."@ =~= seq!['.']);
    assert("-"@ =~= seq!['-']);
    let a = number::decimal(v.major);
    let b = number::decimal(v.minor);
    let c = number::decimal(v.patch);
    lemma_digits_no_char(v.major, '.');
    lemma_digits_no_char(v.minor, '.');
    lemma_digits_no_char(v.patch, '.');
    lemma_digits_no_char(v.major, '-');
    lemma_digits_no_char(v.minor, '-');
    lemma_digits_no_char(v.patch, '-');
    let base = a + "."@ + b + "."@ + c;
    let rest = b + seq!['.'] + c;
    assert(base =~= a + seq!['.'] + rest);
    lemma_split_after(a, '.', rest);
    lemma_split_after(b, '.', c);
    lemma_split_none(c, '.');
    assert(text::split(base, '.') =~= seq![a, b, c]);
    number::law_parse_decimal(v.major, u32::MAX as int);
    number::law_parse_decimal(v.minor, u32::MAX as int);
    number::law_parse_decimal(v.patch, u32::MAX as int);
    number::law_value_of_decimal(v.major);
    let t = version_text(v);
    assert(t[0] == a[0]);
    assert(chars::is_digit(a[0]));
    assert(text::trim_start_char(t, 'v') == t);
    assert(!base.contains('-')) by {
        assert forall|i: int| 0 <= i < base.len() implies base[i] != '-' by {
            if i < a.len() {
                assert(base[i] == a[i]);
                assert(a.contains(a[i]));
            } else if i == a.len() {
            } else if i < a.len() + 1 + b.len() {
                assert(base[i] == b[i - a.len() - 1]);
                assert(b.contains(b[i - a.len() - 1]));
            } else if i == a.len() + 1 + b.len() {
            } else {
                let j = i - a.len() - 2 - b.len();
                assert(base[i] == c[j]);
                assert(c.contains(c[j]));
            }
        }
    }
    match v.prerelease {
        Some(p) => {
            assert(t =~= base + seq!['-'] + p);
            lemma_find_after(base, '-', p, 0);
            assert(t.take(base.len() as int) =~= base);
            assert(t.skip(base.len() as int + 1) =~= p);
        },
        None => {
            lemma_find_none(base, '-', 0);
        },
    }
}

} // verus!
