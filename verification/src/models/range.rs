//! Maven version ranges.
//!
//! Supported forms: an exact version (`"1.0"`), bracket ranges
//! (`"[1.0,2.0]"`, `"[1.0,2.0)"`, `"(,2.0]"`, `"[1.0,)"`, `"[1.0]"`), and
//! the Gradle prefix form `"1.+"`, taken as the prefix up to the next
//! major version, `[1, 2)` (for a major that is not a number, up to the
//! major followed by `.99999`).

use vstd::prelude::*;
use crate::text::{
    all_digits, all_digits_exec, chars_of, digits_plus_one, digits_plus_one_exec, ends_with, ends_with_exec, join2,
    lemma_split_from_nonempty, owned, slice_chars, split, split_exec, string_of, trim, trimmed,
};
use crate::models::version::{Version, version_order};

verus! {

/// Mathematical view of a version range: raw texts of its versions.
pub struct RangeView {
    pub raw: Seq<char>,
    pub lower: Option<(Seq<char>, bool)>,
    pub upper: Option<(Seq<char>, bool)>,
    pub exact: Option<Seq<char>>,
}

/// Version range specification as used in Maven POMs.
#[derive(Debug, PartialEq, Eq)]
pub struct VersionRange {
    pub raw: String,
    /// Lower bound (inclusive if true)
    pub lower: Option<(Version, bool)>,
    /// Upper bound (inclusive if true)
    pub upper: Option<(Version, bool)>,
    /// Exact version (when no range syntax used)
    pub exact: Option<Version>,
}

/// View of an optional bound.
pub open spec fn bound_view(b: Option<(Version, bool)>) -> Option<(Seq<char>, bool)> {
    match b {
        Some((v, inclusive)) => Some((v@, inclusive)),
        None => None,
    }
}

/// View of an optional version.
pub open spec fn opt_version_view(v: Option<Version>) -> Option<Seq<char>> {
    match v {
        Some(x) => Some(x@),
        None => None,
    }
}

impl View for VersionRange {
    type V = RangeView;

    open spec fn view(&self) -> RangeView {
        RangeView {
            raw: self.raw@,
            lower: bound_view(self.lower),
            upper: bound_view(self.upper),
            exact: opt_version_view(self.exact),
        }
    }
}

/// Characters that mark range syntax.
pub open spec fn is_range_char(c: char) -> bool {
    c == '(' || c == ')' || c == '[' || c == ']' || c == ',' || c == '+'
}

/// `s` holds a character of range syntax.
pub open spec fn has_range_char(s: Seq<char>) -> bool {
    exists|i: int| 0 <= i < s.len() && is_range_char(#[trigger] s[i])
}

/// A bound from one side of a bracket range: none when that side is blank.
pub open spec fn optional_bound(part: Seq<char>, inclusive: bool) -> Option<(Seq<char>, bool)> {
    if trim(part).len() == 0 {
        None
    } else {
        Some((trim(part), inclusive))
    }
}

/// The exclusive upper bound of a prefix range whose major part is `major`:
/// the next major version when `major` is a number, else `major.99999`.
pub open spec fn next_major(major: Seq<char>) -> Seq<char> {
    if major.len() > 0 && all_digits(major) {
        digits_plus_one(major)
    } else {
        major + ".99999"@
    }
}

/// What parsing a range specification gives: the range, or the error message.
pub open spec fn range_parse(spec: Seq<char>) -> Result<RangeView, Seq<char>> {
    let s = trim(spec);
    if s.len() == 0 {
        Err("empty version range"@)
    } else if !has_range_char(s) {
        Ok(RangeView { raw: s, lower: None, upper: None, exact: Some(s) })
    } else if ends_with(s, ".+"@) {
        let prefix = s.subrange(0, s.len() - ".+"@.len());
        if trim(prefix).len() == 0 {
            Err("version string cannot be empty"@)
        } else {
            Ok(
                RangeView {
                    raw: s,
                    lower: Some((prefix, true)),
                    upper: Some((next_major(split(prefix, '.')[0]), false)),
                    exact: None,
                },
            )
        }
    } else if !(s[0] == '(' || s[0] == '[') || !(s.last() == ')' || s.last() == ']') {
        Err("invalid version range syntax: "@ + s)
    } else {
        let parts = split(s.subrange(1, s.len() - 1), ',');
        if parts.len() == 2 {
            Ok(
                RangeView {
                    raw: s,
                    lower: optional_bound(parts[0], s[0] == '['),
                    upper: optional_bound(parts[1], s.last() == ']'),
                    exact: None,
                },
            )
        } else if parts.len() == 1 && trim(parts[0]).len() != 0 {
            Ok(
                RangeView {
                    raw: s,
                    lower: Some((trim(parts[0]), true)),
                    upper: Some((trim(parts[0]), true)),
                    exact: None,
                },
            )
        } else {
            Err("malformed range: "@ + s)
        }
    }
}

/// Whether version text `v` lies in the range: an exact range holds only
/// the very same text; otherwise `v` must satisfy both bounds in the Maven order.
pub open spec fn range_contains(r: RangeView, v: Seq<char>) -> bool {
    match r.exact {
        Some(e) => e == v,
        None => {
            &&& match r.lower {
                Some((lo, inclusive)) => if inclusive {
                    version_order(v, lo) >= 0
                } else {
                    version_order(v, lo) > 0
                },
                None => true,
            }
            &&& match r.upper {
                Some((hi, inclusive)) => if inclusive {
                    version_order(v, hi) <= 0
                } else {
                    version_order(v, hi) < 0
                },
                None => true,
            }
        },
    }
}

/// Whether `s` holds a character of range syntax.
fn has_range_char_exec(s: &[char]) -> (r: bool)
    ensures
        r == has_range_char(s@),
{
    let mut i: usize = 0;
    while i < s.len()
        invariant
            i <= s.len(),
            forall|k: int| 0 <= k < i ==> !is_range_char(#[trigger] s@[k]),
        decreases s.len() - i,
    {
        let c = s[i];
        if c == '(' || c == ')' || c == '[' || c == ']' || c == ',' || c == '+' {
            return true;
        }
        i = i + 1;
    }
    false
}

/// The bound given by one side of a bracket range.
fn bound_from(part: &[char], inclusive: bool) -> (r: Option<(Version, bool)>)
    ensures
        bound_view(r) == optional_bound(part@, inclusive),
{
    let t = trimmed(part);
    if t.len() == 0 {
        None
    } else {
        let s = string_of(t.as_slice());
        Some((Version { raw: s }, inclusive))
    }
}

impl VersionRange {
    /// Parses a range specification (see the module documentation).
    pub fn parse(spec: &str) -> (r: Result<VersionRange, String>)
        ensures
            match r {
                Ok(v) => range_parse(spec@) == Ok::<RangeView, Seq<char>>(v@),
                Err(e) => range_parse(spec@) == Err::<RangeView, Seq<char>>(e@),
            },
    {
        let s = crate::text::trim_str(spec);
        if s.len() == 0 {
            return Err(owned("empty version range"));
        }
        let raw = string_of(s.as_slice());
        if !has_range_char_exec(s.as_slice()) {
            let exact = Version { raw: string_of(s.as_slice()) };
            return Ok(VersionRange { raw, lower: None, upper: None, exact: Some(exact) });
        }
        let suffix = chars_of(".+");
        if ends_with_exec(s.as_slice(), suffix.as_slice()) {
            let prefix = slice_chars(s.as_slice(), 0, s.len() - suffix.len());
            let pt = trimmed(prefix.as_slice());
            if pt.len() == 0 {
                return Err(owned("version string cannot be empty"));
            }
            let pieces = split_exec(prefix.as_slice(), '.');
            proof {
                lemma_split_from_nonempty(prefix@, '.', Seq::empty());
            }
            let major = &pieces[0];
            let upper_raw = if major.len() > 0 && all_digits_exec(major.as_slice()) {
                string_of(digits_plus_one_exec(major.as_slice()).as_slice())
            } else {
                join2(string_of(major.as_slice()).as_str(), ".99999")
            };
            let lower_v = Version { raw: string_of(prefix.as_slice()) };
            return Ok(
                VersionRange {
                    raw,
                    lower: Some((lower_v, true)),
                    upper: Some((Version { raw: upper_raw }, false)),
                    exact: None,
                },
            );
        }
        let first = s[0];
        let last = s[s.len() - 1];
        let open_lower = first == '(';
        let closed_lower = first == '[';
        let open_upper = last == ')';
        let closed_upper = last == ']';
        if !(open_lower || closed_lower) || !(open_upper || closed_upper) {
            let msg = join2("invalid version range syntax: ", raw.as_str());
            return Err(msg);
        }
        let inner = slice_chars(s.as_slice(), 1, s.len() - 1);
        let parts = split_exec(inner.as_slice(), ',');
        if parts.len() == 2 {
            let lower = bound_from(parts[0].as_slice(), closed_lower);
            let upper = bound_from(parts[1].as_slice(), closed_upper);
            Ok(VersionRange { raw, lower, upper, exact: None })
        } else if parts.len() == 1 {
            let t = trimmed(parts[0].as_slice());
            if t.len() == 0 {
                let msg = join2("malformed range: ", raw.as_str());
                return Err(msg);
            }
            let v1 = Version { raw: string_of(t.as_slice()) };
            let v2 = Version { raw: string_of(t.as_slice()) };
            Ok(VersionRange { raw, lower: Some((v1, true)), upper: Some((v2, true)), exact: None })
        } else {
            let msg = join2("malformed range: ", raw.as_str());
            Err(msg)
        }
    }

    /// Returns true if the given version satisfies this range.
    pub fn contains(&self, version: &Version) -> (r: bool)
        ensures
            r == range_contains(self@, version@),
    {
        if let Some(ex) = &self.exact {
            return ex.raw == version.raw;
        }
        let lower_ok = match &self.lower {
            Some((lo, inclusive)) => {
                let o = version.compare_int(lo);
                if *inclusive {
                    o >= 0
                } else {
                    o > 0
                }
            },
            None => true,
        };
        let upper_ok = match &self.upper {
            Some((hi, inclusive)) => {
                let o = version.compare_int(hi);
                if *inclusive {
                    o <= 0
                } else {
                    o < 0
                }
            },
            None => true,
        };
        lower_ok && upper_ok
    }

    /// Returns a human friendly description: the raw specification.
    pub fn description(&self) -> (r: String)
        ensures
            r@ == self.raw@,
    {
        self.raw.clone()
    }
}

/// Re-parsing a range's description gives the same range back: whatever
/// `spec` parses to has the trimmed `spec` as its text, and that text parses
/// to the very same range.
pub proof fn lemma_range_parse_roundtrip(spec: Seq<char>, r: RangeView)
    requires
        range_parse(spec) == Ok::<RangeView, Seq<char>>(r),
    ensures
        r.raw == trim(spec),
        range_parse(r.raw) == Ok::<RangeView, Seq<char>>(r),
{
    crate::text::lemma_trim_idempotent(spec);
}

impl core::str::FromStr for VersionRange {
    type Err = String;

    /// As `VersionRange::parse`.
    fn from_str(s: &str) -> (r: Result<VersionRange, String>)
        ensures
            match r {
                Ok(v) => range_parse(s@) == Ok::<RangeView, Seq<char>>(v@),
                Err(e) => range_parse(s@) == Err::<RangeView, Seq<char>>(e@),
            },
    {
        VersionRange::parse(s)
    }
}

} // verus!
