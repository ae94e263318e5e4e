//! Version comparison and the update decision made from a published release.

use std::cmp::Ordering;
use vstd::prelude::*;
use vstd::string::*;

verus! {

/// Whether `c` is an ASCII decimal digit.
pub open spec fn is_digit(c: char) -> bool {
    '0' <= c && c <= '9'
}

/// Whether every character of `s` is a decimal digit.
pub open spec fn all_digits(s: Seq<char>) -> bool {
    forall|i: int| 0 <= i < s.len() ==> is_digit(#[trigger] s[i])
}

/// The number written by the decimal digits `s`, most significant first.
pub open spec fn digits_value(s: Seq<char>) -> nat
    decreases s.len(),
{
    if s.len() == 0 {
        0
    } else {
        digits_value(s.drop_last()) * 10 + ((s.last() as u32) - ('0' as u32)) as nat
    }
}

/// `s` without a single leading `+`, the sign that an unsigned number may carry.
pub open spec fn unsigned_digits(s: Seq<char>) -> Seq<char> {
    if s.len() > 0 && s[0] == '+' {
        s.drop_first()
    } else {
        s
    }
}

/// The `u32` that a version part denotes: an optional `+` and at least one
/// decimal digit, with a value that fits; `None` for anything else.
pub open spec fn parse_part(s: Seq<char>) -> Option<u32> {
    let d = unsigned_digits(s);
    if d.len() > 0 && all_digits(d) && digits_value(d) <= u32::MAX {
        Some(digits_value(d) as u32)
    } else {
        None
    }
}

/// The pieces of `s` between dots, in order; a string without a dot is one piece.
pub open spec fn split_dots(s: Seq<char>) -> Seq<Seq<char>>
    decreases s.len(),
{
    if s.len() == 0 {
        seq![Seq::<char>::empty()]
    } else {
        let init = split_dots(s.drop_last());
        if s.last() == '.' {
            init.push(Seq::<char>::empty())
        } else {
            init.update(init.len() - 1, init.last().push(s.last()))
        }
    }
}

/// The numeric parts of a version string, `None` where a part is not a number.
pub open spec fn version_parts(s: Seq<char>) -> Seq<Option<u32>> {
    split_dots(s).map_values(|p: Seq<char>| parse_part(p))
}

/// Part `i` of a parsed version; a version is padded with zeros past its end.
pub open spec fn part_at(p: Seq<Option<u32>>, i: int) -> Option<u32> {
    if 0 <= i < p.len() {
        p[i]
    } else {
        Some(0)
    }
}

/// Order of two parsed versions from part `i` on: the first part where they
/// differ decides; a number is greater than a part that is not one.
pub open spec fn compare_parts_from(a: Seq<Option<u32>>, b: Seq<Option<u32>>, i: int) -> Ordering
    decreases a.len() + b.len() - i,
{
    if i >= a.len() && i >= b.len() {
        Ordering::Equal
    } else {
        match (part_at(a, i), part_at(b, i)) {
            (Some(x), Some(y)) => {
                if x < y {
                    Ordering::Less
                } else if x > y {
                    Ordering::Greater
                } else {
                    compare_parts_from(a, b, i + 1)
                }
            },
            (Some(_), None) => Ordering::Greater,
            (None, Some(_)) => Ordering::Less,
            (None, None) => compare_parts_from(a, b, i + 1),
        }
    }
}

/// Order of the version `current` relative to the version `latest`.
pub open spec fn version_order(current: Seq<char>, latest: Seq<char>) -> Ordering {
    compare_parts_from(version_parts(current), version_parts(latest), 0)
}

proof fn lemma_split_dots_nonempty(s: Seq<char>)
    ensures
        split_dots(s).len() >= 1,
    decreases s.len(),
{
    if s.len() > 0 {
        lemma_split_dots_nonempty(s.drop_last());
    }
}

/// Parses the characters `s[lo..hi]` as one version part.
fn parse_part_at(s: &str, lo: usize, hi: usize) -> (r: Option<u32>)
    requires
        lo <= hi <= s@.len(),
    ensures
        r == parse_part(s@.subrange(lo as int, hi as int)),
{
    let ghost part = s@.subrange(lo as int, hi as int);
    let mut start = lo;
    if lo < hi && s.get_char(lo) == '+' {
        start = lo + 1;
    }
    let ghost d = s@.subrange(start as int, hi as int);
    assert(d =~= unsigned_digits(part));
    if start == hi {
        return None;
    }
    let mut value: u64 = 0;
    let mut i = start;
    while i < hi
        invariant
            start <= i <= hi <= s@.len(),
            d == s@.subrange(start as int, hi as int),
            part == s@.subrange(lo as int, hi as int),
            d == unsigned_digits(part),
            all_digits(s@.subrange(start as int, i as int)),
            value == if digits_value(s@.subrange(start as int, i as int)) > u32::MAX {
                u32::MAX as nat + 1
            } else {
                digits_value(s@.subrange(start as int, i as int))
            },
        decreases hi - i,
    {
        let c = s.get_char(i);
        if !('0' <= c && c <= '9') {
            assert(d[i - start] == c);
            return None;
        }
        let ghost prev = s@.subrange(start as int, i as int);
        let ghost next = s@.subrange(start as int, i + 1);
        assert(next.drop_last() =~= prev);
        assert(next.last() == c);
        let digit = (c as u32 - '0' as u32) as u64;
        assert(digits_value(next) == digits_value(prev) * 10 + digit);
        if value <= u32::MAX as u64 {
            value = value * 10 + digit;
            if value > u32::MAX as u64 {
                value = u32::MAX as u64 + 1;
            }
        } else {
            assert(digits_value(prev) * 10 >= digits_value(prev)) by (nonlinear_arith);
        }
        assert forall|k: int| 0 <= k < next.len() implies is_digit(#[trigger] next[k]) by {
            if k < prev.len() {
                assert(next[k] == prev[k]);
            }
        }
        i = i + 1;
    }
    assert(s@.subrange(start as int, i as int) =~= d);
    if value <= u32::MAX as u64 {
        Some(value as u32)
    } else {
        None
    }
}

/// Splits `s` at its dots and parses each piece as a version part.
fn parse_version(s: &str) -> (r: Vec<Option<u32>>)
    ensures
        r@ == version_parts(s@),
{
    let n = s.unicode_len();
    let mut parts: Vec<Option<u32>> = Vec::new();
    let ghost mut segs: Seq<Seq<char>> = Seq::empty();
    let mut seg_start: usize = 0;
    let mut i: usize = 0;
    assert(s@.subrange(0, 0) =~= Seq::<char>::empty());
    while i < n
        invariant
            n == s@.len(),
            seg_start <= i <= n,
            split_dots(s@.subrange(0, i as int)) == segs.push(
                s@.subrange(seg_start as int, i as int),
            ),
            parts@ == segs.map_values(|p: Seq<char>| parse_part(p)),
        decreases n - i,
    {
        let c = s.get_char(i);
        let ghost pre = s@.subrange(0, i as int);
        let ghost cur = s@.subrange(seg_start as int, i as int);
        assert(s@.subrange(0, i + 1).drop_last() =~= pre);
        if c == '.' {
            let p = parse_part_at(s, seg_start, i);
            parts.push(p);
            proof {
                segs = segs.push(cur);
                assert(s@.subrange(i + 1, i + 1) =~= Seq::<char>::empty());
            }
            assert(parts@ =~= segs.map_values(|p: Seq<char>| parse_part(p)));
            seg_start = i + 1;
        } else {
            assert(s@.subrange(seg_start as int, i + 1) =~= cur.push(c));
            assert(split_dots(s@.subrange(0, i + 1)) =~= segs.push(
                s@.subrange(seg_start as int, i + 1),
            ));
        }
        i = i + 1;
    }
    let p = parse_part_at(s, seg_start, n);
    parts.push(p);
    assert(s@.subrange(0, n as int) =~= s@);
    assert(parts@ =~= version_parts(s@));
    parts
}

/// Compares two dotted version strings part by part as numbers. Missing parts
/// count as zero, so `1.0` and `1.0.0` are equal; a part that is not a
/// number ranks below one that is.
pub fn compare_versions(current: &str, latest: &str) -> (r: Ordering)
    ensures
        r == version_order(current@, latest@),
{
    let a = parse_version(current);
    let b = parse_version(latest);
    let max_len = if a.len() > b.len() {
        a.len()
    } else {
        b.len()
    };
    let mut i: usize = 0;
    while i < max_len
        invariant
            a@ == version_parts(current@),
            b@ == version_parts(latest@),
            max_len == if a.len() > b.len() { a.len() } else { b.len() },
            i <= max_len,
            compare_parts_from(a@, b@, i as int) == version_order(current@, latest@),
        decreases max_len - i,
    {
        let x = if i < a.len() {
            a[i]
        } else {
            Some(0)
        };
        let y = if i < b.len() {
            b[i]
        } else {
            Some(0)
        };
        assert(x == part_at(a@, i as int) && y == part_at(b@, i as int));
        match (x, y) {
            (Some(c), Some(l)) => {
                if c < l {
                    return Ordering::Less;
                } else if c > l {
                    return Ordering::Greater;
                }
            },
            (Some(_), None) => {
                return Ordering::Greater;
            },
            (None, Some(_)) => {
                return Ordering::Less;
            },
            (None, None) => {},
        }
        i = i + 1;
    }
    Ordering::Equal
}

/// A published release, as the release service describes it.
#[derive(Clone, Debug)]
pub struct GitHubRelease {
    pub tag_name: String,
    pub name: String,
    pub html_url: String,
    pub body: String,
    pub published_at: String,
    pub prerelease: bool,
}

/// Whether a newer release exists, and what it is.
#[derive(Clone, Debug)]
pub struct UpdateInfo {
    pub has_update: bool,
    pub current_version: String,
    pub latest_version: String,
    pub release_url: String,
    pub release_notes: String,
    pub published_at: String,
}

/// The version of this package.
pub const CURRENT_VERSION: &'static str = "0.1.0";

/// The version of this package, such as `0.1.0`.
pub fn get_current_version() -> (r: String)
    ensures
        r@ == CURRENT_VERSION@,
{
    String::from_str(CURRENT_VERSION)
}

/// A release tag without a single leading `v`.
pub open spec fn without_v(tag: Seq<char>) -> Seq<char> {
    if tag.len() > 0 && tag[0] == 'v' {
        tag.drop_first()
    } else {
        tag
    }
}

/// Decides whether `release` is an update for `current_version`. A
/// pre-release is never one, and is reported with its tag as it stands;
/// otherwise the tag, without a leading `v`, is compared with the current
/// version, and there is an update when the current version is lower.
pub fn update_info_for_release(current_version: String, release: GitHubRelease) -> (r: UpdateInfo)
    ensures
        r.current_version@ == current_version@,
        r.release_url@ == release.html_url@,
        r.release_notes@ == release.body@,
        r.published_at@ == release.published_at@,
        release.prerelease ==> !r.has_update && r.latest_version@ == release.tag_name@,
        !release.prerelease ==> r.latest_version@ == without_v(release.tag_name@) && r.has_update
            == (version_order(current_version@, without_v(release.tag_name@)) == Ordering::Less),
{
    if release.prerelease {
        return UpdateInfo {
            has_update: false,
            current_version,
            latest_version: release.tag_name,
            release_url: release.html_url,
            release_notes: release.body,
            published_at: release.published_at,
        };
    }
    let tag = release.tag_name.as_str();
    let n = tag.unicode_len();
    let latest = if n > 0 && tag.get_char(0) == 'v' {
        tag.substring_char(1, n)
    } else {
        tag
    };
    assert(latest@ == without_v(release.tag_name@));
    let has_update = match compare_versions(current_version.as_str(), latest) {
        Ordering::Less => true,
        _ => false,
    };
    UpdateInfo {
        has_update,
        current_version,
        latest_version: String::from_str(latest),
        release_url: release.html_url,
        release_notes: release.body,
        published_at: release.published_at,
    }
}

} // verus!
