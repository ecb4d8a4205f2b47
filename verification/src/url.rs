//! Scanning archive URLs.
//!
//! A successful snapshot request redirects to a URL whose path embeds the
//! snapshot's creation time as `/web/<digits>/...`.  This module finds the
//! leftmost such stamp and decodes it, and tests whether a URL's path begins
//! with the service's snapshot prefix `/web`.

use crate::outcome::ArchiveError;
use crate::text::{char_digit, chars_of, is_digit};
use crate::timestamp::{spec_parse_compact, Timestamp};
use vstd::prelude::*;

verus! {

/// The marker that precedes a snapshot timestamp inside an archive URL.
pub open spec fn web_marker() -> Seq<char> {
    seq!['/', 'w', 'e', 'b', '/']
}

/// End of the digit run starting at `j`: the first index at or after `j`
/// holding a non-digit, or the end of the string.
pub open spec fn run_end(s: Seq<char>, j: int) -> int
    decreases s.len() - j,
{
    if 0 <= j < s.len() && is_digit(s[j]) {
        run_end(s, j + 1)
    } else {
        j
    }
}

/// A snapshot stamp begins at `i`: the `/web/` marker, one or more digits,
/// then a slash.
pub open spec fn stamp_at(s: Seq<char>, i: int) -> bool {
    &&& 0 <= i
    &&& i + 5 <= s.len()
    &&& s.subrange(i, i + 5) == web_marker()
    &&& run_end(s, i + 5) > i + 5
    &&& run_end(s, i + 5) < s.len()
    &&& s[run_end(s, i + 5)] == '/'
}

/// Position of the leftmost snapshot stamp at or after `i`.
pub open spec fn first_stamp_from(s: Seq<char>, i: int) -> Option<int>
    decreases s.len() - i,
{
    if 0 <= i && i + 5 <= s.len() {
        if stamp_at(s, i) {
            Some(i)
        } else {
            first_stamp_from(s, i + 1)
        }
    } else {
        None
    }
}

/// The digit run of the leftmost snapshot stamp of `s`, if any.
pub open spec fn spec_first_stamp(s: Seq<char>) -> Option<Seq<char>> {
    match first_stamp_from(s, 0) {
        Some(i) => Some(s.subrange(i + 5, run_end(s, i + 5))),
        None => None,
    }
}

/// The instant encoded in the leftmost snapshot stamp of `s`, if the stamp
/// exists and its digits form a valid fixed-width timestamp.
pub open spec fn spec_url_timestamp(s: Seq<char>) -> Option<Timestamp> {
    match spec_first_stamp(s) {
        Some(d) => spec_parse_compact(d),
        None => None,
    }
}

/// Decodes the snapshot creation time embedded in an archive URL.
///
/// Fails when no `/web/<digits>/` segment exists, or when the digit run is
/// not a valid fixed-width timestamp.
pub fn timestamp_from_archive_url(url: &str) -> (r: Result<Timestamp, ArchiveError>)
    ensures
        r matches Ok(t) ==> spec_url_timestamp(url@) == Some(t) && t.wf(),
        r matches Err(e) ==> spec_url_timestamp(url@) is None && e is ParseError,
{
    let v = chars_of(url);
    let n = v.len();
    let mut i: usize = 0;
    while n - i >= 5
        invariant
            v@ == url@,
            n == url@.len(),
            i <= n,
            first_stamp_from(url@, 0) == first_stamp_from(url@, i as int),
        decreases n - i,
    {
        if v[i] == '/' && v[i + 1] == 'w' && v[i + 2] == 'e' && v[i + 3] == 'b' && v[i + 4]
            == '/' {
            proof {
                assert(url@.subrange(i as int, i + 5) =~= web_marker());
            }
            let mut j: usize = i + 5;
            loop
                invariant
                    v@ == url@,
                    n == url@.len(),
                    i + 5 <= j <= n,
                    run_end(url@, i + 5) == run_end(url@, j as int),
                ensures
                    i + 5 <= j <= n,
                    run_end(url@, i + 5) == run_end(url@, j as int),
                    j >= n || !is_digit(url@[j as int]),
                decreases n - j,
            {
                if j >= n {
                    break ;
                }
                if char_digit(v[j]).is_none() {
                    break ;
                }
                j = j + 1;
            }
            proof {
                assert(run_end(url@, j as int) == j);
            }
            if i + 5 < j && j < n && v[j] == '/' {
                proof {
                    assert(stamp_at(url@, i as int));
                    assert(first_stamp_from(url@, i as int) == Some(i as int));
                }
                let mut d: Vec<char> = Vec::new();
                let mut p: usize = i + 5;
                while p < j
                    invariant
                        v@ == url@,
                        n == url@.len(),
                        i + 5 <= p <= j <= n,
                        d@ == url@.subrange(i + 5, p as int),
                    decreases j - p,
                {
                    d.push(v[p]);
                    p = p + 1;
                    proof {
                        assert(d@ =~= url@.subrange(i + 5, p as int));
                    }
                }
                return match Timestamp::parse_compact(&d) {
                    Some(t) => Ok(t),
                    None => Err(
                        ArchiveError::ParseError("unable to extract timestamp from url".to_owned()),
                    ),
                };
            }
            proof {
                assert(!stamp_at(url@, i as int));
            }
            i = i + 1;
        } else {
            proof {
                assert(!stamp_at(url@, i as int)) by {
                    if url@.subrange(i as int, i + 5) == web_marker() {
                        assert(url@.subrange(i as int, i + 5)[0] == url@[i as int]);
                        assert(url@.subrange(i as int, i + 5)[1] == url@[i + 1]);
                        assert(url@.subrange(i as int, i + 5)[2] == url@[i + 2]);
                        assert(url@.subrange(i as int, i + 5)[3] == url@[i + 3]);
                        assert(url@.subrange(i as int, i + 5)[4] == url@[i + 4]);
                    }
                }
            }
            i = i + 1;
        }
    }
    proof {
        assert(first_stamp_from(url@, i as int) is None);
    }
    Err(ArchiveError::ParseError("unable to extract timestamp from url".to_owned()))
}

/// Position of the first `://` at or after `i`.
pub open spec fn sep_from(s: Seq<char>, i: int) -> Option<int>
    decreases s.len() - i,
{
    if 0 <= i && i + 3 <= s.len() {
        if s[i] == ':' && s[i + 1] == '/' && s[i + 2] == '/' {
            Some(i)
        } else {
            sep_from(s, i + 1)
        }
    } else {
        None
    }
}

/// Position of the first `/` at or after `i`.
pub open spec fn slash_from(s: Seq<char>, i: int) -> Option<int>
    decreases s.len() - i,
{
    if 0 <= i < s.len() {
        if s[i] == '/' {
            Some(i)
        } else {
            slash_from(s, i + 1)
        }
    } else {
        None
    }
}

/// Whether the path of an absolute URL begins with `/web`.
///
/// The path is taken to begin at the first `/` after the scheme separator
/// `://`; a URL without separator or without a path has no such prefix.
pub open spec fn spec_path_starts_with_web(s: Seq<char>) -> bool {
    match sep_from(s, 0) {
        Some(k) => match slash_from(s, k + 3) {
            Some(p) => p + 4 <= s.len() && s[p + 1] == 'w' && s[p + 2] == 'e' && s[p + 3] == 'b',
            None => false,
        },
        None => false,
    }
}

/// Run-time test for `spec_path_starts_with_web`.
pub fn path_starts_with_web(url: &str) -> (r: bool)
    ensures
        r == spec_path_starts_with_web(url@),
{
    let v = chars_of(url);
    let n = v.len();
    let mut i: usize = 0;
    while n - i >= 3
        invariant
            v@ == url@,
            n == url@.len(),
            i <= n,
            sep_from(url@, 0) == sep_from(url@, i as int),
        decreases n - i,
    {
        if v[i] == ':' && v[i + 1] == '/' && v[i + 2] == '/' {
            proof {
                assert(sep_from(url@, i as int) == Some(i as int));
            }
            let mut p: usize = i + 3;
            while p < n
                invariant
                    v@ == url@,
                    n == url@.len(),
                    i + 3 <= p <= n,
                    sep_from(url@, 0) == Some(i as int),
                    slash_from(url@, i + 3) == slash_from(url@, p as int),
                decreases n - p,
            {
                if v[p] == '/' {
                    proof {
                        assert(slash_from(url@, p as int) == Some(p as int));
                    }
                    if n - p >= 4 {
                        return v[p + 1] == 'w' && v[p + 2] == 'e' && v[p + 3] == 'b';
                    }
                    return false;
                }
                p = p + 1;
            }
            proof {
                assert(slash_from(url@, p as int) is None);
            }
            return false;
        }
        i = i + 1;
    }
    proof {
        assert(sep_from(url@, i as int) is None);
    }
    false
}

} // verus!
