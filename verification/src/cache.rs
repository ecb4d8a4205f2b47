//! The URL-to-outcome cache.
//!
//! One record per URL, ordered by URL text so that serialized checkpoints
//! are deterministic.  The cache is loaded at startup, updated once per
//! processed URL, and never shrinks.

use crate::outcome::ArchivingResult;
use crate::text::{chars_eq, chars_lt, chars_of, lemma_lex_transitive, lemma_lex_trichotomy,
    lex_lt};
use crate::timestamp::{spec_within_days, within_days, Timestamp};
use vstd::prelude::*;

verus! {

/// Maximum age, in days, for a cached record to short-circuit remote work.
/// Deliberately looser than the resolver's freshness window: the cache only
/// decides whether to bother re-checking at all.
pub const REUSE_WINDOW_DAYS: u64 = 180;

/// One cache line: a URL and its most recent outcome.
#[derive(Debug)]
pub struct CacheEntry {
    pub url: String,
    pub result: ArchivingResult,
}

/// Looks `k` up in an entry sequence, first match wins.
pub open spec fn seq_lookup(s: Seq<CacheEntry>, k: Seq<char>) -> Option<ArchivingResult>
    decreases s.len(),
{
    if s.len() == 0 {
        None
    } else if s[0].url@ == k {
        Some(s[0].result)
    } else {
        seq_lookup(s.drop_first(), k)
    }
}

/// Inserting an entry whose key is absent from the prefix leaves every other
/// key's lookup unchanged and makes the new key's lookup hit the new entry.
proof fn lemma_lookup_insert(s: Seq<CacheEntry>, i: int, e: CacheEntry, k: Seq<char>)
    requires
        0 <= i <= s.len(),
        forall|j: int| 0 <= j < i ==> (#[trigger] s[j].url@) != e.url@,
    ensures
        seq_lookup(s.insert(i, e), k) == if k == e.url@ {
            Some(e.result)
        } else {
            seq_lookup(s, k)
        },
    decreases i,
{
    let s2 = s.insert(i, e);
    if i == 0 {
        assert(s2.drop_first() =~= s);
    } else {
        assert(s2[0] == s[0]);
        assert(s2.drop_first() =~= s.drop_first().insert(i - 1, e));
        assert(forall|j: int|
            0 <= j < i - 1 ==> (#[trigger] s.drop_first()[j].url@) == s[j + 1].url@);
        lemma_lookup_insert(s.drop_first(), i - 1, e, k);
        assert(s[0].url@ != e.url@);
    }
}

/// Overwriting the entry that holds a key leaves every other key's lookup
/// unchanged and redirects that key's lookup to the new record.
proof fn lemma_lookup_update(s: Seq<CacheEntry>, i: int, e: CacheEntry, k: Seq<char>)
    requires
        0 <= i < s.len(),
        s[i].url@ == e.url@,
        forall|j: int| 0 <= j < i ==> (#[trigger] s[j].url@) != e.url@,
    ensures
        seq_lookup(s.update(i, e), k) == if k == e.url@ {
            Some(e.result)
        } else {
            seq_lookup(s, k)
        },
    decreases i,
{
    let s2 = s.update(i, e);
    if i == 0 {
        assert(s2[0] == e);
        assert(s2.drop_first() =~= s.drop_first());
    } else {
        assert(s2[0] == s[0]);
        assert(s2.drop_first() =~= s.drop_first().update(i - 1, e));
        assert(forall|j: int|
            0 <= j < i - 1 ==> (#[trigger] s.drop_first()[j].url@) == s[j + 1].url@);
        lemma_lookup_update(s.drop_first(), i - 1, e, k);
        assert(s[0].url@ != e.url@);
    }
}

/// A key stored at some index is found by lookup.
proof fn lemma_present_found(s: Seq<CacheEntry>, k: Seq<char>, i: int)
    requires
        0 <= i < s.len(),
        s[i].url@ == k,
    ensures
        seq_lookup(s, k) is Some,
    decreases i,
{
    if s[0].url@ != k {
        assert(s.drop_first()[i - 1] == s[i]);
        lemma_present_found(s.drop_first(), k, i - 1);
    }
}

/// The ordered URL-to-outcome map.
#[derive(Debug)]
pub struct Cache {
    pub entries: Vec<CacheEntry>,
}

impl Cache {
    /// Entries strictly sorted by URL (hence keys unique), records valid.
    pub open spec fn wf(self) -> bool {
        &&& forall|i: int, j: int|
            0 <= i < j < self.entries@.len() ==> lex_lt(
                #[trigger] self.entries@[i].url@,
                #[trigger] self.entries@[j].url@,
            )
        &&& forall|i: int|
            0 <= i < self.entries@.len() ==> (#[trigger] self.entries@[i].result).wf()
    }

    /// The record stored for `k`, if any.
    pub open spec fn spec_lookup(self, k: Seq<char>) -> Option<ArchivingResult> {
        seq_lookup(self.entries@, k)
    }

    /// An empty cache.
    pub fn new() -> (c: Cache)
        ensures
            c.wf(),
            c.entries@.len() == 0,
            forall|k: Seq<char>| c.spec_lookup(k) is None,
    {
        Cache { entries: Vec::new() }
    }

    /// Number of records.
    pub fn len(&self) -> (n: usize)
        ensures
            n == self.entries@.len(),
    {
        self.entries.len()
    }

    /// Finds the record for `url`.
    pub fn lookup(&self, url: &str) -> (r: Option<&ArchivingResult>)
        requires
            self.wf(),
        ensures
            r matches Some(a) ==> self.spec_lookup(url@) == Some(*a) && a.wf(),
            r is None ==> self.spec_lookup(url@) is None,
    {
        let key = chars_of(url);
        let n = self.entries.len();
        let mut i: usize = 0;
        proof {
            assert(self.entries@.skip(0) =~= self.entries@);
        }
        while i < n
            invariant
                self.wf(),
                key@ == url@,
                n == self.entries@.len(),
                i <= n,
                seq_lookup(self.entries@, url@) == seq_lookup(
                    self.entries@.skip(i as int),
                    url@,
                ),
            decreases n - i,
        {
            let eu = chars_of(self.entries[i].url.as_str());
            if chars_eq(&eu, &key) {
                proof {
                    assert(self.entries@.skip(i as int)[0] == self.entries@[i as int]);
                }
                return Some(&self.entries[i].result);
            }
            proof {
                assert(self.entries@.skip(i as int)[0] == self.entries@[i as int]);
                assert(self.entries@.skip(i as int).drop_first() =~= self.entries@.skip(i + 1));
            }
            i = i + 1;
        }
        proof {
            assert(self.entries@.skip(i as int).len() == 0);
        }
        None
    }

    /// Inserts or overwrites the record for `url`.
    ///
    /// Afterwards `url` maps to `result`; every other URL's record is
    /// untouched, so the cache never shrinks.
    pub fn update(&mut self, url: &str, result: ArchivingResult)
        requires
            old(self).wf(),
            result.wf(),
        ensures
            final(self).wf(),
            final(self).spec_lookup(url@) == Some(result),
            forall|k: Seq<char>|
                k != url@ ==> final(self).spec_lookup(k) == old(self).spec_lookup(k),
            old(self).spec_lookup(url@) is Some ==> final(self).entries@.len() == old(
                self,
            ).entries@.len(),
            old(self).spec_lookup(url@) is None ==> final(self).entries@.len() == old(
                self,
            ).entries@.len() + 1,
    {
        let ghost orig = *self;
        let key = chars_of(url);
        let n = self.entries.len();
        let mut i: usize = 0;
        while i < n
            invariant
                *self == orig,
                orig.wf(),
                result.wf(),
                key@ == url@,
                n == self.entries@.len(),
                i <= n,
                forall|j: int| 0 <= j < i ==> lex_lt(#[trigger] self.entries@[j].url@, url@),
            ensures
                *self == orig,
                i <= n == self.entries@.len(),
                forall|j: int| 0 <= j < i ==> lex_lt(#[trigger] self.entries@[j].url@, url@),
                i < n ==> !lex_lt(self.entries@[i as int].url@, url@),
            decreases n - i,
        {
            let eu = chars_of(self.entries[i].url.as_str());
            if !chars_lt(&eu, &key) {
                break ;
            }
            i = i + 1;
        }
        proof {
            assert forall|j: int| 0 <= j < i implies (#[trigger] self.entries@[j].url@)
                != url@ by {
                lemma_lex_trichotomy(self.entries@[j].url@, url@);
            }
            if seq_lookup(orig.entries@, url@) is Some {
                lemma_sorted_found(orig.entries@, url@, i as int);
            }
        }
        if i < n {
            let eu = chars_of(self.entries[i].url.as_str());
            if chars_eq(&eu, &key) {
                let u = self.entries[i].url.clone();
                let entry = CacheEntry { url: u, result };
                let ghost e = entry;
                let ghost pre = self.entries@;
                self.entries.set(i, entry);
                proof {
                    lemma_present_found(pre, url@, i as int);
                    assert(self.entries@ == pre.update(i as int, e));
                    assert forall|k: Seq<char>| true implies seq_lookup(self.entries@, k) == (
                    if k == url@ {
                        Some(result)
                    } else {
                        seq_lookup(pre, k)
                    }) by {
                        lemma_lookup_update(pre, i as int, e, k);
                    }
                    assert(forall|j: int|
                        0 <= j < self.entries@.len() ==> (#[trigger] self.entries@[j].url@)
                            == pre[j].url@);
                }
                return ;
            }
            proof {
                lemma_lex_trichotomy(self.entries@[i as int].url@, url@);
            }
        }
        // `url` sorts strictly between the prefix and the suffix: insert it.
        let ghost pre = self.entries@;
        let entry = CacheEntry { url: url.to_owned(), result };
        let ghost e = entry;
        self.entries.insert(i, entry);
        proof {
            pre.insert_ensures(i as int, e);
            assert(seq_lookup(pre, url@) is None) by {
                lemma_sorted_absent(pre, url@, i as int);
            }
            assert forall|k: Seq<char>| true implies seq_lookup(self.entries@, k) == (
            if k == url@ {
                Some(result)
            } else {
                seq_lookup(pre, k)
            }) by {
                lemma_lookup_insert(pre, i as int, e, k);
            }
            assert forall|a: int, b: int|
                0 <= a < b < self.entries@.len() implies lex_lt(
                #[trigger] self.entries@[a].url@,
                #[trigger] self.entries@[b].url@,
            ) by {
                if b < i {
                    assert(self.entries@[a] == pre[a] && self.entries@[b] == pre[b]);
                } else if b == i {
                    assert(self.entries@[a] == pre[a]);
                } else if a == i {
                    assert(self.entries@[b] == pre[b - 1]);
                    if b - 1 > i {
                        lemma_lex_transitive(url@, pre[i as int].url@, pre[b - 1].url@);
                    }
                } else if a < i {
                    assert(self.entries@[a] == pre[a] && self.entries@[b] == pre[b - 1]);
                } else {
                    assert(self.entries@[a] == pre[a - 1] && self.entries@[b] == pre[b - 1]);
                }
            }
            assert forall|j: int|
                0 <= j < self.entries@.len() implies (#[trigger] self.entries@[j].result).wf() by {
                if j > i {
                    assert(self.entries@[j] == pre[j - 1]);
                } else if j < i {
                    assert(self.entries@[j] == pre[j]);
                }
            }
        }
    }
}

/// In a sorted entry sequence, a key strictly greater than the first `i`
/// entries and strictly smaller than entry `i` (or past the end) is absent.
proof fn lemma_sorted_absent(s: Seq<CacheEntry>, k: Seq<char>, i: int)
    requires
        0 <= i <= s.len(),
        forall|j: int| 0 <= j < i ==> lex_lt(#[trigger] s[j].url@, k),
        i < s.len() ==> lex_lt(k, s[i].url@),
        forall|a: int, b: int|
            0 <= a < b < s.len() ==> lex_lt(#[trigger] s[a].url@, #[trigger] s[b].url@),
    ensures
        seq_lookup(s, k) is None,
    decreases s.len(),
{
    if s.len() > 0 {
        assert(s[0].url@ != k) by {
            if i > 0 {
                lemma_lex_trichotomy(s[0].url@, k);
            } else {
                lemma_lex_trichotomy(k, s[0].url@);
            }
        }
        let t = s.drop_first();
        assert(forall|j: int| 0 <= j < t.len() ==> (#[trigger] t[j].url@) == s[j + 1].url@);
        if i == 0 {
            if s.len() > 1 {
                lemma_lex_transitive(k, s[0].url@, s[1].url@);
            }
            lemma_sorted_absent(t, k, 0);
        } else {
            lemma_sorted_absent(t, k, i - 1);
        }
    }
}

/// In a sorted entry sequence, a present key must sit exactly at the first
/// position whose entry is not strictly smaller than it.
proof fn lemma_sorted_found(s: Seq<CacheEntry>, k: Seq<char>, i: int)
    requires
        0 <= i <= s.len(),
        forall|j: int| 0 <= j < i ==> lex_lt(#[trigger] s[j].url@, k),
        i < s.len() ==> !lex_lt(s[i].url@, k),
        forall|a: int, b: int|
            0 <= a < b < s.len() ==> lex_lt(#[trigger] s[a].url@, #[trigger] s[b].url@),
        seq_lookup(s, k) is Some,
    ensures
        i < s.len() && s[i].url@ == k,
{
    lemma_lex_trichotomy(s[i].url@, k);
    if i == s.len() || s[i].url@ != k {
        if i < s.len() {
            lemma_sorted_absent(s, k, i);
        } else {
            lemma_sorted_absent(s, k, i);
        }
    }
}

/// A record short-circuits remote work when it still points at a snapshot
/// and is younger than the reuse window.
pub fn is_reusable(result: &ArchivingResult, now: &Timestamp) -> (r: bool)
    requires
        result.wf(),
        now.wf(),
    ensures
        r == (result.url is Some && spec_within_days(
            result.last_archived,
            *now,
            REUSE_WINDOW_DAYS as int,
        )),
{
    match &result.url {
        Some(_) => within_days(&result.last_archived, now, REUSE_WINDOW_DAYS),
        None => false,
    }
}

} // verus!
