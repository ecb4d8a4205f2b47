//! The cache file format.
//!
//! A checkpoint is one JSON object: each key is a URL, each value an object
//! holding the snapshot URL (or `null`) and the archival instant.  The store
//! writes a canonical form — no whitespace, keys sorted by URL text, only
//! `"` and `\` escaped — and reads back exactly that form.  Reading what was
//! written recovers the identical mapping; `lemma_cache_round_trip` proves
//! it.

use crate::cache::{Cache, CacheEntry};
use crate::outcome::ArchivingResult;
use crate::text::{chars_lt, chars_of, lemma_lex_transitive, lex_lt, string_of};
use crate::timestamp::{lemma_iso_len, lemma_iso_round_trip, spec_iso, spec_parse_iso, Timestamp};
use vstd::prelude::*;

verus! {

/// What one cache line looks like on disk: the transient
/// `existing_snapshot` flag is not persisted.
pub struct PersistedRecord {
    pub key: Seq<char>,
    pub url: Option<Seq<char>>,
    pub time: Timestamp,
}

/// The persisted view of a sequence of cache entries.
pub open spec fn models(s: Seq<CacheEntry>) -> Seq<PersistedRecord> {
    s.map_values(
        |e: CacheEntry|
            PersistedRecord {
                key: e.url@,
                url: match e.result.url {
                    Some(u) => Some(u@),
                    None => None,
                },
                time: e.result.last_archived,
            },
    )
}

/// String escaping: `"` and `\` get a backslash, all else is verbatim.
pub open spec fn esc(s: Seq<char>) -> Seq<char>
    decreases s.len(),
{
    if s.len() == 0 {
        Seq::empty()
    } else {
        (if s[0] == '"' || s[0] == '\\' {
            seq!['\\', s[0]]
        } else {
            seq![s[0]]
        }) + esc(s.drop_first())
    }
}

/// Reads an escaped string body starting at `i`, up to and including the
/// closing quote; yields the unescaped value and the next position.
pub open spec fn p_string_at(s: Seq<char>, i: int) -> Option<(Seq<char>, int)>
    decreases s.len() - i,
{
    if 0 <= i < s.len() {
        if s[i] == '"' {
            Some((Seq::empty(), i + 1))
        } else if s[i] == '\\' {
            if i + 1 < s.len() {
                match p_string_at(s, i + 2) {
                    Some((v, j)) => Some((seq![s[i + 1]] + v, j)),
                    None => None,
                }
            } else {
                None
            }
        } else {
            match p_string_at(s, i + 1) {
                Some((v, j)) => Some((seq![s[i]] + v, j)),
                None => None,
            }
        }
    } else {
        None
    }
}

/// A parsed string ends after where it starts, within the input.
pub proof fn lemma_p_string_bounds(s: Seq<char>, i: int)
    ensures
        p_string_at(s, i) matches Some(r) ==> i < r.1 <= s.len(),
    decreases s.len() - i,
{
    if 0 <= i < s.len() {
        if s[i] == '"' {
        } else if s[i] == '\\' {
            if i + 1 < s.len() {
                lemma_p_string_bounds(s, i + 2);
            }
        } else {
            lemma_p_string_bounds(s, i + 1);
        }
    }
}

/// Reading back an escaped string recovers it: if the input at `i` carries
/// `esc(v)` followed by a closing quote, the parse yields exactly `v` and
/// stops right after the quote.
pub proof fn lemma_esc_round_trip(s: Seq<char>, i: int, v: Seq<char>)
    requires
        0 <= i,
        i + esc(v).len() < s.len(),
        s.subrange(i, i + esc(v).len() as int) == esc(v),
        s[i + esc(v).len() as int] == '"',
    ensures
        p_string_at(s, i) == Some((v, i + esc(v).len() + 1)),
    decreases v.len(),
{
    let e = esc(v);
    if v.len() == 0 {
        assert(s[i] == '"');
    } else {
        let rest = esc(v.drop_first());
        if v[0] == '"' || v[0] == '\\' {
            assert(e == seq!['\\', v[0]] + rest);
            assert(s.subrange(i, i + e.len() as int)[0] == s[i] && e[0] == '\\');
            assert(s.subrange(i, i + e.len() as int)[1] == s[i + 1] && e[1] == v[0]);
            assert(s.subrange(i + 2, i + 2 + rest.len() as int) =~= rest) by {
                assert forall|m: int|
                    0 <= m < rest.len() implies s.subrange(
                    i + 2,
                    i + 2 + rest.len() as int,
                )[m] == rest[m] by {
                    assert(s.subrange(i, i + e.len() as int)[m + 2] == s[i + 2 + m]);
                    assert(e[m + 2] == rest[m]);
                }
            }
            lemma_esc_round_trip(s, i + 2, v.drop_first());
            assert(seq![s[i + 1]] + v.drop_first() =~= v);
        } else {
            assert(e == seq![v[0]] + rest);
            assert(s.subrange(i, i + e.len() as int)[0] == s[i] && e[0] == v[0]);
            assert(s.subrange(i + 1, i + 1 + rest.len() as int) =~= rest) by {
                assert forall|m: int|
                    0 <= m < rest.len() implies s.subrange(
                    i + 1,
                    i + 1 + rest.len() as int,
                )[m] == rest[m] by {
                    assert(s.subrange(i, i + e.len() as int)[m + 1] == s[i + 1 + m]);
                    assert(e[m + 1] == rest[m]);
                }
            }
            lemma_esc_round_trip(s, i + 1, v.drop_first());
            assert(seq![s[i]] + v.drop_first() =~= v);
        }
    }
}

/// Consumes the literal `l` at position `i`.
pub open spec fn expect_at(s: Seq<char>, i: int, l: Seq<char>) -> Option<int> {
    if 0 <= i && i + l.len() <= s.len() && s.subrange(i, i + l.len() as int) == l {
        Some(i + l.len() as int)
    } else {
        None
    }
}

/// Run-time literal match: `expect_at` on the view of `lit`.
pub fn expect_lit(v: &Vec<char>, i: usize, lit: &str) -> (r: Option<usize>)
    requires
        lit@.len() > 0,
    ensures
        (r matches Some(j) ==> expect_at(v@, i as int, lit@) == Some(j as int) && i < j <= v@.len()
            && j - i == lit@.len()),
        r is None ==> expect_at(v@, i as int, lit@) is None,
        r is Some <==> expect_at(v@, i as int, lit@) is Some,
{
    let l = chars_of(lit);
    let n = v.len();
    if i > n || n - i < l.len() {
        return None;
    }
    let mut k: usize = 0;
    while k < l.len()
        invariant
            l@ == lit@,
            n == v@.len(),
            i + l@.len() <= n,
            k <= l@.len(),
            0 < l@.len(),
            forall|m: int| 0 <= m < k ==> v@[i + m] == l@[m],
        decreases l@.len() - k,
    {
        if v[i + k] != l[k] {
            proof {
                assert(v@.subrange(i as int, i + l@.len() as int)[k as int] == v@[i + k]);
            }
            return None;
        }
        k = k + 1;
    }
    proof {
        assert(v@.subrange(i as int, i + l@.len() as int) =~= lit@);
    }
    Some(i + l.len())
}

/// Run-time escaped-string scan: `p_string_at` on the view.
pub fn scan_string(v: &Vec<char>, i: usize) -> (r: Option<(Vec<char>, usize)>)
    ensures
        (r matches Some(u) ==> p_string_at(v@, i as int) == Some((u.0@, u.1 as int)) && i < u.1
            <= v@.len()),
        r is None ==> p_string_at(v@, i as int) is None,
{
    let n = v.len();
    if i > n {
        return None;
    }
    let mut acc: Vec<char> = Vec::new();
    let mut p: usize = i;
    proof {
        if let Some(t) = p_string_at(v@, i as int) {
            assert(Seq::<char>::empty() + t.0 =~= t.0);
        }
    }
    loop
        invariant
            n == v@.len(),
            i <= p,
            p <= n,
            ({
                match p_string_at(v@, p as int) {
                    Some(t) => p_string_at(v@, i as int) == Some((acc@ + t.0, t.1)),
                    None => p_string_at(v@, i as int) is None,
                }
            }),
        decreases n - p,
    {
        if p >= n {
            return None;
        }
        let c = v[p];
        if c == '"' {
            proof {
                assert(p_string_at(v@, p as int) == Some((Seq::<char>::empty(), p + 1 as int)));
                assert(acc@ + Seq::<char>::empty() =~= acc@);
                lemma_p_string_bounds(v@, i as int);
            }
            return Some((acc, p + 1));
        } else if c == '\\' {
            if p + 1 >= n {
                return None;
            }
            acc.push(v[p + 1]);
            proof {
                if let Some(t) = p_string_at(v@, p + 2 as int) {
                    assert(p_string_at(v@, p as int) == Some((seq![v@[p + 1]] + t.0, t.1)));
                    assert(acc@ + t.0 =~= acc@.drop_last() + (seq![v@[p + 1]] + t.0));
                } else {
                    assert(p_string_at(v@, p as int) is None);
                }
            }
            p = p + 2;
        } else {
            acc.push(c);
            proof {
                if let Some(t) = p_string_at(v@, p + 1 as int) {
                    assert(p_string_at(v@, p as int) == Some((seq![v@[p as int]] + t.0, t.1)));
                    assert(acc@ + t.0 =~= acc@.drop_last() + (seq![v@[p as int]] + t.0));
                } else {
                    assert(p_string_at(v@, p as int) is None);
                }
            }
            p = p + 1;
        }
    }
}

/// Rendering of a record's `url` field.
pub open spec fn emit_url_part(url: Option<Seq<char>>) -> Seq<char> {
    match url {
        Some(u) => seq!['"'] + esc(u) + seq!['"'],
        None => "null"@,
    }
}

/// Rendering of one cache line: `"KEY":{"url":U,"last_archived":"ISO"}`.
pub open spec fn emit_record(rec: PersistedRecord) -> Seq<char> {
    seq!['"'] + esc(rec.key) + seq!['"'] + ":{\"url\":"@ + emit_url_part(rec.url)
        + ",\"last_archived\":\""@ + spec_iso(rec.time) + "\"}"@
}

/// Rendering of the entry list, comma separated.
pub open spec fn emit_entries(rs: Seq<PersistedRecord>) -> Seq<char>
    decreases rs.len(),
{
    if rs.len() == 0 {
        Seq::empty()
    } else if rs.len() == 1 {
        emit_record(rs[0])
    } else {
        emit_record(rs[0]) + seq![','] + emit_entries(rs.drop_first())
    }
}

/// Rendering of a whole cache checkpoint.
pub open spec fn spec_serialize(rs: Seq<PersistedRecord>) -> Seq<char> {
    seq!['{'] + emit_entries(rs) + seq!['}']
}

/// Reads a `url` field value: `null`, or a quoted string.
pub open spec fn p_url_at(s: Seq<char>, i: int) -> Option<(Option<Seq<char>>, int)> {
    if 0 <= i < s.len() && s[i] == 'n' {
        match expect_at(s, i, "null"@) {
            Some(j) => Some((None, j)),
            None => None,
        }
    } else {
        match expect_at(s, i, "\""@) {
            Some(j) => match p_string_at(s, j) {
                Some((u, j2)) => Some((Some(u), j2)),
                None => None,
            },
            None => None,
        }
    }
}

/// Reads one cache line starting at `i`.
pub open spec fn p_entry_at(s: Seq<char>, i: int) -> Option<(PersistedRecord, int)> {
    match expect_at(s, i, "\""@) {
        Some(j0) => match p_string_at(s, j0) {
            Some((k, j1)) => match expect_at(s, j1, ":{\"url\":"@) {
                Some(j2) => match p_url_at(s, j2) {
                    Some((u, j3)) => match expect_at(s, j3, ",\"last_archived\":\""@) {
                        Some(j4) => if j4 + 19 <= s.len() {
                            match spec_parse_iso(s.subrange(j4, j4 + 19)) {
                                Some(t) => match expect_at(s, j4 + 19, "\"}"@) {
                                    Some(j5) => Some(
                                        (PersistedRecord { key: k, url: u, time: t }, j5),
                                    ),
                                    None => None,
                                },
                                None => None,
                            }
                        } else {
                            None
                        },
                        None => None,
                    },
                    None => None,
                },
                None => None,
            },
            None => None,
        },
        None => None,
    }
}

/// Reads a nonempty comma-separated entry list starting at `i`.
pub open spec fn p_entries_at(s: Seq<char>, i: int) -> Option<(Seq<PersistedRecord>, int)>
    decreases s.len() - i,
{
    match p_entry_at(s, i) {
        Some((r, j)) => {
            if i < j <= s.len() {
                if j < s.len() && s[j] == ',' {
                    match p_entries_at(s, j + 1) {
                        Some((rs, j2)) => Some((seq![r] + rs, j2)),
                        None => None,
                    }
                } else {
                    Some((seq![r], j))
                }
            } else {
                None
            }
        },
        None => None,
    }
}

/// Reads a whole checkpoint: a braced, comma-separated object consuming the
/// entire input.
pub open spec fn spec_parse_cache(s: Seq<char>) -> Option<Seq<PersistedRecord>> {
    if s.len() == 2 && s[0] == '{' && s[1] == '}' {
        Some(Seq::empty())
    } else if s.len() > 0 && s[0] == '{' {
        match p_entries_at(s, 1) {
            Some((rs, j)) => if j + 1 == s.len() && j < s.len() && s[j] == '}' {
                Some(rs)
            } else {
                None
            },
            None => None,
        }
    } else {
        None
    }
}

/// Each key is strictly greater than its predecessor.
pub open spec fn sorted_adjacent(rs: Seq<PersistedRecord>) -> bool {
    forall|i: int| 1 <= i < rs.len() ==> lex_lt(rs[i - 1].key, #[trigger] rs[i].key)
}

/// A checkpoint is accepted only in canonical form: parseable and sorted.
pub open spec fn spec_load(s: Seq<char>) -> Option<Seq<PersistedRecord>> {
    match spec_parse_cache(s) {
        Some(rs) => if sorted_adjacent(rs) {
            Some(rs)
        } else {
            None
        },
        None => None,
    }
}

/// A segment of an emitted whole sits at its offset in the surrounding text.
proof fn lemma_concat_segment(s: Seq<char>, i: int, full: Seq<char>, off: int, seg: Seq<char>)
    requires
        0 <= i,
        i + full.len() <= s.len(),
        s.subrange(i, i + full.len() as int) == full,
        0 <= off,
        off + seg.len() <= full.len(),
        full.subrange(off, off + seg.len() as int) == seg,
    ensures
        s.subrange(i + off, i + off + seg.len() as int) == seg,
{
    assert(s.subrange(i + off, i + off + seg.len() as int) =~= seg) by {
        assert forall|m: int|
            0 <= m < seg.len() implies s.subrange(i + off, i + off + seg.len() as int)[m]
            == seg[m] by {
            assert(s.subrange(i, i + full.len() as int)[off + m] == s[i + off + m]);
            assert(full.subrange(off, off + seg.len() as int)[m] == full[off + m]);
        }
    }
}

/// Reading back an emitted cache line recovers it exactly.
proof fn lemma_entry_round_trip(s: Seq<char>, i: int, rec: PersistedRecord)
    requires
        0 <= i,
        i + emit_record(rec).len() <= s.len(),
        s.subrange(i, i + emit_record(rec).len() as int) == emit_record(rec),
        rec.time.wf(),
    ensures
        p_entry_at(s, i) == Some((rec, i + emit_record(rec).len())),
{
    reveal_strlit("\"");
    reveal_strlit("null");
    reveal_strlit(":{\"url\":");
    reveal_strlit(",\"last_archived\":\"");
    reveal_strlit("\"}");
    lemma_iso_len(rec.time);
    assert("\""@ =~= seq!['"']);
    let full = emit_record(rec);
    let ek = esc(rec.key);
    let up = emit_url_part(rec.url);
    let iso = spec_iso(rec.time);
    let o1: int = 1;  // esc(key)
    let o2: int = o1 + ek.len();  // closing quote
    let o3: int = o2 + 1;  // :{"url":
    let o4: int = o3 + 8;  // url part
    let o5: int = o4 + up.len();  // ,"last_archived":"
    let o6: int = o5 + 18;  // iso text
    let o7: int = o6 + 19;
    assert(full.len() == o7 + 2);
    assert(full.subrange(0, 1) =~= seq!['"']);
    assert(full.subrange(o1, o2) =~= ek);
    assert(full.subrange(o2, o3) =~= seq!['"']);
    assert(full.subrange(o3, o4) =~= ":{\"url\":"@);
    assert(full.subrange(o4, o5) =~= up);
    assert(full.subrange(o5, o6) =~= ",\"last_archived\":\""@);
    assert(full.subrange(o6, o7) =~= iso);
    assert(full.subrange(o7, o7 + 2) =~= "\"}"@);
    lemma_concat_segment(s, i, full, 0, seq!['"']);
    lemma_concat_segment(s, i, full, o1, ek);
    lemma_concat_segment(s, i, full, o2, seq!['"']);
    lemma_concat_segment(s, i, full, o3, ":{\"url\":"@);
    lemma_concat_segment(s, i, full, o4, up);
    lemma_concat_segment(s, i, full, o5, ",\"last_archived\":\""@);
    lemma_concat_segment(s, i, full, o6, iso);
    lemma_concat_segment(s, i, full, o7, "\"}"@);
    // Opening quote.
    assert(s.subrange(i, i + 1)[0] == s[i]);
    assert(expect_at(s, i, "\""@) == Some(i + 1));
    // Key string: esc(key) followed by the closing quote.
    assert(s.subrange(i + o2, i + o3)[0] == s[i + o2]);
    assert(s[i + o2] == '"');
    lemma_esc_round_trip(s, i + 1, rec.key);
    assert(p_string_at(s, i + 1) == Some((rec.key, i + o3)));
    // Field marker.
    assert(expect_at(s, i + o3, ":{\"url\":"@) == Some(i + o4));
    // The url part.
    match rec.url {
        Some(u) => {
            assert(up == seq!['"'] + esc(u) + seq!['"']);
            assert(up.subrange(0, 1) =~= seq!['"']);
            lemma_concat_segment(s, i + o4, up, 0, seq!['"']);
            assert(s.subrange(i + o4, i + o4 + 1)[0] == s[i + o4]);
            assert(s[i + o4] == '"');
            assert(expect_at(s, i + o4, "\""@) == Some(i + o4 + 1));
            assert(up.subrange(1, 1 + esc(u).len() as int) =~= esc(u));
            lemma_concat_segment(s, i + o4, up, 1, esc(u));
            assert(up.subrange(1 + esc(u).len() as int, up.len() as int) =~= seq!['"']);
            lemma_concat_segment(s, i + o4, up, 1 + esc(u).len() as int, seq!['"']);
            assert(s.subrange(
                i + o4 + 1 + esc(u).len() as int,
                i + o4 + 2 + esc(u).len() as int,
            )[0] == s[i + o4 + 1 + esc(u).len() as int]);
            lemma_esc_round_trip(s, i + o4 + 1, u);
            assert(p_url_at(s, i + o4) == Some((Some(u), i + o5)));
        },
        None => {
            assert(s.subrange(i + o4, i + o5)[0] == s[i + o4]);
            assert(s[i + o4] == 'n');
            assert(expect_at(s, i + o4, "null"@) == Some(i + o5));
            assert(p_url_at(s, i + o4) == Some((None::<Seq<char>>, i + o5)));
        },
    }
    // Timestamp marker, text, and closer.
    assert(expect_at(s, i + o5, ",\"last_archived\":\""@) == Some(i + o6));
    assert(s.subrange(i + o6, i + o6 + 19) == iso);
    crate::timestamp::lemma_iso_round_trip(rec.time);
    assert(expect_at(s, i + o7, "\"}"@) == Some(i + o7 + 2));
}

/// Reading back an emitted entry list, terminated by the closing brace,
/// recovers it exactly.
proof fn lemma_entries_round_trip(s: Seq<char>, i: int, rs: Seq<PersistedRecord>)
    requires
        rs.len() >= 1,
        0 <= i,
        i + emit_entries(rs).len() < s.len(),
        s.subrange(i, i + emit_entries(rs).len() as int) == emit_entries(rs),
        s[i + emit_entries(rs).len() as int] == '}',
        forall|k: int| 0 <= k < rs.len() ==> (#[trigger] rs[k].time).wf(),
    ensures
        p_entries_at(s, i) == Some((rs, i + emit_entries(rs).len())),
    decreases rs.len(),
{
    let full = emit_entries(rs);
    let r0 = emit_record(rs[0]);
    if rs.len() == 1 {
        lemma_entry_round_trip(s, i, rs[0]);
        let j = i + r0.len();
        assert(s[j] == '}');
        assert(seq![rs[0]] =~= rs);
    } else {
        let tail = emit_entries(rs.drop_first());
        assert(full == r0 + seq![','] + tail);
        assert(full.subrange(0, r0.len() as int) =~= r0);
        lemma_concat_segment(s, i, full, 0, r0);
        lemma_entry_round_trip(s, i, rs[0]);
        let j = i + r0.len();
        assert(full.subrange(r0.len() as int, r0.len() + 1 as int) =~= seq![',']);
        lemma_concat_segment(s, i, full, r0.len() as int, seq![',']);
        assert(s.subrange(j, j + 1)[0] == s[j]);
        assert(s[j] == ',');
        assert(full.subrange(r0.len() + 1 as int, full.len() as int) =~= tail);
        lemma_concat_segment(s, i, full, r0.len() + 1 as int, tail);
        assert(forall|k: int|
            0 <= k < rs.drop_first().len() ==> (#[trigger] rs.drop_first()[k].time)
                == rs[k + 1].time);
        lemma_entries_round_trip(s, j + 1, rs.drop_first());
        assert(seq![rs[0]] + rs.drop_first() =~= rs);
    }
}

/// Reading back a serialized cache recovers the identical mapping: the same
/// keys in the same order, each with its snapshot URL and instant.  The
/// transient `existing_snapshot` flag is the one thing not carried over.
pub proof fn lemma_cache_round_trip(c: Cache)
    requires
        c.wf(),
    ensures
        spec_load(spec_serialize(models(c.entries@))) == Some(models(c.entries@)),
{
    let rs = models(c.entries@);
    let s = spec_serialize(rs);
    assert(forall|k: int|
        0 <= k < rs.len() ==> (#[trigger] rs[k].time) == c.entries@[k].result.last_archived);
    assert(forall|k: int| 0 <= k < rs.len() ==> (#[trigger] rs[k].key) == c.entries@[k].url@);
    if rs.len() == 0 {
        assert(emit_entries(rs).len() == 0);
        assert(s.len() == 2 && s[0] == '{' && s[1] == '}');
        assert(rs =~= Seq::<PersistedRecord>::empty());
    } else {
        let e = emit_entries(rs);
        assert(s[0] == '{');
        assert(emit_record(rs[0]).len() >= 1);
        assert(e.len() >= 1);
        assert(s.len() == e.len() + 2);
        assert(s.subrange(1, 1 + e.len() as int) =~= e);
        assert(s[1 + e.len() as int] == '}');
        lemma_entries_round_trip(s, 1, rs);
        assert(spec_parse_cache(s) == Some(rs));
        assert(sorted_adjacent(rs));
    }
}

/// Escaping one more character appends its escape.
proof fn lemma_esc_snoc(s: Seq<char>, c: char)
    ensures
        esc(s.push(c)) == esc(s) + (if c == '"' || c == '\\' {
            seq!['\\', c]
        } else {
            seq![c]
        }),
    decreases s.len(),
{
    let e1 = (if c == '"' || c == '\\' {
        seq!['\\', c]
    } else {
        seq![c]
    });
    if s.len() == 0 {
        assert(s.push(c)[0] == c);
        assert(s.push(c).len() == 1);
        assert(s.push(c).drop_first() =~= Seq::<char>::empty());
        assert(esc(s.push(c).drop_first()) =~= Seq::<char>::empty());
        assert(esc(s.push(c)) =~= esc(s) + e1);
    } else {
        assert(s.push(c)[0] == s[0]);
        assert(s.push(c).drop_first() =~= s.drop_first().push(c));
        lemma_esc_snoc(s.drop_first(), c);
        assert(esc(s.push(c)) =~= esc(s) + e1);
    }
}

/// Appends `esc(v@)` to `out`.
fn push_escaped(out: &mut String, v: &Vec<char>)
    ensures
        final(out)@ == old(out)@ + esc(v@),
{
    let ghost start = out@;
    let n = v.len();
    let mut i: usize = 0;
    proof {
        assert(v@.subrange(0, 0) =~= Seq::<char>::empty());
        assert(out@ =~= start + esc(v@.subrange(0, 0)));
    }
    while i < n
        invariant
            n == v@.len(),
            i <= n,
            out@ == start + esc(v@.subrange(0, i as int)),
        decreases n - i,
    {
        let c = v[i];
        if c == '"' || c == '\\' {
            out.push('\\');
            out.push(c);
        } else {
            out.push(c);
        }
        i = i + 1;
        proof {
            lemma_esc_snoc(v@.subrange(0, i - 1), v@[i - 1]);
            assert(v@.subrange(0, i as int) =~= v@.subrange(0, i - 1).push(v@[i - 1]));
            assert(out@ =~= start + esc(v@.subrange(0, i as int)));
        }
    }
    proof {
        assert(v@.subrange(0, n as int) =~= v@);
    }
}

/// Appending one more record extends the rendered list with a comma.
proof fn lemma_emit_entries_snoc(rs: Seq<PersistedRecord>, r: PersistedRecord)
    ensures
        emit_entries(rs.push(r)) == if rs.len() == 0 {
            emit_record(r)
        } else {
            emit_entries(rs) + seq![','] + emit_record(r)
        },
    decreases rs.len(),
{
    if rs.len() == 0 {
        assert(rs.push(r)[0] == r);
        assert(rs.push(r).len() == 1);
    } else {
        assert(rs.push(r)[0] == rs[0]);
        assert(rs.push(r).drop_first() =~= rs.drop_first().push(r));
        lemma_emit_entries_snoc(rs.drop_first(), r);
        if rs.len() == 1 {
            assert(emit_entries(rs.push(r)) =~= emit_entries(rs) + seq![','] + emit_record(r));
        } else {
            assert(emit_entries(rs.push(r)) =~= emit_entries(rs) + seq![','] + emit_record(r));
        }
    }
}

/// Appends one rendered cache line to `out`.
fn push_record(out: &mut String, entry: &CacheEntry)
    requires
        entry.result.wf(),
    ensures
        final(out)@ == old(out)@ + emit_record(model_of(*entry)),
{
    let ghost start = out@;
    out.push('"');
    let kv = chars_of(entry.url.as_str());
    push_escaped(out, &kv);
    out.push('"');
    out.append(":{\"url\":");
    match &entry.result.url {
        Some(u) => {
            out.push('"');
            let uv = chars_of(u.as_str());
            push_escaped(out, &uv);
            out.push('"');
        },
        None => {
            out.append("null");
        },
    }
    out.append(",\"last_archived\":\"");
    entry.result.last_archived.push_iso(out);
    out.append("\"}");
    proof {
        assert(out@ =~= start + emit_record(model_of(*entry)));
    }
}

/// Renders a cache checkpoint in canonical form.
pub fn serialize_cache(cache: &Cache) -> (out: String)
    requires
        cache.wf(),
    ensures
        out@ == spec_serialize(models(cache.entries@)),
{
    let mut out = String::new();
    out.push('{');
    let n = cache.entries.len();
    let mut i: usize = 0;
    proof {
        assert(models(cache.entries@.subrange(0, 0)) =~= Seq::<PersistedRecord>::empty());
        assert(out@ =~= seq!['{'] + emit_entries(models(cache.entries@.subrange(0, 0))));
    }
    while i < n
        invariant
            cache.wf(),
            n == cache.entries@.len(),
            i <= n,
            out@ == seq!['{'] + emit_entries(models(cache.entries@.subrange(0, i as int))),
        decreases n - i,
    {
        if i > 0 {
            out.push(',');
        }
        push_record(&mut out, &cache.entries[i]);
        i = i + 1;
        proof {
            let pre = models(cache.entries@.subrange(0, i - 1));
            let ms = models(cache.entries@.subrange(0, i as int));
            let m = model_of(cache.entries@[i - 1]);
            assert(ms =~= pre.push(m));
            lemma_emit_entries_snoc(pre, m);
            assert(out@ =~= seq!['{'] + emit_entries(ms));
        }
    }
    out.push('}');
    proof {
        assert(cache.entries@.subrange(0, n as int) =~= cache.entries@);
        assert(out@ =~= spec_serialize(models(cache.entries@)));
    }
    out
}

/// Adjacent order extends to all pairs.
proof fn lemma_adjacent_sorted(s: Seq<CacheEntry>, a: int, b: int)
    requires
        forall|m: int| 1 <= m < s.len() ==> lex_lt(s[m - 1].url@, #[trigger] s[m].url@),
        0 <= a < b < s.len(),
    ensures
        lex_lt(s[a].url@, s[b].url@),
    decreases b - a,
{
    if a + 1 < b {
        lemma_adjacent_sorted(s, a, b - 1);
        lemma_lex_transitive(s[a].url@, s[b - 1].url@, s[b].url@);
    }
}

/// The persisted view of one freshly loaded entry.
pub open spec fn model_of(e: CacheEntry) -> PersistedRecord {
    PersistedRecord {
        key: e.url@,
        url: match e.result.url {
            Some(u) => Some(u@),
            None => None,
        },
        time: e.result.last_archived,
    }
}

/// Reads one cache line at `i`, mirroring `p_entry_at`.
fn parse_entry(v: &Vec<char>, i: usize) -> (r: Option<(CacheEntry, usize)>)
    ensures
        (r matches Some(p) ==> p_entry_at(v@, i as int) == Some((model_of(p.0), p.1 as int)) && i
            < p.1 <= v@.len() && !p.0.result.existing_snapshot && p.0.result.wf()),
        r is None ==> p_entry_at(v@, i as int) is None,
{
    proof {
        reveal_strlit("\"");
        reveal_strlit("null");
        reveal_strlit(":{\"url\":");
        reveal_strlit(",\"last_archived\":\"");
        reveal_strlit("\"}");
    }
    let j0 = match expect_lit(v, i, "\"") {
        Some(j) => j,
        None => {
            return None;
        },
    };
    let (key, j1) = match scan_string(v, j0) {
        Some(p) => p,
        None => {
            return None;
        },
    };
    let j2 = match expect_lit(v, j1, ":{\"url\":") {
        Some(j) => j,
        None => {
            return None;
        },
    };
    let n = v.len();
    let (url, j3): (Option<Vec<char>>, usize) = if j2 < n && v[j2] == 'n' {
        match expect_lit(v, j2, "null") {
            Some(j) => (None, j),
            None => {
                return None;
            },
        }
    } else {
        let jq = match expect_lit(v, j2, "\"") {
            Some(j) => j,
            None => {
                return None;
            },
        };
        match scan_string(v, jq) {
            Some(p) => (Some(p.0), p.1),
            None => {
                return None;
            },
        }
    };
    let j4 = match expect_lit(v, j3, ",\"last_archived\":\"") {
        Some(j) => j,
        None => {
            return None;
        },
    };
    if n - j4 < 19 {
        return None;
    }
    let mut iso: Vec<char> = Vec::new();
    let mut k: usize = 0;
    while k < 19
        invariant
            n == v@.len(),
            j4 + 19 <= n,
            k <= 19,
            iso@ == v@.subrange(j4 as int, j4 + k as int),
        decreases 19 - k,
    {
        iso.push(v[j4 + k]);
        k = k + 1;
        proof {
            assert(iso@ =~= v@.subrange(j4 as int, j4 + k as int));
        }
    }
    let t = match Timestamp::parse_iso(&iso) {
        Some(t) => t,
        None => {
            return None;
        },
    };
    let j5 = match expect_lit(v, j4 + 19, "\"}") {
        Some(j) => j,
        None => {
            return None;
        },
    };
    let entry = CacheEntry {
        url: string_of(&key),
        result: ArchivingResult {
            url: match url {
                Some(u) => Some(string_of(&u)),
                None => None,
            },
            last_archived: t,
            existing_snapshot: false,
        },
    };
    Some((entry, j5))
}

/// Reads a checkpoint back into a cache.
///
/// Accepts exactly the canonical form that `serialize_cache` writes; on
/// anything else the caller treats the file as corrupt.
pub fn load_cache(text: &str) -> (r: Option<Cache>)
    ensures
        (r matches Some(c) ==> c.wf() && spec_load(text@) == Some(models(c.entries@))),
        r is None ==> spec_load(text@) is None,
{
    let v = chars_of(text);
    let n = v.len();
    if n == 2 && v[0] == '{' && v[1] == '}' {
        let c = Cache::new();
        proof {
            assert(models(c.entries@) =~= Seq::<PersistedRecord>::empty());
            assert(spec_parse_cache(text@) == Some(Seq::<PersistedRecord>::empty()));
        }
        return Some(c);
    }
    if n == 0 || v[0] != '{' {
        return None;
    }
    let mut entries: Vec<CacheEntry> = Vec::new();
    let mut i: usize = 1;
    proof {
        assert(models(entries@) =~= Seq::<PersistedRecord>::empty());
        if let Some(t) = p_entries_at(v@, 1) {
            assert(models(entries@) + t.0 =~= t.0);
        }
    }
    loop
        invariant
            v@ == text@,
            n == v@.len(),
            1 <= i <= n,
            n > 0 && v@[0] == '{',
            !(n == 2 && v@[1] == '}'),
            forall|m: int|
                0 <= m < entries@.len() ==> (#[trigger] entries@[m].result).wf()
                    && !entries@[m].result.existing_snapshot,
            ({
                match p_entries_at(v@, i as int) {
                    Some(t) => p_entries_at(v@, 1) == Some((models(entries@) + t.0, t.1)),
                    None => p_entries_at(v@, 1) is None,
                }
            }),
        decreases n - i,
    {
        let (entry, j) = match parse_entry(&v, i) {
            Some(p) => p,
            None => {
                return None;
            },
        };
        let ghost m = model_of(entry);
        entries.push(entry);
        proof {
            assert(models(entries@) =~= models(entries@.drop_last()).push(m));
        }
        if j < n && v[j] == ',' {
            proof {
                if let Some(t) = p_entries_at(v@, j + 1 as int) {
                    assert(p_entries_at(v@, i as int) == Some((seq![m] + t.0, t.1)));
                    assert(models(entries@) + t.0 =~= models(entries@.drop_last()) + (seq![m]
                        + t.0));
                } else {
                    assert(p_entries_at(v@, i as int) is None);
                }
            }
            i = j + 1;
        } else {
            proof {
                assert(p_entries_at(v@, i as int) == Some((seq![m], j as int)));
                assert(models(entries@) =~= models(entries@.drop_last()) + seq![m]);
            }
            if j == n - 1 && v[j] == '}' {
                let total = entries.len();
                let mut k: usize = 1;
                while k < total
                    invariant
                        total == entries@.len(),
                        1 <= k <= total || total == 0,
                        forall|m2: int|
                            1 <= m2 < k ==> lex_lt(
                                entries@[m2 - 1].url@,
                                #[trigger] entries@[m2].url@,
                            ),
                        v@ == text@,
                        spec_parse_cache(text@) == Some(models(entries@)),
                        forall|m2: int|
                            0 <= m2 < entries@.len() ==> (#[trigger] entries@[m2].result).wf(),
                    decreases total - k,
                {
                    let a = chars_of(entries[k - 1].url.as_str());
                    let b = chars_of(entries[k].url.as_str());
                    if !chars_lt(&a, &b) {
                        proof {
                            assert(models(entries@)[k as int].key == entries@[k as int].url@);
                            assert(models(entries@)[k - 1].key == entries@[k - 1].url@);
                            assert(!sorted_adjacent(models(entries@)));
                        }
                        return None;
                    }
                    k = k + 1;
                }
                let c = Cache { entries };
                proof {
                    assert(sorted_adjacent(models(c.entries@))) by {
                        assert forall|m2: int| 1 <= m2 < models(c.entries@).len() implies lex_lt(
                            models(c.entries@)[m2 - 1].key,
                            #[trigger] models(c.entries@)[m2].key,
                        ) by {
                            assert(models(c.entries@)[m2].key == c.entries@[m2].url@);
                            assert(models(c.entries@)[m2 - 1].key == c.entries@[m2 - 1].url@);
                        }
                    }
                    assert forall|a: int, b: int|
                        0 <= a < b < c.entries@.len() implies lex_lt(
                        #[trigger] c.entries@[a].url@,
                        #[trigger] c.entries@[b].url@,
                    ) by {
                        lemma_adjacent_sorted(c.entries@, a, b);
                    }
                }
                return Some(c);
            }
            return None;
        }
    }
}

} // verus!
