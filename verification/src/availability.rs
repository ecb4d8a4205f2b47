//! Selecting the most recent existing snapshot.
//!
//! The availability endpoint may list several candidate snapshots for one
//! URL.  The service's timestamps are fixed width, so the lexicographically
//! greatest timestamp is the numerically greatest; this module picks that
//! candidate and folds it into an outcome record.

use crate::outcome::{ArchiveError, ArchivingResult};
use crate::text::{chars_lt, chars_of, lemma_lex_transitive, lemma_lex_trichotomy, lex_lt};
use crate::timestamp::{spec_parse_compact, Timestamp};
use vstd::prelude::*;

verus! {

/// One candidate snapshot reported by the availability endpoint.
#[derive(Debug)]
pub struct Candidate {
    pub url: String,
    pub timestamp: String,
}

/// `i` indexes the first candidate whose timestamp is maximal: no candidate
/// is greater, and every earlier candidate is strictly smaller.
pub open spec fn is_best(cands: Seq<Candidate>, i: int) -> bool {
    &&& 0 <= i < cands.len()
    &&& forall|j: int|
        0 <= j < cands.len() ==> !lex_lt(cands[i].timestamp@, #[trigger] cands[j].timestamp@)
    &&& forall|j: int| 0 <= j < i ==> lex_lt(#[trigger] cands[j].timestamp@, cands[i].timestamp@)
}

/// At most one index is the first maximal candidate.
pub proof fn lemma_best_unique(cands: Seq<Candidate>, i1: int, i2: int)
    requires
        is_best(cands, i1),
        is_best(cands, i2),
    ensures
        i1 == i2,
{
    if i1 < i2 {
        assert(lex_lt(cands[i1].timestamp@, cands[i2].timestamp@));
        assert(!lex_lt(cands[i1].timestamp@, cands[i2].timestamp@));
    } else if i2 < i1 {
        assert(lex_lt(cands[i2].timestamp@, cands[i1].timestamp@));
        assert(!lex_lt(cands[i2].timestamp@, cands[i1].timestamp@));
    }
}

/// Picks the candidate with the greatest timestamp and decodes it.
///
/// With no candidates the availability check reports that nothing exists to
/// reuse; with candidates, the best one either decodes into an existing
/// snapshot record or fails as malformed.
pub fn select_latest(cands: &Vec<Candidate>) -> (r: Result<ArchivingResult, ArchiveError>)
    ensures
        cands@.len() == 0 ==> (r matches Err(e) && e is NoExistingSnapshot),
        r matches Ok(a) ==> ({
            &&& a.existing_snapshot
            &&& a.wf()
            &&& exists|i: int|
                {
                    &&& #[trigger] is_best(cands@, i)
                    &&& spec_parse_compact(cands@[i].timestamp@) == Some(a.last_archived)
                    &&& a.url matches Some(u) && u@ == cands@[i].url@
                }
        }),
        cands@.len() > 0 ==> (r matches Err(e) ==> e is ParseError && (forall|i: int|
            #[trigger] is_best(cands@, i) ==> spec_parse_compact(cands@[i].timestamp@) is None)),
{
    if cands.len() == 0 {
        return Err(ArchiveError::NoExistingSnapshot);
    }
    let mut best: usize = 0;
    let mut k: usize = 1;
    proof {
        lemma_lex_trichotomy(cands@[0].timestamp@, cands@[0].timestamp@);
    }
    while k < cands.len()
        invariant
            0 < cands@.len(),
            best < k <= cands@.len(),
            forall|j: int|
                0 <= j < k ==> !lex_lt(
                    cands@[best as int].timestamp@,
                    #[trigger] cands@[j].timestamp@,
                ),
            forall|j: int|
                0 <= j < best ==> lex_lt(
                    #[trigger] cands@[j].timestamp@,
                    cands@[best as int].timestamp@,
                ),
        decreases cands@.len() - k,
    {
        let bts = chars_of(cands[best].timestamp.as_str());
        let kts = chars_of(cands[k].timestamp.as_str());
        if chars_lt(&bts, &kts) {
            proof {
                let c = cands@;
                let ob = best as int;
                let ki = k as int;
                assert forall|j: int| 0 <= j < ki + 1 implies !lex_lt(
                    c[ki].timestamp@,
                    #[trigger] c[j].timestamp@,
                ) by {
                    if j < ki {
                        lemma_lex_trichotomy(c[ob].timestamp@, c[j].timestamp@);
                        if lex_lt(c[j].timestamp@, c[ob].timestamp@) {
                            lemma_lex_transitive(
                                c[j].timestamp@,
                                c[ob].timestamp@,
                                c[ki].timestamp@,
                            );
                        }
                        lemma_lex_trichotomy(c[j].timestamp@, c[ki].timestamp@);
                    } else {
                        lemma_lex_trichotomy(c[ki].timestamp@, c[ki].timestamp@);
                    }
                }
                assert forall|j: int| 0 <= j < ki implies lex_lt(
                    #[trigger] c[j].timestamp@,
                    c[ki].timestamp@,
                ) by {
                    if j != ob {
                        lemma_lex_trichotomy(c[ob].timestamp@, c[j].timestamp@);
                        if lex_lt(c[j].timestamp@, c[ob].timestamp@) {
                            lemma_lex_transitive(
                                c[j].timestamp@,
                                c[ob].timestamp@,
                                c[ki].timestamp@,
                            );
                        }
                    }
                }
            }
            best = k;
        }
        k = k + 1;
    }
    proof {
        assert(is_best(cands@, best as int));
    }
    let tsv = chars_of(cands[best].timestamp.as_str());
    match Timestamp::parse_compact(&tsv) {
        Some(t) => Ok(
            ArchivingResult {
                url: Some(cands[best].url.clone()),
                last_archived: t,
                existing_snapshot: true,
            },
        ),
        None => {
            proof {
                assert forall|i: int| #[trigger] is_best(cands@, i) implies spec_parse_compact(
                    cands@[i].timestamp@,
                ) is None by {
                    lemma_best_unique(cands@, i, best as int);
                }
            }
            Err(ArchiveError::ParseError("unable to parse snapshot timestamp".to_owned()))
        },
    }
}

} // verus!
