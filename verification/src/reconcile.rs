//! The whole reconciliation: parse the baseline and the updates, fold
//! the updates in, and render the merged file.

use vstd::prelude::*;
use crate::merge::{merge_sets, RecordSet};
use crate::parse::{byte_views, parse_content, parse_records};
use crate::record::{models, unique_names, RecordModel};
use crate::serialize::{render_output, serialize_records};

verus! {

/// Every update file parsed, in the order supplied.
pub open spec fn parse_all(cs: Seq<Seq<u8>>) -> Option<Seq<Seq<RecordModel>>>
    decreases cs.len(),
{
    if cs.len() == 0 {
        Some(Seq::<Seq<RecordModel>>::empty())
    } else {
        match parse_all(cs.drop_last()) {
            None => None,
            Some(us) => match parse_content(cs.last()) {
                None => None,
                Some(rs) => Some(us.push(rs)),
            },
        }
    }
}

/// Why a whole run fails, with the offending input: a baseline that
/// does not parse, a baseline naming a test twice, or the first
/// update file that does not parse.
#[derive(Clone, Copy, Debug, PartialEq, Eq, Structural)]
pub enum MergeError {
    BaselineMalformed,
    DuplicateTestName,
    UpdateMalformed(usize),
}

/// Index of the first update file that does not parse, if any.
pub open spec fn first_bad_update(cs: Seq<Seq<u8>>) -> Option<int>
    decreases cs.len(),
{
    if cs.len() == 0 {
        None
    } else {
        match first_bad_update(cs.drop_last()) {
            Some(i) => Some(i),
            None => if parse_content(cs.last()) is None {
                Some(cs.len() - 1)
            } else {
                None
            },
        }
    }
}

/// What merging whole files comes to: the baseline must parse and
/// name each test once, every update must parse, and the output is
/// the rendered merge.
pub open spec fn spec_merge(baseline: Seq<u8>, updates: Seq<Seq<u8>>) -> Result<
    Seq<u8>,
    MergeError,
> {
    match parse_content(baseline) {
        None => Err(MergeError::BaselineMalformed),
        Some(base) => if !unique_names(base) {
            Err(MergeError::DuplicateTestName)
        } else {
            match first_bad_update(updates) {
                Some(i) => Err(MergeError::UpdateMalformed(i as usize)),
                None => Ok(render_output(merge_sets(base, parse_all(updates).unwrap()))),
            }
        },
    }
}

/// The first update that fails to parse is exactly the first index
/// whose content does not parse.
proof fn lemma_first_bad_update(cs: Seq<Seq<u8>>)
    ensures
        (match first_bad_update(cs) {
            Some(i) => 0 <= i < cs.len() && parse_content(cs[i]) is None && (forall|j: int|
                0 <= j < i ==> parse_content(#[trigger] cs[j]) is Some),
            None => forall|j: int| 0 <= j < cs.len() ==> parse_content(#[trigger] cs[j]) is Some,
        }),
    decreases cs.len(),
{
    if cs.len() > 0 {
        lemma_first_bad_update(cs.drop_last());
        assert(forall|j: int| 0 <= j < cs.len() - 1 ==> cs.drop_last()[j] == cs[j]);
    }
}

/// The merged cost file for a baseline and its updates, as bytes.
///
/// Returns exactly what `spec_merge` prescribes: which input file
/// first failed to parse, or that the baseline names a test twice,
/// and otherwise the merged rows in order with the trailer appended.
#[verifier::loop_isolation(false)]
pub fn merge_cost_files(baseline: &Vec<u8>, updates: &Vec<Vec<u8>>) -> (r: Result<
    Vec<u8>,
    MergeError,
>)
    ensures
        (match r {
            Ok(out) => spec_merge(baseline@, byte_views(updates@)) == Ok::<Seq<u8>, MergeError>(
                out@,
            ),
            Err(e) => spec_merge(baseline@, byte_views(updates@)) == Err::<Seq<u8>, MergeError>(
                e,
            ),
        }),
{
    let base_records = match parse_records(baseline) {
        Ok(v) => v,
        Err(_) => {
            return Err(MergeError::BaselineMalformed);
        },
    };
    let mut set = match RecordSet::from_baseline(base_records) {
        Ok(s) => s,
        Err(_) => {
            return Err(MergeError::DuplicateTestName);
        },
    };
    let ghost base = set@;
    let ghost uviews = byte_views(updates@);
    let ghost mut us: Seq<Seq<RecordModel>> = Seq::<Seq<RecordModel>>::empty();
    let mut i: usize = 0;
    proof {
        assert(uviews.take(0) =~= Seq::<Seq<u8>>::empty());
    }
    while i < updates.len()
        invariant
            i <= updates.len(),
            parse_all(uviews.take(i as int)) == Some(us),
            forall|j: int| 0 <= j < i ==> parse_content(#[trigger] uviews[j]) is Some,
            set.wf(),
            set@ == merge_sets(base, us),
        decreases updates.len() - i,
    {
        proof {
            assert(uviews.take(i + 1).drop_last() =~= uviews.take(i as int));
            assert(uviews.take(i + 1).last() == updates@[i as int]@);
        }
        match parse_records(&updates[i]) {
            Err(_) => {
                proof {
                    lemma_first_bad_update(uviews);
                    match first_bad_update(uviews) {
                        None => {
                            assert(parse_content(uviews[i as int]) is Some);
                        },
                        Some(b) => {
                            if b < i {
                                assert(parse_content(uviews[b]) is Some);
                            } else if i < b {
                                assert(parse_content(uviews[i as int]) is Some);
                            }
                        },
                    }
                    assert(first_bad_update(uviews) == Some(i as int));
                }
                return Err(MergeError::UpdateMalformed(i));
            },
            Ok(recs) => {
                let ghost rsm = models(recs@);
                set.apply_update(recs);
                proof {
                    us = us.push(rsm);
                    assert(us.drop_last() =~= parse_all(uviews.take(i as int)).unwrap());
                    assert(us.last() == rsm);
                }
            },
        }
        i = i + 1;
    }
    proof {
        assert(uviews.take(updates@.len() as int) =~= uviews);
        lemma_first_bad_update(uviews);
        match first_bad_update(uviews) {
            None => {},
            Some(b) => {
                assert(parse_content(uviews[b]) is Some);
            },
        }
    }
    let recs = set.into_records();
    let out = serialize_records(&recs);
    Ok(out)
}

} // verus!
