//! The reconciliation rule: updates overlay a baseline, freshest
//! record first, where freshness is the run count.

use vstd::prelude::*;
use crate::imap::{
    entry_records, find_key, imap_get_count, imap_insert, imap_into_records, imap_new,
    map_entries,
};
use crate::record::{models, unique_names, CostError, CostRecord, RecordModel};
use indexmap::IndexMap;

verus! {

/// First index of a record named `n`, if any.
pub open spec fn find_name(rs: Seq<RecordModel>, n: Seq<u8>) -> Option<int>
    decreases rs.len(),
{
    if rs.len() == 0 {
        None
    } else if rs[0].name == n {
        Some(0)
    } else {
        match find_name(rs.drop_first(), n) {
            Some(i) => Some(i + 1),
            None => None,
        }
    }
}

/// The record set's row for test `n`, if any.
pub open spec fn entry_for(rs: Seq<RecordModel>, n: Seq<u8>) -> Option<RecordModel> {
    match find_name(rs, n) {
        Some(i) => Some(rs[i]),
        None => None,
    }
}

/// One update record folded into the accumulator: a new test name is
/// appended last; a known one is replaced in place only when the
/// update's count is strictly greater.
pub open spec fn merge_record(acc: Seq<RecordModel>, r: RecordModel) -> Seq<RecordModel> {
    match find_name(acc, r.name) {
        Some(i) => if r.count > acc[i].count {
            acc.update(i, r)
        } else {
            acc
        },
        None => acc.push(r),
    }
}

/// One update's records folded into the accumulator, in order.
pub open spec fn merge_records(acc: Seq<RecordModel>, rs: Seq<RecordModel>) -> Seq<RecordModel>
    decreases rs.len(),
{
    if rs.len() == 0 {
        acc
    } else {
        merge_record(merge_records(acc, rs.drop_last()), rs.last())
    }
}

/// All updates folded into the baseline, in the order supplied.
pub open spec fn merge_sets(base: Seq<RecordModel>, updates: Seq<Seq<RecordModel>>) -> Seq<
    RecordModel,
>
    decreases updates.len(),
{
    if updates.len() == 0 {
        base
    } else {
        merge_records(merge_sets(base, updates.drop_last()), updates.last())
    }
}

/// `find_name` finds exactly the first index bearing the name.
pub proof fn lemma_find_name(rs: Seq<RecordModel>, n: Seq<u8>)
    ensures
        (match find_name(rs, n) {
            Some(i) => 0 <= i < rs.len() && rs[i].name == n && (forall|j: int|
                0 <= j < i ==> rs[j].name != n),
            None => forall|j: int| 0 <= j < rs.len() ==> rs[j].name != n,
        }),
    decreases rs.len(),
{
    if rs.len() > 0 && rs[0].name != n {
        lemma_find_name(rs.drop_first(), n);
        match find_name(rs.drop_first(), n) {
            Some(i0) => {
                assert(rs[i0 + 1] == rs.drop_first()[i0]);
                assert forall|j: int| 0 <= j < i0 + 1 implies rs[j].name != n by {
                    if j > 0 {
                        assert(rs[j] == rs.drop_first()[j - 1]);
                    }
                }
            },
            None => {
                assert forall|j: int| 0 <= j < rs.len() implies rs[j].name != n by {
                    if j > 0 {
                        assert(rs[j] == rs.drop_first()[j - 1]);
                    }
                }
            },
        }
    }
}

/// `find_key` finds exactly the first index bearing the key.
pub proof fn lemma_find_key(es: Seq<(Seq<u8>, RecordModel)>, k: Seq<u8>)
    ensures
        (match find_key(es, k) {
            Some(i) => 0 <= i < es.len() && es[i].0 == k && (forall|j: int|
                0 <= j < i ==> es[j].0 != k),
            None => forall|j: int| 0 <= j < es.len() ==> es[j].0 != k,
        }),
    decreases es.len(),
{
    if es.len() > 0 && es[0].0 != k {
        lemma_find_key(es.drop_first(), k);
        match find_key(es.drop_first(), k) {
            Some(i0) => {
                assert(es[i0 + 1] == es.drop_first()[i0]);
                assert forall|j: int| 0 <= j < i0 + 1 implies es[j].0 != k by {
                    if j > 0 {
                        assert(es[j] == es.drop_first()[j - 1]);
                    }
                }
            },
            None => {
                assert forall|j: int| 0 <= j < es.len() implies es[j].0 != k by {
                    if j > 0 {
                        assert(es[j] == es.drop_first()[j - 1]);
                    }
                }
            },
        }
    }
}

/// Every entry's key is its record's test name.
pub open spec fn wf_entries(es: Seq<(Seq<u8>, RecordModel)>) -> bool {
    forall|i: int| 0 <= i < es.len() ==> (#[trigger] es[i]).0 == es[i].1.name
}

/// Over well-formed entries, looking a key up and looking a record
/// name up agree.
proof fn lemma_find_key_bridge(es: Seq<(Seq<u8>, RecordModel)>, n: Seq<u8>)
    requires
        wf_entries(es),
    ensures
        find_key(es, n) == find_name(entry_records(es), n),
{
    lemma_find_key(es, n);
    lemma_find_name(entry_records(es), n);
    match (find_key(es, n), find_name(entry_records(es), n)) {
        (Some(i), Some(j)) => {
            if i < j {
                assert(entry_records(es)[i].name == n);
            } else if j < i {
                assert(es[j].0 == n);
            }
        },
        (Some(i), None) => {
            assert(entry_records(es)[i].name == n);
        },
        (None, Some(j)) => {
            assert(es[j].0 == n);
        },
        (None, None) => {},
    }
}

/// An insertion-ordered set of cost records, one per test name.
pub struct RecordSet {
    map: IndexMap<Vec<u8>, CostRecord>,
}

impl View for RecordSet {
    type V = Seq<RecordModel>;

    closed spec fn view(&self) -> Seq<RecordModel> {
        entry_records(map_entries(self.map))
    }
}

/// A copy of the bytes of `v`.
fn copy_bytes(v: &Vec<u8>) -> (r: Vec<u8>)
    ensures
        r@ == v@,
{
    let mut r: Vec<u8> = Vec::new();
    let mut i: usize = 0;
    while i < v.len()
        invariant
            i <= v.len(),
            r@ == v@.take(i as int),
        decreases v.len() - i,
    {
        r.push(v[i]);
        proof {
            assert(v@.take(i + 1) =~= v@.take(i as int).push(v@[i as int]));
        }
        i = i + 1;
    }
    proof {
        assert(v@.take(v@.len() as int) =~= v@);
    }
    r
}

impl RecordSet {
    /// The stored entries are keyed by their record's name, and no
    /// name occurs twice.
    pub closed spec fn wf(self) -> bool {
        wf_entries(map_entries(self.map)) && unique_names(self@)
    }

    /// A well-formed set never holds two rows with one test name.
    pub proof fn lemma_wf_unique(self)
        requires
            self.wf(),
        ensures
            unique_names(self@),
    {
    }

    /// The baseline as a record set.
    ///
    /// Fails with `DuplicateTestName` exactly when the baseline names
    /// a test twice; otherwise the set holds the baseline's rows in
    /// file order.
    #[verifier::loop_isolation(false)]
    pub fn from_baseline(records: Vec<CostRecord>) -> (r: Result<RecordSet, CostError>)
        ensures
            (match r {
                Ok(s) => unique_names(models(records@)) && s.wf() && s@ == models(records@),
                Err(e) => !unique_names(models(records@)) && e == CostError::DuplicateTestName,
            }),
    {
        let ghost orig = records@;
        let mut records = records;
        let mut map = imap_new();
        proof {
            assert(orig.skip(0) =~= orig);
            assert(orig.take(0) =~= Seq::<CostRecord>::empty());
            assert(models(orig.take(0)) =~= Seq::<RecordModel>::empty());
        }
        while records.len() > 0
            invariant
                records@.len() <= orig.len(),
                records@ == orig.skip(orig.len() - records@.len()),
                wf_entries(map_entries(map)),
                entry_records(map_entries(map)) == models(
                    orig.take(orig.len() - records@.len()),
                ),
                unique_names(models(orig.take(orig.len() - records@.len()))),
            decreases records@.len(),
        {
            let ghost i = orig.len() - records@.len();
            let ghost es = map_entries(map);
            let rec = records.remove(0);
            proof {
                assert(rec == orig[i]);
                assert(records@ =~= orig.skip(orig.len() - records@.len()));
            }
            let key = copy_bytes(&rec.test_name);
            let prev = imap_insert(&mut map, key, rec);
            proof {
                lemma_find_key(es, rec.test_name@);
                lemma_find_name(entry_records(es), rec.test_name@);
            }
            if prev.is_some() {
                proof {
                    let j = find_key(es, rec.test_name@).unwrap();
                    let m = models(orig);
                    assert(entry_records(es)[j].name == rec@.name);
                    assert(0 <= j < i < m.len());
                    assert(m[j].name == models(orig.take(i as int))[j].name);
                    assert(m[j].name == rec@.name);
                    assert(m[i as int].name == rec@.name);
                    assert(!unique_names(m)) by {
                        if unique_names(m) {
                            assert(m[j].name != m[i as int].name);
                        }
                    }
                }
                return Err(CostError::DuplicateTestName);
            }
            proof {
                assert(find_key(es, rec.test_name@) is None);
                assert(entry_records(es.push((rec.test_name@, rec@))) =~= entry_records(es).push(
                    rec@,
                ));
                assert(models(orig.take(i + 1)) =~= models(orig.take(i as int)).push(rec@));
                assert(forall|j: int|
                    0 <= j < entry_records(es).len() ==> #[trigger] entry_records(
                        es,
                    )[j].name == es[j].0);
                assert(unique_names(models(orig.take(i + 1)))) by {
                    assert(forall|j: int|
                        0 <= j < i ==> #[trigger] models(orig.take(i + 1))[j].name != rec@.name);
                }
            }
        }
        proof {
            assert(orig.take(orig.len() as int) =~= orig);
        }
        Ok(RecordSet { map })
    }

    /// One update file's records folded in, in file order.
    pub fn apply_update(&mut self, records: Vec<CostRecord>)
        requires
            old(self).wf(),
        ensures
            final(self).wf(),
            final(self)@ == merge_records(old(self)@, models(records@)),
    {
        let ghost base = self@;
        let ghost orig = records@;
        let mut records = records;
        proof {
            assert(orig.skip(0) =~= orig);
            assert(models(orig.take(0)) =~= Seq::<RecordModel>::empty());
        }
        while records.len() > 0
            invariant
                records@.len() <= orig.len(),
                records@ == orig.skip(orig.len() - records@.len()),
                self.wf(),
                self@ == merge_records(base, models(orig.take(orig.len() - records@.len()))),
            decreases records@.len(),
        {
            let ghost i = orig.len() - records@.len();
            let ghost es = map_entries(self.map);
            let ghost acc = self@;
            let rec = records.remove(0);
            proof {
                assert(rec == orig[i]);
                assert(records@ =~= orig.skip(orig.len() - records@.len()));
                assert(models(orig.take(i + 1)).drop_last() =~= models(orig.take(i as int)));
                assert(models(orig.take(i + 1)).last() == rec@);
                lemma_find_key_bridge(es, rec.test_name@);
                lemma_find_key(es, rec.test_name@);
                lemma_find_name(acc, rec.test_name@);
            }
            match imap_get_count(&self.map, &rec.test_name) {
                Some(c) => {
                    if rec.count > c {
                        let key = copy_bytes(&rec.test_name);
                        let ghost k = find_name(acc, rec@.name).unwrap();
                        let _ = imap_insert(&mut self.map, key, rec);
                        proof {
                            assert(map_entries(self.map) == es.update(k, (rec.test_name@, rec@)));
                            assert(self@ =~= acc.update(k, rec@));
                            assert(merge_record(acc, rec@) == acc.update(k, rec@));
                            assert(forall|j: int|
                                0 <= j < self@.len() ==> (#[trigger] self@[j]).name
                                    == acc[j].name);
                        }
                    } else {
                        proof {
                            let k = find_name(acc, rec@.name).unwrap();
                            assert(acc[k].count == c);
                            assert(merge_record(acc, rec@) == acc);
                        }
                    }
                },
                None => {
                    let key = copy_bytes(&rec.test_name);
                    let _ = imap_insert(&mut self.map, key, rec);
                    proof {
                        assert(map_entries(self.map) == es.push((rec.test_name@, rec@)));
                        assert(self@ =~= acc.push(rec@));
                        assert(merge_record(acc, rec@) == acc.push(rec@));
                        assert(forall|j: int|
                            0 <= j < acc.len() ==> (#[trigger] acc[j]).name != rec@.name);
                    }
                },
            }
        }
        proof {
            assert(orig.take(orig.len() as int) =~= orig);
        }
    }

    /// The rows, in the set's order. Consumes the set.
    pub fn into_records(self) -> (r: Vec<CostRecord>)
        ensures
            models(r@) == self@,
    {
        imap_into_records(self.map)
    }
}

} // verus!
