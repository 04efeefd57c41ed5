//! What holds of the merge, stated and proved over the spec functions
//! the contracts use.

use vstd::prelude::*;
use crate::merge::{
    entry_for, find_name, lemma_find_name, merge_record, merge_records, merge_sets,
};
use crate::parse::{
    count_val, is_count, lemma_count_val_nonneg, parse_content, parse_line, parse_lines, split_on,
    strip_trailer, trailer,
};
use crate::record::{unique_names, RecordModel};
use crate::serialize::{render_count, render_line, render_output, render_records};

verus! {

/// The row kept for a test after one update row is folded in.
pub open spec fn step_winner(e: Option<RecordModel>, x: RecordModel) -> RecordModel {
    match e {
        None => x,
        Some(b) => if x.count > b.count {
            x
        } else {
            b
        },
    }
}

/// No row of `s` named `n` counts above `c`.
pub open spec fn caps(s: Seq<RecordModel>, n: Seq<u8>, c: int) -> bool {
    forall|k: int| 0 <= k < s.len() && (#[trigger] s[k]).name == n ==> s[k].count <= c
}

/// `w` is what merging the rows of `s` over the existing row `b`
/// leaves for `b`'s test: `b` itself while no row of `s` out-counts
/// it, else the winning row of `s`.
pub open spec fn is_winner(w: RecordModel, b: RecordModel, s: Seq<RecordModel>) -> bool {
    &&& w.name == b.name
    &&& ((w == b && caps(s, b.name, b.count)) || ((exists|k: int|
        0 <= k < s.len() && #[trigger] s[k] == w) && w.count > b.count && caps(
        s,
        b.name,
        w.count,
    )))
}

/// Name lookup sees only the names.
proof fn lemma_find_name_names_eq(s1: Seq<RecordModel>, s2: Seq<RecordModel>, n: Seq<u8>)
    requires
        s1.len() == s2.len(),
        forall|i: int| 0 <= i < s1.len() ==> s1[i].name == s2[i].name,
    ensures
        find_name(s1, n) == find_name(s2, n),
{
    lemma_find_name(s1, n);
    lemma_find_name(s2, n);
    match (find_name(s1, n), find_name(s2, n)) {
        (Some(i), Some(j)) => {
            if i < j {
                assert(s2[i].name == n);
            } else if j < i {
                assert(s1[j].name == n);
            }
        },
        (Some(i), None) => {
            assert(s2[i].name == n);
        },
        (None, Some(j)) => {
            assert(s1[j].name == n);
        },
        (None, None) => {},
    }
}

/// What one folded row does: nothing moves, no name appears twice,
/// only the row's own test changes, and that test's row becomes the
/// step winner.
proof fn lemma_merge_record_effect(acc: Seq<RecordModel>, x: RecordModel)
    requires
        unique_names(acc),
    ensures
        unique_names(merge_record(acc, x)),
        acc.len() <= merge_record(acc, x).len() <= acc.len() + 1,
        merge_record(acc, x).len() == acc.len() + 1 ==> find_name(acc, x.name) is None,
        forall|i: int| 0 <= i < acc.len() ==> merge_record(acc, x)[i].name == acc[i].name,
        forall|i: int|
            acc.len() <= i < merge_record(acc, x).len() ==> merge_record(acc, x)[i] == x,
        forall|n: Seq<u8>|
            n != x.name ==> #[trigger] entry_for(merge_record(acc, x), n) == entry_for(acc, n),
        entry_for(merge_record(acc, x), x.name) == Some(
            step_winner(entry_for(acc, x.name), x),
        ),
{
    let m = merge_record(acc, x);
    lemma_find_name(acc, x.name);
    match find_name(acc, x.name) {
        Some(i) => {
            assert(forall|j: int| 0 <= j < m.len() ==> m[j].name == acc[j].name);
            lemma_find_name_names_eq(m, acc, x.name);
            assert forall|n: Seq<u8>| n != x.name implies #[trigger] entry_for(m, n)
                == entry_for(acc, n) by {
                lemma_find_name_names_eq(m, acc, n);
                lemma_find_name(acc, n);
                if find_name(acc, n) is Some {
                    let j = find_name(acc, n).unwrap();
                    assert(acc[j].name == n);
                    assert(j != i ==> m[j] == acc[j]);
                    assert(j == i ==> n == x.name);
                }
            }
        },
        None => {
            assert(m == acc.push(x));
            assert(m[acc.len() as int] == x);
            lemma_find_name(m, x.name);
            match find_name(m, x.name) {
                None => {
                    assert(m[acc.len() as int].name == x.name);
                },
                Some(j) => {
                    assert(m[j].name == x.name);
                    if j < acc.len() {
                        assert(acc[j].name == x.name);
                    }
                    assert(j == acc.len());
                },
            }
            assert(unique_names(m)) by {
                assert(forall|j: int| 0 <= j < acc.len() ==> acc[j].name != x.name);
                assert(forall|j: int| 0 <= j < acc.len() ==> m[j] == acc[j]);
            }
            assert forall|n: Seq<u8>| n != x.name implies #[trigger] entry_for(m, n)
                == entry_for(acc, n) by {
                lemma_find_name(m, n);
                lemma_find_name(acc, n);
                match (find_name(m, n), find_name(acc, n)) {
                    (Some(j1), Some(j2)) => {
                        if j1 < j2 {
                            assert(acc[j1].name == n);
                        } else if j2 < j1 {
                            assert(m[j2].name == n);
                        }
                        assert(j1 == j2 && j1 < acc.len());
                    },
                    (Some(j1), None) => {
                        assert(j1 == acc.len() ==> m[j1].name == x.name);
                        assert(j1 < acc.len() ==> acc[j1].name == n);
                    },
                    (None, Some(j2)) => {
                        assert(m[j2].name == n);
                    },
                    (None, None) => {},
                }
            }
        },
    }
}

/// What one folded update does to the shape: existing rows keep their
/// place and name, appended rows bear new names drawn from the
/// update, and no name appears twice.
proof fn lemma_merge_records_shape(acc: Seq<RecordModel>, rs: Seq<RecordModel>)
    requires
        unique_names(acc),
    ensures
        unique_names(merge_records(acc, rs)),
        merge_records(acc, rs).len() >= acc.len(),
        forall|i: int| 0 <= i < acc.len() ==> merge_records(acc, rs)[i].name == acc[i].name,
        forall|i: int|
            acc.len() <= i < merge_records(acc, rs).len() ==> find_name(
                acc,
                (#[trigger] merge_records(acc, rs)[i]).name,
            ) is None && (exists|k: int|
                0 <= k < rs.len() && #[trigger] rs[k].name == merge_records(acc, rs)[i].name),
    decreases rs.len(),
{
    if rs.len() > 0 {
        let mid = merge_records(acc, rs.drop_last());
        let x = rs.last();
        let m = merge_records(acc, rs);
        lemma_merge_records_shape(acc, rs.drop_last());
        lemma_merge_record_effect(mid, x);
        lemma_find_name(acc, x.name);
        lemma_find_name(mid, x.name);
        assert forall|i: int|
            acc.len() <= i < m.len() implies find_name(acc, (#[trigger] m[i]).name) is None && (
        exists|k: int| 0 <= k < rs.len() && #[trigger] rs[k].name == m[i].name) by {
            if i < mid.len() {
                assert(m[i].name == mid[i].name);
                let k0 = choose|k: int|
                    0 <= k < rs.drop_last().len() && #[trigger] rs.drop_last()[k].name
                        == mid[i].name;
                assert(rs[k0] == rs.drop_last()[k0]);
                assert(rs[k0].name == m[i].name);
            } else {
                assert(m[i] == x);
                assert(find_name(mid, x.name) is None);
                if find_name(acc, x.name) is Some {
                    let j = find_name(acc, x.name).unwrap();
                    assert(mid[j].name == x.name);
                }
                assert(rs[rs.len() - 1].name == m[i].name);
            }
        }
    }
}

/// Uniqueness preservation: merged output never names a test twice,
/// and the baseline's rows keep their order and names.
pub proof fn lemma_uniqueness_preservation(base: Seq<RecordModel>, us: Seq<Seq<RecordModel>>)
    requires
        unique_names(base),
    ensures
        unique_names(merge_sets(base, us)),
        merge_sets(base, us).len() >= base.len(),
        forall|i: int| 0 <= i < base.len() ==> merge_sets(base, us)[i].name == base[i].name,
    decreases us.len(),
{
    if us.len() > 0 {
        lemma_uniqueness_preservation(base, us.drop_last());
        lemma_merge_records_shape(merge_sets(base, us.drop_last()), us.last());
    }
}

/// Folding one more row keeps the winner description.
proof fn lemma_winner_step(w: RecordModel, b: RecordModel, s: Seq<RecordModel>, x: RecordModel)
    requires
        is_winner(w, b, s),
        x.name == b.name,
    ensures
        is_winner(
            if x.count > w.count {
                x
            } else {
                w
            },
            b,
            s.push(x),
        ),
{
    assert(forall|k: int| 0 <= k < s.len() ==> s.push(x)[k] == s[k]);
    assert(s.push(x)[s.len() as int] == x);
}

/// A row of another test leaves the winner description alone.
proof fn lemma_winner_step_other(w: RecordModel, b: RecordModel, s: Seq<RecordModel>, x: RecordModel)
    requires
        is_winner(w, b, s),
        x.name != b.name,
    ensures
        is_winner(w, b, s.push(x)),
{
    assert(forall|k: int| 0 <= k < s.len() ==> s.push(x)[k] == s[k]);
    assert(s.push(x)[s.len() as int] == x);
}

/// Winner descriptions compose across two row batches.
proof fn lemma_winner_compose(
    w2: RecordModel,
    w1: RecordModel,
    b: RecordModel,
    s1: Seq<RecordModel>,
    s2: Seq<RecordModel>,
)
    requires
        is_winner(w1, b, s1),
        is_winner(w2, w1, s2),
    ensures
        is_winner(w2, b, s1 + s2),
{
    assert(forall|k: int| 0 <= k < s1.len() ==> (s1 + s2)[k] == s1[k]);
    assert(forall|k: int| 0 <= k < s2.len() ==> (s1 + s2)[s1.len() + k] == s2[k]);
    if w2 != w1 {
        let k = choose|k: int| 0 <= k < s2.len() && #[trigger] s2[k] == w2;
        assert((s1 + s2)[s1.len() + k] == w2);
    } else if w1 != b {
        let k = choose|k: int| 0 <= k < s1.len() && #[trigger] s1[k] == w1;
        assert((s1 + s2)[k] == w1);
    }
    assert forall|k: int|
        0 <= k < (s1 + s2).len() && (#[trigger] (s1 + s2)[k]).name == b.name implies (s1
        + s2)[k].count <= (if w2 != w1 || w1 != b {
        w2.count
    } else {
        b.count
    }) by {
        if k < s1.len() {
            assert((s1 + s2)[k] == s1[k]);
        } else {
            assert((s1 + s2)[k] == s2[k - s1.len()]);
        }
    }
}

/// After one update is folded in, each test's row is described by
/// `is_winner` over the update's rows, taking the accumulator's row
/// (or the update's first row of a new test) as the base.
proof fn lemma_merge_records_entry(acc: Seq<RecordModel>, rs: Seq<RecordModel>, n: Seq<u8>)
    requires
        unique_names(acc),
    ensures
        (match entry_for(acc, n) {
            Some(b) => entry_for(merge_records(acc, rs), n) is Some && is_winner(
                entry_for(merge_records(acc, rs), n).unwrap(),
                b,
                rs,
            ),
            None => (match find_name(rs, n) {
                None => entry_for(merge_records(acc, rs), n) is None,
                Some(j) => entry_for(merge_records(acc, rs), n) is Some && is_winner(
                    entry_for(merge_records(acc, rs), n).unwrap(),
                    rs[j],
                    rs.skip(j + 1),
                ),
            }),
        }),
    decreases rs.len(),
{
    lemma_find_name(rs, n);
    lemma_find_name(acc, n);
    if rs.len() == 0 {
        match entry_for(acc, n) {
            Some(b) => {
                assert(is_winner(b, b, rs));
            },
            None => {},
        }
    } else {
        let rsp = rs.drop_last();
        let x = rs.last();
        let mid = merge_records(acc, rsp);
        let m = merge_records(acc, rs);
        lemma_merge_records_entry(acc, rsp, n);
        lemma_merge_records_shape(acc, rsp);
        lemma_merge_record_effect(mid, x);
        lemma_find_name(rsp, n);
        assert(forall|k: int| 0 <= k < rsp.len() ==> rs[k] == rsp[k]);
        if x.name != n {
            assert(entry_for(m, n) == entry_for(mid, n));
            match entry_for(acc, n) {
                Some(b) => {
                    let w = entry_for(mid, n).unwrap();
                    lemma_winner_step_other(w, b, rsp, x);
                    assert(rsp.push(x) =~= rs);
                },
                None => {
                    match find_name(rsp, n) {
                        None => {
                            assert(find_name(rs, n) is None) by {
                                if find_name(rs, n) is Some {
                                    let j = find_name(rs, n).unwrap();
                                    assert(rs[j].name == n);
                                    assert(j < rsp.len() ==> rsp[j].name == n);
                                }
                            }
                        },
                        Some(j) => {
                            assert(find_name(rs, n) == Some(j)) by {
                                match find_name(rs, n) {
                                    None => {
                                        assert(rs[j].name == n);
                                    },
                                    Some(j2) => {
                                        assert(rs[j2].name == n);
                                        if j2 < j {
                                            assert(rsp[j2].name == n);
                                        } else if j < j2 {
                                            assert(rs[j].name == n);
                                        }
                                        assert(j2 == j);
                                    },
                                }
                            }
                            let w = entry_for(mid, n).unwrap();
                            assert(rs[j] == rsp[j]);
                            lemma_winner_step_other(w, rsp[j], rsp.skip(j + 1), x);
                            assert(rsp.skip(j + 1).push(x) =~= rs.skip(j + 1));
                        },
                    }
                },
            }
        } else {
            assert(entry_for(m, n) == Some(step_winner(entry_for(mid, n), x)));
            match entry_for(acc, n) {
                Some(b) => {
                    let w = entry_for(mid, n).unwrap();
                    lemma_winner_step(w, b, rsp, x);
                    assert(rsp.push(x) =~= rs);
                },
                None => {
                    match find_name(rsp, n) {
                        None => {
                            assert(entry_for(mid, n) is None);
                            assert(step_winner(entry_for(mid, n), x) == x);
                            assert(find_name(rs, n) == Some(rs.len() - 1)) by {
                                match find_name(rs, n) {
                                    None => {
                                        assert(rs[rs.len() - 1].name == n);
                                    },
                                    Some(j2) => {
                                        if j2 < rs.len() - 1 {
                                            assert(rsp[j2].name == n);
                                        }
                                    },
                                }
                            }
                            assert(rs.skip(rs.len() as int) =~= Seq::<RecordModel>::empty());
                            assert(is_winner(x, x, rs.skip(rs.len() as int)));
                        },
                        Some(j) => {
                            assert(find_name(rs, n) == Some(j)) by {
                                match find_name(rs, n) {
                                    None => {
                                        assert(rs[j].name == n);
                                    },
                                    Some(j2) => {
                                        assert(rs[j2].name == n);
                                        if j2 < j {
                                            assert(rsp[j2].name == n);
                                        } else if j < j2 {
                                            assert(rs[j].name == n);
                                        }
                                        assert(j2 == j);
                                    },
                                }
                            }
                            let w = entry_for(mid, n).unwrap();
                            assert(rs[j] == rsp[j]);
                            lemma_winner_step(w, rsp[j], rsp.skip(j + 1), x);
                            assert(rsp.skip(j + 1).push(x) =~= rs.skip(j + 1));
                        },
                    }
                },
            }
        }
    }
}

/// Every row of every update, one sequence, update order kept.
pub open spec fn all_recs(us: Seq<Seq<RecordModel>>) -> Seq<RecordModel>
    decreases us.len(),
{
    if us.len() == 0 {
        Seq::<RecordModel>::empty()
    } else {
        all_recs(us.drop_last()) + us.last()
    }
}

/// For a test the baseline names, the merged row is described by
/// `is_winner` over all update rows together.
proof fn lemma_merge_sets_entry(base: Seq<RecordModel>, us: Seq<Seq<RecordModel>>, n: Seq<u8>)
    requires
        unique_names(base),
        find_name(base, n) is Some,
    ensures
        entry_for(merge_sets(base, us), n) is Some,
        is_winner(
            entry_for(merge_sets(base, us), n).unwrap(),
            base[find_name(base, n).unwrap()],
            all_recs(us),
        ),
    decreases us.len(),
{
    let b = base[find_name(base, n).unwrap()];
    lemma_find_name(base, n);
    if us.len() == 0 {
        assert(entry_for(base, n) == Some(b));
        assert(is_winner(b, b, all_recs(us)));
    } else {
        let mid = merge_sets(base, us.drop_last());
        lemma_merge_sets_entry(base, us.drop_last(), n);
        lemma_uniqueness_preservation(base, us.drop_last());
        let w1 = entry_for(mid, n).unwrap();
        lemma_merge_records_entry(mid, us.last(), n);
        let w2 = entry_for(merge_sets(base, us), n).unwrap();
        lemma_winner_compose(w2, w1, b, all_recs(us.drop_last()), us.last());
    }
}

/// Freshness monotonicity: where one input row for a baseline test
/// strictly out-counts every other input row for that test, the
/// merged set keeps exactly that row.
pub proof fn lemma_freshness_monotonicity(
    base: Seq<RecordModel>,
    us: Seq<Seq<RecordModel>>,
    w: RecordModel,
)
    requires
        unique_names(base),
        find_name(base, w.name) is Some,
        w == base[find_name(base, w.name).unwrap()] || (exists|k: int|
            0 <= k < all_recs(us).len() && #[trigger] all_recs(us)[k] == w),
        w != base[find_name(base, w.name).unwrap()] ==> base[find_name(
            base,
            w.name,
        ).unwrap()].count < w.count,
        forall|k: int|
            0 <= k < all_recs(us).len() && (#[trigger] all_recs(us)[k]).name == w.name && all_recs(
                us,
            )[k] != w ==> all_recs(us)[k].count < w.count,
    ensures
        entry_for(merge_sets(base, us), w.name) == Some(w),
{
    let n = w.name;
    let b = base[find_name(base, n).unwrap()];
    let all = all_recs(us);
    lemma_find_name(base, n);
    lemma_merge_sets_entry(base, us, n);
    let v = entry_for(merge_sets(base, us), n).unwrap();
    if v == b {
        // no update row out-counts the baseline row, so the winner is b
        if w != b {
            let k = choose|k: int| 0 <= k < all.len() && #[trigger] all[k] == w;
            assert(all[k].count <= b.count);
            assert(b.count < w.count);
            assert(false);
        }
    } else {
        let kv = choose|k: int| 0 <= k < all.len() && #[trigger] all[k] == v;
        if v != w {
            assert(all[kv].count < w.count);
            if w == b {
                assert(v.count > b.count);
                assert(false);
            } else {
                let kw = choose|k: int| 0 <= k < all.len() && #[trigger] all[k] == w;
                assert(all[kw].count <= v.count);
                assert(false);
            }
        }
    }
}

/// For a test the baseline does not name, the merged row is described
/// over all update rows, based at the first update row naming it.
proof fn lemma_merge_sets_entry_new(base: Seq<RecordModel>, us: Seq<Seq<RecordModel>>, n: Seq<u8>)
    requires
        unique_names(base),
        find_name(base, n) is None,
    ensures
        (match find_name(all_recs(us), n) {
            None => entry_for(merge_sets(base, us), n) is None,
            Some(j) => entry_for(merge_sets(base, us), n) is Some && is_winner(
                entry_for(merge_sets(base, us), n).unwrap(),
                all_recs(us)[j],
                all_recs(us).skip(j + 1),
            ),
        }),
    decreases us.len(),
{
    let all = all_recs(us);
    lemma_find_name(all, n);
    lemma_find_name(base, n);
    if us.len() == 0 {
        assert(entry_for(base, n) is None);
    } else {
        let usp = us.drop_last();
        let u = us.last();
        let allp = all_recs(usp);
        let mid = merge_sets(base, usp);
        lemma_merge_sets_entry_new(base, usp, n);
        lemma_uniqueness_preservation(base, usp);
        lemma_merge_records_entry(mid, u, n);
        lemma_find_name(allp, n);
        lemma_find_name(u, n);
        assert(forall|k: int| 0 <= k < allp.len() ==> all[k] == allp[k]);
        assert(forall|k: int| 0 <= k < u.len() ==> all[allp.len() + k] == u[k]);
        match find_name(allp, n) {
            Some(j) => {
                assert(find_name(all, n) == Some(j)) by {
                    match find_name(all, n) {
                        None => {
                            assert(all[j].name == n);
                        },
                        Some(j2) => {
                            assert(all[j2].name == n);
                            if j2 < j {
                                assert(allp[j2].name == n);
                            } else if j < j2 {
                                assert(all[j].name == n);
                            }
                            assert(j2 == j);
                        },
                    }
                }
                let w1 = entry_for(mid, n).unwrap();
                let w2 = entry_for(merge_sets(base, us), n).unwrap();
                lemma_winner_compose(w2, w1, allp[j], allp.skip(j + 1), u);
                assert(allp.skip(j + 1) + u =~= all.skip(j + 1));
            },
            None => {
                assert(entry_for(mid, n) is None);
                match find_name(u, n) {
                    None => {
                        assert(find_name(all, n) is None) by {
                            if find_name(all, n) is Some {
                                let j2 = find_name(all, n).unwrap();
                                assert(all[j2].name == n);
                                if j2 < allp.len() {
                                    assert(allp[j2].name == n);
                                } else {
                                    assert(u[j2 - allp.len()].name == n);
                                }
                            }
                        }
                    },
                    Some(j0) => {
                        let j = allp.len() + j0;
                        assert(find_name(all, n) == Some(j)) by {
                            match find_name(all, n) {
                                None => {
                                    assert(all[j].name == n);
                                },
                                Some(j2) => {
                                    assert(all[j2].name == n);
                                    if j2 < allp.len() {
                                        assert(allp[j2].name == n);
                                    } else if j2 < j {
                                        assert(u[j2 - allp.len()].name == n);
                                    } else if j < j2 {
                                        assert(all[j].name == n);
                                    }
                                    assert(j2 == j);
                                },
                            }
                        }
                        assert(all[j] == u[j0]);
                        assert(u.skip(j0 + 1) =~= all.skip(j + 1));
                    },
                }
            },
        }
    }
}

/// New-test inclusion: a test the baseline does not name, reported by
/// exactly one update row, appears in the merge with that row.
pub proof fn lemma_new_test_inclusion(base: Seq<RecordModel>, us: Seq<Seq<RecordModel>>, j: int)
    requires
        unique_names(base),
        0 <= j < all_recs(us).len(),
        find_name(base, all_recs(us)[j].name) is None,
        forall|k: int|
            0 <= k < all_recs(us).len() && k != j ==> (#[trigger] all_recs(us)[k]).name != all_recs(
                us,
            )[j].name,
    ensures
        entry_for(merge_sets(base, us), all_recs(us)[j].name) == Some(all_recs(us)[j]),
{
    let all = all_recs(us);
    let n = all[j].name;
    lemma_merge_sets_entry_new(base, us, n);
    lemma_find_name(all, n);
    match find_name(all, n) {
        None => {
            assert(all[j].name == n);
            assert(false);
        },
        Some(j2) => {
            assert(all[j2].name == n);
            assert(j2 == j);
            let w = entry_for(merge_sets(base, us), n).unwrap();
            assert(is_winner(w, all[j], all.skip(j + 1)));
            if w != all[j] {
                let k = choose|k: int| 0 <= k < all.skip(j + 1).len() && #[trigger] all.skip(
                    j + 1,
                )[k] == w;
                assert(all[j + 1 + k] == w);
                assert(all[j + 1 + k].name == n);
                assert(false);
            }
        },
    }
}

/// Rows appended by the merge bear names the baseline lacks, drawn
/// from the updates' rows.
proof fn lemma_merge_sets_shape_all(base: Seq<RecordModel>, us: Seq<Seq<RecordModel>>)
    requires
        unique_names(base),
    ensures
        merge_sets(base, us).len() >= base.len(),
        forall|i: int|
            base.len() <= i < merge_sets(base, us).len() ==> find_name(
                base,
                (#[trigger] merge_sets(base, us)[i]).name,
            ) is None && (exists|k: int|
                0 <= k < all_recs(us).len() && (#[trigger] all_recs(us)[k]).name == merge_sets(
                    base,
                    us,
                )[i].name),
    decreases us.len(),
{
    if us.len() > 0 {
        let usp = us.drop_last();
        let u = us.last();
        let allp = all_recs(usp);
        let all = all_recs(us);
        let mid = merge_sets(base, usp);
        let m = merge_sets(base, us);
        lemma_merge_sets_shape_all(base, usp);
        lemma_uniqueness_preservation(base, usp);
        lemma_merge_records_shape(mid, u);
        assert(forall|k: int| 0 <= k < allp.len() ==> all[k] == allp[k]);
        assert(forall|k: int| 0 <= k < u.len() ==> all[allp.len() + k] == u[k]);
        assert forall|i: int| base.len() <= i < m.len() implies find_name(
            base,
            (#[trigger] m[i]).name,
        ) is None && (exists|k: int|
            0 <= k < all.len() && (#[trigger] all[k]).name == m[i].name) by {
            if i < mid.len() {
                assert(m[i].name == mid[i].name);
                let k0 = choose|k: int|
                    0 <= k < allp.len() && (#[trigger] allp[k]).name == mid[i].name;
                assert(all[k0].name == m[i].name);
            } else {
                assert(find_name(mid, m[i].name) is None);
                let k0 = choose|k: int| 0 <= k < u.len() && #[trigger] u[k].name == m[i].name;
                assert(all[allp.len() + k0].name == m[i].name);
                lemma_find_name(base, m[i].name);
                lemma_find_name(mid, m[i].name);
                if find_name(base, m[i].name) is Some {
                    let j = find_name(base, m[i].name).unwrap();
                    assert(mid[j].name == base[j].name);
                }
            }
        }
    }
}

/// With the same rows, winner descriptions that never tie pick the
/// same row.
proof fn lemma_winner_unique(
    w1: RecordModel,
    w2: RecordModel,
    b: RecordModel,
    s1: Seq<RecordModel>,
    s2: Seq<RecordModel>,
)
    requires
        is_winner(w1, b, s1),
        is_winner(w2, b, s2),
        s1.to_multiset() == s2.to_multiset(),
        forall|k: int, l: int|
            0 <= k < s1.len() && 0 <= l < s1.len() && (#[trigger] s1[k]).name == (
            #[trigger] s1[l]).name && s1[k] != s1[l] ==> s1[k].count != s1[l].count,
    ensures
        w1 == w2,
{
    s1.to_multiset_ensures();
    s2.to_multiset_ensures();
    if w1 == b && w2 == b {
    } else if w1 == b {
        let k = choose|k: int| 0 <= k < s2.len() && #[trigger] s2[k] == w2;
        assert(s2.contains(w2));
        assert(s2.to_multiset().count(w2) > 0);
        assert(s1.to_multiset().count(w2) > 0);
        assert(s1.contains(w2));
        let k1 = choose|i: int| 0 <= i < s1.len() && s1[i] == w2;
        assert(s1[k1].count <= b.count);
        assert(false);
    } else if w2 == b {
        let k = choose|k: int| 0 <= k < s1.len() && #[trigger] s1[k] == w1;
        assert(s1.contains(w1));
        assert(s1.to_multiset().count(w1) > 0);
        assert(s2.to_multiset().count(w1) > 0);
        assert(s2.contains(w1));
        let k1 = choose|i: int| 0 <= i < s2.len() && s2[i] == w1;
        assert(s2[k1].count <= b.count);
        assert(false);
    } else {
        let ka = choose|k: int| 0 <= k < s1.len() && #[trigger] s1[k] == w1;
        let kb = choose|k: int| 0 <= k < s2.len() && #[trigger] s2[k] == w2;
        assert(s2.contains(w2));
        assert(s2.to_multiset().count(w2) > 0);
        assert(s1.to_multiset().count(w2) > 0);
        assert(s1.contains(w2));
        let k21 = choose|i: int| 0 <= i < s1.len() && s1[i] == w2;
        assert(s1[k21].count <= w1.count);
        assert(s1.contains(w1));
        assert(s1.to_multiset().count(w1) > 0);
        assert(s2.to_multiset().count(w1) > 0);
        assert(s2.contains(w1));
        let k12 = choose|i: int| 0 <= i < s2.len() && s2[i] == w1;
        assert(s2[k12].count <= w2.count);
        assert(w1.count == w2.count);
        if w1 != w2 {
            assert(s1[ka].name == s1[k21].name);
            assert(s1[ka].count != s1[k21].count);
            assert(false);
        }
    }
}

/// The winner for a test the baseline does not name is an update row
/// for it that no other update row for it out-counts.
proof fn lemma_new_winner_max(all: Seq<RecordModel>, n: Seq<u8>, w: RecordModel)
    requires
        find_name(all, n) is Some,
        is_winner(
            w,
            all[find_name(all, n).unwrap()],
            all.skip(find_name(all, n).unwrap() + 1),
        ),
    ensures
        w.name == n,
        exists|k: int| 0 <= k < all.len() && #[trigger] all[k] == w,
        forall|k: int|
            0 <= k < all.len() && (#[trigger] all[k]).name == n ==> all[k].count <= w.count,
{
    let j = find_name(all, n).unwrap();
    lemma_find_name(all, n);
    let s = all.skip(j + 1);
    assert(forall|k: int| 0 <= k < s.len() ==> #[trigger] s[k] == all[j + 1 + k]);
    if w == all[j] {
        assert(all[j] == w);
    } else {
        let k0 = choose|k: int| 0 <= k < s.len() && #[trigger] s[k] == w;
        assert(all[j + 1 + k0] == w);
    }
    assert forall|k: int|
        0 <= k < all.len() && (#[trigger] all[k]).name == n implies all[k].count <= w.count by {
        if k < j {
            assert(all[k].name != n);
        } else if k > j {
            assert(s[k - j - 1] == all[k]);
        }
    }
}

/// Order independence on strict freshness: when the update rows never
/// tie in count on one test name and reach past the baseline's tests
/// by at most one new name, any two orders of the same update rows
/// merge identically.
#[verifier::rlimit(60)]
pub proof fn lemma_order_independence(
    base: Seq<RecordModel>,
    us1: Seq<Seq<RecordModel>>,
    us2: Seq<Seq<RecordModel>>,
)
    requires
        unique_names(base),
        all_recs(us1).to_multiset() == all_recs(us2).to_multiset(),
        forall|k: int, l: int|
            0 <= k < all_recs(us1).len() && 0 <= l < all_recs(us1).len() && (
            #[trigger] all_recs(us1)[k]).name == (#[trigger] all_recs(us1)[l]).name && all_recs(
                us1,
            )[k] != all_recs(us1)[l] ==> all_recs(us1)[k].count != all_recs(us1)[l].count,
        forall|k: int, l: int|
            0 <= k < all_recs(us1).len() && 0 <= l < all_recs(us1).len() && find_name(
                base,
                (#[trigger] all_recs(us1)[k]).name,
            ) is None && find_name(base, (#[trigger] all_recs(us1)[l]).name) is None ==> all_recs(
                us1,
            )[k].name == all_recs(us1)[l].name,
    ensures
        merge_sets(base, us1) == merge_sets(base, us2),
{
    let all1 = all_recs(us1);
    let all2 = all_recs(us2);
    let m1 = merge_sets(base, us1);
    let m2 = merge_sets(base, us2);
    all1.to_multiset_ensures();
    all2.to_multiset_ensures();
    lemma_uniqueness_preservation(base, us1);
    lemma_uniqueness_preservation(base, us2);
    lemma_merge_sets_shape_all(base, us1);
    lemma_merge_sets_shape_all(base, us2);
    // every test of the baseline keeps its place and gets the same row
    // from either order
    assert forall|i: int| 0 <= i < base.len() implies m1[i] == m2[i] by {
        let n = base[i].name;
        lemma_find_name(base, n);
        assert(find_name(base, n) == Some(i)) by {
            match find_name(base, n) {
                None => {
                    assert(base[i].name == n);
                },
                Some(i0) => {
                    assert(base[i0].name == base[i].name);
                    if i0 != i {
                        assert(false);
                    }
                },
            }
        }
        lemma_merge_sets_entry(base, us1, n);
        lemma_merge_sets_entry(base, us2, n);
        lemma_find_name(m1, n);
        lemma_find_name(m2, n);
        assert(m1[i].name == n && m2[i].name == n);
        assert(find_name(m1, n) == Some(i)) by {
            match find_name(m1, n) {
                None => {
                    assert(m1[i].name == n);
                },
                Some(i0) => {
                    assert(m1[i0].name == m1[i].name);
                    if i0 != i {
                        assert(false);
                    }
                },
            }
        }
        assert(find_name(m2, n) == Some(i)) by {
            match find_name(m2, n) {
                None => {
                    assert(m2[i].name == n);
                },
                Some(i0) => {
                    assert(m2[i0].name == m2[i].name);
                    if i0 != i {
                        assert(false);
                    }
                },
            }
        }
        lemma_winner_unique(m1[i], m2[i], base[i], all1, all2);
    }
    // appended rows: every name appended by either order is the one
    // name the updates report beyond the baseline
    assert forall|i: int| base.len() <= i < m1.len() implies find_name(
        base,
        (#[trigger] m1[i]).name,
    ) is None && (exists|k: int|
        0 <= k < all1.len() && #[trigger] all1[k] == all1[k] && all1[k].name == m1[i].name) by {
        let k = choose|k: int| 0 <= k < all1.len() && (#[trigger] all1[k]).name == m1[i].name;
        assert(all1[k].name == m1[i].name);
    }
    if forall|k: int|
        0 <= k < all1.len() ==> find_name(base, (#[trigger] all1[k]).name) is Some {
        // no new name: both merges hold exactly the baseline's tests
        assert(m1.len() == base.len()) by {
            if m1.len() > base.len() {
                let i = base.len() as int;
                assert(find_name(base, m1[i].name) is None);
                let k = choose|k: int|
                    0 <= k < all1.len() && (#[trigger] all1[k]).name == m1[i].name;
                assert(find_name(base, all1[k].name) is Some);
            }
        }
        assert(m2.len() == base.len()) by {
            if m2.len() > base.len() {
                let i = base.len() as int;
                assert(find_name(base, m2[i].name) is None);
                let k = choose|k: int|
                    0 <= k < all2.len() && (#[trigger] all2[k]).name == m2[i].name;
                assert(all2.contains(all2[k]));
                assert(all2.to_multiset().count(all2[k]) > 0);
                assert(all1.to_multiset().count(all2[k]) > 0);
                assert(all1.contains(all2[k]));
                let k1 = choose|j: int| 0 <= j < all1.len() && all1[j] == all2[k];
                assert(find_name(base, all1[k1].name) is Some);
            }
        }
        assert(m1 =~= m2);
    } else {
        // one test name lies beyond the baseline; each order appends
        // exactly one row for it, and the same one
        let k0 = choose|k: int|
            0 <= k < all1.len() && !(find_name(base, (#[trigger] all1[k]).name) is Some);
        let n = all1[k0].name;
        lemma_find_name(all1, n);
        lemma_find_name(all2, n);
        assert(find_name(all1, n) is Some) by {
            if find_name(all1, n) is None {
                assert(all1[k0].name != n);
            }
        }
        assert(find_name(all2, n) is Some) by {
            assert(all1.contains(all1[k0]));
            assert(all1.to_multiset().count(all1[k0]) > 0);
            assert(all2.to_multiset().count(all1[k0]) > 0);
            assert(all2.contains(all1[k0]));
            let k2 = choose|k: int| 0 <= k < all2.len() && all2[k] == all1[k0];
            if find_name(all2, n) is None {
                assert(all2[k2].name != n);
            }
        }
        lemma_merge_sets_entry_new(base, us1, n);
        lemma_merge_sets_entry_new(base, us2, n);
        let w1 = entry_for(m1, n).unwrap();
        let w2 = entry_for(m2, n).unwrap();
        lemma_new_winner_max(all1, n, w1);
        lemma_new_winner_max(all2, n, w2);
        // the two winners are rows of the same pool, both maximal and
        // of one name, and rows of one name never tie: they are equal
        assert(w1 == w2) by {
            let ka = choose|k: int| 0 <= k < all1.len() && #[trigger] all1[k] == w1;
            let kb = choose|k: int| 0 <= k < all2.len() && #[trigger] all2[k] == w2;
            assert(all2.contains(w2));
            assert(all2.to_multiset().count(w2) > 0);
            assert(all1.to_multiset().count(w2) > 0);
            assert(all1.contains(w2));
            let kb1 = choose|k: int| 0 <= k < all1.len() && all1[k] == w2;
            assert(all1[kb1].count <= w1.count);
            assert(all1.contains(w1));
            assert(all1.to_multiset().count(w1) > 0);
            assert(all2.to_multiset().count(w1) > 0);
            assert(all2.contains(w1));
            let ka2 = choose|k: int| 0 <= k < all2.len() && all2[k] == w1;
            assert(all2[ka2].count <= w2.count);
            assert(w1.count == w2.count);
            if w1 != w2 {
                assert(all1[ka].name == all1[kb1].name);
                assert(all1[ka].count != all1[kb1].count);
            }
        }
        // each merge appends that winner as its one extra row
        lemma_find_name(base, n);
        lemma_find_name(m1, n);
        lemma_find_name(m2, n);
        let j1 = find_name(m1, n).unwrap();
        let j2 = find_name(m2, n).unwrap();
        assert(j1 >= base.len()) by {
            if j1 < base.len() {
                assert(m1[j1].name == base[j1].name);
                assert(base[j1].name == n);
            }
        }
        assert(j2 >= base.len()) by {
            if j2 < base.len() {
                assert(m2[j2].name == base[j2].name);
                assert(base[j2].name == n);
            }
        }
        assert(m1.len() == base.len() + 1) by {
            if m1.len() > base.len() + 1 {
                let ia = base.len() as int;
                let ib = base.len() + 1int;
                let ka = choose|k: int|
                    0 <= k < all1.len() && (#[trigger] all1[k]).name == m1[ia].name;
                let kb = choose|k: int|
                    0 <= k < all1.len() && (#[trigger] all1[k]).name == m1[ib].name;
                assert(m1[ia].name == n && m1[ib].name == n);
                assert(false);
            }
        }
        assert(m2.len() == base.len() + 1) by {
            if m2.len() > base.len() + 1 {
                let ia = base.len() as int;
                let ib = base.len() + 1int;
                let ka = choose|k: int|
                    0 <= k < all2.len() && (#[trigger] all2[k]).name == m2[ia].name;
                assert(all2.contains(all2[ka]));
                assert(all2.to_multiset().count(all2[ka]) > 0);
                assert(all1.to_multiset().count(all2[ka]) > 0);
                assert(all1.contains(all2[ka]));
                let ka1 = choose|j: int| 0 <= j < all1.len() && all1[j] == all2[ka];
                let kb = choose|k: int|
                    0 <= k < all2.len() && (#[trigger] all2[k]).name == m2[ib].name;
                assert(all2.contains(all2[kb]));
                assert(all2.to_multiset().count(all2[kb]) > 0);
                assert(all1.to_multiset().count(all2[kb]) > 0);
                assert(all1.contains(all2[kb]));
                let kb1 = choose|j: int| 0 <= j < all1.len() && all1[j] == all2[kb];
                assert(all1[ka1].name == m2[ia].name && all1[kb1].name == m2[ib].name);
                assert(m2[ia].name == n && m2[ib].name == n);
                assert(false);
            }
        }
        assert(j1 == base.len() && j2 == base.len());
        assert(m1[j1] == w1 && m2[j2] == w2);
        assert(m1 =~= m2);
    }
}

/// A record whose text fields can pass through a cost file: no field
/// holds a space or a newline, and the count fits a `usize`.
pub open spec fn wf_record(r: RecordModel) -> bool {
    &&& 0 <= r.count <= usize::MAX as int
    &&& !r.name.contains(32u8) && !r.name.contains(10u8)
    &&& !r.cost.contains(32u8) && !r.cost.contains(10u8)
}

/// A delimiter-free string splits into itself alone.
proof fn lemma_split_whole(s: Seq<u8>, d: u8)
    requires
        !s.contains(d),
    ensures
        split_on(s, d) == seq![s],
    decreases s.len(),
{
    if s.len() > 0 {
        assert(s[0] != d);
        assert(!s.drop_first().contains(d)) by {
            if s.drop_first().contains(d) {
                let i = choose|i: int|
                    0 <= i < s.drop_first().len() && s.drop_first()[i] == d;
                assert(s[i + 1] == d);
            }
        }
        lemma_split_whole(s.drop_first(), d);
        assert(seq![s.drop_first()].drop_first() =~= Seq::<Seq<u8>>::empty());
        assert(seq![s[0]] + s.drop_first() =~= s);
        assert(split_on(s, d) =~= seq![s]);
    } else {
        assert(s =~= Seq::<u8>::empty());
        assert(split_on(s, d) =~= seq![s]);
    }
}

/// Splitting at the first delimiter peels the prefix off.
proof fn lemma_split_at_delim(a: Seq<u8>, b: Seq<u8>, d: u8)
    requires
        !a.contains(d),
    ensures
        split_on(a + seq![d] + b, d) == seq![a] + split_on(b, d),
    decreases a.len(),
{
    let s = a + seq![d] + b;
    if a.len() == 0 {
        assert(a =~= Seq::<u8>::empty());
        assert(s[0] == d);
        assert(s.drop_first() =~= b);
        assert(seq![Seq::<u8>::empty()] + split_on(b, d) =~= seq![a] + split_on(b, d));
    } else {
        assert(s[0] == a[0]);
        assert(a[0] != d);
        assert(!a.drop_first().contains(d)) by {
            if a.drop_first().contains(d) {
                let i = choose|i: int|
                    0 <= i < a.drop_first().len() && a.drop_first()[i] == d;
                assert(a[i + 1] == d);
            }
        }
        lemma_split_at_delim(a.drop_first(), b, d);
        assert(s.drop_first() =~= a.drop_first() + seq![d] + b);
        let rest = split_on(s.drop_first(), d);
        assert(rest == seq![a.drop_first()] + split_on(b, d));
        assert(rest[0] == a.drop_first());
        assert(seq![s[0]] + rest[0] =~= a);
        assert(rest.drop_first() =~= split_on(b, d));
        assert(split_on(s, d) =~= seq![a] + split_on(b, d));
    }
}

/// The digits of a count: they read back as the same number and hold
/// neither space nor newline.
proof fn lemma_render_count_digits(n: nat)
    ensures
        is_count(render_count(n)),
        count_val(render_count(n)) == n,
        !render_count(n).contains(32u8),
        !render_count(n).contains(10u8),
    decreases n,
{
    let s = render_count(n);
    if n < 10 {
        assert(s =~= seq![(48 + n) as u8]);
        assert(s.drop_last() =~= Seq::<u8>::empty());
        assert(count_val(s.drop_last()) == 0);
        assert((48 + n) as u8 as int == 48 + n);
        assert(count_val(s) == (48 + n) - 48);
        assert forall|i: int| 0 <= i < s.len() implies crate::parse::is_digit(s[i]) by {
            assert(s[i] == (48 + n) as u8);
        }
        assert(!s.contains(32u8)) by {
            if s.contains(32u8) {
                let i = choose|i: int| 0 <= i < s.len() && s[i] == 32u8;
                assert(i == 0);
            }
        }
        assert(!s.contains(10u8)) by {
            if s.contains(10u8) {
                let i = choose|i: int| 0 <= i < s.len() && s[i] == 10u8;
                assert(i == 0);
            }
        }
    } else {
        lemma_render_count_digits(n / 10);
        let p = render_count(n / 10);
        let d = (48 + n % 10) as u8;
        assert(s == p.push(d));
        assert(s.drop_last() =~= p);
        assert(s.last() == d);
        assert((48 + n % 10) as u8 as int == 48 + n % 10);
        assert(count_val(s) == count_val(p) * 10 + (d - 48));
        assert(count_val(s) == (n / 10) * 10 + n % 10);
        assert forall|i: int| 0 <= i < s.len() implies crate::parse::is_digit(s[i]) by {
            if i < p.len() {
                assert(s[i] == p[i]);
            } else {
                assert(s[i] == d);
            }
        }
        assert(!s.contains(32u8)) by {
            if s.contains(32u8) {
                let i = choose|i: int| 0 <= i < s.len() && s[i] == 32u8;
                if i < p.len() {
                    assert(p[i] == 32u8);
                }
            }
        }
        assert(!s.contains(10u8)) by {
            if s.contains(10u8) {
                let i = choose|i: int| 0 <= i < s.len() && s[i] == 10u8;
                if i < p.len() {
                    assert(p[i] == 10u8);
                }
            }
        }
    }
}

/// A well-formed record's line has no newline and parses back to it.
proof fn lemma_parse_render_line(r: RecordModel)
    requires
        wf_record(r),
    ensures
        parse_line(render_line(r)) == Some(r),
        !render_line(r).contains(10u8),
        render_line(r).len() > 0,
{
    let line = render_line(r);
    let digits = render_count(r.count as nat);
    lemma_render_count_digits(r.count as nat);
    let tail = digits + seq![32u8] + r.cost;
    assert(line =~= r.name + seq![32u8] + tail);
    lemma_split_at_delim(r.name, tail, 32);
    lemma_split_at_delim(digits, r.cost, 32);
    lemma_split_whole(r.cost, 32);
    assert(split_on(tail, 32) == seq![digits] + seq![r.cost]);
    assert(split_on(line, 32) =~= seq![r.name, digits, r.cost]);
    assert(split_on(line, 32)[1] == digits);
    lemma_count_val_nonneg(digits);
    assert(parse_line(line) == Some(r)) by {
        assert(RecordModel {
            name: split_on(line, 32)[0],
            count: count_val(split_on(line, 32)[1]),
            cost: split_on(line, 32)[2],
        } =~= r);
    }
    assert(!line.contains(10u8)) by {
        if line.contains(10u8) {
            let i = choose|i: int| 0 <= i < line.len() && line[i] == 10u8;
            if i < r.name.len() {
                assert(r.name[i] == 10u8);
            } else if i == r.name.len() {
                assert(line[i] == 32u8);
            } else if i < r.name.len() + 1 + digits.len() {
                assert(digits[i - r.name.len() - 1] == 10u8);
            } else if i == r.name.len() + 1 + digits.len() {
                assert(line[i] == 32u8);
            } else {
                assert(r.cost[i - r.name.len() - digits.len() - 2] == 10u8);
            }
        }
    }
}

/// The lines of a rendered record set: one line per record, in order,
/// and one final empty piece after the last newline.
proof fn lemma_split_render(rs: Seq<RecordModel>)
    requires
        forall|i: int| 0 <= i < rs.len() ==> wf_record(#[trigger] rs[i]),
    ensures
        split_on(render_records(rs), 10) == rs.map_values(|r: RecordModel| render_line(r)).push(
            Seq::<u8>::empty(),
        ),
    decreases rs.len(),
{
    if rs.len() == 0 {
        assert(split_on(render_records(rs), 10) =~= rs.map_values(
            |r: RecordModel| render_line(r),
        ).push(Seq::<u8>::empty()));
    } else {
        lemma_parse_render_line(rs[0]);
        assert(forall|i: int|
            0 <= i < rs.drop_first().len() ==> wf_record(#[trigger] rs.drop_first()[i]));
        lemma_split_render(rs.drop_first());
        assert(render_records(rs) =~= render_line(rs[0]) + seq![10u8] + render_records(
            rs.drop_first(),
        ));
        lemma_split_at_delim(render_line(rs[0]), render_records(rs.drop_first()), 10);
        assert(split_on(render_records(rs), 10) =~= rs.map_values(
            |r: RecordModel| render_line(r),
        ).push(Seq::<u8>::empty()));
    }
}

/// The rendered lines parse back to the records they came from.
proof fn lemma_parse_rendered_lines(rs: Seq<RecordModel>)
    requires
        forall|i: int| 0 <= i < rs.len() ==> wf_record(#[trigger] rs[i]),
    ensures
        parse_lines(rs.map_values(|r: RecordModel| render_line(r))) == Some(rs),
    decreases rs.len(),
{
    let lines = rs.map_values(|r: RecordModel| render_line(r));
    if rs.len() > 0 {
        assert(forall|i: int|
            0 <= i < rs.drop_last().len() ==> wf_record(#[trigger] rs.drop_last()[i]));
        lemma_parse_rendered_lines(rs.drop_last());
        assert(lines.drop_last() =~= rs.drop_last().map_values(
            |r: RecordModel| render_line(r),
        ));
        lemma_parse_render_line(rs.last());
        assert(lines.last() == render_line(rs.last()));
        assert(rs.drop_last().push(rs.last()) =~= rs);
    }
}

/// Trailer round trip: a rendered record set, read back as a cost
/// file, parses to exactly the records that were written.
pub proof fn lemma_trailer_round_trip(rs: Seq<RecordModel>)
    requires
        forall|i: int| 0 <= i < rs.len() ==> wf_record(#[trigger] rs[i]),
    ensures
        parse_content(render_output(rs)) == Some(rs),
{
    let body = render_records(rs);
    let out = render_output(rs);
    assert(out.subrange(out.len() - 3, out.len() as int) =~= trailer());
    assert(crate::parse::rfind_trailer(out) == Some(out.len() - 3));
    assert(strip_trailer(out) =~= body);
    lemma_split_render(rs);
    lemma_parse_rendered_lines(rs);
    let lines = rs.map_values(|r: RecordModel| render_line(r)).push(Seq::<u8>::empty());
    assert(lines.drop_last() =~= rs.map_values(|r: RecordModel| render_line(r)));
    assert(lines.last().len() == 0);
    assert(parse_lines(lines) == Some(rs));
}

/// Each piece of a split holds no delimiter, and only bytes of the
/// split string.
proof fn lemma_split_pieces(s: Seq<u8>, d: u8)
    ensures
        forall|i: int|
            0 <= i < split_on(s, d).len() ==> !(#[trigger] split_on(s, d)[i]).contains(d),
        forall|i: int, x: u8|
            0 <= i < split_on(s, d).len() && #[trigger] split_on(s, d)[i].contains(x)
                ==> s.contains(x),
    decreases s.len(),
{
    let ps = split_on(s, d);
    if s.len() == 0 {
        assert forall|i: int| 0 <= i < ps.len() implies !(#[trigger] ps[i]).contains(d) by {
            assert(ps[i] == Seq::<u8>::empty());
        }
        assert forall|i: int, x: u8|
            0 <= i < ps.len() && #[trigger] ps[i].contains(x) implies s.contains(x) by {
            assert(ps[i] == Seq::<u8>::empty());
        }
    } else {
        lemma_split_pieces(s.drop_first(), d);
        let pr = split_on(s.drop_first(), d);
        assert(pr.len() >= 1);
        assert forall|x: u8| s.drop_first().contains(x) implies s.contains(x) by {
            let i = choose|i: int| 0 <= i < s.drop_first().len() && s.drop_first()[i] == x;
            assert(s[i + 1] == x);
        }
        if s[0] == d {
            assert(ps == seq![Seq::<u8>::empty()] + pr);
            assert forall|i: int| 0 <= i < ps.len() implies !(#[trigger] ps[i]).contains(d) by {
                if i > 0 {
                    assert(ps[i] == pr[i - 1]);
                }
            }
            assert forall|i: int, x: u8|
                0 <= i < ps.len() && #[trigger] ps[i].contains(x) implies s.contains(x) by {
                if i > 0 {
                    assert(ps[i] == pr[i - 1]);
                    assert(s.drop_first().contains(x));
                }
            }
        } else {
            assert(ps == seq![seq![s[0]] + pr[0]] + pr.drop_first());
            assert forall|i: int| 0 <= i < ps.len() implies !(#[trigger] ps[i]).contains(d) by {
                if i == 0 {
                    assert(ps[0] == seq![s[0]] + pr[0]);
                    if ps[0].contains(d) {
                        let j = choose|j: int| 0 <= j < ps[0].len() && ps[0][j] == d;
                        if j == 0 {
                            assert(ps[0][0] == s[0]);
                        } else {
                            assert(pr[0][j - 1] == d);
                            assert(pr[0].contains(d));
                        }
                    }
                } else {
                    assert(ps[i] == pr[i]);
                }
            }
            assert forall|i: int, x: u8|
                0 <= i < ps.len() && #[trigger] ps[i].contains(x) implies s.contains(x) by {
                if i == 0 {
                    let j = choose|j: int| 0 <= j < ps[0].len() && ps[0][j] == x;
                    if j == 0 {
                        assert(s[0] == x);
                    } else {
                        assert(pr[0][j - 1] == x);
                        assert(pr[0].contains(x));
                        assert(s.drop_first().contains(x));
                    }
                } else {
                    assert(ps[i] == pr[i]);
                    assert(s.drop_first().contains(x));
                }
            }
        }
    }
}

/// Lines that hold no newline parse only to well-formed records.
proof fn lemma_parse_lines_wf(lines: Seq<Seq<u8>>)
    requires
        parse_lines(lines) is Some,
        forall|i: int| 0 <= i < lines.len() ==> !(#[trigger] lines[i]).contains(10u8),
    ensures
        forall|k: int|
            0 <= k < parse_lines(lines).unwrap().len() ==> wf_record(
                #[trigger] parse_lines(lines).unwrap()[k],
            ),
    decreases lines.len(),
{
    if lines.len() > 0 {
        assert(forall|i: int|
            0 <= i < lines.drop_last().len() ==> !(#[trigger] lines.drop_last()[i]).contains(
                10u8,
            ));
        lemma_parse_lines_wf(lines.drop_last());
        let prev = parse_lines(lines.drop_last()).unwrap();
        let l = lines.last();
        if l.len() != 0 {
            let r = parse_line(l).unwrap();
            assert(wf_record(r)) by {
                let parts = split_on(l, 32);
                lemma_split_pieces(l, 32);
                assert(r.name == parts[0] && r.cost == parts[2]);
                assert(!parts[0].contains(32u8) && !parts[2].contains(32u8));
                assert(!parts[0].contains(10u8)) by {
                    if parts[0].contains(10u8) {
                        assert(l.contains(10u8));
                    }
                }
                assert(!parts[2].contains(10u8)) by {
                    if parts[2].contains(10u8) {
                        assert(l.contains(10u8));
                    }
                }
                assert(is_count(parts[1]));
                lemma_count_val_nonneg(parts[1]);
            }
            assert(parse_lines(lines).unwrap() == prev.push(r));
        }
    }
}

/// Whatever a cost file parses to is well-formed: every row's fields
/// can be written back out unchanged.
pub proof fn lemma_parse_wf(s: Seq<u8>)
    requires
        parse_content(s) is Some,
    ensures
        forall|k: int|
            0 <= k < parse_content(s).unwrap().len() ==> wf_record(
                #[trigger] parse_content(s).unwrap()[k],
            ),
{
    let lines = split_on(strip_trailer(s), 10);
    lemma_split_pieces(strip_trailer(s), 10);
    lemma_parse_lines_wf(lines);
}

} // verus!
