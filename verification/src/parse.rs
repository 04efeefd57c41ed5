//! Reading cost files.
//!
//! A cost file is header-less tabular text: one record per line, three
//! single-space-separated fields (`test_name count cost`). The file may
//! end with the trailer marker `---`; everything from the last
//! occurrence of that marker to the end of the file is not data.

use vstd::prelude::*;
use crate::record::{models, CostError, CostRecord, RecordModel};

verus! {

/// The three bytes `---` that terminate a cost file.
pub open spec fn trailer() -> Seq<u8> {
    seq![45u8, 45u8, 45u8]
}

/// Start index of the last occurrence of `---` in `s`, if there is one.
pub open spec fn rfind_trailer(s: Seq<u8>) -> Option<int>
    decreases s.len(),
{
    if s.len() < 3 {
        None
    } else if s.subrange(s.len() - 3, s.len() as int) == trailer() {
        Some(s.len() - 3)
    } else {
        rfind_trailer(s.take(s.len() - 1))
    }
}

/// The data portion of a cost file: everything before the last `---`,
/// or all of `s` when no marker occurs.
pub open spec fn strip_trailer(s: Seq<u8>) -> Seq<u8> {
    match rfind_trailer(s) {
        Some(i) => s.take(i),
        None => s,
    }
}

/// `s` split at every occurrence of `d`; n delimiters give n + 1 pieces.
pub open spec fn split_on(s: Seq<u8>, d: u8) -> Seq<Seq<u8>>
    decreases s.len(),
{
    if s.len() == 0 {
        seq![Seq::<u8>::empty()]
    } else if s[0] == d {
        seq![Seq::<u8>::empty()] + split_on(s.drop_first(), d)
    } else {
        let rest = split_on(s.drop_first(), d);
        seq![seq![s[0]] + rest[0]] + rest.drop_first()
    }
}

pub open spec fn is_digit(b: u8) -> bool {
    48 <= b <= 57
}

/// A well-formed count field: one or more decimal digits.
pub open spec fn is_count(s: Seq<u8>) -> bool {
    s.len() > 0 && forall|i: int| 0 <= i < s.len() ==> is_digit(s[i])
}

/// The number a digit string denotes.
pub open spec fn count_val(s: Seq<u8>) -> int
    decreases s.len(),
{
    if s.len() == 0 {
        0
    } else {
        count_val(s.drop_last()) * 10 + (s.last() - 48)
    }
}

/// One data line as a record: exactly three space-separated fields,
/// the middle one a digit string whose value fits a `usize`.
pub open spec fn parse_line(l: Seq<u8>) -> Option<RecordModel> {
    let parts = split_on(l, 32);
    if parts.len() == 3 && is_count(parts[1]) && count_val(parts[1]) <= usize::MAX {
        Some(RecordModel { name: parts[0], count: count_val(parts[1]), cost: parts[2] })
    } else {
        None
    }
}

/// The records of a sequence of lines, in order. Empty lines carry no
/// record; any malformed non-empty line fails the whole parse.
pub open spec fn parse_lines(lines: Seq<Seq<u8>>) -> Option<Seq<RecordModel>>
    decreases lines.len(),
{
    if lines.len() == 0 {
        Some(Seq::<RecordModel>::empty())
    } else {
        match parse_lines(lines.drop_last()) {
            None => None,
            Some(rs) => {
                let l = lines.last();
                if l.len() == 0 {
                    Some(rs)
                } else {
                    match parse_line(l) {
                        None => None,
                        Some(r) => Some(rs.push(r)),
                    }
                }
            },
        }
    }
}

/// What a whole cost file parses to: its data portion, split into
/// lines, read line by line.
pub open spec fn parse_content(s: Seq<u8>) -> Option<Seq<RecordModel>> {
    parse_lines(split_on(strip_trailer(s), 10))
}

/// The views of a sequence of byte vectors.
pub open spec fn byte_views(vs: Seq<Vec<u8>>) -> Seq<Seq<u8>> {
    vs.map_values(|v: Vec<u8>| v@)
}

/// A copy of `s[a..b]`.
fn subvec(s: &Vec<u8>, a: usize, b: usize) -> (r: Vec<u8>)
    requires
        a <= b <= s.len(),
    ensures
        r@ == s@.subrange(a as int, b as int),
{
    let mut r: Vec<u8> = Vec::new();
    let mut i: usize = a;
    while i < b
        invariant
            a <= i <= b <= s.len(),
            r@ == s@.subrange(a as int, i as int),
        decreases b - i,
    {
        r.push(s[i]);
        proof {
            assert(s@.subrange(a as int, i + 1 as int) =~= s@.subrange(a as int, i as int).push(
                s@[i as int],
            ));
        }
        i = i + 1;
    }
    r
}

/// `s` split at every occurrence of `d`.
fn split_bytes(s: &Vec<u8>, d: u8) -> (r: Vec<Vec<u8>>)
    ensures
        byte_views(r@) == split_on(s@, d),
{
    let mut done: Vec<Vec<u8>> = Vec::new();
    let mut cur: Vec<u8> = Vec::new();
    let mut i: usize = 0;
    proof {
        assert(s@.skip(0) =~= s@);
        assert(split_on(s@, d).len() >= 1);
        assert(split_on(s@, d) =~= seq![split_on(s@, d)[0]] + split_on(s@, d).drop_first());
        assert(byte_views(done@) + seq![cur@ + split_on(s@, d)[0]] + split_on(
            s@,
            d,
        ).drop_first() =~= seq![cur@ + split_on(s@, d)[0]] + split_on(s@, d).drop_first());
        assert(cur@ + split_on(s@, d)[0] =~= split_on(s@, d)[0]);
    }
    while i < s.len()
        invariant
            i <= s.len(),
            split_on(s@, d) =~= byte_views(done@) + seq![cur@ + split_on(s@.skip(i as int), d)[0]]
                + split_on(s@.skip(i as int), d).drop_first(),
            split_on(s@.skip(i as int), d).len() >= 1,
        decreases s.len() - i,
    {
        proof {
            assert(s@.skip(i as int).drop_first() =~= s@.skip(i + 1));
            assert(s@.skip(i as int)[0] == s@[i as int]);
        }
        if s[i] == d {
            let ghost old_done = done@;
            let ghost old_cur = cur@;
            done.push(cur);
            cur = Vec::new();
            proof {
                assert(byte_views(done@) =~= byte_views(old_done).push(old_cur));
                assert(old_cur + split_on(s@.skip(i as int), d)[0] =~= old_cur);
                assert(split_on(s@, d) =~= byte_views(done@) + seq![
                    cur@ + split_on(s@.skip(i + 1), d)[0],
                ] + split_on(s@.skip(i + 1), d).drop_first());
            }
        } else {
            let ghost old_cur = cur@;
            cur.push(s[i]);
            proof {
                let rest = split_on(s@.skip(i + 1), d);
                assert(split_on(s@.skip(i as int), d) =~= seq![seq![s@[i as int]] + rest[0]]
                    + rest.drop_first());
                assert(old_cur + (seq![s@[i as int]] + rest[0]) =~= cur@ + rest[0]);
                assert(split_on(s@, d) =~= byte_views(done@) + seq![cur@ + rest[0]]
                    + rest.drop_first());
            }
        }
        i = i + 1;
    }
    proof {
        assert(s@.skip(s@.len() as int) =~= Seq::<u8>::empty());
        assert(split_on(Seq::<u8>::empty(), d) =~= seq![Seq::<u8>::empty()]);
        assert(cur@ + Seq::<u8>::empty() =~= cur@);
    }
    let ghost old_done = done@;
    done.push(cur);
    proof {
        assert(byte_views(done@) =~= byte_views(old_done).push(done@.last()@));
        assert(byte_views(done@) =~= split_on(s@, d));
    }
    done
}

pub proof fn lemma_count_val_nonneg(s: Seq<u8>)
    requires
        forall|i: int| 0 <= i < s.len() ==> is_digit(s[i]),
    ensures
        count_val(s) >= 0,
    decreases s.len(),
{
    if s.len() > 0 {
        lemma_count_val_nonneg(s.drop_last());
    }
}

/// The value of a digit string never shrinks as digits are appended.
proof fn lemma_count_val_take_le(s: Seq<u8>, i: int, j: int)
    requires
        forall|k: int| 0 <= k < s.len() ==> is_digit(s[k]),
        0 <= i <= j <= s.len(),
    ensures
        count_val(s.take(i)) <= count_val(s.take(j)),
    decreases j - i,
{
    if i < j {
        lemma_count_val_take_le(s, i, j - 1);
        assert(s.take(j).drop_last() =~= s.take(j - 1));
        assert(forall|k: int| 0 <= k < s.take(j - 1).len() ==> is_digit(#[trigger] s.take(j - 1)[k]));
        lemma_count_val_nonneg(s.take(j - 1));
        assert(count_val(s.take(j)) == count_val(s.take(j - 1)) * 10 + (s[j - 1] - 48));
    }
}

/// The count field as a number, or `None` where it is not a digit
/// string whose value fits a `usize`.
fn parse_count(s: &Vec<u8>) -> (r: Option<usize>)
    ensures
        match r {
            Some(v) => is_count(s@) && count_val(s@) == v as int,
            None => !(is_count(s@) && count_val(s@) <= usize::MAX as int),
        },
{
    if s.len() == 0 {
        return None;
    }
    let mut val: usize = 0;
    let mut i: usize = 0;
    while i < s.len()
        invariant
            i <= s.len(),
            s@.len() > 0,
            forall|j: int| 0 <= j < i ==> is_digit(s@[j]),
            count_val(s@.take(i as int)) == val as int,
        decreases s.len() - i,
    {
        let b = s[i];
        if b < 48 || b > 57 {
            return None;
        }
        let d = (b - 48) as usize;
        let wide: u128 = val as u128 * 10 + d as u128;
        proof {
            assert(s@.take(i + 1).drop_last() =~= s@.take(i as int));
            assert(s@.take(i + 1).last() == s@[i as int]);
        }
        if wide > usize::MAX as u128 {
            proof {
                if is_count(s@) {
                    assert(count_val(s@.take(i + 1)) == val as int * 10 + d);
                    lemma_count_val_take_le(s@, i + 1, s@.len() as int);
                    assert(s@.take(s@.len() as int) =~= s@);
                }
            }
            return None;
        }
        val = wide as usize;
        i = i + 1;
    }
    proof {
        assert(s@.take(s@.len() as int) =~= s@);
    }
    Some(val)
}

/// One bad line fails the parse of the whole line sequence.
proof fn lemma_parse_lines_bad(lines: Seq<Seq<u8>>, i: int)
    requires
        0 <= i < lines.len(),
        lines[i].len() != 0,
        parse_line(lines[i]) is None,
    ensures
        parse_lines(lines) is None,
    decreases lines.len(),
{
    if i < lines.len() - 1 {
        lemma_parse_lines_bad(lines.drop_last(), i);
    }
}

/// The records of a whole cost file.
///
/// Succeeds exactly when every non-empty data line has the
/// `test_name count cost` shape, and then returns the rows in file
/// order; fails with `MalformedRow` otherwise.
pub fn parse_records(content: &Vec<u8>) -> (r: Result<Vec<CostRecord>, CostError>)
    ensures
        (match r {
            Ok(recs) => parse_content(content@) is Some && models(recs@) == parse_content(
                content@,
            ).unwrap(),
            Err(e) => parse_content(content@) is None && e == CostError::MalformedRow,
        }),
{
    let n = content.len();
    let mut k: usize = n;
    let mut cut: usize = n;
    let mut has = false;
    proof {
        assert(content@.take(n as int) =~= content@);
    }
    while k >= 3
        invariant_except_break
            k <= n,
            n == content.len(),
            cut == n,
            has == false,
            rfind_trailer(content@) == rfind_trailer(content@.take(k as int)),
        ensures
            n == content.len(),
            has ==> rfind_trailer(content@) == Some(cut as int) && cut + 3 <= n,
            has == false ==> rfind_trailer(content@) is None && cut == n,
        decreases k,
    {
        let ghost t = content@.take(k as int);
        proof {
            assert(t.subrange(k - 3, k as int)[0] == content@[k - 3]);
            assert(t.subrange(k - 3, k as int)[1] == content@[k - 2]);
            assert(t.subrange(k - 3, k as int)[2] == content@[k - 1]);
        }
        if content[k - 3] == 45 && content[k - 2] == 45 && content[k - 1] == 45 {
            proof {
                assert(t.subrange(k - 3, k as int) =~= trailer());
            }
            cut = k - 3;
            has = true;
            break;
        }
        proof {
            assert(t.subrange(k - 3, k as int) != trailer()) by {
                if t.subrange(k - 3, k as int) == trailer() {
                    assert(t.subrange(k - 3, k as int)[0] == 45);
                    assert(t.subrange(k - 3, k as int)[1] == 45);
                    assert(t.subrange(k - 3, k as int)[2] == 45);
                }
            }
            assert(t.take(k - 1) =~= content@.take(k - 1));
        }
        k = k - 1;
    }
    let data = subvec(content, 0, cut);
    proof {
        assert(data@ =~= strip_trailer(content@));
    }
    let lines = split_bytes(&data, 10);
    let ghost lseq = byte_views(lines@);
    let mut out: Vec<CostRecord> = Vec::new();
    let mut i: usize = 0;
    while i < lines.len()
        invariant
            i <= lines.len(),
            lseq == byte_views(lines@),
            lseq == split_on(strip_trailer(content@), 10),
            lseq.len() == lines.len(),
            parse_lines(lseq.take(i as int)) == Some(models(out@)),
        decreases lines.len() - i,
    {
        proof {
            assert(lseq.take(i + 1).drop_last() =~= lseq.take(i as int));
            assert(lseq.take(i + 1).last() == lseq[i as int]);
            assert(lseq[i as int] == lines@[i as int]@);
        }
        if lines[i].len() == 0 {
            // an empty line carries no record
        } else {
            let mut fields = split_bytes(&lines[i], 32);
            let ghost parts = split_on(lseq[i as int], 32);
            proof {
                assert(parts.len() == fields@.len());
            }
            if fields.len() != 3 {
                proof {
                    lemma_parse_lines_bad(lseq, i as int);
                }
                return Err(CostError::MalformedRow);
            }
            proof {
                assert(parts[0] == fields@[0]@);
                assert(parts[1] == fields@[1]@);
                assert(parts[2] == fields@[2]@);
            }
            let cost = fields.pop().unwrap();
            let countv = fields.pop().unwrap();
            let name = fields.pop().unwrap();
            match parse_count(&countv) {
                None => {
                    proof {
                        lemma_parse_lines_bad(lseq, i as int);
                    }
                    return Err(CostError::MalformedRow);
                },
                Some(c) => {
                    let rec = CostRecord { test_name: name, count: c, cost };
                    proof {
                        assert(parse_line(lseq[i as int]) == Some(rec@)) by {
                            assert(rec@ =~= RecordModel {
                                name: parts[0],
                                count: count_val(parts[1]),
                                cost: parts[2],
                            });
                        }
                        assert(models(out@.push(rec)) =~= models(out@).push(rec@));
                    }
                    out.push(rec);
                },
            }
        }
        i = i + 1;
    }
    proof {
        assert(lseq.take(lseq.len() as int) =~= lseq);
    }
    Ok(out)
}

} // verus!
