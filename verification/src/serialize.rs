//! Writing cost files.
//!
//! Rows go out in set order, three fields joined by single spaces and
//! ended by a newline; the trailer `---` follows the last row with
//! nothing after it.

use vstd::prelude::*;
use crate::parse::trailer;
use crate::record::{models, CostRecord, RecordModel};

verus! {

/// The decimal digits of `n`, most significant first.
pub open spec fn render_count(n: nat) -> Seq<u8>
    decreases n,
{
    if n < 10 {
        seq![(48 + n) as u8]
    } else {
        render_count(n / 10).push((48 + n % 10) as u8)
    }
}

/// One record as a line, without its newline.
pub open spec fn render_line(r: RecordModel) -> Seq<u8> {
    r.name + seq![32u8] + render_count(r.count as nat) + seq![32u8] + r.cost
}

/// One record as a line, newline included.
pub open spec fn render_record(r: RecordModel) -> Seq<u8> {
    render_line(r) + seq![10u8]
}

/// A record sequence as its lines, in order.
pub open spec fn render_records(rs: Seq<RecordModel>) -> Seq<u8>
    decreases rs.len(),
{
    if rs.len() == 0 {
        Seq::<u8>::empty()
    } else {
        render_record(rs[0]) + render_records(rs.drop_first())
    }
}

/// A whole merged cost file: the rows, then the trailer.
pub open spec fn render_output(rs: Seq<RecordModel>) -> Seq<u8> {
    render_records(rs) + trailer()
}

/// Rendering distributes over appending one record.
pub proof fn lemma_render_records_push(rs: Seq<RecordModel>, r: RecordModel)
    ensures
        render_records(rs.push(r)) == render_records(rs) + render_record(r),
    decreases rs.len(),
{
    if rs.len() == 0 {
        assert(rs.push(r).drop_first() =~= Seq::<RecordModel>::empty());
        assert(rs.push(r)[0] == r);
        assert(render_records(rs.push(r)) == render_record(r) + render_records(
            Seq::<RecordModel>::empty(),
        ));
        assert(render_record(r) + Seq::<u8>::empty() =~= render_record(r));
        assert(render_records(rs) + render_record(r) =~= render_record(r));
    } else {
        assert(rs.push(r).drop_first() =~= rs.drop_first().push(r));
        lemma_render_records_push(rs.drop_first(), r);
        assert(rs.push(r)[0] == rs[0]);
        assert(render_records(rs.push(r)) =~= render_records(rs) + render_record(r));
    }
}

/// `out` with the bytes of `src` appended.
fn push_bytes(out: &mut Vec<u8>, src: &Vec<u8>)
    ensures
        final(out)@ == old(out)@ + src@,
{
    let mut i: usize = 0;
    while i < src.len()
        invariant
            i <= src.len(),
            out@ == old(out)@ + src@.take(i as int),
        decreases src.len() - i,
    {
        out.push(src[i]);
        proof {
            assert(old(out)@ + src@.take(i + 1) =~= (old(out)@ + src@.take(i as int)).push(
                src@[i as int],
            ));
        }
        i = i + 1;
    }
    proof {
        assert(old(out)@ + src@.take(src@.len() as int) =~= old(out)@ + src@);
    }
}

/// `out` with the decimal digits of `n` appended.
fn push_decimal(out: &mut Vec<u8>, n: usize)
    ensures
        final(out)@ == old(out)@ + render_count(n as nat),
{
    let mut digits: Vec<u8> = Vec::new();
    let mut m = n;
    while m >= 10
        invariant
            render_count(n as nat) == render_count(m as nat) + digits@,
        decreases m,
    {
        let d = (48 + (m % 10) as u8) as u8;
        let ghost before = digits@;
        digits.insert(0, d);
        proof {
            assert(digits@ =~= seq![d] + before);
            assert(render_count(m as nat) =~= render_count((m / 10) as nat).push(d));
            assert(render_count((m / 10) as nat) + (seq![d] + before) =~= render_count(
                m as nat,
            ) + before);
        }
        m = m / 10;
    }
    let d = (48 + m as u8) as u8;
    let ghost before = digits@;
    digits.insert(0, d);
    proof {
        assert(digits@ =~= seq![d] + before);
        assert(render_count(m as nat) =~= seq![d]);
        assert(render_count(n as nat) =~= render_count(m as nat) + before);
        assert(render_count(n as nat) =~= digits@);
    }
    push_bytes(out, &digits);
}

/// A record set's rows and trailer as one byte string.
pub fn serialize_records(records: &Vec<CostRecord>) -> (out: Vec<u8>)
    ensures
        out@ == render_output(models(records@)),
{
    let mut out: Vec<u8> = Vec::new();
    let mut i: usize = 0;
    proof {
        assert(models(records@).take(0) =~= Seq::<RecordModel>::empty());
        assert(out@ =~= render_records(models(records@).take(0)));
    }
    while i < records.len()
        invariant
            i <= records.len(),
            out@ == render_records(models(records@).take(i as int)),
        decreases records.len() - i,
    {
        let r = &records[i];
        let ghost before = out@;
        push_bytes(&mut out, &r.test_name);
        out.push(32);
        push_decimal(&mut out, r.count);
        out.push(32);
        push_bytes(&mut out, &r.cost);
        out.push(10);
        proof {
            assert(out@ =~= before + render_record(records@[i as int]@));
            lemma_render_records_push(models(records@).take(i as int), records@[i as int]@);
            assert(models(records@).take(i + 1) =~= models(records@).take(i as int).push(
                records@[i as int]@,
            ));
        }
        i = i + 1;
    }
    proof {
        assert(models(records@).take(records@.len() as int) =~= models(records@));
    }
    out.push(45);
    out.push(45);
    out.push(45);
    proof {
        assert(out@ =~= render_records(models(records@)) + trailer());
    }
    out
}

} // verus!
