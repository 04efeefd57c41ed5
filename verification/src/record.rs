//! The record type a cost file is made of.

use vstd::prelude::*;

verus! {

/// One row of a cost file: a test's name, the number of runs its cost
/// reflects, and the cost text itself. The cost is carried through as
/// opaque bytes and never interpreted as a number.
#[derive(Debug, PartialEq, Eq)]
pub struct CostRecord {
    pub test_name: Vec<u8>,
    pub count: usize,
    pub cost: Vec<u8>,
}

/// The mathematical content of one record.
#[verifier::ext_equal]
pub ghost struct RecordModel {
    pub name: Seq<u8>,
    pub count: int,
    pub cost: Seq<u8>,
}

impl View for CostRecord {
    type V = RecordModel;

    open spec fn view(&self) -> RecordModel {
        RecordModel { name: self.test_name@, count: self.count as int, cost: self.cost@ }
    }
}

/// The models of a sequence of records, row by row.
pub open spec fn models(rs: Seq<CostRecord>) -> Seq<RecordModel> {
    rs.map_values(|r: CostRecord| r@)
}

/// No two rows share a test name.
pub open spec fn unique_names(rs: Seq<RecordModel>) -> bool {
    forall|i: int, j: int| 0 <= i < j < rs.len() ==> rs[i].name != rs[j].name
}

/// The errors the library reports: a row that does not have the
/// three-column shape, and a baseline that names a test twice.
#[derive(Clone, Copy, Debug, PartialEq, Eq, Structural)]
pub enum CostError {
    MalformedRow,
    DuplicateTestName,
}

} // verus!
