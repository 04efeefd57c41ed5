//! Trusted surface over `indexmap::IndexMap`, the insertion-ordered
//! map the merge accumulates records in.
//!
//! The contracts state what the crate documents of its map: iteration
//! follows insertion order; inserting an existing key replaces the
//! value in place and hands the old value back; inserting a new key
//! appends it last.

use vstd::prelude::*;
use crate::record::{models, CostRecord, RecordModel};
use indexmap::IndexMap;

verus! {

#[verifier::external_type_specification]
#[verifier::external_body]
#[verifier::reject_recursive_types(K)]
#[verifier::reject_recursive_types(V)]
#[verifier::reject_recursive_types(S)]
pub struct ExIndexMap<K, V, S>(IndexMap<K, V, S>);

/// What a record map holds: its key-record pairs, in the map's order.
pub uninterp spec fn map_entries(m: IndexMap<Vec<u8>, CostRecord>) -> Seq<(Seq<u8>, RecordModel)>;

/// First index whose key is `k`, if any.
pub open spec fn find_key(es: Seq<(Seq<u8>, RecordModel)>, k: Seq<u8>) -> Option<int>
    decreases es.len(),
{
    if es.len() == 0 {
        None
    } else if es[0].0 == k {
        Some(0)
    } else {
        match find_key(es.drop_first(), k) {
            Some(i) => Some(i + 1),
            None => None,
        }
    }
}

/// The records of an entry sequence, keys dropped.
pub open spec fn entry_records(es: Seq<(Seq<u8>, RecordModel)>) -> Seq<RecordModel> {
    es.map_values(|p: (Seq<u8>, RecordModel)| p.1)
}

/// Relies on `IndexMap::new`: a fresh map holds nothing.
#[verifier::external_body]
pub fn imap_new() -> (r: IndexMap<Vec<u8>, CostRecord>)
    ensures
        map_entries(r) == Seq::<(Seq<u8>, RecordModel)>::empty(),
{
    IndexMap::new()
}

/// Relies on `IndexMap::insert`: an existing key keeps its place in
/// the order and gets the new value, with the old value returned; a
/// new key is appended last with `None` returned. A present key is
/// equal to `key` as `Vec<u8>`, that is byte for byte, so the stored
/// pair's key reads as `key@` either way.
#[verifier::external_body]
pub fn imap_insert(
    m: &mut IndexMap<Vec<u8>, CostRecord>,
    key: Vec<u8>,
    value: CostRecord,
) -> (r: Option<CostRecord>)
    ensures
        (match find_key(map_entries(*old(m)), key@) {
            Some(i) => map_entries(*final(m)) == map_entries(*old(m)).update(i, (key@, value@))
                && r is Some && r.unwrap()@ == map_entries(*old(m))[i].1,
            None => map_entries(*final(m)) == map_entries(*old(m)).push((key@, value@))
                && r is None,
        }),
{
    m.insert(key, value)
}

/// Relies on `IndexMap::get`: the value stored under an equal key, if
/// one is present. Only the record's count is handed back.
#[verifier::external_body]
pub fn imap_get_count(m: &IndexMap<Vec<u8>, CostRecord>, key: &Vec<u8>) -> (r: Option<usize>)
    ensures
        (match find_key(map_entries(*m), key@) {
            Some(i) => r is Some && r.unwrap() as int == map_entries(*m)[i].1.count,
            None => r is None,
        }),
{
    m.get(key).map(|rec| rec.count)
}

/// Relies on `IndexMap::into_values`: the values come out in the
/// map's order.
#[verifier::external_body]
pub fn imap_into_records(m: IndexMap<Vec<u8>, CostRecord>) -> (r: Vec<CostRecord>)
    ensures
        models(r@) == entry_records(map_entries(m)),
{
    m.into_values().collect()
}

} // verus!
