//! The record model: one row of input, as a label and a numeric value.

use vstd::prelude::*;

verus! {

/// Scale of a record's value: the `value` field counts millionths of a
/// unit, so a stored value `v` denotes the decimal number
/// `v / VALUE_UNIT`.
pub const VALUE_UNIT: i64 = 1_000_000;

/// One parsed row: a text label (as bytes) and a numeric value in
/// millionths of a unit. Records carry no identity beyond their fields.
#[derive(Clone)]
pub struct Record {
    pub name: Vec<u8>,
    pub value: i64,
}

/// The mathematical content of a `Record`: the label bytes and the value,
/// still counted in millionths of a unit.
pub ghost struct RecordData {
    pub name: Seq<u8>,
    pub value: int,
}

impl View for Record {
    type V = RecordData;

    open spec fn view(&self) -> RecordData {
        RecordData { name: self.name@, value: self.value as int }
    }
}

/// The sequence of mathematical values of a sequence of records.
pub open spec fn views(s: Seq<Record>) -> Seq<RecordData> {
    s.map_values(|r: Record| r@)
}

} // verus!
