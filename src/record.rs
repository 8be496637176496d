//! A decoded benchmark record.
use vstd::prelude::*;

use crate::bench_id::{BenchId, IdView};

verus! {

/// The measured statistic of a record, kept as the bit pattern of its IEEE 754
/// double.
#[derive(Debug, PartialEq)]
pub struct BenchResult {
    pub time_bits: u64,
}

/// One record of a benchmark stream: a parsed identifier and its statistic.
#[derive(Debug, PartialEq)]
pub struct BenchData {
    pub id: BenchId,
    pub result: BenchResult,
}

/// Mathematical form of [`BenchData`].
pub type DataView = (IdView, u64);

impl BenchData {
    pub open spec fn view(&self) -> DataView {
        (self.id.view(), self.result.time_bits)
    }
}

} // verus!
