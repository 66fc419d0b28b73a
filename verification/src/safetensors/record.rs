//! Tensor records of Safetensors headers.

use crate::text;
use vstd::prelude::*;

verus! {

/// One tensor from a Safetensors header.
#[derive(Debug, Clone, PartialEq, Eq)]
pub struct SafetensorsTensorRecord {
    /// Tensor name.
    pub name: String,
    /// Safetensors dtype label (`F32`, `F16`, ...).
    pub dtype: String,
    /// Tensor shape.
    pub shape: Vec<usize>,
    /// Payload byte length implied by `data_offsets`.
    pub byte_size: usize,
    /// Relative shard path.
    pub source_shard: String,
    /// Inclusive-exclusive payload offsets within the shard data section.
    pub data_offsets: [usize; 2],
    /// Discovery labels (`moe_router_candidate`, ...).
    pub labels: Vec<&'static str>,
}

/// What a tensor record says.
#[verifier::ext_equal]
pub struct RecordView {
    pub name: Seq<char>,
    pub dtype: Seq<char>,
    pub shape: Seq<usize>,
    pub byte_size: usize,
    pub source_shard: Seq<char>,
    pub start: usize,
    pub end: usize,
    pub labels: Seq<Seq<char>>,
}

impl View for SafetensorsTensorRecord {
    type V = RecordView;

    open spec fn view(&self) -> RecordView {
        RecordView {
            name: self.name@,
            dtype: self.dtype@,
            shape: self.shape@,
            byte_size: self.byte_size,
            source_shard: self.source_shard@,
            start: self.data_offsets@[0],
            end: self.data_offsets@[1],
            labels: text::slice_views(self.labels@),
        }
    }
}

/// What the records say, in order.
pub open spec fn record_views(records: Seq<SafetensorsTensorRecord>) -> Seq<RecordView> {
    Seq::new(records.len(), |i: int| records[i]@)
}

} // verus!
