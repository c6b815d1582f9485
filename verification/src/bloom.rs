//! Operations on bloom filters. The filters themselves are kept by the
//! server; the library carries the operations.
use vstd::prelude::*;
use crate::ops::Command;
use crate::types::{Key, Value};

verus! {

/// Operations on bloom filters.
pub enum BloomOps {
    BInsert(Key, Value),
    BContains(Key, Value),
}

impl BloomOps {
    /// What this operation asks for.
    pub open spec fn view(&self) -> Command {
        match self {
            BloomOps::BInsert(k, v) => Command::BInsert(k@, v@),
            BloomOps::BContains(k, v) => Command::BContains(k@, v@),
        }
    }
}

} // verus!
