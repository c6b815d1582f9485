//! The order of sorted set members, for `partial_cmp` and `<`.
use vstd::prelude::*;
use core::cmp::Ordering;
use vstd::std_specs::cmp::PartialOrdSpecImpl;
use super::sorted_set::{SortedSetMember, member_entry, member_lt};

verus! {

/// The `Ordering` of two members under `member_lt`.
pub open spec fn member_ordering(a: SortedSetMember, b: SortedSetMember) -> Ordering {
    if member_lt(member_entry(a), member_entry(b)) {
        Ordering::Less
    } else if member_lt(member_entry(b), member_entry(a)) {
        Ordering::Greater
    } else {
        Ordering::Equal
    }
}

impl PartialOrd for SortedSetMember {
    fn partial_cmp(&self, other: &Self) -> (r: Option<Ordering>) {
        if self.less_than(other) {
            Some(Ordering::Less)
        } else if other.less_than(self) {
            Some(Ordering::Greater)
        } else {
            Some(Ordering::Equal)
        }
    }
}

impl PartialOrdSpecImpl for SortedSetMember {
    open spec fn obeys_partial_cmp_spec() -> bool {
        true
    }

    open spec fn partial_cmp_spec(&self, other: &SortedSetMember) -> Option<Ordering> {
        Some(member_ordering(*self, *other))
    }
}

} // verus!
