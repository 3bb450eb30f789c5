//! How numbered folder names compare: by number alone.

use crate::entities::NumberedFolderName;
use crate::entities::NumberedName;
use std::cmp::Ordering;
use vstd::prelude::*;
use vstd::std_specs::cmp::PartialOrdSpecImpl;

verus! {

/// How `a` stands to `b`: as the number of `a` stands to the number of `b`.
/// Neither the width nor the remainder takes part, so names of one number
/// compare equal whatever else they hold.
pub open spec fn number_order(a: NumberedName, b: NumberedName) -> Ordering {
    if a.value < b.value {
        Ordering::Less
    } else if a.value > b.value {
        Ordering::Greater
    } else {
        Ordering::Equal
    }
}

impl NumberedFolderName {
    /// How this name stands to `other`, by number alone.
    pub fn cmp(&self, other: &Self) -> (r: Ordering)
        ensures
            r == number_order(self@, other@),
    {
        let mine: usize = self.number().get_value();
        let theirs: usize = other.number().get_value();
        if mine < theirs {
            Ordering::Less
        } else if mine > theirs {
            Ordering::Greater
        } else {
            Ordering::Equal
        }
    }
}

impl PartialOrd for NumberedFolderName {
    fn partial_cmp(&self, other: &Self) -> (r: Option<Ordering>) {
        Some(self.cmp(other))
    }
}

impl PartialOrdSpecImpl for NumberedFolderName {
    open spec fn obeys_partial_cmp_spec() -> bool {
        true
    }

    open spec fn partial_cmp_spec(&self, other: &Self) -> Option<Ordering> {
        Some(number_order(self@, other@))
    }
}

} // verus!
