//! The order of identifiers: that of their 128-bit numbers, which is the
//! order of their words read high word first.

use core::cmp::Ordering;
use vstd::prelude::*;
use vstd::std_specs::cmp::PartialOrdSpecImpl;
use crate::EUID;

verus! {

/// Identifiers compare as their numbers do, and equal numbers belong to
/// identical identifiers.
pub proof fn lemma_order_by_words(a: EUID, b: EUID)
    ensures
        a@ < b@ <==> (a.0 < b.0 || (a.0 == b.0 && a.1 < b.1)),
        a@ == b@ <==> a == b,
        a@ < 0x1_0000_0000_0000_0000_0000_0000_0000_0000,
{
}

impl PartialOrd for EUID {
    fn partial_cmp(&self, other: &Self) -> (r: Option<Ordering>) {
        proof {
            lemma_order_by_words(*self, *other);
        }
        if self.0 != other.0 {
            return Some(
                if self.0 > other.0 {
                    Ordering::Greater
                } else {
                    Ordering::Less
                },
            );
        }
        if self.1 != other.1 {
            return Some(
                if self.1 > other.1 {
                    Ordering::Greater
                } else {
                    Ordering::Less
                },
            );
        }
        Some(Ordering::Equal)
    }
}

impl PartialOrdSpecImpl for EUID {
    open spec fn obeys_partial_cmp_spec() -> bool {
        true
    }

    open spec fn partial_cmp_spec(&self, other: &EUID) -> Option<Ordering> {
        if self@ < other@ {
            Some(Ordering::Less)
        } else if self@ > other@ {
            Some(Ordering::Greater)
        } else {
            Some(Ordering::Equal)
        }
    }
}

} // verus!
