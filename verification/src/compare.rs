//! Equality and order of digests and outcomes through the standard operators.

use crate::hash::{digest_le, lemma_digest_le_antisymmetric, lemma_digest_le_reflexive};
use crate::outcome::Outcome;
use core::cmp::Ordering;
use vstd::prelude::*;
use vstd::std_specs::cmp::{PartialEqSpecImpl, PartialOrdSpecImpl};

verus! {

impl PartialEq for crate::hash::Hash {
    fn eq(&self, other: &crate::hash::Hash) -> (same: bool) {
        self.equals(other)
    }
}

impl PartialEqSpecImpl for crate::hash::Hash {
    open spec fn obeys_eq_spec() -> bool {
        true
    }

    open spec fn eq_spec(&self, other: &crate::hash::Hash) -> bool {
        self@ == other@
    }
}

impl Eq for crate::hash::Hash {

}

impl PartialOrd for crate::hash::Hash {
    fn partial_cmp(&self, other: &crate::hash::Hash) -> (order: Option<Ordering>) {
        proof {
            lemma_digest_le_reflexive(self@);
            if digest_le(self@, other@) && digest_le(other@, self@) {
                lemma_digest_le_antisymmetric(self@, other@);
            }
        }
        if self.le(other) {
            if other.le(self) {
                Some(Ordering::Equal)
            } else {
                Some(Ordering::Less)
            }
        } else {
            Some(Ordering::Greater)
        }
    }
}

impl PartialOrdSpecImpl for crate::hash::Hash {
    open spec fn obeys_partial_cmp_spec() -> bool {
        true
    }

    open spec fn partial_cmp_spec(&self, other: &crate::hash::Hash) -> Option<Ordering> {
        if self@ == other@ {
            Some(Ordering::Equal)
        } else if digest_le(self@, other@) {
            Some(Ordering::Less)
        } else {
            Some(Ordering::Greater)
        }
    }
}

impl PartialEq for Outcome {
    fn eq(&self, other: &Outcome) -> (same: bool) {
        self.same_as(other)
    }
}

impl PartialEqSpecImpl for Outcome {
    open spec fn obeys_eq_spec() -> bool {
        true
    }

    open spec fn eq_spec(&self, other: &Outcome) -> bool {
        self@ == other@
    }
}

impl Eq for Outcome {

}

} // verus!
