//! Equality.
//!
//! Two units are equal if they are valid, can be brought into canonical
//! form, and have the same canonical form. Two identifiers, and two
//! factors, are equal if they are valid and denote the same.

use crate::arithmetic::COST_LIMIT;
use crate::quantity::canonical;
use crate::unit::{Measure, Unit, UnitFactor, UnitIdentifier};
use vstd::prelude::*;
use vstd::std_specs::cmp::PartialEqSpecImpl;

verus! {

impl Unit {
    /// Whether the unit is valid and light enough to be brought into
    /// canonical form.
    pub open spec fn comparable(&self) -> bool {
        self.wf() && self.weight() <= COST_LIMIT
    }
}

impl PartialEq for Unit {
    fn eq(&self, other: &Unit) -> (r: bool) {
        if self.is_valid() && other.is_valid() && self.weighs_at_most(Measure::Cost, COST_LIMIT)
            && other.weighs_at_most(Measure::Cost, COST_LIMIT) {
            self.equals(other)
        } else {
            false
        }
    }
}

impl PartialEqSpecImpl for Unit {
    open spec fn obeys_eq_spec() -> bool {
        true
    }

    open spec fn eq_spec(&self, other: &Unit) -> bool {
        self.comparable() && other.comparable() && canonical(self@) == canonical(other@)
    }
}

impl PartialEq for UnitIdentifier {
    fn eq(&self, other: &UnitIdentifier) -> (r: bool) {
        if self.is_valid() && other.is_valid() {
            self.same(other)
        } else {
            false
        }
    }
}

impl PartialEqSpecImpl for UnitIdentifier {
    open spec fn obeys_eq_spec() -> bool {
        true
    }

    open spec fn eq_spec(&self, other: &UnitIdentifier) -> bool {
        self.wf() && other.wf() && self@ == other@
    }
}

impl PartialEq for UnitFactor {
    fn eq(&self, other: &UnitFactor) -> (r: bool) {
        if self.is_valid() && other.is_valid() {
            self.same(other)
        } else {
            false
        }
    }
}

impl PartialEqSpecImpl for UnitFactor {
    open spec fn obeys_eq_spec() -> bool {
        true
    }

    open spec fn eq_spec(&self, other: &UnitFactor) -> bool {
        self.wf() && other.wf() && self@ == other@
    }
}

} // verus!
