use crate::canframe::CANFrame;
use core::cmp::Ordering;
use vstd::prelude::*;
use vstd::std_specs::cmp::PartialEqSpecImpl;
use vstd::std_specs::cmp::PartialOrdSpec;
use vstd::std_specs::cmp::PartialOrdSpecImpl;

verus! {

/// Two frames are equal when all their bits are.
impl PartialEq for CANFrame {
    fn eq(&self, other: &CANFrame) -> (r: bool) {
        proof {
            self.lemma_words_len();
            other.lemma_words_len();
        }
        let a = self.view();
        let b = other.view();
        let r = a[0] == b[0] && a[1] == b[1] && a[2] == b[2];
        proof {
            if r {
                assert(self.words() =~= other.words());
            }
        }
        r
    }
}

impl PartialEqSpecImpl for CANFrame {
    open spec fn obeys_eq_spec() -> bool {
        true
    }

    open spec fn eq_spec(&self, other: &CANFrame) -> bool {
        self.words() == other.words()
    }
}

/// Frames are ordered by their order key, the lower key first.
impl PartialOrd for CANFrame {
    fn partial_cmp(&self, other: &CANFrame) -> (r: Option<Ordering>) {
        let own_id = self.order_key();
        let other_id = other.order_key();
        if own_id < other_id {
            Some(Ordering::Less)
        } else if own_id == other_id {
            Some(Ordering::Equal)
        } else {
            Some(Ordering::Greater)
        }
    }
}

impl PartialOrdSpecImpl for CANFrame {
    open spec fn obeys_partial_cmp_spec() -> bool {
        true
    }

    open spec fn partial_cmp_spec(&self, other: &CANFrame) -> Option<Ordering> {
        if self.key() < other.key() {
            Some(Ordering::Less)
        } else if self.key() == other.key() {
            Some(Ordering::Equal)
        } else {
            Some(Ordering::Greater)
        }
    }
}

} // verus!

verus! {

/// Frames compare by their keys alone, whatever their other bits: equal keys
/// compare `Equal`, a lower key `Less`, a higher key `Greater`; the comparison
/// is antisymmetric and always gives an answer.
pub proof fn lemma_compare_by_key(a: CANFrame, b: CANFrame)
    ensures
        PartialOrdSpec::partial_cmp_spec(&a, &b) is Some,
        (PartialOrdSpec::partial_cmp_spec(&a, &b) == Some(Ordering::Equal)) == (a.key() == b.key()),
        (PartialOrdSpec::partial_cmp_spec(&a, &b) == Some(Ordering::Less)) == (a.key() < b.key()),
        (PartialOrdSpec::partial_cmp_spec(&a, &b) == Some(Ordering::Greater)) == (a.key() > b.key()),
        (PartialOrdSpec::partial_cmp_spec(&a, &b) == Some(Ordering::Greater)) == (PartialOrdSpec::partial_cmp_spec(&b, &a) == Some(Ordering::Less)),
        (PartialOrdSpec::partial_cmp_spec(&a, &b) == Some(Ordering::Equal)) == (PartialOrdSpec::partial_cmp_spec(&b, &a) == Some(Ordering::Equal)),
{
}

} // verus!
