//! The order of newline sequences and of sets of them.
use crate::charset::pops_front;
use crate::model::sorted_members;
use crate::nl::Newline;
use crate::nlset::NewlineSet;
use core::cmp::Ordering;
use vstd::prelude::*;
use vstd::std_specs::cmp::PartialOrdSpecImpl;

verus! {

/// How the rank `a` stands to the rank `b`.
pub open spec fn rank_order(a: int, b: int) -> Ordering {
    if a < b {
        Ordering::Less
    } else if a == b {
        Ordering::Equal
    } else {
        Ordering::Greater
    }
}

/// How `a` stands to `b` in the lexicographic order: the first place in
/// which they differ decides, and a sequence stands before those that it
/// starts.
pub open spec fn lexical_order(a: Seq<Newline>, b: Seq<Newline>) -> Ordering
    decreases a.len(),
{
    if a.len() == 0 {
        if b.len() == 0 {
            Ordering::Equal
        } else {
            Ordering::Less
        }
    } else if b.len() == 0 {
        Ordering::Greater
    } else if a[0] != b[0] {
        rank_order(a[0].rank(), b[0].rank())
    } else {
        lexical_order(a.drop_first(), b.drop_first())
    }
}

impl PartialOrd for Newline {
    /// The order of the variants in the enumeration
    fn partial_cmp(&self, other: &Newline) -> (o: Option<Ordering>) {
        let a = self.index();
        let b = other.index();
        if a < b {
            Some(Ordering::Less)
        } else if a == b {
            Some(Ordering::Equal)
        } else {
            Some(Ordering::Greater)
        }
    }
}

impl PartialOrdSpecImpl for Newline {
    open spec fn obeys_partial_cmp_spec() -> bool {
        true
    }

    open spec fn partial_cmp_spec(&self, other: &Newline) -> Option<Ordering> {
        Some(rank_order(self.rank(), other.rank()))
    }
}

impl NewlineSet {
    /// Compares two sets as `BTreeSet` does: by their members in ascending
    /// order, lexicographically
    pub fn cmp(&self, other: &NewlineSet) -> (o: Ordering)
        requires
            self.wf(),
            other.wf(),
        ensures
            o == lexical_order(sorted_members(self@), sorted_members(other@)),
    {
        let mut left = self.iter();
        let mut right = other.iter();
        loop
            invariant
                left.wf(),
                right.wf(),
                lexical_order(left@, right@) == lexical_order(
                    sorted_members(self@),
                    sorted_members(other@),
                ),
            decreases left@.len(),
        {
            let ghost a = left@;
            let ghost b = right@;
            match (left.next(), right.next()) {
                (None, None) => {
                    return Ordering::Equal;
                },
                (None, Some(_)) => {
                    return Ordering::Less;
                },
                (Some(_), None) => {
                    return Ordering::Greater;
                },
                (Some(x), Some(y)) => {
                    proof {
                        x.lemma_order(y);
                    }
                    let i = x.index();
                    let j = y.index();
                    if i < j {
                        return Ordering::Less;
                    } else if i > j {
                        return Ordering::Greater;
                    }
                },
            }
        }
    }

    /// Compares two sets as [`NewlineSet::cmp`] does
    pub fn partial_cmp(&self, other: &NewlineSet) -> (o: Option<Ordering>)
        requires
            self.wf(),
            other.wf(),
        ensures
            o == Some(lexical_order(sorted_members(self@), sorted_members(other@))),
    {
        Some(self.cmp(other))
    }
}

} // verus!
