//! The operators on sets of newline sequences and on newline sequences.
//!
//! `|`, `&`, `^` and `-` build the union, the intersection, the symmetric
//! difference and the difference of their operands, each of which is a
//! [`NewlineSet`] or a single [`Newline`]; `!` builds the complement.
use crate::model::lemma_sorted_members;
use crate::nl::Newline;
use crate::nlset::NewlineSet;
use vstd::prelude::*;
use vstd::std_specs::ops::{BitAndSpecImpl, BitOrSpecImpl, BitXorSpecImpl, NotSpecImpl, SubSpecImpl};

verus! {

impl core::ops::BitAnd<NewlineSet> for NewlineSet {
    type Output = NewlineSet;

    /// The intersection of the set and the set
    fn bitand(self, rhs: NewlineSet) -> (nlset: NewlineSet)
        ensures
            nlset.wf(),
            nlset@ == self@.intersect(rhs@),
    {
        proof {
            lemma_sorted_members(self@.intersect(rhs@));
        }
        let nlset = self.intersection(rhs).into_newline_set();
        proof {
            nlset.lemma_of();
        }
        nlset
    }
}

impl BitAndSpecImpl<NewlineSet> for NewlineSet {
    open spec fn obeys_bitand_spec() -> bool {
        true
    }

    open spec fn bitand_req(self, rhs: NewlineSet) -> bool {
        self.wf() && rhs.wf()
    }

    open spec fn bitand_spec(self, rhs: NewlineSet) -> NewlineSet {
        NewlineSet::of(self@.intersect(rhs@))
    }
}

impl core::ops::BitAnd<Newline> for NewlineSet {
    type Output = NewlineSet;

    /// The intersection of the set and the newline sequence
    fn bitand(self, rhs: Newline) -> (nlset: NewlineSet)
        ensures
            nlset.wf(),
            nlset@ == self@.intersect(set![rhs]),
    {
        self & NewlineSet::from(rhs)
    }
}

impl BitAndSpecImpl<Newline> for NewlineSet {
    open spec fn obeys_bitand_spec() -> bool {
        true
    }

    open spec fn bitand_req(self, rhs: Newline) -> bool {
        self.wf()
    }

    open spec fn bitand_spec(self, rhs: Newline) -> NewlineSet {
        NewlineSet::of(self@.intersect(set![rhs]))
    }
}

impl core::ops::BitAnd<NewlineSet> for Newline {
    type Output = NewlineSet;

    /// The intersection of the newline sequence and the set
    fn bitand(self, rhs: NewlineSet) -> (nlset: NewlineSet)
        ensures
            nlset.wf(),
            nlset@ == set![self].intersect(rhs@),
    {
        let nlset = if rhs.contains(self) {
            NewlineSet::from(self)
        } else {
            NewlineSet::new()
        };
        proof {
            assert(nlset@ =~= set![self].intersect(rhs@));
            nlset.lemma_of();
        }
        nlset
    }
}

impl BitAndSpecImpl<NewlineSet> for Newline {
    open spec fn obeys_bitand_spec() -> bool {
        true
    }

    open spec fn bitand_req(self, rhs: NewlineSet) -> bool {
        rhs.wf()
    }

    open spec fn bitand_spec(self, rhs: NewlineSet) -> NewlineSet {
        NewlineSet::of(set![self].intersect(rhs@))
    }
}

impl core::ops::BitAnd<Newline> for Newline {
    type Output = NewlineSet;

    /// The intersection of the newline sequence and the newline sequence
    fn bitand(self, rhs: Newline) -> (nlset: NewlineSet)
        ensures
            nlset.wf(),
            nlset@ == set![self].intersect(set![rhs]),
    {
        self & NewlineSet::from(rhs)
    }
}

impl BitAndSpecImpl<Newline> for Newline {
    open spec fn obeys_bitand_spec() -> bool {
        true
    }

    open spec fn bitand_req(self, rhs: Newline) -> bool {
        true
    }

    open spec fn bitand_spec(self, rhs: Newline) -> NewlineSet {
        NewlineSet::of(set![self].intersect(set![rhs]))
    }
}

impl core::ops::BitOr<NewlineSet> for NewlineSet {
    type Output = NewlineSet;

    /// The union of the set and the set
    fn bitor(self, rhs: NewlineSet) -> (nlset: NewlineSet)
        ensures
            nlset.wf(),
            nlset@ == self@.union(rhs@),
    {
        proof {
            lemma_sorted_members(self@.union(rhs@));
        }
        let nlset = self.union(rhs).into_newline_set();
        proof {
            nlset.lemma_of();
        }
        nlset
    }
}

impl BitOrSpecImpl<NewlineSet> for NewlineSet {
    open spec fn obeys_bitor_spec() -> bool {
        true
    }

    open spec fn bitor_req(self, rhs: NewlineSet) -> bool {
        self.wf() && rhs.wf()
    }

    open spec fn bitor_spec(self, rhs: NewlineSet) -> NewlineSet {
        NewlineSet::of(self@.union(rhs@))
    }
}

impl core::ops::BitOr<Newline> for NewlineSet {
    type Output = NewlineSet;

    /// The union of the set and the newline sequence
    fn bitor(self, rhs: Newline) -> (nlset: NewlineSet)
        ensures
            nlset.wf(),
            nlset@ == self@.union(set![rhs]),
    {
        self | NewlineSet::from(rhs)
    }
}

impl BitOrSpecImpl<Newline> for NewlineSet {
    open spec fn obeys_bitor_spec() -> bool {
        true
    }

    open spec fn bitor_req(self, rhs: Newline) -> bool {
        self.wf()
    }

    open spec fn bitor_spec(self, rhs: Newline) -> NewlineSet {
        NewlineSet::of(self@.union(set![rhs]))
    }
}

impl core::ops::BitOr<NewlineSet> for Newline {
    type Output = NewlineSet;

    /// The union of the newline sequence and the set
    fn bitor(self, rhs: NewlineSet) -> (nlset: NewlineSet)
        ensures
            nlset.wf(),
            nlset@ == set![self].union(rhs@),
    {
        let mut nlset = rhs;
        nlset.insert(self);
        proof {
            assert(nlset@ =~= set![self].union(rhs@));
            nlset.lemma_of();
        }
        nlset
    }
}

impl BitOrSpecImpl<NewlineSet> for Newline {
    open spec fn obeys_bitor_spec() -> bool {
        true
    }

    open spec fn bitor_req(self, rhs: NewlineSet) -> bool {
        rhs.wf()
    }

    open spec fn bitor_spec(self, rhs: NewlineSet) -> NewlineSet {
        NewlineSet::of(set![self].union(rhs@))
    }
}

impl core::ops::BitOr<Newline> for Newline {
    type Output = NewlineSet;

    /// The union of the newline sequence and the newline sequence
    fn bitor(self, rhs: Newline) -> (nlset: NewlineSet)
        ensures
            nlset.wf(),
            nlset@ == set![self].union(set![rhs]),
    {
        self | NewlineSet::from(rhs)
    }
}

impl BitOrSpecImpl<Newline> for Newline {
    open spec fn obeys_bitor_spec() -> bool {
        true
    }

    open spec fn bitor_req(self, rhs: Newline) -> bool {
        true
    }

    open spec fn bitor_spec(self, rhs: Newline) -> NewlineSet {
        NewlineSet::of(set![self].union(set![rhs]))
    }
}

impl core::ops::BitXor<NewlineSet> for NewlineSet {
    type Output = NewlineSet;

    /// The symmetric difference of the set and the set
    fn bitxor(self, rhs: NewlineSet) -> (nlset: NewlineSet)
        ensures
            nlset.wf(),
            nlset@ == self@.difference(rhs@).union(rhs@.difference(self@)),
    {
        proof {
            lemma_sorted_members(self@.difference(rhs@).union(rhs@.difference(self@)));
        }
        let nlset = self.symmetric_difference(rhs).into_newline_set();
        proof {
            nlset.lemma_of();
        }
        nlset
    }
}

impl BitXorSpecImpl<NewlineSet> for NewlineSet {
    open spec fn obeys_bitxor_spec() -> bool {
        true
    }

    open spec fn bitxor_req(self, rhs: NewlineSet) -> bool {
        self.wf() && rhs.wf()
    }

    open spec fn bitxor_spec(self, rhs: NewlineSet) -> NewlineSet {
        NewlineSet::of(self@.difference(rhs@).union(rhs@.difference(self@)))
    }
}

impl core::ops::BitXor<Newline> for NewlineSet {
    type Output = NewlineSet;

    /// The symmetric difference of the set and the newline sequence
    fn bitxor(self, rhs: Newline) -> (nlset: NewlineSet)
        ensures
            nlset.wf(),
            nlset@ == self@.difference(set![rhs]).union(set![rhs].difference(self@)),
    {
        self ^ NewlineSet::from(rhs)
    }
}

impl BitXorSpecImpl<Newline> for NewlineSet {
    open spec fn obeys_bitxor_spec() -> bool {
        true
    }

    open spec fn bitxor_req(self, rhs: Newline) -> bool {
        self.wf()
    }

    open spec fn bitxor_spec(self, rhs: Newline) -> NewlineSet {
        NewlineSet::of(self@.difference(set![rhs]).union(set![rhs].difference(self@)))
    }
}

impl core::ops::BitXor<NewlineSet> for Newline {
    type Output = NewlineSet;

    /// The symmetric difference of the newline sequence and the set
    fn bitxor(self, rhs: NewlineSet) -> (nlset: NewlineSet)
        ensures
            nlset.wf(),
            nlset@ == set![self].difference(rhs@).union(rhs@.difference(set![self])),
    {
        let mut nlset = rhs;
        if !nlset.remove(self) {
            nlset.insert(self);
        }
        proof {
            assert(nlset@ =~= set![self].difference(rhs@).union(rhs@.difference(set![self])));
            nlset.lemma_of();
        }
        nlset
    }
}

impl BitXorSpecImpl<NewlineSet> for Newline {
    open spec fn obeys_bitxor_spec() -> bool {
        true
    }

    open spec fn bitxor_req(self, rhs: NewlineSet) -> bool {
        rhs.wf()
    }

    open spec fn bitxor_spec(self, rhs: NewlineSet) -> NewlineSet {
        NewlineSet::of(set![self].difference(rhs@).union(rhs@.difference(set![self])))
    }
}

impl core::ops::BitXor<Newline> for Newline {
    type Output = NewlineSet;

    /// The symmetric difference of the newline sequence and the newline sequence
    fn bitxor(self, rhs: Newline) -> (nlset: NewlineSet)
        ensures
            nlset.wf(),
            nlset@ == set![self].difference(set![rhs]).union(set![rhs].difference(set![self])),
    {
        self ^ NewlineSet::from(rhs)
    }
}

impl BitXorSpecImpl<Newline> for Newline {
    open spec fn obeys_bitxor_spec() -> bool {
        true
    }

    open spec fn bitxor_req(self, rhs: Newline) -> bool {
        true
    }

    open spec fn bitxor_spec(self, rhs: Newline) -> NewlineSet {
        NewlineSet::of(set![self].difference(set![rhs]).union(set![rhs].difference(set![self])))
    }
}

impl core::ops::Sub<NewlineSet> for NewlineSet {
    type Output = NewlineSet;

    /// The difference of the set and the set
    fn sub(self, rhs: NewlineSet) -> (nlset: NewlineSet)
        ensures
            nlset.wf(),
            nlset@ == self@.difference(rhs@),
    {
        proof {
            lemma_sorted_members(self@.difference(rhs@));
        }
        let nlset = self.difference(rhs).into_newline_set();
        proof {
            nlset.lemma_of();
        }
        nlset
    }
}

impl SubSpecImpl<NewlineSet> for NewlineSet {
    open spec fn obeys_sub_spec() -> bool {
        true
    }

    open spec fn sub_req(self, rhs: NewlineSet) -> bool {
        self.wf() && rhs.wf()
    }

    open spec fn sub_spec(self, rhs: NewlineSet) -> NewlineSet {
        NewlineSet::of(self@.difference(rhs@))
    }
}

impl core::ops::Sub<Newline> for NewlineSet {
    type Output = NewlineSet;

    /// The difference of the set and the newline sequence
    fn sub(self, rhs: Newline) -> (nlset: NewlineSet)
        ensures
            nlset.wf(),
            nlset@ == self@.difference(set![rhs]),
    {
        self - NewlineSet::from(rhs)
    }
}

impl SubSpecImpl<Newline> for NewlineSet {
    open spec fn obeys_sub_spec() -> bool {
        true
    }

    open spec fn sub_req(self, rhs: Newline) -> bool {
        self.wf()
    }

    open spec fn sub_spec(self, rhs: Newline) -> NewlineSet {
        NewlineSet::of(self@.difference(set![rhs]))
    }
}

impl core::ops::Sub<NewlineSet> for Newline {
    type Output = NewlineSet;

    /// The difference of the newline sequence and the set
    fn sub(self, rhs: NewlineSet) -> (nlset: NewlineSet)
        ensures
            nlset.wf(),
            nlset@ == set![self].difference(rhs@),
    {
        let nlset = if rhs.contains(self) {
            NewlineSet::new()
        } else {
            NewlineSet::from(self)
        };
        proof {
            assert(nlset@ =~= set![self].difference(rhs@));
            nlset.lemma_of();
        }
        nlset
    }
}

impl SubSpecImpl<NewlineSet> for Newline {
    open spec fn obeys_sub_spec() -> bool {
        true
    }

    open spec fn sub_req(self, rhs: NewlineSet) -> bool {
        rhs.wf()
    }

    open spec fn sub_spec(self, rhs: NewlineSet) -> NewlineSet {
        NewlineSet::of(set![self].difference(rhs@))
    }
}

impl core::ops::Sub<Newline> for Newline {
    type Output = NewlineSet;

    /// The difference of the newline sequence and the newline sequence
    fn sub(self, rhs: Newline) -> (nlset: NewlineSet)
        ensures
            nlset.wf(),
            nlset@ == set![self].difference(set![rhs]),
    {
        self - NewlineSet::from(rhs)
    }
}

impl SubSpecImpl<Newline> for Newline {
    open spec fn obeys_sub_spec() -> bool {
        true
    }

    open spec fn sub_req(self, rhs: Newline) -> bool {
        true
    }

    open spec fn sub_spec(self, rhs: Newline) -> NewlineSet {
        NewlineSet::of(set![self].difference(set![rhs]))
    }
}

impl core::ops::Not for NewlineSet {
    type Output = NewlineSet;

    /// The complement of the set: the set of the newline sequences that are
    /// not in it
    fn not(self) -> (nlset: NewlineSet)
        ensures
            nlset.wf(),
            nlset@ == self@.complement(),
    {
        proof {
            lemma_sorted_members(self@.complement());
        }
        let nlset = self.complement().into_newline_set();
        proof {
            nlset.lemma_of();
        }
        nlset
    }
}

impl NotSpecImpl for NewlineSet {
    open spec fn obeys_not_spec() -> bool {
        true
    }

    open spec fn not_req(self) -> bool {
        self.wf()
    }

    open spec fn not_spec(self) -> NewlineSet {
        NewlineSet::of(self@.complement())
    }
}

impl core::ops::Not for Newline {
    type Output = NewlineSet;

    /// The set of all newline sequences but this one
    fn not(self) -> (nlset: NewlineSet)
        ensures
            nlset.wf(),
            nlset@ == set![self].complement(),
    {
        let mut nlset = NewlineSet::all();
        nlset.remove(self);
        proof {
            assert(nlset@ =~= set![self].complement());
            nlset.lemma_of();
        }
        nlset
    }
}

impl NotSpecImpl for Newline {
    open spec fn obeys_not_spec() -> bool {
        true
    }

    open spec fn not_req(self) -> bool {
        true
    }

    open spec fn not_spec(self) -> NewlineSet {
        NewlineSet::of(set![self].complement())
    }
}

} // verus!
