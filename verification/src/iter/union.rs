//! The traversal of what is in one or both of two sets.
use crate::charset::pops_front;
use crate::iter::inner::Char2Newline;
use crate::model::{ascending_by_rank, sorted_members};
use crate::iter::merge::{merged, DiffChars, SetOp};
use crate::nl::Newline;
use crate::nlset::NewlineSet;
use vstd::prelude::*;

verus! {

/// Traversal of all [`Newline`] variants in one or both of a given pair of
/// [`NewlineSet`]s.  Values are
/// unique and yielded in ascending order.
///
/// A `Union` instance is acquired by calling [`NewlineSet::union()`].
#[derive(Copy, Clone, Debug, PartialEq, Eq)]
pub struct Union(Char2Newline<DiffChars>);

impl View for Union {
    type V = Seq<Newline>;

    /// The newline sequences that are still to come, in ascending order.
    closed spec fn view(&self) -> Seq<Newline> {
        self.0@
    }
}

impl Union {
    /// The invariant of the traversal.
    pub closed spec fn wf(&self) -> bool {
        self.0.wf()
    }

    /// What is still to come is in strictly ascending order, without
    /// repetition: it is the ascending enumeration of its own members.
    pub proof fn lemma_view(&self)
        requires
            self.wf(),
        ensures
            self@ == sorted_members(self@.to_set()),
            ascending_by_rank(self@),
            self@.len() <= 8,
    {
        self.0.lemma_view();
    }

    /// Starts the traversal of what is in one or both of two sets
    pub fn new(nlset1: NewlineSet, nlset2: NewlineSet) -> (it: Union)
        requires
            nlset1.wf(),
            nlset2.wf(),
        ensures
            it.wf(),
            it@ == sorted_members(nlset1@.union(nlset2@)),
    {
        Union(merged(nlset1, nlset2, SetOp::Union))
    }

    /// Takes the next newline sequence
    pub fn next(&mut self) -> (r: Option<Newline>)
        requires
            old(self).wf(),
        ensures
            final(self).wf(),
            pops_front(old(self)@, r, final(self)@),
    {
        self.0.next()
    }

    /// Returns the number of newline sequences that are still to come, as
    /// lower and upper bound.  The two are equal: the number is exact.
    pub fn size_hint(&self) -> (r: (usize, Option<usize>))
        requires
            self.wf(),
        ensures
            r.0 == self@.len(),
            r.1 == Some(r.0),
    {
        self.0.size_hint()
    }

    /// Builds the set of the newline sequences that are still to come
    pub fn into_newline_set(self) -> (nlset: NewlineSet)
        requires
            self.wf(),
        ensures
            nlset.wf(),
            nlset@ == self@.to_set(),
    {
        NewlineSet::from_ascending(self.0)
    }
}

} // verus!
