//! The traversal of what is not in a set.
use crate::charset::pops_front;
use crate::iter::inner::Char2Newline;
use crate::model::{ascending_by_rank, sorted_members};
use crate::iter::merge::{merged, DiffChars, SetOp};
use crate::nl::Newline;
use crate::nlset::NewlineSet;
use vstd::prelude::*;

verus! {

/// Traversal of all [`Newline`] variants not in a given [`NewlineSet`].  Values are
/// unique and yielded in ascending order.
///
/// A `Complement` instance is acquired by calling
/// [`NewlineSet::complement()`].
#[derive(Copy, Clone, Debug, PartialEq, Eq)]
pub struct Complement(Char2Newline<DiffChars>);

impl View for Complement {
    type V = Seq<Newline>;

    /// The newline sequences that are still to come, in ascending order.
    closed spec fn view(&self) -> Seq<Newline> {
        self.0@
    }
}

impl Complement {
    /// The invariant of the traversal.
    pub closed spec fn wf(&self) -> bool {
        self.0.wf()
    }

    /// What is still to come is in strictly ascending order, without
    /// repetition: it is the ascending enumeration of its own members.
    pub proof fn lemma_view(&self)
        requires
            self.wf(),
        ensures
            self@ == sorted_members(self@.to_set()),
            ascending_by_rank(self@),
            self@.len() <= 8,
    {
        self.0.lemma_view();
    }

    /// Starts the traversal of what is not in `nlset`: what is in the set
    /// of all newline sequences but not in `nlset`
    pub fn new(nlset: NewlineSet) -> (it: Complement)
        requires
            nlset.wf(),
        ensures
            it.wf(),
            it@ == sorted_members(nlset@.complement()),
    {
        let all = NewlineSet::all();
        assert(all@.difference(nlset@) =~= nlset@.complement());
        Complement(merged(all, nlset, SetOp::Difference))
    }

    /// Takes the next newline sequence
    pub fn next(&mut self) -> (r: Option<Newline>)
        requires
            old(self).wf(),
        ensures
            final(self).wf(),
            pops_front(old(self)@, r, final(self)@),
    {
        self.0.next()
    }

    /// Returns the number of newline sequences that are still to come, as
    /// lower and upper bound.  The two are equal: the number is exact.
    pub fn size_hint(&self) -> (r: (usize, Option<usize>))
        requires
            self.wf(),
        ensures
            r.0 == self@.len(),
            r.1 == Some(r.0),
    {
        self.0.size_hint()
    }

    /// Builds the set of the newline sequences that are still to come
    pub fn into_newline_set(self) -> (nlset: NewlineSet)
        requires
            self.wf(),
        ensures
            nlset.wf(),
            nlset@ == self@.to_set(),
    {
        NewlineSet::from_ascending(self.0)
    }
}

} // verus!
