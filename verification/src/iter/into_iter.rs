//! The traversal of a set from both ends.
use crate::charset::{pops_back, pops_front, CharSetIter};
use crate::iter::inner::Char2Newline;
use crate::model::{ascending_by_rank, lemma_expand_members, sorted_members};
use crate::nl::Newline;
use crate::nlset::NewlineSet;
use vstd::prelude::*;

verus! {

/// Traversal of all [`Newline`] variants in a [`NewlineSet`], from the front
/// and from the back.  Values are unique and yielded in ascending order from
/// the front, in descending order from the back.
///
/// An `IntoIter` instance is acquired by calling [`NewlineSet::iter()`] or
/// [`NewlineSet::into_iter()`].
#[derive(Copy, Clone, Debug, PartialEq, Eq)]
pub struct IntoIter(Char2Newline<CharSetIter>);

impl View for IntoIter {
    type V = Seq<Newline>;

    /// The newline sequences that are still to come, in ascending order.
    closed spec fn view(&self) -> Seq<Newline> {
        self.0@
    }
}

impl IntoIter {
    /// The invariant of the traversal.
    pub closed spec fn wf(&self) -> bool {
        self.0.wf()
    }

    /// What is still to come is in strictly ascending order, without
    /// repetition: it is the ascending enumeration of its own members.
    pub proof fn lemma_view(&self)
        requires
            self.wf(),
        ensures
            self@ == sorted_members(self@.to_set()),
            ascending_by_rank(self@),
            self@.len() <= 8,
    {
        self.0.lemma_view();
    }

    /// Starts the traversal of `nlset`
    pub fn new(nlset: NewlineSet) -> (it: IntoIter)
        requires
            nlset.wf(),
        ensures
            it.wf(),
            it@ == sorted_members(nlset@),
    {
        let cr = nlset.contains(Newline::CarriageReturn);
        let crlf = nlset.contains(Newline::CrLf);
        proof {
            nlset.lemma_pattern();
            lemma_expand_members(nlset.spec_pattern(), cr, crlf);
        }
        IntoIter(Char2Newline::new(nlset.charset().into_iter(), cr, crlf))
    }

    /// Takes the next newline sequence from the front
    pub fn next(&mut self) -> (r: Option<Newline>)
        requires
            old(self).wf(),
        ensures
            final(self).wf(),
            pops_front(old(self)@, r, final(self)@),
    {
        self.0.next()
    }

    /// Takes the next newline sequence from the back
    pub fn next_back(&mut self) -> (r: Option<Newline>)
        requires
            old(self).wf(),
        ensures
            final(self).wf(),
            pops_back(old(self)@, r, final(self)@),
    {
        self.0.next_back()
    }

    /// Returns the number of newline sequences that are still to come, as
    /// lower and upper bound.  The two are equal: the number is exact.
    pub fn size_hint(&self) -> (r: (usize, Option<usize>))
        requires
            self.wf(),
        ensures
            r.0 == self@.len(),
            r.1 == Some(r.0),
    {
        self.0.size_hint()
    }
}

} // verus!
