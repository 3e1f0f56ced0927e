//! From ascending characters to ascending newline sequences.
use crate::charset::{lemma_drop_first, pops_back, pops_front, strictly_ascending, CharSetIter};
use crate::model::{
    all_leading, ascending_by_rank, ascending_newlines, expand, expand_char, lemma_ascending_buffered, lemma_ascending_newlines, lemma_drop_last, lemma_expand_flags, lemma_expand_last, lemma_expand_len, lemma_expansion, lemma_leading_bound, sorted_members,
};
use crate::nl::Newline;
use vstd::prelude::*;

verus! {

/// The one newline sequence in a buffer, or none.
pub open spec fn buffered(slot: Option<Newline>) -> Seq<Newline> {
    match slot {
        Some(nl) => seq![nl],
        None => Seq::empty(),
    }
}

/// What is still to come of a traversal with the given buffers, source and
/// flags.
pub open spec fn pending(
    queued: Option<Newline>,
    chars: Seq<char>,
    cr: bool,
    crlf: bool,
    queued_back: Option<Newline>,
) -> Seq<Newline> {
    buffered(queued) + expand(chars, cr, crlf) + buffered(queued_back)
}

/// What taking the first character `ch` from the source does to what is
/// still to come, where nothing is buffered in front.
proof fn lemma_front_step(chars: Seq<char>, cr: bool, crlf: bool, queued_back: Option<Newline>)
    requires
        chars.len() > 0,
        strictly_ascending(chars),
        all_leading(chars),
    ensures
        all_leading(chars.drop_first()),
        forall|i: int| 0 <= i < chars.len() - 1 ==> chars.drop_first()[i] > chars[0],
        chars[0] != '\r' ==> Newline::spec_from_char(chars[0]) is Some && pending(
            None,
            chars,
            cr,
            crlf,
            queued_back,
        ) == seq![Newline::spec_from_char(chars[0]).unwrap()] + pending(
            None,
            chars.drop_first(),
            cr,
            crlf,
            queued_back,
        ),
        chars[0] == '\r' && cr && crlf ==> pending(None, chars, cr, crlf, queued_back) == seq![
            Newline::CarriageReturn,
        ] + pending(Some(Newline::CrLf), chars.drop_first(), false, true, queued_back),
        chars[0] == '\r' && cr && !crlf ==> pending(None, chars, cr, crlf, queued_back) == seq![
            Newline::CarriageReturn,
        ] + pending(None, chars.drop_first(), cr, crlf, queued_back),
        chars[0] == '\r' && !cr && crlf ==> pending(None, chars, cr, crlf, queued_back) == seq![
            Newline::CrLf,
        ] + pending(None, chars.drop_first(), cr, crlf, queued_back),
        chars[0] == '\r' && !cr && !crlf ==> pending(None, chars, cr, crlf, queued_back)
            == pending(None, chars.drop_first(), cr, crlf, queued_back),
{
    let ch = chars[0];
    let rest = chars.drop_first();
    let back = buffered(queued_back);
    let none = buffered(None);
    assert(none =~= Seq::<Newline>::empty());
    assert(Newline::is_leading_char(chars[0]));
    assert forall|i: int| 0 <= i < rest.len() implies rest[i] > ch && Newline::is_leading_char(
        #[trigger] rest[i],
    ) by {
        assert(rest[i] == chars[i + 1]);
        assert(chars[0] < chars[i + 1]);
    }
    let head = expand_char(ch, cr, crlf);
    let tail = expand(rest, cr, crlf);
    assert(expand(chars, cr, crlf) == head + tail);
    assert(pending(None, chars, cr, crlf, queued_back) =~= head + (none + tail + back));
    if ch == '\r' && cr && crlf {
        lemma_expand_flags(rest, true, true, false, true);
        assert(head + (none + tail + back) =~= seq![Newline::CarriageReturn] + (buffered(
            Some(Newline::CrLf),
        ) + tail + back));
    } else if ch == '\r' && !cr && !crlf {
        assert(head + (none + tail + back) =~= none + tail + back);
    }
}

/// What taking the last character from the source does to what is still to
/// come, where nothing is buffered behind.
proof fn lemma_back_step(chars: Seq<char>, cr: bool, crlf: bool, queued: Option<Newline>)
    requires
        chars.len() > 0,
        strictly_ascending(chars),
        all_leading(chars),
    ensures
        all_leading(chars.drop_last()),
        forall|i: int| 0 <= i < chars.len() - 1 ==> chars.drop_last()[i] < chars.last(),
        chars.last() != '\r' ==> Newline::spec_from_char(chars.last()) is Some && pending(
            queued,
            chars,
            cr,
            crlf,
            None,
        ) == pending(queued, chars.drop_last(), cr, crlf, None) + seq![
            Newline::spec_from_char(chars.last()).unwrap(),
        ],
        chars.last() == '\r' && cr && crlf ==> pending(queued, chars, cr, crlf, None) == pending(
            queued,
            chars.drop_last(),
            true,
            false,
            Some(Newline::CarriageReturn),
        ) + seq![Newline::CrLf],
        chars.last() == '\r' && !cr && crlf ==> pending(queued, chars, cr, crlf, None) == pending(
            queued,
            chars.drop_last(),
            cr,
            crlf,
            None,
        ) + seq![Newline::CrLf],
        chars.last() == '\r' && cr && !crlf ==> pending(queued, chars, cr, crlf, None) == pending(
            queued,
            chars.drop_last(),
            cr,
            crlf,
            None,
        ) + seq![Newline::CarriageReturn],
        chars.last() == '\r' && !cr && !crlf ==> pending(queued, chars, cr, crlf, None)
            == pending(queued, chars.drop_last(), cr, crlf, None),
{
    let ch = chars.last();
    let rest = chars.drop_last();
    let front = buffered(queued);
    let none = buffered(None);
    assert(none =~= Seq::<Newline>::empty());
    lemma_drop_last(chars);
    lemma_expand_last(chars, cr, crlf);
    assert forall|i: int| 0 <= i < rest.len() implies rest[i] < ch by {
        assert(rest[i] == chars[i]);
        assert(chars[i] < chars[chars.len() - 1]);
    }
    let tail = expand_char(ch, cr, crlf);
    let init = expand(rest, cr, crlf);
    assert(pending(queued, chars, cr, crlf, None) =~= (front + init + none) + tail);
    if ch == '\r' && cr && crlf {
        lemma_expand_flags(rest, true, true, true, false);
        assert((front + init + none) + tail =~= (front + init + buffered(
            Some(Newline::CarriageReturn),
        )) + seq![Newline::CrLf]);
    } else if ch == '\r' && !cr && !crlf {
        assert((front + init + none) + tail =~= front + init + none);
    }
}

/// A source of distinct characters in ascending order, taken one at a time
/// from the front.
pub trait CharSource: Sized {
    /// The invariant of the source.
    spec fn wf(&self) -> bool;

    /// The characters that are still to come.
    spec fn chars(&self) -> Seq<char>;

    /// The characters that are still to come are in strictly ascending order.
    proof fn lemma_chars_ascending(&self)
        requires
            self.wf(),
        ensures
            strictly_ascending(self.chars()),
    ;

    /// Takes the next character from the front
    fn next_char(&mut self) -> (r: Option<char>)
        requires
            old(self).wf(),
        ensures
            final(self).wf(),
            pops_front(old(self).chars(), r, final(self).chars()),
    ;

    /// Returns the number of characters that are still to come
    fn count(&self) -> (n: usize)
        requires
            self.wf(),
        ensures
            n == self.chars().len(),
    ;

    /// Returns `true` if `ch` is among the characters that are still to come
    fn has(&self, ch: char) -> (b: bool)
        requires
            self.wf(),
        ensures
            b == self.chars().contains(ch),
    ;
}

/// A source of characters that can be taken from the back too.
pub trait DoubleEndedCharSource: CharSource {
    /// Takes the next character from the back
    fn next_char_back(&mut self) -> (r: Option<char>)
        requires
            old(self).wf(),
        ensures
            final(self).wf(),
            pops_back(old(self).chars(), r, final(self).chars()),
    ;
}

impl CharSource for CharSetIter {
    open spec fn wf(&self) -> bool {
        CharSetIter::wf(self)
    }

    open spec fn chars(&self) -> Seq<char> {
        self@
    }

    proof fn lemma_chars_ascending(&self) {
        self.lemma_wf();
    }

    fn next_char(&mut self) -> (r: Option<char>) {
        self.next()
    }

    fn count(&self) -> (n: usize) {
        self.size_hint().0
    }

    fn has(&self, ch: char) -> (b: bool) {
        self.contains(ch)
    }
}

impl DoubleEndedCharSource for CharSetIter {
    fn next_char_back(&mut self) -> (r: Option<char>) {
        self.next_back()
    }
}

/// The traversal that turns ascending characters into ascending newline
/// sequences.  A `'\r'` from the source becomes `CarriageReturn`, `CrLf`,
/// both or neither, according to two flags.
#[derive(Copy, Clone, Debug, PartialEq, Eq)]
pub struct Char2Newline<S> {
    inner: S,
    /// Whether a `'\r'` stands for `CarriageReturn`.
    cr: bool,
    /// Whether a `'\r'` stands for `CrLf`.
    crlf: bool,
    /// The `CrLf` that is still to come from the front once its
    /// `CarriageReturn` has been handed out.
    queued: Option<Newline>,
    /// The `CarriageReturn` that is still to come from the back once its
    /// `CrLf` has been handed out.
    queued_back: Option<Newline>,
}

impl<S: CharSource> View for Char2Newline<S> {
    type V = Seq<Newline>;

    /// The newline sequences that are still to come, in ascending order.
    closed spec fn view(&self) -> Seq<Newline> {
        pending(self.queued, self.inner.chars(), self.cr, self.crlf, self.queued_back)
    }
}

impl<S: CharSource> Char2Newline<S> {
    /// The invariant of the traversal: the source holds first characters of
    /// newline sequences only, and a buffered half of a `'\r'` stands on its
    /// side of what is left in the source.
    pub closed spec fn wf(&self) -> bool {
        &&& self.inner.wf()
        &&& all_leading(self.inner.chars())
        &&& (self.queued is Some ==> {
            &&& self.queued == Some(Newline::CrLf)
            &&& self.queued_back is None
            &&& forall|i: int|
                0 <= i < self.inner.chars().len() ==> self.inner.chars()[i] > '\r'
        })
        &&& (self.queued_back is Some ==> {
            &&& self.queued_back == Some(Newline::CarriageReturn)
            &&& forall|i: int|
                0 <= i < self.inner.chars().len() ==> self.inner.chars()[i] < '\r'
        })
    }

    /// What is still to come, as the newline sequences of which a flag holds.
    proof fn lemma_view_flags(&self) -> (f: (bool, bool, bool, bool, bool, bool, bool, bool))
        requires
            self.wf(),
        ensures
            self@ == ascending_newlines(f.0, f.1, f.2, f.3, f.4, f.5, f.6, f.7),
    {
        let chars = self.inner.chars();
        self.inner.lemma_chars_ascending();
        lemma_expansion(chars, self.cr, self.crlf);
        let has_r = chars.contains('\r');
        let lf = chars.contains('\n');
        let vt = chars.contains('\x0B');
        let ff = chars.contains('\x0C');
        let nel = chars.contains('\u{0085}');
        let ls = chars.contains('\u{2028}');
        let ps = chars.contains('\u{2029}');
        let mid = ascending_newlines(lf, vt, ff, has_r && self.cr, has_r && self.crlf, nel, ls, ps);
        assert(expand(chars, self.cr, self.crlf) == mid);
        lemma_ascending_buffered(lf, vt, ff, nel, ls, ps);
        if self.queued is Some {
            assert(!lf && !vt && !ff && !has_r) by {
                if lf || vt || ff || has_r {
                    let ch = if lf {
                        '\n'
                    } else if vt {
                        '\x0B'
                    } else if ff {
                        '\x0C'
                    } else {
                        '\r'
                    };
                    let i = choose|i: int| 0 <= i < chars.len() && chars[i] == ch;
                    assert(chars[i] > '\r');
                }
            }
            assert(self@ =~= seq![Newline::CrLf] + mid);
            (false, false, false, false, true, nel, ls, ps)
        } else if self.queued_back is Some {
            assert(!has_r && !nel && !ls && !ps) by {
                if has_r || nel || ls || ps {
                    let ch = if has_r {
                        '\r'
                    } else if nel {
                        '\u{0085}'
                    } else if ls {
                        '\u{2028}'
                    } else {
                        '\u{2029}'
                    };
                    let i = choose|i: int| 0 <= i < chars.len() && chars[i] == ch;
                    assert(chars[i] < '\r');
                }
            }
            assert(self@ =~= mid + seq![Newline::CarriageReturn]);
            (lf, vt, ff, true, false, false, false, false)
        } else {
            assert(self@ =~= mid);
            (lf, vt, ff, has_r && self.cr, has_r && self.crlf, nel, ls, ps)
        }
    }

    /// What is still to come is in strictly ascending order, without
    /// repetition: it is the ascending enumeration of its own members.
    pub proof fn lemma_view(&self)
        requires
            self.wf(),
        ensures
            self@ == sorted_members(self@.to_set()),
            ascending_by_rank(self@),
            self@.len() <= 8,
    {
        let f = self.lemma_view_flags();
        lemma_ascending_newlines(f.0, f.1, f.2, f.3, f.4, f.5, f.6, f.7);
        let v = ascending_newlines(f.0, f.1, f.2, f.3, f.4, f.5, f.6, f.7);
        let s = v.to_set();
        assert(s.contains(Newline::LineFeed) == f.0) by {
            assert(v.contains(Newline::LineFeed) == f.0);
        }
        assert(s.contains(Newline::VerticalTab) == f.1) by {
            assert(v.contains(Newline::VerticalTab) == f.1);
        }
        assert(s.contains(Newline::FormFeed) == f.2) by {
            assert(v.contains(Newline::FormFeed) == f.2);
        }
        assert(s.contains(Newline::CarriageReturn) == f.3) by {
            assert(v.contains(Newline::CarriageReturn) == f.3);
        }
        assert(s.contains(Newline::CrLf) == f.4) by {
            assert(v.contains(Newline::CrLf) == f.4);
        }
        assert(s.contains(Newline::NextLine) == f.5) by {
            assert(v.contains(Newline::NextLine) == f.5);
        }
        assert(s.contains(Newline::LineSeparator) == f.6) by {
            assert(v.contains(Newline::LineSeparator) == f.6);
        }
        assert(s.contains(Newline::ParagraphSeparator) == f.7) by {
            assert(v.contains(Newline::ParagraphSeparator) == f.7);
        }
    }

    /// Starts the traversal of what the characters of `inner` stand for,
    /// where a `'\r'` stands for `CarriageReturn` if `cr` holds and for `CrLf`
    /// if `crlf` holds.  The characters of `inner` have to be first
    /// characters of newline sequences.
    pub fn new(inner: S, cr: bool, crlf: bool) -> (it: Self)
        requires
            inner.wf(),
            all_leading(inner.chars()),
        ensures
            it.wf(),
            it@ == expand(inner.chars(), cr, crlf),
    {
        let it = Char2Newline { inner, cr, crlf, queued: None, queued_back: None };
        assert(it@ =~= expand(inner.chars(), cr, crlf));
        it
    }

    /// Takes the next newline sequence from the front
    pub fn next(&mut self) -> (r: Option<Newline>)
        requires
            old(self).wf(),
        ensures
            final(self).wf(),
            pops_front(old(self)@, r, final(self)@),
    {
        let ghost start = self@;
        if let Some(nl) = self.queued.take() {
            assert(start =~= seq![nl] + self@);
            assert(self@ =~= start.drop_first());
            return Some(nl);
        }
        loop
            invariant
                self.wf(),
                self.queued is None,
                self@ == start,
                start == old(self)@,
            decreases self.inner.chars().len(),
        {
            let ghost chars = self.inner.chars();
            proof {
                self.inner.lemma_chars_ascending();
            }
            match self.inner.next_char() {
                None => {
                    let r = self.queued_back.take();
                    assert(start =~= buffered(r));
                    assert(self@ =~= Seq::<Newline>::empty());
                    if r.is_some() {
                        assert(self@ =~= start.drop_first());
                    }
                    return r;
                },
                Some(ch) => {
                    proof {
                        lemma_front_step(chars, self.cr, self.crlf, self.queued_back);
                    }
                    if ch == '\r' {
                        if self.cr {
                            if self.crlf {
                                self.queued = Some(Newline::CrLf);
                                self.cr = false;
                            }
                            assert(start == seq![Newline::CarriageReturn] + self@);
                            assert(self@ =~= start.drop_first());
                            return Some(Newline::CarriageReturn);
                        } else if self.crlf {
                            assert(start == seq![Newline::CrLf] + self@);
                            assert(self@ =~= start.drop_first());
                            return Some(Newline::CrLf);
                        }
                    } else {
                        let r = Newline::try_from(ch).ok();
                        assert(start == seq![r.unwrap()] + self@);
                        assert(self@ =~= start.drop_first());
                        return r;
                    }
                },
            }
        }
    }

    /// Returns the number of newline sequences that are still to come, as
    /// lower and upper bound.  The two are equal: the number is exact.
    pub fn size_hint(&self) -> (r: (usize, Option<usize>))
        requires
            self.wf(),
        ensures
            r.0 == self@.len(),
            r.1 == Some(r.0),
    {
        proof {
            self.inner.lemma_chars_ascending();
            lemma_leading_bound(self.inner.chars());
            lemma_expand_len(self.inner.chars(), self.cr, self.crlf);
        }
        let mut n: usize = self.inner.count();
        if self.inner.has('\r') {
            if self.cr && self.crlf {
                n += 1;
            } else if !self.cr && !self.crlf {
                n -= 1;
            }
        }
        if self.queued.is_some() {
            n += 1;
        }
        if self.queued_back.is_some() {
            n += 1;
        }
        (n, Some(n))
    }
}

impl<S: DoubleEndedCharSource> Char2Newline<S> {
    /// Takes the next newline sequence from the back
    pub fn next_back(&mut self) -> (r: Option<Newline>)
        requires
            old(self).wf(),
        ensures
            final(self).wf(),
            pops_back(old(self)@, r, final(self)@),
    {
        let ghost start = self@;
        if let Some(nl) = self.queued_back.take() {
            assert(start =~= self@ + seq![nl]);
            assert(self@ =~= start.drop_last());
            return Some(nl);
        }
        loop
            invariant
                self.wf(),
                self.queued_back is None,
                self@ == start,
                start == old(self)@,
            decreases self.inner.chars().len(),
        {
            let ghost chars = self.inner.chars();
            proof {
                self.inner.lemma_chars_ascending();
            }
            match self.inner.next_char_back() {
                None => {
                    let r = self.queued.take();
                    assert(start =~= buffered(r));
                    assert(self@ =~= Seq::<Newline>::empty());
                    if r.is_some() {
                        assert(self@ =~= start.drop_last());
                    }
                    return r;
                },
                Some(ch) => {
                    proof {
                        lemma_back_step(chars, self.cr, self.crlf, self.queued);
                    }
                    if ch == '\r' {
                        if self.crlf {
                            if self.cr {
                                self.queued_back = Some(Newline::CarriageReturn);
                                self.crlf = false;
                            }
                            assert(start == self@ + seq![Newline::CrLf]);
                            assert(self@ =~= start.drop_last());
                            return Some(Newline::CrLf);
                        } else if self.cr {
                            assert(start == self@ + seq![Newline::CarriageReturn]);
                            assert(self@ =~= start.drop_last());
                            return Some(Newline::CarriageReturn);
                        }
                    } else {
                        let r = Newline::try_from(ch).ok();
                        assert(start == self@ + seq![r.unwrap()]);
                        assert(self@ =~= start.drop_last());
                        return r;
                    }
                },
            }
        }
    }
}

} // verus!
