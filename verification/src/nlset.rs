//! Sets of newline sequences.
use crate::charset::{
    lemma_ascending_unique, lemma_merge, lemma_split, lemma_with_char, merge,
    strictly_ascending, with_char, without_char, CharSet, Diff, CAPACITY,
};
use crate::iter::inner::{Char2Newline, CharSource};
use crate::model::{all_leading, ascending_by_rank, flag_of, lemma_expand_len, lemma_expand_members, lemma_leading_bound, lemma_sorted_members, members_of, sorted_members};
use crate::iter::{Complement, Difference, Intersection, IntoIter, SymmetricDifference, Union};
use crate::nl::{CharType, Newline};
use vstd::prelude::*;
use vstd::std_specs::cmp::PartialEqSpecImpl;
use vstd::std_specs::convert::FromSpecImpl;

verus! {

/// A set of newline sequences that can be used to search for or split on any
/// sequence in the set.
///
/// The set keeps the first characters of its members in a [`CharSet`], the
/// pattern with which a string is searched, and two flags that tell whether
/// the `'\r'` of the pattern stands for `CarriageReturn`, for `CrLf` or for
/// both.
#[derive(Copy, Clone, Debug, Eq, Hash)]
pub struct NewlineSet {
    /// The set of initial characters of the string representations of the
    /// `Newline` variants in the `NewlineSet`.
    ///
    /// `'\r'` is in `pattern` if either or both of `CarriageReturn` and
    /// `CrLf` are in the `NewlineSet`.
    pattern: CharSet,
    /// Whether `CarriageReturn` is in the set
    cr: bool,
    /// Whether `CrLf` is in the set
    crlf: bool,
}

impl View for NewlineSet {
    type V = Set<Newline>;

    /// The newline sequences in the set.
    closed spec fn view(&self) -> Set<Newline> {
        members_of(self.pattern@, self.cr, self.crlf)
    }
}

/// There is room in an ascending run of first characters of newline
/// sequences for one that is missing, and with it they are first characters
/// of newline sequences still.
pub proof fn lemma_room(chars: Seq<char>, ch: char)
    requires
        strictly_ascending(chars),
        all_leading(chars),
        Newline::is_leading_char(ch),
    ensures
        !chars.contains(ch) ==> chars.len() < CAPACITY,
        all_leading(with_char(chars, ch)),
{
    if !chars.contains(ch) {
        let t = with_char(chars, ch);
        lemma_with_char(chars, ch);
        let k = lemma_split(chars, ch);
        assert forall|i: int| 0 <= i < t.len() implies Newline::is_leading_char(
            #[trigger] t[i],
        ) by {
            if i < k {
                assert(t[i] == chars[i]);
            } else if i > k {
                assert(t[i] == chars[i - 1]);
            }
        }
        lemma_leading_bound(t);
    }
}

/// First characters of newline sequences without one of them are first
/// characters of newline sequences still.
proof fn lemma_without_leading(chars: Seq<char>, ch: char)
    requires
        strictly_ascending(chars),
        all_leading(chars),
    ensures
        all_leading(without_char(chars, ch)),
{
    if chars.contains(ch) {
        let t = without_char(chars, ch);
        let k = lemma_split(chars, ch);
        assert forall|i: int| 0 <= i < t.len() implies Newline::is_leading_char(
            #[trigger] t[i],
        ) by {
            if i < k {
                assert(t[i] == chars[i]);
            } else {
                assert(t[i] == chars[i + 1]);
            }
        }
    }
}

/// What a change of one of the two flags does to the members, where `'\r'`
/// is in the pattern.
proof fn lemma_members_flag(p: Seq<char>, cr: bool, crlf: bool)
    requires
        p.contains('\r'),
    ensures
        members_of(p, true, crlf) == members_of(p, cr, crlf).insert(Newline::CarriageReturn),
        members_of(p, cr, true) == members_of(p, cr, crlf).insert(Newline::CrLf),
        members_of(p, false, crlf) == members_of(p, cr, crlf).remove(Newline::CarriageReturn),
        members_of(p, cr, false) == members_of(p, cr, crlf).remove(Newline::CrLf),
{
    assert(members_of(p, true, crlf) =~= members_of(p, cr, crlf).insert(
        Newline::CarriageReturn,
    ));
    assert(members_of(p, cr, true) =~= members_of(p, cr, crlf).insert(Newline::CrLf));
    assert(members_of(p, false, crlf) =~= members_of(p, cr, crlf).remove(
        Newline::CarriageReturn,
    ));
    assert(members_of(p, cr, false) =~= members_of(p, cr, crlf).remove(Newline::CrLf));
}

/// What a new character in the pattern does to the members.
#[verifier::rlimit(40)]
proof fn lemma_members_with(p: Seq<char>, q: Seq<char>, ch: char, cr: bool, crlf: bool)
    requires
        forall|c: char| q.contains(c) <==> (p.contains(c) || c == ch),
        Newline::is_leading_char(ch),
    ensures
        ch != '\r' ==> members_of(q, cr, crlf) == members_of(p, cr, crlf).insert(
            Newline::spec_from_char(ch).unwrap(),
        ),
        ch == '\r' && !p.contains('\r') ==> members_of(q, true, false) == members_of(
            p,
            cr,
            crlf,
        ).insert(Newline::CarriageReturn) && members_of(q, false, true) == members_of(
            p,
            cr,
            crlf,
        ).insert(Newline::CrLf),
{
    assert(q.contains('\n') == (p.contains('\n') || ch == '\n'));
    assert(q.contains('\x0B') == (p.contains('\x0B') || ch == '\x0B'));
    assert(q.contains('\x0C') == (p.contains('\x0C') || ch == '\x0C'));
    assert(q.contains('\r') == (p.contains('\r') || ch == '\r'));
    assert(q.contains('\u{0085}') == (p.contains('\u{0085}') || ch == '\u{0085}'));
    assert(q.contains('\u{2028}') == (p.contains('\u{2028}') || ch == '\u{2028}'));
    assert(q.contains('\u{2029}') == (p.contains('\u{2029}') || ch == '\u{2029}'));
    if ch != '\r' {
        assert(members_of(q, cr, crlf) =~= members_of(p, cr, crlf).insert(
            Newline::spec_from_char(ch).unwrap(),
        ));
    } else if !p.contains('\r') {
        assert(members_of(q, true, false) =~= members_of(p, cr, crlf).insert(
            Newline::CarriageReturn,
        ));
        assert(members_of(q, false, true) =~= members_of(p, cr, crlf).insert(Newline::CrLf));
    }
}

/// What the loss of a character of the pattern does to the members.
#[verifier::rlimit(40)]
proof fn lemma_members_without(p: Seq<char>, q: Seq<char>, ch: char, cr: bool, crlf: bool)
    requires
        forall|c: char| q.contains(c) <==> (p.contains(c) && c != ch),
    ensures
        ch != '\r' && Newline::is_leading_char(ch) ==> members_of(q, cr, crlf) == members_of(
            p,
            cr,
            crlf,
        ).remove(Newline::spec_from_char(ch).unwrap()),
        ch == '\r' ==> members_of(q, false, false) == members_of(p, true, false).remove(
            Newline::CarriageReturn,
        ) && members_of(q, false, false) == members_of(p, false, true).remove(Newline::CrLf),
{
    assert(q.contains('\n') == (p.contains('\n') && ch != '\n'));
    assert(q.contains('\x0B') == (p.contains('\x0B') && ch != '\x0B'));
    assert(q.contains('\x0C') == (p.contains('\x0C') && ch != '\x0C'));
    assert(q.contains('\r') == (p.contains('\r') && ch != '\r'));
    assert(q.contains('\u{0085}') == (p.contains('\u{0085}') && ch != '\u{0085}'));
    assert(q.contains('\u{2028}') == (p.contains('\u{2028}') && ch != '\u{2028}'));
    assert(q.contains('\u{2029}') == (p.contains('\u{2029}') && ch != '\u{2029}'));
    if ch != '\r' && Newline::is_leading_char(ch) {
        assert(members_of(q, cr, crlf) =~= members_of(p, cr, crlf).remove(
            Newline::spec_from_char(ch).unwrap(),
        ));
    } else if ch == '\r' {
        assert(members_of(q, false, false) =~= members_of(p, true, false).remove(
            Newline::CarriageReturn,
        ));
        assert(members_of(q, false, false) =~= members_of(p, false, true).remove(
            Newline::CrLf,
        ));
    }
}

/// Whether the event `d` of the merge of two patterns shows a member that
/// the two sets share: a character other than `'\r'` in both patterns, or a
/// `'\r'` in both that stands for the same member on both sides.
pub open spec fn clash(d: Diff, cr1: bool, crlf1: bool, cr2: bool, crlf2: bool) -> bool {
    match d {
        Diff::Both(c) => c != '\r' || (cr1 && cr2) || (crlf1 && crlf2),
        _ => false,
    }
}

/// Whether the event `d` of the merge of two patterns shows a member of the
/// left set that the right set lacks: a character in the left pattern only,
/// or a `'\r'` in both that stands on the left for a member for which it
/// does not stand on the right.
pub open spec fn excess(d: Diff, cr1: bool, crlf1: bool, cr2: bool, crlf2: bool) -> bool {
    match d {
        Diff::Left(_) => true,
        Diff::Both(c) => c == '\r' && ((cr1 && !cr2) || (crlf1 && !crlf2)),
        Diff::Right(_) => false,
    }
}

/// What a skipped sequence holds in front and behind that.
proof fn lemma_skip_step<A>(m: Seq<A>, k: int)
    requires
        0 <= k < m.len(),
    ensures
        m.skip(k)[0] == m[k],
        m.skip(k).drop_first() == m.skip(k + 1),
        m.skip(k).len() == m.len() - k,
{
    assert(m.skip(k).drop_first() =~= m.skip(k + 1));
}

/// Adds `ch` behind the members of `pattern` if `present` holds.  The
/// members are at most `below`, which is below `ch`.
fn append_if(pattern: &mut CharSet, present: bool, ch: char, Ghost(below): Ghost<char>)
    requires
        old(pattern).wf(),
        old(pattern)@.len() < CAPACITY,
        below < ch,
        forall|i: int| 0 <= i < old(pattern)@.len() ==> old(pattern)@[i] <= below,
    ensures
        final(pattern).wf(),
        final(pattern)@.len() <= old(pattern)@.len() + 1,
        forall|i: int| 0 <= i < final(pattern)@.len() ==> final(pattern)@[i] <= ch,
        forall|c: char|
            final(pattern)@.contains(c) <==> (old(pattern)@.contains(c) || (present && c == ch)),
{
    if present {
        let ghost p = pattern@;
        pattern.append(ch);
        proof {
            let q = pattern@;
            assert forall|c: char| q.contains(c) <==> (p.contains(c) || c == ch) by {
                if q.contains(c) {
                    let i = choose|i: int| 0 <= i < q.len() && q[i] == c;
                    if i < p.len() {
                        assert(p[i] == c);
                    }
                }
                if p.contains(c) {
                    let i = choose|i: int| 0 <= i < p.len() && p[i] == c;
                    assert(q[i] == c);
                }
                if c == ch {
                    assert(q[p.len() as int] == c);
                }
            }
            assert forall|i: int| 0 <= i < q.len() implies q[i] <= ch by {
                if i < p.len() {
                    assert(q[i] == p[i]);
                }
            }
        }
    }
}

impl NewlineSet {
    /// The invariant of the representation: the pattern holds first
    /// characters of newline sequences only, and `'\r'` is among them if and
    /// only if `CarriageReturn` or `CrLf` is in the set.
    pub closed spec fn wf(&self) -> bool {
        &&& self.pattern.wf()
        &&& all_leading(self.pattern@)
        &&& (self.pattern@.contains('\r') <==> (self.cr || self.crlf))
    }

    /// The first characters of the members, in ascending order: the pattern
    /// with which a string is searched for a member of the set.
    pub closed spec fn spec_pattern(&self) -> Seq<char> {
        self.pattern@
    }

    /// The pattern holds the first characters of the members and no others,
    /// in strictly ascending order.
    pub proof fn lemma_pattern(&self)
        requires
            self.wf(),
        ensures
            strictly_ascending(self.spec_pattern()),
            all_leading(self.spec_pattern()),
            self.spec_pattern().len() <= CAPACITY,
            self@ == members_of(
                self.spec_pattern(),
                self@.contains(Newline::CarriageReturn),
                self@.contains(Newline::CrLf),
            ),
            self.spec_pattern().contains('\r') <==> (self@.contains(Newline::CarriageReturn)
                || self@.contains(Newline::CrLf)),
            forall|c: char| #[trigger]
                self.spec_pattern().contains(c) <==> exists|nl: Newline|
                    self@.contains(nl) && nl.leading_char() == c,
    {
        self.pattern.lemma_wf();
        let p = self.pattern@;
        assert(members_of(p, self.cr, self.crlf) =~= members_of(
            p,
            self@.contains(Newline::CarriageReturn),
            self@.contains(Newline::CrLf),
        ));
        assert forall|c: char| #[trigger] p.contains(c) <==> exists|nl: Newline|
            self@.contains(nl) && nl.leading_char() == c by {
            if p.contains(c) {
                let i = choose|i: int| 0 <= i < p.len() && p[i] == c;
                assert(Newline::is_leading_char(p[i]));
                let nl = if c == '\r' {
                    if self.cr {
                        Newline::CarriageReturn
                    } else {
                        Newline::CrLf
                    }
                } else {
                    Newline::spec_from_char(c).unwrap()
                };
                assert(self@.contains(nl) && nl.leading_char() == c);
            }
        }
    }

    /// The number of members is the length of the pattern, and one more
    /// where both `CarriageReturn` and `CrLf` are members, which share a
    /// first character.
    pub proof fn lemma_len(&self)
        requires
            self.wf(),
        ensures
            self@.finite(),
            self@.len() == self.spec_pattern().len() + if self@.contains(Newline::CarriageReturn)
                && self@.contains(Newline::CrLf) {
                1int
            } else {
                0int
            },
            self@.len() <= 8,
    {
        self.pattern.lemma_wf();
        lemma_expand_members(self.pattern@, self.cr, self.crlf);
        lemma_expand_len(self.pattern@, self.cr, self.crlf);
        lemma_sorted_members(self@);
    }

    /// Two well-formed sets with the same members are equal.
    pub proof fn lemma_eq(&self, other: &NewlineSet)
        requires
            self.wf(),
            other.wf(),
            self@ == other@,
        ensures
            *self == *other,
    {
        self.lemma_pattern();
        other.lemma_pattern();
        assert(self.cr == self@.contains(Newline::CarriageReturn));
        assert(other.cr == other@.contains(Newline::CarriageReturn));
        assert(self.crlf == self@.contains(Newline::CrLf));
        assert(other.crlf == other@.contains(Newline::CrLf));
        lemma_ascending_unique(self.pattern@, other.pattern@);
        self.pattern.lemma_eq(&other.pattern);
    }

    /// Create an empty `NewlineSet`
    pub fn new() -> (nlset: NewlineSet)
        ensures
            nlset.wf(),
            nlset@ == Set::<Newline>::empty(),
            nlset.spec_pattern() == Seq::<char>::empty(),
    {
        let nlset = NewlineSet { pattern: CharSet::new(), cr: false, crlf: false };
        assert(nlset@ =~= Set::<Newline>::empty());
        nlset
    }

    /// Builds the set of the newline sequences of which the flag holds
    fn from_flags(
        lf: bool,
        vt: bool,
        ff: bool,
        cr: bool,
        crlf: bool,
        nel: bool,
        ls: bool,
        ps: bool,
    ) -> (nlset: NewlineSet)
        ensures
            nlset.wf(),
            nlset@ == Set::new(|x: Newline| flag_of(x, lf, vt, ff, cr, crlf, nel, ls, ps)),
    {
        let mut pattern = CharSet::new();
        append_if(&mut pattern, lf, '\n', Ghost('\0'));
        append_if(&mut pattern, vt, '\x0B', Ghost('\n'));
        append_if(&mut pattern, ff, '\x0C', Ghost('\x0B'));
        append_if(&mut pattern, cr || crlf, '\r', Ghost('\x0C'));
        append_if(&mut pattern, nel, '\u{0085}', Ghost('\r'));
        append_if(&mut pattern, ls, '\u{2028}', Ghost('\u{0085}'));
        append_if(&mut pattern, ps, '\u{2029}', Ghost('\u{2028}'));
        let nlset = NewlineSet { pattern, cr, crlf };
        proof {
            let p = pattern@;
            assert(p.contains('\n') == lf);
            assert(p.contains('\x0B') == vt);
            assert(p.contains('\x0C') == ff);
            assert(p.contains('\r') == (cr || crlf));
            assert(p.contains('\u{0085}') == nel);
            assert(p.contains('\u{2028}') == ls);
            assert(p.contains('\u{2029}') == ps);
            assert forall|i: int| 0 <= i < p.len() implies Newline::is_leading_char(
                #[trigger] p[i],
            ) by {
                assert(p.contains(p[i]));
            }
            assert(nlset@ =~= Set::new(
                |x: Newline| flag_of(x, lf, vt, ff, cr, crlf, nel, ls, ps),
            ));
        }
        nlset
    }

    /// An empty `NewlineSet`
    pub fn empty() -> (nlset: NewlineSet)
        ensures
            nlset.wf(),
            nlset@ == Set::<Newline>::empty(),
    {
        NewlineSet::new()
    }

    /// The newline sequences recognized by Rust's standard library in methods
    /// like `str::lines()` and `std::io::BufRead::lines()`:
    ///
    /// - [`Newline::LineFeed`]
    /// - [`Newline::CrLf`]
    pub fn rust() -> (nlset: NewlineSet)
        ensures
            nlset.wf(),
            nlset@ == set![Newline::LineFeed, Newline::CrLf],
    {
        let nlset = Self::from_flags(true, false, false, false, true, false, false, false);
        assert(nlset@ =~= set![Newline::LineFeed, Newline::CrLf]);
        nlset
    }

    /// The typical ASCII newline sequences:
    ///
    /// - [`Newline::LineFeed`]
    /// - [`Newline::CarriageReturn`]
    /// - [`Newline::CrLf`]
    pub fn ascii() -> (nlset: NewlineSet)
        ensures
            nlset.wf(),
            nlset@ == set![Newline::LineFeed, Newline::CarriageReturn, Newline::CrLf],
    {
        let nlset = Self::from_flags(true, false, false, true, true, false, false, false);
        assert(nlset@ =~= set![Newline::LineFeed, Newline::CarriageReturn, Newline::CrLf]);
        nlset
    }

    /// Newline sequences classified as "newline functions" by Unicode §5.8,
    /// "Newline Guidelines":
    ///
    /// - [`Newline::LineFeed`]
    /// - [`Newline::CarriageReturn`]
    /// - [`Newline::CrLf`]
    /// - [`Newline::NextLine`]
    pub fn nlf() -> (nlset: NewlineSet)
        ensures
            nlset.wf(),
            nlset@ == set![
                Newline::LineFeed,
                Newline::CarriageReturn,
                Newline::CrLf,
                Newline::NextLine,
            ],
    {
        let nlset = Self::from_flags(true, false, false, true, true, true, false, false);
        assert(nlset@ =~= set![
            Newline::LineFeed,
            Newline::CarriageReturn,
            Newline::CrLf,
            Newline::NextLine,
        ]);
        nlset
    }

    /// Newline sequences that Unicode §5.8, "Newline Guidelines", advises
    /// readline functions to stop at:
    ///
    /// - [`Newline::LineFeed`]
    /// - [`Newline::FormFeed`]
    /// - [`Newline::CarriageReturn`]
    /// - [`Newline::CrLf`]
    /// - [`Newline::NextLine`]
    /// - [`Newline::LineSeparator`]
    /// - [`Newline::ParagraphSeparator`]
    pub fn readline() -> (nlset: NewlineSet)
        ensures
            nlset.wf(),
            nlset@ == Set::<Newline>::full().remove(Newline::VerticalTab),
    {
        let nlset = Self::from_flags(true, false, true, true, true, true, true, true);
        assert(nlset@ =~= Set::<Newline>::full().remove(Newline::VerticalTab));
        nlset
    }

    /// All newline sequences that are treated as mandatory line breaks by the
    /// Unicode Line Breaking Algorithm: all variants of [`Newline`].
    pub fn unicode() -> (nlset: NewlineSet)
        ensures
            nlset.wf(),
            nlset@ == Set::<Newline>::full(),
    {
        NewlineSet::all()
    }

    /// All newline sequences recognized by this library
    pub fn all() -> (nlset: NewlineSet)
        ensures
            nlset.wf(),
            nlset@ == Set::<Newline>::full(),
    {
        let nlset = Self::from_flags(true, true, true, true, true, true, true, true);
        assert(nlset@ =~= Set::<Newline>::full());
        nlset
    }

    /// Returns the number of [`Newline`] variants in the set
    pub fn len(&self) -> (n: usize)
        requires
            self.wf(),
        ensures
            n == self@.len(),
    {
        proof {
            self.lemma_len();
            self.pattern.lemma_wf();
        }
        if self.cr && self.crlf {
            self.pattern.len() + 1
        } else {
            self.pattern.len()
        }
    }

    /// Returns `true` if the set is empty
    pub fn is_empty(&self) -> (b: bool)
        requires
            self.wf(),
        ensures
            b == (self@.len() == 0),
            b == (self@ == Set::<Newline>::empty()),
    {
        proof {
            self.lemma_len();
            if self@.len() == 0 {
                self@.lemma_len0_is_empty();
            }
        }
        self.pattern.is_empty()
    }

    /// Returns a `char` slice that can be used to search a string for any
    /// occurrence of a character that starts a newline sequence in the set
    pub fn pattern(&self) -> (p: &[char])
        requires
            self.wf(),
        ensures
            p@ == self.spec_pattern(),
            strictly_ascending(p@),
            forall|c: char| #[trigger]
                p@.contains(c) <==> exists|nl: Newline|
                    self@.contains(nl) && nl.leading_char() == c,
    {
        proof {
            self.lemma_pattern();
        }
        self.pattern.as_slice()
    }

    /// Returns `true` if the given [`Newline`] is in the set
    pub fn contains(&self, nl: Newline) -> (b: bool)
        requires
            self.wf(),
        ensures
            b == self@.contains(nl),
    {
        match nl.chartype() {
            CharType::Char(ch) => {
                if ch == '\r' {
                    self.cr
                } else {
                    self.pattern.contains(ch)
                }
            },
            CharType::CrLf => self.crlf,
        }
    }

    /// Adds the given [`Newline`] to the set if not already present.
    ///
    /// Returns `true` if the given `Newline` was not already in the set.
    pub fn insert(&mut self, nl: Newline) -> (added: bool)
        requires
            old(self).wf(),
        ensures
            final(self).wf(),
            added == !old(self)@.contains(nl),
            final(self)@ == old(self)@.insert(nl),
            !added ==> *final(self) == *old(self),
    {
        let ghost p = self.pattern@;
        proof {
            self.pattern.lemma_wf();
            if p.contains('\r') {
                lemma_members_flag(p, self.cr, self.crlf);
            }
        }
        let ch = match nl.chartype() {
            CharType::Char(ch) => {
                if ch == '\r' {
                    if self.cr {
                        return false;
                    }
                    self.cr = true;
                    if self.crlf {
                        return true;
                    }
                }
                ch
            },
            CharType::CrLf => {
                if self.crlf {
                    return false;
                }
                self.crlf = true;
                if self.cr {
                    return true;
                }
                '\r'
            },
        };
        proof {
            lemma_room(p, ch);
        }
        let added = self.pattern.insert(ch);
        proof {
            lemma_members_with(p, self.pattern@, ch, old(self).cr, old(self).crlf);
            if !added {
                self.lemma_eq(old(self));
            }
        }
        added
    }

    /// Removes the given [`Newline`] from the set if present.
    ///
    /// Returns `true` if the given `Newline` was present in the set.
    pub fn remove(&mut self, nl: Newline) -> (removed: bool)
        requires
            old(self).wf(),
        ensures
            final(self).wf(),
            removed == old(self)@.contains(nl),
            final(self)@ == old(self)@.remove(nl),
            !removed ==> *final(self) == *old(self),
    {
        let ghost p = self.pattern@;
        proof {
            self.pattern.lemma_wf();
            if p.contains('\r') {
                lemma_members_flag(p, self.cr, self.crlf);
            }
        }
        let ch = match nl.chartype() {
            CharType::Char(ch) => {
                if ch == '\r' {
                    if !self.cr {
                        assert(self@ =~= old(self)@.remove(nl));
                        return false;
                    }
                    self.cr = false;
                    if self.crlf {
                        return true;
                    }
                }
                ch
            },
            CharType::CrLf => {
                if !self.crlf {
                    assert(self@ =~= old(self)@.remove(nl));
                    return false;
                }
                self.crlf = false;
                if self.cr {
                    return true;
                }
                '\r'
            },
        };
        proof {
            lemma_without_leading(p, ch);
        }
        let removed = self.pattern.remove(ch);
        proof {
            lemma_members_without(p, self.pattern@, ch, old(self).cr, old(self).crlf);
            if !removed {
                self.lemma_eq(old(self));
            }
        }
        removed
    }

    /// Removes all [`Newline`]s from the set
    pub fn clear(&mut self)
        ensures
            final(self).wf(),
            final(self)@ == Set::<Newline>::empty(),
    {
        *self = NewlineSet::new();
    }

    /// Returns a copy of the pattern as a [`CharSet`]
    pub fn charset(&self) -> (cs: CharSet)
        requires
            self.wf(),
        ensures
            cs.wf(),
            cs@ == self.spec_pattern(),
            forall|c: char| #[trigger]
                cs@.contains(c) <==> exists|nl: Newline|
                    self@.contains(nl) && nl.leading_char() == c,
    {
        proof {
            self.lemma_pattern();
        }
        self.pattern
    }

    /// Two sets are disjoint if and only if no event of the merge of their
    /// patterns shows a shared member.
    #[verifier::rlimit(40)]
    proof fn lemma_disjoint(&self, other: &NewlineSet)
        requires
            self.wf(),
            other.wf(),
        ensures
            self@.disjoint(other@) <==> forall|j: int|
                0 <= j < merge(self.pattern@, other.pattern@).len() ==> !clash(
                    #[trigger] merge(self.pattern@, other.pattern@)[j],
                    self.cr,
                    self.crlf,
                    other.cr,
                    other.crlf,
                ),
    {
        let l = self.pattern@;
        let r = other.pattern@;
        let m = merge(l, r);
        self.pattern.lemma_wf();
        other.pattern.lemma_wf();
        lemma_merge(l, r);
        let none = forall|j: int|
            0 <= j < m.len() ==> !clash(#[trigger] m[j], self.cr, self.crlf, other.cr, other.crlf);
        if !self@.disjoint(other@) {
            let x = choose|x: Newline| self@.contains(x) && other@.contains(x);
            let c = x.leading_char();
            assert(l.contains(c) && r.contains(c));
            assert(m.contains(Diff::Both(c)));
            let j = choose|j: int| 0 <= j < m.len() && m[j] == Diff::Both(c);
            assert(clash(m[j], self.cr, self.crlf, other.cr, other.crlf));
            assert(!none);
        }
        if !none {
            let j = choose|j: int|
                0 <= j < m.len() && clash(#[trigger] m[j], self.cr, self.crlf, other.cr, other.crlf);
            let c = m[j].ch();
            assert(m.contains(m[j]));
            assert(m[j] == Diff::Both(c));
            assert(m.contains(Diff::Both(c)));
            assert(l.contains(c) && r.contains(c));
            let i = choose|i: int| 0 <= i < l.len() && l[i] == c;
            assert(Newline::is_leading_char(l[i]));
            let x = if c == '\r' {
                if self.cr && other.cr {
                    Newline::CarriageReturn
                } else {
                    Newline::CrLf
                }
            } else {
                Newline::spec_from_char(c).unwrap()
            };
            Self::lemma_member(l, c, self.cr, self.crlf, x);
            Self::lemma_member(r, c, other.cr, other.crlf, x);
            assert(self@.contains(x) && other@.contains(x));
            assert(!self@.disjoint(other@));
        }
    }

    /// A newline sequence whose first character is in the pattern is a
    /// member, if its flag holds where the character is `'\r'`.
    proof fn lemma_member(p: Seq<char>, c: char, cr: bool, crlf: bool, x: Newline)
        requires
            p.contains(c),
            x.leading_char() == c,
            x == Newline::CarriageReturn ==> cr,
            x == Newline::CrLf ==> crlf,
        ensures
            members_of(p, cr, crlf).contains(x),
    {
    }

    /// A set is a subset of another if and only if no event of the merge of
    /// their patterns shows a member that only the first has.
    #[verifier::rlimit(40)]
    proof fn lemma_subset(&self, other: &NewlineSet)
        requires
            self.wf(),
            other.wf(),
        ensures
            self@.subset_of(other@) <==> forall|j: int|
                0 <= j < merge(self.pattern@, other.pattern@).len() ==> !excess(
                    #[trigger] merge(self.pattern@, other.pattern@)[j],
                    self.cr,
                    self.crlf,
                    other.cr,
                    other.crlf,
                ),
    {
        let l = self.pattern@;
        let r = other.pattern@;
        let m = merge(l, r);
        self.pattern.lemma_wf();
        other.pattern.lemma_wf();
        lemma_merge(l, r);
        let none = forall|j: int|
            0 <= j < m.len() ==> !excess(#[trigger] m[j], self.cr, self.crlf, other.cr, other.crlf);
        if !self@.subset_of(other@) {
            let x = choose|x: Newline| self@.contains(x) && !other@.contains(x);
            let c = x.leading_char();
            assert(l.contains(c));
            let d = if r.contains(c) {
                Diff::Both(c)
            } else {
                Diff::Left(c)
            };
            assert(m.contains(d));
            let j = choose|j: int| 0 <= j < m.len() && m[j] == d;
            assert(excess(m[j], self.cr, self.crlf, other.cr, other.crlf));
        }
        if !none {
            let j = choose|j: int|
                0 <= j < m.len() && excess(#[trigger] m[j], self.cr, self.crlf, other.cr, other.crlf);
            let c = m[j].ch();
            assert(m.contains(m[j]));
            match m[j] {
                Diff::Left(_) => {
                    assert(m.contains(Diff::Left(c)));
                },
                Diff::Both(_) => {
                    assert(m.contains(Diff::Both(c)));
                },
                Diff::Right(_) => {},
            }
            assert(l.contains(c));
            let i = choose|i: int| 0 <= i < l.len() && l[i] == c;
            assert(Newline::is_leading_char(l[i]));
            let x = if c == '\r' {
                if self.cr && !(other.cr && r.contains(c)) {
                    Newline::CarriageReturn
                } else {
                    Newline::CrLf
                }
            } else {
                Newline::spec_from_char(c).unwrap()
            };
            Self::lemma_member(l, c, self.cr, self.crlf, x);
            assert(self@.contains(x) && !other@.contains(x));
        }
    }

    /// Returns true if `self` and `other` are disjoint, i.e., if there is no
    /// [`Newline`] variant that is in both sets.
    pub fn is_disjoint(&self, other: NewlineSet) -> (b: bool)
        requires
            self.wf(),
            other.wf(),
        ensures
            b == self@.disjoint(other@),
    {
        let mut events = self.pattern.diff(other.pattern);
        let ghost m = events@;
        let ghost mut k: int = 0;
        proof {
            self.lemma_disjoint(&other);
        }
        loop
            invariant
                events.wf(),
                0 <= k <= m.len(),
                events@ == m.skip(k),
                m == merge(self.pattern@, other.pattern@),
                forall|j: int|
                    0 <= j < k ==> !clash(#[trigger] m[j], self.cr, self.crlf, other.cr, other.crlf),
                self@.disjoint(other@) <==> forall|j: int|
                    0 <= j < m.len() ==> !clash(
                        #[trigger] m[j],
                        self.cr,
                        self.crlf,
                        other.cr,
                        other.crlf,
                    ),
            decreases m.len() - k,
        {
            match events.next() {
                None => {
                    return true;
                },
                Some(d) => {
                    proof {
                        lemma_skip_step(m, k);
                    }
                    match d {
                        Diff::Both(c) => {
                            if c != '\r' || (self.cr && other.cr) || (self.crlf && other.crlf) {
                                assert(clash(m[k], self.cr, self.crlf, other.cr, other.crlf));
                                return false;
                            }
                        },
                        _ => {},
                    }
                    proof {
                        k = k + 1;
                    }
                },
            }
        }
    }

    /// Returns `true` if `self` is a subset of `other`
    pub fn is_subset(&self, other: NewlineSet) -> (b: bool)
        requires
            self.wf(),
            other.wf(),
        ensures
            b == self@.subset_of(other@),
    {
        let mut events = self.pattern.diff(other.pattern);
        let ghost m = events@;
        let ghost mut k: int = 0;
        proof {
            self.lemma_subset(&other);
        }
        loop
            invariant
                events.wf(),
                0 <= k <= m.len(),
                events@ == m.skip(k),
                m == merge(self.pattern@, other.pattern@),
                forall|j: int|
                    0 <= j < k ==> !excess(#[trigger] m[j], self.cr, self.crlf, other.cr, other.crlf),
                self@.subset_of(other@) <==> forall|j: int|
                    0 <= j < m.len() ==> !excess(
                        #[trigger] m[j],
                        self.cr,
                        self.crlf,
                        other.cr,
                        other.crlf,
                    ),
            decreases m.len() - k,
        {
            match events.next() {
                None => {
                    return true;
                },
                Some(d) => {
                    proof {
                        lemma_skip_step(m, k);
                    }
                    match d {
                        Diff::Both(c) => {
                            if c == '\r' && ((self.cr && !other.cr) || (self.crlf && !other.crlf)) {
                                assert(excess(m[k], self.cr, self.crlf, other.cr, other.crlf));
                                return false;
                            }
                        },
                        Diff::Left(_) => {
                            assert(excess(m[k], self.cr, self.crlf, other.cr, other.crlf));
                            return false;
                        },
                        Diff::Right(_) => {},
                    }
                    proof {
                        k = k + 1;
                    }
                },
            }
        }
    }

    /// Returns `true` if `self` is a superset of `other`
    pub fn is_superset(&self, other: NewlineSet) -> (b: bool)
        requires
            self.wf(),
            other.wf(),
        ensures
            b == other@.subset_of(self@),
    {
        other.is_subset(*self)
    }

    /// Returns a traversal of all [`Newline`] variants in `self` and/or
    /// `other`, without duplicates, in ascending order
    pub fn union(self, other: NewlineSet) -> (it: Union)
        requires
            self.wf(),
            other.wf(),
        ensures
            it.wf(),
            it@ == sorted_members(self@.union(other@)),
            ascending_by_rank(it@),
            it@.no_duplicates(),
            forall|x: Newline| it@.contains(x) <==> (self@.contains(x) || other@.contains(x)),
    {
        proof {
            lemma_sorted_members(self@.union(other@));
        }
        Union::new(self, other)
    }

    /// Returns a traversal of all [`Newline`] variants in both `self` and
    /// `other`, without duplicates, in ascending order
    pub fn intersection(self, other: NewlineSet) -> (it: Intersection)
        requires
            self.wf(),
            other.wf(),
        ensures
            it.wf(),
            it@ == sorted_members(self@.intersect(other@)),
    {
        Intersection::new(self, other)
    }

    /// Returns a traversal of all [`Newline`] variants in `self` or `other`
    /// but not both, without duplicates, in ascending order
    pub fn symmetric_difference(self, other: NewlineSet) -> (it: SymmetricDifference)
        requires
            self.wf(),
            other.wf(),
        ensures
            it.wf(),
            it@ == sorted_members(self@.difference(other@).union(other@.difference(self@))),
    {
        SymmetricDifference::new(self, other)
    }

    /// Returns a traversal of all [`Newline`] variants in `self` but not
    /// `other`, without duplicates, in ascending order
    pub fn difference(self, other: NewlineSet) -> (it: Difference)
        requires
            self.wf(),
            other.wf(),
        ensures
            it.wf(),
            it@ == sorted_members(self@.difference(other@)),
    {
        Difference::new(self, other)
    }

    /// Returns a traversal of all [`Newline`] variants not in `self`,
    /// without duplicates, in ascending order
    pub fn complement(self) -> (it: Complement)
        requires
            self.wf(),
        ensures
            it.wf(),
            it@ == sorted_members(self@.complement()),
    {
        Complement::new(self)
    }

    /// Returns a traversal of all [`Newline`] variants in `self`, without
    /// duplicates, in ascending order
    pub fn iter(&self) -> (it: IntoIter)
        requires
            self.wf(),
        ensures
            it.wf(),
            it@ == sorted_members(self@),
    {
        IntoIter::new(*self)
    }

    /// Returns a traversal of all [`Newline`] variants in `self`, without
    /// duplicates, in ascending order
    pub fn into_iter(self) -> (it: IntoIter)
        requires
            self.wf(),
        ensures
            it.wf(),
            it@ == sorted_members(self@),
    {
        IntoIter::new(self)
    }

    /// Between the empty set and itself again: a set with the members of
    /// the empty set and one more, and then without that one, is the empty
    /// set.  So inserting a newline sequence into an empty set and removing
    /// it again gives the empty set back.
    pub proof fn lemma_insert_remove(
        empty: NewlineSet,
        inserted: NewlineSet,
        removed: NewlineSet,
        nl: Newline,
    )
        requires
            empty.wf(),
            inserted.wf(),
            removed.wf(),
            empty@ == Set::<Newline>::empty(),
            inserted@ == empty@.insert(nl),
            removed@ == inserted@.remove(nl),
        ensures
            inserted@ == set![nl],
            removed@ == Set::<Newline>::empty(),
            removed == empty,
    {
        assert(inserted@ =~= set![nl]);
        assert(removed@ =~= empty@);
        removed.lemma_eq(&empty);
    }

    /// Inserting a newline sequence that is a member changes nothing.
    pub proof fn lemma_insert_present(before: NewlineSet, after: NewlineSet, nl: Newline)
        requires
            before.wf(),
            after.wf(),
            before@.contains(nl),
            after@ == before@.insert(nl),
        ensures
            after == before,
    {
        assert(after@ =~= before@);
        after.lemma_eq(&before);
    }

    /// The intersection does not depend on the order of the two sets, and
    /// the intersection of a set with itself is the set: as sets, as the
    /// traversals that [`NewlineSet::intersection`] returns, and as the
    /// values that `&` builds of them.
    pub proof fn lemma_intersection(a: NewlineSet, b: NewlineSet)
        requires
            a.wf(),
            b.wf(),
        ensures
            a@.intersect(b@) == b@.intersect(a@),
            a@.intersect(a@) == a@,
            sorted_members(a@.intersect(b@)) == sorted_members(b@.intersect(a@)),
            sorted_members(a@.intersect(a@)) == sorted_members(a@),
            Self::of(a@.intersect(b@)) == Self::of(b@.intersect(a@)),
            Self::of(a@.intersect(a@)) == a,
    {
        assert(a@.intersect(b@) =~= b@.intersect(a@));
        assert(a@.intersect(a@) =~= a@);
        a.lemma_of();
    }

    /// What is in a set but not in another is disjoint from the other, and
    /// together with what is in both it is the set.
    pub proof fn lemma_difference(a: NewlineSet, b: NewlineSet)
        requires
            a.wf(),
            b.wf(),
        ensures
            a@.difference(b@).disjoint(b@),
            a@.difference(b@).union(a@.intersect(b@)) == a@,
            Self::of(a@.difference(b@).union(a@.intersect(b@))) == a,
    {
        assert(a@.difference(b@).union(a@.intersect(b@)) =~= a@);
        a.lemma_of();
    }

    /// The complement of the complement of a set is the set, and a set is
    /// disjoint from its complement.
    pub proof fn lemma_complement(a: NewlineSet)
        requires
            a.wf(),
        ensures
            a@.complement().complement() == a@,
            a@.disjoint(a@.complement()),
            Self::of(a@.complement().complement()) == a,
            sorted_members(a@.complement().complement()) == sorted_members(a@),
    {
        assert(a@.complement().complement() =~= a@);
        a.lemma_of();
    }

    /// Builds the set of what `it` yields.  The newline sequences come in
    /// ascending order, so each new first character goes behind the pattern.
    pub fn from_ascending<S: CharSource>(it: Char2Newline<S>) -> (nlset: NewlineSet)
        requires
            it.wf(),
        ensures
            nlset.wf(),
            nlset@ == it@.to_set(),
    {
        let mut rest = it;
        let mut nlset = NewlineSet::new();
        let mut prev_char: Option<char> = None;
        let ghost start = it@;
        let ghost mut k: int = 0;
        proof {
            it.lemma_view();
            assert(start.take(0).to_set() =~= Set::<Newline>::empty());
        }
        loop
            invariant
                rest.wf(),
                nlset.wf(),
                start == it@,
                ascending_by_rank(start),
                0 <= k <= start.len(),
                rest@ == start.skip(k),
                nlset@ == start.take(k).to_set(),
                k == 0 ==> prev_char is None && nlset.pattern@.len() == 0,
                k > 0 ==> prev_char == Some(start[k - 1].leading_char()) && nlset.pattern@.len()
                    > 0 && nlset.pattern@.last() == start[k - 1].leading_char(),
            decreases start.len() - k,
        {
            match rest.next() {
                None => {
                    assert(start.take(k) =~= start);
                    return nlset;
                },
                Some(nl) => {
                    let ghost p = nlset.pattern@;
                    let ghost before = nlset;
                    proof {
                        lemma_skip_step(start, k);
                        nlset.pattern.lemma_wf();
                        if k > 0 {
                            assert(start[k - 1].rank() < start[k].rank());
                            start[k - 1].lemma_order(nl);
                        }
                        assert(start.take(k + 1).to_set() =~= start.take(k).to_set().insert(nl)) by {
                            let t = start.take(k);
                            let u = start.take(k + 1);
                            assert(u =~= t.push(nl));
                            assert forall|x: Newline| u.to_set().contains(x) <==> (t.to_set().contains(
                                x,
                            ) || x == nl) by {
                                if u.contains(x) {
                                    let i = choose|i: int| 0 <= i < u.len() && u[i] == x;
                                    if i < k {
                                        assert(t[i] == x);
                                    }
                                }
                                if t.contains(x) {
                                    let i = choose|i: int| 0 <= i < t.len() && t[i] == x;
                                    assert(u[i] == x);
                                }
                                if x == nl {
                                    assert(u[k] == x);
                                }
                            }
                        }
                        if p.contains('\r') {
                            lemma_members_flag(p, nlset.cr, nlset.crlf);
                        }
                    }
                    let ch = match nl.chartype() {
                        CharType::Char(ch) => {
                            if ch == '\r' {
                                nlset.cr = true;
                            }
                            ch
                        },
                        CharType::CrLf => {
                            nlset.crlf = true;
                            '\r'
                        },
                    };
                    let fresh = match prev_char {
                        Some(c) => c != ch,
                        None => true,
                    };
                    if fresh {
                        proof {
                            let q = p.push(ch);
                            assert forall|i: int, j: int| 0 <= i < j < q.len() implies q[i]
                                < q[j] by {
                                if j == p.len() {
                                    if i < p.len() - 1 {
                                        assert(p[i] < p[p.len() - 1]);
                                    }
                                }
                            }
                            assert forall|i: int| 0 <= i < p.len() implies p[i] < ch by {
                                assert(q[i] < q[p.len() as int]);
                            }
                            assert(all_leading(q)) by {
                                assert forall|i: int| 0 <= i < q.len() implies Newline::is_leading_char(
                                    #[trigger] q[i],
                                ) by {
                                    if i < p.len() {
                                        assert(q[i] == p[i]);
                                    }
                                }
                            }
                            lemma_leading_bound(q);
                            assert forall|c: char| q.contains(c) <==> (p.contains(c) || c == ch) by {
                                if q.contains(c) {
                                    let i = choose|i: int| 0 <= i < q.len() && q[i] == c;
                                    if i < p.len() {
                                        assert(p[i] == c);
                                    }
                                }
                                if p.contains(c) {
                                    let i = choose|i: int| 0 <= i < p.len() && p[i] == c;
                                    assert(q[i] == c);
                                }
                                if c == ch {
                                    assert(q[p.len() as int] == c);
                                }
                            }
                            assert(!p.contains(ch)) by {
                                if p.contains(ch) {
                                    let i = choose|i: int| 0 <= i < p.len() && p[i] == ch;
                                    assert(p[i] < ch);
                                }
                            }
                            lemma_members_with(p, q, ch, before.cr, before.crlf);
                        }
                        nlset.pattern.append(ch);
                    } else {
                        assert(p[p.len() - 1] == ch);
                        assert(ch == '\r');
                    }
                    prev_char = Some(ch);
                    proof {
                        assert(nlset.pattern@.last() == ch);
                        k = k + 1;
                    }
                },
            }
        }
    }
}

impl PartialEq for NewlineSet {
    /// Two sets are equal when they hold the same pattern and the same flags.
    fn eq(&self, other: &NewlineSet) -> (b: bool) {
        self.pattern == other.pattern && self.cr == other.cr && self.crlf == other.crlf
    }
}

impl PartialEqSpecImpl for NewlineSet {
    open spec fn obeys_eq_spec() -> bool {
        true
    }

    open spec fn eq_spec(&self, other: &NewlineSet) -> bool {
        *self == *other
    }
}

impl Default for NewlineSet {
    /// The empty set
    fn default() -> (nlset: NewlineSet)
        ensures
            nlset.wf(),
            nlset@ == Set::<Newline>::empty(),
    {
        NewlineSet::new()
    }
}

impl NewlineSet {
    /// The well-formed set with the members `s`.
    pub closed spec fn of(s: Set<Newline>) -> NewlineSet {
        choose|x: NewlineSet| x.wf() && x@ == s
    }

    /// A well-formed set is the well-formed set with its members.
    pub proof fn lemma_of(&self)
        requires
            self.wf(),
        ensures
            Self::of(self@) == *self,
    {
        let x = Self::of(self@);
        assert(x.wf() && x@ == self@);
        x.lemma_eq(self);
    }

    /// Builds the set of the given newline sequences, in whatever order and
    /// however often they come
    pub fn from_iter(items: Vec<Newline>) -> (nlset: NewlineSet)
        ensures
            nlset.wf(),
            nlset@ == items@.to_set(),
    {
        let mut nlset = NewlineSet::new();
        nlset.extend(items);
        assert(nlset@ =~= items@.to_set());
        nlset
    }

    /// Adds the given newline sequences to the set
    pub fn extend(&mut self, items: Vec<Newline>)
        requires
            old(self).wf(),
        ensures
            final(self).wf(),
            final(self)@ == old(self)@.union(items@.to_set()),
    {
        let mut i: usize = 0;
        assert(items@.take(0).to_set() =~= Set::<Newline>::empty());
        assert(self@ =~= old(self)@.union(items@.take(0).to_set()));
        while i < items.len()
            invariant
                self.wf(),
                i <= items.len(),
                self@ == old(self)@.union(items@.take(i as int).to_set()),
            decreases items.len() - i,
        {
            let nl = items[i];
            self.insert(nl);
            proof {
                lemma_take_to_set(items@, i as int);
                assert(self@ =~= old(self)@.union(items@.take(i + 1).to_set()));
            }
            i += 1;
        }
        assert(items@.take(i as int) =~= items@);
    }
}

/// The items of a sequence up to and with the one at `k` are those before
/// it and that one.
proof fn lemma_take_to_set(v: Seq<Newline>, k: int)
    requires
        0 <= k < v.len(),
    ensures
        v.take(k + 1).to_set() == v.take(k).to_set().insert(v[k]),
{
    let t = v.take(k);
    let u = v.take(k + 1);
    assert forall|x: Newline| u.to_set().contains(x) <==> (t.to_set().contains(x) || x == v[k]) by {
        if u.contains(x) {
            let i = choose|i: int| 0 <= i < u.len() && u[i] == x;
            if i < k {
                assert(t[i] == x);
            }
        }
        if t.contains(x) {
            let i = choose|i: int| 0 <= i < t.len() && t[i] == x;
            assert(u[i] == x);
        }
        if x == v[k] {
            assert(u[k] == x);
        }
    }
    assert(u.to_set() =~= t.to_set().insert(v[k]));
}

impl From<Newline> for NewlineSet {
    /// The set that holds `nl` alone
    fn from(nl: Newline) -> (nlset: NewlineSet)
        ensures
            nlset.wf(),
            nlset@ == set![nl],
    {
        let mut nlset = NewlineSet::new();
        nlset.insert(nl);
        proof {
            assert(nlset@ =~= set![nl]);
            nlset.lemma_of();
        }
        nlset
    }
}

impl FromSpecImpl<Newline> for NewlineSet {
    open spec fn obeys_from_spec() -> bool {
        true
    }

    open spec fn from_spec(nl: Newline) -> NewlineSet {
        NewlineSet::of(set![nl])
    }
}

impl<const N: usize> From<[Newline; N]> for NewlineSet {
    /// The set of the newline sequences in `arr`, in whatever order and
    /// however often they stand there
    fn from(arr: [Newline; N]) -> (nlset: NewlineSet)
        ensures
            nlset.wf(),
            nlset@ == arr@.to_set(),
    {
        let mut nlset = NewlineSet::new();
        let mut i: usize = 0;
        assert(arr@.take(0).to_set() =~= Set::<Newline>::empty());
        while i < N
            invariant
                nlset.wf(),
                i <= N,
                arr@.len() == N,
                nlset@ == arr@.take(i as int).to_set(),
            decreases N - i,
        {
            let nl = arr[i];
            nlset.insert(nl);
            proof {
                lemma_take_to_set(arr@, i as int);
            }
            i += 1;
        }
        proof {
            assert(arr@.take(i as int) =~= arr@);
            nlset.lemma_of();
        }
        nlset
    }
}

impl<const N: usize> FromSpecImpl<[Newline; N]> for NewlineSet {
    open spec fn obeys_from_spec() -> bool {
        true
    }

    open spec fn from_spec(arr: [Newline; N]) -> NewlineSet {
        NewlineSet::of(arr@.to_set())
    }
}

} // verus!
