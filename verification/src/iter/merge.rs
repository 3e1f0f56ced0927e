//! The characters that a set operation keeps of the merge of two patterns.
use crate::charset::{
    lemma_merge, merge, pops_front, strictly_ascending, CharSet, CharSetDiff, Diff, CAPACITY,
};
use crate::iter::inner::{Char2Newline, CharSource};
use crate::model::{all_leading, lemma_expand_members, members_of, sorted_members};
use crate::nl::Newline;
use crate::nlset::NewlineSet;
use vstd::prelude::*;

verus! {

/// The operations on two sets of newline sequences that are computed from
/// the merge of their patterns.
#[derive(Copy, Clone, Debug, PartialEq, Eq, Hash, Structural)]
pub enum SetOp {
    /// What is in one set or in both.
    Union,
    /// What is in both sets.
    Intersection,
    /// What is in one set but not in both.
    SymmetricDifference,
    /// What is in the left set but not in the right one.
    Difference,
}

impl SetOp {
    /// Whether the operation keeps a character that is in the left pattern
    /// if `in_left` holds and in the right one if `in_right` holds.  A `'\r'`
    /// that is in both patterns may stand for different members on the two
    /// sides, so the two differences keep it and leave the decision to the
    /// flags.
    pub open spec fn selects(self, in_left: bool, in_right: bool, is_cr: bool) -> bool {
        match self {
            SetOp::Union => in_left || in_right,
            SetOp::Intersection => in_left && in_right,
            SetOp::SymmetricDifference => in_left != in_right || (is_cr && in_left && in_right),
            SetOp::Difference => in_left && (!in_right || is_cr),
        }
    }

    /// Whether the operation keeps the character of the event `d`.
    pub open spec fn spec_keeps(self, d: Diff) -> bool {
        match d {
            Diff::Left(c) => self.selects(true, false, c == '\r'),
            Diff::Both(c) => self.selects(true, true, c == '\r'),
            Diff::Right(c) => self.selects(false, true, c == '\r'),
        }
    }

    /// What the operation makes of two sets of newline sequences.
    pub open spec fn apply(self, left: Set<Newline>, right: Set<Newline>) -> Set<Newline> {
        match self {
            SetOp::Union => left.union(right),
            SetOp::Intersection => left.intersect(right),
            SetOp::SymmetricDifference => left.difference(right).union(right.difference(left)),
            SetOp::Difference => left.difference(right),
        }
    }

    /// Returns whether a newline sequence is in the result of the operation,
    /// given whether it is in the left and in the right set
    pub fn combine(self, in_left: bool, in_right: bool) -> (b: bool)
        ensures
            b == self.selects(in_left, in_right, false),
    {
        match self {
            SetOp::Union => in_left || in_right,
            SetOp::Intersection => in_left && in_right,
            SetOp::SymmetricDifference => in_left != in_right,
            SetOp::Difference => in_left && !in_right,
        }
    }

    /// Returns `true` if the operation keeps the character of the event `d`
    pub fn keeps(self, d: Diff) -> (b: bool)
        ensures
            b == self.spec_keeps(d),
    {
        match self {
            SetOp::Union => true,
            SetOp::Intersection => match d {
                Diff::Both(_) => true,
                _ => false,
            },
            SetOp::SymmetricDifference => match d {
                Diff::Left(_) => true,
                Diff::Right(_) => true,
                Diff::Both(c) => c == '\r',
            },
            SetOp::Difference => match d {
                Diff::Left(_) => true,
                Diff::Both(c) => c == '\r',
                Diff::Right(_) => false,
            },
        }
    }
}

/// The characters that `op` keeps of `events`, in their order.
pub open spec fn kept(events: Seq<Diff>, op: SetOp) -> Seq<char>
    decreases events.len(),
{
    if events.len() == 0 {
        Seq::empty()
    } else if op.spec_keeps(events[0]) {
        seq![events[0].ch()] + kept(events.drop_first(), op)
    } else {
        kept(events.drop_first(), op)
    }
}

/// Whether the characters of `events` are in strictly ascending order.
pub open spec fn ascending_events(events: Seq<Diff>) -> bool {
    forall|i: int, j: int|
        0 <= i < j < events.len() ==> (#[trigger] events[i].ch()) < (#[trigger] events[j].ch())
}

/// What is kept of ascending events is ascending, and each kept character
/// is that of an event that is kept.
pub proof fn lemma_kept(events: Seq<Diff>, op: SetOp)
    requires
        ascending_events(events),
    ensures
        strictly_ascending(kept(events, op)),
        kept(events, op).len() <= events.len(),
        forall|i: int|
            0 <= i < kept(events, op).len() ==> exists|j: int|
                0 <= j < events.len() && op.spec_keeps(events[j]) && (#[trigger] events[j].ch())
                    == #[trigger] kept(events, op)[i],
        forall|j: int|
            0 <= j < events.len() && op.spec_keeps(events[j]) ==> kept(events, op).contains(
                #[trigger] events[j].ch(),
            ),
    decreases events.len(),
{
    let k = kept(events, op);
    if events.len() > 0 {
        let rest = events.drop_first();
        let kr = kept(rest, op);
        assert forall|i: int, j: int| 0 <= i < j < rest.len() implies (#[trigger] rest[i].ch()) < (
        #[trigger] rest[j].ch()) by {
            assert(rest[i] == events[i + 1] && rest[j] == events[j + 1]);
        }
        lemma_kept(rest, op);
        let first = events[0].ch();
        let off: int = if op.spec_keeps(events[0]) {
            1
        } else {
            0
        };
        assert(k.len() == kr.len() + off);
        assert forall|i: int| 0 <= i < kr.len() implies k[i + off] == kr[i] by {}
        assert forall|i: int| 0 <= i < kr.len() implies first < #[trigger] kr[i] by {
            let j = choose|j: int|
                0 <= j < rest.len() && op.spec_keeps(rest[j]) && (#[trigger] rest[j].ch())
                    == kr[i];
            assert(rest[j] == events[j + 1]);
            assert(events[0].ch() < events[j + 1].ch());
        }
        assert forall|i: int, j: int| 0 <= i < j < k.len() implies k[i] < k[j] by {
            if i < off {
                assert(k[i] == first);
                assert(k[j] == kr[j - off]);
            } else {
                assert(k[i] == kr[i - off] && k[j] == kr[j - off]);
            }
        }
        assert forall|i: int| 0 <= i < k.len() implies exists|j: int|
            0 <= j < events.len() && op.spec_keeps(events[j]) && (#[trigger] events[j].ch())
                == #[trigger] k[i] by {
            if i < off {
                assert(op.spec_keeps(events[0]) && events[0].ch() == k[i]);
            } else {
                let j = choose|j: int|
                    0 <= j < rest.len() && op.spec_keeps(rest[j]) && (#[trigger] rest[j].ch())
                        == kr[i - off];
                assert(rest[j] == events[j + 1]);
                assert(op.spec_keeps(events[j + 1]) && events[j + 1].ch() == k[i]);
            }
        }
        assert forall|j: int| 0 <= j < events.len() && op.spec_keeps(events[j]) implies k.contains(
            #[trigger] events[j].ch(),
        ) by {
            if j == 0 {
                assert(k[0] == events[0].ch());
            } else {
                assert(rest[j - 1] == events[j]);
                assert(kr.contains(rest[j - 1].ch()));
                let i = choose|i: int| 0 <= i < kr.len() && kr[i] == rest[j - 1].ch();
                assert(k[i + off] == events[j].ch());
            }
        }
    }
}

/// What an operation keeps of the merge of two ascending sequences is
/// ascending, and holds the characters that the operation selects by where
/// they stand.
pub proof fn lemma_kept_merge(l: Seq<char>, r: Seq<char>, op: SetOp)
    requires
        strictly_ascending(l),
        strictly_ascending(r),
    ensures
        strictly_ascending(kept(merge(l, r), op)),
        forall|c: char| #[trigger]
            kept(merge(l, r), op).contains(c) <==> op.selects(
                l.contains(c),
                r.contains(c),
                c == '\r',
            ),
        kept(merge(l, r), op).len() <= l.len() + r.len(),
        all_leading(l) && all_leading(r) ==> all_leading(kept(merge(l, r), op)),
{
    let m = merge(l, r);
    let k = kept(m, op);
    lemma_merge(l, r);
    lemma_kept(m, op);
    assert forall|c: char| #[trigger] k.contains(c) <==> op.selects(
        l.contains(c),
        r.contains(c),
        c == '\r',
    ) by {
        if k.contains(c) {
            let i = choose|i: int| 0 <= i < k.len() && k[i] == c;
            let j = choose|j: int|
                0 <= j < m.len() && op.spec_keeps(m[j]) && (#[trigger] m[j].ch()) == k[i];
            assert(m.contains(m[j]));
            match m[j] {
                Diff::Left(x) => {
                    assert(m.contains(Diff::Left(c)));
                },
                Diff::Both(x) => {
                    assert(m.contains(Diff::Both(c)));
                },
                Diff::Right(x) => {
                    assert(m.contains(Diff::Right(c)));
                },
            }
        }
        if op.selects(l.contains(c), r.contains(c), c == '\r') {
            let d = if l.contains(c) && r.contains(c) {
                Diff::Both(c)
            } else if l.contains(c) {
                Diff::Left(c)
            } else {
                Diff::Right(c)
            };
            assert(m.contains(d));
            let j = choose|j: int| 0 <= j < m.len() && m[j] == d;
            assert(op.spec_keeps(m[j]));
            assert(k.contains(m[j].ch()));
        }
    }
    if all_leading(l) && all_leading(r) {
        assert forall|i: int| 0 <= i < k.len() implies Newline::is_leading_char(
            #[trigger] k[i],
        ) by {
            let j = choose|j: int|
                0 <= j < m.len() && op.spec_keeps(m[j]) && (#[trigger] m[j].ch()) == k[i];
            let c = m[j].ch();
            assert(m.contains(m[j]));
            match m[j] {
                Diff::Left(x) => {
                    assert(m.contains(Diff::Left(c)));
                },
                Diff::Both(x) => {
                    assert(m.contains(Diff::Both(c)));
                },
                Diff::Right(x) => {
                    assert(m.contains(Diff::Right(c)));
                },
            }
            if l.contains(c) {
                let n = choose|n: int| 0 <= n < l.len() && l[n] == c;
                assert(Newline::is_leading_char(l[n]));
            } else {
                let n = choose|n: int| 0 <= n < r.len() && r[n] == c;
                assert(Newline::is_leading_char(r[n]));
            }
        }
    }
}

/// The source of the characters that a set operation keeps of the merge of
/// two patterns.
#[derive(Copy, Clone, Debug, PartialEq, Eq)]
pub struct DiffChars {
    diff: CharSetDiff,
    op: SetOp,
}

impl DiffChars {
    /// Starts the walk of `left` and `right` for the operation `op`
    pub fn new(left: CharSet, right: CharSet, op: SetOp) -> (src: DiffChars)
        requires
            left.wf(),
            right.wf(),
        ensures
            src.wf(),
            src.chars() == kept(merge(left@, right@), op),
    {
        DiffChars { diff: left.diff(right), op }
    }
}

impl CharSource for DiffChars {
    closed spec fn wf(&self) -> bool {
        self.diff.wf()
    }

    closed spec fn chars(&self) -> Seq<char> {
        kept(self.diff@, self.op)
    }

    proof fn lemma_chars_ascending(&self) {
        self.diff.lemma_wf();
        lemma_kept_merge(self.diff.left(), self.diff.right(), self.op);
    }

    fn next_char(&mut self) -> (r: Option<char>) {
        loop
            invariant
                self.wf(),
                self.chars() == old(self).chars(),
            decreases self.diff@.len(),
        {
            let ghost events = self.diff@;
            match self.diff.next() {
                None => {
                    return None;
                },
                Some(d) => {
                    assert(events[0] == d && self.diff@ == events.drop_first());
                    if self.op.keeps(d) {
                        assert(old(self).chars() == seq![d.ch()] + self.chars());
                        assert(self.chars() =~= old(self).chars().drop_first());
                        return Some(d.to_char());
                    }
                },
            }
        }
    }

    fn count(&self) -> (n: usize) {
        let mut rest = *self;
        let mut n: usize = 0;
        proof {
            self.diff.lemma_wf();
            lemma_kept_merge(self.diff.left(), self.diff.right(), self.op);
        }
        loop
            invariant
                rest.wf(),
                n + rest.chars().len() == self.chars().len(),
                self.chars().len() <= 2 * CAPACITY,
            decreases rest.chars().len(),
        {
            match rest.next_char() {
                None => {
                    return n;
                },
                Some(_) => {
                    n += 1;
                },
            }
        }
    }

    fn has(&self, ch: char) -> (b: bool) {
        let mut rest = *self;
        loop
            invariant
                rest.wf(),
                self.chars().contains(ch) == rest.chars().contains(ch),
            decreases rest.chars().len(),
        {
            let ghost before = rest.chars();
            match rest.next_char() {
                None => {
                    return false;
                },
                Some(c) => {
                    if c == ch {
                        assert(before[0] == ch);
                        return true;
                    }
                    proof {
                        let after = rest.chars();
                        if before.contains(ch) {
                            let i = choose|i: int| 0 <= i < before.len() && before[i] == ch;
                            assert(after[i - 1] == ch);
                        }
                        if after.contains(ch) {
                            let i = choose|i: int| 0 <= i < after.len() && after[i] == ch;
                            assert(before[i + 1] == ch);
                        }
                    }
                },
            }
        }
    }
}

/// Whether the newline sequence `x` is among what the characters kept by an
/// operation stand for, with the flags that the operation makes of the flags
/// of the two sets.
#[verifier::rlimit(40)]
proof fn lemma_member_op(
    left: Seq<char>,
    right: Seq<char>,
    chars: Seq<char>,
    op: SetOp,
    cr1: bool,
    crlf1: bool,
    cr2: bool,
    crlf2: bool,
    x: Newline,
)
    requires
        forall|c: char| #[trigger]
            chars.contains(c) <==> op.selects(left.contains(c), right.contains(c), c == '\r'),
        left.contains('\r') <==> (cr1 || crlf1),
        right.contains('\r') <==> (cr2 || crlf2),
    ensures
        members_of(chars, op.selects(cr1, cr2, false), op.selects(crlf1, crlf2, false)).contains(
            x,
        ) == op.selects(
            members_of(left, cr1, crlf1).contains(x),
            members_of(right, cr2, crlf2).contains(x),
            false,
        ),
{
    let c = x.leading_char();
    assert(chars.contains(c) == op.selects(left.contains(c), right.contains(c), c == '\r'));
}

/// The characters that an operation keeps of two patterns, with the flags
/// that it makes of the flags of the two sets, stand for what the operation
/// makes of the two sets.
pub proof fn lemma_members_op(
    left: Seq<char>,
    right: Seq<char>,
    chars: Seq<char>,
    op: SetOp,
    cr1: bool,
    crlf1: bool,
    cr2: bool,
    crlf2: bool,
)
    requires
        forall|c: char| #[trigger]
            chars.contains(c) <==> op.selects(left.contains(c), right.contains(c), c == '\r'),
        left.contains('\r') <==> (cr1 || crlf1),
        right.contains('\r') <==> (cr2 || crlf2),
    ensures
        members_of(chars, op.selects(cr1, cr2, false), op.selects(crlf1, crlf2, false))
            == op.apply(members_of(left, cr1, crlf1), members_of(right, cr2, crlf2)),
{
    let result = members_of(chars, op.selects(cr1, cr2, false), op.selects(crlf1, crlf2, false));
    let a = members_of(left, cr1, crlf1);
    let b = members_of(right, cr2, crlf2);
    assert forall|x: Newline| result.contains(x) == op.selects(
        a.contains(x),
        b.contains(x),
        false,
    ) by {
        lemma_member_op(left, right, chars, op, cr1, crlf1, cr2, crlf2, x);
    }
    match op {
        SetOp::Union => {
            assert(result =~= a.union(b));
        },
        SetOp::Intersection => {
            assert(result =~= a.intersect(b));
        },
        SetOp::SymmetricDifference => {
            assert(result =~= a.difference(b).union(b.difference(a)));
        },
        SetOp::Difference => {
            assert(result =~= a.difference(b));
        },
    }
}

/// Starts the traversal of what `op` makes of `left` and `right`, in
/// ascending order
pub fn merged(left: NewlineSet, right: NewlineSet, op: SetOp) -> (it: Char2Newline<DiffChars>)
    requires
        left.wf(),
        right.wf(),
    ensures
        it.wf(),
        it@ == sorted_members(op.apply(left@, right@)),
{
    let src = DiffChars::new(left.charset(), right.charset(), op);
    let cr1 = left.contains(Newline::CarriageReturn);
    let cr2 = right.contains(Newline::CarriageReturn);
    let crlf1 = left.contains(Newline::CrLf);
    let crlf2 = right.contains(Newline::CrLf);
    let cr = op.combine(cr1, cr2);
    let crlf = op.combine(crlf1, crlf2);
    proof {
        let l = left.spec_pattern();
        let r = right.spec_pattern();
        left.lemma_pattern();
        right.lemma_pattern();
        lemma_kept_merge(l, r, op);
        lemma_members_op(l, r, src.chars(), op, cr1, crlf1, cr2, crlf2);
        lemma_expand_members(src.chars(), cr, crlf);
    }
    Char2Newline::new(src, cr, crlf)
}

} // verus!
