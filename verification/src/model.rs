//! What ascending characters stand for: the newline sequences of a set in
//! their order, as a model for the traversals and the sets.
use crate::charset::strictly_ascending;
use crate::nl::Newline;
use vstd::prelude::*;

verus! {

/// Whether every character of `chars` is the first character of a newline
/// sequence.
pub open spec fn all_leading(chars: Seq<char>) -> bool {
    forall|i: int| 0 <= i < chars.len() ==> Newline::is_leading_char(#[trigger] chars[i])
}

/// The newline sequences that the character `ch` stands for where
/// `CarriageReturn` is wanted if `cr` holds and `CrLf` if `crlf` holds: a
/// `'\r'` gives those of the two that are wanted, `CarriageReturn` first, and
/// any other character the newline sequence that it is.
pub open spec fn expand_char(ch: char, cr: bool, crlf: bool) -> Seq<Newline> {
    if ch == '\r' {
        if cr && crlf {
            seq![Newline::CarriageReturn, Newline::CrLf]
        } else if cr {
            seq![Newline::CarriageReturn]
        } else if crlf {
            seq![Newline::CrLf]
        } else {
            Seq::empty()
        }
    } else {
        match Newline::spec_from_char(ch) {
            Some(nl) => seq![nl],
            None => Seq::empty(),
        }
    }
}

/// The newline sequences that the characters `chars` stand for, in their
/// order.
pub open spec fn expand(chars: Seq<char>, cr: bool, crlf: bool) -> Seq<Newline>
    decreases chars.len(),
{
    if chars.len() == 0 {
        Seq::empty()
    } else {
        expand_char(chars[0], cr, crlf) + expand(chars.drop_first(), cr, crlf)
    }
}

/// Whether the flag of the newline sequence `x` holds.
pub open spec fn flag_of(
    x: Newline,
    lf: bool,
    vt: bool,
    ff: bool,
    cr: bool,
    crlf: bool,
    nel: bool,
    ls: bool,
    ps: bool,
) -> bool {
    match x {
        Newline::LineFeed => lf,
        Newline::VerticalTab => vt,
        Newline::FormFeed => ff,
        Newline::CarriageReturn => cr,
        Newline::CrLf => crlf,
        Newline::NextLine => nel,
        Newline::LineSeparator => ls,
        Newline::ParagraphSeparator => ps,
    }
}

/// The number of flags that hold.
pub open spec fn count_flags(
    lf: bool,
    vt: bool,
    ff: bool,
    cr: bool,
    crlf: bool,
    nel: bool,
    ls: bool,
    ps: bool,
) -> int {
    (if lf { 1int } else { 0int }) + (if vt { 1int } else { 0int }) + (if ff { 1int } else { 0int })
        + (if cr { 1int } else { 0int }) + (if crlf { 1int } else { 0int }) + (if nel {
        1int
    } else {
        0int
    }) + (if ls { 1int } else { 0int }) + (if ps { 1int } else { 0int })
}

/// `nl` alone if `present`, else nothing.
#[verifier::opaque]
pub open spec fn pick_nl(present: bool, nl: Newline) -> Seq<Newline> {
    if present {
        seq![nl]
    } else {
        Seq::empty()
    }
}

/// The newline sequences of which the flag holds, in ascending order.
#[verifier::opaque]
pub open spec fn ascending_newlines(
    lf: bool,
    vt: bool,
    ff: bool,
    cr: bool,
    crlf: bool,
    nel: bool,
    ls: bool,
    ps: bool,
) -> Seq<Newline> {
    pick_nl(lf, Newline::LineFeed) + pick_nl(vt, Newline::VerticalTab) + pick_nl(
        ff,
        Newline::FormFeed,
    ) + pick_nl(cr, Newline::CarriageReturn) + pick_nl(crlf, Newline::CrLf) + pick_nl(
        nel,
        Newline::NextLine,
    ) + pick_nl(ls, Newline::LineSeparator) + pick_nl(ps, Newline::ParagraphSeparator)
}

/// Whether the newline sequences of `v` are in strictly ascending order.
pub open spec fn ascending_by_rank(v: Seq<Newline>) -> bool {
    forall|i: int, j: int|
        0 <= i < j < v.len() ==> (#[trigger] v[i].rank()) < (#[trigger] v[j].rank())
}

/// The newline sequences in `s`, in ascending order.
pub open spec fn sorted_members(s: Set<Newline>) -> Seq<Newline> {
    ascending_newlines(
        s.contains(Newline::LineFeed),
        s.contains(Newline::VerticalTab),
        s.contains(Newline::FormFeed),
        s.contains(Newline::CarriageReturn),
        s.contains(Newline::CrLf),
        s.contains(Newline::NextLine),
        s.contains(Newline::LineSeparator),
        s.contains(Newline::ParagraphSeparator),
    )
}

/// The newline sequences that ascending `chars` stand for, as a set.
pub open spec fn members_of(chars: Seq<char>, cr: bool, crlf: bool) -> Set<Newline> {
    Set::new(
        |nl: Newline|
            flag_of(
                nl,
                chars.contains('\n'),
                chars.contains('\x0B'),
                chars.contains('\x0C'),
                chars.contains('\r') && cr,
                chars.contains('\r') && crlf,
                chars.contains('\u{0085}'),
                chars.contains('\u{2028}'),
                chars.contains('\u{2029}'),
            ),
    )
}

/// The newline sequences that ascending `chars` stand for, written out
/// variant by variant.
pub open spec fn expansion(chars: Seq<char>, cr: bool, crlf: bool) -> Seq<Newline> {
    ascending_newlines(
        chars.contains('\n'),
        chars.contains('\x0B'),
        chars.contains('\x0C'),
        chars.contains('\r') && cr,
        chars.contains('\r') && crlf,
        chars.contains('\u{0085}'),
        chars.contains('\u{2028}'),
        chars.contains('\u{2029}'),
    )
}

/// What the characters stand for can be read from the back as well.
pub proof fn lemma_expand_last(chars: Seq<char>, cr: bool, crlf: bool)
    requires
        chars.len() > 0,
    ensures
        expand(chars, cr, crlf) == expand(chars.drop_last(), cr, crlf) + expand_char(
            chars.last(),
            cr,
            crlf,
        ),
    decreases chars.len(),
{
    let rest = chars.drop_first();
    if rest.len() == 0 {
        assert(chars.drop_last().len() == 0);
        assert(expand(rest, cr, crlf) =~= Seq::empty());
        assert(expand(chars.drop_last(), cr, crlf) =~= Seq::empty());
        assert(expand(chars, cr, crlf) =~= expand_char(chars[0], cr, crlf));
        assert(expand(chars.drop_last(), cr, crlf) + expand_char(chars.last(), cr, crlf)
            =~= expand_char(chars[0], cr, crlf));
    } else {
        lemma_expand_last(rest, cr, crlf);
        let init = chars.drop_last();
        assert(init.drop_first() =~= rest.drop_last());
        assert(init[0] == chars[0]);
        assert(rest.last() == chars.last());
        assert(expand(chars, cr, crlf) =~= expand(init, cr, crlf) + expand_char(
            chars.last(),
            cr,
            crlf,
        ));
    }
}

/// Without a `'\r'` among the characters, the two flags change nothing.
pub proof fn lemma_expand_flags(
    chars: Seq<char>,
    cr1: bool,
    crlf1: bool,
    cr2: bool,
    crlf2: bool,
)
    requires
        forall|i: int| 0 <= i < chars.len() ==> chars[i] != '\r',
    ensures
        expand(chars, cr1, crlf1) == expand(chars, cr2, crlf2),
    decreases chars.len(),
{
    if chars.len() > 0 {
        let rest = chars.drop_first();
        assert forall|i: int| 0 <= i < rest.len() implies rest[i] != '\r' by {
            assert(rest[i] == chars[i + 1]);
        }
        lemma_expand_flags(rest, cr1, crlf1, cr2, crlf2);
        assert(chars[0] != '\r');
    }
}

/// Characters that stand for something are as many as what they stand for,
/// but for a `'\r'`, which stands for nothing, one or two.
pub proof fn lemma_expand_len(chars: Seq<char>, cr: bool, crlf: bool)
    requires
        all_leading(chars),
        strictly_ascending(chars),
    ensures
        expand(chars, cr, crlf).len() == chars.len() + if chars.contains('\r') {
            (if cr { 1int } else { 0int }) + (if crlf { 1int } else { 0int }) - 1
        } else {
            0int
        },
    decreases chars.len(),
{
    if chars.len() > 0 {
        let rest = chars.drop_first();
        assert forall|i: int| 0 <= i < rest.len() implies Newline::is_leading_char(
            #[trigger] rest[i],
        ) by {
            assert(rest[i] == chars[i + 1]);
        }
        assert forall|i: int, j: int| 0 <= i < j < rest.len() implies rest[i] < rest[j] by {
            assert(rest[i] == chars[i + 1] && rest[j] == chars[j + 1]);
        }
        lemma_expand_len(rest, cr, crlf);
        assert(Newline::is_leading_char(chars[0]));
        if chars[0] == '\r' {
            assert(chars.contains('\r'));
            if rest.contains('\r') {
                let i = choose|i: int| 0 <= i < rest.len() && rest[i] == '\r';
                assert(chars[0] < chars[i + 1]);
            }
        } else {
            if chars.contains('\r') {
                let i = choose|i: int| 0 <= i < chars.len() && chars[i] == '\r';
                assert(rest[i - 1] == '\r');
            }
            if rest.contains('\r') {
                let i = choose|i: int| 0 <= i < rest.len() && rest[i] == '\r';
                assert(chars[i + 1] == '\r');
            }
        }
    }
}

/// What is in a sequence without its last item, and that in an ascending
/// sequence the last item is above the others.
pub proof fn lemma_drop_last(chars: Seq<char>)
    requires
        chars.len() > 0,
    ensures
        forall|c: char|
            chars.contains(c) <==> (chars.drop_last().contains(c) || c == chars.last()),
        strictly_ascending(chars) ==> strictly_ascending(chars.drop_last()) && forall|c: char|
            chars.drop_last().contains(c) ==> c < chars.last(),
        all_leading(chars) ==> all_leading(chars.drop_last()) && Newline::is_leading_char(
            chars.last(),
        ),
{
    let init = chars.drop_last();
    let x = chars.last();
    assert forall|c: char| chars.contains(c) <==> (init.contains(c) || c == x) by {
        if chars.contains(c) {
            let i = choose|i: int| 0 <= i < chars.len() && chars[i] == c;
            if i < init.len() {
                assert(init[i] == c);
            }
        }
        if init.contains(c) {
            let i = choose|i: int| 0 <= i < init.len() && init[i] == c;
            assert(chars[i] == c);
        }
        if c == x {
            assert(chars[chars.len() - 1] == c);
        }
    }
    if strictly_ascending(chars) {
        assert forall|i: int, j: int| 0 <= i < j < init.len() implies init[i] < init[j] by {
            assert(init[i] == chars[i] && init[j] == chars[j]);
        }
        assert forall|c: char| init.contains(c) implies c < x by {
            let i = choose|i: int| 0 <= i < init.len() && init[i] == c;
            assert(chars[i] < chars[chars.len() - 1]);
        }
    }
    if all_leading(chars) {
        assert forall|i: int| 0 <= i < init.len() implies Newline::is_leading_char(
            #[trigger] init[i],
        ) by {
            assert(init[i] == chars[i]);
        }
        assert(Newline::is_leading_char(chars[chars.len() - 1]));
    }
}

/// The last of the newline sequences of which the flag holds comes last:
/// `tail` is what the last flag that holds adds behind the others.
proof fn lemma_ascending_newlines_last(
    lf: bool,
    vt: bool,
    ff: bool,
    cr: bool,
    crlf: bool,
    nel: bool,
    ls: bool,
    ps: bool,
    k: int,
)
    requires
        0 <= k < 7,
        k < 6 ==> !ps,
        k < 5 ==> !ls,
        k < 4 ==> !nel,
        k < 3 ==> !cr && !crlf,
        k < 2 ==> !ff,
        k < 1 ==> !vt,
    ensures
        k == 0 ==> ascending_newlines(lf, vt, ff, cr, crlf, nel, ls, ps) == pick_nl(
            lf,
            Newline::LineFeed,
        ),
        k == 1 ==> ascending_newlines(lf, vt, ff, cr, crlf, nel, ls, ps) == ascending_newlines(
            lf,
            false,
            false,
            false,
            false,
            false,
            false,
            false,
        ) + pick_nl(vt, Newline::VerticalTab),
        k == 2 ==> ascending_newlines(lf, vt, ff, cr, crlf, nel, ls, ps) == ascending_newlines(
            lf,
            vt,
            false,
            false,
            false,
            false,
            false,
            false,
        ) + pick_nl(ff, Newline::FormFeed),
        k == 3 ==> ascending_newlines(lf, vt, ff, cr, crlf, nel, ls, ps) == ascending_newlines(
            lf,
            vt,
            ff,
            false,
            false,
            false,
            false,
            false,
        ) + (pick_nl(cr, Newline::CarriageReturn) + pick_nl(crlf, Newline::CrLf)),
        k == 4 ==> ascending_newlines(lf, vt, ff, cr, crlf, nel, ls, ps) == ascending_newlines(
            lf,
            vt,
            ff,
            cr,
            crlf,
            false,
            false,
            false,
        ) + pick_nl(nel, Newline::NextLine),
        k == 5 ==> ascending_newlines(lf, vt, ff, cr, crlf, nel, ls, ps) == ascending_newlines(
            lf,
            vt,
            ff,
            cr,
            crlf,
            nel,
            false,
            false,
        ) + pick_nl(ls, Newline::LineSeparator),
        k == 6 ==> ascending_newlines(lf, vt, ff, cr, crlf, nel, ls, ps) == ascending_newlines(
            lf,
            vt,
            ff,
            cr,
            crlf,
            nel,
            ls,
            false,
        ) + pick_nl(ps, Newline::ParagraphSeparator),
        ascending_newlines(lf, vt, ff, cr, crlf, nel, ls, ps).len() <= 8,
        !cr && !crlf ==> ascending_newlines(lf, vt, ff, cr, crlf, nel, ls, ps).len() <= 6,
{
    reveal(ascending_newlines);
    reveal(pick_nl);
    let all = ascending_newlines(lf, vt, ff, cr, crlf, nel, ls, ps);
    if k == 0 {
        assert(all =~= pick_nl(lf, Newline::LineFeed));
    } else if k == 1 {
        assert(all =~= ascending_newlines(lf, false, false, false, false, false, false, false)
            + pick_nl(vt, Newline::VerticalTab));
    } else if k == 2 {
        assert(all =~= ascending_newlines(lf, vt, false, false, false, false, false, false)
            + pick_nl(ff, Newline::FormFeed));
    } else if k == 3 {
        assert(all =~= ascending_newlines(lf, vt, ff, false, false, false, false, false) + (
        pick_nl(cr, Newline::CarriageReturn) + pick_nl(crlf, Newline::CrLf)));
    } else if k == 4 {
        assert(all =~= ascending_newlines(lf, vt, ff, cr, crlf, false, false, false) + pick_nl(
            nel,
            Newline::NextLine,
        ));
    } else if k == 5 {
        assert(all =~= ascending_newlines(lf, vt, ff, cr, crlf, nel, false, false) + pick_nl(
            ls,
            Newline::LineSeparator,
        ));
    } else {
        assert(all =~= ascending_newlines(lf, vt, ff, cr, crlf, nel, ls, false) + pick_nl(
            ps,
            Newline::ParagraphSeparator,
        ));
    }
}

/// A buffered half of a `'\r'` in front of or behind the other newline
/// sequences stands where the order wants it.
pub proof fn lemma_ascending_buffered(lf: bool, vt: bool, ff: bool, nel: bool, ls: bool, ps: bool)
    ensures
        seq![Newline::CrLf] + ascending_newlines(false, false, false, false, false, nel, ls, ps)
            == ascending_newlines(false, false, false, false, true, nel, ls, ps),
        ascending_newlines(lf, vt, ff, false, false, false, false, false) + seq![
            Newline::CarriageReturn,
        ] == ascending_newlines(lf, vt, ff, true, false, false, false, false),
{
    reveal(ascending_newlines);
    reveal(pick_nl);
    assert(seq![Newline::CrLf] + ascending_newlines(
        false,
        false,
        false,
        false,
        false,
        nel,
        ls,
        ps,
    ) =~= ascending_newlines(false, false, false, false, true, nel, ls, ps));
    assert(ascending_newlines(lf, vt, ff, false, false, false, false, false) + seq![
        Newline::CarriageReturn,
    ] =~= ascending_newlines(lf, vt, ff, true, false, false, false, false));
}

/// What ascending first characters of newline sequences stand for, written
/// out variant by variant.
pub proof fn lemma_expansion(chars: Seq<char>, cr: bool, crlf: bool)
    requires
        all_leading(chars),
        strictly_ascending(chars),
    ensures
        expand(chars, cr, crlf) == expansion(chars, cr, crlf),
    decreases chars.len(),
{
    reveal(pick_nl);
    if chars.len() == 0 {
        assert(!chars.contains('\n') && !chars.contains('\x0B') && !chars.contains('\x0C')
            && !chars.contains('\r') && !chars.contains('\u{0085}') && !chars.contains(
            '\u{2028}',
        ) && !chars.contains('\u{2029}'));
        lemma_ascending_newlines_last(false, false, false, false, false, false, false, false, 0);
        assert(expansion(chars, cr, crlf) =~= Seq::empty());
    } else {
        let init = chars.drop_last();
        let x = chars.last();
        lemma_drop_last(chars);
        lemma_expansion(init, cr, crlf);
        lemma_expand_last(chars, cr, crlf);
        let lf = chars.contains('\n');
        let vt = chars.contains('\x0B');
        let ff = chars.contains('\x0C');
        let r = chars.contains('\r');
        let nel = chars.contains('\u{0085}');
        let ls = chars.contains('\u{2028}');
        let ps = chars.contains('\u{2029}');
        let k: int = if x == '\n' {
            0
        } else if x == '\x0B' {
            1
        } else if x == '\x0C' {
            2
        } else if x == '\r' {
            3
        } else if x == '\u{0085}' {
            4
        } else if x == '\u{2028}' {
            5
        } else {
            6
        };
        assert(init.contains('\n') == (lf && k > 0));
        assert(init.contains('\x0B') == (vt && k > 1));
        assert(init.contains('\x0C') == (ff && k > 2));
        assert(init.contains('\r') == (r && k > 3));
        assert(init.contains('\u{0085}') == (nel && k > 4));
        assert(init.contains('\u{2028}') == (ls && k > 5));
        assert(!init.contains('\u{2029}'));
        lemma_ascending_newlines_last(lf, vt, ff, r && cr, r && crlf, nel, ls, ps, k);
        let tail = expand_char(x, cr, crlf);
        if k == 3 {
            assert(tail =~= pick_nl(r && cr, Newline::CarriageReturn) + pick_nl(
                r && crlf,
                Newline::CrLf,
            ));
        }
        if k == 0 {
            lemma_ascending_newlines_last(false, false, false, false, false, false, false, false, 0);
            assert(expansion(init, cr, crlf) =~= Seq::empty());
            assert(expand(chars, cr, crlf) =~= tail);
        }
        assert(expansion(chars, cr, crlf) == expansion(init, cr, crlf) + tail);
    }
}

/// What ascending first characters of newline sequences stand for is the
/// ascending enumeration of the set that they stand for.
pub proof fn lemma_expand_members(chars: Seq<char>, cr: bool, crlf: bool)
    requires
        all_leading(chars),
        strictly_ascending(chars),
    ensures
        expand(chars, cr, crlf) == sorted_members(members_of(chars, cr, crlf)),
{
    lemma_expansion(chars, cr, crlf);
}

/// There are at most seven ascending first characters of newline sequences.
pub proof fn lemma_leading_bound(chars: Seq<char>)
    requires
        all_leading(chars),
        strictly_ascending(chars),
    ensures
        chars.len() <= 7,
{
    lemma_expansion(chars, true, true);
    lemma_expand_len(chars, true, true);
    let r = chars.contains('\r');
    lemma_ascending_newlines_last(
        chars.contains('\n'),
        chars.contains('\x0B'),
        chars.contains('\x0C'),
        r,
        r,
        chars.contains('\u{0085}'),
        chars.contains('\u{2028}'),
        chars.contains('\u{2029}'),
        6,
    );
}

/// Where a newline sequence comes last among those of which the flag
/// holds, the others are below it.
proof fn lemma_append_pick(a: Seq<Newline>, present: bool, nl: Newline)
    requires
        ascending_by_rank(a),
        a.len() > 0 ==> a.last().rank() < nl.rank(),
    ensures
        ascending_by_rank(a + pick_nl(present, nl)),
        (a + pick_nl(present, nl)).len() > 0 ==> (a + pick_nl(present, nl)).last().rank()
            <= nl.rank(),
        forall|x: Newline|
            (a + pick_nl(present, nl)).contains(x) <==> (a.contains(x) || (present && x == nl)),
        (a + pick_nl(present, nl)).len() == a.len() + if present { 1int } else { 0int },
{
    reveal(pick_nl);
    let b = a + pick_nl(present, nl);
    assert forall|i: int| 0 <= i < a.len() implies a[i].rank() < nl.rank() by {
        if i < a.len() - 1 {
            assert(a[i].rank() < a[a.len() - 1].rank());
        }
    }
    assert forall|x: Newline| b.contains(x) <==> (a.contains(x) || (present && x == nl)) by {
        if b.contains(x) {
            let i = choose|i: int| 0 <= i < b.len() && b[i] == x;
            if i < a.len() {
                assert(a[i] == x);
            }
        }
        if a.contains(x) {
            let i = choose|i: int| 0 <= i < a.len() && a[i] == x;
            assert(b[i] == x);
        }
        if present && x == nl {
            assert(b[a.len() as int] == x);
        }
    }
    assert forall|i: int, j: int| 0 <= i < j < b.len() implies (#[trigger] b[i].rank()) < (
    #[trigger] b[j].rank()) by {
        if j < a.len() {
            assert(b[i] == a[i] && b[j] == a[j]);
        } else {
            assert(b[i] == a[i] && b[j] == nl);
        }
    }
}

/// Whether `v` holds the newline sequences of `s` and no others, in
/// strictly ascending order, none of them above rank `bound`.
#[verifier::opaque]
spec fn enumerates(v: Seq<Newline>, s: Set<Newline>, bound: int) -> bool {
    &&& ascending_by_rank(v)
    &&& forall|x: Newline| v.contains(x) <==> s.contains(x)
    &&& v.len() > 0 ==> v.last().rank() <= bound
}

/// One more newline sequence, above those that are there, behind them.
proof fn lemma_enumerates_step(
    v: Seq<Newline>,
    s: Set<Newline>,
    bound: int,
    present: bool,
    nl: Newline,
)
    requires
        enumerates(v, s, bound),
        bound < nl.rank(),
    ensures
        enumerates(
            v + pick_nl(present, nl),
            if present {
                s.insert(nl)
            } else {
                s
            },
            nl.rank(),
        ),
        (v + pick_nl(present, nl)).len() == v.len() + if present { 1int } else { 0int },
{
    reveal(enumerates);
    lemma_append_pick(v, present, nl);
    let w = v + pick_nl(present, nl);
    let t = if present {
        s.insert(nl)
    } else {
        s
    };
    assert forall|x: Newline| w.contains(x) <==> t.contains(x) by {
        assert(v.contains(x) <==> s.contains(x));
    }
}

/// What [`enumerates`] says.
proof fn lemma_enumerates(v: Seq<Newline>, s: Set<Newline>, bound: int)
    requires
        enumerates(v, s, bound),
    ensures
        ascending_by_rank(v),
        forall|x: Newline| v.contains(x) <==> s.contains(x),
{
    reveal(enumerates);
}

/// The newline sequences of which the flag holds are in strictly ascending
/// order, and they are those of which the flag holds.
pub proof fn lemma_ascending_newlines(
    lf: bool,
    vt: bool,
    ff: bool,
    cr: bool,
    crlf: bool,
    nel: bool,
    ls: bool,
    ps: bool,
)
    ensures
        ascending_by_rank(ascending_newlines(lf, vt, ff, cr, crlf, nel, ls, ps)),
        forall|x: Newline| #[trigger]
            ascending_newlines(lf, vt, ff, cr, crlf, nel, ls, ps).contains(x) <==> flag_of(
                x,
                lf,
                vt,
                ff,
                cr,
                crlf,
                nel,
                ls,
                ps,
            ),
        ascending_newlines(lf, vt, ff, cr, crlf, nel, ls, ps).len() == count_flags(
            lf,
            vt,
            ff,
            cr,
            crlf,
            nel,
            ls,
            ps,
        ),
{
    reveal(ascending_newlines);
    let e = Seq::<Newline>::empty();
    let s = Set::<Newline>::empty();
    let s0 = if lf { s.insert(Newline::LineFeed) } else { s };
    let s1 = if vt { s0.insert(Newline::VerticalTab) } else { s0 };
    let s2 = if ff { s1.insert(Newline::FormFeed) } else { s1 };
    let s3 = if cr { s2.insert(Newline::CarriageReturn) } else { s2 };
    let s4 = if crlf { s3.insert(Newline::CrLf) } else { s3 };
    let s5 = if nel { s4.insert(Newline::NextLine) } else { s4 };
    let s6 = if ls { s5.insert(Newline::LineSeparator) } else { s5 };
    let s7 = if ps { s6.insert(Newline::ParagraphSeparator) } else { s6 };
    let a0 = pick_nl(lf, Newline::LineFeed);
    let a1 = a0 + pick_nl(vt, Newline::VerticalTab);
    let a2 = a1 + pick_nl(ff, Newline::FormFeed);
    let a3 = a2 + pick_nl(cr, Newline::CarriageReturn);
    let a4 = a3 + pick_nl(crlf, Newline::CrLf);
    let a5 = a4 + pick_nl(nel, Newline::NextLine);
    let a6 = a5 + pick_nl(ls, Newline::LineSeparator);
    let a7 = a6 + pick_nl(ps, Newline::ParagraphSeparator);
    assert(a0 =~= e + pick_nl(lf, Newline::LineFeed));
    assert(enumerates(e, s, -1)) by {
        reveal(enumerates);
        assert forall|x: Newline| !e.contains(x) by {}
    }
    lemma_enumerates_step(e, s, -1, lf, Newline::LineFeed);
    lemma_enumerates_step(a0, s0, 0, vt, Newline::VerticalTab);
    lemma_enumerates_step(a1, s1, 1, ff, Newline::FormFeed);
    lemma_enumerates_step(a2, s2, 2, cr, Newline::CarriageReturn);
    lemma_enumerates_step(a3, s3, 3, crlf, Newline::CrLf);
    lemma_enumerates_step(a4, s4, 4, nel, Newline::NextLine);
    lemma_enumerates_step(a5, s5, 5, ls, Newline::LineSeparator);
    lemma_enumerates_step(a6, s6, 6, ps, Newline::ParagraphSeparator);
    assert(enumerates(a7, s7, 7));
    lemma_enumerates(a7, s7, 7);
    assert forall|x: Newline| #[trigger] a7.contains(x) <==> flag_of(
        x,
        lf,
        vt,
        ff,
        cr,
        crlf,
        nel,
        ls,
        ps,
    ) by {
        assert(a7.contains(x) <==> s7.contains(x));
    }
}

/// The ascending enumeration of a set of newline sequences holds the
/// members of the set, each once, in strictly ascending order.
pub proof fn lemma_sorted_members(s: Set<Newline>)
    ensures
        ascending_by_rank(sorted_members(s)),
        sorted_members(s).no_duplicates(),
        forall|x: Newline| #[trigger] sorted_members(s).contains(x) <==> s.contains(x),
        sorted_members(s).to_set() == s,
        s.finite(),
        s.len() == sorted_members(s).len(),
        s.len() <= 8,
{
    let v = sorted_members(s);
    lemma_ascending_newlines(
        s.contains(Newline::LineFeed),
        s.contains(Newline::VerticalTab),
        s.contains(Newline::FormFeed),
        s.contains(Newline::CarriageReturn),
        s.contains(Newline::CrLf),
        s.contains(Newline::NextLine),
        s.contains(Newline::LineSeparator),
        s.contains(Newline::ParagraphSeparator),
    );
    assert forall|i: int, j: int| 0 <= i < j < v.len() implies v[i] != v[j] by {
        assert(v[i].rank() < v[j].rank());
    }
    assert(v.to_set() =~= s);
    v.unique_seq_to_set();
    vstd::seq_lib::seq_to_set_is_finite(v);
}

} // verus!
