//! Searching a string for newline sequences.
use crate::nl::Newline;
use crate::nlset::NewlineSet;
use crate::sealed::Sealed;
use vstd::prelude::*;
use vstd::std_specs::iter::IteratorSpec;
use vstd::string::StringSliceAdditionalSpecFns;
use vstd::utf8::{
    encode_scalar, encode_utf8, encode_utf8_decode_utf8, encode_utf8_first_scalar,
    encode_utf8_valid_utf8, is_char_boundary, pop_first_scalar,
};

verus! {

/// Information on a newline sequence found in a string
#[derive(Copy, Clone, Debug, PartialEq, Eq, Hash)]
pub struct Match<'a> {
    /// The index of the start of the newline sequence, in bytes
    pub start: usize,
    /// The index of the end of the newline sequence, in bytes
    pub end: usize,
    /// The newline sequence that was found
    pub newline: Newline,
    /// The part of the string before the newline sequence
    pub before: &'a str,
    /// The part of the string after the newline sequence
    pub after: &'a str,
}

/// The number of bytes in the UTF-8 encoding of `chars`.
pub open spec fn utf8_len(chars: Seq<char>) -> nat {
    encode_utf8(chars).len()
}

/// The member of `set` that is found at position `i` of `s`, if any: where
/// a `'\r'` stands before a `'\n'`, `CrLf` goes before `CarriageReturn`.
pub open spec fn match_at(s: Seq<char>, i: int, set: Set<Newline>) -> Option<Newline> {
    if !(0 <= i < s.len()) {
        None
    } else if s[i] == '\r' {
        if set.contains(Newline::CrLf) && i + 1 < s.len() && s[i + 1] == '\n' {
            Some(Newline::CrLf)
        } else if set.contains(Newline::CarriageReturn) {
            Some(Newline::CarriageReturn)
        } else {
            None
        }
    } else {
        match Newline::spec_from_char(s[i]) {
            Some(nl) => if set.contains(nl) {
                Some(nl)
            } else {
                None
            },
            None => None,
        }
    }
}

/// The member of `set` that is found at position `i` of `s` when `s` is
/// read from the back, if any: a `'\n'` that ends a `CrLf` of the set is
/// part of that and no `LineFeed` of its own.
pub open spec fn rmatch_at(s: Seq<char>, i: int, set: Set<Newline>) -> Option<Newline> {
    if 0 < i < s.len() && s[i] == '\n' && s[i - 1] == '\r' && set.contains(Newline::CrLf) {
        None
    } else {
        match_at(s, i, set)
    }
}

/// Whether `m` tells of the newline sequence `nl` at position `i` of `s`.
pub open spec fn describes(m: Match, s: Seq<char>, i: int, nl: Newline) -> bool {
    &&& m.newline == nl
    &&& m.start == utf8_len(s.take(i))
    &&& m.end == m.start + nl.spec_len_utf8()
    &&& m.before@ == s.take(i)
    &&& m.after@ == s.skip(i + nl.spec_str().len())
}

/// Whether `r` is the result of the search for the first member of `set` in
/// `s`.
pub open spec fn first_match(s: Seq<char>, set: Set<Newline>, r: Option<Match>) -> bool {
    match r {
        None => forall|i: int| match_at(s, i, set) is None,
        Some(m) => exists|i: int|
            {
                &&& 0 <= i < s.len()
                &&& #[trigger] match_at(s, i, set) matches Some(nl)
                &&& describes(m, s, i, nl)
                &&& forall|j: int| 0 <= j < i ==> match_at(s, j, set) is None
            },
    }
}

/// Whether `r` is the result of the search for the last member of `set` in
/// `s`.
pub open spec fn last_match(s: Seq<char>, set: Set<Newline>, r: Option<Match>) -> bool {
    match r {
        None => forall|i: int| rmatch_at(s, i, set) is None,
        Some(m) => exists|i: int|
            {
                &&& 0 <= i < s.len()
                &&& #[trigger] rmatch_at(s, i, set) matches Some(nl)
                &&& describes(m, s, i, nl)
                &&& forall|j: int| i < j < s.len() ==> rmatch_at(s, j, set) is None
            },
    }
}

/// The encoding of two runs of characters, one behind the other, is the
/// encoding of the first followed by that of the second.
pub proof fn lemma_encode_concat(a: Seq<char>, b: Seq<char>)
    ensures
        encode_utf8(a + b) == encode_utf8(a) + encode_utf8(b),
    decreases a.len(),
{
    if a.len() == 0 {
        assert(a + b =~= b);
        assert(encode_utf8(a) + encode_utf8(b) =~= encode_utf8(b));
    } else {
        lemma_encode_concat(a.drop_first(), b);
        assert((a + b).drop_first() =~= a.drop_first() + b);
        assert((a + b)[0] == a[0]);
        assert(encode_utf8(a + b) =~= encode_utf8(a) + encode_utf8(b));
    }
}

/// The end of the encoding of a run of characters is a character boundary
/// in the encoding of that run and what follows it.
pub proof fn lemma_boundary(a: Seq<char>, b: Seq<char>)
    ensures
        is_char_boundary(encode_utf8(a + b), encode_utf8(a).len() as int),
    decreases a.len(),
{
    let bytes = encode_utf8(a + b);
    encode_utf8_valid_utf8(a + b);
    if a.len() > 0 {
        let rest = a.drop_first();
        lemma_boundary(rest, b);
        lemma_encode_concat(a, b);
        encode_utf8_first_scalar(a + b);
        assert((a + b).drop_first() =~= rest + b);
        assert((a + b)[0] == a[0]);
        assert(pop_first_scalar(bytes) =~= encode_utf8(rest + b));
        assert(encode_utf8(a).len() == encode_scalar(a[0] as u32).len() + encode_utf8(
            rest,
        ).len());
    }
}

/// A string that is split behind the encoding of a run of characters with
/// which it starts falls into that run and the rest.
proof fn lemma_split_at(s: Seq<char>, a: Seq<char>, b: Seq<char>, front: Seq<char>, back: Seq<char>)
    requires
        s == a + b,
        encode_utf8(front) == encode_utf8(s).subrange(0, encode_utf8(a).len() as int),
        encode_utf8(back) == encode_utf8(s).subrange(
            encode_utf8(a).len() as int,
            encode_utf8(s).len() as int,
        ),
    ensures
        front == a,
        back == b,
{
    lemma_encode_concat(a, b);
    let bytes = encode_utf8(s);
    assert(bytes.subrange(0, encode_utf8(a).len() as int) =~= encode_utf8(a));
    assert(bytes.subrange(encode_utf8(a).len() as int, bytes.len() as int) =~= encode_utf8(b));
    encode_utf8_decode_utf8(front);
    encode_utf8_decode_utf8(back);
    encode_utf8_decode_utf8(a);
    encode_utf8_decode_utf8(b);
}

/// Returns the number of bytes in the UTF-8 encoding of `c`
pub fn utf8_width(c: char) -> (n: usize)
    ensures
        n == encode_scalar(c as u32).len(),
        1 <= n <= 4,
{
    if '\u{80}' > c {
        1
    } else if '\u{800}' > c {
        2
    } else if '\u{10000}' > c {
        proof {
            vstd::utf8::char_is_scalar(c);
        }
        3
    } else {
        4
    }
}

/// Builds the report of the newline sequence `nl` that stands in `s` at
/// the character position `i`, which is the byte position `start`
fn report<'a>(s: &'a str, start: usize, nl: Newline, Ghost(i): Ghost<int>) -> (m: Match<'a>)
    requires
        0 <= i,
        i + nl.spec_str().len() <= s@.len(),
        s@.subrange(i, i + nl.spec_str().len()) == nl.spec_str(),
        start == utf8_len(s@.take(i)),
    ensures
        describes(m, s@, i, nl),
{
    let ghost a = s@.take(i);
    let ghost b = s@.skip(i);
    let ghost n = nl.spec_str().len() as int;
    let ghost c = b.skip(n);
    proof {
        assert(s@ =~= a + b);
        lemma_boundary(a, b);
        assert(b =~= nl.spec_str() + c);
        lemma_boundary(nl.spec_str(), c);
        nl.lemma_len_utf8();
        lemma_encode_concat(a, b);
        lemma_encode_concat(nl.spec_str(), c);
    }
    let total = s.as_bytes().len();
    let (before, rest) = s.split_at(start);
    proof {
        lemma_split_at(s@, a, b, before@, rest@);
    }
    let width = nl.len_utf8();
    let (found, after) = rest.split_at(width);
    proof {
        lemma_split_at(rest@, nl.spec_str(), c, found@, after@);
        assert(c =~= s@.skip(i + n));
    }
    Match { start, end: start + width, newline: nl, before, after }
}

/// The byte position behind a character is the byte position before it
/// and the width of its encoding, and it is within the encoding of the
/// string.
proof fn lemma_offset_step(s: Seq<char>, i: int)
    requires
        0 <= i < s.len(),
    ensures
        utf8_len(s.take(i + 1)) == utf8_len(s.take(i)) + encode_scalar(s[i] as u32).len(),
        utf8_len(s.take(i + 1)) <= utf8_len(s),
{
    let one = s.subrange(i, i + 1);
    assert(s.take(i + 1) =~= s.take(i) + one);
    lemma_encode_concat(s.take(i), one);
    assert(one.drop_first().len() == 0);
    assert(encode_utf8(one.drop_first()) =~= Seq::<u8>::empty());
    assert(encode_utf8(one) =~= encode_scalar(s[i] as u32));
    assert(s =~= s.take(i + 1) + s.skip(i + 1));
    lemma_encode_concat(s.take(i + 1), s.skip(i + 1));
}

/// A type that can be searched for in a string: a newline sequence or a set
/// of them.
pub trait NewlinePattern: Sealed {
    /// The newline sequences that are searched for.
    spec fn sought(&self) -> Set<Newline>;

    /// What has to hold of the pattern: its invariant.
    spec fn searchable(&self) -> bool;

    /// Searches `s` for the first occurrence of a newline sequence of the
    /// pattern
    fn search<'a>(&self, s: &'a str) -> (r: Option<Match<'a>>)
        requires
            self.searchable(),
        ensures
            first_match(s@, self.sought(), r),
    ;

    /// Searches `s` for the last occurrence of a newline sequence of the
    /// pattern
    fn rsearch<'a>(&self, s: &'a str) -> (r: Option<Match<'a>>)
        requires
            self.searchable(),
        ensures
            last_match(s@, self.sought(), r),
    ;
}

impl NewlineSet {
    /// Returns the member of the set that is found at the character `c`
    /// where `next` is the character behind it
    fn found_at(
        &self,
        c: char,
        next: Option<char>,
        Ghost(s): Ghost<Seq<char>>,
        Ghost(i): Ghost<int>,
    ) -> (found: Option<Newline>)
        requires
            self.wf(),
            0 <= i < s.len(),
            c == s[i],
            next is Some <==> i + 1 < s.len(),
            next is Some ==> next->0 == s[i + 1],
        ensures
            found == match_at(s, i, self@),
            found matches Some(nl) ==> i + nl.spec_str().len() <= s.len() && s.subrange(
                i,
                i + nl.spec_str().len(),
            ) == nl.spec_str(),
    {
        let found = if c == '\r' {
            let lf_follows = match next {
                Some(d) => d == '\n',
                None => false,
            };
            if lf_follows && self.contains(Newline::CrLf) {
                Some(Newline::CrLf)
            } else if self.contains(Newline::CarriageReturn) {
                Some(Newline::CarriageReturn)
            } else {
                None
            }
        } else {
            match Newline::try_from(c) {
                Ok(nl) => if self.contains(nl) {
                    Some(nl)
                } else {
                    None
                },
                Err(_) => None,
            }
        };
        proof {
            match found {
                Some(nl) => {
                    assert(s.subrange(i, i + nl.spec_str().len()) =~= nl.spec_str());
                },
                None => {},
            }
        }
        found
    }
}

impl NewlinePattern for NewlineSet {
    open spec fn sought(&self) -> Set<Newline> {
        self@
    }

    open spec fn searchable(&self) -> bool {
        self.wf()
    }

    /// Searches `s` for the first occurrence of a member of the set.  Where
    /// a `'\r'` stands before a `'\n'`, `CrLf` is found in place of
    /// `CarriageReturn` if it is in the set.
    fn search<'a>(&self, s: &'a str) -> (r: Option<Match<'a>>) {
        if self.is_empty() {
            return None;
        }
        let total = s.as_bytes().len();
        let mut chars = s.chars();
        let mut cur = chars.next();
        let mut offset: usize = 0;
        let ghost mut i: int = 0;
        proof {
            assert(s@.take(0) =~= Seq::<char>::empty());
            assert(s@.len() > 0 ==> s@.skip(0).drop_first() =~= s@.skip(1));
        }
        loop
            invariant
                self.wf(),
                0 <= i <= s@.len(),
                i < s@.len() ==> cur == Some(s@[i]) && chars.remaining() == s@.skip(i + 1),
                i == s@.len() ==> cur is None,
                offset == utf8_len(s@.take(i)),
                total == utf8_len(s@),
                forall|j: int| 0 <= j < i ==> match_at(s@, j, self@) is None,
            decreases s@.len() - i,
        {
            let c = match cur {
                None => {
                    return None;
                },
                Some(c) => c,
            };
            let next = chars.next();
            let found = self.found_at(c, next, Ghost(s@), Ghost(i));
            match found {
                Some(nl) => {
                    return Some(report(s, offset, nl, Ghost(i)));
                },
                None => {},
            }
            proof {
                lemma_offset_step(s@, i);
                if i + 1 < s@.len() {
                    assert(s@.skip(i + 1).drop_first() =~= s@.skip(i + 2));
                }
            }
            offset = offset + utf8_width(c);
            cur = next;
            proof {
                i = i + 1;
            }
        }
    }

    /// Searches `s` for the last occurrence of a member of the set.  Where
    /// a `'\r'` stands before a `'\n'`, `CrLf` is found in place of
    /// `LineFeed` and of `CarriageReturn` if it is in the set.
    fn rsearch<'a>(&self, s: &'a str) -> (r: Option<Match<'a>>) {
        if self.is_empty() {
            assert forall|i: int| rmatch_at(s@, i, self@) is None by {}
            return None;
        }
        let total = s.as_bytes().len();
        let mut chars = s.chars();
        let mut cur = chars.next();
        let mut offset: usize = 0;
        let mut best: Option<(usize, Newline)> = None;
        let ghost mut i: int = 0;
        let ghost mut at: int = 0;
        proof {
            assert(s@.take(0) =~= Seq::<char>::empty());
            assert(s@.len() > 0 ==> s@.skip(0).drop_first() =~= s@.skip(1));
        }
        loop
            invariant
                self.wf(),
                0 <= i <= s@.len(),
                i < s@.len() ==> cur == Some(s@[i]) && chars.remaining() == s@.skip(i + 1),
                i == s@.len() ==> cur is None,
                offset == utf8_len(s@.take(i)),
                total == utf8_len(s@),
                !(0 < i < s@.len() && s@[i] == '\n' && s@[i - 1] == '\r' && self@.contains(
                    Newline::CrLf,
                )),
                best is None ==> forall|j: int| 0 <= j < i ==> rmatch_at(s@, j, self@) is None,
                best matches Some((start, nl)) ==> {
                    &&& 0 <= at < i
                    &&& rmatch_at(s@, at, self@) == Some(nl)
                    &&& start == utf8_len(s@.take(at))
                    &&& at + nl.spec_str().len() <= s@.len()
                    &&& s@.subrange(at, at + nl.spec_str().len()) == nl.spec_str()
                    &&& forall|j: int| at < j < i ==> rmatch_at(s@, j, self@) is None
                },
            decreases s@.len() - i,
        {
            let c = match cur {
                None => {
                    return match best {
                        None => None,
                        Some((start, nl)) => Some(report(s, start, nl, Ghost(at))),
                    };
                },
                Some(c) => c,
            };
            let next = chars.next();
            let found = self.found_at(c, next, Ghost(s@), Ghost(i));
            proof {
                lemma_offset_step(s@, i);
                if i + 1 < s@.len() {
                    assert(s@.skip(i + 1).drop_first() =~= s@.skip(i + 2));
                    lemma_offset_step(s@, i + 1);
                }
                if i + 2 < s@.len() {
                    assert(s@.skip(i + 2).drop_first() =~= s@.skip(i + 3));
                }
            }
            match found {
                Some(nl) => {
                    best = Some((offset, nl));
                    proof {
                        at = i;
                    }
                },
                None => {},
            }
            let crlf = match found {
                Some(Newline::CrLf) => true,
                _ => false,
            };
            offset = offset + utf8_width(c);
            cur = next;
            proof {
                i = i + 1;
            }
            if crlf {
                // The line feed is part of what was found.
                offset = offset + utf8_width('\n');
                cur = chars.next();
                proof {
                    i = i + 1;
                }
            }
        }
    }
}

impl NewlinePattern for Newline {
    open spec fn sought(&self) -> Set<Newline> {
        set![*self]
    }

    open spec fn searchable(&self) -> bool {
        true
    }

    /// Searches `s` for the first occurrence of the newline sequence
    fn search<'a>(&self, s: &'a str) -> (r: Option<Match<'a>>) {
        NewlineSet::from(*self).search(s)
    }

    /// Searches `s` for the last occurrence of the newline sequence
    fn rsearch<'a>(&self, s: &'a str) -> (r: Option<Match<'a>>) {
        NewlineSet::from(*self).rsearch(s)
    }
}

} // verus!
