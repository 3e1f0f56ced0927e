//! A fixed-capacity ordered set of characters, and the merge of two of them.
use vstd::prelude::*;
use vstd::std_specs::cmp::PartialEqSpecImpl;

verus! {

/// The greatest number of characters that a [`CharSet`] can hold: the number
/// of distinct first characters of the newline sequences.
pub const CAPACITY: usize = 7;

/// Whether the characters of `s` are in strictly ascending order.
pub open spec fn strictly_ascending(s: Seq<char>) -> bool {
    forall|i: int, j: int| 0 <= i < j < s.len() ==> s[i] < s[j]
}

/// The number of characters in `s` that are below `ch`.  In an ascending
/// sequence this is the position at which `ch` stands or would stand.
pub open spec fn count_below(s: Seq<char>, ch: char) -> int
    decreases s.len(),
{
    if s.len() == 0 {
        0
    } else {
        count_below(s.drop_last(), ch) + if s.last() < ch {
            1int
        } else {
            0int
        }
    }
}

/// The ascending sequence `s` with `ch` added in its place, if it was not
/// there yet.
pub open spec fn with_char(s: Seq<char>, ch: char) -> Seq<char> {
    if s.contains(ch) {
        s
    } else {
        s.insert(count_below(s, ch), ch)
    }
}

/// The ascending sequence `s` with `ch` taken out, if it was there.
pub open spec fn without_char(s: Seq<char>, ch: char) -> Seq<char> {
    if s.contains(ch) {
        s.remove(count_below(s, ch))
    } else {
        s
    }
}

/// In an ascending sequence, the position `k` that splits the characters
/// below `ch` from the others is `count_below(s, ch)`.
pub proof fn lemma_count_below(s: Seq<char>, ch: char, k: int)
    requires
        0 <= k <= s.len(),
        forall|i: int| 0 <= i < k ==> s[i] < ch,
        forall|i: int| k <= i < s.len() ==> s[i] >= ch,
    ensures
        count_below(s, ch) == k,
    decreases s.len(),
{
    if s.len() > 0 {
        let t = s.drop_last();
        if k == s.len() {
            lemma_count_below(t, ch, k - 1);
        } else {
            lemma_count_below(t, ch, k);
        }
    }
}

/// Adding a character to an ascending sequence keeps it ascending and adds
/// exactly that character.
pub proof fn lemma_with_char(s: Seq<char>, ch: char)
    requires
        strictly_ascending(s),
    ensures
        strictly_ascending(with_char(s, ch)),
        forall|c: char| with_char(s, ch).contains(c) <==> (s.contains(c) || c == ch),
        with_char(s, ch).len() == s.len() + if s.contains(ch) { 0int } else { 1int },
{
    let k = lemma_split(s, ch);
    let t = with_char(s, ch);
    if !s.contains(ch) {
        assert forall|c: char| t.contains(c) <==> (s.contains(c) || c == ch) by {
            if t.contains(c) {
                let i = choose|i: int| 0 <= i < t.len() && t[i] == c;
                if i < k {
                    assert(s[i] == c);
                } else if i > k {
                    assert(s[i - 1] == c);
                }
            }
            if s.contains(c) {
                let i = choose|i: int| 0 <= i < s.len() && s[i] == c;
                if i < k {
                    assert(t[i] == c);
                } else {
                    assert(t[i + 1] == c);
                }
            }
            if c == ch {
                assert(t[k] == c);
            }
        }
    }
}

/// Taking a character out of an ascending sequence keeps it ascending and
/// removes exactly that character.
pub proof fn lemma_without_char(s: Seq<char>, ch: char)
    requires
        strictly_ascending(s),
    ensures
        strictly_ascending(without_char(s, ch)),
        forall|c: char| without_char(s, ch).contains(c) <==> (s.contains(c) && c != ch),
        without_char(s, ch).len() == s.len() - if s.contains(ch) { 1int } else { 0int },
{
    let k = lemma_split(s, ch);
    let t = without_char(s, ch);
    if s.contains(ch) {
        assert(s[k] == ch);
        assert forall|c: char| t.contains(c) <==> (s.contains(c) && c != ch) by {
            if t.contains(c) {
                let i = choose|i: int| 0 <= i < t.len() && t[i] == c;
                if i < k {
                    assert(s[i] == c);
                } else {
                    assert(s[i + 1] == c);
                }
            }
            if s.contains(c) && c != ch {
                let i = choose|i: int| 0 <= i < s.len() && s[i] == c;
                if i < k {
                    assert(t[i] == c);
                } else {
                    assert(t[i - 1] == c);
                }
            }
        }
    }
}

/// The position of `ch` in an ascending sequence: every character before it
/// is below `ch`, and the one at it, if any, is `ch` or above.
pub proof fn lemma_split(s: Seq<char>, ch: char) -> (k: int)
    requires
        strictly_ascending(s),
    ensures
        k == count_below(s, ch),
        0 <= k <= s.len(),
        forall|i: int| 0 <= i < k ==> s[i] < ch,
        forall|i: int| k <= i < s.len() ==> s[i] >= ch,
        s.contains(ch) <==> (k < s.len() && s[k] == ch),
    decreases s.len(),
{
    if s.len() == 0 {
        0
    } else {
        let t = s.drop_last();
        assert forall|i: int| 0 <= i < t.len() implies t[i] == s[i] by {}
        let k = lemma_split(t, ch);
        if s.last() < ch {
            assert(k == t.len()) by {
                if k < t.len() {
                    assert(t[k] >= ch);
                    assert(s[k] < s[s.len() - 1]);
                }
            }
            assert forall|i: int| 0 <= i < k + 1 implies s[i] < ch by {
                if i < k {
                    assert(t[i] < ch);
                }
            }
            assert(!s.contains(ch));
            k + 1
        } else {
            assert forall|i: int| 0 <= i < k implies s[i] < ch by {
                assert(t[i] < ch);
            }
            assert forall|i: int| k <= i < s.len() implies s[i] >= ch by {
                if i < t.len() {
                    assert(t[i] >= ch);
                }
            }
            if s.contains(ch) {
                let i = choose|i: int| 0 <= i < s.len() && s[i] == ch;
                if i > k {
                    assert(s[k] < s[i]);
                }
            }
            k
        }
    }
}

/// Two ascending sequences with the same characters are the same sequence.
pub proof fn lemma_ascending_unique(s: Seq<char>, t: Seq<char>)
    requires
        strictly_ascending(s),
        strictly_ascending(t),
        forall|c: char| s.contains(c) <==> t.contains(c),
    ensures
        s == t,
    decreases s.len(),
{
    if s.len() == 0 {
        if t.len() > 0 {
            assert(t.contains(t[0]));
        }
        assert(s =~= t);
    } else {
        let m = s.last();
        assert(s.contains(m));
        assert(t.contains(m));
        let j = choose|j: int| 0 <= j < t.len() && t[j] == m;
        if j < t.len() - 1 {
            let c = t.last();
            assert(t.contains(c));
            assert(t[j] < t[t.len() - 1]);
            let i = choose|i: int| 0 <= i < s.len() && s[i] == c;
            if i < s.len() - 1 {
                assert(s[i] < s[s.len() - 1]);
            }
        }
        let s1 = s.drop_last();
        let t1 = t.drop_last();
        assert forall|c: char| s1.contains(c) <==> t1.contains(c) by {
            if s1.contains(c) {
                let i = choose|i: int| 0 <= i < s1.len() && s1[i] == c;
                assert(s[i] == c);
                assert(s[i] < s[s.len() - 1]);
                assert(t.contains(c));
                let j2 = choose|j2: int| 0 <= j2 < t.len() && t[j2] == c;
                assert(t1[j2] == c);
            }
            if t1.contains(c) {
                let i = choose|i: int| 0 <= i < t1.len() && t1[i] == c;
                assert(t[i] == c);
                assert(t[i] < t[t.len() - 1]);
                assert(s.contains(c));
                let j2 = choose|j2: int| 0 <= j2 < s.len() && s[j2] == c;
                assert(s1[j2] == c);
            }
        }
        lemma_ascending_unique(s1, t1);
        assert(s =~= s1.push(m));
        assert(t =~= t1.push(m));
    }
}

/// A set of at most [`CAPACITY`] characters, kept in ascending order in a
/// fixed-size array.
#[derive(Copy, Clone, Debug, Eq, Hash)]
pub struct CharSet {
    /// The first `len` elements of `data` are the elements of the `CharSet`,
    /// stored in strictly ascending order.  Any remaining elements are set to
    /// `'\0'`.
    data: [char; 7],
    /// The number of items in the `CharSet`.
    len: usize,
}

impl View for CharSet {
    type V = Seq<char>;

    /// The members, in the order in which they are stored.
    closed spec fn view(&self) -> Seq<char> {
        Seq::new(self.len as nat, |i: int| self.data@[i])
    }
}

impl CharSet {
    /// The invariant of the representation: at most [`CAPACITY`] members,
    /// stored in strictly ascending order, and `'\0'` in every unused slot.
    pub closed spec fn wf(&self) -> bool {
        &&& self.len <= CAPACITY
        &&& forall|i: int, j: int| 0 <= i < j < self.len ==> self.data@[i] < self.data@[j]
        &&& forall|i: int| self.len <= i < CAPACITY ==> self.data@[i] == '\0'
    }

    /// What the invariant says of the members.
    pub proof fn lemma_wf(&self)
        requires
            self.wf(),
        ensures
            self@.len() <= CAPACITY,
            strictly_ascending(self@),
    {
    }

    /// Two well-formed sets with the same members are equal.
    pub proof fn lemma_eq(&self, other: &CharSet)
        requires
            self.wf(),
            other.wf(),
            self@ == other@,
        ensures
            *self == *other,
    {
        assert(self@.len() == self.len && other@.len() == other.len);
        assert forall|i: int| 0 <= i < CAPACITY implies self.data@[i] == other.data@[i] by {
            if i < self.len {
                assert(self@[i] == self.data@[i]);
                assert(other@[i] == other.data@[i]);
            }
        }
        assert(self.data@ =~= other.data@);
        assert(self.data =~= other.data);
    }

    /// Creates an empty set
    pub fn new() -> (cs: CharSet)
        ensures
            cs.wf(),
            cs@ == Seq::<char>::empty(),
    {
        let cs = CharSet { data: ['\0'; 7], len: 0 };
        assert(cs@ =~= Seq::<char>::empty());
        cs
    }

    /// Returns the number of characters in the set
    pub fn len(&self) -> (n: usize)
        ensures
            n == self@.len(),
    {
        self.len
    }

    /// Returns `true` if the set holds no character
    pub fn is_empty(&self) -> (b: bool)
        ensures
            b == (self@.len() == 0),
    {
        self.len == 0
    }

    /// Returns the members as a slice in ascending order
    pub fn as_slice(&self) -> (s: &[char])
        requires
            self.wf(),
        ensures
            s@ == self@,
    {
        let s = vstd::slice::slice_subrange(self.data.as_slice(), 0, self.len);
        assert(s@ =~= self@);
        s
    }

    /// Returns the member at position `i` of the ascending order, if there
    /// are that many
    pub fn get(&self, i: usize) -> (r: Option<char>)
        requires
            self.wf(),
        ensures
            r == if i < self@.len() { Some(self@[i as int]) } else { None },
    {
        if i < self.len {
            Some(self.data[i])
        } else {
            None
        }
    }

    /// Binary search for `ch` among the members: `Ok` with its position, or
    /// `Err` with the position at which it would be inserted.
    fn search(&self, ch: char) -> (r: Result<usize, usize>)
        requires
            self.wf(),
        ensures
            match r {
                Ok(i) => i < self@.len() && self@[i as int] == ch && self@.contains(ch),
                Err(i) => i <= self@.len() && !self@.contains(ch),
            },
            match r { Ok(i) => i, Err(i) => i } == count_below(self@, ch),
    {
        let mut lo: usize = 0;
        let mut hi: usize = self.len;
        while lo < hi
            invariant
                self.wf(),
                lo <= hi <= self.len,
                forall|i: int| 0 <= i < lo ==> self@[i] < ch,
                forall|i: int| hi <= i < self.len ==> self@[i] > ch,
            decreases hi - lo,
        {
            let mid: usize = lo + (hi - lo) / 2;
            let c = self.data[mid];
            assert(c == self@[mid as int]);
            if c == ch {
                proof {
                    lemma_count_below(self@, ch, mid as int);
                }
                return Ok(mid);
            } else if c < ch {
                lo = mid + 1;
            } else {
                hi = mid;
            }
        }
        proof {
            lemma_count_below(self@, ch, lo as int);
            if self@.contains(ch) {
                let i = choose|i: int| 0 <= i < self@.len() && self@[i] == ch;
                assert(false);
            }
        }
        Err(lo)
    }

    /// Returns `true` if `ch` is in the set
    pub fn contains(&self, ch: char) -> (b: bool)
        requires
            self.wf(),
        ensures
            b == self@.contains(ch),
    {
        self.search(ch).is_ok()
    }

    /// Adds `ch` to the set.  Returns `true` if `ch` was not already in the
    /// set.
    ///
    /// A full set takes no new member: the caller has to know that `ch` is in
    /// the set already or that there is room for it.
    pub fn insert(&mut self, ch: char) -> (added: bool)
        requires
            old(self).wf(),
            old(self)@.contains(ch) || old(self)@.len() < CAPACITY,
        ensures
            final(self).wf(),
            added == !old(self)@.contains(ch),
            final(self)@ == with_char(old(self)@, ch),
            forall|c: char| final(self)@.contains(c) <==> (old(self)@.contains(c) || c == ch),
            final(self)@.len() == old(self)@.len() + if added { 1int } else { 0int },
    {
        proof {
            lemma_with_char(self@, ch);
        }
        match self.search(ch) {
            Ok(_) => false,
            Err(i) => {
                let ghost before = self@;
                let mut j: usize = self.len;
                while j > i
                    invariant
                        i <= j <= self.len < CAPACITY,
                        self.len == before.len(),
                        forall|k: int| 0 <= k < j ==> self.data@[k] == before[k],
                        forall|k: int| j < k <= self.len ==> self.data@[k] == before[k - 1],
                        forall|k: int| self.len < k < CAPACITY ==> self.data@[k] == '\0',
                    decreases j,
                {
                    self.data[j] = self.data[j - 1];
                    j -= 1;
                }
                self.data[i] = ch;
                self.len += 1;
                proof {
                    let after = before.insert(i as int, ch);
                    assert(self@ =~= after);
                    lemma_wf_of_view(*self);
                }
                true
            },
        }
    }

    /// Removes `ch` from the set, if present.  Returns `true` if `ch` was in
    /// the set.
    pub fn remove(&mut self, ch: char) -> (removed: bool)
        requires
            old(self).wf(),
        ensures
            final(self).wf(),
            removed == old(self)@.contains(ch),
            final(self)@ == without_char(old(self)@, ch),
            forall|c: char| final(self)@.contains(c) <==> (old(self)@.contains(c) && c != ch),
            final(self)@.len() == old(self)@.len() - if removed { 1int } else { 0int },
    {
        proof {
            lemma_without_char(self@, ch);
        }
        match self.search(ch) {
            Ok(i) => {
                let ghost before = self@;
                let mut j: usize = i;
                while j + 1 < self.len
                    invariant
                        i <= j < self.len <= CAPACITY,
                        self.len == before.len(),
                        forall|k: int| 0 <= k < i ==> self.data@[k] == before[k],
                        forall|k: int| i <= k < j ==> self.data@[k] == before[k + 1],
                        forall|k: int| j < k < self.len ==> self.data@[k] == before[k],
                        forall|k: int| self.len <= k < CAPACITY ==> self.data@[k] == '\0',
                    decreases self.len - j,
                {
                    self.data[j] = self.data[j + 1];
                    j += 1;
                }
                self.data[j] = '\0';
                self.len -= 1;
                proof {
                    let after = before.remove(i as int);
                    assert(self@ =~= after);
                    lemma_wf_of_view(*self);
                }
                true
            },
            Err(_) => false,
        }
    }

    /// Adds `ch` behind the members.  The caller has to know that there is
    /// room for it and that it is above every member: this is the fast path
    /// for building a set from an ascending source.
    pub fn append(&mut self, ch: char)
        requires
            old(self).wf(),
            old(self)@.len() < CAPACITY,
            forall|i: int| 0 <= i < old(self)@.len() ==> old(self)@[i] < ch,
        ensures
            final(self).wf(),
            final(self)@ == old(self)@.push(ch),
    {
        let ghost before = self@;
        self.data[self.len] = ch;
        self.len += 1;
        proof {
            assert(self@ =~= before.push(ch));
            lemma_wf_of_view(*self);
        }
    }

    /// Returns an iterator over the members in ascending order
    pub fn into_iter(self) -> (it: CharSetIter)
        requires
            self.wf(),
        ensures
            it.wf(),
            it@ == self@,
    {
        CharSetIter::new(self)
    }

    /// Returns the merge of `self` and `other`: every character that is in
    /// one of them or in both, in ascending order, each once, marked with the
    /// side or sides on which it stands
    pub fn diff(self, other: CharSet) -> (d: CharSetDiff)
        requires
            self.wf(),
            other.wf(),
        ensures
            d.wf(),
            d@ == merge(self@, other@),
            forall|i: int, j: int|
                0 <= i < j < d@.len() ==> (#[trigger] d@[i]).ch() < (#[trigger] d@[j]).ch(),
            forall|c: char| #[trigger]
                d@.contains(Diff::Left(c)) <==> (self@.contains(c) && !other@.contains(c)),
            forall|c: char| #[trigger]
                d@.contains(Diff::Both(c)) <==> (self@.contains(c) && other@.contains(c)),
            forall|c: char| #[trigger]
                d@.contains(Diff::Right(c)) <==> (!self@.contains(c) && other@.contains(c)),
    {
        proof {
            self.lemma_wf();
            other.lemma_wf();
            lemma_merge(self@, other@);
        }
        CharSetDiff::new(self, other)
    }
}

/// A set whose members are ascending and whose unused slots hold `'\0'` is
/// well-formed.
proof fn lemma_wf_of_view(cs: CharSet)
    requires
        cs.len <= CAPACITY,
        strictly_ascending(cs@),
        forall|i: int| cs.len <= i < CAPACITY ==> cs.data@[i] == '\0',
    ensures
        cs.wf(),
{
    assert forall|i: int, j: int| 0 <= i < j < cs.len implies cs.data@[i] < cs.data@[j] by {
        assert(cs@[i] < cs@[j]);
    }
}

impl PartialEq for CharSet {
    /// Two sets are equal when they hold the same array and the same length.
    fn eq(&self, other: &CharSet) -> (b: bool) {
        if self.len != other.len {
            return false;
        }
        let mut i: usize = 0;
        while i < CAPACITY
            invariant
                i <= CAPACITY,
                forall|k: int| 0 <= k < i ==> self.data@[k] == other.data@[k],
            decreases CAPACITY - i,
        {
            if self.data[i] != other.data[i] {
                return false;
            }
            i += 1;
        }
        assert(self.data =~= other.data);
        true
    }
}

impl PartialEqSpecImpl for CharSet {
    open spec fn obeys_eq_spec() -> bool {
        true
    }

    open spec fn eq_spec(&self, other: &CharSet) -> bool {
        *self == *other
    }
}

impl Default for CharSet {
    /// The empty set
    fn default() -> (cs: CharSet)
        ensures
            cs.wf(),
            cs@ == Seq::<char>::empty(),
    {
        CharSet::new()
    }
}

/// What taking an item from the front of `before` gives: the first item and
/// the rest, or nothing where there is none.
pub open spec fn pops_front<A>(before: Seq<A>, item: Option<A>, after: Seq<A>) -> bool {
    if before.len() == 0 {
        item is None && after == before
    } else {
        item == Some(before[0]) && after == before.drop_first()
    }
}

/// What taking an item from the back of `before` gives: the last item and
/// the rest, or nothing where there is none.
pub open spec fn pops_back<A>(before: Seq<A>, item: Option<A>, after: Seq<A>) -> bool {
    if before.len() == 0 {
        item is None && after == before
    } else {
        item == Some(before.last()) && after == before.drop_last()
    }
}

/// A traversal of a copy of a [`CharSet`] from both ends.
#[derive(Copy, Clone, Debug, PartialEq, Eq)]
pub struct CharSetIter {
    charset: CharSet,
    /// The position of the next member from the front.
    front: usize,
    /// The position behind the next member from the back.
    back: usize,
}

impl View for CharSetIter {
    type V = Seq<char>;

    /// The members that are still to come, in ascending order.
    closed spec fn view(&self) -> Seq<char> {
        self.charset@.subrange(self.front as int, self.back as int)
    }
}

impl CharSetIter {
    /// The invariant of the representation.
    pub closed spec fn wf(&self) -> bool {
        &&& self.charset.wf()
        &&& self.front <= self.back <= self.charset@.len()
    }

    /// What the invariant says of the members that are still to come.
    pub proof fn lemma_wf(&self)
        requires
            self.wf(),
        ensures
            self@.len() <= CAPACITY,
            strictly_ascending(self@),
    {
        self.charset.lemma_wf();
    }

    /// Starts a traversal of `charset`
    pub fn new(charset: CharSet) -> (it: CharSetIter)
        requires
            charset.wf(),
        ensures
            it.wf(),
            it@ == charset@,
    {
        let it = CharSetIter { charset, front: 0, back: charset.len() };
        assert(it@ =~= charset@);
        it
    }

    /// Returns the next member from the front without taking it
    pub fn peek(&self) -> (r: Option<char>)
        requires
            self.wf(),
        ensures
            r == if self@.len() > 0 { Some(self@[0]) } else { None },
    {
        if self.front < self.back {
            self.charset.get(self.front)
        } else {
            None
        }
    }

    /// Returns the next member from the back without taking it
    pub fn peek_back(&self) -> (r: Option<char>)
        requires
            self.wf(),
        ensures
            r == if self@.len() > 0 { Some(self@.last()) } else { None },
    {
        if self.front < self.back {
            self.charset.get(self.back - 1)
        } else {
            None
        }
    }

    /// Takes the next member from the front
    pub fn next(&mut self) -> (r: Option<char>)
        requires
            old(self).wf(),
        ensures
            final(self).wf(),
            pops_front(old(self)@, r, final(self)@),
    {
        let r = self.peek();
        if r.is_some() {
            self.front += 1;
            assert(self@ =~= old(self)@.drop_first());
        }
        r
    }

    /// Takes the next member from the back
    pub fn next_back(&mut self) -> (r: Option<char>)
        requires
            old(self).wf(),
        ensures
            final(self).wf(),
            pops_back(old(self)@, r, final(self)@),
    {
        let r = self.peek_back();
        if r.is_some() {
            self.back -= 1;
            assert(self@ =~= old(self)@.drop_last());
        }
        r
    }

    /// Returns `true` if `ch` is among the members that are still to come
    pub fn contains(&self, ch: char) -> (b: bool)
        requires
            self.wf(),
        ensures
            b == self@.contains(ch),
    {
        proof {
            self.charset.lemma_wf();
        }
        match self.charset.search(ch) {
            Ok(i) => {
                let b = self.front <= i && i < self.back;
                proof {
                    if b {
                        assert(self@[i - self.front] == ch);
                    }
                    if self@.contains(ch) {
                        let j = choose|j: int| 0 <= j < self@.len() && self@[j] == ch;
                        let k = self.front + j;
                        assert(self.charset@[k] == ch);
                        if k < i {
                            assert(self.charset@[k] < self.charset@[i as int]);
                        }
                        if k > i {
                            assert(self.charset@[i as int] < self.charset@[k]);
                        }
                    }
                }
                b
            },
            Err(_) => {
                proof {
                    if self@.contains(ch) {
                        let j = choose|j: int| 0 <= j < self@.len() && self@[j] == ch;
                        assert(self.charset@[self.front + j] == ch);
                    }
                }
                false
            },
        }
    }

    /// Returns the number of members that are still to come, as lower and
    /// upper bound
    pub fn size_hint(&self) -> (r: (usize, Option<usize>))
        requires
            self.wf(),
        ensures
            r.0 == self@.len(),
            r.1 == Some(r.0),
    {
        let sz = self.back - self.front;
        (sz, Some(sz))
    }
}

/// A character met while two ascending sets are walked together, marked with
/// where it stands.
#[derive(Copy, Clone, Debug, PartialEq, Eq, Structural)]
pub enum Diff {
    /// The character is in the left set only.
    Left(char),
    /// The character is in both sets.
    Both(char),
    /// The character is in the right set only.
    Right(char),
}

impl Diff {
    /// The character that the event is about.
    pub open spec fn ch(self) -> char {
        match self {
            Diff::Left(c) => c,
            Diff::Both(c) => c,
            Diff::Right(c) => c,
        }
    }

    /// Returns the character that the event is about
    pub fn to_char(self) -> (c: char)
        ensures
            c == self.ch(),
    {
        match self {
            Diff::Left(c) => c,
            Diff::Both(c) => c,
            Diff::Right(c) => c,
        }
    }
}

/// The first character of a sequence that has one.
pub open spec fn head(s: Seq<char>) -> char {
    s[0]
}

/// The events of walking the ascending sequences `l` and `r` together, the
/// smaller head first.
pub open spec fn merge(l: Seq<char>, r: Seq<char>) -> Seq<Diff>
    decreases l.len() + r.len(),
{
    if l.len() == 0 && r.len() == 0 {
        Seq::empty()
    } else if r.len() == 0 || (l.len() > 0 && head(l) < head(r)) {
        seq![Diff::Left(head(l))] + merge(l.drop_first(), r)
    } else if l.len() == 0 || head(r) < head(l) {
        seq![Diff::Right(head(r))] + merge(l, r.drop_first())
    } else {
        seq![Diff::Both(head(l))] + merge(l.drop_first(), r.drop_first())
    }
}

/// What is in an ascending sequence without its first character: the
/// characters above the first one.
pub proof fn lemma_drop_first(s: Seq<char>)
    requires
        strictly_ascending(s),
        s.len() > 0,
    ensures
        strictly_ascending(s.drop_first()),
        forall|c: char| s.drop_first().contains(c) <==> (s.contains(c) && c != s[0]),
        forall|c: char| s.contains(c) ==> c >= s[0],
{
    let t = s.drop_first();
    assert forall|i: int, j: int| 0 <= i < j < t.len() implies t[i] < t[j] by {
        assert(t[i] == s[i + 1] && t[j] == s[j + 1]);
    }
    assert forall|c: char| t.contains(c) <==> (s.contains(c) && c != s[0]) by {
        if t.contains(c) {
            let i = choose|i: int| 0 <= i < t.len() && t[i] == c;
            assert(s[i + 1] == c);
            assert(s[0] < s[i + 1]);
        }
        if s.contains(c) && c != s[0] {
            let i = choose|i: int| 0 <= i < s.len() && s[i] == c;
            assert(t[i - 1] == c);
        }
    }
    assert forall|c: char| s.contains(c) implies c >= s[0] by {
        let i = choose|i: int| 0 <= i < s.len() && s[i] == c;
        if i > 0 {
            assert(s[0] < s[i]);
        }
    }
}

/// The merge of two ascending sequences is ascending in its characters, and
/// holds each character of either sequence once, marked with the side or
/// sides on which it stands.
pub proof fn lemma_merge(l: Seq<char>, r: Seq<char>)
    requires
        strictly_ascending(l),
        strictly_ascending(r),
    ensures
        forall|i: int, j: int|
            0 <= i < j < merge(l, r).len() ==> (#[trigger] merge(l, r)[i]).ch() < (
            #[trigger] merge(l, r)[j]).ch(),
        forall|c: char| #[trigger]
            merge(l, r).contains(Diff::Left(c)) <==> (l.contains(c) && !r.contains(c)),
        forall|c: char| #[trigger]
            merge(l, r).contains(Diff::Both(c)) <==> (l.contains(c) && r.contains(c)),
        forall|c: char| #[trigger]
            merge(l, r).contains(Diff::Right(c)) <==> (!l.contains(c) && r.contains(c)),
        merge(l, r).len() <= l.len() + r.len(),
    decreases l.len() + r.len(),
{
    let m = merge(l, r);
    if l.len() == 0 && r.len() == 0 {
    } else {
        if l.len() > 0 {
            lemma_drop_first(l);
        }
        if r.len() > 0 {
            lemma_drop_first(r);
        }
        let (first, l1, r1) = if r.len() == 0 || (l.len() > 0 && head(l) < head(r)) {
            (Diff::Left(head(l)), l.drop_first(), r)
        } else if l.len() == 0 || head(r) < head(l) {
            (Diff::Right(head(r)), l, r.drop_first())
        } else {
            (Diff::Both(head(l)), l.drop_first(), r.drop_first())
        };
        let rest = merge(l1, r1);
        lemma_merge(l1, r1);
        assert(m == seq![first] + rest);
        assert(m[0] == first);
        assert forall|i: int| 0 <= i < rest.len() implies m[i + 1] == rest[i] by {}
        assert forall|d: Diff| m.contains(d) <==> (d == first || rest.contains(d)) by {
            if m.contains(d) {
                let i = choose|i: int| 0 <= i < m.len() && m[i] == d;
                if i > 0 {
                    assert(rest[i - 1] == d);
                }
            }
            if rest.contains(d) {
                let i = choose|i: int| 0 <= i < rest.len() && rest[i] == d;
                assert(m[i + 1] == d);
            }
        }
        assert forall|i: int| 0 <= i < rest.len() implies first.ch() < (#[trigger] rest[i]).ch() by {
            let d = rest[i];
            assert(rest.contains(d));
            match d {
                Diff::Left(c) => {
                    assert(rest.contains(Diff::Left(c)));
                },
                Diff::Both(c) => {
                    assert(rest.contains(Diff::Both(c)));
                },
                Diff::Right(c) => {
                    assert(rest.contains(Diff::Right(c)));
                },
            }
        }
        assert forall|i: int, j: int| 0 <= i < j < m.len() implies (#[trigger] m[i]).ch() < (
        #[trigger] m[j]).ch() by {
            if i == 0 {
                assert(m[j] == rest[j - 1]);
            } else {
                assert(m[i] == rest[i - 1] && m[j] == rest[j - 1]);
            }
        }
        assert forall|c: char| #[trigger]
            m.contains(Diff::Left(c)) <==> (l.contains(c) && !r.contains(c)) by {
            assert(rest.contains(Diff::Left(c)) <==> (l1.contains(c) && !r1.contains(c)));
        }
        assert forall|c: char| #[trigger]
            m.contains(Diff::Both(c)) <==> (l.contains(c) && r.contains(c)) by {
            assert(rest.contains(Diff::Both(c)) <==> (l1.contains(c) && r1.contains(c)));
        }
        assert forall|c: char| #[trigger]
            m.contains(Diff::Right(c)) <==> (!l.contains(c) && r.contains(c)) by {
            assert(rest.contains(Diff::Right(c)) <==> (!l1.contains(c) && r1.contains(c)));
        }
    }
}

/// The walk of two [`CharSet`]s together that [`CharSet::diff`] returns.
#[derive(Copy, Clone, Debug, PartialEq, Eq)]
pub struct CharSetDiff {
    left_iter: CharSetIter,
    right_iter: CharSetIter,
}

impl View for CharSetDiff {
    type V = Seq<Diff>;

    /// The events that are still to come.
    closed spec fn view(&self) -> Seq<Diff> {
        merge(self.left_iter@, self.right_iter@)
    }
}

impl CharSetDiff {
    /// The invariant of the representation.
    pub closed spec fn wf(&self) -> bool {
        self.left_iter.wf() && self.right_iter.wf()
    }

    /// The characters of the left set that are still to come.
    pub closed spec fn left(&self) -> Seq<char> {
        self.left_iter@
    }

    /// The characters of the right set that are still to come.
    pub closed spec fn right(&self) -> Seq<char> {
        self.right_iter@
    }

    /// The events that are still to come are the merge of what is left of
    /// the two sets, which are ascending.
    pub proof fn lemma_wf(&self)
        requires
            self.wf(),
        ensures
            self@ == merge(self.left(), self.right()),
            strictly_ascending(self.left()),
            strictly_ascending(self.right()),
            self.left().len() <= CAPACITY,
            self.right().len() <= CAPACITY,
    {
        self.left_iter.lemma_wf();
        self.right_iter.lemma_wf();
    }

    /// Starts the walk of `left` and `right`
    pub fn new(left: CharSet, right: CharSet) -> (d: CharSetDiff)
        requires
            left.wf(),
            right.wf(),
        ensures
            d.wf(),
            d@ == merge(left@, right@),
            d.left() == left@,
            d.right() == right@,
    {
        CharSetDiff { left_iter: left.into_iter(), right_iter: right.into_iter() }
    }

    /// Takes the next event
    pub fn next(&mut self) -> (r: Option<Diff>)
        requires
            old(self).wf(),
        ensures
            final(self).wf(),
            pops_front(old(self)@, r, final(self)@),
    {
        let ghost l = self.left_iter@;
        let ghost r = self.right_iter@;
        match (self.left_iter.peek(), self.right_iter.peek()) {
            (Some(lc), Some(rc)) => {
                if lc < rc {
                    self.left_iter.next();
                    assert(merge(l, r) == seq![Diff::Left(lc)] + self@);
                    assert(self@ =~= merge(l, r).drop_first());
                    Some(Diff::Left(lc))
                } else if lc == rc {
                    self.left_iter.next();
                    self.right_iter.next();
                    assert(merge(l, r) == seq![Diff::Both(lc)] + self@);
                    assert(self@ =~= merge(l, r).drop_first());
                    Some(Diff::Both(lc))
                } else {
                    self.right_iter.next();
                    assert(merge(l, r) == seq![Diff::Right(rc)] + self@);
                    assert(self@ =~= merge(l, r).drop_first());
                    Some(Diff::Right(rc))
                }
            },
            (Some(ch), None) => {
                self.left_iter.next();
                assert(merge(l, r) == seq![Diff::Left(ch)] + self@);
                assert(self@ =~= merge(l, r).drop_first());
                Some(Diff::Left(ch))
            },
            (None, Some(ch)) => {
                self.right_iter.next();
                assert(merge(l, r) == seq![Diff::Right(ch)] + self@);
                assert(self@ =~= merge(l, r).drop_first());
                Some(Diff::Right(ch))
            },
            (None, None) => None,
        }
    }
}



} // verus!
