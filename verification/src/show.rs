//! A set of newline sequences as text.
use crate::model::sorted_members;
use crate::nl::Newline;
use crate::nlset::NewlineSet;
use vstd::prelude::*;
use vstd::string::StringExecFns;

verus! {

/// The names of the newline sequences of `v`, with `", "` between them.
pub open spec fn listed(v: Seq<Newline>) -> Seq<char>
    decreases v.len(),
{
    if v.len() == 0 {
        Seq::empty()
    } else if v.len() == 1 {
        v[0].spec_name()
    } else {
        listed(v.drop_last()) + ", "@ + v.last().spec_name()
    }
}

/// The names of the newline sequences of `v`, each on a line of its own,
/// behind four spaces and before a comma.
pub open spec fn listed_pretty(v: Seq<Newline>) -> Seq<char>
    decreases v.len(),
{
    if v.len() == 0 {
        Seq::empty()
    } else {
        listed_pretty(v.drop_last()) + "    "@ + v.last().spec_name() + ",\n"@
    }
}

/// A set as text on one line: the names of the members in ascending order
/// between braces.
pub open spec fn shown(s: Set<Newline>) -> Seq<char> {
    "{"@ + listed(sorted_members(s)) + "}"@
}

/// A set as text on several lines: a line for each member in ascending
/// order between a line with the opening and one with the closing brace,
/// and `{}` for the empty set.
pub open spec fn shown_pretty(s: Set<Newline>) -> Seq<char> {
    if sorted_members(s).len() == 0 {
        "{}"@
    } else {
        "{\n"@ + listed_pretty(sorted_members(s)) + "}"@
    }
}

impl NewlineSet {
    /// Returns the set as text on one line, such as `{LineFeed, CrLf}`
    pub fn debug_string(&self) -> (text: String)
        requires
            self.wf(),
        ensures
            text@ == shown(self@),
    {
        let mut text = String::from_str("{");
        let mut it = self.iter();
        let mut first = true;
        let ghost all = it@;
        let ghost mut k: int = 0;
        assert(all.take(0) =~= Seq::<Newline>::empty());
        loop
            invariant
                it.wf(),
                0 <= k <= all.len(),
                first == (k == 0),
                it@ == all.skip(k),
                all == sorted_members(self@),
                text@ == "{"@ + listed(all.take(k)),
            decreases all.len() - k,
        {
            match it.next() {
                None => {
                    assert(all.take(k) =~= all);
                    text.append("}");
                    return text;
                },
                Some(nl) => {
                    proof {
                        assert(all.skip(k)[0] == all[k]);
                        assert(all.skip(k).drop_first() =~= all.skip(k + 1));
                        assert(all.take(k + 1).drop_last() =~= all.take(k));
                        assert(all.take(k + 1).last() == nl);
                    }
                    if !first {
                        text.append(", ");
                    }
                    text.append(nl.name());
                    first = false;
                    proof {
                        if k == 0 {
                            assert(all.take(k + 1)[0] == nl);
                            assert(listed(all.take(k)) =~= Seq::<char>::empty());
                        }
                        assert(text@ =~= "{"@ + listed(all.take(k + 1)));
                        k = k + 1;
                    }
                },
            }
        }
    }

    /// Returns the set as text with a line for each member, such as
    /// `{`, `    LineFeed,`, `    CrLf,` and `}` on four lines
    pub fn pretty_debug_string(&self) -> (text: String)
        requires
            self.wf(),
        ensures
            text@ == shown_pretty(self@),
    {
        if self.is_empty() {
            proof {
                crate::model::lemma_sorted_members(self@);
            }
            return String::from_str("{}");
        }
        let mut text = String::from_str("{\n");
        let mut it = self.iter();
        let ghost all = it@;
        let ghost mut k: int = 0;
        proof {
            crate::model::lemma_sorted_members(self@);
            assert(all.take(0) =~= Seq::<Newline>::empty());
        }
        loop
            invariant
                it.wf(),
                0 <= k <= all.len(),
                all.len() > 0,
                it@ == all.skip(k),
                all == sorted_members(self@),
                text@ == "{\n"@ + listed_pretty(all.take(k)),
            decreases all.len() - k,
        {
            match it.next() {
                None => {
                    assert(all.take(k) =~= all);
                    text.append("}");
                    return text;
                },
                Some(nl) => {
                    proof {
                        assert(all.skip(k)[0] == all[k]);
                        assert(all.skip(k).drop_first() =~= all.skip(k + 1));
                        assert(all.take(k + 1).drop_last() =~= all.take(k));
                        assert(all.take(k + 1).last() == nl);
                    }
                    text.append("    ");
                    text.append(nl.name());
                    text.append(",\n");
                    proof {
                        assert(text@ =~= "{\n"@ + listed_pretty(all.take(k + 1)));
                        k = k + 1;
                    }
                },
            }
        }
    }
}

} // verus!
