//! The enumeration of newline sequences.
use crate::errors::{TryFromCharError, TryFromStrError};
use vstd::prelude::*;
use vstd::std_specs::convert::TryFromSpecImpl;
use vstd::string::StringSliceAdditionalSpecFns;
use vstd::utf8::encode_utf8;

verus! {

/// An enumeration of various newline sequences.  This includes both typical
/// newlines used on major operating systems and characters that the Unicode
/// Line Breaking Algorithm treats as mandatory line breaks.
///
/// The order of the variants matches the lexicographic order of the
/// variants' newline sequences as strings.
#[derive(Copy, Clone, Debug, PartialEq, Eq, Ord, Hash, Structural)]
pub enum Newline {
    /// U+000A LINE FEED (LF), the newline sequence used on Unix-like systems
    LineFeed,
    /// U+000B LINE TABULATION (a.k.a. "vertical tab," "VTAB," or "VT")
    VerticalTab,
    /// U+000C FORM FEED (FF), often used to separate pages of text
    FormFeed,
    /// U+000D CARRIAGE RETURN (CR), the newline sequence used on Mac OS 9.x
    /// and earlier
    CarriageReturn,
    /// A carriage return character followed by a line feed character.  This
    /// is the newline sequence used on Windows and by many text-based
    /// internet protocols.
    ///
    /// This is the only multi-character newline sequence.
    CrLf,
    /// U+0085 NEXT LINE (NEL), the Unicode equivalent of the newline sequence
    /// used on EBCDIC-based systems
    NextLine,
    /// U+2028 LINE SEPARATOR
    LineSeparator,
    /// U+2029 PARAGRAPH SEPARATOR
    ParagraphSeparator,
}

/// A newline sequence seen as either a single character or the sequence CR LF.
#[derive(Copy, Clone, Debug, PartialEq, Eq, Structural)]
pub enum CharType {
    /// The newline sequence is the one given character.
    Char(char),
    /// The newline sequence is a carriage return followed by a line feed.
    CrLf,
}

impl Newline {
    /// The number of `Newline` variants
    pub const COUNT: usize = 8;

    /// The position of the variant in the order of the enumeration.
    pub open spec fn rank(self) -> int {
        match self {
            Newline::LineFeed => 0,
            Newline::VerticalTab => 1,
            Newline::FormFeed => 2,
            Newline::CarriageReturn => 3,
            Newline::CrLf => 4,
            Newline::NextLine => 5,
            Newline::LineSeparator => 6,
            Newline::ParagraphSeparator => 7,
        }
    }

    /// All variants, in ascending order.
    pub open spec fn variants() -> Seq<Newline> {
        seq![
            Newline::LineFeed,
            Newline::VerticalTab,
            Newline::FormFeed,
            Newline::CarriageReturn,
            Newline::CrLf,
            Newline::NextLine,
            Newline::LineSeparator,
            Newline::ParagraphSeparator,
        ]
    }

    /// The characters of the newline sequence.
    pub open spec fn spec_str(self) -> Seq<char> {
        match self {
            Newline::LineFeed => seq!['\n'],
            Newline::VerticalTab => seq!['\x0B'],
            Newline::FormFeed => seq!['\x0C'],
            Newline::CarriageReturn => seq!['\r'],
            Newline::CrLf => seq!['\r', '\n'],
            Newline::NextLine => seq!['\u{0085}'],
            Newline::LineSeparator => seq!['\u{2028}'],
            Newline::ParagraphSeparator => seq!['\u{2029}'],
        }
    }

    /// The first character of the newline sequence.  `CarriageReturn` and
    /// `CrLf` are the only two variants that share it.
    pub open spec fn leading_char(self) -> char {
        match self {
            Newline::LineFeed => '\n',
            Newline::VerticalTab => '\x0B',
            Newline::FormFeed => '\x0C',
            Newline::CarriageReturn => '\r',
            Newline::CrLf => '\r',
            Newline::NextLine => '\u{0085}',
            Newline::LineSeparator => '\u{2028}',
            Newline::ParagraphSeparator => '\u{2029}',
        }
    }

    /// Whether the string `a` stands before the string `b` in the
    /// lexicographic order.
    pub open spec fn str_before(a: Seq<char>, b: Seq<char>) -> bool
        decreases a.len(),
    {
        if b.len() == 0 {
            false
        } else if a.len() == 0 {
            true
        } else if a[0] != b[0] {
            a[0] < b[0]
        } else {
            Self::str_before(a.drop_first(), b.drop_first())
        }
    }

    /// The order of the variants is the lexicographic order of their
    /// strings, and so that of their first characters, which only
    /// `CarriageReturn` and `CrLf` share.
    pub proof fn lemma_order(self, other: Newline)
        ensures
            self.leading_char() == self.spec_str()[0],
            self.rank() < other.rank() <==> Self::str_before(self.spec_str(), other.spec_str()),
            self.rank() < other.rank() ==> self.leading_char() <= other.leading_char(),
            self.rank() < other.rank() && self.leading_char() == other.leading_char() ==> self
                == Newline::CarriageReturn && other == Newline::CrLf,
            self.rank() == other.rank() ==> self == other,
            0 <= self.rank() < 8,
    {
        reveal_with_fuel(Newline::str_before, 3);
        let a = self.spec_str();
        let b = other.spec_str();
        assert(a.drop_first().len() == a.len() - 1);
        assert(b.drop_first().len() == b.len() - 1);
        if self == Newline::CrLf {
            assert(a.drop_first()[0] == '\n');
        }
        if other == Newline::CrLf {
            assert(b.drop_first()[0] == '\n');
        }
    }

    /// The newline sequence as a single character or CR LF.
    pub open spec fn spec_chartype(self) -> CharType {
        match self {
            Newline::CrLf => CharType::CrLf,
            _ => CharType::Char(self.leading_char()),
        }
    }

    /// The single character that the newline sequence consists of, if any.
    pub open spec fn spec_as_char(self) -> Option<char> {
        match self {
            Newline::CrLf => None,
            _ => Some(self.leading_char()),
        }
    }

    /// The newline sequence that consists of the character `ch` alone, if any.
    pub open spec fn spec_from_char(ch: char) -> Option<Newline> {
        if ch == '\n' {
            Some(Newline::LineFeed)
        } else if ch == '\x0B' {
            Some(Newline::VerticalTab)
        } else if ch == '\x0C' {
            Some(Newline::FormFeed)
        } else if ch == '\r' {
            Some(Newline::CarriageReturn)
        } else if ch == '\u{0085}' {
            Some(Newline::NextLine)
        } else if ch == '\u{2028}' {
            Some(Newline::LineSeparator)
        } else if ch == '\u{2029}' {
            Some(Newline::ParagraphSeparator)
        } else {
            None
        }
    }

    /// The newline sequence whose characters are exactly `s`, if any.
    pub open spec fn spec_from_str(s: Seq<char>) -> Option<Newline> {
        if s.len() == 1 {
            Self::spec_from_char(s[0])
        } else if s.len() == 2 && s[0] == '\r' && s[1] == '\n' {
            Some(Newline::CrLf)
        } else {
            None
        }
    }

    /// Whether `ch` is the first character of some newline sequence.
    pub open spec fn is_leading_char(ch: char) -> bool {
        Self::spec_from_char(ch) is Some
    }

    /// The number of bytes in the UTF-8 encoding of the newline sequence.
    pub open spec fn spec_len_utf8(self) -> nat {
        match self {
            Newline::LineFeed => 1,
            Newline::VerticalTab => 1,
            Newline::FormFeed => 1,
            Newline::CarriageReturn => 1,
            Newline::CrLf => 2,
            Newline::NextLine => 2,
            Newline::LineSeparator => 3,
            Newline::ParagraphSeparator => 3,
        }
    }

    /// The name of the variant.
    pub open spec fn spec_name(self) -> Seq<char> {
        match self {
            Newline::LineFeed => "LineFeed"@,
            Newline::VerticalTab => "VerticalTab"@,
            Newline::FormFeed => "FormFeed"@,
            Newline::CarriageReturn => "CarriageReturn"@,
            Newline::CrLf => "CrLf"@,
            Newline::NextLine => "NextLine"@,
            Newline::LineSeparator => "LineSeparator"@,
            Newline::ParagraphSeparator => "ParagraphSeparator"@,
        }
    }

    /// Returns the position of the variant in the order of the enumeration
    pub fn index(&self) -> (k: u8)
        ensures
            k == self.rank(),
    {
        match self {
            Newline::LineFeed => 0,
            Newline::VerticalTab => 1,
            Newline::FormFeed => 2,
            Newline::CarriageReturn => 3,
            Newline::CrLf => 4,
            Newline::NextLine => 5,
            Newline::LineSeparator => 6,
            Newline::ParagraphSeparator => 7,
        }
    }

    /// Returns the name of the variant
    pub fn name(&self) -> (s: &'static str)
        ensures
            s@ == self.spec_name(),
    {
        match self {
            Newline::LineFeed => "LineFeed",
            Newline::VerticalTab => "VerticalTab",
            Newline::FormFeed => "FormFeed",
            Newline::CarriageReturn => "CarriageReturn",
            Newline::CrLf => "CrLf",
            Newline::NextLine => "NextLine",
            Newline::LineSeparator => "LineSeparator",
            Newline::ParagraphSeparator => "ParagraphSeparator",
        }
    }

    /// Returns all `Newline` variants in ascending order
    pub fn iter() -> (all: Vec<Newline>)
        ensures
            all@ == Self::variants(),
    {
        let all = vec![
            Newline::LineFeed,
            Newline::VerticalTab,
            Newline::FormFeed,
            Newline::CarriageReturn,
            Newline::CrLf,
            Newline::NextLine,
            Newline::LineSeparator,
            Newline::ParagraphSeparator,
        ];
        assert(all@ =~= Self::variants());
        all
    }

    /// Returns the string representation of the newline sequence
    pub fn as_str(&self) -> (s: &'static str)
        ensures
            s@ == self.spec_str(),
    {
        proof {
            reveal_strlit("\n");
            reveal_strlit("\x0B");
            reveal_strlit("\x0C");
            reveal_strlit("\r");
            reveal_strlit("\r\n");
            reveal_strlit("\u{0085}");
            reveal_strlit("\u{2028}");
            reveal_strlit("\u{2029}");
        }
        let s = match self {
            Newline::LineFeed => "\n",
            Newline::VerticalTab => "\x0B",
            Newline::FormFeed => "\x0C",
            Newline::CarriageReturn => "\r",
            Newline::CrLf => "\r\n",
            Newline::NextLine => "\u{0085}",
            Newline::LineSeparator => "\u{2028}",
            Newline::ParagraphSeparator => "\u{2029}",
        };
        assert(s@ =~= self.spec_str());
        s
    }

    /// If the newline sequence consists of only a single character, returns
    /// that character.
    ///
    /// [`Newline::CrLf`] is the only variant for which this method returns
    /// `None`.
    pub fn as_char(&self) -> (r: Option<char>)
        ensures
            r == self.spec_as_char(),
    {
        match self.chartype() {
            CharType::Char(ch) => Some(ch),
            CharType::CrLf => None,
        }
    }

    /// Returns an enum describing the newline sequence as either a single
    /// character or CR LF
    pub fn chartype(&self) -> (r: CharType)
        ensures
            r == self.spec_chartype(),
    {
        match self {
            Newline::LineFeed => CharType::Char('\n'),
            Newline::VerticalTab => CharType::Char('\x0B'),
            Newline::FormFeed => CharType::Char('\x0C'),
            Newline::CarriageReturn => CharType::Char('\r'),
            Newline::CrLf => CharType::CrLf,
            Newline::NextLine => CharType::Char('\u{0085}'),
            Newline::LineSeparator => CharType::Char('\u{2028}'),
            Newline::ParagraphSeparator => CharType::Char('\u{2029}'),
        }
    }

    /// Returns the number of characters in the newline sequence
    pub fn len_char(&self) -> (n: usize)
        ensures
            n == self.spec_str().len(),
    {
        match self {
            Newline::CrLf => 2,
            _ => 1,
        }
    }

    /// Returns the number of bytes in the UTF-8 encoding of the newline
    /// sequence
    pub fn len_utf8(&self) -> (n: usize)
        ensures
            n == self.spec_len_utf8(),
            n == encode_utf8(self.spec_str()).len(),
    {
        proof {
            self.lemma_len_utf8();
        }
        self.as_str().len()
    }

    /// The UTF-8 encoding of a newline sequence is one to three bytes long,
    /// as [`Newline::spec_len_utf8`] gives it.
    pub proof fn lemma_len_utf8(self)
        ensures
            encode_utf8(self.spec_str()).len() == self.spec_len_utf8(),
    {
        reveal_with_fuel(encode_utf8, 3);
        let s = self.spec_str();
        assert(s.drop_first().len() == s.len() - 1);
        if self == Newline::CrLf {
            assert(s.drop_first().drop_first().len() == 0);
        }
    }

    /// Converting a newline sequence to a string and back gives the same
    /// newline sequence, and so does the detour through its single character
    /// for every variant but `CrLf`, which has no single character.
    pub proof fn lemma_round_trip(self)
        ensures
            Self::spec_from_str(self.spec_str()) == Some(self),
            self != Newline::CrLf ==> self.spec_as_char() is Some && Self::spec_from_char(
                self.spec_as_char().unwrap(),
            ) == Some(self),
            self == Newline::CrLf ==> self.spec_as_char() is None,
            forall|ch: char| Self::spec_from_char(ch) != Some(Newline::CrLf),
    {
    }
}

impl TryFrom<char> for Newline {
    type Error = TryFromCharError;

    /// If the given character is a recognized newline sequence on its own, the
    /// corresponding `Newline` is returned.
    ///
    /// [`Newline::CrLf`] cannot be obtained from this method.
    fn try_from(value: char) -> (r: Result<Newline, TryFromCharError>) {
        match value {
            '\n' => Ok(Newline::LineFeed),
            '\x0B' => Ok(Newline::VerticalTab),
            '\x0C' => Ok(Newline::FormFeed),
            '\r' => Ok(Newline::CarriageReturn),
            '\u{0085}' => Ok(Newline::NextLine),
            '\u{2028}' => Ok(Newline::LineSeparator),
            '\u{2029}' => Ok(Newline::ParagraphSeparator),
            ch => Err(TryFromCharError(ch)),
        }
    }
}

impl TryFromSpecImpl<char> for Newline {
    open spec fn obeys_try_from_spec() -> bool {
        true
    }

    open spec fn try_from_spec(v: char) -> Result<Newline, TryFromCharError> {
        match Newline::spec_from_char(v) {
            Some(nl) => Ok(nl),
            None => Err(TryFromCharError(v)),
        }
    }
}

impl<'a> TryFrom<&'a str> for Newline {
    type Error = TryFromStrError;

    /// If the given string is a recognized newline sequence, the corresponding
    /// `Newline` is returned.
    fn try_from(value: &'a str) -> (r: Result<Newline, TryFromStrError>) {
        let mut chars = value.chars();
        let first = chars.next();
        let second = chars.next();
        let third = chars.next();
        match (first, second, third) {
            (Some(ch), None, _) => match Newline::try_from(ch) {
                Ok(nl) => Ok(nl),
                Err(_) => Err(TryFromStrError),
            },
            (Some('\r'), Some('\n'), None) => Ok(Newline::CrLf),
            _ => Err(TryFromStrError),
        }
    }
}

impl<'a> TryFromSpecImpl<&'a str> for Newline {
    open spec fn obeys_try_from_spec() -> bool {
        true
    }

    open spec fn try_from_spec(v: &'a str) -> Result<Newline, TryFromStrError> {
        match Newline::spec_from_str(v@) {
            Some(nl) => Ok(nl),
            None => Err(TryFromStrError),
        }
    }
}

} // verus!
