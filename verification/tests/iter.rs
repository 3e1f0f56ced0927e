use newlines::{Newline, NewlineSet};

#[test]
fn iter_empty() {
    let mut iter = NewlineSet::new().into_iter();
    assert_eq!(iter.size_hint(), (0, Some(0)));
    assert_eq!(iter.next(), None);
    assert_eq!(iter.size_hint(), (0, Some(0)));
    assert_eq!(iter.next(), None);
}

#[test]
fn iter_empty_rev() {
    let mut iter = NewlineSet::new().into_iter();
    assert_eq!(iter.size_hint(), (0, Some(0)));
    assert_eq!(iter.next_back(), None);
    assert_eq!(iter.size_hint(), (0, Some(0)));
    assert_eq!(iter.next_back(), None);
}

#[test]
fn iter_singleton() {
    let mut iter = NewlineSet::from(Newline::FormFeed).into_iter();
    assert_eq!(iter.size_hint(), (1, Some(1)));
    assert_eq!(iter.next(), Some(Newline::FormFeed));
    assert_eq!(iter.size_hint(), (0, Some(0)));
    assert_eq!(iter.next(), None);
    assert_eq!(iter.size_hint(), (0, Some(0)));
    assert_eq!(iter.next(), None);
}

#[test]
fn iter_singleton_rev() {
    let mut iter = NewlineSet::from(Newline::FormFeed).into_iter();
    assert_eq!(iter.size_hint(), (1, Some(1)));
    assert_eq!(iter.next_back(), Some(Newline::FormFeed));
    assert_eq!(iter.size_hint(), (0, Some(0)));
    assert_eq!(iter.next_back(), None);
    assert_eq!(iter.size_hint(), (0, Some(0)));
    assert_eq!(iter.next_back(), None);
}

#[test]
fn iter_cr() {
    let mut iter = NewlineSet::from(Newline::CarriageReturn).into_iter();
    assert_eq!(iter.size_hint(), (1, Some(1)));
    assert_eq!(iter.next(), Some(Newline::CarriageReturn));
    assert_eq!(iter.size_hint(), (0, Some(0)));
    assert_eq!(iter.next(), None);
    assert_eq!(iter.size_hint(), (0, Some(0)));
    assert_eq!(iter.next(), None);
}

#[test]
fn iter_cr_rev() {
    let mut iter = NewlineSet::from(Newline::CarriageReturn).into_iter();
    assert_eq!(iter.size_hint(), (1, Some(1)));
    assert_eq!(iter.next_back(), Some(Newline::CarriageReturn));
    assert_eq!(iter.size_hint(), (0, Some(0)));
    assert_eq!(iter.next_back(), None);
    assert_eq!(iter.size_hint(), (0, Some(0)));
    assert_eq!(iter.next_back(), None);
}

#[test]
fn iter_crlf() {
    let mut iter = NewlineSet::from(Newline::CrLf).into_iter();
    assert_eq!(iter.size_hint(), (1, Some(1)));
    assert_eq!(iter.next(), Some(Newline::CrLf));
    assert_eq!(iter.size_hint(), (0, Some(0)));
    assert_eq!(iter.next(), None);
    assert_eq!(iter.size_hint(), (0, Some(0)));
    assert_eq!(iter.next(), None);
}

#[test]
fn iter_crlf_rev() {
    let mut iter = NewlineSet::from(Newline::CrLf).into_iter();
    assert_eq!(iter.size_hint(), (1, Some(1)));
    assert_eq!(iter.next_back(), Some(Newline::CrLf));
    assert_eq!(iter.size_hint(), (0, Some(0)));
    assert_eq!(iter.next_back(), None);
    assert_eq!(iter.size_hint(), (0, Some(0)));
    assert_eq!(iter.next_back(), None);
}

#[test]
fn iter_cr_crlf() {
    let mut iter = NewlineSet::from([Newline::CarriageReturn, Newline::CrLf]).into_iter();
    assert_eq!(iter.size_hint(), (2, Some(2)));
    assert_eq!(iter.next(), Some(Newline::CarriageReturn));
    assert_eq!(iter.size_hint(), (1, Some(1)));
    assert_eq!(iter.next(), Some(Newline::CrLf));
    assert_eq!(iter.size_hint(), (0, Some(0)));
    assert_eq!(iter.next(), None);
    assert_eq!(iter.size_hint(), (0, Some(0)));
    assert_eq!(iter.next(), None);
}

#[test]
fn iter_cr_crlf_rev() {
    let mut iter = NewlineSet::from([Newline::CarriageReturn, Newline::CrLf]).into_iter();
    assert_eq!(iter.size_hint(), (2, Some(2)));
    assert_eq!(iter.next_back(), Some(Newline::CrLf));
    assert_eq!(iter.size_hint(), (1, Some(1)));
    assert_eq!(iter.next_back(), Some(Newline::CarriageReturn));
    assert_eq!(iter.size_hint(), (0, Some(0)));
    assert_eq!(iter.next_back(), None);
    assert_eq!(iter.size_hint(), (0, Some(0)));
    assert_eq!(iter.next_back(), None);
}

#[test]
fn iter_all() {
    let mut iter = NewlineSet::from_iter(Newline::iter()).into_iter();
    assert_eq!(iter.size_hint(), (8, Some(8)));
    assert_eq!(iter.next(), Some(Newline::LineFeed));
    assert_eq!(iter.size_hint(), (7, Some(7)));
    assert_eq!(iter.next(), Some(Newline::VerticalTab));
    assert_eq!(iter.size_hint(), (6, Some(6)));
    assert_eq!(iter.next(), Some(Newline::FormFeed));
    assert_eq!(iter.size_hint(), (5, Some(5)));
    assert_eq!(iter.next(), Some(Newline::CarriageReturn));
    assert_eq!(iter.size_hint(), (4, Some(4)));
    assert_eq!(iter.next(), Some(Newline::CrLf));
    assert_eq!(iter.size_hint(), (3, Some(3)));
    assert_eq!(iter.next(), Some(Newline::NextLine));
    assert_eq!(iter.size_hint(), (2, Some(2)));
    assert_eq!(iter.next(), Some(Newline::LineSeparator));
    assert_eq!(iter.size_hint(), (1, Some(1)));
    assert_eq!(iter.next(), Some(Newline::ParagraphSeparator));
    assert_eq!(iter.size_hint(), (0, Some(0)));
    assert_eq!(iter.next(), None);
    assert_eq!(iter.size_hint(), (0, Some(0)));
    assert_eq!(iter.next(), None);
}

#[test]
fn iter_all_rev() {
    let mut iter = NewlineSet::from_iter(Newline::iter()).into_iter();
    assert_eq!(iter.size_hint(), (8, Some(8)));
    assert_eq!(iter.next_back(), Some(Newline::ParagraphSeparator));
    assert_eq!(iter.size_hint(), (7, Some(7)));
    assert_eq!(iter.next_back(), Some(Newline::LineSeparator));
    assert_eq!(iter.size_hint(), (6, Some(6)));
    assert_eq!(iter.next_back(), Some(Newline::NextLine));
    assert_eq!(iter.size_hint(), (5, Some(5)));
    assert_eq!(iter.next_back(), Some(Newline::CrLf));
    assert_eq!(iter.size_hint(), (4, Some(4)));
    assert_eq!(iter.next_back(), Some(Newline::CarriageReturn));
    assert_eq!(iter.size_hint(), (3, Some(3)));
    assert_eq!(iter.next_back(), Some(Newline::FormFeed));
    assert_eq!(iter.size_hint(), (2, Some(2)));
    assert_eq!(iter.next_back(), Some(Newline::VerticalTab));
    assert_eq!(iter.size_hint(), (1, Some(1)));
    assert_eq!(iter.next_back(), Some(Newline::LineFeed));
    assert_eq!(iter.size_hint(), (0, Some(0)));
    assert_eq!(iter.next_back(), None);
    assert_eq!(iter.size_hint(), (0, Some(0)));
    assert_eq!(iter.next_back(), None);
}
