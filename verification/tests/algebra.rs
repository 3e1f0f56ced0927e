use newlines::iter::{Complement, Difference, Intersection, SymmetricDifference, Union};
use newlines::{Newline, NewlineSet};

fn all() -> Vec<Newline> {
    Newline::iter()
}

fn all_but(nl: Newline) -> Vec<Newline> {
    Newline::iter().into_iter().filter(|&x| x != nl).collect()
}

fn union_items(mut it: Union) -> Vec<Newline> {
    let mut v = Vec::new();
    while let Some(nl) = it.next() {
        v.push(nl);
    }
    v
}

fn intersection_items(mut it: Intersection) -> Vec<Newline> {
    let mut v = Vec::new();
    while let Some(nl) = it.next() {
        v.push(nl);
    }
    v
}

fn symmetric_difference_items(mut it: SymmetricDifference) -> Vec<Newline> {
    let mut v = Vec::new();
    while let Some(nl) = it.next() {
        v.push(nl);
    }
    v
}

fn difference_items(mut it: Difference) -> Vec<Newline> {
    let mut v = Vec::new();
    while let Some(nl) = it.next() {
        v.push(nl);
    }
    v
}

fn complement_items(mut it: Complement) -> Vec<Newline> {
    let mut v = Vec::new();
    while let Some(nl) = it.next() {
        v.push(nl);
    }
    v
}

fn set_of(bits: u32) -> NewlineSet {
    let mut nlset = NewlineSet::new();
    for (k, nl) in Newline::iter().into_iter().enumerate() {
        if bits & (1 << k) != 0 {
            nlset.insert(nl);
        }
    }
    nlset
}

fn members_of(bits: u32) -> Vec<Newline> {
    Newline::iter()
        .into_iter()
        .enumerate()
        .filter(|&(k, _)| bits & (1 << k) != 0)
        .map(|(_, nl)| nl)
        .collect()
}

fn check_union(left: Vec<Newline>, right: Vec<Newline>, both: Vec<Newline>) {
    let nlset1 = NewlineSet::from_iter(left);
    let nlset2 = NewlineSet::from_iter(right);
    assert_eq!(union_items(nlset1.union(nlset2)), both);
    assert_eq!(union_items(nlset2.union(nlset1)), both);
    let combo = NewlineSet::from_iter(both);
    assert_eq!(nlset1 | nlset2, combo);
    assert_eq!(nlset2 | nlset1, combo);
    assert_eq!(nlset1.union(nlset2).into_newline_set(), combo);
}

#[test]
fn test_union() {
    check_union(Vec::new(), Vec::new(), Vec::new());
    check_union(Vec::new(), vec![Newline::LineFeed], vec![Newline::LineFeed]);
    check_union(Vec::new(), vec![Newline::CarriageReturn], vec![Newline::CarriageReturn]);
    check_union(Vec::new(), vec![Newline::CarriageReturn, Newline::CrLf], vec![Newline::CarriageReturn, Newline::CrLf]);
    check_union(Vec::new(), vec![Newline::CrLf], vec![Newline::CrLf]);
    check_union(vec![Newline::CarriageReturn], vec![Newline::CrLf], vec![Newline::CarriageReturn, Newline::CrLf]);
    check_union(vec![Newline::LineFeed], vec![Newline::CarriageReturn], vec![Newline::LineFeed, Newline::CarriageReturn]);
    check_union(vec![Newline::LineFeed, Newline::FormFeed], vec![Newline::FormFeed, Newline::VerticalTab], vec![Newline::LineFeed, Newline::VerticalTab, Newline::FormFeed]);
    check_union(all(), vec![Newline::NextLine], all());
}

fn check_nlset_bitor_nl(left: Vec<Newline>, nl: Newline, both: Vec<Newline>) {
    let nlset = NewlineSet::from_iter(left);
    let combo = NewlineSet::from_iter(both);
    assert_eq!(nlset | nl, combo);
    assert_eq!(nl | nlset, combo);
}

#[test]
fn test_nlset_bitor_nl() {
    check_nlset_bitor_nl(Vec::new(), Newline::LineFeed, vec![Newline::LineFeed]);
    check_nlset_bitor_nl(Vec::new(), Newline::CarriageReturn, vec![Newline::CarriageReturn]);
    check_nlset_bitor_nl(Vec::new(), Newline::CrLf, vec![Newline::CrLf]);
    check_nlset_bitor_nl(vec![Newline::CarriageReturn], Newline::CrLf, vec![Newline::CarriageReturn, Newline::CrLf]);
    check_nlset_bitor_nl(vec![Newline::LineFeed], Newline::CarriageReturn, vec![Newline::LineFeed, Newline::CarriageReturn]);
    check_nlset_bitor_nl(all(), Newline::NextLine, all());
}

fn check_nl_bitor_nl(nl1: Newline, nl2: Newline, both: Vec<Newline>) {
    let combo = NewlineSet::from_iter(both);
    assert_eq!(nl1 | nl2, combo);
    assert_eq!(nl2 | nl1, combo);
}

#[test]
fn test_nl_bitor_nl() {
    check_nl_bitor_nl(Newline::LineFeed, Newline::LineFeed, vec![Newline::LineFeed]);
    check_nl_bitor_nl(Newline::LineFeed, Newline::CarriageReturn, vec![Newline::LineFeed, Newline::CarriageReturn]);
    check_nl_bitor_nl(Newline::LineFeed, Newline::CrLf, vec![Newline::LineFeed, Newline::CrLf]);
    check_nl_bitor_nl(Newline::CrLf, Newline::CrLf, vec![Newline::CrLf]);
    check_nl_bitor_nl(Newline::CarriageReturn, Newline::CarriageReturn, vec![Newline::CarriageReturn]);
    check_nl_bitor_nl(Newline::CarriageReturn, Newline::CrLf, vec![Newline::CarriageReturn, Newline::CrLf]);
    check_nl_bitor_nl(Newline::LineFeed, Newline::NextLine, vec![Newline::LineFeed, Newline::NextLine]);
}

fn check_intersection(left: Vec<Newline>, right: Vec<Newline>, both: Vec<Newline>) {
    let nlset1 = NewlineSet::from_iter(left);
    let nlset2 = NewlineSet::from_iter(right);
    assert_eq!(intersection_items(nlset1.intersection(nlset2)), both);
    assert_eq!(intersection_items(nlset2.intersection(nlset1)), both);
    let combo = NewlineSet::from_iter(both);
    assert_eq!(nlset1 & nlset2, combo);
    assert_eq!(nlset2 & nlset1, combo);
    assert_eq!(nlset1.intersection(nlset2).into_newline_set(), combo);
}

#[test]
fn test_intersection() {
    check_intersection(Vec::new(), Vec::new(), Vec::new());
    check_intersection(Vec::new(), vec![Newline::LineFeed], Vec::new());
    check_intersection(Vec::new(), vec![Newline::CarriageReturn], Vec::new());
    check_intersection(Vec::new(), vec![Newline::CarriageReturn, Newline::CrLf], Vec::new());
    check_intersection(vec![Newline::CarriageReturn], vec![Newline::CarriageReturn, Newline::CrLf], vec![Newline::CarriageReturn]);
    check_intersection(vec![Newline::CrLf], vec![Newline::CarriageReturn, Newline::CrLf], vec![Newline::CrLf]);
    check_intersection(vec![Newline::CarriageReturn, Newline::CrLf], vec![Newline::CarriageReturn, Newline::CrLf], vec![Newline::CarriageReturn, Newline::CrLf]);
    check_intersection(Vec::new(), vec![Newline::CrLf], Vec::new());
    check_intersection(vec![Newline::CarriageReturn], vec![Newline::CrLf], Vec::new());
    check_intersection(vec![Newline::LineFeed], vec![Newline::CarriageReturn], Vec::new());
    check_intersection(vec![Newline::LineFeed], vec![Newline::LineFeed], vec![Newline::LineFeed]);
    check_intersection(vec![Newline::LineFeed, Newline::FormFeed], vec![Newline::FormFeed, Newline::VerticalTab], vec![Newline::FormFeed]);
    check_intersection(all(), vec![Newline::NextLine], vec![Newline::NextLine]);
}

fn check_nlset_bitand_nl(left: Vec<Newline>, nl: Newline, both: Vec<Newline>) {
    let nlset = NewlineSet::from_iter(left);
    let combo = NewlineSet::from_iter(both);
    assert_eq!(nlset & nl, combo);
    assert_eq!(nl & nlset, combo);
}

#[test]
fn test_nlset_bitand_nl() {
    check_nlset_bitand_nl(Vec::new(), Newline::LineFeed, Vec::new());
    check_nlset_bitand_nl(Vec::new(), Newline::CarriageReturn, Vec::new());
    check_nlset_bitand_nl(Vec::new(), Newline::CrLf, Vec::new());
    check_nlset_bitand_nl(vec![Newline::CarriageReturn], Newline::CrLf, Vec::new());
    check_nlset_bitand_nl(vec![Newline::CarriageReturn, Newline::CrLf], Newline::CrLf, vec![Newline::CrLf]);
    check_nlset_bitand_nl(vec![Newline::CarriageReturn, Newline::CrLf], Newline::CarriageReturn, vec![Newline::CarriageReturn]);
    check_nlset_bitand_nl(vec![Newline::LineFeed], Newline::CarriageReturn, Vec::new());
    check_nlset_bitand_nl(vec![Newline::LineFeed], Newline::LineFeed, vec![Newline::LineFeed]);
    check_nlset_bitand_nl(all(), Newline::NextLine, vec![Newline::NextLine]);
}

fn check_nl_bitand_nl(nl1: Newline, nl2: Newline, both: Vec<Newline>) {
    let combo = NewlineSet::from_iter(both);
    assert_eq!(nl1 & nl2, combo);
    assert_eq!(nl2 & nl1, combo);
}

#[test]
fn test_nl_bitand_nl() {
    check_nl_bitand_nl(Newline::LineFeed, Newline::LineFeed, vec![Newline::LineFeed]);
    check_nl_bitand_nl(Newline::LineFeed, Newline::CarriageReturn, Vec::new());
    check_nl_bitand_nl(Newline::LineFeed, Newline::CrLf, Vec::new());
    check_nl_bitand_nl(Newline::CrLf, Newline::CrLf, vec![Newline::CrLf]);
    check_nl_bitand_nl(Newline::CarriageReturn, Newline::CarriageReturn, vec![Newline::CarriageReturn]);
    check_nl_bitand_nl(Newline::CarriageReturn, Newline::CrLf, Vec::new());
    check_nl_bitand_nl(Newline::LineFeed, Newline::NextLine, Vec::new());
}

fn check_symmetric_difference(left: Vec<Newline>, right: Vec<Newline>, both: Vec<Newline>) {
    let nlset1 = NewlineSet::from_iter(left);
    let nlset2 = NewlineSet::from_iter(right);
    assert_eq!(
        symmetric_difference_items(nlset1.symmetric_difference(nlset2)),
        both
    );
    assert_eq!(
        symmetric_difference_items(nlset2.symmetric_difference(nlset1)),
        both
    );
    let combo = NewlineSet::from_iter(both);
    assert_eq!(nlset1 ^ nlset2, combo);
    assert_eq!(nlset2 ^ nlset1, combo);
    assert_eq!(nlset1.symmetric_difference(nlset2).into_newline_set(), combo);
}

#[test]
fn test_symmetric_difference() {
    check_symmetric_difference(Vec::new(), Vec::new(), Vec::new());
    check_symmetric_difference(Vec::new(), vec![Newline::LineFeed], vec![Newline::LineFeed]);
    check_symmetric_difference(vec![Newline::LineFeed], vec![Newline::NextLine], vec![Newline::LineFeed, Newline::NextLine]);
    check_symmetric_difference(Vec::new(), vec![Newline::CarriageReturn], vec![Newline::CarriageReturn]);
    check_symmetric_difference(Vec::new(), vec![Newline::CrLf], vec![Newline::CrLf]);
    check_symmetric_difference(vec![Newline::CarriageReturn], vec![Newline::CrLf], vec![Newline::CarriageReturn, Newline::CrLf]);
    check_symmetric_difference(Vec::new(), vec![Newline::CarriageReturn, Newline::CrLf], vec![Newline::CarriageReturn, Newline::CrLf]);
    check_symmetric_difference(vec![Newline::CarriageReturn], vec![Newline::CarriageReturn, Newline::CrLf], vec![Newline::CrLf]);
    check_symmetric_difference(vec![Newline::CrLf], vec![Newline::CarriageReturn, Newline::CrLf], vec![Newline::CarriageReturn]);
    check_symmetric_difference(vec![Newline::CarriageReturn, Newline::CrLf], vec![Newline::CarriageReturn, Newline::CrLf], Vec::new());
    check_symmetric_difference(vec![Newline::LineFeed], vec![Newline::CarriageReturn], vec![Newline::LineFeed, Newline::CarriageReturn]);
    check_symmetric_difference(vec![Newline::LineFeed], vec![Newline::LineFeed], Vec::new());
    check_symmetric_difference(vec![Newline::LineFeed, Newline::FormFeed], vec![Newline::FormFeed, Newline::VerticalTab], vec![Newline::LineFeed, Newline::VerticalTab]);
    check_symmetric_difference(all(), vec![Newline::NextLine], all_but(Newline::NextLine));
}

fn check_nlset_bitxor_nl(left: Vec<Newline>, nl: Newline, both: Vec<Newline>) {
    let nlset = NewlineSet::from_iter(left);
    let combo = NewlineSet::from_iter(both);
    assert_eq!(nlset ^ nl, combo);
    assert_eq!(nl ^ nlset, combo);
}

#[test]
fn test_nlset_bitxor_nl() {
    check_nlset_bitxor_nl(Vec::new(), Newline::LineFeed, vec![Newline::LineFeed]);
    check_nlset_bitxor_nl(Vec::new(), Newline::CarriageReturn, vec![Newline::CarriageReturn]);
    check_nlset_bitxor_nl(Vec::new(), Newline::CrLf, vec![Newline::CrLf]);
    check_nlset_bitxor_nl(vec![Newline::CarriageReturn], Newline::CrLf, vec![Newline::CarriageReturn, Newline::CrLf]);
    check_nlset_bitxor_nl(vec![Newline::CarriageReturn, Newline::CrLf], Newline::CrLf, vec![Newline::CarriageReturn]);
    check_nlset_bitxor_nl(vec![Newline::CarriageReturn, Newline::CrLf], Newline::CarriageReturn, vec![Newline::CrLf]);
    check_nlset_bitxor_nl(vec![Newline::LineFeed], Newline::CarriageReturn, vec![Newline::LineFeed, Newline::CarriageReturn]);
    check_nlset_bitxor_nl(vec![Newline::LineFeed], Newline::LineFeed, Vec::new());
    check_nlset_bitxor_nl(all(), Newline::NextLine, all_but(Newline::NextLine));
}

fn check_nl_bitxor_nl(nl1: Newline, nl2: Newline, both: Vec<Newline>) {
    let combo = NewlineSet::from_iter(both);
    assert_eq!(nl1 ^ nl2, combo);
    assert_eq!(nl2 ^ nl1, combo);
}

#[test]
fn test_nl_bitxor_nl() {
    check_nl_bitxor_nl(Newline::LineFeed, Newline::LineFeed, Vec::new());
    check_nl_bitxor_nl(Newline::LineFeed, Newline::CarriageReturn, vec![Newline::LineFeed, Newline::CarriageReturn]);
    check_nl_bitxor_nl(Newline::LineFeed, Newline::CrLf, vec![Newline::LineFeed, Newline::CrLf]);
    check_nl_bitxor_nl(Newline::CrLf, Newline::CrLf, Vec::new());
    check_nl_bitxor_nl(Newline::CarriageReturn, Newline::CarriageReturn, Vec::new());
    check_nl_bitxor_nl(Newline::CarriageReturn, Newline::CrLf, vec![Newline::CarriageReturn, Newline::CrLf]);
    check_nl_bitxor_nl(Newline::LineFeed, Newline::NextLine, vec![Newline::LineFeed, Newline::NextLine]);
}

fn check_difference(left: Vec<Newline>, right: Vec<Newline>, both: Vec<Newline>) {
    let nlset1 = NewlineSet::from_iter(left);
    let nlset2 = NewlineSet::from_iter(right);
    assert_eq!(difference_items(nlset1.difference(nlset2)), both);
    let combo = NewlineSet::from_iter(both);
    assert_eq!(nlset1 - nlset2, combo);
    assert_eq!(nlset1.difference(nlset2).into_newline_set(), combo);
}

#[test]
fn test_difference() {
    check_difference(Vec::new(), Vec::new(), Vec::new());
    check_difference(Vec::new(), vec![Newline::LineFeed], Vec::new());
    check_difference(vec![Newline::LineFeed], Vec::new(), vec![Newline::LineFeed]);
    check_difference(vec![Newline::LineFeed], vec![Newline::NextLine], vec![Newline::LineFeed]);
    check_difference(Vec::new(), vec![Newline::CarriageReturn], Vec::new());
    check_difference(vec![Newline::CarriageReturn], Vec::new(), vec![Newline::CarriageReturn]);
    check_difference(Vec::new(), vec![Newline::CrLf], Vec::new());
    check_difference(vec![Newline::CrLf], Vec::new(), vec![Newline::CrLf]);
    check_difference(vec![Newline::CarriageReturn], vec![Newline::CrLf], vec![Newline::CarriageReturn]);
    check_difference(vec![Newline::CrLf], vec![Newline::CarriageReturn], vec![Newline::CrLf]);
    check_difference(Vec::new(), vec![Newline::CarriageReturn, Newline::CrLf], Vec::new());
    check_difference(vec![Newline::CarriageReturn, Newline::CrLf], Vec::new(), vec![Newline::CarriageReturn, Newline::CrLf]);
    check_difference(vec![Newline::CarriageReturn], vec![Newline::CarriageReturn, Newline::CrLf], Vec::new());
    check_difference(vec![Newline::CarriageReturn, Newline::CrLf], vec![Newline::CarriageReturn], vec![Newline::CrLf]);
    check_difference(vec![Newline::CrLf], vec![Newline::CarriageReturn, Newline::CrLf], Vec::new());
    check_difference(vec![Newline::CarriageReturn, Newline::CrLf], vec![Newline::CrLf], vec![Newline::CarriageReturn]);
    check_difference(vec![Newline::CarriageReturn, Newline::CrLf], vec![Newline::CarriageReturn, Newline::CrLf], Vec::new());
    check_difference(vec![Newline::LineFeed], vec![Newline::CarriageReturn], vec![Newline::LineFeed]);
    check_difference(vec![Newline::LineFeed], vec![Newline::LineFeed], Vec::new());
    check_difference(vec![Newline::LineFeed, Newline::FormFeed], vec![Newline::FormFeed, Newline::VerticalTab], vec![Newline::LineFeed]);
    check_difference(all(), vec![Newline::NextLine], all_but(Newline::NextLine));
    check_difference(vec![Newline::NextLine], all(), Vec::new());
}

fn check_nlset_sub_nl(left: Vec<Newline>, nl: Newline, both: Vec<Newline>) {
    let nlset = NewlineSet::from_iter(left);
    let combo = NewlineSet::from_iter(both);
    assert_eq!(nlset - nl, combo);
}

#[test]
fn test_nlset_sub_nl() {
    check_nlset_sub_nl(Vec::new(), Newline::LineFeed, Vec::new());
    check_nlset_sub_nl(vec![Newline::LineFeed], Newline::NextLine, vec![Newline::LineFeed]);
    check_nlset_sub_nl(Vec::new(), Newline::CarriageReturn, Vec::new());
    check_nlset_sub_nl(Vec::new(), Newline::CrLf, Vec::new());
    check_nlset_sub_nl(vec![Newline::CarriageReturn], Newline::CrLf, vec![Newline::CarriageReturn]);
    check_nlset_sub_nl(vec![Newline::CrLf], Newline::CarriageReturn, vec![Newline::CrLf]);
    check_nlset_sub_nl(vec![Newline::CarriageReturn, Newline::CrLf], Newline::CrLf, vec![Newline::CarriageReturn]);
    check_nlset_sub_nl(vec![Newline::CarriageReturn, Newline::CrLf], Newline::CarriageReturn, vec![Newline::CrLf]);
    check_nlset_sub_nl(vec![Newline::LineFeed], Newline::CarriageReturn, vec![Newline::LineFeed]);
    check_nlset_sub_nl(vec![Newline::LineFeed], Newline::LineFeed, Vec::new());
    check_nlset_sub_nl(all(), Newline::NextLine, all_but(Newline::NextLine));
}

fn check_nl_sub_nl(nl1: Newline, nl2: Newline, both: Vec<Newline>) {
    let combo = NewlineSet::from_iter(both);
    assert_eq!(nl1 - nl2, combo);
}

#[test]
fn test_nl_sub_nl() {
    check_nl_sub_nl(Newline::LineFeed, Newline::LineFeed, Vec::new());
    check_nl_sub_nl(Newline::LineFeed, Newline::CarriageReturn, vec![Newline::LineFeed]);
    check_nl_sub_nl(Newline::LineFeed, Newline::CrLf, vec![Newline::LineFeed]);
    check_nl_sub_nl(Newline::CrLf, Newline::CrLf, Vec::new());
    check_nl_sub_nl(Newline::CarriageReturn, Newline::CarriageReturn, Vec::new());
    check_nl_sub_nl(Newline::CarriageReturn, Newline::CrLf, vec![Newline::CarriageReturn]);
    check_nl_sub_nl(Newline::LineFeed, Newline::NextLine, vec![Newline::LineFeed]);
}

fn check_complement(nlset: Vec<Newline>, comp: Vec<Newline>) {
    let nlset = NewlineSet::from_iter(nlset);
    assert_eq!(complement_items(nlset.complement()), comp);
    let comp = NewlineSet::from_iter(comp);
    assert_eq!(!nlset, comp);
    assert_eq!(nlset.complement().into_newline_set(), comp);
}

#[test]
fn test_complement() {
    check_complement(Vec::new(), all());
    check_complement(all(), Vec::new());
    check_complement(vec![Newline::CarriageReturn, Newline::CrLf], vec![Newline::LineFeed, Newline::VerticalTab, Newline::FormFeed, Newline::NextLine, Newline::LineSeparator, Newline::ParagraphSeparator]);
    check_complement(vec![Newline::CarriageReturn, Newline::VerticalTab, Newline::FormFeed], vec![Newline::LineFeed, Newline::CrLf, Newline::NextLine, Newline::LineSeparator, Newline::ParagraphSeparator]);
}

#[test]
fn cr_and_crlf_are_members_of_their_own() {
    let cr = NewlineSet::from(Newline::CarriageReturn);
    assert!(!cr.contains(Newline::CrLf));
    assert_eq!(cr.len(), 1);
    assert_eq!(cr.pattern(), ['\r']);
    let crlf = NewlineSet::from(Newline::CrLf);
    assert!(!crlf.contains(Newline::CarriageReturn));
    assert_eq!(crlf.len(), 1);
    assert_eq!(crlf.pattern(), ['\r']);
    let both = NewlineSet::from([Newline::CarriageReturn, Newline::CrLf]);
    assert_eq!(both.len(), 2);
    assert_eq!(both.pattern(), ['\r']);
    let mut it = both.iter();
    assert_eq!(it.next(), Some(Newline::CarriageReturn));
    assert_eq!(it.next(), Some(Newline::CrLf));
    assert_eq!(it.next(), None);
    let mut it = both.iter();
    assert_eq!(it.next_back(), Some(Newline::CrLf));
    assert_eq!(it.next_back(), Some(Newline::CarriageReturn));
    assert_eq!(it.next_back(), None);
    assert!(cr.is_disjoint(crlf));
    assert_eq!(both ^ crlf, cr);
    assert_eq!(
        symmetric_difference_items(both.symmetric_difference(crlf)),
        [Newline::CarriageReturn]
    );
}

#[test]
fn removing_one_of_cr_and_crlf_keeps_the_shared_character() {
    let mut nlset = NewlineSet::ascii();
    assert_eq!(nlset.pattern(), ['\n', '\r']);
    assert!(nlset.remove(Newline::CarriageReturn));
    assert_eq!(nlset.pattern(), ['\n', '\r']);
    assert_eq!(nlset, NewlineSet::rust());
    assert!(nlset.remove(Newline::CrLf));
    assert_eq!(nlset.pattern(), ['\n']);
    assert!(nlset.insert(Newline::CrLf));
    assert!(nlset.insert(Newline::CarriageReturn));
    assert_eq!(nlset.pattern(), ['\n', '\r']);
    assert_eq!(nlset, NewlineSet::ascii());
}

#[test]
fn full_set_has_eight_members_in_order() {
    let nlset = NewlineSet::from_iter(Newline::iter());
    assert_eq!(nlset.len(), 8);
    assert_eq!(
        nlset.pattern(),
        ['\n', '\x0B', '\x0C', '\r', '\u{0085}', '\u{2028}', '\u{2029}']
    );
    let mut it = nlset.iter();
    let mut seen = Vec::new();
    while let Some(nl) = it.next() {
        seen.push(nl);
    }
    assert_eq!(
        seen,
        [
            Newline::LineFeed,
            Newline::VerticalTab,
            Newline::FormFeed,
            Newline::CarriageReturn,
            Newline::CrLf,
            Newline::NextLine,
            Newline::LineSeparator,
            Newline::ParagraphSeparator,
        ]
    );
}

#[test]
fn empty_set_answers_nothing() {
    let empty = NewlineSet::new();
    assert_eq!(empty.len(), 0);
    assert!(empty.is_empty());
    assert!(empty.pattern().is_empty());
    for nl in Newline::iter() {
        assert!(!empty.contains(nl));
    }
    assert_eq!(empty.iter().next(), None);
    assert_eq!(empty.iter().next_back(), None);
    assert!(empty.is_disjoint(empty));
    assert!(empty.is_subset(empty));
    assert!(empty.is_subset(NewlineSet::all()));
    assert!(empty.is_disjoint(NewlineSet::all()));
    assert_eq!(!empty, NewlineSet::all());
    assert_eq!(complement_items(empty.complement()), Newline::iter());
    assert_eq!(!NewlineSet::all(), empty);
    assert_eq!(empty | empty, empty);
    assert_eq!(empty & NewlineSet::all(), empty);
}

#[test]
fn insert_and_remove_round_trip() {
    for nl in Newline::iter() {
        let mut nlset = NewlineSet::new();
        assert!(nlset.insert(nl));
        assert!(nlset.remove(nl));
        assert_eq!(nlset, NewlineSet::new());
    }
    for bits in 0..256u32 {
        for nl in Newline::iter() {
            let before = set_of(bits);
            let mut nlset = before;
            let added = nlset.insert(nl);
            assert_eq!(added, !before.contains(nl));
            if !added {
                assert_eq!(nlset, before);
            }
            assert!(nlset.contains(nl));
            assert_eq!(nlset.len(), before.len() + usize::from(added));
            let mut nlset = before;
            let removed = nlset.remove(nl);
            assert_eq!(removed, before.contains(nl));
            if !removed {
                assert_eq!(nlset, before);
            }
            assert!(!nlset.contains(nl));
            assert_eq!(nlset.len(), before.len() - usize::from(removed));
        }
    }
}

#[test]
fn sets_are_what_their_members_say() {
    for bits in 0..256u32 {
        let nlset = set_of(bits);
        let members = members_of(bits);
        assert_eq!(nlset.len(), members.len());
        assert_eq!(nlset.is_empty(), members.is_empty());
        assert_eq!(nlset, NewlineSet::from_iter(members.clone()));
        let mut reversed = members.clone();
        reversed.reverse();
        assert_eq!(nlset, NewlineSet::from_iter(reversed));
        let mut it = nlset.iter();
        assert_eq!(it.size_hint(), (members.len(), Some(members.len())));
        let mut seen = Vec::new();
        while let Some(nl) = it.next() {
            seen.push(nl);
        }
        assert_eq!(seen, members);
        let mut it = nlset.iter();
        let mut seen = Vec::new();
        while let Some(nl) = it.next_back() {
            seen.push(nl);
        }
        seen.reverse();
        assert_eq!(seen, members);
        let mut pattern: Vec<char> = members
            .iter()
            .map(|nl| nl.as_str().chars().next().unwrap())
            .collect();
        pattern.dedup();
        assert_eq!(nlset.pattern(), pattern);
        assert_eq!(nlset.charset().as_slice(), pattern);
    }
}

#[test]
fn set_algebra_on_all_pairs_of_sets() {
    for a_bits in 0..256u32 {
        let a = set_of(a_bits);
        assert_eq!(complement_items(a.complement()), members_of(!a_bits & 0xFF));
        assert_eq!(!(!a), a);
        assert!(a.is_disjoint(!a));
        assert_eq!(a & a, a);
        assert_eq!(
            a.complement().size_hint(),
            (8 - a.len(), Some(8 - a.len()))
        );
        for b_bits in 0..256u32 {
            let b = set_of(b_bits);
            // Union
            let expected = members_of(a_bits | b_bits);
            let it = a.union(b);
            assert_eq!(it.size_hint(), (expected.len(), Some(expected.len())));
            assert_eq!(union_items(it), expected);
            assert_eq!(a | b, set_of(a_bits | b_bits));
            // Intersection
            let expected = members_of(a_bits & b_bits);
            let it = a.intersection(b);
            assert_eq!(it.size_hint(), (expected.len(), Some(expected.len())));
            assert_eq!(intersection_items(it), expected);
            assert_eq!(a & b, set_of(a_bits & b_bits));
            assert_eq!(a & b, b & a);
            // Symmetric difference
            let expected = members_of(a_bits ^ b_bits);
            let it = a.symmetric_difference(b);
            assert_eq!(it.size_hint(), (expected.len(), Some(expected.len())));
            assert_eq!(symmetric_difference_items(it), expected);
            assert_eq!(a ^ b, set_of(a_bits ^ b_bits));
            // Difference
            let expected = members_of(a_bits & !b_bits);
            let it = a.difference(b);
            assert_eq!(it.size_hint(), (expected.len(), Some(expected.len())));
            assert_eq!(difference_items(it), expected);
            assert_eq!(a - b, set_of(a_bits & !b_bits));
            assert!((a - b).is_disjoint(b));
            assert_eq!((a - b) | (a & b), a);
            // Predicates
            assert_eq!(a.is_disjoint(b), a_bits & b_bits == 0);
            assert_eq!(a.is_subset(b), a_bits & !b_bits == 0);
            assert_eq!(a.is_superset(b), b_bits & !a_bits == 0);
            assert_eq!(a == b, a_bits == b_bits);
        }
    }
}

#[test]
fn traversals_can_be_left_half_way() {
    let mut it = NewlineSet::all().union(NewlineSet::new());
    assert_eq!(it.next(), Some(Newline::LineFeed));
    assert_eq!(it.next(), Some(Newline::VerticalTab));
    assert_eq!(it.size_hint(), (6, Some(6)));
    assert_eq!(
        it.into_newline_set(),
        NewlineSet::all() - Newline::LineFeed - Newline::VerticalTab
    );
    let mut it = NewlineSet::ascii().difference(NewlineSet::from(Newline::LineFeed));
    assert_eq!(it.next(), Some(Newline::CarriageReturn));
    assert_eq!(it.size_hint(), (1, Some(1)));
    assert_eq!(it.into_newline_set(), NewlineSet::from(Newline::CrLf));
}

#[test]
fn as_text() {
    assert_eq!(NewlineSet::new().debug_string(), "{}");
    assert_eq!(NewlineSet::new().pretty_debug_string(), "{}");
    assert_eq!(NewlineSet::ascii().debug_string(), "{LineFeed, CarriageReturn, CrLf}");
    assert_eq!(
        NewlineSet::ascii().pretty_debug_string(),
        "{\n    LineFeed,\n    CarriageReturn,\n    CrLf,\n}"
    );
    assert_eq!(
        NewlineSet::all().debug_string(),
        "{LineFeed, VerticalTab, FormFeed, CarriageReturn, CrLf, NextLine, LineSeparator, ParagraphSeparator}"
    );
}

#[test]
fn named_sets() {
    assert_eq!(NewlineSet::empty().len(), 0);
    assert_eq!(NewlineSet::rust().len(), 2);
    assert_eq!(NewlineSet::ascii().len(), 3);
    assert_eq!(NewlineSet::nlf().len(), 4);
    assert_eq!(NewlineSet::readline().len(), 7);
    assert!(!NewlineSet::readline().contains(Newline::VerticalTab));
    assert_eq!(NewlineSet::unicode().len(), 8);
    assert_eq!(NewlineSet::all().len(), 8);
    assert_eq!(NewlineSet::default(), NewlineSet::new());
}
