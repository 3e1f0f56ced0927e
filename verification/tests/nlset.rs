use newlines::{Newline, NewlineSet};

fn items(nlset: NewlineSet) -> Vec<Newline> {
    let mut iter = nlset.into_iter();
    let mut v = Vec::new();
    while let Some(nl) = iter.next() {
        v.push(nl);
    }
    v
}

fn assert_empty(nlset: NewlineSet) {
    assert_eq!(nlset.len(), 0);
    assert!(nlset.is_empty());
    for nl in Newline::iter() {
        assert!(!nlset.contains(nl));
    }
    assert!(!nlset.contains(Newline::CarriageReturn));
    assert!(!nlset.contains(Newline::CrLf));
    assert_eq!(nlset, NewlineSet::new());
    assert_eq!(items(nlset).len(), 0);
}

fn assert_singleton(nlset: NewlineSet, nl: Newline) {
    assert_eq!(nlset.len(), 1);
    assert!(!nlset.is_empty());
    for nl2 in Newline::iter() {
        assert_eq!(nlset.contains(nl2), nl == nl2);
    }
    assert_eq!(nlset, NewlineSet::from([nl]));
    assert_eq!(items(nlset), [nl]);
}

fn assert_pair(nlset: NewlineSet, nl1: Newline, nl2: Newline) {
    assert_eq!(nlset.len(), 2);
    assert!(!nlset.is_empty());
    for nl in Newline::iter() {
        assert_eq!(nlset.contains(nl), nl == nl1 || nl == nl2);
    }
    assert_eq!(nlset, NewlineSet::from([nl1, nl2]));
    assert_eq!(
        items(nlset),
        [core::cmp::min(nl1, nl2), core::cmp::max(nl1, nl2)]
    );
}

fn permutations_of_two() -> Vec<(Newline, Newline)> {
    let mut pairs = Vec::new();
    for nl1 in Newline::iter() {
        for nl2 in Newline::iter() {
            if nl1 != nl2 {
                pairs.push((nl1, nl2));
            }
        }
    }
    pairs
}

fn combinations_of_two() -> Vec<(Newline, Newline)> {
    let mut pairs = Vec::new();
    for nl1 in Newline::iter() {
        for nl2 in Newline::iter() {
            if nl1 < nl2 {
                pairs.push((nl1, nl2));
            }
        }
    }
    pairs
}

#[test]
fn test_empty() {
    let mut nlset = NewlineSet::new();
    assert_empty(nlset);
    nlset.clear();
    assert_empty(nlset);
}

#[test]
fn test_insert_one() {
    for nl in Newline::iter() {
        let mut nlset = NewlineSet::new();
        assert!(nlset.insert(nl));
        assert_singleton(nlset, nl);
    }
}

#[test]
fn test_insert_one_twice() {
    for nl in Newline::iter() {
        let mut nlset = NewlineSet::new();
        assert!(nlset.insert(nl));
        assert!(!nlset.insert(nl));
        assert_singleton(nlset, nl);
    }
}

#[test]
fn test_insert_one_clear() {
    for nl in Newline::iter() {
        let mut nlset = NewlineSet::new();
        assert!(nlset.insert(nl));
        nlset.clear();
        assert_empty(nlset);
    }
}

#[test]
fn test_insert_two() {
    for (nl1, nl2) in permutations_of_two() {
        let mut nlset = NewlineSet::new();
        assert!(nlset.insert(nl1));
        assert!(nlset.insert(nl2));
        assert_pair(nlset, nl1, nl2);
    }
}

#[test]
fn test_insert_two_clear() {
    for (nl1, nl2) in combinations_of_two() {
        let mut nlset = NewlineSet::new();
        assert!(nlset.insert(nl1));
        assert!(nlset.insert(nl2));
        nlset.clear();
        assert_empty(nlset);
    }
}

#[test]
fn test_remove_from_empty() {
    for nl in Newline::iter() {
        let mut nlset = NewlineSet::new();
        assert!(!nlset.remove(nl));
        assert_empty(nlset);
    }
}

#[test]
fn test_insert_and_remove() {
    for nl in Newline::iter() {
        let mut nlset = NewlineSet::new();
        assert!(nlset.insert(nl));
        assert!(nlset.remove(nl));
        assert_empty(nlset);
    }
}

#[test]
fn test_insert_two_remove_first() {
    for (nl1, nl2) in permutations_of_two() {
        let mut nlset = NewlineSet::new();
        assert!(nlset.insert(nl1));
        assert!(nlset.insert(nl2));
        assert!(nlset.remove(nl1));
        assert_singleton(nlset, nl2);
    }
}

#[test]
fn test_from_newline() {
    for nl in Newline::iter() {
        let nlset = NewlineSet::from(nl);
        assert_singleton(nlset, nl);
    }
}

#[test]
fn nlset_empty() {
    // As text
    let nlset = NewlineSet::new();
    assert_eq!(nlset.debug_string(), "{}");
    assert_eq!(nlset.pretty_debug_string(), "{}");
    // From an array
    let nlset = NewlineSet::from([Newline::LineFeed; 0]);
    assert_empty(nlset);
    // From a sequence
    let nlset = NewlineSet::from_iter(Vec::new());
    assert_empty(nlset);
    // The named empty set
    assert_eq!(NewlineSet::empty(), NewlineSet::new());
}

#[test]
fn nlset_singleton() {
    // As text
    let nlset = NewlineSet::from(Newline::LineFeed);
    assert_eq!(nlset.debug_string(), "{LineFeed}");
    assert_eq!(nlset.pretty_debug_string(), "{\n    LineFeed,\n}");
    // From an array
    for nl in Newline::iter() {
        let nlset = NewlineSet::from([nl]);
        assert_singleton(nlset, nl);
    }
    // From a sequence
    for nl in Newline::iter() {
        let nlset = NewlineSet::from_iter(vec![nl]);
        assert_singleton(nlset, nl);
    }
}

#[test]
fn pair() {
    let nlset = NewlineSet::from([Newline::LineFeed, Newline::CarriageReturn]);
    assert_eq!(nlset.debug_string(), "{LineFeed, CarriageReturn}");
    assert_eq!(
        nlset.pretty_debug_string(),
        "{\n    LineFeed,\n    CarriageReturn,\n}"
    );
}

#[test]
fn nlset_two_elem() {
    // From an array
    for (nl1, nl2) in permutations_of_two() {
        let nlset = NewlineSet::from([nl1, nl2]);
        assert_pair(nlset, nl1, nl2);
    }
    // From a sequence
    for (nl1, nl2) in permutations_of_two() {
        let nlset = NewlineSet::from_iter(vec![nl1, nl2]);
        assert_pair(nlset, nl1, nl2);
    }
}

#[test]
fn nlset_duplicated_elem() {
    // From an array
    for nl in Newline::iter() {
        let nlset = NewlineSet::from([nl, nl]);
        assert_singleton(nlset, nl);
    }
    // From a sequence
    for nl in Newline::iter() {
        let nlset = NewlineSet::from_iter(vec![nl, nl]);
        assert_singleton(nlset, nl);
    }
}

#[test]
fn nlset_all() {
    // From a sequence
    let nlset = NewlineSet::from_iter(Newline::iter());
    assert_eq!(nlset.len(), Newline::COUNT);
    assert!(!nlset.is_empty());
    for nl in Newline::iter() {
        assert!(nlset.contains(nl));
    }
    assert_eq!(items(nlset), Newline::iter());
    // The named set of all
    assert_eq!(NewlineSet::all(), NewlineSet::from_iter(Newline::iter()));
}

#[test]
fn empty_plus_empty() {
    let mut nlset = NewlineSet::new();
    nlset.extend(Vec::new());
    assert_empty(nlset);
}

#[test]
fn empty_plus_one() {
    for nl in Newline::iter() {
        let mut nlset = NewlineSet::new();
        nlset.extend(vec![nl]);
        assert_singleton(nlset, nl);
    }
}

#[test]
fn empty_plus_two() {
    for (nl1, nl2) in permutations_of_two() {
        let mut nlset = NewlineSet::new();
        nlset.extend(vec![nl1, nl2]);
        assert_pair(nlset, nl1, nl2);
    }
}

#[test]
fn empty_plus_one_twice() {
    for nl in Newline::iter() {
        let mut nlset = NewlineSet::new();
        nlset.extend(vec![nl, nl]);
        assert_singleton(nlset, nl);
    }
}

#[test]
fn empty_plus_all() {
    let mut nlset = NewlineSet::new();
    nlset.extend(Newline::iter());
    assert_eq!(nlset.len(), Newline::COUNT);
    assert!(!nlset.is_empty());
    for nl in Newline::iter() {
        assert!(nlset.contains(nl));
    }
    assert_eq!(items(nlset), Newline::iter());
}

#[test]
fn mixture() {
    let mut nlset =
        NewlineSet::from([Newline::LineFeed, Newline::CarriageReturn, Newline::CrLf]);
    nlset.extend(vec![Newline::VerticalTab, Newline::LineFeed, Newline::NextLine]);
    assert_eq!(nlset.len(), 5);
    assert!(!nlset.is_empty());
    assert_eq!(
        nlset,
        NewlineSet::from([
            Newline::LineFeed,
            Newline::VerticalTab,
            Newline::CarriageReturn,
            Newline::CrLf,
            Newline::NextLine,
        ])
    );
    assert_eq!(
        items(nlset),
        [
            Newline::LineFeed,
            Newline::VerticalTab,
            Newline::CarriageReturn,
            Newline::CrLf,
            Newline::NextLine,
        ]
    );
}

#[test]
fn nlset_empty_empty() {
    let nlset1 = NewlineSet::new();
    let nlset2 = NewlineSet::new();
    // Disjointness
    assert!(nlset1.is_disjoint(nlset2));
    assert!(nlset2.is_disjoint(nlset1));
    // Subsets and supersets
    assert!(nlset1.is_subset(nlset2));
    assert!(nlset2.is_subset(nlset1));
    assert!(nlset1.is_superset(nlset2));
    assert!(nlset2.is_superset(nlset1));
}

#[test]
fn nlset_empty_singleton() {
    let nlset1 = NewlineSet::new();
    let nlset2 = NewlineSet::from(Newline::LineFeed);
    // Disjointness
    assert!(nlset1.is_disjoint(nlset2));
    assert!(nlset2.is_disjoint(nlset1));
    // Subsets and supersets
    assert!(nlset1.is_subset(nlset2));
    assert!(!nlset2.is_subset(nlset1));
    assert!(!nlset1.is_superset(nlset2));
    assert!(nlset2.is_superset(nlset1));
}

#[test]
fn nlset_different_singletons() {
    let nlset1 = NewlineSet::from(Newline::FormFeed);
    let nlset2 = NewlineSet::from(Newline::LineFeed);
    // Disjointness
    assert!(nlset1.is_disjoint(nlset2));
    assert!(nlset2.is_disjoint(nlset1));
    // Subsets and supersets
    assert!(!nlset1.is_subset(nlset2));
    assert!(!nlset2.is_subset(nlset1));
    assert!(!nlset1.is_superset(nlset2));
    assert!(!nlset2.is_superset(nlset1));
}

#[test]
fn nlset_equal_singletons() {
    let nlset1 = NewlineSet::from(Newline::FormFeed);
    let nlset2 = NewlineSet::from(Newline::FormFeed);
    // Disjointness
    assert!(!nlset1.is_disjoint(nlset2));
    assert!(!nlset2.is_disjoint(nlset1));
    // Subsets and supersets
    assert!(nlset1.is_subset(nlset2));
    assert!(nlset2.is_subset(nlset1));
    assert!(nlset1.is_superset(nlset2));
    assert!(nlset2.is_superset(nlset1));
}

#[test]
fn nlset_overlapping_pairs() {
    let nlset1 = NewlineSet::from([Newline::LineFeed, Newline::VerticalTab]);
    let nlset2 = NewlineSet::from([Newline::VerticalTab, Newline::FormFeed]);
    // Disjointness
    assert!(!nlset1.is_disjoint(nlset2));
    assert!(!nlset2.is_disjoint(nlset1));
    // Subsets and supersets
    assert!(!nlset1.is_subset(nlset2));
    assert!(!nlset2.is_subset(nlset1));
    assert!(!nlset1.is_superset(nlset2));
    assert!(!nlset2.is_superset(nlset1));
}

#[test]
fn nlset_singleton_vs_more() {
    let nlset1 = NewlineSet::from(Newline::LineFeed);
    let nlset2 = NewlineSet::from([Newline::LineFeed, Newline::VerticalTab]);
    // Disjointness
    assert!(!nlset1.is_disjoint(nlset2));
    assert!(!nlset2.is_disjoint(nlset1));
    // Subsets and supersets
    assert!(nlset1.is_subset(nlset2));
    assert!(!nlset2.is_subset(nlset1));
    assert!(!nlset1.is_superset(nlset2));
    assert!(nlset2.is_superset(nlset1));
}

#[test]
fn nlset_singleton_vs_unrelated() {
    let nlset1 = NewlineSet::from(Newline::FormFeed);
    let nlset2 = NewlineSet::from([Newline::LineFeed, Newline::VerticalTab]);
    // Disjointness
    assert!(nlset1.is_disjoint(nlset2));
    assert!(nlset2.is_disjoint(nlset1));
    // Subsets and supersets
    assert!(!nlset1.is_subset(nlset2));
    assert!(!nlset2.is_subset(nlset1));
    assert!(!nlset1.is_superset(nlset2));
    assert!(!nlset2.is_superset(nlset1));
}

#[test]
fn nlset_cr_vs_cr() {
    let nlset1 = NewlineSet::from(Newline::CarriageReturn);
    let nlset2 = NewlineSet::from(Newline::CarriageReturn);
    // Disjointness
    assert!(!nlset1.is_disjoint(nlset2));
    assert!(!nlset2.is_disjoint(nlset1));
    // Subsets and supersets
    assert!(nlset1.is_subset(nlset2));
    assert!(nlset2.is_subset(nlset1));
    assert!(nlset1.is_superset(nlset2));
    assert!(nlset2.is_superset(nlset1));
}

#[test]
fn nlset_cr_vs_crlf() {
    let nlset1 = NewlineSet::from(Newline::CarriageReturn);
    let nlset2 = NewlineSet::from(Newline::CrLf);
    // Disjointness
    assert!(nlset1.is_disjoint(nlset2));
    assert!(nlset2.is_disjoint(nlset1));
    // Subsets and supersets
    assert!(!nlset1.is_subset(nlset2));
    assert!(!nlset2.is_subset(nlset1));
    assert!(!nlset1.is_superset(nlset2));
    assert!(!nlset2.is_superset(nlset1));
}

#[test]
fn nlset_crlf_vs_crlf() {
    let nlset1 = NewlineSet::from(Newline::CrLf);
    let nlset2 = NewlineSet::from(Newline::CrLf);
    // Disjointness
    assert!(!nlset1.is_disjoint(nlset2));
    assert!(!nlset2.is_disjoint(nlset1));
    // Subsets and supersets
    assert!(nlset1.is_subset(nlset2));
    assert!(nlset2.is_subset(nlset1));
    assert!(nlset1.is_superset(nlset2));
    assert!(nlset2.is_superset(nlset1));
}

#[test]
fn nlset_cr_crlf_vs_cr() {
    let nlset1 = NewlineSet::from([Newline::CarriageReturn, Newline::CrLf]);
    let nlset2 = NewlineSet::from(Newline::CarriageReturn);
    // Disjointness
    assert!(!nlset1.is_disjoint(nlset2));
    assert!(!nlset2.is_disjoint(nlset1));
    // Subsets and supersets
    assert!(!nlset1.is_subset(nlset2));
    assert!(nlset2.is_subset(nlset1));
    assert!(nlset1.is_superset(nlset2));
    assert!(!nlset2.is_superset(nlset1));
}

#[test]
fn nlset_cr_crlf_vs_crlf() {
    let nlset1 = NewlineSet::from([Newline::CarriageReturn, Newline::CrLf]);
    let nlset2 = NewlineSet::from(Newline::CrLf);
    // Disjointness
    assert!(!nlset1.is_disjoint(nlset2));
    assert!(!nlset2.is_disjoint(nlset1));
    // Subsets and supersets
    assert!(!nlset1.is_subset(nlset2));
    assert!(nlset2.is_subset(nlset1));
    assert!(nlset1.is_superset(nlset2));
    assert!(!nlset2.is_superset(nlset1));
}

#[test]
fn rust() {
    assert_eq!(
        NewlineSet::rust(),
        NewlineSet::from([Newline::LineFeed, Newline::CrLf])
    );
}

#[test]
fn ascii() {
    assert_eq!(
        NewlineSet::ascii(),
        NewlineSet::from([Newline::LineFeed, Newline::CarriageReturn, Newline::CrLf])
    );
}

#[test]
fn nlf() {
    assert_eq!(
        NewlineSet::nlf(),
        NewlineSet::from([
            Newline::LineFeed,
            Newline::CarriageReturn,
            Newline::CrLf,
            Newline::NextLine
        ])
    );
}

#[test]
fn readline() {
    assert_eq!(
        NewlineSet::readline(),
        NewlineSet::from([
            Newline::LineFeed,
            Newline::FormFeed,
            Newline::CarriageReturn,
            Newline::CrLf,
            Newline::NextLine,
            Newline::LineSeparator,
            Newline::ParagraphSeparator
        ])
    );
}

#[test]
fn unicode() {
    assert_eq!(
        NewlineSet::unicode(),
        NewlineSet::from([
            Newline::LineFeed,
            Newline::VerticalTab,
            Newline::FormFeed,
            Newline::CarriageReturn,
            Newline::CrLf,
            Newline::NextLine,
            Newline::LineSeparator,
            Newline::ParagraphSeparator
        ])
    );
}

#[test]
fn not_newline() {
    for nl in Newline::iter() {
        let not = !nl;
        for nl2 in Newline::iter() {
            assert_eq!(not.contains(nl2), nl != nl2);
        }
    }
}
