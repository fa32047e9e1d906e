use bkindex::compare::Comparison;
use bkindex::spellfix::Candidate;
use bkindex::spellfix::SpellfixCandidates;

#[test]
fn comparison_spellings() {
    assert!(matches!(Comparison::new(">", 1990), Some(Comparison::GreaterThan(1990))));
    assert!(matches!(Comparison::new(">=", 5), Some(Comparison::GreaterThanEqual(5))));
    assert!(matches!(Comparison::new("<", -3), Some(Comparison::LessThan(-3))));
    assert!(matches!(Comparison::new("<=", 0), Some(Comparison::LessThanEqual(0))));
    assert!(matches!(Comparison::new("=", 7), Some(Comparison::Equal(7))));
    assert!(matches!(Comparison::new("!", 7), Some(Comparison::NotEqual(7))));
    assert!(Comparison::new("==", 7).is_none());
    assert!(Comparison::new("", 7).is_none());
    assert!(Comparison::new("=<", 7).is_none());
}

#[test]
fn comparison_semantics() {
    assert!(Comparison::GreaterThan(1990).compare(1991));
    assert!(!Comparison::GreaterThan(1990).compare(1990));
    assert!(Comparison::GreaterThanEqual(1990).compare(1990));
    assert!(Comparison::LessThan(0).compare(-1));
    assert!(Comparison::LessThanEqual(4).compare(4));
    assert!(Comparison::Equal(3).compare(3));
    assert!(!Comparison::Equal(3).compare(4));
    assert!(Comparison::NotEqual(3).compare(4));
}

#[test]
fn from_string_scans_expressions() {
    let found = Comparison::from_string(">=1990");
    assert_eq!(found.len(), 1);
    assert!(matches!(found[0], Comparison::GreaterThanEqual(1990)));

    let found = Comparison::from_string("<=1950,>2000");
    assert_eq!(found.len(), 2);
    assert!(matches!(found[0], Comparison::LessThanEqual(1950)));
    assert!(matches!(found[1], Comparison::GreaterThan(2000)));

    let found = Comparison::from_string("published !1984 or =2001");
    assert_eq!(found.len(), 2);
    assert!(matches!(found[0], Comparison::NotEqual(1984)));
    assert!(matches!(found[1], Comparison::Equal(2001)));
}

#[test]
fn from_string_skips_what_is_not_an_expression() {
    assert!(Comparison::from_string("no numbers here").is_empty());
    assert!(Comparison::from_string(">=x").is_empty());
    assert!(Comparison::from_string("1990").is_empty());
    // a value beyond 32 bits is matched but dropped
    assert!(Comparison::from_string(">99999999999").is_empty());
}

#[test]
fn batch_compare_accepts_everything_when_empty() {
    assert!(Comparison::batch_compare(&vec![], 1234));
}

#[test]
fn batch_compare_is_a_disjunction() {
    let filter = vec![Comparison::LessThan(1950), Comparison::GreaterThan(2000)];
    assert!(Comparison::batch_compare(&filter, 1920));
    assert!(Comparison::batch_compare(&filter, 2005));
    assert!(!Comparison::batch_compare(&filter, 1975));
}

fn lists(raw: &[&[(&str, i32)]]) -> Vec<Vec<Candidate>> {
    raw.iter()
        .map(|l| {
            l.iter()
                .map(|(w, s)| Candidate { word: w.to_string(), score: *s })
                .collect()
        })
        .collect()
}

#[test]
fn top_candidate_joins_best_words() {
    let c = SpellfixCandidates::new(lists(&[
        &[("tolkien", 1), ("token", 9)],
        &[("rings", 2)],
    ]));
    assert_eq!(c.get_top_candidate(), "tolkien rings");
}

#[test]
fn top_candidate_with_an_empty_word_list() {
    let c = SpellfixCandidates::new(lists(&[&[("dune", 1)], &[]]));
    assert_eq!(c.get_top_candidate(), "dune ");
}

#[test]
fn next_candidate_walks_alternatives_weakest_first() {
    // candidate lists are ranked best first; walking pops from the back of
    // the list whose front candidate scores lowest
    let mut c = SpellfixCandidates::new(lists(&[
        &[("dune", 1), ("dane", 5)],
        &[("messiah", 3), ("messes", 8)],
    ]));
    assert_eq!(c.next_candidate(), Some("dunemessiah".to_string()));
    assert_eq!(c.next_candidate(), Some("dunemessiah".to_string()));
    // both alternatives spent: the composer reports once more, exhausted
    assert_eq!(c.next_candidate(), Some("dunemessiah".to_string()));
    assert_eq!(c.next_candidate(), None);
}

#[test]
fn next_candidate_on_single_alternatives() {
    let mut c = SpellfixCandidates::new(lists(&[&[("only", 2)]]));
    assert_eq!(c.next_candidate(), Some("only".to_string()));
    assert_eq!(c.next_candidate(), None);
}
