use ledr::input::fuzzy::{confident, rank, score, score_of_terms, INITIALS, SEGMENT};

#[test]
fn test_matching() {
    assert_eq!(score("coffee", "coffee"), Some(1000));
    assert!(score("groc", "Expenses:Food:Groceries").unwrap() >= SEGMENT);
    assert!(score("ocer", "Expenses:Food:Groceries").unwrap() < SEGMENT);
    assert_eq!(score("efg", "Expenses:Food:Groceries"), Some(INITIALS));
    assert!(score("chk", "Assets:Chase:Checking").is_some());
    assert!(score("xyz", "Assets:Chase:Checking").is_none());
    assert!(score("food coff", "Expenses:Food:Coffee").unwrap() >= SEGMENT);
    assert!(score("food tea", "Expenses:Food:Coffee").is_none());
    assert_eq!(score("", "anything"), Some(0));
}

#[test]
fn test_confidence() {
    assert!(confident("chk", "Assets:Chase:Checking"));
    assert!(confident("visa", "Liabilities:Visa"));
    assert!(confident("efc", "Expenses:Food:Coffee"));
    assert!(!confident("gas", "Equity:OpeningBalances"));
    assert!(!confident("xyz", "Assets:Checking"));
}

#[test]
fn test_ranking_prefers_better_matches() {
    let accounts = [
        "Assets:Checking",
        "Expenses:Food:Coffee",
        "Expenses:Food:Groceries",
        "Liabilities:Visa",
    ];
    let weighted: Vec<(&str, i64)> = accounts.iter().map(|a| (*a, 0)).collect();
    let ranked = rank("co", &weighted);
    assert_eq!(accounts[ranked[0].0], "Expenses:Food:Coffee");
    let ranked = rank("ch", &weighted);
    assert_eq!(accounts[ranked[0].0], "Assets:Checking");
}

#[test]
fn segment_scores_are_exact() {
    // At the very start
    assert_eq!(score("exp", "Expenses:Food"), Some(900));
    // At the start of the second segment, 9 bytes in
    assert_eq!(score("food", "Expenses:Food"), Some(809));
    // Inside a segment, 3 bytes in
    assert_eq!(score("ens", "Expenses"), Some(597));
}

#[test]
fn weights_and_names_break_ties() {
    let weighted = [("b", 0), ("a", 0), ("ab", 5)];
    let ranked = rank("", &weighted);
    assert_eq!(ranked, vec![(2, 5), (1, 0), (0, 0)]);
}

#[test]
fn lowered_terms_score_as_the_query_does() {
    let terms: Vec<Vec<char>> = vec!["food".chars().collect(), "coff".chars().collect()];
    let candidate: Vec<char> = "expenses:food:coffee".chars().collect();
    assert_eq!(score_of_terms(&terms, &candidate), score("Food COFF", "Expenses:Food:Coffee"));
    assert_eq!(score_of_terms(&Vec::new(), &candidate), Some(0));
    let missing: Vec<Vec<char>> = vec!["zzz".chars().collect()];
    assert_eq!(score_of_terms(&missing, &candidate), None);
}
