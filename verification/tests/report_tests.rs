use word_similarity::{
    calculate_similarity_matrix, load_word_list, match_pairs, parse_percent, render_report,
    Threshold,
};

fn strings(xs: &[&str]) -> Vec<String> {
    xs.iter().map(|s| s.to_string()).collect()
}

fn percent(s: &str) -> Threshold {
    parse_percent(&s.as_bytes().to_vec()).unwrap()
}

fn report_for(words: &[&str], min_match: &str) -> Vec<String> {
    let list = load_word_list(&strings(words)).unwrap();
    let matrix = calculate_similarity_matrix(&list);
    let pairs = match_pairs(&matrix, &percent(min_match));
    render_report(&pairs, &list)
}

#[test]
fn end_to_end_cat_cot_dog() {
    let lines = report_for(&["cat", "cot", "dog"], "50");
    assert_eq!(lines, vec!["Row 1: cat\tRow 2: cot\tSimilarity: 66.67%".to_string()]);
}

#[test]
fn end_to_end_case_insensitive() {
    let lines = report_for(&["Cat", "cat"], "100");
    assert_eq!(lines, vec!["Row 1: Cat\tRow 2: cat\tSimilarity: 100.00%".to_string()]);
}

#[test]
fn no_self_pairs_and_no_duplicates() {
    let list = load_word_list(&strings(&["cat", "cot", "dog"])).unwrap();
    let matrix = calculate_similarity_matrix(&list);
    let pairs = match_pairs(&matrix, &percent("0"));
    assert_eq!(pairs.len(), 3);
    for p in &pairs {
        assert!(p.row_i < p.row_j);
    }
    for a in 0..pairs.len() {
        for b in (a + 1)..pairs.len() {
            assert!(!(pairs[a].row_i == pairs[b].row_i && pairs[a].row_j == pairs[b].row_j));
        }
    }
}

#[test]
fn filter_keeps_exactly_the_admitted_pairs() {
    let list = load_word_list(&strings(&["cat", "cot", "dog"])).unwrap();
    let matrix = calculate_similarity_matrix(&list);
    let pairs = match_pairs(&matrix, &percent("50"));
    assert_eq!(pairs.len(), 1);
    assert_eq!(pairs[0].row_i, 0);
    assert_eq!(pairs[0].row_j, 1);
}

#[test]
fn threshold_of_one_keeps_only_exact_matches() {
    let lines = report_for(&["cat", "cot", "dog"], "100");
    assert!(lines.is_empty());
}

#[test]
fn negative_threshold_admits_every_pair() {
    let list = load_word_list(&strings(&["cat", "cot", "dog"])).unwrap();
    let matrix = calculate_similarity_matrix(&list);
    let pairs = match_pairs(&matrix, &percent("-5"));
    assert_eq!(pairs.len(), 3);
}

#[test]
fn threshold_above_one_admits_nothing() {
    let list = load_word_list(&strings(&["same", "same"])).unwrap();
    let matrix = calculate_similarity_matrix(&list);
    let pairs = match_pairs(&matrix, &percent("150"));
    assert!(pairs.is_empty());
}

#[test]
fn report_is_sorted_descending() {
    let list = load_word_list(&strings(&["abcde", "abcdx", "abxyz", "abcxy", "qqqqq"])).unwrap();
    let matrix = calculate_similarity_matrix(&list);
    let pairs = match_pairs(&matrix, &percent("0"));
    for w in pairs.windows(2) {
        assert!(w[0].score.ge_exec(&w[1].score));
    }
}

#[test]
fn ties_are_broken_by_ascending_indices() {
    let list = load_word_list(&strings(&["ab", "ac", "ad"])).unwrap();
    let matrix = calculate_similarity_matrix(&list);
    let pairs = match_pairs(&matrix, &percent("0"));
    assert_eq!(pairs.len(), 3);
    assert_eq!((pairs[0].row_i, pairs[0].row_j), (0, 1));
    assert_eq!((pairs[1].row_i, pairs[1].row_j), (0, 2));
    assert_eq!((pairs[2].row_i, pairs[2].row_j), (1, 2));
}

#[test]
fn two_runs_give_identical_output() {
    let words = ["kitten", "sitting", "cat", "Cot", "dog", "dig"];
    let first = report_for(&words, "30");
    let second = report_for(&words, "30");
    assert_eq!(first, second);
}

#[test]
fn rows_are_one_indexed_and_originals_kept() {
    let lines = report_for(&["Hund", "hund"], "90");
    assert_eq!(lines, vec!["Row 1: Hund\tRow 2: hund\tSimilarity: 100.00%".to_string()]);
}

#[test]
fn percent_has_two_decimals() {
    let lines = report_for(&["kitten", "sitting"], "50");
    assert_eq!(lines, vec!["Row 1: kitten\tRow 2: sitting\tSimilarity: 57.14%".to_string()]);
}

#[test]
fn one_third_renders_as_33_33() {
    let lines = report_for(&["abc", "axy"], "30");
    assert_eq!(lines, vec!["Row 1: abc\tRow 2: axy\tSimilarity: 33.33%".to_string()]);
}
