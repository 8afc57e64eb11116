use word_similarity::{calculate_similarity_matrix, load_word_list};

fn strings(xs: &[&str]) -> Vec<String> {
    xs.iter().map(|s| s.to_string()).collect()
}

#[test]
fn diagonal_is_exactly_one() {
    let words = load_word_list(&strings(&["cat", "cot", "dog"])).unwrap();
    let m = calculate_similarity_matrix(&words);
    for i in 0..m.size() {
        let s = m.score_at(i, i);
        assert_eq!(s.dist, 0);
        assert_eq!(s.num_exec(), s.den_exec());
    }
}

#[test]
fn matrix_is_symmetric() {
    let words = load_word_list(&strings(&["kitten", "sitting", "cat", "kitchen"])).unwrap();
    let m = calculate_similarity_matrix(&words);
    for i in 0..m.size() {
        for j in 0..m.size() {
            assert_eq!(m.score_at(i, j), m.score_at(j, i));
        }
    }
}

#[test]
fn every_entry_is_between_zero_and_one() {
    let words = load_word_list(&strings(&["a", "completely", "different", "words"])).unwrap();
    let m = calculate_similarity_matrix(&words);
    for i in 0..m.size() {
        for j in 0..m.size() {
            let s = m.score_at(i, j);
            assert!(s.dist <= s.len);
            assert!(s.num_exec() <= s.den_exec());
            assert!(s.den_exec() >= 1);
        }
    }
}

#[test]
fn cat_cot_distance_is_one_of_three() {
    let words = load_word_list(&strings(&["cat", "cot"])).unwrap();
    let m = calculate_similarity_matrix(&words);
    let s = m.score_at(0, 1);
    assert_eq!(s.dist, 1);
    assert_eq!(s.len, 3);
}

#[test]
fn kitten_sitting_distance() {
    let words = load_word_list(&strings(&["kitten", "sitting"])).unwrap();
    let m = calculate_similarity_matrix(&words);
    let s = m.score_at(0, 1);
    assert_eq!(s.dist, 3);
    assert_eq!(s.len, 7);
}

#[test]
fn comparison_is_case_insensitive() {
    let words = load_word_list(&strings(&["Cat", "cat"])).unwrap();
    let m = calculate_similarity_matrix(&words);
    let s = m.score_at(0, 1);
    assert_eq!(s.dist, 0);
}

#[test]
fn matrix_size_matches_word_count() {
    let words = load_word_list(&strings(&["one", "two", "three", "four", "five"])).unwrap();
    let m = calculate_similarity_matrix(&words);
    assert_eq!(m.size(), 5);
}
