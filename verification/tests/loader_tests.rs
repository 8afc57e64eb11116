use word_similarity::{load_word_list, ValidationError};

fn strings(xs: &[&str]) -> Vec<String> {
    xs.iter().map(|s| s.to_string()).collect()
}

#[test]
fn load_accepts_two_words() {
    let words = load_word_list(&strings(&["Cat", "dog"])).unwrap();
    assert_eq!(words.len(), 2);
    assert_eq!(words.entries[0].original, "Cat");
    assert_eq!(words.entries[0].normalized, "cat");
    assert_eq!(words.entries[1].original, "dog");
    assert_eq!(words.entries[1].normalized, "dog");
}

#[test]
fn load_preserves_order() {
    let words = load_word_list(&strings(&["zebra", "ant", "Mouse"])).unwrap();
    assert_eq!(words.entries[0].original, "zebra");
    assert_eq!(words.entries[1].original, "ant");
    assert_eq!(words.entries[2].original, "Mouse");
    assert_eq!(words.entries[2].normalized, "mouse");
}

#[test]
fn load_rejects_empty_line_in_front() {
    let r = load_word_list(&strings(&["", "cat", "dog"]));
    assert!(matches!(r, Err(ValidationError::EmptyLine)));
}

#[test]
fn load_rejects_empty_line_in_middle() {
    let r = load_word_list(&strings(&["cat", "", "dog"]));
    assert!(matches!(r, Err(ValidationError::EmptyLine)));
}

#[test]
fn load_rejects_empty_line_at_end() {
    let r = load_word_list(&strings(&["cat", "dog", ""]));
    assert!(matches!(r, Err(ValidationError::EmptyLine)));
}

#[test]
fn empty_line_error_wins_over_count() {
    let r = load_word_list(&strings(&[""]));
    assert!(matches!(r, Err(ValidationError::EmptyLine)));
}

#[test]
fn whitespace_only_line_is_not_empty() {
    let words = load_word_list(&strings(&["   ", "cat"])).unwrap();
    assert_eq!(words.entries[0].original, "   ");
}

#[test]
fn load_rejects_single_word() {
    let r = load_word_list(&strings(&["cat"]));
    match r {
        Err(ValidationError::CountOutOfRange { count, min, max }) => {
            assert_eq!(count, 1);
            assert_eq!(min, 2);
            assert_eq!(max, 500_000);
        }
        other => panic!("expected CountOutOfRange, got {:?}", other.is_ok()),
    }
}

#[test]
fn load_rejects_no_words() {
    let r = load_word_list(&Vec::new());
    assert!(matches!(r, Err(ValidationError::CountOutOfRange { count: 0, .. })));
}

#[test]
fn load_rejects_too_many_words() {
    let lines: Vec<String> = vec!["a".to_string(); 500_001];
    let r = load_word_list(&lines);
    match r {
        Err(ValidationError::CountOutOfRange { count, min, max }) => {
            assert_eq!(count, 500_001);
            assert_eq!(min, 2);
            assert_eq!(max, 500_000);
        }
        _ => panic!("expected CountOutOfRange"),
    }
}

#[test]
fn load_accepts_the_largest_size() {
    let lines: Vec<String> = vec!["a".to_string(); 500_000];
    let words = load_word_list(&lines).unwrap();
    assert_eq!(words.entries.len(), 500_000);
}
