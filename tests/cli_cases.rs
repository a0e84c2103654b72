use log_word_analyzer::rank::top_k_words;

/// Test basic functionality with case insensitivity
#[test]
fn test_basic_functionality() {
    let logs = vec![
        "Error: Disk full".to_string(),
        "error: network down".to_string(),
        "ERROR: disk error".to_string(),
    ];

    let result = top_k_words(&logs, 2);

    assert_eq!(result.len(), 2);
    assert_eq!(result[0], ("error".to_string(), 4));
    assert_eq!(result[1], ("disk".to_string(), 2));
}

/// Test sorting order: frequency descending, then alphabetical
#[test]
fn test_sorting_order() {
    let logs = vec![
        "apple banana apple".to_string(),
        "banana cherry".to_string(),
        "apple cherry date".to_string(),
        "date egg".to_string(),
    ];

    let result = top_k_words(&logs, 4);

    // Expected order: apple(3), banana(2), cherry(2), date(2)
    assert_eq!(result[0], ("apple".to_string(), 3));
    assert_eq!(result[1], ("banana".to_string(), 2));
    assert_eq!(result[2], ("cherry".to_string(), 2));
    assert_eq!(result[3], ("date".to_string(), 2));
}

/// Test with alphanumeric words and special characters
#[test]
fn test_alphanumeric_words() {
    let logs = vec![
        "Error123 test 123".to_string(),
        "error123 test test".to_string(),
        "test123 456".to_string(),
    ];

    let result = top_k_words(&logs, 3);


    assert_eq!(result[0], ("test".to_string(), 3));
    assert_eq!(result[1], ("error123".to_string(), 2));
    assert_eq!(result[2], ("123".to_string(), 1));
}

/// Test empty input
#[test]
fn test_empty_input() {
    let logs: Vec<String> = vec![];
    let result = top_k_words(&logs, 5);
    assert_eq!(result.len(), 0);
}

/// Test k larger than number of unique words
#[test]
fn test_k_larger_than_unique_words() {
    let logs = vec![
        "word1 word2".to_string(),
        "word1 word3".to_string(),
    ];

    let result = top_k_words(&logs, 10);
    assert_eq!(result.len(), 3);
    assert_eq!(result[0], ("word1".to_string(), 2));
}

/// Test k = 0
#[test]
fn test_k_zero() {
    let logs = vec!["test".to_string()];
    let result = top_k_words(&logs, 0);
    assert_eq!(result.len(), 0);
}

/// Test with punctuation and special characters
#[test]
fn test_punctuation_handling() {
    let logs = vec![
        "Error, disk; full!".to_string(),
        "error: network-down".to_string(),
        "error (disk) full?".to_string(),
    ];

    let result = top_k_words(&logs, 3);

    assert_eq!(result[0], ("error".to_string(), 3));
    assert_eq!(result[1], ("disk".to_string(), 2));
    assert_eq!(result[2], ("full".to_string(), 2));
}

/// Test exact matching instead of contains
#[test]
fn test_exact_matching() {
    let logs = vec![
        "test test test".to_string(),
        "hello world".to_string(),
    ];

    let result = top_k_words(&logs, 2);
    let expected = vec![("test".to_string(), 3), ("hello".to_string(), 1)];
    assert_eq!(result, expected);
}
