use log_word_analyzer::rank::top_k_words;

/// Test basic functionality with multiple log entries
#[test]
fn main_test_basic_functionality() {
    let logs = vec![
        "Error: Disk full".to_string(),
        "Warning: Memory low".to_string(),
        "error: network down".to_string(),
        "Error: Disk full".to_string(),
    ];

    let result = top_k_words(&logs, 2);

    assert_eq!(result.len(), 2);
    assert_eq!(result[0], ("error".to_string(), 3));
    assert_eq!(result[1], ("disk".to_string(), 2));
}

/// Test case insensitivity of word counting
#[test]
fn test_case_insensitivity() {
    let logs = vec![
        "ERROR: test".to_string(),
        "Error: TEST".to_string(),
        "error: Test".to_string(),
    ];

    let result = top_k_words(&logs, 2);

    assert_eq!(result[0], ("error".to_string(), 3));
    assert_eq!(result[1], ("test".to_string(), 3));
}

/// Test sorting by frequency descending
#[test]
fn main_test_sorting_order() {
    let logs = vec![
        "apple banana".to_string(),
        "banana cherry".to_string(),
        "apple apple".to_string(),
    ];

    let result = top_k_words(&logs, 3);

    assert_eq!(result[0], ("apple".to_string(), 3));
    assert_eq!(result[1], ("banana".to_string(), 2));
    assert_eq!(result[2], ("cherry".to_string(), 1));
}

/// Test alphabetical sorting for words with same frequency
#[test]
fn test_alphabetical_sorting_for_ties() {
    let logs = vec![
        "apple zebra".to_string(),
        "zebra apple".to_string(),
        "banana cherry".to_string(),
    ];

    let result = top_k_words(&logs, 4);

    assert_eq!(result[0], ("apple".to_string(), 2));
    assert_eq!(result[1], ("zebra".to_string(), 2));
    assert_eq!(result[2], ("banana".to_string(), 1));
    assert_eq!(result[3], ("cherry".to_string(), 1));
}

/// Test when k is larger than number of unique words
#[test]
fn main_test_k_larger_than_unique_words() {
    let logs = vec![
        "hello world".to_string(),
        "hello rust".to_string(),
    ];

    let result = top_k_words(&logs, 5);

    assert_eq!(result.len(), 3);
    assert_eq!(result[0], ("hello".to_string(), 2));
}

/// Test k = 0 (should return empty vector)
#[test]
fn main_test_k_zero() {
    let logs = vec!["test".to_string()];
    let result = top_k_words(&logs, 0);
    assert_eq!(result.len(), 0);
}

/// Test empty input (should return empty vector)
#[test]
fn main_test_empty_input() {
    let logs: Vec<String> = vec![];
    let result = top_k_words(&logs, 5);
    assert_eq!(result.len(), 0);
}

/// Test handling of punctuation and special characters
#[test]
fn main_test_punctuation_handling() {
    let logs = vec![
        "Error disk full".to_string(),
        "error network down".to_string(),
    ];

    let result = top_k_words(&logs, 5);

    assert_eq!(result[0], ("error".to_string(), 2));
    assert!(result.iter().any(|(word, _)| word == "disk"));
    assert!(result.iter().any(|(word, _)| word == "full"));
    assert!(result.iter().any(|(word, _)| word == "network"));
    assert!(result.iter().any(|(word, _)| word == "down"));
}

/// Test exact output format and content
#[test]
fn test_exact_output_format() {
    let logs = vec![
        "test test test".to_string(),
        "hello hello".to_string(),
    ];

    let result = top_k_words(&logs, 2);
    let expected = vec![("test".to_string(), 3), ("hello".to_string(), 2)];
    assert_eq!(result, expected);
}
