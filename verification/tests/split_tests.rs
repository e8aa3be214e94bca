use std::collections::HashSet;
use word_split::SplitError;
use word_split::SplitResult;
use word_split::split_string;

#[test]
fn test_split_string1() {
    let result1 = split_string("a b c".to_string(), HashSet::from(['"'])).unwrap();
    assert_eq!(result1.len(), 3);
    assert_eq!(result1[0], SplitResult { result: "a".to_string(), escaped_with: None });
    assert_eq!(result1[1], SplitResult { result: "b".to_string(), escaped_with: None });
    assert_eq!(result1[2], SplitResult { result: "c".to_string(), escaped_with: None });
}

#[test]
fn test_split_string2() {
    let result1 = split_string("'a b' e 'c d'".to_string(), HashSet::from(['\''])).unwrap();
    assert_eq!(result1.len(), 3);
    assert_eq!(result1[0], SplitResult { result: "a b".to_string(), escaped_with: Some('\'') });
    assert_eq!(result1[1], SplitResult { result: "e".to_string(), escaped_with: None });
    assert_eq!(result1[2], SplitResult { result: "c d".to_string(), escaped_with: Some('\'') });
}

#[test]
fn test_split_string3() {
    let result1 = split_string("a 'b c".to_string(), HashSet::from(['\'']));
    assert!(result1.is_err());
}

#[test]
fn test_split_string4() {
    let result1 = split_string("'a b' e \"c d\"".to_string(), HashSet::from(['\'', '"'])).unwrap();
    assert_eq!(result1.len(), 3);
    assert_eq!(result1[0], SplitResult { result: "a b".to_string(), escaped_with: Some('\'') });
    assert_eq!(result1[1], SplitResult { result: "e".to_string(), escaped_with: None });
    assert_eq!(result1[2], SplitResult { result: "c d".to_string(), escaped_with: Some('"') });
}

#[test]
fn empty_input_yields_no_tokens() {
    let result = split_string("".to_string(), HashSet::new()).unwrap();
    assert_eq!(result.len(), 0);
}

#[test]
fn consecutive_spaces_collapse() {
    let result = split_string("  a  b  ".to_string(), HashSet::new()).unwrap();
    assert_eq!(result.len(), 2);
    assert_eq!(result[0], SplitResult { result: "a".to_string(), escaped_with: None });
    assert_eq!(result[1], SplitResult { result: "b".to_string(), escaped_with: None });
}

#[test]
fn no_delimiters_in_input_gives_plain_words() {
    let result = split_string("foo bar".to_string(), HashSet::from(['\''])).unwrap();
    assert_eq!(result.len(), 2);
    assert_eq!(result[0], SplitResult { result: "foo".to_string(), escaped_with: None });
    assert_eq!(result[1], SplitResult { result: "bar".to_string(), escaped_with: None });
}

#[test]
fn adjacent_delimiters_give_empty_quoted_token() {
    let result = split_string("''".to_string(), HashSet::from(['\''])).unwrap();
    assert_eq!(result.len(), 1);
    assert_eq!(result[0], SplitResult { result: "".to_string(), escaped_with: Some('\'') });
}

#[test]
fn quote_closing_splits_off_token() {
    let result = split_string("a''b".to_string(), HashSet::from(['\''])).unwrap();
    assert_eq!(result.len(), 2);
    assert_eq!(result[0], SplitResult { result: "a".to_string(), escaped_with: Some('\'') });
    assert_eq!(result[1], SplitResult { result: "b".to_string(), escaped_with: None });
}

#[test]
fn other_delimiters_are_literal_inside_quote() {
    let result = split_string("\"a'b\"".to_string(), HashSet::from(['\'', '"'])).unwrap();
    assert_eq!(result.len(), 1);
    assert_eq!(result[0], SplitResult { result: "a'b".to_string(), escaped_with: Some('"') });
}

#[test]
fn tabs_and_newlines_are_ordinary_characters() {
    let result = split_string("a\tb\nc d".to_string(), HashSet::new()).unwrap();
    assert_eq!(result.len(), 2);
    assert_eq!(result[0], SplitResult { result: "a\tb\nc".to_string(), escaped_with: None });
    assert_eq!(result[1], SplitResult { result: "d".to_string(), escaped_with: None });
}

#[test]
fn non_ascii_characters_split_on_spaces() {
    let result = split_string("αβ γ".to_string(), HashSet::from(['\''])).unwrap();
    assert_eq!(result.len(), 2);
    assert_eq!(result[0], SplitResult { result: "αβ".to_string(), escaped_with: None });
    assert_eq!(result[1], SplitResult { result: "γ".to_string(), escaped_with: None });
}

#[test]
fn unterminated_quote_error_variant() {
    let err = split_string("'abc".to_string(), HashSet::from(['\''])).unwrap_err();
    assert_eq!(err, SplitError::UnterminatedQuote);
}

#[test]
fn odd_delimiter_count_fails_even_count_succeeds() {
    assert_eq!(
        split_string("'''".to_string(), HashSet::from(['\''])).unwrap_err(),
        SplitError::UnterminatedQuote
    );
    let result = split_string("''''".to_string(), HashSet::from(['\''])).unwrap();
    assert_eq!(result.len(), 2);
    assert_eq!(result[0], SplitResult { result: "".to_string(), escaped_with: Some('\'') });
    assert_eq!(result[1], SplitResult { result: "".to_string(), escaped_with: Some('\'') });
}

#[test]
fn rejoining_tokens_and_splitting_again_is_identity() {
    let delims = HashSet::from(['\'', '"']);
    let first = split_string("'a b'  e  \"c d\"".to_string(), delims.clone()).unwrap();
    let mut rejoined = String::new();
    for (i, tok) in first.iter().enumerate() {
        if i > 0 {
            rejoined.push(' ');
        }
        match tok.escaped_with {
            Some(e) => {
                rejoined.push(e);
                rejoined.push_str(&tok.result);
                rejoined.push(e);
            }
            None => rejoined.push_str(&tok.result),
        }
    }
    assert_eq!(rejoined, "'a b' e \"c d\"");
    let second = split_string(rejoined, delims).unwrap();
    assert_eq!(first, second);
}

#[test]
fn quote_text_joins_with_preceding_characters() {
    let result = split_string("a'b c'd e".to_string(), HashSet::from(['\''])).unwrap();
    assert_eq!(result.len(), 3);
    assert_eq!(result[0], SplitResult { result: "ab c".to_string(), escaped_with: Some('\'') });
    assert_eq!(result[1], SplitResult { result: "d".to_string(), escaped_with: None });
    assert_eq!(result[2], SplitResult { result: "e".to_string(), escaped_with: None });
}
