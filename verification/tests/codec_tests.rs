use spread_server::codec::{decode, encode_batch, CellEdit, DecodeError};

fn edit(v: &Result<Vec<CellEdit>, DecodeError>, i: usize) -> (char, i32, String) {
    let e = &v.as_ref().unwrap()[i];
    (e.column, e.row, e.value.clone())
}

#[test]
fn decode_two_edits_in_order() {
    let r = decode("$A0 v1$B2 v2");
    let v = r.as_ref().unwrap();
    assert_eq!(v.len(), 2);
    assert_eq!(edit(&r, 0), ('A', 0, "v1".to_string()));
    assert_eq!(edit(&r, 1), ('B', 2, "v2".to_string()));
}

#[test]
fn decode_without_marker_is_missing_delimiter() {
    let r = decode("A0 v1");
    assert!(matches!(r, Err(DecodeError::MissingDelimiter)));
}

#[test]
fn decode_empty_payload_is_missing_delimiter() {
    assert!(matches!(decode(""), Err(DecodeError::MissingDelimiter)));
}

#[test]
fn decode_row_above_signed_range_is_invalid_row() {
    let r = decode("$A4294967295 x");
    assert!(matches!(r, Err(DecodeError::InvalidRow(_))));
}

#[test]
fn decode_row_boundary() {
    let r = decode("$A2147483647 x");
    assert_eq!(edit(&r, 0), ('A', 2147483647, "x".to_string()));
    assert!(matches!(decode("$A2147483648 x"), Err(DecodeError::InvalidRow(_))));
}

#[test]
fn decode_marker_alone_is_empty_batch() {
    let r = decode("$");
    assert_eq!(r.unwrap().len(), 0);
}

#[test]
fn decode_discards_empty_fragments() {
    let r = decode("$$A0 v$$");
    let v = r.as_ref().unwrap();
    assert_eq!(v.len(), 1);
    assert_eq!(edit(&r, 0), ('A', 0, "v".to_string()));
}

#[test]
fn decode_single_token_is_malformed() {
    let r = decode("$A0");
    match r {
        Err(DecodeError::MalformedFragment(f)) => assert_eq!(f, "A0"),
        other => panic!("expected a malformed fragment, got {:?}", other),
    }
}

#[test]
fn decode_three_tokens_is_malformed() {
    assert!(matches!(decode("$A0 v w"), Err(DecodeError::MalformedFragment(_))));
}

#[test]
fn decode_empty_row_part_is_invalid_row() {
    assert!(matches!(decode("$A v"), Err(DecodeError::InvalidRow(_))));
}

#[test]
fn decode_non_digit_row_is_invalid_row() {
    assert!(matches!(decode("$Axy v"), Err(DecodeError::InvalidRow(_))));
}

#[test]
fn decode_negative_row_is_invalid_row() {
    assert!(matches!(decode("$A-1 v"), Err(DecodeError::InvalidRow(_))));
}

#[test]
fn decode_trims_fragment_whitespace() {
    let r = decode("$  A0 v1  ");
    assert_eq!(edit(&r, 0), ('A', 0, "v1".to_string()));
}

#[test]
fn decode_newline_separated_pair() {
    let r = decode("$A0\nValue");
    assert_eq!(edit(&r, 0), ('A', 0, "Value".to_string()));
}

#[test]
fn decode_first_bad_fragment_decides_the_error() {
    // the malformed second fragment is hit before the invalid third one
    let r = decode("$A0 ok$broken$Ax v");
    match r {
        Err(DecodeError::MalformedFragment(f)) => assert_eq!(f, "broken"),
        other => panic!("expected a malformed fragment, got {:?}", other),
    }
}

#[test]
fn decode_case_sensitive_column() {
    let r = decode("$a7 low");
    assert_eq!(edit(&r, 0), ('a', 7, "low".to_string()));
}

#[test]
fn encode_batch_concatenates_in_order() {
    let parts = vec!["$A0 v1".to_string(), "$B2 v2".to_string()];
    assert_eq!(encode_batch(&parts), "$A0 v1$B2 v2");
}

#[test]
fn encode_batch_of_nothing_is_empty() {
    let parts: Vec<String> = vec![];
    assert_eq!(encode_batch(&parts), "");
}

#[test]
fn encoded_batch_decodes_to_all_edits() {
    let parts = vec!["$A0 v1".to_string(), "$B2 v2".to_string()];
    let replay = encode_batch(&parts);
    let r = decode(&replay);
    assert_eq!(r.unwrap().len(), 2);
}
