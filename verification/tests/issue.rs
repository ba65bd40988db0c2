use giftcard_bot::issue::{code_from_response, issue_request_body};

#[test]
fn request_body_is_exact() {
    let body = issue_request_body(3, &b"hunter2".to_vec());
    assert_eq!(
        body,
        b"{\"days_per_card\":3,\"num_cards\":1,\"secret\":\"hunter2\"}".to_vec()
    );
}

#[test]
fn request_body_escapes_the_secret() {
    let body = issue_request_body(30, &b"a\"b\\c\nd".to_vec());
    assert_eq!(
        body,
        b"{\"days_per_card\":30,\"num_cards\":1,\"secret\":\"a\\\"b\\\\c\\u000ad\"}".to_vec()
    );
}

#[test]
fn response_is_trimmed_to_the_code() {
    assert_eq!(
        code_from_response(&b"  \tCARD-999\r\n".to_vec()),
        b"CARD-999".to_vec()
    );
    assert_eq!(code_from_response(&b"CARD-1".to_vec()), b"CARD-1".to_vec());
    assert_eq!(code_from_response(&b" \n\t ".to_vec()), Vec::<u8>::new());
    assert_eq!(
        code_from_response(&b"two words ".to_vec()),
        b"two words".to_vec()
    );
}
