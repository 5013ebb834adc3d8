use str_buf::StrBuf;

#[test]
fn should_write_within_capacity() {
    let mut text = StrBuf::<11>::new();
    text.push_str_exact("123456789").expect("Success");
    assert_eq!(text.len(), 9);
    text.push_str_exact("1").expect("Success");
    assert_eq!(text.len(), 10);
    assert_eq!(text.as_str(), "1234567891");
    assert!(text.push_str_exact("1").is_err());
}
