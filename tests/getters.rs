use str_buf::StrBuf;

type SmolStr = StrBuf<5>;

#[test]
fn should_get_byte() {
    let test = SmolStr::from_str("123");
    let byte1: Option<u8> = test.get(0);
    let byte2: Option<u8> = test.get(1);
    let byte3: Option<u8> = test.get(2);
    let out_of_bounds_byte: Option<u8> = test.get(test.len());

    assert_eq!(byte1, Some(b'1'));
    assert_eq!(byte2, Some(b'2'));
    assert_eq!(byte3, Some(b'3'));
    assert_eq!(out_of_bounds_byte, None);
}
