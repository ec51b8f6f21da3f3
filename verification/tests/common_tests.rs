use cs336_rs::common::{bytes_to_string, string_to_bytes};

#[test]
fn common_test_bs() {
    let bytes = vec![1, b'a'];
    let s = bytes_to_string(&bytes);
    assert_eq!("ā".as_bytes(), vec![0xC4, 0x81]);
    assert_eq!(s, "āa");
}

#[test]
fn common_string_to_bytes_inverts_bytes_to_string() {
    let bytes: Vec<u8> = (0..=255u8).collect();
    let s = bytes_to_string(&bytes);
    assert_eq!(string_to_bytes(&s), bytes);
}
