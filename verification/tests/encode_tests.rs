use cs336_rs::encode::{bytes_to_string, string_to_bytes};

#[test]
fn encode_test_bs() {
    let bytes = vec![1, b'a'];
    let s = bytes_to_string(&bytes);
    assert_eq!(s, "āa");
}

#[test]
fn test_cs() {
    let s = "āa";
    let bytes = string_to_bytes(&s);
    assert_eq!(bytes, vec![1, b'a']);
}

#[test]
fn encode_space_and_visible_bytes() {
    // a space shows as `Ġ` (0x120), a visible byte as itself
    assert_eq!(bytes_to_string(&[32, b't']), "Ġt");
    assert_eq!(bytes_to_string(&[0xAD]), "\u{143}");
    assert_eq!(bytes_to_string(&[0x7F]), "\u{121}");
    assert_eq!(bytes_to_string(&[0xA0]), "\u{142}");
    assert_eq!(string_to_bytes("\u{121}\u{142}\u{143}"), vec![0x7F, 0xA0, 0xAD]);
    assert_eq!(bytes_to_string(&[0xFF]), "ÿ");
    assert_eq!(string_to_bytes("Ġt"), vec![32, b't']);
}

#[test]
fn encode_roundtrip_all_bytes() {
    let bytes: Vec<u8> = (0..=255u8).rev().collect();
    assert_eq!(string_to_bytes(&bytes_to_string(&bytes)), bytes);
}

#[test]
fn encode_empty() {
    assert_eq!(bytes_to_string(&[]), "");
    assert_eq!(string_to_bytes(""), Vec::<u8>::new());
}

#[test]
fn encode_matches_the_gpt2_table() {
    // printable bytes show as themselves; the other 68, in ascending order,
    // take the code points 0x100, 0x101, ...
    let mut next = 0x100u32;
    for b in 0..=255u8 {
        let visible = (0x21..=0x7E).contains(&b) || (b >= 0xA1 && b != 0xAD);
        let expected = if visible {
            char::from(b)
        } else {
            let c = char::from_u32(next).unwrap();
            next += 1;
            c
        };
        assert_eq!(bytes_to_string(&[b]), expected.to_string());
    }
    assert_eq!(next, 0x144);
}
