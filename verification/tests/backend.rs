use radius::r2_api::{
    drop_last_char, hex_decode, hex_encode, parse_dec_u64, parse_hex_u64, r2_result, str_eq,
    syscall_cc, Endian,
};

#[test]
fn endian_from_string_known_names() {
    assert_eq!(Endian::from_string("little"), Endian::Little);
    assert_eq!(Endian::from_string("big"), Endian::Big);
    assert_eq!(Endian::from_string("mixed"), Endian::Mixed);
    assert_eq!(Endian::from_string("middle"), Endian::Unknown);
    assert_eq!(Endian::from_string(""), Endian::Unknown);
}

#[test]
fn str_eq_compares_contents() {
    assert!(str_eq("abc", "abc"));
    assert!(!str_eq("abc", "abd"));
    assert!(!str_eq("abc", "abcd"));
    assert!(str_eq("", ""));
}

#[test]
fn hex_encode_bytes() {
    assert_eq!(hex_encode(&[0xde, 0xad, 0xbe, 0xef]), "deadbeef");
    assert_eq!(hex_encode(&[]), "");
    assert_eq!(hex_encode(&[0x00, 0x0a, 0xff]), "000aff");
}

#[test]
fn hex_decode_pairs() {
    assert_eq!(hex_decode("deadbeef"), vec![0xde, 0xad, 0xbe, 0xef]);
    assert_eq!(hex_decode("000aff"), vec![0x00, 0x0a, 0xff]);
    assert_eq!(hex_decode(""), Vec::<u8>::new());
}

#[test]
fn hex_round_trip() {
    let bytes = vec![0u8, 1, 2, 127, 128, 255, 16, 32];
    assert_eq!(hex_decode(&hex_encode(&bytes)), bytes);
}

#[test]
fn r2_result_maps_errors() {
    let ok: Result<u64, ()> = Ok(5);
    assert_eq!(r2_result(ok), Ok(5));
    let bad: Result<u64, ()> = Err(());
    assert_eq!(r2_result(bad), Err("Deserialization error".to_string()));
}

#[test]
fn syscall_cc_x86_32_only() {
    let cc = syscall_cc("x86", 32).unwrap();
    assert_eq!(cc.ret, "eax");
    assert_eq!(
        cc.args,
        vec!["ebx", "ecx", "edx", "esi", "edi", "ebp"]
    );
    assert!(syscall_cc("x86", 64).is_none());
    assert!(syscall_cc("arm", 32).is_none());
}

#[test]
fn hex_decode_upper_case_pairs() {
    assert_eq!(hex_decode("DEADBEEF"), vec![0xde, 0xad, 0xbe, 0xef]);
    assert_eq!(hex_decode("DeAdBeEf"), vec![0xde, 0xad, 0xbe, 0xef]);
    // encode then decode lower-cases on the way out
    assert_eq!(hex_encode(&hex_decode("0AFF")), "0aff");
}

#[test]
fn parse_hex_numerals() {
    assert_eq!(parse_hex_u64("deadbeef"), Some(0xdeadbeef));
    assert_eq!(parse_hex_u64("DEADBEEF"), Some(0xdeadbeef));
    assert_eq!(parse_hex_u64("0"), Some(0));
    assert_eq!(parse_hex_u64("ffffffffffffffff"), Some(u64::MAX));
    assert_eq!(parse_hex_u64("10000000000000000"), None);
    assert_eq!(parse_hex_u64(""), None);
    assert_eq!(parse_hex_u64("12g4"), None);
}

#[test]
fn parse_dec_numerals() {
    assert_eq!(parse_dec_u64("42"), Some(42));
    assert_eq!(parse_dec_u64("0"), Some(0));
    assert_eq!(parse_dec_u64("18446744073709551615"), Some(u64::MAX));
    assert_eq!(parse_dec_u64("18446744073709551616"), None);
    assert_eq!(parse_dec_u64(""), None);
    assert_eq!(parse_dec_u64("12a"), None);
}

#[test]
fn drop_last_char_trims_newline() {
    assert_eq!(drop_last_char("ret\n"), "ret");
    assert_eq!(drop_last_char("x"), "");
    assert_eq!(drop_last_char(""), "");
}
