use shinri::bench::archive::{
    field_str, header_step, pad_to_block, parse_octal_field, safe_relative_path, zero_block_end, TarStep,
};

#[test]
fn safe_paths_stay_under_the_destination() {
    assert_eq!(safe_relative_path("./QF_X/a.smt2").unwrap(), "QF_X/a.smt2");
    assert_eq!(safe_relative_path("a/./b").unwrap(), "a/./b");
    assert_eq!(safe_relative_path("a/...").unwrap(), "a/...");
    assert_eq!(
        safe_relative_path("../evil").unwrap_err(),
        "archive entry escapes destination: \"../evil\""
    );
    assert!(safe_relative_path("a/../../b").is_err());
    assert_eq!(
        safe_relative_path("/etc/passwd").unwrap_err(),
        "archive entry has absolute path: \"/etc/passwd\""
    );
    assert_eq!(safe_relative_path("./").unwrap_err(), "archive entry has empty path: \"./\"");
}

#[test]
fn octal_fields() {
    assert_eq!(parse_octal_field(b"00000000013\0").unwrap(), 11);
    assert_eq!(parse_octal_field(b"17 \0\0").unwrap(), 15);
    assert_eq!(parse_octal_field(b"   17 \0\0").unwrap(), 0);
    assert_eq!(parse_octal_field(b"\0\0\0").unwrap(), 0);
    assert_eq!(parse_octal_field(b"+7\0").unwrap(), 7);
    assert_eq!(parse_octal_field(b"89\0").unwrap_err(), "bad octal field: \"89\"");
    assert_eq!(
        parse_octal_field(&[0x80, 0, 0]).unwrap_err(),
        "base-256 tar size fields are not supported"
    );
    assert_eq!(parse_octal_field(&[0xff & 0x7f, 0xc3, 0x28]).unwrap_err(), "non-UTF8 tar size field");
}

#[test]
fn name_fields_end_at_the_first_nul() {
    assert_eq!(field_str(b"abc\0def").unwrap(), "abc");
    assert_eq!(field_str(b"\xc3\xa9").unwrap(), "é");
    assert!(field_str(b"\xff").is_err());
}

#[test]
fn padding_reaches_the_next_block() {
    assert_eq!(pad_to_block(0), 0);
    assert_eq!(pad_to_block(1), 511);
    assert_eq!(pad_to_block(512), 0);
    assert_eq!(pad_to_block(513), 511);
}

fn header(name: &str, prefix: &str, size: u64, flag: u8) -> Vec<u8> {
    let mut h = vec![0u8; 512];
    h[..name.len()].copy_from_slice(name.as_bytes());
    h[345..345 + prefix.len()].copy_from_slice(prefix.as_bytes());
    h[124..136].copy_from_slice(format!("{size:011o}\0").as_bytes());
    h[156] = flag;
    h
}

#[test]
fn headers_say_what_comes_next() {
    assert!(matches!(header_step(&vec![0u8; 512], None), Ok(TarStep::End)));
    assert!(matches!(header_step(&header("a.smt2", "QF", 5, b'0'), None), Ok(TarStep::File(p, 5)) if p == "QF/a.smt2"));
    assert!(matches!(header_step(&header("d/", "", 0, b'5'), None), Ok(TarStep::Dir(p)) if p == "d/"));
    assert!(matches!(header_step(&header("x", "", 9, b'L'), None), Ok(TarStep::LongName(9))));
    assert!(matches!(header_step(&header("l", "", 3, b'2'), None), Ok(TarStep::Skip(3))));
    assert!(matches!(header_step(&header("short", "", 1, 0), Some("long/name".into())), Ok(TarStep::File(p, 1)) if p == "long/name"));
    assert!(header_step(&header("../x", "", 1, b'0'), None).is_err());
}

#[test]
fn a_zero_block_ends_the_archive_only_with_a_second_or_at_the_end() {
    assert_eq!(zero_block_end(None), Ok(()));
    assert_eq!(zero_block_end(Some(&[0u8; 512])), Ok(()));
    let mut block = [0u8; 512];
    block[100] = b'a';
    assert_eq!(zero_block_end(Some(&block)), Err("archive has a lone zero header block".to_string()));
}
