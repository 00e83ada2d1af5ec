use zpaq_rs::cli::{
    is_stdin_path, is_stdout_path, parse_block_size, split_block_size, BlockSizeError,
    IntErrorKind,
};

fn invalid(s: &str) -> (String, IntErrorKind) {
    match split_block_size(s) {
        Err(BlockSizeError::InvalidNumber { text, kind }) => (text, kind),
        other => panic!("expected an invalid number, got {:?}", other),
    }
}

#[test]
fn block_size_with_units() {
    assert_eq!(parse_block_size("16MB").unwrap(), 16 * 1024 * 1024);
    assert_eq!(parse_block_size("64M").unwrap(), 64 * 1024 * 1024);
    assert_eq!(parse_block_size("64m").unwrap(), 64 * 1024 * 1024);
    assert_eq!(parse_block_size("8mb").unwrap(), 8 * 1024 * 1024);
    assert_eq!(parse_block_size("1GB").unwrap(), 1024 * 1024 * 1024);
    assert_eq!(parse_block_size("1g").unwrap(), 1024 * 1024 * 1024);
    assert_eq!(parse_block_size("4KB").unwrap(), 4096);
    assert_eq!(parse_block_size("4k").unwrap(), 4096);
    assert_eq!(parse_block_size("100B").unwrap(), 100);
    assert_eq!(parse_block_size("100b").unwrap(), 100);
    assert_eq!(parse_block_size("1048576").unwrap(), 1048576);
}

#[test]
fn block_size_white_space_and_sign() {
    assert_eq!(parse_block_size("  4 KB \n").unwrap(), 4096);
    assert_eq!(parse_block_size("\t2 m").unwrap(), 2 * 1024 * 1024);
    assert_eq!(parse_block_size("+5").unwrap(), 5);
    assert_eq!(parse_block_size("0").unwrap(), 0);
    assert_eq!(split_block_size("3MB").unwrap(), (3, 1024 * 1024));
}

#[test]
fn block_size_empty() {
    assert!(matches!(split_block_size(""), Err(BlockSizeError::Empty)));
    assert!(matches!(split_block_size("   \t"), Err(BlockSizeError::Empty)));
    assert!(matches!(parse_block_size("\u{3000}"), Err(BlockSizeError::Empty)));
}

#[test]
fn block_size_invalid_numbers() {
    assert_eq!(invalid("abc"), ("abc".to_string(), IntErrorKind::InvalidDigit));
    assert_eq!(invalid("MB"), ("".to_string(), IntErrorKind::Empty));
    assert_eq!(invalid(" KB"), ("".to_string(), IntErrorKind::Empty));
    assert_eq!(invalid("-5"), ("-5".to_string(), IntErrorKind::InvalidDigit));
    assert_eq!(invalid("+"), ("+".to_string(), IntErrorKind::InvalidDigit));
    assert_eq!(invalid("1Gb"), ("1G".to_string(), IntErrorKind::InvalidDigit));
    assert_eq!(invalid("1.5M"), ("1.5".to_string(), IntErrorKind::InvalidDigit));
    assert_eq!(invalid("12 34"), ("12 34".to_string(), IntErrorKind::InvalidDigit));
    assert_eq!(invalid("٣"), ("٣".to_string(), IntErrorKind::InvalidDigit));
}

#[test]
fn block_size_overflow() {
    assert_eq!(
        invalid("99999999999999999999999"),
        ("99999999999999999999999".to_string(), IntErrorKind::PosOverflow)
    );
    // An overflow is reported before a later bad character is reached.
    assert_eq!(
        invalid("99999999999999999999x"),
        ("99999999999999999999x".to_string(), IntErrorKind::PosOverflow)
    );
    assert_eq!(split_block_size("18446744073709551615").unwrap(), (usize::MAX, 1));
}

#[test]
fn block_size_agrees_with_std_parse() {
    for s in ["0", "7", "+42", "0012", "18446744073709551615", "18446744073709551616", "-0", "", "x", "+", "1 2", "+-1"] {
        let expected = s.parse::<usize>();
        let got = split_block_size(&format!("{}B", s));
        match (expected, got) {
            (Ok(n), Ok((m, 1))) => assert_eq!(n, m),
            (Err(e), Err(BlockSizeError::InvalidNumber { kind, .. })) => {
                let k = match e.kind() {
                    std::num::IntErrorKind::Empty => IntErrorKind::Empty,
                    std::num::IntErrorKind::InvalidDigit => IntErrorKind::InvalidDigit,
                    std::num::IntErrorKind::PosOverflow => IntErrorKind::PosOverflow,
                    _ => panic!("unexpected kind"),
                };
                assert_eq!(k, kind, "for {:?}", s);
            }
            (e, g) => panic!("disagreement on {:?}: {:?} vs {:?}", s, e, g),
        }
    }
}

#[test]
fn std_stream_paths() {
    assert!(is_stdin_path(None));
    assert!(is_stdin_path(Some(Some("-"))));
    assert!(!is_stdin_path(Some(Some("input.bin"))));
    assert!(!is_stdin_path(Some(Some("--"))));
    assert!(!is_stdin_path(Some(None)));
    assert!(is_stdout_path(None));
    assert!(is_stdout_path(Some(Some("-"))));
    assert!(!is_stdout_path(Some(Some("out.zpaq"))));
    assert!(!is_stdout_path(Some(None)));
}

#[test]
fn block_size_error_messages() {
    let msg = |s: &str| parse_block_size(s).unwrap_err().message();
    assert_eq!(msg(""), "Block size cannot be empty");
    assert_eq!(
        msg("abc"),
        "Invalid block size string 'abc': invalid digit found in string"
    );
    assert_eq!(
        msg("MB"),
        "Invalid block size string '': cannot parse integer from empty string"
    );
    assert_eq!(
        msg("99999999999999999999999k"),
        "Invalid block size string '99999999999999999999999': number too large to fit in target type"
    );
    for (s, kind) in [("", IntErrorKind::Empty), ("x", IntErrorKind::InvalidDigit), ("99999999999999999999999", IntErrorKind::PosOverflow)] {
        let std_text = s.parse::<usize>().unwrap_err().to_string();
        assert_eq!(kind.description(), std_text);
    }
}
