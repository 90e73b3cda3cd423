use fitter::parse::{parse_capacity_line, parse_u32, parse_weight_line, split_tokens};

#[test]
fn parse_u32_accepts_plain_numbers() {
    assert_eq!(parse_u32(b"0"), Some(0));
    assert_eq!(parse_u32(b"7"), Some(7));
    assert_eq!(parse_u32(b"12345"), Some(12345));
    assert_eq!(parse_u32(b"007"), Some(7));
    assert_eq!(parse_u32(b"4294967295"), Some(u32::MAX));
}

#[test]
fn parse_u32_accepts_leading_plus() {
    assert_eq!(parse_u32(b"+42"), Some(42));
    assert_eq!(parse_u32(b"+0"), Some(0));
}

#[test]
fn parse_u32_rejects_garbage() {
    assert_eq!(parse_u32(b""), None);
    assert_eq!(parse_u32(b"+"), None);
    assert_eq!(parse_u32(b"-1"), None);
    assert_eq!(parse_u32(b"12a"), None);
    assert_eq!(parse_u32(b"a12"), None);
    assert_eq!(parse_u32(b"1 2"), None);
    assert_eq!(parse_u32(b"++1"), None);
}

#[test]
fn parse_u32_rejects_overflow() {
    assert_eq!(parse_u32(b"4294967296"), None);
    assert_eq!(parse_u32(b"99999999999999999999"), None);
}

#[test]
fn split_tokens_on_whitespace() {
    let toks = split_tokens(b"  12 3\t45  \n");
    let toks: Vec<&[u8]> = toks.iter().map(|t| t.as_slice()).collect();
    assert_eq!(toks, vec![b"12" as &[u8], b"3", b"45"]);
    assert!(split_tokens(b"").is_empty());
    assert!(split_tokens(b" \t\r\n").is_empty());
}

#[test]
fn weight_line_reads_until_zero() {
    let mut weights = Vec::new();
    assert_eq!(parse_weight_line(b"3 5 2", &mut weights), Ok(false));
    assert_eq!(weights, vec![3, 5, 2]);
    assert_eq!(parse_weight_line(b"7 0 9", &mut weights), Ok(true));
    assert_eq!(weights, vec![3, 5, 2, 7]);
}

#[test]
fn weight_line_rejects_bad_tokens() {
    let mut weights = Vec::new();
    assert_eq!(parse_weight_line(b"3 x 2", &mut weights), Err(()));
    // the weights before the bad token were already taken
    assert_eq!(weights, vec![3]);
}

#[test]
fn capacity_line_cases() {
    assert_eq!(parse_capacity_line(b"10"), Ok(Some(10)));
    assert_eq!(parse_capacity_line(b"  10  "), Ok(Some(10)));
    assert_eq!(parse_capacity_line(b""), Ok(None));
    assert_eq!(parse_capacity_line(b"  \t "), Ok(None));
    assert_eq!(parse_capacity_line(b"x"), Err(()));
    assert_eq!(parse_capacity_line(b"10 20"), Err(()));
}
