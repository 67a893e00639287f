use fa10::parse_size;
use fa10::Fa10Error;

#[test]
fn bare_bytes() {
    assert_eq!(parse_size("1024").unwrap(), 1024);
    assert_eq!(parse_size("1").unwrap(), 1);
}

#[test]
fn binary_units() {
    assert_eq!(parse_size("1K").unwrap(), 1024);
    assert_eq!(parse_size("1KB").unwrap(), 1024);
    assert_eq!(parse_size("1KiB").unwrap(), 1024);
    assert_eq!(parse_size("1MB").unwrap(), 1024 * 1024);
    assert_eq!(parse_size("100MB").unwrap(), 100 * 1024 * 1024);
    assert_eq!(parse_size("2GiB").unwrap(), 2 * 1024 * 1024 * 1024);
    assert_eq!(parse_size("1TB").unwrap(), 1024u64.pow(4));
}

#[test]
fn case_and_whitespace_insensitive() {
    assert_eq!(parse_size("  5 mb ").unwrap(), 5 * 1024 * 1024);
    assert_eq!(parse_size("5Mb").unwrap(), 5 * 1024 * 1024);
}

#[test]
fn decimal_values() {
    assert_eq!(parse_size("1.5KB").unwrap(), 1536);
    assert_eq!(parse_size("0.5MB").unwrap(), 512 * 1024);
}

#[test]
fn underscores_allowed() {
    assert_eq!(parse_size("1_000").unwrap(), 1000);
}

#[test]
fn rejects_garbage() {
    assert!(parse_size("").is_err());
    assert!(parse_size("abc").is_err());
    assert!(parse_size("10XB").is_err());
    assert!(parse_size("0").is_err());
    assert!(parse_size("MB").is_err());
}

fn reason(input: &str) -> String {
    match parse_size(input) {
        Err(Fa10Error::BadSize { input: i, reason }) => {
            assert_eq!(i, input);
            reason
        }
        other => panic!("unexpected {other:?}"),
    }
}

#[test]
fn size_error_reasons() {
    assert_eq!(reason("   "), "empty size");
    assert_eq!(reason("10XB"), "unknown unit \"xb\"");
    assert_eq!(reason("MB"), "missing number");
    assert_eq!(reason("0"), "size must be greater than zero");
    assert_eq!(reason("1.2.3"), "invalid decimal number");
    assert_eq!(reason("18446744073709551616"), "invalid integer (too large?)");
    assert_eq!(reason("17179869184TB"), "size overflows u64");
}

#[test]
fn huge_sizes_saturate_or_fail() {
    // Integers that overflow u64 are refused; decimals saturate.
    assert_eq!(parse_size("18446744073709551615").unwrap(), u64::MAX);
    assert_eq!(parse_size("99999999999999999999.5TB").unwrap(), u64::MAX);
}

#[test]
fn decimal_rounding_and_units() {
    assert_eq!(parse_size("1.5").unwrap(), 2);
    assert_eq!(parse_size("2.25k").unwrap(), 2304);
    assert_eq!(parse_size("1_024 B").unwrap(), 1024);
    assert_eq!(parse_size(".5K").unwrap(), 512);
    assert_eq!(parse_size("3t").unwrap(), 3 * 1024u64.pow(4));
}
