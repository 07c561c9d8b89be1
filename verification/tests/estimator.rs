use zrb::zfs::estimator::{parse_estimated_size, parse_size_str, EstimatorError};

fn output(size_str: &str) -> String {
    format!(
        "send from @zrb-2026-05-01T00:00:00Z to tank/home@zrb-2026-05-22T14:30:00Z estimated size is {size_str}\n"
    )
}

#[test]
fn parses_gigabytes() {
    // 1.23 * 1_073_741_824 ≈ 1_320_702_443
    assert_eq!(parse_estimated_size(&output("1.23G")), Ok(1_320_702_443u64));
}

#[test]
fn parses_gigabytes_long_suffix() {
    assert_eq!(
        parse_estimated_size(&output("2GB")),
        Ok(2 * 1_024 * 1_024 * 1_024)
    );
}

#[test]
fn parses_megabytes() {
    assert_eq!(
        parse_estimated_size(&output("512M")),
        Ok(512 * 1_024 * 1_024)
    );
}

#[test]
fn parses_megabytes_long_suffix() {
    assert_eq!(
        parse_estimated_size(&output("128MB")),
        Ok(128 * 1_024 * 1_024)
    );
}

#[test]
fn parses_kilobytes() {
    assert_eq!(parse_estimated_size(&output("4K")), Ok(4 * 1_024));
}

#[test]
fn parses_kilobytes_long_suffix() {
    assert_eq!(parse_estimated_size(&output("8KB")), Ok(8 * 1_024));
}

#[test]
fn parses_bytes_no_suffix() {
    assert_eq!(parse_estimated_size(&output("1024")), Ok(1_024));
}

#[test]
fn parses_bytes_explicit_suffix() {
    assert_eq!(parse_estimated_size(&output("42B")), Ok(42));
}

#[test]
fn parses_terabytes() {
    assert_eq!(
        parse_estimated_size(&output("1T")),
        Ok(1_024u64 * 1_024 * 1_024 * 1_024)
    );
}

#[test]
fn parses_terabytes_long_suffix() {
    assert_eq!(
        parse_estimated_size(&output("2TB")),
        Ok(2 * 1_024u64 * 1_024 * 1_024 * 1_024)
    );
}

#[test]
fn missing_line_returns_error() {
    assert_eq!(
        parse_estimated_size("no relevant output here\n"),
        Err(EstimatorError::LineMissing)
    );
}

#[test]
fn malformed_value_returns_error() {
    assert!(matches!(
        parse_estimated_size(&output("??G")),
        Err(EstimatorError::MalformedValue(_))
    ));
}

#[test]
fn unknown_unit_returns_error() {
    assert!(matches!(
        parse_estimated_size(&output("5X")),
        Err(EstimatorError::MalformedValue(_))
    ));
}

#[test]
fn the_first_line_with_an_estimate_counts() {
    assert_eq!(
        parse_estimated_size("estimated size is\nestimated size is 5\n"),
        Err(EstimatorError::LineMissing)
    );
    assert_eq!(
        parse_estimated_size("x\r\ntotal estimated size is 7K \r\nestimated size is 8K\n"),
        Ok(7 * 1_024)
    );
    assert_eq!(
        parse_estimated_size("estimated size is 1 estimated size is 2"),
        Ok(1)
    );
    assert_eq!(
        parse_estimated_size("estimated size is abc"),
        Err(EstimatorError::MalformedValue("abc".to_string()))
    );
}

#[test]
fn sizes_are_floating_point_numbers() {
    assert_eq!(parse_size_str(""), None);
    assert_eq!(parse_size_str("K"), None);
    assert_eq!(parse_size_str(" 1 K "), Some(1_024));
    assert_eq!(parse_size_str("+.5K"), Some(512));
    assert_eq!(parse_size_str("1.K"), Some(1_024));
    assert_eq!(parse_size_str("-1K"), Some(0));
    assert_eq!(parse_size_str("1e3"), None);
    assert_eq!(parse_size_str("inf"), None);
    assert_eq!(parse_size_str("1京"), None);
    assert_eq!(parse_size_str("1k"), None);
    assert_eq!(parse_size_str("99999999999999999999T"), Some(u64::MAX));
    assert_eq!(parse_size_str("0.9999999999999999999999"), Some(1));
    assert_eq!(parse_size_str("0.999999999999999"), Some(0));
}

/// What the arithmetic of the machine gives.
fn by_machine(number: &str, scale: u64) -> u64 {
    let n: f64 = number.parse().unwrap();
    (n * scale as f64) as u64
}

#[test]
fn sizes_agree_with_the_machine() {
    let units = [
        ("", 1u64),
        ("K", 1 << 10),
        ("M", 1 << 20),
        ("G", 1 << 30),
        ("T", 1 << 40),
    ];
    let mut seed: u64 = 42;
    for i in 0..4_000u64 {
        seed = seed.wrapping_mul(6364136223846793005).wrapping_add(1442695040888963407);
        let whole = seed >> (i % 64);
        seed = seed.wrapping_mul(6364136223846793005).wrapping_add(1442695040888963407);
        let number = match i % 4 {
            0 => format!("{whole}"),
            1 => format!("{whole}.{seed}"),
            2 => format!("0.{:020}{seed}", whole % 1_000_000),
            _ => format!("{}.{:03}", whole % 1_000, seed % 1_000),
        };
        for (unit, scale) in units {
            assert_eq!(
                parse_size_str(&format!("{number}{unit}")),
                Some(by_machine(&number, scale)),
                "{number}{unit}"
            );
        }
    }
}

#[test]
fn estimator_errors_have_texts() {
    assert_eq!(
        EstimatorError::LineMissing.message(),
        "expected 'estimated size is <value><unit>' line not found in output"
    );
    assert_eq!(
        EstimatorError::MalformedValue("x".to_string()).message(),
        "could not parse size value 'x'"
    );
}
