use transform_cache::memory_limit::{MemoryLimit, MemoryUse};

#[test]
fn parse_reads_decimal_units() {
    assert_eq!(MemoryLimit::parse("16GB"), Ok(MemoryLimit { limit: Some(16_000_000_000) }));
    assert_eq!(MemoryLimit::parse("999B"), Ok(MemoryLimit { limit: Some(999) }));
    assert_eq!(MemoryLimit::parse("12kB"), Ok(MemoryLimit { limit: Some(12_000) }));
    assert_eq!(MemoryLimit::parse("123MB"), Ok(MemoryLimit { limit: Some(123_000_000) }));
    assert_eq!(MemoryLimit::parse("1TB"), Ok(MemoryLimit { limit: Some(1_000_000_000_000) }));
}

#[test]
fn parse_reads_binary_units() {
    assert_eq!(MemoryLimit::parse("1kiB"), Ok(MemoryLimit { limit: Some(1024) }));
    assert_eq!(MemoryLimit::parse("4MiB"), Ok(MemoryLimit { limit: Some(4 * 1024 * 1024) }));
    assert_eq!(MemoryLimit::parse("1GiB"), Ok(MemoryLimit { limit: Some(1024 * 1024 * 1024) }));
}

#[test]
fn parse_reads_the_longest_texts_it_takes() {
    assert_eq!(
        MemoryLimit::parse("999999TB"),
        Ok(MemoryLimit { limit: Some(999_999_000_000_000_000) })
    );
    assert_eq!(
        MemoryLimit::parse("99999TiB"),
        Ok(MemoryLimit { limit: Some(99_999 * 1024 * 1024 * 1024 * 1024) })
    );
}

#[test]
fn parse_names_the_text_it_cannot_read() {
    assert_eq!(
        MemoryLimit::parse("abc"),
        Err("expected e.g. '16GB', got \"abc\"".to_owned())
    );
    assert_eq!(MemoryLimit::parse(""), Err("expected e.g. '16GB', got \"\"".to_owned()));
    assert_eq!(
        MemoryLimit::parse("16 GB"),
        Err("expected e.g. '16GB', got \"16 GB\"".to_owned())
    );
    assert_eq!(
        MemoryLimit::parse("1\"B"),
        Err("expected e.g. '16GB', got \"1\\\"B\"".to_owned())
    );
}

#[test]
fn from_parsed_wraps_the_number_or_names_the_text() {
    assert_eq!(MemoryLimit::from_parsed(Some(5), "\"5B\""), Ok(MemoryLimit { limit: Some(5) }));
    assert_eq!(
        MemoryLimit::from_parsed(None, "\"x\""),
        Err("expected e.g. '16GB', got \"x\"".to_owned())
    );
}

#[test]
fn default_is_unlimited() {
    assert_eq!(MemoryLimit::default(), MemoryLimit { limit: None });
}

#[test]
fn unlimited_is_never_exceeded() {
    let limit = MemoryLimit { limit: None };
    let used = MemoryUse { resident: Some(i64::MAX), counted: Some(i64::MAX) };
    assert_eq!(limit.is_exceeded_by(&used), None);
}

#[test]
fn counted_use_decides_where_known() {
    let limit = MemoryLimit { limit: Some(100) };
    let over = MemoryUse { resident: Some(50), counted: Some(150) };
    assert_eq!(limit.is_exceeded_by(&over), Some(150));
    let under = MemoryUse { resident: Some(500), counted: Some(100) };
    assert_eq!(limit.is_exceeded_by(&under), None);
}

#[test]
fn resident_use_decides_without_a_count() {
    let limit = MemoryLimit { limit: Some(100) };
    let over = MemoryUse { resident: Some(101), counted: None };
    assert_eq!(limit.is_exceeded_by(&over), Some(101));
    let at = MemoryUse { resident: Some(100), counted: None };
    assert_eq!(limit.is_exceeded_by(&at), None);
    let unknown = MemoryUse { resident: None, counted: None };
    assert_eq!(limit.is_exceeded_by(&unknown), None);
}
