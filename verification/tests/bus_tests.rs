use zoocache::bus::{encode_invalidation, initial_backoff, next_backoff, parse_invalidation,
    parse_u64, u64_to_dec};

#[test]
fn decimal_formatting_and_parsing_round_trip() {
    assert_eq!(u64_to_dec(0), "0");
    assert_eq!(u64_to_dec(7), "7");
    assert_eq!(u64_to_dec(1234567890), "1234567890");
    assert_eq!(u64_to_dec(u64::MAX), "18446744073709551615");

    assert_eq!(parse_u64("0"), Some(0));
    assert_eq!(parse_u64("1234567890"), Some(1234567890));
    assert_eq!(parse_u64("18446744073709551615"), Some(u64::MAX));
    assert_eq!(parse_u64("18446744073709551616"), None);
    assert_eq!(parse_u64(""), None);
    assert_eq!(parse_u64("12x3"), None);
}

#[test]
fn invalidation_payloads_round_trip() {
    let payload = encode_invalidation("org:42:user:7", 9);
    assert_eq!(payload, "org:42:user:7|9");
    assert_eq!(
        parse_invalidation(&payload),
        Some(("org:42:user:7".to_string(), 9))
    );
}

#[test]
fn payloads_split_at_the_last_bar() {
    assert_eq!(parse_invalidation("a|b|12"), Some(("a|b".to_string(), 12)));
    assert_eq!(parse_invalidation("nobar"), None);
    assert_eq!(parse_invalidation("x|"), None);
    assert_eq!(parse_invalidation("|5"), Some(("".to_string(), 5)));
    assert_eq!(parse_invalidation("tag|notanumber"), None);
}

#[test]
fn backoff_doubles_and_caps_at_five_seconds() {
    let mut cur = initial_backoff();
    assert_eq!(cur, 100);
    let mut seen = Vec::new();
    for _ in 0..8 {
        cur = next_backoff(cur);
        seen.push(cur);
    }
    assert_eq!(seen, vec![200, 400, 800, 1600, 3200, 5000, 5000, 5000]);
}
