use seedmaze::hash::cyrb53;
use seedmaze::textseed::parse_seed;

#[test]
fn known_hash_values() {
    assert_eq!(cyrb53("owo"), 4273397102455203);
    assert_eq!(cyrb53("hello"), 4625896200565286);
    assert_eq!(cyrb53(""), 3338908027751811);
    assert_eq!(cyrb53("12a"), 3215535033605816);
}

#[test]
fn hash_folds_code_points_not_bytes() {
    // multi-byte characters are folded as single code points
    assert_eq!(cyrb53("\u{f1}"), 7548847377561374);
    assert_eq!(cyrb53("\u{65e5}\u{672c}"), 402342642078485);
}

#[test]
fn hash_is_deterministic() {
    let texts: [&str; 4] = ["owo", "a maze", "12a", "x"];
    for t in texts {
        assert_eq!(cyrb53(t), cyrb53(t));
    }
}

#[test]
fn numeric_text_resolves_directly() {
    assert_eq!(parse_seed("42"), 42);
    assert_eq!(parse_seed("+42"), 42);
    assert_eq!(parse_seed("0"), 0);
    assert_eq!(parse_seed("18446744073709551615"), u64::MAX);
}

#[test]
fn non_numeric_text_falls_back_to_hash() {
    assert_eq!(parse_seed("owo"), cyrb53("owo"));
    assert_eq!(parse_seed("12a"), cyrb53("12a"));
    // one digit too many for a u64: parsing fails, the hash takes over
    assert_eq!(parse_seed("18446744073709551616"), cyrb53("18446744073709551616"));
    assert_eq!(parse_seed("-3"), cyrb53("-3"));
    assert_eq!(parse_seed("+"), cyrb53("+"));
}

#[test]
fn empty_text_draws_a_bounded_seed() {
    for _ in 0..50 {
        assert!(parse_seed("") < 2147483646);
    }
}
