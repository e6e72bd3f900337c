use episode_renamer::tokens::render_token;

#[test]
fn pads_single_digits_to_two() {
    assert_eq!(render_token('S', 0), "S00");
    assert_eq!(render_token('S', 1), "S01");
    assert_eq!(render_token('E', 9), "E09");
}

#[test]
fn keeps_two_digits() {
    assert_eq!(render_token('E', 10), "E10");
    assert_eq!(render_token('E', 14), "E14");
    assert_eq!(render_token('S', 99), "S99");
}

#[test]
fn never_truncates_wider_numbers() {
    assert_eq!(render_token('S', 100), "S100");
    assert_eq!(render_token('S', 123), "S123");
    assert_eq!(render_token('S', 2024), "S2024");
    assert_eq!(render_token('E', u32::MAX), "E4294967295");
}

#[test]
fn digits_of_a_token_denote_the_number() {
    for n in [0u32, 7, 10, 42, 99, 100, 999, 1000, 65535] {
        let token = render_token('S', n);
        assert!(token.len() >= 3);
        assert_eq!(token[1..].parse::<u32>().unwrap(), n);
    }
}
