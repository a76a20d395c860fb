use simple_env_load::parse_str;
use simple_env_load::quote::{Flavor, QuoteScan};

#[test]
fn parse_str_unquoted_is_trimmed() {
    assert_eq!(parse_str("bar"), Some("bar"));
    assert_eq!(parse_str("  bar \t"), Some("bar"));
    assert_eq!(parse_str("two words"), Some("two words"));
    assert_eq!(parse_str(""), Some(""));
    assert_eq!(parse_str("   "), Some(""));
}

#[test]
fn parse_str_unquoted_is_cut_at_the_first_hash() {
    assert_eq!(parse_str("bar # comment"), Some("bar"));
    assert_eq!(parse_str("bar#a#b"), Some("bar"));
    assert_eq!(parse_str("# only a comment"), Some(""));
}

#[test]
fn parse_str_strips_one_pair_of_quotes() {
    assert_eq!(parse_str("\"baz\""), Some("baz"));
    assert_eq!(parse_str("'qux'"), Some("qux"));
    assert_eq!(parse_str("\"\""), Some(""));
    assert_eq!(parse_str("''"), Some(""));
    assert_eq!(parse_str("\"a\"b\"c\""), Some("a"));
}

#[test]
fn parse_str_keeps_what_is_inside_the_quotes() {
    assert_eq!(parse_str("\"'nested'\""), Some("'nested'"));
    assert_eq!(parse_str("'\"nested\"'"), Some("\"nested\""));
    assert_eq!(parse_str("\"#bar\""), Some("#bar"));
    assert_eq!(parse_str("\" padded \""), Some(" padded "));
    assert_eq!(parse_str("'it is \"so\"'"), Some("it is \"so\""));
}

#[test]
fn parse_str_fails_without_the_closing_quote() {
    assert_eq!(parse_str("\"open"), None);
    assert_eq!(parse_str("'open"), None);
    assert_eq!(parse_str("'mixed\""), None);
    assert_eq!(parse_str("\"mixed'"), None);
    assert_eq!(parse_str("it's"), None);
}

#[test]
fn parse_str_slices_from_start_to_start_plus_end() {
    // opening quote at 1, closing at 3: start = 2, end = 2.
    assert_eq!(parse_str("a\"b\"c"), Some("b\""));
    // opening quote at 2, closing at 4: start = 3, end = 3.
    assert_eq!(parse_str("ab\"c\"defgh"), Some("c\"d"));
    // opening quote at 1, closing at 2: start = 2, end = 1.
    assert_eq!(parse_str("a''bc"), Some("'"));
}

#[test]
fn parse_str_fails_where_the_slice_passes_the_end() {
    // start = 3, end = 3, but the text has 5 characters.
    assert_eq!(parse_str("ab\"c\""), None);
    // start = 5, end = 10, but the text has 12 characters.
    assert_eq!(parse_str("x # \"quoted\""), None);
    // start = 2, end = 4: 6 is exactly the length.
    assert_eq!(parse_str("a'bcd'"), Some("bcd'"));
    // start = 3, end = 6: 9 is one more than the length.
    assert_eq!(parse_str("  'abcd'"), None);
}

#[test]
fn parse_str_ignores_hash_once_a_quote_is_present() {
    assert_eq!(parse_str("\"value\" # comment"), Some("value"));
    assert_eq!(parse_str("'a' # b"), Some("a"));
}

#[test]
fn parse_str_trims_as_std_does() {
    let samples = [
        "",
        " ",
        "a",
        "  a",
        "a  ",
        "  a b  ",
        "\t\r\n x \u{a0}\u{3000}",
        "\u{2003}é\u{2003}",
        " \t \n ",
        "\u{1680}\u{2028}x\u{2029}\u{202f}\u{205f}",
        "\u{200b}x\u{feff}",
    ];
    for sample in samples {
        assert_eq!(parse_str(sample), Some(sample.trim()), "{:?}", sample);
    }
}

#[test]
fn parse_str_counts_characters() {
    assert_eq!(parse_str("é'ab'cd"), Some("ab'"));
    assert_eq!(parse_str("'日本語'"), Some("日本語"));
    assert_eq!(parse_str("\u{2003}naïve\u{a0}"), Some("naïve"));
}

#[test]
fn flavor_of_each_character() {
    assert_eq!(Flavor::from_char('\''), Some(Flavor::Single));
    assert_eq!(Flavor::from_char('"'), Some(Flavor::Double));
    assert_eq!(Flavor::from_char('`'), None);
    assert_eq!(Flavor::from_char('a'), None);
    assert_eq!(Flavor::Single.quote(), '\'');
    assert_eq!(Flavor::Double.quote(), '"');
}

#[test]
fn quote_scan_walks_through_its_three_states() {
    let text: Vec<char> = "a\"b'c\"d\"".chars().collect();
    let mut states = Vec::new();
    let mut scan = QuoteScan::NoQuoteSeen;
    for (i, c) in text.iter().enumerate() {
        scan = scan.step(i, *c);
        states.push(scan);
    }
    let in_quote = QuoteScan::InQuote { flavor: Flavor::Double, start: 2 };
    let closed = QuoteScan::Closed { start: 2, end: 4 };
    assert_eq!(
        states,
        vec![
            QuoteScan::NoQuoteSeen,
            in_quote,
            in_quote,
            in_quote,
            in_quote,
            closed,
            closed,
            closed,
        ]
    );
    assert!(closed.is_closed());
    assert!(!in_quote.is_closed());
    assert!(!QuoteScan::NoQuoteSeen.is_closed());
}

#[test]
fn quote_scan_takes_its_flavor_from_the_first_quote() {
    let scan = QuoteScan::NoQuoteSeen.step(0, '\'');
    assert_eq!(scan, QuoteScan::InQuote { flavor: Flavor::Single, start: 1 });
    let scan = scan.step(1, '"');
    assert_eq!(scan, QuoteScan::InQuote { flavor: Flavor::Single, start: 1 });
    let scan = scan.step(2, '\'');
    assert_eq!(scan, QuoteScan::Closed { start: 1, end: 1 });
}
