use simple_env_load::{parse, parse_all, parse_str};

#[test]
fn comments_and_blank_lines_yield_no_entry() {
    let texts = [
        "",
        "#",
        "# A=1",
        "\n\n",
        "# a\n\n   \n#b=c\n\t# d = 'e'",
        "   #\r\n\r\n#\"x\"\r\n",
    ];
    for text in texts {
        assert!(parse(text).is_empty(), "{:?}", text);
    }
}

#[test]
fn plain_line_yields_trimmed_key_and_value() {
    let cases = [
        ("KEY", "value"),
        (" KEY ", " value "),
        ("\tKEY", "value with spaces\t"),
        ("K", ""),
        ("K", "   "),
        ("a.b-c", "x=y=z"),
        ("camelCase", "\u{a0}1234\u{3000}"),
    ];
    for (key, value) in cases {
        let line = format!("{}={}", key, value);
        assert_eq!(parse(&line), vec![(key.trim(), value.trim())], "{:?}", line);
    }
}

#[test]
fn normalizing_a_normal_value_changes_nothing() {
    for value in ["", "bar", "two words", "a=b", "x.y/z", "naïve"] {
        assert_eq!(parse_str(value), Some(value));
    }
    for raw in ["  bar # c", "bar", " a b ", "#", "x#y#z", ""] {
        let once = parse_str(raw).unwrap();
        assert_eq!(parse_str(once), Some(once), "{:?}", raw);
    }
}

#[test]
fn normalizing_an_untrimmed_value_trims_it() {
    // The text between quotes keeps its spaces; normalizing it again does not.
    assert_eq!(parse_str("\" a \""), Some(" a "));
    assert_eq!(parse_str(" a "), Some("a"));
}

#[test]
fn entries_keep_the_order_of_their_lines() {
    let text = "\n# first\nB=2\n\n\nA=1\n# between\nnot an entry\nC=3\n   \nA=0\n#last";
    assert_eq!(parse(text), vec![("B", "2"), ("A", "1"), ("C", "3"), ("A", "0")]);
}

#[test]
fn entries_of_joined_texts_are_joined_entries() {
    let texts = ["", "A=1", "A=1\n", "# c\nB='2'\n\n", "broken\nC=3", "D=\"4\"\r"];
    for a in texts {
        for b in texts {
            let joined = format!("{}\n{}", a, b);
            let mut expected = parse(a);
            expected.extend(parse(b));
            assert_eq!(parse(&joined), expected, "{:?} {:?}", a, b);
        }
    }
}

#[test]
fn entries_of_sources_are_joined_entries() {
    let a = vec!["A=1".to_string(), "B=2\nC=3".to_string()];
    let b = vec!["# c".to_string(), "A=4".to_string()];
    let mut both = a.clone();
    both.extend(b.clone());
    let mut expected = parse_all(&a);
    expected.extend(parse_all(&b));
    assert_eq!(parse_all(&both), expected);
}

#[test]
fn no_entry_has_an_empty_key() {
    let text = "=1\n''=2\n\"\"=3\n  =4\n#=5\nK=6\n# =7\n=\n";
    assert_eq!(parse(text), vec![("K", "6")]);
}

#[test]
fn leading_quote_yields_the_text_up_to_its_partner() {
    assert_eq!(parse_str("'a'b'c'"), Some("a"));
    assert_eq!(parse_str("\"a 'b' # c\" d"), Some("a 'b' # c"));
    assert_eq!(parse_str("'\"'"), Some("\""));
}
