use simple_env_load::{parse, parse_all, parse_and_set};
use std::collections::HashMap;

fn owned(entries: &[(&str, &str)]) -> Vec<(String, String)> {
    entries.iter().map(|(k, v)| (k.to_string(), v.to_string())).collect()
}

#[test]
fn parse_and_set_calls_the_sink_once_per_entry_in_order() {
    let data = "A=1\n# c\nB = \"two\"\n\nC='3' # three\nbroken\nA=4";
    let mut seen: Vec<(String, String)> = Vec::new();
    parse_and_set(data, |k, v| seen.push((k.to_string(), v.to_string())));
    assert_eq!(seen, owned(&[("A", "1"), ("B", "two"), ("C", "3"), ("A", "4")]));
    assert_eq!(seen, owned(&parse(data)));
}

#[test]
fn parse_and_set_never_calls_the_sink_for_comments() {
    let mut calls = 0;
    parse_and_set("# A=1\n\n   \n#B=2", |_, _| calls += 1);
    assert_eq!(calls, 0);
}

#[test]
fn parse_and_set_fills_a_map() {
    let mut env: HashMap<String, String> = HashMap::new();
    parse_and_set("TEST_DATA=bar\nTEST_BAZ = \"baz\"\nTEST_DATA=again", |k, v| {
        env.insert(k.to_string(), v.to_string());
    });
    assert_eq!(env.len(), 2);
    assert_eq!(env["TEST_DATA"], "again");
    assert_eq!(env["TEST_BAZ"], "baz");
}

#[test]
fn parse_all_concatenates_the_sources_in_order() {
    let sources = vec![
        "A=1\nB=2".to_string(),
        "# nothing here".to_string(),
        "C='3'\nA=4\n".to_string(),
    ];
    assert_eq!(parse_all(&sources), owned(&[("A", "1"), ("B", "2"), ("C", "3"), ("A", "4")]));
}

#[test]
fn parse_all_of_no_source_is_empty() {
    assert_eq!(parse_all(&[]), Vec::<(String, String)>::new());
    assert_eq!(parse_all(&[String::new()]), Vec::<(String, String)>::new());
}

#[test]
fn later_source_overrides_earlier_one_in_the_sink() {
    let general = "K=1".to_string();
    let specific = "K=2".to_string();
    let entries = parse_all(&[general.clone(), specific.clone()]);
    assert_eq!(entries, owned(&[("K", "1"), ("K", "2")]));
    let mut sink: HashMap<String, String> = HashMap::new();
    for (k, v) in entries {
        sink.insert(k, v);
    }
    assert_eq!(sink.len(), 1);
    assert_eq!(sink["K"], "2");

    let mut sink: HashMap<String, String> = HashMap::new();
    for source in [&general, &specific] {
        parse_and_set(source, |k, v| {
            sink.insert(k.to_string(), v.to_string());
        });
    }
    assert_eq!(sink["K"], "2");

    let mut sink: HashMap<String, String> = HashMap::new();
    for (k, v) in parse_all(&[specific, general]) {
        sink.insert(k, v);
    }
    assert_eq!(sink["K"], "1");
}
