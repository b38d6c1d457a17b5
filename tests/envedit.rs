use envedit::{diff, report, DiffEntry, DiffState, EnvEditError, EnvVar, EnvVars};

fn pairs(items: &[(&str, &str)]) -> Vec<(String, String)> {
    items.iter().map(|(n, v)| (n.to_string(), v.to_string())).collect()
}

fn names_values(set: &EnvVars) -> Vec<(String, String)> {
    (0..set.len()).map(|i| (set.get(i).name().to_string(), set.get(i).value().to_string())).collect()
}

fn set_of(items: &[(&str, &str)]) -> EnvVars {
    EnvVars::from_pairs(pairs(items)).unwrap()
}

fn entry(name: &str, state: DiffState, old: Option<&str>, new: Option<&str>) -> (String, DiffState, Option<String>, Option<String>) {
    (name.to_string(), state, old.map(String::from), new.map(String::from))
}

fn plain(entries: &[DiffEntry]) -> Vec<(String, DiffState, Option<String>, Option<String>)> {
    entries
        .iter()
        .map(|e| (e.name.clone(), e.state, e.old_value.clone(), e.new_value.clone()))
        .collect()
}

#[test]
fn env_vars_values() {
    let values = vec![
        (String::from("KEY"), String::from("VALUE")),
        (String::from("MULTILINE"), String::from("abc\ndef\n")),
    ];
    let result = EnvVars::from_pairs(values).unwrap();

    assert_eq!(result.len(), 2);

    assert_eq!(result.get(0).name(), "KEY");
    assert_eq!(result.get(0).value(), "VALUE");

    assert_eq!(result.get(1).name(), "MULTILINE");
    assert_eq!(result.get(1).value(), "abc\ndef\n");
}

#[test]
fn from_pairs_sorts_and_keeps_every_pair() {
    let set = set_of(&[("ZED", "1"), ("ALPHA", "2"), ("MID", "3"), ("ALPHA", "4")]);
    assert_eq!(
        names_values(&set),
        pairs(&[("ALPHA", "2"), ("ALPHA", "4"), ("MID", "3"), ("ZED", "1")])
    );
}

#[test]
fn from_pairs_orders_by_code_point() {
    let set = set_of(&[("b", "1"), ("B", "2"), ("_", "3"), ("AB", "4"), ("A", "5"), ("é", "6")]);
    let names: Vec<String> = names_values(&set).into_iter().map(|p| p.0).collect();
    assert_eq!(names, vec!["A", "AB", "B", "_", "b", "é"]);
}

#[test]
fn from_pairs_empty() {
    let set = EnvVars::from_pairs(Vec::new()).unwrap();
    assert_eq!(set.len(), 0);
    assert_eq!(set.to_text(), "");
}

#[test]
fn from_pairs_rejects_separator_in_name() {
    let r = EnvVars::from_pairs(pairs(&[("OK", "1"), ("BAD=NAME", "2"), ("ALSO", "3")]));
    assert_eq!(r.err(), Some(EnvEditError::InvalidName));
}

#[test]
fn new_rejects_separator_whatever_the_value() {
    for value in ["", "x", "a=b", "\n"] {
        assert_eq!(EnvVar::new("A=".to_string(), value.to_string()).err(), Some(EnvEditError::InvalidName));
        assert_eq!(EnvVar::new("=".to_string(), value.to_string()).err(), Some(EnvEditError::InvalidName));
    }
    let v = EnvVar::new("NAME".to_string(), "a=b".to_string()).unwrap();
    assert_eq!(v.name(), "NAME");
    assert_eq!(v.value(), "a=b");
}

#[test]
fn validate_name_cases() {
    assert_eq!(EnvVar::validate_name("PATH"), Ok(()));
    assert_eq!(EnvVar::validate_name(""), Ok(()));
    assert_eq!(EnvVar::validate_name("A B\n"), Ok(()));
    assert_eq!(EnvVar::validate_name("X=Y"), Err(EnvEditError::InvalidName));
}

#[test]
fn to_text_writes_one_line_per_variable() {
    let set = set_of(&[("B", "2"), ("A", "1=x"), ("C", "")]);
    assert_eq!(set.to_text(), "A=1=x\nB=2\nC=\n");
}

#[test]
fn round_trip_through_text() {
    let set = set_of(&[("PATH", "/bin:/usr/bin"), ("HOME", "/root"), ("EMPTY", ""), ("SPACE", " a b ")]);
    let back = EnvVars::from_text(&set.to_text()).unwrap();
    assert_eq!(names_values(&back), names_values(&set));
}

#[test]
fn round_trip_loses_after_second_separator() {
    let set = set_of(&[("A", "x=y=z")]);
    let back = EnvVars::from_text(&set.to_text()).unwrap();
    assert_eq!(names_values(&back), pairs(&[("A", "x")]));
}

#[test]
fn round_trip_splits_multiline_values() {
    let set = set_of(&[("KEY", "VALUE"), ("MULTILINE", "abc\ndef\n")]);
    assert_eq!(set.to_text(), "KEY=VALUE\nMULTILINE=abc\ndef\n\n");
    assert_eq!(EnvVars::from_text(&set.to_text()).err(), Some(EnvEditError::MalformedLine { line: 2 }));

    let set = set_of(&[("M", "a\nB=c")]);
    let back = EnvVars::from_text(&set.to_text()).unwrap();
    assert_eq!(names_values(&back), pairs(&[("B", "c"), ("M", "a")]));
}

#[test]
fn parse_reports_malformed_line_index() {
    let r = EnvVars::from_text("KEY=VALUE\nBADLINE\n");
    assert_eq!(r.err(), Some(EnvEditError::MalformedLine { line: 1 }));
}

#[test]
fn parse_keeps_first_two_segments() {
    let set = EnvVars::from_text("A=1=2\n").unwrap();
    assert_eq!(names_values(&set), pairs(&[("A", "1")]));
}

#[test]
fn parse_blank_line_is_malformed() {
    assert_eq!(EnvVars::from_text("A=1\n\nB=2\n").err(), Some(EnvEditError::MalformedLine { line: 1 }));
    assert_eq!(EnvVars::from_text("\n").err(), Some(EnvEditError::MalformedLine { line: 0 }));
}

#[test]
fn parse_stops_at_first_error() {
    assert_eq!(EnvVars::from_text("X\n=\nY\n").err(), Some(EnvEditError::MalformedLine { line: 0 }));
    assert_eq!(EnvVars::from_text("A=1\nB\nC=3\nD\n").err(), Some(EnvEditError::MalformedLine { line: 1 }));
}

#[test]
fn parse_line_endings() {
    let set = EnvVars::from_text("B=2\r\nA=1").unwrap();
    assert_eq!(names_values(&set), pairs(&[("A", "1"), ("B", "2")]));
    let set = EnvVars::from_text("A=1\r").unwrap();
    assert_eq!(names_values(&set), pairs(&[("A", "1\r")]));
    assert_eq!(EnvVars::from_text("").unwrap().len(), 0);
}

#[test]
fn parse_empty_name_and_duplicates() {
    let set = EnvVars::from_text("=v\nK=2\nK=1\n").unwrap();
    assert_eq!(names_values(&set), pairs(&[("", "v"), ("K", "2"), ("K", "1")]));
}

#[test]
fn diff_example() {
    let old = set_of(&[("KEY", "VALUE"), ("GONE", "old")]);
    let new = set_of(&[("KEY", "VALUE"), ("NEW", "x")]);
    let d = diff(old, new);
    assert_eq!(
        plain(&d),
        vec![
            entry("GONE", DiffState::Deleted, Some("old"), None),
            entry("KEY", DiffState::Unchanged, Some("VALUE"), Some("VALUE")),
            entry("NEW", DiffState::Added, None, Some("x")),
        ]
    );
}

#[test]
fn diff_modified_and_exact_comparison() {
    let old = set_of(&[("A", "1"), ("B", " x"), ("C", "")]);
    let new = set_of(&[("A", "2"), ("B", "x"), ("C", "")]);
    assert_eq!(
        plain(&diff(old, new)),
        vec![
            entry("A", DiffState::Modified, Some("1"), Some("2")),
            entry("B", DiffState::Modified, Some(" x"), Some("x")),
            entry("C", DiffState::Unchanged, Some(""), Some("")),
        ]
    );
}

#[test]
fn diff_removed_empty_value_is_deleted() {
    let old = set_of(&[("E", "")]);
    let new = set_of(&[]);
    assert_eq!(plain(&diff(old, new)), vec![entry("E", DiffState::Deleted, Some(""), None)]);
}

#[test]
fn diff_duplicates_collapse_to_last() {
    let old = EnvVars::from_text("K=a\nK=b\nD=1\nD=2\n").unwrap();
    let new = EnvVars::from_text("K=b\nN=1\nN=2\n").unwrap();
    assert_eq!(
        plain(&diff(old, new)),
        vec![
            entry("D", DiffState::Deleted, Some("2"), None),
            entry("K", DiffState::Unchanged, Some("b"), Some("b")),
            entry("N", DiffState::Added, None, Some("2")),
        ]
    );
}

#[test]
fn diff_totality_and_order() {
    let old = set_of(&[("c", "1"), ("a", "1"), ("e", "1"), ("b", "2")]);
    let new = set_of(&[("d", "1"), ("b", "1"), ("a", "1"), ("f", "3")]);
    let d = diff(old, new);
    let names: Vec<String> = d.iter().map(|e| e.name.clone()).collect();
    assert_eq!(names, vec!["a", "b", "c", "d", "e", "f"]);
    let states: Vec<DiffState> = d.iter().map(|e| e.state).collect();
    assert_eq!(
        states,
        vec![
            DiffState::Unchanged,
            DiffState::Modified,
            DiffState::Deleted,
            DiffState::Added,
            DiffState::Deleted,
            DiffState::Added,
        ]
    );
}

#[test]
fn diff_of_empty_sets() {
    assert!(diff(set_of(&[]), set_of(&[])).is_empty());
}

#[test]
fn report_lines() {
    let old = set_of(&[("KEY", "VALUE"), ("GONE", "old"), ("MOD", "1")]);
    let new = set_of(&[("KEY", "VALUE"), ("NEW", "x"), ("MOD", "2")]);
    let d = diff(old, new);
    assert_eq!(report(&d), "- GONE=old\n  KEY=VALUE\n- MOD=1\n+ MOD=2\n+ NEW=x\n");
    assert_eq!(report(&Vec::new()), "");
}
