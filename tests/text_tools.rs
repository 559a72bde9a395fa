use toy_shell::{search_lines, AppRegex, Match, Matches, Month, PatternError, Sort};

fn search(lines: &[&str], pattern: char, before: usize, after: usize) -> Vec<(Match, usize, String)> {
    let mut m = Matches::new(before, after);
    let mut out = Vec::new();
    for (id, line) in lines.iter().enumerate() {
        if let Some(x) = m.insert(line.contains(pattern), id, line.to_string()) {
            out.push(x);
        }
    }
    out.extend(m.clear());
    out
}

#[test]
fn matching_lines_alone_without_context() {
    let out = search(&["a", "xb", "c", "xd"], 'x', 0, 0);
    let ids: Vec<usize> = out.iter().map(|x| x.1).collect();
    assert_eq!(ids, vec![1, 3]);
    assert!(out.iter().all(|x| x.0 == Match::Exact));
}

#[test]
fn context_lines_around_a_match() {
    let lines = ["0", "1", "2", "x3", "4", "5", "6", "7"];
    let out = search(&lines, 'x', 2, 1);
    let got: Vec<(Match, usize)> = out.iter().map(|x| (x.0, x.1)).collect();
    assert_eq!(
        got,
        vec![(Match::Aside, 1), (Match::Aside, 2), (Match::Exact, 3), (Match::Aside, 4)]
    );
    assert_eq!(out[2].2, "x3");
}

#[test]
fn overlapping_context_is_printed_once() {
    let lines = ["x0", "1", "x2", "3", "4", "5"];
    let out = search(&lines, 'x', 1, 1);
    let got: Vec<(Match, usize)> = out.iter().map(|x| (x.0, x.1)).collect();
    assert_eq!(got, vec![(Match::Exact, 0), (Match::Aside, 1), (Match::Exact, 2), (Match::Aside, 3)]);
}

#[test]
fn match_state_from_flag() {
    assert_eq!(Match::from(true), Match::Exact);
    assert_eq!(Match::from(false), Match::Skip);
}

#[test]
fn month_names() {
    assert_eq!(Month::from("jan"), Some(Month::Jan));
    assert_eq!(Month::from("dec"), Some(Month::Dec));
    assert_eq!(Month::from("Jan"), None);
    assert_eq!(Month::from(""), None);
}

#[test]
fn sort_order_names() {
    assert_eq!(Sort::from_name("month"), Some(Sort::Month));
    assert_eq!(Sort::from_name("human"), Some(Sort::Human));
    assert_eq!(Sort::from_name("numeric"), Some(Sort::Numeric));
    assert_eq!(Sort::from_name("string"), Some(Sort::String));
    assert_eq!(Sort::from_name("other"), None);
}

#[test]
fn search_patterns_follow_the_options() {
    let re = AppRegex::build("a.b", false, false, false, (1, 2)).ok().unwrap();
    assert!(re.is_match("xaxb"));
    assert_eq!((re.before(), re.after()), (1, 2));

    let fixed = AppRegex::build("a.b", false, true, false, (0, 0)).ok().unwrap();
    assert!(fixed.is_match("1 a.b 2"));
    assert!(!fixed.is_match("axb"));

    let nocase = AppRegex::build("hello", true, false, false, (0, 0)).ok().unwrap();
    assert!(nocase.is_match("HeLLo there"));

    let inverted = AppRegex::build("hello", false, false, true, (0, 0)).ok().unwrap();
    assert!(!inverted.is_match("hello"));
    assert!(inverted.is_match("bye"));

    assert!(matches!(AppRegex::build("(", false, false, false, (0, 0)), Err(PatternError::Invalid)));
    assert!(AppRegex::build("(", false, true, false, (0, 0)).is_ok());
}

#[test]
fn search_reports_lines_and_count() {
    let re = AppRegex::build("x", false, false, false, (1, 0)).ok().unwrap();
    let lines: Vec<String> = ["0", "1", "x2", "3", "x4"].iter().map(|s| s.to_string()).collect();
    let (items, count) = search_lines(&re, lines);
    let got: Vec<(Match, usize, &str)> = items.iter().map(|x| (x.0, x.1, x.2.as_str())).collect();
    assert_eq!(
        got,
        vec![(Match::Aside, 1, "1"), (Match::Exact, 2, "x2"), (Match::Aside, 3, "3"), (Match::Exact, 4, "x4")]
    );
    assert_eq!(count, 2);
}
