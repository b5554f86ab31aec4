use neuraldeep_desktop::paths::{hermes_home, hermes_home_in, join_path, sandbox_marker, hermes_file, provisioned, hermes_launcher, home_or_empty, launcher_if_present};
use neuraldeep_desktop::text::{chars_of, lines, string_of, trimmed};

#[test]
fn joins_like_path_join() {
    assert_eq!(join_path("/home/u", ".neuraldeep"), "/home/u/.neuraldeep");
    assert_eq!(join_path("/home/u/", "x"), "/home/u/x");
    assert_eq!(join_path("", "x"), "x");
    assert_eq!(join_path("/a", "/abs"), "/abs");
    assert_eq!(join_path("/a", ""), "/a/");
    assert_eq!(hermes_home_in("/Users/me"), "/Users/me/.neuraldeep/hermes");
}

#[test]
fn isolated_home_paths() {
    let hh = hermes_home();
    assert!(hh.ends_with(".neuraldeep/hermes"));
    assert_eq!(sandbox_marker(), format!("{hh}/.nd-sandbox"));
    assert_eq!(hermes_file("config.yaml"), format!("{hh}/config.yaml"));
    assert_eq!(provisioned(), hermes_launcher().is_some());
}

#[test]
fn lines_like_str_lines() {
    for s in ["", "a", "a\n", "a\n\nb", "a\r\nb\r\n", "x\r", "\n", "a\r\r\n"] {
        let got: Vec<String> = lines(&chars_of(s)).iter().map(string_of).collect();
        let want: Vec<String> = s.lines().map(|l| l.to_string()).collect();
        assert_eq!(got, want, "{s:?}");
    }
}

#[test]
fn trim_like_str_trim() {
    for s in ["  a b  ", "\u{3000}x\u{a0}", "", "   ", "\tq\r\n"] {
        assert_eq!(string_of(&trimmed(&chars_of(s))), s.trim());
    }
}

#[test]
fn home_and_launcher_from_lookups() {
    assert_eq!(home_or_empty(Some("/Users/me".to_string())), "/Users/me");
    assert_eq!(home_or_empty(None), "");
    assert_eq!(
        launcher_if_present("/Users/me/.neuraldeep/hermes", true),
        Some("/Users/me/.neuraldeep/hermes/hermes-agent/venv/bin/hermes".to_string())
    );
    assert_eq!(launcher_if_present("/Users/me/.neuraldeep/hermes", false), None);
}
