use minigrep::{matching_lines, Config, ConfigError};

fn args(items: &[&str]) -> Vec<String> {
    items.iter().map(|s| s.to_string()).collect()
}

#[test]
fn build_rejects_too_few_arguments() {
    for given in [args(&[]), args(&["minigrep"]), args(&["minigrep", "needle"])] {
        match Config::build(&given, false) {
            Err(e) => assert_eq!(e, ConfigError::InsufficientArguments),
            Ok(_) => panic!("expected an error"),
        }
    }
}

#[test]
fn build_takes_query_and_path() {
    let c = Config::build(&args(&["minigrep", "needle", "poem.txt"]), false).unwrap();
    assert_eq!(c.query, "needle");
    assert_eq!(c.file_path, "poem.txt");
    assert!(!c.ignore_case);
}

#[test]
fn build_ignores_extra_arguments_and_keeps_flag() {
    let c = Config::build(&args(&["minigrep", "a", "b", "c"]), true).unwrap();
    assert_eq!(c.query, "a");
    assert_eq!(c.file_path, "b");
    assert!(c.ignore_case);
}

#[test]
fn matching_lines_follows_the_flag() {
    let contents = "Rust:\nsafe, fast, productive.\nPick Three.\nTrust me.";
    let exact = Config::build(&args(&["minigrep", "rUsT", "f"]), false).unwrap();
    assert!(matching_lines(&exact, contents).is_empty());
    let folded = Config::build(&args(&["minigrep", "rUsT", "f"]), true).unwrap();
    assert_eq!(vec!["Rust:", "Trust me."], matching_lines(&folded, contents));
}
