use minigrep_rust::config::{Config, Error};

fn strings(items: &[&str]) -> Vec<String> {
    items.iter().map(|s| s.to_string()).collect()
}

#[test]
fn build_with_program_name_only_fails() {
    let args = strings(&["prog"]);
    match Config::build(&args, None) {
        Err(Error::ArgumentError(m)) => assert_eq!("Not enough arguments", m),
        _ => panic!("expected an argument error"),
    }
}

#[test]
fn build_with_too_few_arguments_fails() {
    for n in 0..3 {
        let args = strings(&["prog", "query", "file.txt"][..n]);
        let r = Config::build(&args, Some("1"));
        assert!(matches!(r, Err(Error::ArgumentError("Not enough arguments"))));
    }
}

#[test]
fn build_takes_query_and_path() {
    let args = strings(&["prog", "to", "poem.txt"]);
    let config = Config::build(&args, None).ok().unwrap();
    assert_eq!("to", config.query);
    assert_eq!("poem.txt", config.file_path);
    assert!(!config.ignore_case);
}

#[test]
fn build_ignores_extra_arguments() {
    let args = strings(&["prog", "to", "poem.txt", "extra", "more"]);
    let config = Config::build(&args, None).ok().unwrap();
    assert_eq!("to", config.query);
    assert_eq!("poem.txt", config.file_path);
}

#[test]
fn ignore_case_set_by_presence_alone() {
    let args = strings(&["prog", "to", "poem.txt"]);
    assert!(Config::build(&args, Some("")).ok().unwrap().ignore_case);
    assert!(Config::build(&args, Some("0")).ok().unwrap().ignore_case);
    assert!(!Config::build(&args, None).ok().unwrap().ignore_case);
}

#[test]
fn matching_lines_follows_ignore_case() {
    let contents = "Rust:\nsafe, fast, productive.\nPick three.\nTrust me.";
    let sensitive = Config::build(&strings(&["prog", "rUsT", "f"]), None).ok().unwrap();
    assert!(sensitive.matching_lines(contents).is_empty());
    let folded = Config::build(&strings(&["prog", "rUsT", "f"]), Some("")).ok().unwrap();
    assert_eq!(vec!["Rust:", "Trust me."], folded.matching_lines(contents));
}

#[test]
fn error_messages() {
    assert_eq!("Not enough arguments", Error::ArgumentError("Not enough arguments").message());
    let e = Error::IoError("No such file or directory".to_string());
    assert_eq!("No such file or directory", e.message());
}
