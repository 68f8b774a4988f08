use heapstore::Config;

fn args(list: &[&str]) -> Vec<String> {
    list.iter().map(|s| s.to_string()).collect()
}

#[test]
fn build_takes_query_and_path() {
    let config = Config::build(args(&["minigrep", "needle", "poem.txt"]), false);
    let config = config.ok().unwrap();
    assert_eq!("needle", config.query);
    assert_eq!("poem.txt", config.file_path);
    assert!(!config.ignore_case);
}

#[test]
fn build_ignores_further_arguments() {
    let config = Config::build(args(&["minigrep", "a", "b", "c", "d"]), true);
    let config = config.ok().unwrap();
    assert_eq!("a", config.query);
    assert_eq!("b", config.file_path);
    assert!(config.ignore_case);
}

#[test]
fn build_without_query() {
    assert_eq!(Some("Didn't get a query string"), Config::build(args(&[]), false).err());
    assert_eq!(
        Some("Didn't get a query string"),
        Config::build(args(&["minigrep"]), false).err()
    );
}

#[test]
fn build_without_file_path() {
    assert_eq!(
        Some("Didn't get a file path"),
        Config::build(args(&["minigrep", "needle"]), true).err()
    );
}
