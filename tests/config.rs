use minigrep::{Config, MISSING_ARGUMENTS};

#[test]
fn config_new_creates_config_with_query_and_filename() {
    let args = vec![
        String::from("program_name"),
        String::from("test_query"),
        String::from("test_file.txt"),
    ];

    let config = Config::new(&args, false).unwrap();

    assert_eq!(config.query, "test_query");
    assert_eq!(config.filename, "test_file.txt");
}

#[test]
fn config_new_returns_error_with_insufficient_arguments() {
    let args = vec![String::from("program_name")];
    let result = Config::new(&args, false);

    assert!(result.is_err());
    assert_eq!(result.err().unwrap(), "недостаточно аргументов");
}

#[test]
fn config_needs_three_arguments() {
    let none: Vec<String> = Vec::new();
    assert_eq!(Config::new(&none, false).err(), Some(MISSING_ARGUMENTS));
    let two = vec![String::from("prog"), String::from("query")];
    assert_eq!(Config::new(&two, true).err(), Some(MISSING_ARGUMENTS));
    let four = vec![
        String::from("prog"),
        String::from("query"),
        String::from("file"),
        String::from("extra"),
    ];
    let config = Config::new(&four, false).unwrap();
    assert_eq!(config.query, "query");
    assert_eq!(config.filename, "file");
}

#[test]
fn config_case_follows_switch() {
    let args = vec![String::from("prog"), String::from("q"), String::from("f")];
    assert!(Config::new(&args, false).unwrap().case_sensitive);
    assert!(!Config::new(&args, true).unwrap().case_sensitive);
}

#[test]
fn config_finds_lines_in_its_mode() {
    let contents = "Rust:\nsafe, fast, productive.\nPick three.\nTrust me.";
    let args = vec![String::from("prog"), String::from("rUsT"), String::from("poem.txt")];
    let exact = Config::new(&args, false).unwrap();
    assert_eq!(Vec::<&str>::new(), exact.find_in(contents));
    let loose = Config::new(&args, true).unwrap();
    assert_eq!(vec!["Rust:", "Trust me."], loose.find_in(contents));
}
