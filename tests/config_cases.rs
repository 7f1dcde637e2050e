use minigrep::Config;

#[test]
fn config_build() {
    let args = vec![
        String::from("minigrep"),
        String::from("query"),
        String::from("file_path"),
    ];
    let config = Config::build(&args).unwrap();
    assert_eq!(config.query, "query");
    assert_eq!(config.file_path, "file_path");
    assert_eq!(config.debug, false);
}

#[test]
fn config_build_with_debug() {
    let args = vec![
        String::from("minigrep"),
        String::from("query"),
        String::from("file_path"),
        String::from("debug"),
    ];
    let config = Config::build(&args).unwrap();
    assert_eq!(config.query, "query");
    assert_eq!(config.file_path, "file_path");
    assert_eq!(config.debug, true);
}

#[test]
fn config_build_with_too_few_args() {
    let args = vec![
        String::from("minigrep"),
        String::from("query"),
    ];
    let config = Config::build(&args);
    assert!(config.is_err());
}

#[test]
fn too_few_args_error_message() {
    for n in 0..3 {
        let args: Vec<String> = ["prog", "q", "path"][..n].iter().map(|a| a.to_string()).collect();
        match Config::build(&args) {
            Err(e) => assert_eq!(e, "not enough arguments"),
            Ok(_) => panic!("built from {} arguments", n),
        }
    }
}

#[test]
fn minimal_args_give_query_and_path() {
    let args = vec![String::from("prog"), String::from("q"), String::from("path")];
    let config = Config::build(&args).unwrap();
    assert_eq!(config.query, "q");
    assert_eq!(config.file_path, "path");
    assert!(!config.debug);
}

#[test]
fn other_fourth_argument_leaves_debug_off() {
    for fourth in ["Debug", "debug ", "debugx", "", "deb", "--debug"] {
        let args = vec![
            String::from("prog"),
            String::from("q"),
            String::from("path"),
            String::from(fourth),
        ];
        let config = Config::build(&args).unwrap();
        assert!(!config.debug, "{:?}", fourth);
    }
}

#[test]
fn extra_arguments_after_debug_are_ignored() {
    let args = vec![
        String::from("prog"),
        String::from("q"),
        String::from("path"),
        String::from("debug"),
        String::from("more"),
    ];
    let config = Config::build(&args).unwrap();
    assert!(config.debug);
    assert_eq!(config.query, "q");
}

#[test]
fn empty_query_and_path_are_accepted() {
    let args = vec![String::from("prog"), String::new(), String::new()];
    let config = Config::build(&args).unwrap();
    assert_eq!(config.query, "");
    assert_eq!(config.file_path, "");
    assert!(!config.debug);
}
