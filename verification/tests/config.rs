use minigrep::run_search;
use minigrep::Config;
use minigrep::ConfigError;

#[test]
fn no_arguments_is_a_missing_query() {
    let args = vec![String::from("prog")];
    assert!(matches!(Config::new(&args, true), Err(ConfigError::MissingQuery)));
}

#[test]
fn one_argument_is_a_missing_filename() {
    let args = vec![String::from("prog"), String::from("ehh")];
    assert!(matches!(Config::new(&args, true), Err(ConfigError::MissingFilename)));
}

#[test]
fn two_arguments_build_a_config() {
    let args = vec![
        String::from("prog"),
        String::from("needle"),
        String::from("haystack.txt"),
    ];
    let config = Config::new(&args, true).unwrap();
    assert_eq!("needle", config.query);
    assert_eq!("haystack.txt", config.filename);
    assert!(config.case_sensitive);

    let config = Config::new(&args, false).unwrap();
    assert!(!config.case_sensitive);
}

#[test]
fn error_messages_name_the_missing_argument() {
    assert_eq!("missing query", ConfigError::MissingQuery.message());
    assert_eq!("missing filename", ConfigError::MissingFilename.message());
}

#[test]
fn run_search_follows_the_case_policy() {
    let contents = "Rust:\nTrust me.";
    let sensitive = Config {
        query: String::from("RUSt"),
        filename: String::from("unused.txt"),
        case_sensitive: true,
    };
    let insensitive = Config {
        query: String::from("RUSt"),
        filename: String::from("unused.txt"),
        case_sensitive: false,
    };
    assert!(run_search(&sensitive, contents).is_empty());
    assert_eq!(vec!["Rust:", "Trust me."], run_search(&insensitive, contents));
}
