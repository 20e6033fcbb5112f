use ranking::cli::{parse_cli_args, parse_env};
use ranking::errors::{CLIErr, ThreadPoolErr};

fn args(a: &[&str]) -> Vec<String> {
    a.iter().map(|s| s.to_string()).collect()
}

#[test]
fn flags_are_read() {
    let c = parse_cli_args(&args(&["-c", "conf.json", "--simulate", "-l"])).unwrap();
    assert_eq!(c.config, Some("conf.json".to_string()));
    assert!(!c.help && c.simulate && c.load);
    let c = parse_cli_args(&args(&["--h"])).unwrap();
    assert!(c.help);
    assert_eq!(c.config, None);
    let c = parse_cli_args(&args(&["--config", "a", "-config", "b"])).unwrap();
    assert_eq!(c.config, Some("b".to_string()));
}

#[test]
fn flag_errors() {
    match parse_cli_args(&args(&["--config"])).unwrap_err() {
        CLIErr::Config(s) => assert_eq!(s, "Missing value for --matrix-path"),
        e => panic!("{:?}", e),
    }
    match parse_cli_args(&args(&["-s"])).unwrap_err() {
        CLIErr::Config(s) => assert_eq!(s, "Missing --config argument"),
        e => panic!("{:?}", e),
    }
    match parse_cli_args(&args(&["-x"])).unwrap_err() {
        CLIErr::Unknown(s) => assert_eq!(s, "Unknown argument: -x"),
        e => panic!("{:?}", e),
    }
    assert_eq!(CLIErr::File("x".to_string()).message(), "File error : [x]");
    assert_eq!(CLIErr::Alpha("a".to_string()).message(), "a");
    assert_eq!(ThreadPoolErr::ThreadJoin("w".to_string()).message(), "Thread join issue : [w]");
    assert_eq!(
        ThreadPoolErr::ShutdownTimeout.message(),
        "Failed to Shutdown the ThreadPool before the end of the timeout."
    );
}

#[test]
fn env_file_is_read() {
    let content = "# comment\n\nMATRIX_PATH = \"/data/m.mtx\"\r\nOUTPUT_DIR='/out'\nNO_EQUAL\n  KEY=a=b  \nQ=\"x";
    let pairs = parse_env(content);
    assert_eq!(
        pairs,
        vec![
            ("MATRIX_PATH".to_string(), "/data/m.mtx".to_string()),
            ("OUTPUT_DIR".to_string(), "/out".to_string()),
            ("KEY".to_string(), "a=b".to_string()),
            ("Q".to_string(), "\"x".to_string()),
        ]
    );
    assert_eq!(parse_env(""), vec![]);
    assert_eq!(parse_env("A=\"\"\n"), vec![("A".to_string(), "".to_string())]);
}
