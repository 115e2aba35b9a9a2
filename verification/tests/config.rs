use kanaweb_server::config::{is_open, Command, Config, Resolved};

fn parse(args: &[&str]) -> Result<Command, String> {
    let args: Vec<String> = args.iter().map(|s| s.to_string()).collect();
    Config::parse_args(&args, b"/home/\xff")
}

fn serve(args: &[&str]) -> Config {
    match parse(args) {
        Ok(Command::Serve(config)) => config,
        other => panic!("{other:?}"),
    }
}

#[test]
fn defaults() {
    let config = serve(&[]);
    assert_eq!(config.host, "127.0.0.1");
    assert_eq!(config.port, 8080);
    assert_eq!(config.dir, b"/home/\xff");
    assert_eq!(config.index, "Flashcards.html");
}

#[test]
fn every_setting() {
    let config = serve(&["--host", "0.0.0.0", "--port", "9000", "--dir", "/some/other/dir"]);
    assert_eq!(config.host, "0.0.0.0");
    assert_eq!(config.port, 9000);
    assert_eq!(config.dir, b"/some/other/dir");
    assert_eq!(config.index, "Flashcards.html");
    let config = serve(&["-d", "かな", "-p", "+0065535"]);
    assert_eq!(config.port, 65535);
    assert_eq!(config.dir, "かな".as_bytes());
    assert_eq!(serve(&["--host", "--port"]).host, "--port");
}

#[test]
fn the_last_one_counts() {
    let config = serve(&["-p", "1", "--host", "a", "--port", "2", "--host", "b", "-d", "x", "-d", "y"]);
    assert_eq!(config.port, 2);
    assert_eq!(config.host, "b");
    assert_eq!(config.dir, b"y");
}

#[test]
fn help() {
    assert!(matches!(parse(&["-h"]), Ok(Command::Help)));
    assert!(matches!(parse(&["-p", "1", "--help", "nonsense"]), Ok(Command::Help)));
    assert!(parse(&["nonsense", "--help"]).is_err());
}

#[test]
fn errors() {
    for (args, message) in [
        (&["--host"][..], "--host needs a value"),
        (&["-p"][..], "--port needs a value"),
        (&["--port"][..], "--port needs a value"),
        (&["-d"][..], "--dir needs a value"),
        (&["--dir"][..], "--dir needs a value"),
        (&["--port", "65536"][..], "invalid port: 65536"),
        (&["-p", "-1"][..], "invalid port: -1"),
        (&["-p", ""][..], "invalid port: "),
        (&["--Host", "x"][..], "unknown argument: --Host"),
        (&["-p", "1", "x"][..], "unknown argument: x"),
    ] {
        assert_eq!(parse(args).unwrap_err(), message);
    }
}

#[test]
fn messages_that_more_arguments_could_change() {
    for args in [&["--host"][..], &["-p", "1", "--port"], &["-d"], &["-p"]] {
        assert!(is_open(&parse(args).unwrap_err()));
    }
    for args in [&["--port", "x"][..], &["x"], &["--dir needs a value"]] {
        assert!(!is_open(&parse(args).unwrap_err()));
    }
    assert!(!is_open(""));
}

#[test]
fn the_directory_is_looked_up() {
    let args = ["--host", "a", "-p", "1", "-d", "x"];
    let config = serve(&args).resolve(Resolved::Directory(b"/srv/\xff".to_vec())).unwrap();
    assert_eq!(config.dir, b"/srv/\xff");
    assert_eq!(config.host, "a");
    assert_eq!(config.port, 1);
    assert_eq!(config.index, "Flashcards.html");
    let failed = Resolved::Failed { shown: "x".to_string(), reason: "no such file".to_string() };
    assert_eq!(
        serve(&args).resolve(failed).unwrap_err(),
        "cannot resolve --dir x: no such file"
    );
    let file = Resolved::NotADirectory { shown: "/srv/x".to_string() };
    assert_eq!(serve(&args).resolve(file).unwrap_err(), "--dir is not a directory: /srv/x");
}
