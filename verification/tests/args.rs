use raop_send::args::{parse_args, rtsp_port, Args, ArgsError};
use raop_send::codec::Codec;

fn parse(line: &[&str]) -> Result<Args, ArgsError> {
    let args: Vec<String> = line.iter().map(|a| a.to_string()).collect();
    parse_args(&args)
}

fn accepted(line: &[&str]) -> Args {
    match parse(line) {
        Ok(a) => a,
        Err(e) => panic!("{}", e.message()),
    }
}

fn refused(line: &[&str]) -> String {
    match parse(line) {
        Ok(_) => panic!("accepted"),
        Err(e) => e.message(),
    }
}

#[test]
fn a_host_is_enough() {
    let a = accepted(&["--host", "Office"]);
    assert_eq!(a.host, "Office");
    assert_eq!(a.port, None);
    assert_eq!(a.volume, 50);
    assert!(a.codec == Codec::Alac);
    assert_eq!(a.latency, 88_200);
    assert_eq!(a.verbosity, 1);
}

#[test]
fn all_options() {
    let a = accepted(&[
        "-v", "--codec", "pcm", "--latency", "4294967295", "--volume", "0", "--port", "65535", "--host", "10.0.0.2",
    ]);
    assert_eq!(a.host, "10.0.0.2");
    assert_eq!(a.port, Some(65_535));
    assert_eq!(a.volume, 0);
    assert!(a.codec == Codec::Pcm);
    assert_eq!(a.latency, 4_294_967_295);
    assert_eq!(a.verbosity, 2);
}

#[test]
fn the_last_option_counts() {
    let a = accepted(&["--host", "a", "--codec", "pcm", "-q", "--host", "b", "--codec", "alac", "--verbose", "--quiet"]);
    assert_eq!(a.host, "b");
    assert!(a.codec == Codec::Alac);
    assert_eq!(a.verbosity, 0);
}

#[test]
fn the_volume_is_capped() {
    assert_eq!(accepted(&["--host", "a", "--volume", "100"]).volume, 100);
    assert_eq!(accepted(&["--host", "a", "--volume", "101"]).volume, 100);
    assert_eq!(accepted(&["--host", "a", "--volume", "255"]).volume, 100);
    assert_eq!(accepted(&["--host", "a", "--volume", "+7"]).volume, 7);
}

#[test]
fn options_can_be_values() {
    assert_eq!(accepted(&["--host", "--port"]).host, "--port");
    assert_eq!(accepted(&["--host", "-h"]).host, "-h");
}

#[test]
fn mistakes() {
    assert_eq!(refused(&[]), "--host is required\n");
    assert_eq!(refused(&["-q"]), "--host is required\n");
    assert_eq!(refused(&["--host"]), "--host needs a value");
    assert_eq!(refused(&["--port"]), "--port needs a value");
    assert_eq!(refused(&["--volume"]), "--volume needs a value");
    assert_eq!(refused(&["--latency"]), "--latency needs a value");
    assert_eq!(refused(&["--codec"]), "--codec needs a value");
    assert_eq!(refused(&["--port", "65536"]), "bad --port");
    assert_eq!(refused(&["--port", "x"]), "bad --port");
    assert_eq!(refused(&["--volume", "256"]), "bad --volume");
    assert_eq!(refused(&["--volume", "-1"]), "bad --volume");
    assert_eq!(refused(&["--latency", "4294967296"]), "bad --latency");
    assert_eq!(refused(&["--latency", ""]), "bad --latency");
    assert_eq!(refused(&["--codec", "ALAC"]), "--codec must be alac or pcm");
    assert_eq!(refused(&["--host", "a", "song.flac"]), "unknown argument: song.flac");
    assert_eq!(refused(&["--host=a"]), "unknown argument: --host=a");
}

#[test]
fn help_is_asked_for() {
    assert!(matches!(parse(&["-h"]), Err(ArgsError::Help)));
    assert!(matches!(parse(&["--host", "a", "--help", "--nonsense"]), Err(ArgsError::Help)));
    assert_eq!(refused(&["--help"]), "");
}

#[test]
fn the_first_mistake_decides() {
    assert_eq!(refused(&["--port", "x", "-h"]), "bad --port");
    assert_eq!(refused(&["--nonsense", "--port", "x"]), "unknown argument: --nonsense");
}

#[test]
fn ports() {
    assert_eq!(rtsp_port(Some(1), Some(2)), 1);
    assert_eq!(rtsp_port(Some(1), None), 1);
    assert_eq!(rtsp_port(None, Some(2)), 2);
    assert_eq!(rtsp_port(None, None), 5000);
}
