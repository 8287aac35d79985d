use sled_exec::{decode_key, encode_key, parse_args, ArgError, Stream};

fn strings(v: &[&str]) -> Vec<String> {
    v.iter().map(|s| s.to_string()).collect()
}

#[test]
fn options_then_command() {
    let o = parse_args(&strings(&["--db", "x.db", "--compress", "--", "ls", "-l"])).unwrap();
    assert_eq!(o.db_path, "x.db");
    assert!(o.compress);
    assert_eq!(o.command, strings(&["ls", "-l"]));
}

#[test]
fn first_plain_argument_starts_the_command() {
    let o = parse_args(&strings(&["echo", "hi", "--db"])).unwrap();
    assert_eq!(o.db_path, "sled-exec.db");
    assert!(!o.compress);
    assert_eq!(o.command, strings(&["echo", "hi", "--db"]));
}

#[test]
fn later_db_path_wins() {
    let o = parse_args(&strings(&["--db", "a", "--db", "b", "ls"])).unwrap();
    assert_eq!(o.db_path, "b");
    assert_eq!(o.command, strings(&["ls"]));
}

#[test]
fn double_dash_passes_flags_through() {
    let o = parse_args(&strings(&["--", "--db", "-h"])).unwrap();
    assert_eq!(o.command, strings(&["--db", "-h"]));
}

#[test]
fn help_is_refused_with_usage() {
    assert!(matches!(parse_args(&strings(&["-h"])), Err(ArgError::Help)));
    assert!(matches!(parse_args(&strings(&["--compress", "--help", "ls"])), Err(ArgError::Help)));
}

#[test]
fn db_without_path_is_refused() {
    assert!(matches!(parse_args(&strings(&["--db"])), Err(ArgError::MissingDbPath)));
}

#[test]
fn unknown_flag_is_refused() {
    match parse_args(&strings(&["--bogus", "ls"])) {
        Err(ArgError::InvalidArgument(a)) => assert_eq!(a, "--bogus"),
        other => panic!("unexpected {:?}", other),
    }
    assert!(matches!(parse_args(&strings(&["-"])), Err(ArgError::InvalidArgument(_))));
}

#[test]
fn missing_command_is_refused() {
    assert!(matches!(parse_args(&strings(&[])), Err(ArgError::MissingCommand)));
    assert!(matches!(parse_args(&strings(&["--"])), Err(ArgError::MissingCommand)));
    assert!(matches!(parse_args(&strings(&["--compress", "--db", "p"])), Err(ArgError::MissingCommand)));
}

#[test]
fn keys_decode_to_stream_and_id() {
    assert_eq!(decode_key(b"stdout:00000042"), Some((Stream::Stdout, 42)));
    assert_eq!(decode_key(b"stderr:123456789012"), Some((Stream::Stderr, 123456789012)));
    assert_eq!(decode_key(b"stdout:18446744073709551615"), Some((Stream::Stdout, u64::MAX)));
    for id in [0u64, 7, 99999999, 100000000, 5555555555] {
        assert_eq!(decode_key(&encode_key(Stream::Stderr, id)), Some((Stream::Stderr, id)));
    }
}

#[test]
fn non_keys_do_not_decode() {
    assert_eq!(decode_key(b"stdout:42"), None);
    assert_eq!(decode_key(b"stdout:000000042"), None);
    assert_eq!(decode_key(b"stdin:00000001"), None);
    assert_eq!(decode_key(b"stdxxx:00000001"), None);
    assert_eq!(decode_key(b"stdout:18446744073709551616"), None);
    assert_eq!(decode_key(b"stdout:0000004a"), None);
    assert_eq!(decode_key(b"stdout-00000042"), None);
    assert_eq!(decode_key(b"note"), None);
    assert_eq!(decode_key(b""), None);
}

#[test]
fn sorting_keys_by_decoded_id_restores_interleaving() {
    let keys = vec![
        encode_key(Stream::Stderr, 11),
        encode_key(Stream::Stdout, 12),
        encode_key(Stream::Stdout, 9),
        encode_key(Stream::Stderr, 10),
    ];
    let mut decoded: Vec<(Stream, u64)> = keys.iter().map(|k| decode_key(k).unwrap()).collect();
    decoded.sort_by_key(|d| d.1);
    assert_eq!(
        decoded,
        vec![(Stream::Stdout, 9), (Stream::Stderr, 10), (Stream::Stderr, 11), (Stream::Stdout, 12)]
    );
}
