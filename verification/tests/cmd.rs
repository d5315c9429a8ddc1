use play::cmd::{
    expand_files, media_name, parse_from, usage, verbosity, version, ArgsError, Choice, PathListing,
};

fn args(s: &[&str]) -> Vec<String> {
    s.iter().map(|s| s.to_string()).collect()
}

#[test]
fn single_file() {
    let a = parse_from(&args(&["video.mp4"])).unwrap();
    assert_eq!(a.files, vec!["video.mp4".to_string()]);
    assert_eq!(a.volume, 100);
    assert_eq!(a.audio_delay_us, 0);
    assert_eq!(a.audio_track, 1);
    assert_eq!(a.verbose, 0);
    assert!(a.fullscreen);
}

#[test]
fn all_flags() {
    let a = parse_from(&args(&[
        "--volume",
        "50",
        "--audio-delay",
        "-0.5",
        "--audio-track",
        "2",
        "--sub-file",
        "subs.srt",
        "--start",
        "1:30",
        "--no-fullscreen",
        "-vv",
        "file.mp4",
    ]))
    .unwrap();
    assert_eq!(a.volume, 50);
    assert_eq!(a.audio_delay_us, -500_000);
    assert_eq!(a.audio_track, 2);
    assert_eq!(a.sub_file, Some("subs.srt".to_string()));
    assert_eq!(a.start, Some("1:30".to_string()));
    assert!(!a.fullscreen);
    assert_eq!(a.verbose, 2);
    assert_eq!(a.files, vec!["file.mp4".to_string()]);
}

#[test]
fn multiple_files() {
    let a = parse_from(&args(&["a.mp4", "b.mp4", "c.mkv"])).unwrap();
    assert_eq!(a.files.len(), 3);
}

#[test]
fn verbose_counting() {
    assert_eq!(parse_from(&args(&["f.mp4"])).unwrap().verbose, 0);
    assert_eq!(parse_from(&args(&["-v", "f.mp4"])).unwrap().verbose, 1);
    assert_eq!(parse_from(&args(&["-vv", "f.mp4"])).unwrap().verbose, 2);
    assert_eq!(parse_from(&args(&["-vvv", "f.mp4"])).unwrap().verbose, 3);
}

#[test]
fn missing_files_is_error() {
    let e = parse_from(&args(&[])).unwrap_err();
    assert!(e.message().contains("required arguments"));
}

#[test]
fn unknown_flag_is_error() {
    let e = parse_from(&args(&["--nope", "f.mp4"])).unwrap_err();
    assert!(e.message().contains("unknown option"));
}

#[test]
fn audio_delay_is_exact() {
    for (text, us) in [("1.001", 1_001_000), ("-1.005", -1_005_000), ("0.000001", 1), ("4.35", 4_350_000)] {
        let a = parse_from(&args(&["--audio-delay", text, "f.mp4"])).unwrap();
        assert_eq!(a.audio_delay_us, us, "{text}");
    }
}

#[test]
fn equals_syntax() {
    let a = parse_from(&args(&["--volume=50", "--audio-delay=-0.5", "f.mp4"])).unwrap();
    assert_eq!(a.volume, 50);
    assert_eq!(a.audio_delay_us, -500_000);
}

#[test]
fn double_dash_terminates_options() {
    let a = parse_from(&args(&["--", "--not-a-flag.mp4"])).unwrap();
    assert_eq!(a.files, vec!["--not-a-flag.mp4".to_string()]);
}

#[test]
fn volume_clamped_to_100() {
    let a = parse_from(&args(&["--volume", "200", "f.mp4"])).unwrap();
    assert_eq!(a.volume, 100);
}

#[test]
fn help_and_version_are_asked_for() {
    assert!(matches!(parse_from(&args(&["-h"])), Err(ArgsError::Help)));
    assert!(matches!(parse_from(&args(&["a.mp4", "--help"])), Err(ArgsError::Help)));
    assert!(matches!(parse_from(&args(&["-V"])), Err(ArgsError::Version)));
    assert_eq!(ArgsError::Version.message(), "play 0.1.0");
    assert_eq!(version(), "play 0.1.0");
    assert_eq!(ArgsError::Help.message(), usage());
    assert!(usage().starts_with("play 0.1.0 \u{2014} macOS media player\n\nUsage: play [OPTIONS]"));
}

#[test]
fn refusals_say_what_is_wrong() {
    let e = parse_from(&args(&["--volume"])).unwrap_err();
    assert_eq!(e.message(), "--volume requires a value");
    let e = parse_from(&args(&["--volume", "loud", "a"])).unwrap_err();
    assert_eq!(e.message(), "invalid value 'loud' for --volume: expected integer");
    let e = parse_from(&args(&["--audio-delay=x", "a"])).unwrap_err();
    assert_eq!(e.message(), "invalid value 'x' for --audio-delay: expected number");
    let e = parse_from(&args(&["--audio-track=-1", "a"])).unwrap_err();
    assert_eq!(e.message(), "invalid value '-1' for --audio-track: expected integer");
    let e = parse_from(&args(&["-x", "a"])).unwrap_err();
    assert_eq!(e.message(), format!("unknown option '-x'\n\n{}", usage()));
    let e = parse_from(&args(&["-v"])).unwrap_err();
    assert_eq!(e.message(), format!("required arguments not provided: <FILE>...\n\n{}", usage()));
}

#[test]
fn value_stands_either_way() {
    let cases = [("--volume", "7"), ("--start", "a=b"), ("--sub-file", "--x"), ("--audio-track", "+3")];
    for (flag, value) in cases {
        let apart = parse_from(&args(&["f", flag, value])).unwrap();
        let joined = parse_from(&args(&["f", &format!("{flag}={value}")])).unwrap();
        assert_eq!(apart.volume, joined.volume);
        assert_eq!(apart.start, joined.start);
        assert_eq!(apart.sub_file, joined.sub_file);
        assert_eq!(apart.audio_track, joined.audio_track);
    }
    assert_eq!(parse_from(&args(&["f", "--start=a=b"])).unwrap().start, Some("a=b".to_string()));
}

#[test]
fn files_follow_two_dashes() {
    let a = parse_from(&args(&["x", "--", "-v", "--", "y"])).unwrap();
    assert_eq!(a.files, args(&["x", "-v", "--", "y"]));
    assert_eq!(a.verbose, 0);
    assert!(matches!(parse_from(&args(&["--"])), Err(ArgsError::MissingFiles)));
    assert!(parse_from(&args(&["--no-fullscreen", "--fullscreen", "f"])).unwrap().fullscreen);
}

#[test]
fn verbosity_counts_letters() {
    let chars = |s: &str| s.chars().collect::<Vec<char>>();
    assert_eq!(verbosity(&chars("-vvv")), Some(3));
    assert_eq!(verbosity(&chars("-vx")), None);
    assert_eq!(verbosity(&chars("-")), None);
    let long = format!("-{}", "v".repeat(300));
    assert_eq!(verbosity(&chars(&long)), Some(255));
}

fn bytes(list: &[&str]) -> Vec<Vec<u8>> {
    list.iter().map(|s| s.as_bytes().to_vec()).collect()
}

#[test]
fn directories_expand_to_sorted_media() {
    let listings = vec![
        PathListing::File,
        PathListing::Directory(bytes(&["b.MP4", "notes.txt", "a.mkv", ".mp3", "B.flac", "c"])),
        PathListing::Directory(bytes(&[])),
        PathListing::File,
    ];
    let chosen: Vec<(usize, Option<usize>)> =
        expand_files(&listings).iter().map(|c: &Choice| (c.path, c.entry)).collect();
    assert_eq!(
        chosen,
        vec![(0, None), (1, Some(4)), (1, Some(2)), (1, Some(0)), (3, None)]
    );
}

#[test]
fn media_names_have_an_extension() {
    for name in ["a.mp4", "a.b.OGG", "x.Opus"] {
        assert!(media_name(&name.as_bytes().to_vec()), "{name}");
    }
    for name in ["mp4", ".mp4", "a.", "a.mp4x", ".."] {
        assert!(!media_name(&name.as_bytes().to_vec()), "{name}");
    }
}
