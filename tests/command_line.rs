use batch_transcode::cli::{read_settings, Note};

fn args(list: &[&str]) -> Vec<String> {
    list.iter().map(|s| s.to_string()).collect()
}

#[test]
fn defaults_with_input_only() {
    let s = read_settings(&args(&["prog", "videos"]));
    assert_eq!(s.fps, 30);
    assert_eq!(s.resolution, "720p");
    assert_eq!(s.bitrate, 3000);
    assert_eq!(s.input, "videos");
    assert!(s.result_folder.is_empty());
    assert!(s.temp_folder.is_empty());
    assert!(s.extension.is_empty());
    assert!(s.transcoder.is_empty());
    assert!(s.notes.is_empty());
}

#[test]
fn every_option_is_read() {
    let s = read_settings(&args(&[
        "prog",
        "--fps",
        "60",
        "--resolution",
        "1080p",
        "--bitrate",
        "+4500",
        "--resultFolder",
        "out",
        "--tempFolder",
        "tmp",
        "--extension",
        "mkv",
        "--ffmpegPath",
        "/opt/ffmpeg",
        "in.mp4",
    ]));
    assert_eq!(s.fps, 60);
    assert_eq!(s.resolution, "1080p");
    assert_eq!(s.bitrate, 4500);
    assert_eq!(s.result_folder, "out");
    assert_eq!(s.temp_folder, "tmp");
    assert_eq!(s.extension, "mkv");
    assert_eq!(s.transcoder, "/opt/ffmpeg");
    assert_eq!(s.input, "in.mp4");
    assert!(s.notes.is_empty());
}

#[test]
fn invalid_numbers_keep_defaults() {
    let s = read_settings(&args(&["prog", "--fps", "fast", "--bitrate", "99999999999", "in"]));
    assert_eq!(s.fps, 30);
    assert_eq!(s.bitrate, 3000);
    assert_eq!(s.notes, vec![Note::InvalidFps { at: 2, kept: 30 }, Note::InvalidBitrate { at: 4, kept: 3000 }]);
    assert_eq!(s.input, "in");
}

#[test]
fn invalid_number_keeps_value_in_force() {
    let s = read_settings(&args(&["prog", "--fps", "24", "--fps", "x", "--fps", "50", "in"]));
    assert_eq!(s.fps, 50);
    assert_eq!(s.notes, vec![Note::InvalidFps { at: 4, kept: 24 }]);
}

#[test]
fn missing_input_leaves_it_empty() {
    let s = read_settings(&args(&["prog", "--fps", "24"]));
    assert_eq!(s.fps, 24);
    assert!(s.input.is_empty());
    let s = read_settings(&args(&["prog", "--verbose"]));
    assert!(s.input.is_empty());
    assert_eq!(s.notes, vec![Note::Unknown(1)]);
}

#[test]
fn unknown_options_are_noted() {
    let s = read_settings(&args(&["prog", "--quiet", "stray", "in"]));
    assert_eq!(s.notes, vec![Note::Unknown(1), Note::Unknown(2)]);
    assert_eq!(s.input, "in");
}

#[test]
fn option_without_value_is_ignored() {
    let s = read_settings(&args(&["prog", "in", "--fps"]));
    assert_eq!(s.fps, 30);
    assert!(s.input.is_empty());
    assert_eq!(s.notes, vec![Note::Unknown(1)]);
}
