use mkv_subscale::mkv::{
    ass_tracks, check_command_status, check_repack_status, extract_target_argument,
    repack_arguments, AssTrack, MkvError, MkvMergeOutput, ModifiedTrack, RepackArg, Track,
    TrackProperties,
};

fn track(
    id: u64,
    kind: &str,
    codec_id: Option<&str>,
    track_name: Option<&str>,
    language_ietf: Option<&str>,
    language: Option<&str>,
) -> Track {
    Track {
        id,
        kind: kind.to_string(),
        properties: TrackProperties {
            codec_id: codec_id.map(str::to_string),
            track_name: track_name.map(str::to_string),
            language: language.map(str::to_string),
            language_ietf: language_ietf.map(str::to_string),
        },
    }
}

#[test]
fn test_parse_mkvmerge_json_valid_ass_and_ssa() {
    let output = MkvMergeOutput {
        tracks: vec![
            track(0, "video", Some("V_MPEG4/ISO/AVC"), None, None, None),
            track(
                1,
                "subtitles",
                Some("S_TEXT/ASS"),
                Some("Full Subs"),
                Some("fr-FR"),
                Some("fre"),
            ),
            track(2, "subtitles", Some("S_TEXT/SSA"), None, None, Some("eng")),
            track(3, "subtitles", Some("S_TEXT/UTF8"), None, None, Some("fre")),
        ],
    };
    let tracks = ass_tracks(&output);

    assert_eq!(tracks.len(), 2);

    assert_eq!(
        tracks[0],
        AssTrack {
            id: 1,
            codec_id: "S_TEXT/ASS".to_string(),
            name: Some("Full Subs".to_string()),
            language: "fr-FR".to_string(),
        }
    );

    assert_eq!(
        tracks[1],
        AssTrack {
            id: 2,
            codec_id: "S_TEXT/SSA".to_string(),
            name: None,
            language: "eng".to_string(),
        }
    );
}

#[test]
fn test_parse_mkvmerge_json_missing_language_defaults_to_und() {
    let output = MkvMergeOutput {
        tracks: vec![track(0, "subtitles", Some("S_TEXT/ASS"), None, None, None)],
    };
    let tracks = ass_tracks(&output);

    assert_eq!(tracks.len(), 1);
    assert_eq!(tracks[0].language, "und");
}

#[test]
fn test_parse_mkvmerge_json_invalid_structure() {
    let output = MkvMergeOutput { tracks: vec![] };
    let tracks = ass_tracks(&output);
    assert!(tracks.is_empty());
}

#[test]
fn subtitle_track_without_codec_is_skipped() {
    let output = MkvMergeOutput {
        tracks: vec![
            track(4, "subtitles", None, None, None, None),
            track(5, "audio", Some("S_TEXT/ASS"), None, None, None),
            track(6, "subtitles", Some("s_text/ass"), None, None, None),
        ],
    };
    assert!(ass_tracks(&output).is_empty());
}

#[test]
fn failed_command_reports_trimmed_stderr() {
    assert!(check_command_status("mkvmerge", true, "noise").is_ok());
    match check_command_status("mkvextract", false, "  Error: no such file\n") {
        Err(MkvError::CommandFailed { command, stderr }) => {
            assert_eq!(command, "mkvextract");
            assert_eq!(stderr, "Error: no such file");
        }
        _ => panic!("expected a command failure"),
    }
}

#[test]
fn repack_exit_code_one_is_only_a_warning() {
    assert!(check_repack_status(false, Some(1), "warning").is_ok());
    assert!(check_repack_status(true, Some(0), "").is_ok());
    assert!(matches!(
        check_repack_status(false, Some(2), "boom\n"),
        Err(MkvError::CommandFailed { command: "mkvmerge", ref stderr }) if stderr == "boom"
    ));
    assert!(check_repack_status(false, None, "").is_err());
}

#[test]
fn extract_argument_names_track_and_file() {
    assert_eq!(extract_target_argument(3, "/tmp/.tmpA1"), "3:/tmp/.tmpA1");
    assert_eq!(extract_target_argument(1234567890, "x"), "1234567890:x");
    assert_eq!(extract_target_argument(0, ""), "0:");
}

fn text(a: &RepackArg) -> String {
    match a {
        RepackArg::Text(s) => s.clone(),
        RepackArg::OutputFile => "<out>".to_string(),
        RepackArg::SourceFile => "<src>".to_string(),
        RepackArg::SubtitleFile(i) => format!("<file {i}>"),
    }
}

#[test]
fn repack_command_line() {
    let tracks = vec![
        ModifiedTrack {
            id: 2,
            language: "fr-FR",
            name: Some("Full Subs"),
        },
        ModifiedTrack {
            id: 11,
            language: "und",
            name: None,
        },
    ];
    let args: Vec<String> = repack_arguments(&tracks).iter().map(text).collect();
    assert_eq!(
        args,
        vec![
            "-o",
            "<out>",
            "--subtitle-tracks",
            "!2,11",
            "<src>",
            "--language",
            "0:fr-FR",
            "--track-name",
            "0:Full Subs",
            "<file 0>",
            "--language",
            "0:und",
            "<file 1>",
        ]
    );
}
