use mkv_subscale::scanner::{check_target, has_mkv_extension, is_mkv_file, TargetKind};

#[test]
fn test_is_mkv_file() {
    assert!(is_mkv_file("video.mkv"));
    assert!(is_mkv_file("video.MKV"));
    assert!(is_mkv_file("/path/to/movie.Mkv"));
    assert!(!is_mkv_file("video.mp4"));
    assert!(!is_mkv_file("video_mkv"));
    assert!(!is_mkv_file(".mkv"));
}

#[test]
fn mkv_extension_edge_cases() {
    assert!(is_mkv_file("..mkv"));
    assert!(is_mkv_file("dir/a.b.mkv"));
    assert!(is_mkv_file("dir/a.mkv/"));
    assert!(!is_mkv_file("dir/.."));
    assert!(!is_mkv_file("a.mkv.bak"));
    assert!(!is_mkv_file(""));
    assert!(!is_mkv_file("a."));
}

#[test]
fn missing_target_is_refused() {
    let err = check_target("does_not_exist_987654.mkv", false, false, false).unwrap_err();
    assert!(err.contains("Target path does not exist"));
    assert_eq!(err, "Target path does not exist: does_not_exist_987654.mkv");
}

#[test]
fn non_mkv_file_target_is_refused() {
    let err = check_target("/tmp/document.txt", true, true, false).unwrap_err();
    assert!(err.contains("not an MKV container"));
    assert_eq!(
        check_target("/tmp/episode.mkv", true, true, false),
        Ok(TargetKind::SingleFile)
    );
}

#[test]
fn directory_and_special_targets() {
    assert_eq!(check_target("/tmp", true, false, true), Ok(TargetKind::Directory));
    assert_eq!(
        check_target("/dev/null", true, false, false),
        Err("Path is neither a regular file nor a directory: /dev/null".to_string())
    );
}

#[test]
fn extension_is_taken_from_the_file_name() {
    assert!(!is_mkv_file("x.y/.mkv"));
    assert!(is_mkv_file("x.y/a.mkv"));
    assert!(has_mkv_extension("a.MkV"));
    assert!(!has_mkv_extension(".mkv"));
    assert!(!has_mkv_extension(".."));
    assert!(has_mkv_extension("..mkv"));
    assert!(!has_mkv_extension("mkv"));
    assert!(!has_mkv_extension("a.mk"));
}

#[test]
fn walk_entries_keep_mkv_files_in_order() {
    let names: Vec<String> = ["root", "root/b.mkv", "root/notes.txt", "root/dir.mkv", "root/a.MKV"]
        .iter()
        .map(|s| s.to_string())
        .collect();
    let is_file = vec![false, true, true, false, true];
    assert_eq!(mkv_subscale::scanner::mkv_entries(&names, &is_file), vec![1, 4]);
    assert_eq!(mkv_subscale::scanner::mkv_entries(&names, &vec![true, true]), vec![1]);
}
