use mkv_subscale::cli::{
    log_level, thread_count, Cli, LogLevel, JOBS_HELP, MAX_HDD_THREADS, MAX_SSD_THREADS,
};

#[test]
fn constants_match_macro_expansion() {
    assert_eq!(MAX_HDD_THREADS, 1);
    assert_eq!(MAX_SSD_THREADS, 4);
    assert!(JOBS_HELP.contains("1 for HDD"));
    assert!(JOBS_HELP.contains("4 for SSD"));
}

#[test]
fn explicit_jobs_override_detection() {
    assert_eq!(thread_count(Some(8), true), 8);
    assert_eq!(thread_count(Some(2), false), 2);
    assert_eq!(thread_count(None, true), MAX_HDD_THREADS);
    assert_eq!(thread_count(None, false), MAX_SSD_THREADS);
}

#[test]
fn verbosity_sets_log_level() {
    assert_eq!(log_level(0), LogLevel::Warn);
    assert_eq!(log_level(1), LogLevel::Info);
    assert_eq!(log_level(2), LogLevel::Debug);
    assert_eq!(log_level(200), LogLevel::Debug);
}

#[test]
fn options_hold_their_values() {
    let cli = Cli {
        path: "/tmp/video.mkv".to_string(),
        recursive: false,
        verbose: 0,
        dry_run: true,
        jobs: None,
    };
    assert_eq!(cli.path, "/tmp/video.mkv");
    assert!(cli.dry_run);
    assert_eq!(thread_count(cli.jobs, false), 4);
}
