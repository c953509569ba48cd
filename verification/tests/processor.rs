use mkv_subscale::mkv::AssTrack;
use mkv_subscale::processor::{
    process_file, summarize, Event, FileOutcome, FilePipeline, FileReport, Failure, SkipReason,
    Stage,
};

#[test]
fn test_skip_reason_display() {
    assert_eq!(
        SkipReason::NoAssTracks.to_string(),
        "No ASS/SSA tracks found"
    );
    assert_eq!(
        SkipReason::AlreadyCompliant.to_string(),
        "Already compliant"
    );
}

#[test]
fn test_process_non_existent_file_returns_failed_outcome() {
    let dummy_path = "non_existent_file_12345.mkv";
    let mut pipeline = process_file(dummy_path, true);
    assert!(matches!(pipeline.stage, Stage::Inspecting));
    pipeline.advance(Event::Inspected(Err(
        "Failed to execute `mkvmerge`: No such file or directory (os error 2)".to_string(),
    )));
    let report = pipeline.into_report();

    assert_eq!(report.path, dummy_path);
    match report.outcome {
        FileOutcome::Failed(err) => {
            let err_msg = err.to_string();
            assert!(
                err_msg.contains("Failed to inspect subtitles"),
                "Unexpected error message: {err_msg}"
            );
        }
        _ => panic!("Expected FileOutcome::Failed for non-existent file"),
    }
}

fn ass(id: u64) -> AssTrack {
    AssTrack {
        id,
        codec_id: "S_TEXT/ASS".to_string(),
        name: None,
        language: "eng".to_string(),
    }
}

const BROKEN: &str = "[Script Info]\nScaledBorderAndShadow: no\n";
const GOOD: &str = "[Script Info]\nScaledBorderAndShadow: yes\n";

fn read_step(p: &mut FilePipeline, expected_track: usize, content: &str) {
    assert!(matches!(p.stage, Stage::Extracting(i) if i == expected_track));
    p.advance(Event::Extracted(Ok(())));
    assert!(matches!(p.stage, Stage::Reading(i) if i == expected_track));
    p.advance(Event::ContentRead(Ok(content.to_string())));
}

#[test]
fn full_run_fixes_and_repacks() {
    let mut p = process_file("show.mkv", false);
    p.advance(Event::Inspected(Ok(vec![ass(3), ass(5), ass(8)])));
    read_step(&mut p, 0, BROKEN);
    match &p.stage {
        Stage::Writing(0, content) => assert_eq!(content, GOOD),
        _ => panic!("expected a write of track 0"),
    }
    p.advance(Event::Written(Ok(())));
    read_step(&mut p, 1, GOOD);
    read_step(&mut p, 2, "[Script Info]\n");
    assert!(matches!(p.stage, Stage::Writing(2, _)));
    p.advance(Event::Written(Ok(())));
    assert!(matches!(p.stage, Stage::Repacking));
    let mods = p.modified_tracks();
    assert_eq!(mods.iter().map(|m| m.id).collect::<Vec<_>>(), vec![3, 8]);
    p.advance(Event::Repacked(Ok(())));
    let report = p.into_report();
    assert!(matches!(report.outcome, FileOutcome::Modified { tracks_fixed: 2 }));
}

#[test]
fn dry_run_counts_without_repacking() {
    let mut p = process_file("show.mkv", true);
    p.advance(Event::Inspected(Ok(vec![ass(1)])));
    read_step(&mut p, 0, BROKEN);
    p.advance(Event::Written(Ok(())));
    let report = p.into_report();
    assert!(matches!(report.outcome, FileOutcome::Modified { tracks_fixed: 1 }));
}

#[test]
fn compliant_and_empty_files_are_skipped() {
    let mut p = process_file("a.mkv", false);
    p.advance(Event::Inspected(Ok(vec![])));
    assert!(matches!(
        p.into_report().outcome,
        FileOutcome::Skipped(SkipReason::NoAssTracks)
    ));

    let mut p = process_file("b.mkv", false);
    p.advance(Event::Inspected(Ok(vec![ass(1)])));
    read_step(&mut p, 0, GOOD);
    assert!(matches!(
        p.into_report().outcome,
        FileOutcome::Skipped(SkipReason::AlreadyCompliant)
    ));
}

#[test]
fn failures_name_the_step() {
    let mut p = process_file("c.mkv", false);
    p.advance(Event::Inspected(Ok(vec![ass(42)])));
    p.advance(Event::Extracted(Err("disk full".to_string())));
    match p.into_report().outcome {
        FileOutcome::Failed(f) => {
            assert_eq!(f.context, "Failed to extract track 42 from c.mkv");
            assert_eq!(f.full_message(), "Failed to extract track 42 from c.mkv: disk full");
        }
        _ => panic!("expected a failure"),
    }

    let mut p = process_file("d.mkv", false);
    p.advance(Event::Inspected(Ok(vec![ass(7)])));
    p.advance(Event::Extracted(Ok(())));
    p.advance(Event::ContentRead(Err("bad utf-8".to_string())));
    match p.into_report().outcome {
        FileOutcome::Failed(f) => {
            assert_eq!(f.context, "Failed to read extracted ASS content for track 7")
        }
        _ => panic!("expected a failure"),
    }

    let mut p = process_file("e.mkv", false);
    p.advance(Event::Inspected(Ok(vec![ass(7)])));
    read_step(&mut p, 0, BROKEN);
    p.advance(Event::Written(Err("read-only".to_string())));
    match p.into_report().outcome {
        FileOutcome::Failed(f) => {
            assert_eq!(f.context, "Failed to write updated ASS content for track 7")
        }
        _ => panic!("expected a failure"),
    }

    let mut p = process_file("f.mkv", false);
    p.advance(Event::Inspected(Ok(vec![ass(7)])));
    read_step(&mut p, 0, BROKEN);
    p.advance(Event::Written(Ok(())));
    p.advance(Event::Repacked(Err("no space".to_string())));
    match p.into_report().outcome {
        FileOutcome::Failed(f) => assert_eq!(f.to_string(), "Failed to repack MKV file f.mkv"),
        _ => panic!("expected a failure"),
    }
}

#[test]
fn unexpected_events_are_ignored() {
    let mut p = process_file("g.mkv", false);
    p.advance(Event::Repacked(Ok(())));
    assert!(matches!(p.stage, Stage::Inspecting));
    p.advance(Event::Inspected(Ok(vec![])));
    p.advance(Event::Inspected(Ok(vec![ass(1)])));
    assert!(matches!(
        p.into_report().outcome,
        FileOutcome::Skipped(SkipReason::NoAssTracks)
    ));
}

#[test]
fn summary_counts_each_outcome() {
    let report = |outcome| FileReport {
        path: "x.mkv".to_string(),
        outcome,
    };
    let reports = vec![
        report(FileOutcome::Modified { tracks_fixed: 2 }),
        report(FileOutcome::Skipped(SkipReason::AlreadyCompliant)),
        report(FileOutcome::Skipped(SkipReason::NoAssTracks)),
        report(FileOutcome::Skipped(SkipReason::NoAssTracks)),
        report(FileOutcome::Failed(Failure {
            context: "c".to_string(),
            cause: "e".to_string(),
        })),
    ];
    let s = summarize(&reports);
    assert_eq!(s.total_scanned, 5);
    assert_eq!(s.modified, 1);
    assert_eq!(s.already_compliant, 1);
    assert_eq!(s.no_ass_tracks, 2);
    assert_eq!(s.failed, 1);
}

fn outcome_text(o: &FileOutcome) -> String {
    match o {
        FileOutcome::Skipped(r) => format!("skipped {}", r.to_string()),
        FileOutcome::Modified { tracks_fixed } => format!("modified {tracks_fixed}"),
        FileOutcome::Failed(f) => format!("failed {}", f.full_message()),
    }
}

fn feed(p: &mut FilePipeline, contents: &[&str]) {
    p.advance(Event::Inspected(Ok((0..contents.len() as u64).map(ass).collect())));
    for c in contents {
        p.advance(Event::Extracted(Ok(())));
        p.advance(Event::ContentRead(Ok(c.to_string())));
        if matches!(p.stage, Stage::Writing(..)) {
            p.advance(Event::Written(Ok(())));
        }
    }
}

#[test]
fn dry_run_previews_the_real_outcome() {
    for contents in [&[BROKEN, GOOD, BROKEN][..], &[GOOD][..], &[][..], &[BROKEN][..]] {
        let mut dry = process_file("p.mkv", true);
        let mut real = process_file("p.mkv", false);
        feed(&mut dry, contents);
        feed(&mut real, contents);
        assert_eq!(dry.fixed, real.fixed);
        if matches!(real.stage, Stage::Repacking) {
            real.advance(Event::Repacked(Ok(())));
        }
        assert_eq!(
            outcome_text(&dry.into_report().outcome),
            outcome_text(&real.into_report().outcome)
        );
    }
}

#[test]
fn errors_end_the_run_and_keep_the_path() {
    let mut p = process_file("h.mkv", false);
    p.advance(Event::Inspected(Ok(vec![ass(1), ass(2)])));
    p.advance(Event::Extracted(Err("gone".to_string())));
    p.advance(Event::ContentRead(Ok(BROKEN.to_string())));
    p.advance(Event::Repacked(Ok(())));
    assert_eq!(p.path, "h.mkv");
    assert!(matches!(p.into_report().outcome, FileOutcome::Failed(_)));
}

#[test]
fn report_names_the_started_file() {
    let mut p = process_file("dir/ep1.mkv", true);
    p.advance(Event::Inspected(Ok(vec![ass(9)])));
    p.advance(Event::Extracted(Ok(())));
    p.advance(Event::ContentRead(Err("io".to_string())));
    let report = p.into_report();
    assert_eq!(report.path, "dir/ep1.mkv");
    assert!(matches!(report.outcome, FileOutcome::Failed(_)));
}
