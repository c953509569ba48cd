use mkv_subscale::subtitles::{process_ass_content, SubtitleOutcome};

#[test]
fn test_already_compliant_with_yes() {
    let content = "\
[Script Info]
Title: English
ScaledBorderAndShadow: yes
PlayResX: 1920
PlayResY: 1080
";
    assert_eq!(process_ass_content(content), SubtitleOutcome::Unchanged);
}

#[test]
fn test_already_compliant_with_numeric_one() {
    let content = "\
[Script Info]
ScaledBorderAndShadow: 1
PlayResX: 1920
";
    assert_eq!(process_ass_content(content), SubtitleOutcome::Unchanged);
}

#[test]
fn test_already_compliant_case_insensitive_and_whitespace() {
    let content = "[Script Info]\nScaledBorderAndShadow:  YES \n";
    assert_eq!(process_ass_content(content), SubtitleOutcome::Unchanged);
}

#[test]
fn test_modifies_no_to_yes() {
    let content = "\
[Script Info]
Title: Sample
ScaledBorderAndShadow: no
PlayResX: 1280
";
    let expected = "\
[Script Info]
Title: Sample
ScaledBorderAndShadow: yes
PlayResX: 1280
";
    let outcome = process_ass_content(content);
    assert_eq!(
        outcome,
        SubtitleOutcome::Modified {
            new_content: expected.to_string()
        }
    );
}

#[test]
fn test_modifies_zero_to_yes() {
    let content = "[Script Info]\nScaledBorderAndShadow: 0\n";
    let expected = "[Script Info]\nScaledBorderAndShadow: yes\n";

    let outcome = process_ass_content(content);
    assert_eq!(
        outcome,
        SubtitleOutcome::Modified {
            new_content: expected.to_string()
        }
    );
}

#[test]
fn test_inserts_flag_when_missing_in_script_info() {
    let content = "\
[Script Info]
Title: Anime Episode
PlayResX: 1920

[V4+ Styles]
Format: Name, Fontname
";
    let expected = "\
[Script Info]
ScaledBorderAndShadow: yes
Title: Anime Episode
PlayResX: 1920

[V4+ Styles]
Format: Name, Fontname
";
    let outcome = process_ass_content(content);
    assert_eq!(
        outcome,
        SubtitleOutcome::Modified {
            new_content: expected.to_string()
        }
    );
}

#[test]
fn test_strips_bom_and_preserves_trailing_newline() {
    let content_with_bom = "\u{feff}[Script Info]\nScaledBorderAndShadow: no\n";
    let expected = "[Script Info]\nScaledBorderAndShadow: yes\n";

    let outcome = process_ass_content(content_with_bom);
    assert_eq!(
        outcome,
        SubtitleOutcome::Modified {
            new_content: expected.to_string()
        }
    );
}

#[test]
fn test_no_script_info_section_returns_unchanged() {
    let content = "\
[V4+ Styles]
Format: Name, Fontname
Style: Default,Arial,20
";
    assert_eq!(process_ass_content(content), SubtitleOutcome::Unchanged);
}

fn fixed(content: &str) -> String {
    match process_ass_content(content) {
        SubtitleOutcome::Modified { new_content } => new_content,
        SubtitleOutcome::Unchanged => panic!("expected a modification"),
    }
}

#[test]
fn fixing_twice_changes_nothing_more() {
    let inputs = [
        "[Script Info]\r\nTitle: x\r\nScaledBorderAndShadow: no\r\n[Events]\r\n",
        "\u{feff}\u{feff}[script info]\nPlayResX: 1\n",
        "[Script Info]",
        "Header\n[SCRIPT INFO]\n[Script Info]\n  scaledborderandshadow :  false  \nX: y",
        "[Script Info]\n\n\n",
    ];
    for input in inputs {
        let once = fixed(input);
        assert_eq!(process_ass_content(&once), SubtitleOutcome::Unchanged, "{once:?}");
    }
}

#[test]
fn byte_order_mark_does_not_change_the_fix() {
    let plain = "[Script Info]\nScaledBorderAndShadow: no\nA: b";
    let with_bom = format!("\u{feff}{plain}");
    assert_eq!(process_ass_content(plain), process_ass_content(&with_bom));
    assert_eq!(process_ass_content(""), process_ass_content("\u{feff}"));
}

#[test]
fn crlf_lines_are_rejoined_with_line_feeds() {
    let content = "[Script Info]\r\nScaledBorderAndShadow: No\r\nPlayResX: 640\r\n";
    assert_eq!(
        fixed(content),
        "[Script Info]\nScaledBorderAndShadow: yes\nPlayResX: 640\n"
    );
}

#[test]
fn another_section_ends_the_search() {
    let content = "[Script Info]\nTitle: t\n[V4+ Styles]\nScaledBorderAndShadow: yes\n";
    assert_eq!(
        fixed(content),
        "[Script Info]\nScaledBorderAndShadow: yes\nTitle: t\n[V4+ Styles]\nScaledBorderAndShadow: yes\n"
    );
}

#[test]
fn missing_final_newline_is_not_added() {
    assert_eq!(
        fixed("[Script Info]\nScaledBorderAndShadow: 0"),
        "[Script Info]\nScaledBorderAndShadow: yes"
    );
    assert_eq!(
        fixed(" [script info] "),
        " [script info] \nScaledBorderAndShadow: yes"
    );
}

#[test]
fn unicode_white_space_is_trimmed_around_the_value() {
    let content = "[Script Info]\nScaledBorderAndShadow:\u{3000}yes\u{a0}\n";
    assert_eq!(process_ass_content(content), SubtitleOutcome::Unchanged);
}
