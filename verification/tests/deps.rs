use mkv_subscale::deps::{ensure_dependencies, REQUIRED_TOOLS};

#[test]
fn all_tools_present_is_ok() {
    assert_eq!(REQUIRED_TOOLS, ["mkvmerge", "mkvextract"]);
    assert_eq!(ensure_dependencies(&vec![true, true]), Ok(()));
}

#[test]
fn missing_tools_are_named_in_order() {
    let err = ensure_dependencies(&vec![false, false]).unwrap_err();
    assert!(err.starts_with("Missing required system tool(s): mkvmerge, mkvextract\n\n"));
    assert!(err.contains("Please install MKVToolNix to use this CLI:\n  - Ubuntu/Debian: sudo apt install mkvtoolnix\n"));
    assert!(err.ends_with("  - Official site: https://mkvtoolnix.download/"));

    let err = ensure_dependencies(&vec![true, false]).unwrap_err();
    assert!(err.starts_with("Missing required system tool(s): mkvextract\n\n"));

    let err = ensure_dependencies(&vec![]).unwrap_err();
    assert!(err.starts_with("Missing required system tool(s): mkvmerge, mkvextract\n"));
}
