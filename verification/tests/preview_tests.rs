use treescout::preview::{classify, head_truncated, preview_result, preview_step, PreviewKind, PreviewResult, PreviewStep};

#[test]
fn classifies_known_extensions() {
    assert_eq!(classify("a.rs"), PreviewKind::Text);
    assert_eq!(classify("README.md"), PreviewKind::Markdown);
    assert_eq!(classify("photo.PNG"), PreviewKind::Image);
    assert_eq!(classify("archive.zip"), PreviewKind::Unsupported);
    assert_eq!(classify("noext"), PreviewKind::Unsupported);
}

#[test]
fn preview_steps_and_results() {
    assert_eq!(preview_step(false, PreviewKind::Text), PreviewStep::Missing);
    assert_eq!(preview_step(true, PreviewKind::Markdown), PreviewStep::ReadHead);
    assert_eq!(preview_step(true, PreviewKind::Image), PreviewStep::Done);
    match preview_result(PreviewKind::Text, "hi".to_string(), true) {
        PreviewResult::Text { content, truncated } => {
            assert_eq!(content, "hi");
            assert!(truncated);
        }
        other => panic!("unexpected {:?}", other),
    }
    assert!(matches!(preview_result(PreviewKind::Unsupported, String::new(), false), PreviewResult::Unsupported));
}

#[test]
fn head_is_truncated_only_when_full_and_more_remains() {
    assert!(!head_truncated(11, 1024, false));
    assert!(head_truncated(1024, 1024, true));
    assert!(!head_truncated(1024, 1024, false));
}
