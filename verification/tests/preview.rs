use filescope::preview::{is_texty, text_preview_len, TEXT_PREVIEW_LIMIT};

#[test]
fn text_types_are_previewed_as_text() {
    assert!(is_texty("text/plain"));
    assert!(is_texty("text/x-rust"));
    assert!(is_texty("application/json"));
    assert!(is_texty("application/x-desktop"));
    assert!(!is_texty("application/pdf"));
    assert!(!is_texty("text"));
    assert!(!is_texty("image/png"));
}

#[test]
fn the_text_preview_is_capped() {
    assert_eq!(text_preview_len(10), 10);
    assert_eq!(text_preview_len(10_000_000), TEXT_PREVIEW_LIMIT);
    assert_eq!(TEXT_PREVIEW_LIMIT, 256 * 1024);
}
