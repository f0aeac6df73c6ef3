use hsmtool::envelope::{default_private, ElementaryFileEnvelope, EnvelopeError};

#[test]
fn envelope_keeps_metadata_and_contents() {
    let raw = vec![0xDE, 0xAD, 0xBE, 0xEF, 0xCA, 0xFE];
    let envelope = ElementaryFileEnvelope::new(
        "test-ef-label".to_string(),
        Some("test-application".to_string()),
        true,
        &raw,
    );

    assert_eq!(envelope.label, "test-ef-label");
    assert_eq!(envelope.application, Some("test-application".to_string()));
    assert!(envelope.private);
    assert_eq!(envelope.decode_contents().unwrap(), raw);
}

#[test]
fn envelope_contents_are_base64() {
    let envelope = ElementaryFileEnvelope::new("l".to_string(), None, false, &[0xDE, 0xAD, 0xBE, 0xEF, 0xCA, 0xFE]);
    assert_eq!(envelope.contents, "3q2+78r+");
    assert_eq!(envelope.label, "l");
    assert_eq!(envelope.application, None);
    assert!(!envelope.private);
}

#[test]
fn envelope_contents_are_padded() {
    let envelope = ElementaryFileEnvelope::new("l".to_string(), None, true, &[0x61]);
    assert_eq!(envelope.contents, "YQ==");
    assert_eq!(envelope.decode_contents().unwrap(), vec![0x61]);
}

#[test]
fn envelope_empty_contents() {
    let envelope = ElementaryFileEnvelope::new("l".to_string(), None, true, &[]);
    assert_eq!(envelope.contents, "");
    assert_eq!(envelope.decode_contents().unwrap(), Vec::<u8>::new());
}

#[test]
fn envelope_rejects_invalid_base64() {
    let envelope = ElementaryFileEnvelope {
        label: "l".to_string(),
        application: None,
        private: true,
        contents: "not base64!".to_string(),
    };
    assert!(matches!(envelope.decode_contents(), Err(EnvelopeError::InvalidBase64(_))));
}

#[test]
fn elementary_files_default_to_private() {
    assert!(default_private());
}
