use macro_railroad_annotation::encode::{decode_payload, encode_payload, payload_round_trip};
use macro_railroad_annotation::label::resolve_label;
use macro_railroad_annotation::splice::{image_pos, label_pos, AttrInfo};

#[test]
fn base64_exact_value() {
    assert_eq!(encode_payload("abc"), "YWJj");
    assert_eq!(encode_payload(""), "");
    // padding with the standard alphabet
    assert_eq!(encode_payload("a"), "YQ==");
}

#[test]
fn round_trip_restores_document_bytes() {
    let doc = "<svg viewBox=\"0 0 1 1\"></svg>";
    let bytes = payload_round_trip(doc).expect("round trip");
    assert_eq!(bytes, doc.as_bytes().to_vec());
}

#[test]
fn decode_rejects_garbage() {
    assert!(decode_payload("!!!not base64!!!").is_none());
}

#[test]
fn fallback_label_is_sixteen_alphanumerics() {
    let (label, given) = resolve_label(None);
    assert!(!given);
    assert_eq!(label.len(), 16);
    assert!(label.chars().all(|c| c.is_ascii_alphanumeric()));
}

#[test]
fn explicit_label_is_kept() {
    let (label, given) = resolve_label(Some("foo".to_string()));
    assert!(given);
    assert_eq!(label, "foo");
}

#[test]
fn insertion_positions_follow_the_annotations() {
    let attrs = vec![
        AttrInfo { span_start: 0, outer_doc: true },
        AttrInfo { span_start: 30, outer_doc: true },
        AttrInfo { span_start: 60, outer_doc: false },
    ];
    // first annotation at or after the invocation point
    assert_eq!(image_pos(&attrs, 25), 1);
    assert_eq!(image_pos(&attrs, 0), 0);
    // nothing starts after the invocation: front by default
    assert_eq!(image_pos(&attrs, 100), 0);
    // one past the last outer doc annotation
    assert_eq!(label_pos(&attrs), 2);
    let none_doc = vec![AttrInfo { span_start: 0, outer_doc: false }];
    assert_eq!(label_pos(&none_doc), 1);
    let empty: Vec<AttrInfo> = Vec::new();
    assert_eq!(label_pos(&empty), 0);
}

#[test]
fn label_line_exact_text() {
    let line = macro_railroad_annotation::splice::label_line("foo", "QUJD");
    assert_eq!(line, "\n \n  [foo]: data:image/svg+xml;base64,QUJD");
}

#[test]
fn image_line_exact_text() {
    let line = macro_railroad_annotation::splice::image_line(&Some("ab".to_string()), "L");
    let bar = format!("{}{}", "=".repeat(46), "=".repeat(2));
    let expected = format!(
        " ![{bar}\n_Here would be a railroad diagram of the macro [`ab`]_\n{bar}][L]\n\n"
    );
    assert_eq!(line, expected);
    let anon = macro_railroad_annotation::splice::image_line(&None, "L");
    assert!(anon.contains("the macro below_"));
}
