use sbfiles::archive::{SourceItem, SourceKind};
use sbfiles::errors::SbError;
use sbfiles::Sbfiles;

const START: &str = "^^^^^^^^^^-START-OF-STREAM-^^^^^^^^";
const END: &str = "@@@@@@@@@@@@@-END-OF-STREAM-@@@@@@@@@";

fn pwd() -> Vec<u8> {
    b"/home/user/work".to_vec()
}

fn file_source(path: &str, content: &[u8]) -> SourceItem {
    SourceItem {
        path: path.as_bytes().to_vec(),
        kind: SourceKind::File { content: content.to_vec() },
    }
}

#[test]
fn missing_path_fails_with_path_not_found() {
    let sources = vec![
        file_source("ok.txt", b"fine"),
        SourceItem { path: b"gone.txt".to_vec(), kind: SourceKind::Missing },
    ];
    let r = Sbfiles::encode(&sources, &pwd());
    assert!(matches!(r, Err(SbError::PathNotFound)));
}

#[test]
fn empty_path_list_fails() {
    let sources: Vec<SourceItem> = Vec::new();
    let r = Sbfiles::encode(&sources, &pwd());
    assert!(matches!(r, Err(SbError::EmptyPathList)));
}

#[test]
fn unusable_names_fail_with_path_escapes() {
    let r = Sbfiles::encode(&vec![file_source("..", b"x")], &pwd());
    assert!(matches!(r, Err(SbError::PathEscapesRelativeBase)));

    let r = Sbfiles::encode(&vec![file_source("a/../b", b"x")], &pwd());
    assert!(matches!(r, Err(SbError::PathEscapesRelativeBase)));

    let r = Sbfiles::encode(&vec![file_source("/", b"x")], &pwd());
    assert!(matches!(r, Err(SbError::PathEscapesRelativeBase)));
}

#[test]
fn non_utf8_name_cannot_be_packed() {
    // The tar header API takes string paths, so a clean name that is not
    // UTF-8 is refused by the packing step.
    let sources = vec![SourceItem {
        path: vec![b'a', 0xff, b'b'],
        kind: SourceKind::File { content: b"x".to_vec() },
    }];
    let r = Sbfiles::encode(&sources, &pwd());
    assert!(matches!(r, Err(SbError::ArchivePackFailed)));
}

#[test]
fn missing_start_marker_fails() {
    let r = Sbfiles::decode("just ordinary text, no stream anywhere");
    assert!(matches!(r, Err(SbError::StartMarkerMissing)));

    let only_end = format!("aGVsbG8=\n{}", END);
    let r = Sbfiles::decode(&only_end);
    assert!(matches!(r, Err(SbError::StartMarkerMissing)));
}

#[test]
fn missing_end_marker_fails() {
    let only_start = format!("{}\naGVsbG8=\n", START);
    let r = Sbfiles::decode(&only_start);
    assert!(matches!(r, Err(SbError::EndMarkerMissing)));
}

#[test]
fn end_marker_before_start_marker_fails() {
    let reversed = format!("{}\naGVsbG8=\n{}", END, START);
    let r = Sbfiles::decode(&reversed);
    assert!(matches!(r, Err(SbError::EndMarkerBeforeStart)));
}

#[test]
fn trailing_copy_of_a_sentinel_is_outside_the_tolerance() {
    // Appended noise is harmless only while it holds no caret or at-sign:
    // a stray copy of the opening sentinel after the block wins the
    // last-occurrence search and leaves the markers out of order.
    let sources = vec![file_source("x.txt", b"payload")];
    let text = Sbfiles::encode(&sources, &pwd()).unwrap();
    let sabotaged = format!("{}{}", text, START);
    let r = Sbfiles::decode(&sabotaged);
    assert!(matches!(r, Err(SbError::EndMarkerBeforeStart)));
}

#[test]
fn non_base64_payload_fails() {
    let text = format!("{}\n!!!!\n{}", START, END);
    let r = Sbfiles::decode(&text);
    assert!(matches!(r, Err(SbError::Base64DecodingFailed)));
}

#[test]
fn non_gzip_payload_fails() {
    let payload = base64::encode(b"these bytes are no gzip stream");
    let text = format!("{}\n{}\n{}", START, payload, END);
    let r = Sbfiles::decode(&text);
    assert!(matches!(r, Err(SbError::DecompressionFailed)));
}
