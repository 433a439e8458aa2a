use sbfiles::archive::{DirChild, SourceItem, SourceKind};
use sbfiles::errors::SbError;
use sbfiles::Sbfiles;

const START: &str = "^^^^^^^^^^-START-OF-STREAM-^^^^^^^^";
const END: &str = "@@@@@@@@@@@@@-END-OF-STREAM-@@@@@@@@@";

fn file_source(path: &str, content: &[u8]) -> SourceItem {
    SourceItem {
        path: path.as_bytes().to_vec(),
        kind: SourceKind::File { content: content.to_vec() },
    }
}

fn dir_source(path: &str, children: Vec<(&str, Option<&[u8]>)>) -> SourceItem {
    let children = children
        .into_iter()
        .map(|(rel, content)| DirChild {
            rel_path: rel.as_bytes().to_vec(),
            content: content.map(|c| c.to_vec()),
        })
        .collect();
    SourceItem {
        path: path.as_bytes().to_vec(),
        kind: SourceKind::Dir { children },
    }
}

fn read_entries(bytes: &[u8]) -> Vec<(String, Option<Vec<u8>>)> {
    let mut ar = tar::Archive::new(bytes);
    let mut out = Vec::new();
    for entry in ar.entries().unwrap() {
        let mut entry = entry.unwrap();
        let name = String::from_utf8(entry.path_bytes().to_vec()).unwrap();
        if entry.header().entry_type().is_dir() {
            out.push((name, None));
        } else {
            let mut content = Vec::new();
            std::io::Read::read_to_end(&mut entry, &mut content).unwrap();
            out.push((name, Some(content)));
        }
    }
    out
}

fn pwd() -> Vec<u8> {
    b"/home/user/work".to_vec()
}

#[test]
fn two_files_round_trip() {
    let sources = vec![
        file_source("a.txt", b"hello"),
        dir_source("b", vec![("c.txt", Some(b"world".as_slice()))]),
    ];
    let text = Sbfiles::encode(&sources, &pwd()).unwrap();
    let tar_bytes = Sbfiles::decode(&text).unwrap();
    let entries = read_entries(&tar_bytes);
    assert_eq!(entries.len(), 3);
    assert_eq!(entries[0], ("a.txt".to_string(), Some(b"hello".to_vec())));
    assert_eq!(entries[1], ("b".to_string(), None));
    assert_eq!(entries[2], ("b/c.txt".to_string(), Some(b"world".to_vec())));
}

#[test]
fn binary_content_round_trip() {
    let mut content = Vec::new();
    for round in 0..64 {
        for b in 0..=255u8 {
            content.push(b ^ (round as u8));
        }
    }
    let sources = vec![file_source("blob.bin", &content)];
    let text = Sbfiles::encode(&sources, &pwd()).unwrap();
    let tar_bytes = Sbfiles::decode(&text).unwrap();
    let entries = read_entries(&tar_bytes);
    assert_eq!(entries.len(), 1);
    assert_eq!(entries[0].0, "blob.bin");
    assert_eq!(entries[0].1.as_deref(), Some(content.as_slice()));
}

#[test]
fn nested_directories_round_trip() {
    let sources = vec![dir_source(
        "top",
        vec![
            ("sub", None),
            ("sub/inner.txt", Some(b"inner".as_slice())),
            ("sub/deeper", None),
            ("sub/deeper/leaf.txt", Some(b"leaf".as_slice())),
        ],
    )];
    let text = Sbfiles::encode(&sources, &pwd()).unwrap();
    let tar_bytes = Sbfiles::decode(&text).unwrap();
    let entries = read_entries(&tar_bytes);
    let expected: Vec<(String, Option<Vec<u8>>)> = vec![
        ("top".to_string(), None),
        ("top/sub".to_string(), None),
        ("top/sub/inner.txt".to_string(), Some(b"inner".to_vec())),
        ("top/sub/deeper".to_string(), None),
        ("top/sub/deeper/leaf.txt".to_string(), Some(b"leaf".to_vec())),
    ];
    assert_eq!(entries, expected);
}

#[test]
fn long_entry_names_round_trip() {
    let long_name = format!("deep/{}/{}.txt", "d".repeat(80), "f".repeat(80));
    let sources = vec![file_source(&long_name, b"long name content")];
    let text = Sbfiles::encode(&sources, &pwd()).unwrap();
    let tar_bytes = Sbfiles::decode(&text).unwrap();
    let entries = read_entries(&tar_bytes);
    assert_eq!(entries.len(), 1);
    assert_eq!(entries[0].0, long_name);
    assert_eq!(entries[0].1.as_deref(), Some(b"long name content".as_slice()));
}

#[test]
fn noise_around_block_is_ignored() {
    let sources = vec![file_source("note.txt", b"tolerates noise")];
    let text = Sbfiles::encode(&sources, &pwd()).unwrap();
    let clean = Sbfiles::decode(&text).unwrap();

    let noisy = format!("$ sbfiles encode note.txt\n{}\npasted into a terminal", text);
    assert_eq!(Sbfiles::decode(&noisy).unwrap(), clean);

    let with_stale_marker = format!("old output: {} truncated...\n{}", START, text);
    assert_eq!(Sbfiles::decode(&with_stale_marker).unwrap(), clean);

    let with_stale_block = format!("{}garbage{}\n{}", START, END, text);
    assert_eq!(Sbfiles::decode(&with_stale_block).unwrap(), clean);
}

#[test]
fn empty_file_and_empty_directory_round_trip() {
    let sources = vec![
        file_source("empty.bin", b""),
        dir_source("hollow", vec![]),
    ];
    let text = Sbfiles::encode(&sources, &pwd()).unwrap();
    let tar_bytes = Sbfiles::decode(&text).unwrap();
    let entries = read_entries(&tar_bytes);
    assert_eq!(entries.len(), 2);
    assert_eq!(entries[0], ("empty.bin".to_string(), Some(Vec::new())));
    assert_eq!(entries[1], ("hollow".to_string(), None));
}

#[test]
fn decode_reads_rewrapped_text() {
    let sources = vec![file_source("wrapped.txt", b"survives a second line wrap")];
    let text = Sbfiles::encode(&sources, &pwd()).unwrap();
    let clean = Sbfiles::decode(&text).unwrap();
    let rewrapped: String = text
        .chars()
        .filter(|c| *c != '\n')
        .collect::<Vec<char>>()
        .chunks(40)
        .map(|chunk| chunk.iter().collect::<String>() + "\n")
        .collect();
    // A reader of pasted input joins the lines before handing the text over,
    // exactly as the stream-reading front end does.
    let joined: String = rewrapped.lines().collect();
    assert_eq!(Sbfiles::decode(&joined).unwrap(), clean);
}

#[test]
fn encoding_is_deterministic() {
    let sources = vec![
        file_source("a.txt", b"same bytes"),
        dir_source("d", vec![("e.txt", Some(b"every time".as_slice()))]),
    ];
    let first = Sbfiles::encode(&sources, &pwd()).unwrap();
    let second = Sbfiles::encode(&sources, &pwd()).unwrap();
    assert_eq!(first, second);
}

#[test]
fn decode_as_tar_stores_stream() {
    let sources = vec![file_source("kept.txt", b"kept bytes")];
    let text = Sbfiles::encode(&sources, &pwd()).unwrap();
    let expected = Sbfiles::decode(&text).unwrap();
    let mut sb = Sbfiles::new();
    assert!(sb.decoded_tar.is_empty());
    sb.decode_as_tar(&text).unwrap();
    assert_eq!(sb.decoded_tar, expected);
    let bad = sb.decode_as_tar("no markers in sight");
    assert!(matches!(bad, Err(SbError::StartMarkerMissing)));
    assert_eq!(sb.decoded_tar, expected);
}

#[test]
fn outside_decoders_read_encoded_text_directly() {
    let sources = vec![file_source("cross.txt", b"checked against the outside crates")];
    let text = Sbfiles::encode(&sources, &pwd()).unwrap();
    let start = text.rfind(START).unwrap() + START.len();
    let end = text.rfind(END).unwrap();
    let payload: String = text[start..end].lines().collect();
    let blob = base64::decode(&payload).unwrap();
    let mut tar_bytes = Vec::new();
    std::io::Read::read_to_end(
        &mut flate2::read::GzDecoder::new(blob.as_slice()),
        &mut tar_bytes,
    )
    .unwrap();
    let entries = read_entries(&tar_bytes);
    assert_eq!(entries.len(), 1);
    assert_eq!(
        entries[0],
        (
            "cross.txt".to_string(),
            Some(b"checked against the outside crates".to_vec())
        )
    );
}
