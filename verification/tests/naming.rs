use sbfiles::archive::{archive_name, is_clean_rel_path, offending_path, relativize,
    DirChild, SourceItem, SourceKind};
use sbfiles::errors::SbError;
use sbfiles::Sbfiles;

const START: &str = "^^^^^^^^^^-START-OF-STREAM-^^^^^^^^";
const END: &str = "@@@@@@@@@@@@@-END-OF-STREAM-@@@@@@@@@";

fn rel(path: &str, pwd: &str) -> Vec<u8> {
    relativize(&path.as_bytes().to_vec(), &pwd.as_bytes().to_vec())
}

#[test]
fn relative_paths_are_kept_as_supplied() {
    assert_eq!(rel("notes.txt", "/home/user"), b"notes.txt".to_vec());
    assert_eq!(rel("a/b/c", "/home/user"), b"a/b/c".to_vec());
    assert_eq!(rel("../up.txt", "/home/user"), b"../up.txt".to_vec());
}

#[test]
fn absolute_path_under_pwd_loses_the_prefix() {
    assert_eq!(rel("/home/user/notes.txt", "/home/user"), b"notes.txt".to_vec());
    assert_eq!(rel("/home/user/a/b", "/home/user"), b"a/b".to_vec());
}

#[test]
fn absolute_path_outside_pwd_loses_the_root() {
    assert_eq!(rel("/etc/hosts", "/home/user"), b"etc/hosts".to_vec());
    assert_eq!(rel("/home/username/x", "/home/user"), b"home/username/x".to_vec());
}

#[test]
fn archive_name_rejects_unusable_names() {
    let pwd = b"/home/user".to_vec();
    let r = archive_name(&b"/home/user".to_vec(), &pwd);
    assert!(matches!(r, Err(SbError::PathEscapesRelativeBase)));
    let r = archive_name(&b"a//b".to_vec(), &pwd);
    assert!(matches!(r, Err(SbError::PathEscapesRelativeBase)));
    let r = archive_name(&b"./a".to_vec(), &pwd);
    assert!(matches!(r, Err(SbError::PathEscapesRelativeBase)));
    let r = archive_name(&b"/etc/passwd".to_vec(), &pwd).unwrap();
    assert_eq!(r, b"etc/passwd".to_vec());
}

#[test]
fn clean_name_checker_matches_examples() {
    assert!(is_clean_rel_path(&b"a.txt".to_vec()));
    assert!(is_clean_rel_path(&b"dir/sub/file".to_vec()));
    assert!(!is_clean_rel_path(&b"".to_vec()));
    assert!(!is_clean_rel_path(&b"/abs".to_vec()));
    assert!(!is_clean_rel_path(&b"trailing/".to_vec()));
    assert!(!is_clean_rel_path(&b"a//b".to_vec()));
    assert!(!is_clean_rel_path(&b".".to_vec()));
    assert!(!is_clean_rel_path(&b"..".to_vec()));
    assert!(!is_clean_rel_path(&b"a/./b".to_vec()));
    assert!(!is_clean_rel_path(&b"a/../b".to_vec()));
    assert!(!is_clean_rel_path(&b"nul\0byte".to_vec()));
    assert!(is_clean_rel_path(&b"dots..are fine/..inside".to_vec()));
}

#[test]
fn offending_path_identifies_the_failure() {
    let pwd = b"/home/user".to_vec();
    let good = SourceItem {
        path: b"fine.txt".to_vec(),
        kind: SourceKind::File { content: b"ok".to_vec() },
    };
    let missing = SourceItem { path: b"gone.txt".to_vec(), kind: SourceKind::Missing };
    let bad_child = SourceItem {
        path: b"d".to_vec(),
        kind: SourceKind::Dir {
            children: vec![DirChild { rel_path: b"../up".to_vec(), content: None }],
        },
    };

    let all_good = vec![SourceItem {
        path: b"fine.txt".to_vec(),
        kind: SourceKind::File { content: b"ok".to_vec() },
    }];
    assert_eq!(offending_path(&all_good, &pwd), None);

    let with_missing = vec![good, missing];
    assert_eq!(offending_path(&with_missing, &pwd), Some(b"gone.txt".to_vec()));

    let with_bad_child = vec![bad_child];
    assert_eq!(offending_path(&with_bad_child, &pwd), Some(b"d/../up".to_vec()));
}

#[test]
fn encoded_text_is_framed_by_the_exact_markers() {
    let sources = vec![SourceItem {
        path: b"m.txt".to_vec(),
        kind: SourceKind::File { content: b"marker check".to_vec() },
    }];
    let text = Sbfiles::encode(&sources, &b"/home/user".to_vec()).unwrap();
    assert!(text.starts_with(START));
    assert!(text.ends_with(END));
    assert_eq!(text.matches(START).count(), 1);
    assert_eq!(text.matches(END).count(), 1);
}

#[test]
fn payload_lines_are_wrapped_at_76_columns() {
    let content: Vec<u8> = (0..2000u32).map(|i| (i % 251) as u8).collect();
    let sources = vec![SourceItem {
        path: b"wide.bin".to_vec(),
        kind: SourceKind::File { content },
    }];
    let text = Sbfiles::encode(&sources, &b"/home/user".to_vec()).unwrap();
    let start = text.rfind(START).unwrap() + START.len();
    let end = text.rfind(END).unwrap();
    let inner = &text[start..end];
    assert!(inner.ends_with('\n'));
    let lines: Vec<&str> = inner.lines().collect();
    assert!(lines.len() > 1);
    for line in &lines[..lines.len() - 1] {
        assert_eq!(line.len(), 76);
    }
    assert!(lines[lines.len() - 1].len() <= 76);
    let payload: String = lines.concat();
    assert_eq!(payload.len() % 4, 0);
    assert!(payload.bytes().all(|b| b.is_ascii_alphanumeric() || b == b'+' || b == b'/' || b == b'='));
}
