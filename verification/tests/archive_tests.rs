use std::io::Read;
use mina_logs_service::tar::{parse_archive, tar_files, FileKind, WalkEntry};

fn file_entry(name: &str, content: &str) -> WalkEntry {
    WalkEntry {
        rel_path: Some(name.as_bytes().to_vec()),
        kind: Some(FileKind::Regular),
        content: Some(content.as_bytes().to_vec()),
    }
}

/// Extract (path, content) pairs from a tar byte stream with the real tar
/// reader, taking only regular-file members.
fn extract(bytes: &[u8]) -> Vec<(String, String)> {
    let mut archive = tar::Archive::new(bytes);
    let mut entries = Vec::new();
    for entry in archive.entries().unwrap() {
        let mut entry = entry.unwrap();
        if entry.header().entry_type().is_file() {
            let path = entry.path().unwrap().to_string_lossy().into_owned();
            let mut content = String::new();
            entry.read_to_string(&mut content).unwrap();
            entries.push((path, content));
        }
    }
    entries
}

#[test]
fn tar_test() {
    let walk = vec![file_entry("a.txt", "file a"), file_entry("b.txt", "file b")];
    let tar = tar_files(&walk, Vec::new());

    let entries = extract(&tar);
    assert_eq!(entries.len(), 2);
    assert!(entries.contains(&("a.txt".into(), "file a".into())));
    assert!(entries.contains(&("b.txt".into(), "file b".into())));
}

#[test]
fn round_trip_either_order() {
    let forward = vec![file_entry("a.txt", "file a"), file_entry("b.txt", "file b")];
    let backward = vec![file_entry("b.txt", "file b"), file_entry("a.txt", "file a")];

    let mut from_forward = extract(&tar_files(&forward, Vec::new()));
    let mut from_backward = extract(&tar_files(&backward, Vec::new()));
    from_forward.sort();
    from_backward.sort();
    assert_eq!(from_forward, from_backward);
    assert_eq!(from_forward.len(), 2);
}

#[test]
fn round_trip_arbitrary_bytes() {
    let walk = vec![
        WalkEntry {
            rel_path: Some(b"blob.bin".to_vec()),
            kind: Some(FileKind::Regular),
            content: Some((0u8..=255).collect()),
        },
        WalkEntry {
            rel_path: Some(b"empty".to_vec()),
            kind: Some(FileKind::Regular),
            content: Some(Vec::new()),
        },
    ];
    let tar = tar_files(&walk, Vec::new());

    let mut archive = tar::Archive::new(&tar[..]);
    let mut seen = Vec::new();
    for entry in archive.entries().unwrap() {
        let mut entry = entry.unwrap();
        let path = entry.path().unwrap().to_string_lossy().into_owned();
        let mut content = Vec::new();
        entry.read_to_end(&mut content).unwrap();
        seen.push((path, content));
    }
    assert_eq!(seen.len(), 2);
    assert!(seen.contains(&("blob.bin".to_string(), (0u8..=255).collect::<Vec<u8>>())));
    assert!(seen.contains(&("empty".to_string(), Vec::new())));
}

#[test]
fn skip_not_fail() {
    let walk = vec![
        file_entry("a.txt", "file a"),
        WalkEntry {
            rel_path: Some(b"subdir".to_vec()),
            kind: Some(FileKind::Directory),
            content: None,
        },
        WalkEntry {
            rel_path: Some(b"link".to_vec()),
            kind: Some(FileKind::Symlink),
            content: None,
        },
        WalkEntry { rel_path: None, kind: Some(FileKind::Regular), content: None },
        WalkEntry {
            rel_path: Some(b"unreadable.txt".to_vec()),
            kind: Some(FileKind::Regular),
            content: None,
        },
        WalkEntry { rel_path: Some(b"mystery".to_vec()), kind: None, content: None },
        file_entry("b.txt", "file b"),
    ];
    let tar = tar_files(&walk, Vec::new());

    let entries = extract(&tar);
    assert_eq!(entries.len(), 2);
    assert!(entries.contains(&("a.txt".into(), "file a".into())));
    assert!(entries.contains(&("b.txt".into(), "file b".into())));
}

#[test]
fn empty_directory_minimal_stream() {
    let tar = tar_files(&Vec::new(), Vec::new());
    assert_eq!(tar.len(), 1024);
    assert!(tar.iter().all(|b| *b == 0));
    assert_eq!(extract(&tar).len(), 0);
}

#[test]
fn member_framing_is_block_aligned() {
    let walk = vec![file_entry("a.txt", "file a")];
    let tar = tar_files(&walk, Vec::new());
    // one header block, one content block, two terminator blocks
    assert_eq!(tar.len(), 4 * 512);
    // name field
    assert_eq!(&tar[0..5], b"a.txt");
    assert_eq!(tar[5], 0);
    // size field: 6, as 11 octal digits and a NUL
    assert_eq!(&tar[124..136], b"00000000006\0");
    // type flag: regular file
    assert_eq!(tar[156], b'0');
    // magic
    assert_eq!(&tar[257..263], b"ustar\0");
    // content, then padding
    assert_eq!(&tar[512..518], b"file a");
    assert!(tar[518..1024].iter().all(|b| *b == 0));
}

#[test]
fn oversized_name_is_skipped() {
    let long_name = vec![b'x'; 101];
    let walk = vec![
        WalkEntry {
            rel_path: Some(long_name),
            kind: Some(FileKind::Regular),
            content: Some(b"c".to_vec()),
        },
        file_entry("ok.txt", "ok"),
    ];
    let tar = tar_files(&walk, Vec::new());
    let entries = extract(&tar);
    assert_eq!(entries, vec![("ok.txt".to_string(), "ok".to_string())]);
}

#[test]
fn library_round_trip() {
    let walk = vec![file_entry("a.txt", "file a"), file_entry("b.txt", "file b")];
    let tar_bytes = tar_files(&walk, Vec::new());
    let pairs = parse_archive(&tar_bytes).unwrap();
    assert_eq!(
        pairs,
        vec![
            (b"a.txt".to_vec(), b"file a".to_vec()),
            (b"b.txt".to_vec(), b"file b".to_vec()),
        ]
    );
}

#[test]
fn parse_rejects_malformed_streams() {
    let walk = vec![file_entry("a.txt", "file a")];
    let mut tar_bytes = tar_files(&walk, Vec::new());
    tar_bytes.truncate(700);
    assert!(parse_archive(&tar_bytes).is_none());
    // a lone zero block is not a complete terminator
    assert!(parse_archive(&vec![0u8; 512]).is_none());
    assert!(parse_archive(&Vec::new()).is_none());
}
