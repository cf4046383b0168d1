use std::io::Read;
use mina_logs_service::json::error_body;
use mina_logs_service::server::{handle_rejection, tar, ServiceError};
use mina_logs_service::tar::{FileKind, WalkEntry};

fn file_entry(name: &str, content: &str) -> WalkEntry {
    WalkEntry {
        rel_path: Some(name.as_bytes().to_vec()),
        kind: Some(FileKind::Regular),
        content: Some(content.as_bytes().to_vec()),
    }
}

fn extract(bytes: &[u8]) -> Vec<(String, String)> {
    let mut archive = tar::Archive::new(bytes);
    let mut entries = Vec::new();
    for entry in archive.entries().unwrap() {
        let mut entry = entry.unwrap();
        if entry.header().entry_type().is_file() {
            let path = entry.path().unwrap().to_string_lossy().into_owned();
            let mut content = String::new();
            entry.read_to_string(&mut content).unwrap();
            entries.push((path, content));
        }
    }
    entries
}

fn header_value<'a>(
    headers: &'a [(String, String)],
    name: &str,
) -> Option<&'a str> {
    headers
        .iter()
        .find(|(k, _)| k == name)
        .map(|(_, v)| v.as_str())
}

#[test]
fn test_server() {
    let walk = vec![file_entry("a.txt", "file a"), file_entry("b.txt", "file b")];
    let response = tar(Ok(walk), Some("file".to_string())).unwrap();

    assert_eq!(response.status, 200);
    assert_eq!(
        header_value(&response.headers, "content-type"),
        Some("application/x-tar")
    );
    assert_eq!(
        header_value(&response.headers, "content-disposition"),
        Some("attachment; filename=file.tar")
    );

    let entries = extract(&response.body);
    assert_eq!(entries.len(), 2);
    assert!(entries.contains(&("a.txt".into(), "file a".into())));
    assert!(entries.contains(&("b.txt".into(), "file b".into())));
}

#[test]
fn incorrect_dir() {
    let listing = Err("No such file or directory (os error 2)".to_string());
    let response = tar(listing, Some("file".to_string()));

    let err = match response {
        Err(e) => e,
        Ok(_) => panic!("a failed listing must not produce a response"),
    };
    let (code, message) = handle_rejection(Some(&err));
    assert_eq!(code, 500);
    assert!(message.contains("tar error"));
    assert_eq!(message, "tar error: No such file or directory (os error 2)");

    let body = error_body(code, &message);
    let body = String::from_utf8(body).unwrap();
    assert!(body.contains("tar error"));
    assert_eq!(
        body,
        "{\"code\":500,\"message\":\"tar error: No such file or directory (os error 2)\"}"
    );
}

#[test]
fn empty_directory_response() {
    let response = tar(Ok(Vec::new()), None).unwrap();
    assert_eq!(response.status, 200);
    assert_eq!(response.headers.len(), 1);
    assert_eq!(
        header_value(&response.headers, "content-type"),
        Some("application/x-tar")
    );
    assert_eq!(response.body.len(), 1024);
    assert!(response.body.iter().all(|b| *b == 0));
    assert_eq!(extract(&response.body).len(), 0);
}

#[test]
fn invalid_prefix_is_response_construction() {
    let response = tar(Ok(Vec::new()), Some("bad\nprefix".to_string()));
    let err = match response {
        Err(e) => e,
        Ok(_) => panic!("an invalid header value must not produce a response"),
    };
    let (code, message) = handle_rejection(Some(&err));
    assert_eq!(code, 500);
    assert_eq!(message, "response error: invalid header value");
}

#[test]
fn unhandled_rejection_message() {
    let (code, message) = handle_rejection(None);
    assert_eq!(code, 500);
    assert_eq!(message, "UNHANDLED_REJECTION");
}

#[test]
fn response_construction_mapping() {
    let err = ServiceError::ResponseConstruction("bad header".to_string());
    let (code, message) = handle_rejection(Some(&err));
    assert_eq!(code, 500);
    assert_eq!(message, "response error: bad header");
}

#[test]
fn json_envelope_escaping() {
    let body = error_body(500, "a \"quoted\" \\ back\nslash\ttab");
    let body = String::from_utf8(body).unwrap();
    assert_eq!(
        body,
        "{\"code\":500,\"message\":\"a \\\"quoted\\\" \\\\ back\\nslash\\ttab\"}"
    );
}

#[test]
fn json_envelope_control_bytes() {
    let body = error_body(500, "a\u{1}b");
    let body = String::from_utf8(body).unwrap();
    assert_eq!(body, "{\"code\":500,\"message\":\"a\\u0001b\"}");
}
