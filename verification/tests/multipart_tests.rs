use minihttp::actions::plan_upload;
use minihttp::error::{DecodeError, HttpError};
use minihttp::multipart::decode_multipart;
use minihttp::request::extract_boundary;

fn one_part_body(boundary: &str, filename: &str, content: &[u8]) -> Vec<u8> {
    let mut body = Vec::new();
    body.extend_from_slice(b"--");
    body.extend_from_slice(boundary.as_bytes());
    body.extend_from_slice(b"\r\n");
    body.extend_from_slice(
        format!(
            "Content-Disposition: form-data; name=\"file\"; filename=\"{}\"\r\n\r\n",
            filename
        )
        .as_bytes(),
    );
    body.extend_from_slice(content);
    body.extend_from_slice(b"\r\n--");
    body.extend_from_slice(boundary.as_bytes());
    body.extend_from_slice(b"--\r\n");
    body
}

#[test]
fn single_part_yields_its_fields() {
    let body = one_part_body("XYZ", "a.txt", b"hello");
    let part = decode_multipart(&body, b"XYZ").unwrap();
    assert_eq!(part.filename, "a.txt");
    assert_eq!(part.content, b"hello");
}

#[test]
fn binary_content_with_inner_crlf_is_kept_whole() {
    let content = b"line one\r\nline two\r\n\x00\xff binary tail";
    let body = one_part_body("BOUND", "blob.bin", content);
    let part = decode_multipart(&body, b"BOUND").unwrap();
    assert_eq!(part.filename, "blob.bin");
    assert_eq!(part.content, content);
}

#[test]
fn last_named_part_wins() {
    let mut body = Vec::new();
    body.extend_from_slice(b"--B\r\n");
    body.extend_from_slice(
        b"Content-Disposition: form-data; name=\"file\"; filename=\"first.txt\"\r\n\r\nfirst\r\n",
    );
    body.extend_from_slice(b"--B\r\n");
    body.extend_from_slice(
        b"Content-Disposition: form-data; name=\"file\"; filename=\"second.txt\"\r\n\r\nsecond\r\n",
    );
    body.extend_from_slice(b"--B--\r\n");
    let part = decode_multipart(&body, b"B").unwrap();
    assert_eq!(part.filename, "second.txt");
    assert_eq!(part.content, b"second");
}

#[test]
fn part_without_filename_or_content_fails() {
    let mut body = Vec::new();
    body.extend_from_slice(b"--B\r\n");
    body.extend_from_slice(b"Content-Disposition: form-data; name=\"plain\"\r\n\r\nvalue\r\n");
    body.extend_from_slice(b"--B--\r\n");
    let err = decode_multipart(&body, b"B").unwrap_err();
    assert_eq!(err, DecodeError::InvalidUpload);
}

#[test]
fn empty_body_fails() {
    let err = decode_multipart(b"", b"B").unwrap_err();
    assert_eq!(err, DecodeError::InvalidUpload);
}

#[test]
fn boundary_is_read_from_content_type() {
    let request = b"POST /upload HTTP/1.1\r\nContent-Type: multipart/form-data; boundary=XYZ\r\n\r\nbody";
    assert_eq!(extract_boundary(request).unwrap(), b"XYZ");
}

#[test]
fn missing_boundary_parameter_yields_none() {
    let request = b"POST /upload HTTP/1.1\r\nContent-Type: multipart/form-data\r\n\r\nbody";
    assert!(extract_boundary(request).is_none());
}

#[test]
fn empty_boundary_token_yields_none() {
    let request = b"POST /upload HTTP/1.1\r\nContent-Type: multipart/form-data; boundary=\r\n\r\nbody";
    assert!(extract_boundary(request).is_none());
}

#[test]
fn upload_plan_carries_file_and_response() {
    let mut request = Vec::new();
    request.extend_from_slice(
        b"POST /upload HTTP/1.1\r\nContent-Type: multipart/form-data; boundary=XYZ\r\n\r\n",
    );
    request.extend_from_slice(&one_part_body("XYZ", "a.txt", b"hello"));
    let plan = plan_upload(&request).unwrap();
    assert_eq!(plan.filename, "a.txt");
    assert_eq!(plan.content, b"hello");
    assert_eq!(plan.directory, "static/uploads");
    assert_eq!(plan.file_path, "static/uploads/a.txt");
    let response = String::from_utf8(plan.response).unwrap();
    assert!(response.starts_with("HTTP/1.1 200 OK\r\n"));
    assert!(response.contains("a.txt"));
}

#[test]
fn upload_without_boundary_fails_before_any_write() {
    let request = b"POST /upload HTTP/1.1\r\nContent-Type: multipart/form-data\r\n\r\n--X\r\nstuff";
    match plan_upload(request) {
        Err(HttpError::Decode(DecodeError::MissingBoundary)) => {}
        other => panic!("expected a missing-boundary failure, got {:?}", other.map(|p| p.filename)),
    }
}

#[test]
fn upload_with_empty_fields_fails() {
    let mut request = Vec::new();
    request.extend_from_slice(
        b"POST /upload HTTP/1.1\r\nContent-Type: multipart/form-data; boundary=B\r\n\r\n",
    );
    request.extend_from_slice(b"--B\r\nContent-Disposition: form-data; name=\"x\"\r\n\r\nv\r\n--B--\r\n");
    match plan_upload(&request) {
        Err(HttpError::Decode(DecodeError::InvalidUpload)) => {}
        other => panic!("expected an invalid-upload failure, got {:?}", other.map(|p| p.filename)),
    }
}
