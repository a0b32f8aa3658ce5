use minihttp::response::{
    build_response, get_content_type, not_found_body, not_found_response, page_response,
    static_response,
};

fn emitted_content_length(response: &[u8]) -> usize {
    let text = String::from_utf8_lossy(response);
    let after = text.split("Content-Length: ").nth(1).expect("no Content-Length");
    let digits: String = after.chars().take_while(|c| c.is_ascii_digit()).collect();
    digits.parse().unwrap()
}

fn body_of(response: &[u8]) -> &[u8] {
    let marker = b"\r\n\r\n";
    let pos = response
        .windows(marker.len())
        .position(|w| w == marker)
        .expect("no blank line");
    &response[pos + marker.len()..]
}

#[test]
fn content_length_counts_bytes_not_chars() {
    let body = "h\u{e9}llo \u{4e16}\u{754c}".as_bytes();
    let response = build_response(200, "OK", "text/plain", body);
    assert_eq!(emitted_content_length(&response), body.len());
    assert_eq!(body_of(&response), body);
}

#[test]
fn response_layout_is_exact() {
    let response = build_response(200, "OK", "text/html", b"abc");
    assert_eq!(
        response,
        b"HTTP/1.1 200 OK\r\nContent-Length: 3\r\nContent-Type: text/html\r\n\r\nabc"
    );
}

#[test]
fn content_length_of_empty_body_is_zero() {
    let response = build_response(404, "NOT FOUND", "text/html", b"");
    assert_eq!(emitted_content_length(&response), 0);
}

#[test]
fn not_found_response_is_the_fixed_page() {
    let page = not_found_body();
    let expected = format!(
        "HTTP/1.1 404 NOT FOUND\r\nContent-Length: {}\r\nContent-Type: text/html\r\n\r\n{}",
        page.len(),
        page
    );
    assert_eq!(not_found_response(), expected);
}

#[test]
fn content_type_table() {
    assert_eq!(get_content_type("index.html"), "text/html");
    assert_eq!(get_content_type("static/styles.css"), "text/css");
    assert_eq!(get_content_type("app.js"), "application/javascript");
    assert_eq!(get_content_type("logo.png"), "image/png");
    assert_eq!(get_content_type("photo.jpg"), "image/jpeg");
    assert_eq!(get_content_type("photo.jpeg"), "image/jpeg");
    assert_eq!(get_content_type("notes.txt"), "text/plain");
    assert_eq!(get_content_type("archive.zip"), "application/octet-stream");
    assert_eq!(get_content_type("noextension"), "application/octet-stream");
    assert_eq!(get_content_type("archive.tar.png"), "image/png");
}

#[test]
fn existing_static_file_is_served_with_its_type() {
    let bytes = b"body { color: red; }".to_vec();
    let response = static_response("static/styles.css", Some(bytes.clone()));
    let text = String::from_utf8(response.clone()).unwrap();
    assert!(text.starts_with("HTTP/1.1 200 OK\r\n"));
    assert!(text.contains("Content-Type: text/css\r\n"));
    assert_eq!(body_of(&response), bytes.as_slice());
    assert_eq!(emitted_content_length(&response), bytes.len());
}

#[test]
fn missing_static_file_is_served_as_not_found() {
    let response = static_response("static/styles.css", None);
    let text = String::from_utf8(response).unwrap();
    assert!(text.starts_with("HTTP/1.1 404 NOT FOUND\r\n"));
    assert!(text.ends_with(not_found_body()));
}

#[test]
fn template_page_is_served_verbatim() {
    let contents = "<h1>Hello</h1>".to_string();
    let response = page_response(Some(contents.clone()));
    let text = String::from_utf8(response).unwrap();
    assert!(text.starts_with("HTTP/1.1 200 OK\r\n"));
    assert!(text.contains("Content-Type: text/html\r\n"));
    assert!(text.ends_with(&contents));
}

#[test]
fn missing_template_page_is_served_as_not_found() {
    let response = page_response(None);
    let text = String::from_utf8(response).unwrap();
    assert!(text.starts_with("HTTP/1.1 404 NOT FOUND\r\n"));
}
