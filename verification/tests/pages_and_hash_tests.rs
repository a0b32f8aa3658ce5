use minihttp::actions::{plan_credentials, plan_save};
use minihttp::clock::format_time;
use minihttp::hash::hash_password;
use minihttp::pages::{
    admin_page, file_listing_page, file_manager_page, log_line, login_outcome_page,
    register_outcome_page, upload_success_page, FileEntry,
};

#[test]
fn password_hash_is_sha256_hex() {
    assert_eq!(
        hash_password(""),
        "e3b0c44298fc1c149afbf4c8996fb92427ae41e4649b934ca495991b7852b855"
    );
    assert_eq!(
        hash_password("password"),
        "5e884898da28047151d0e56f8dc6292773603d0d6aabbdd62a11ef721d1542d8"
    );
}

#[test]
fn credentials_are_read_and_hashed() {
    let c = plan_credentials(b"username=bob&password=p%40ss");
    assert_eq!(c.username, "bob");
    assert_eq!(c.password_hash, hash_password("p@ss"));
}

#[test]
fn missing_credential_fields_degrade_to_empty() {
    let c = plan_credentials(b"other=1");
    assert_eq!(c.username, "");
    assert_eq!(c.password_hash, hash_password(""));
}

#[test]
fn save_plan_writes_the_content_field() {
    let plan = plan_save(b"content=hello%20world");
    assert_eq!(plan.file_path, "user_content.txt");
    assert_eq!(plan.content, "hello world");
    let text = String::from_utf8(plan.response).unwrap();
    assert!(text.starts_with("HTTP/1.1 200 OK\r\n"));
    assert!(text.contains("Content saved"));
}

#[test]
fn save_plan_with_no_content_field_is_empty() {
    let plan = plan_save(b"other=x");
    assert_eq!(plan.content, "");
}

#[test]
fn formatted_time_is_zero_padded() {
    assert_eq!(format_time(2024, 3, 7, 9, 5, 0), "2024-03-07 09:05:00");
    assert_eq!(format_time(999, 12, 31, 23, 59, 59), "0999-12-31 23:59:59");
    assert_eq!(format_time(12345, 1, 1, 0, 0, 1), "12345-01-01 00:00:01");
}

#[test]
fn log_lines_have_the_fixed_shape() {
    assert_eq!(
        log_line("127.0.0.1", "/about", "2024-03-07 09:05:00"),
        "[127.0.0.1] /about requested /about at 2024-03-07 09:05:00"
    );
}

#[test]
fn outcome_pages_follow_the_store_results() {
    assert_eq!(register_outcome_page(true, false), "user_exists.html");
    assert_eq!(register_outcome_page(false, true), "registered.html");
    assert_eq!(register_outcome_page(false, false), "unauthorized.html");
    assert_eq!(login_outcome_page(true), "welcome.html");
    assert_eq!(login_outcome_page(false), "unauthorized.html");
}

#[test]
fn upload_page_names_the_file() {
    let page = upload_success_page("a.txt");
    assert!(page.contains("File a.txt uploaded"));
}

#[test]
fn listing_page_shows_each_entry() {
    let entries = vec![
        FileEntry { name: "a.txt".to_string(), size: 5, modified: "t1".to_string() },
        FileEntry { name: "b.png".to_string(), size: 1024, modified: "t2".to_string() },
    ];
    let page = file_listing_page(Some(&entries));
    assert!(page.contains("<td><a href=\"/static/a.txt\">a.txt</a></td><td>5</td><td>t1</td>"));
    assert!(page.contains("<td><a href=\"/static/b.png\">b.png</a></td><td>1024</td><td>t2</td>"));
}

#[test]
fn listing_page_reports_a_missing_directory() {
    let page = file_listing_page(None);
    assert!(page.contains("The static directory is missing"));
}

#[test]
fn admin_page_lists_users() {
    let users = vec![(1i64, "alice".to_string()), (2i64, "bob".to_string())];
    let page = admin_page(&users);
    assert!(page.contains("<tr><td>1</td><td>alice</td></tr>"));
    assert!(page.contains("<tr><td>2</td><td>bob</td></tr>"));
}

#[test]
fn manager_page_replaces_the_placeholder() {
    let template = "<ul>\n{{FILES}}\n</ul>";
    let names = vec!["a.txt".to_string(), "b.txt".to_string()];
    let page = file_manager_page(template, &names);
    assert_eq!(
        page,
        "<ul>\n<li><a href=\"/files/a.txt\">a.txt</a></li>\n<li><a href=\"/files/b.txt\">b.txt</a></li>\n</ul>"
    );
}
