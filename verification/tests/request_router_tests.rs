use minihttp::request::parse_request;
use minihttp::router::{route, RouteDecision};

#[test]
fn parses_request_line_and_body() {
    let req = parse_request(b"GET /about HTTP/1.1\r\nHost: localhost\r\n\r\nleftover");
    assert_eq!(req.method, "GET");
    assert_eq!(req.path, "/about");
    assert_eq!(req.body, b"leftover");
    assert_eq!(req.headers.len(), 1);
    assert_eq!(req.headers[0].0, "Host");
    assert_eq!(req.headers[0].1, "localhost");
}

#[test]
fn missing_path_degrades_to_root() {
    let req = parse_request(b"GET\r\n\r\n");
    assert_eq!(req.method, "GET");
    assert_eq!(req.path, "/");
}

#[test]
fn missing_blank_line_means_empty_body() {
    let req = parse_request(b"GET / HTTP/1.1\r\nHost: x");
    assert_eq!(req.body, b"");
}

#[test]
fn header_case_is_preserved() {
    let req = parse_request(b"GET / HTTP/1.1\r\ncOntent-tYpe: text/plain\r\n\r\n");
    assert_eq!(req.headers[0].0, "cOntent-tYpe");
    assert_eq!(req.headers[0].1, "text/plain");
}

#[test]
fn root_routes_to_index_template() {
    let req = parse_request(b"GET / HTTP/1.1\r\n\r\n");
    match route(&req.method, &req.path) {
        RouteDecision::TemplatePage(p) => assert_eq!(p, "index.html"),
        _ => panic!("expected the index template page"),
    }
}

#[test]
fn unknown_path_routes_to_not_found() {
    let req = parse_request(b"GET /nope HTTP/1.1\r\n\r\n");
    assert!(matches!(route(&req.method, &req.path), RouteDecision::NotFound));
}

#[test]
fn static_prefix_strips_leading_slash() {
    match route("GET", "/static/styles.css") {
        RouteDecision::StaticFile(p) => assert_eq!(p, "static/styles.css"),
        _ => panic!("expected a static file"),
    }
}

#[test]
fn files_prefix_maps_to_uploads() {
    match route("GET", "/files/report.txt") {
        RouteDecision::StaticFile(p) => assert_eq!(p, "uploads/report.txt"),
        _ => panic!("expected an uploads file"),
    }
}

#[test]
fn post_routes_to_actions() {
    for (path, name) in [
        ("/register", "register"),
        ("/login", "login"),
        ("/upload", "upload"),
        ("/save", "save"),
    ] {
        match route("POST", path) {
            RouteDecision::Action(a) => assert_eq!(a, name),
            _ => panic!("expected an action for {}", path),
        }
    }
}

#[test]
fn get_register_is_a_page_but_post_is_an_action() {
    assert!(matches!(route("GET", "/register"), RouteDecision::TemplatePage(_)));
    assert!(matches!(route("POST", "/register"), RouteDecision::Action(_)));
}

#[test]
fn fixed_page_table_matches() {
    for (path, page) in [
        ("/", "index.html"),
        ("/about", "about.html"),
        ("/register", "register.html"),
        ("/upload", "upload.html"),
    ] {
        match route("GET", path) {
            RouteDecision::TemplatePage(p) => assert_eq!(p, page),
            _ => panic!("expected a template page for {}", path),
        }
    }
    for path in ["/files", "/admin", "/admin/files"] {
        assert!(matches!(route("GET", path), RouteDecision::Action(_)));
    }
}

#[test]
fn static_prefix_shadows_page_table() {
    assert!(matches!(route("POST", "/static/register"), RouteDecision::StaticFile(_)));
}
