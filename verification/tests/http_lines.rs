use ls_web::http::{attachment_head, is_whitespace, parse_request_line, status_response};

#[test]
fn request_line_gives_method_and_target() {
    let r = parse_request_line("GET /docs/a.txt HTTP/1.1\r\n");
    assert_eq!(r.method, "GET");
    assert_eq!(r.target, "/docs/a.txt");
}

#[test]
fn request_line_defaults() {
    let r = parse_request_line("");
    assert_eq!(r.method, "");
    assert_eq!(r.target, "/");
    let r = parse_request_line("  POST   \r\n");
    assert_eq!(r.method, "POST");
    assert_eq!(r.target, "/");
}

#[test]
fn request_line_splits_on_unicode_white_space() {
    let r = parse_request_line("\u{3000}GET\u{a0}/x\u{2003}HTTP/1.1");
    assert_eq!(r.method, "GET");
    assert_eq!(r.target, "/x");
}

#[test]
fn white_space_agrees_with_std() {
    for u in 0u32..0x11_0000 {
        if let Some(c) = char::from_u32(u) {
            assert_eq!(is_whitespace(c), c.is_whitespace(), "{u:#x}");
        }
    }
}

#[test]
fn status_response_declares_body_bytes() {
    let r = status_response("404 Not Found", "Not found", "text/plain");
    assert_eq!(r, "HTTP/1.1 404 Not Found\r\nContent-Length: 9\r\nContent-Type: text/plain\r\n\r\nNot found");
    let r = status_response("200 OK", "ü", "text/plain");
    assert_eq!(r, "HTTP/1.1 200 OK\r\nContent-Length: 2\r\nContent-Type: text/plain\r\n\r\nü");
    let r = status_response("200 OK", "", "text/html");
    assert_eq!(r, "HTTP/1.1 200 OK\r\nContent-Length: 0\r\nContent-Type: text/html\r\n\r\n");
}

#[test]
fn attachment_head_names_the_file() {
    let r = attachment_head("docs.zip", 1234, "application/zip");
    assert_eq!(
        r,
        "HTTP/1.1 200 OK\r\nContent-Length: 1234\r\nContent-Type: application/zip\r\nContent-Disposition: attachment; filename=\"docs.zip\"\r\n\r\n"
    );
}
