use ls_web::server::{
    archive_failed, decide_download, file_head, page_reply, plan_download, plan_request, reply_text,
    resolve_target, ArchiveFormat, DownloadDecision, RequestPlan, Target,
};

fn reply_of(plan: RequestPlan) -> String {
    match plan {
        RequestPlan::Respond(r) => reply_text(&r),
        _ => panic!("no reply"),
    }
}

#[test]
fn only_get_is_served() {
    assert_eq!(
        reply_of(plan_request("POST / HTTP/1.1\r\n", ".")),
        "HTTP/1.1 405 Method Not Allowed\r\nContent-Length: 18\r\nContent-Type: text/plain\r\n\r\nMethod not allowed"
    );
    assert!(matches!(plan_request("", "."), RequestPlan::Respond(_)));
    assert!(matches!(plan_request("get / HTTP/1.1", "."), RequestPlan::Respond(_)));
}

#[test]
fn lookup_joins_the_decoded_path() {
    match plan_request("GET /sub%20dir/a.txt?x=1 HTTP/1.1\r\n", "/srv") {
        RequestPlan::Lookup { candidate, url } => {
            assert_eq!(candidate, "/srv/sub dir/a.txt");
            assert_eq!(url, "/sub%20dir/a.txt?x=1");
        }
        _ => panic!(),
    }
    match plan_request("GET / HTTP/1.1", "/srv") {
        RequestPlan::Lookup { candidate, url } => {
            assert_eq!(candidate, "/srv/");
            assert_eq!(url, "/");
        }
        _ => panic!(),
    }
}

#[test]
fn lookup_of_an_absolute_path_leaves_the_base() {
    match plan_request("GET //etc/passwd HTTP/1.1", "/srv") {
        RequestPlan::Lookup { candidate, .. } => assert_eq!(candidate, "/etc/passwd"),
        _ => panic!(),
    }
}

#[test]
fn download_requests_carry_their_query() {
    match plan_request("GET /download?path=a&format=zip HTTP/1.1", ".") {
        RequestPlan::Download { query } => assert_eq!(query, Some("path=a&format=zip".to_string())),
        _ => panic!(),
    }
    match plan_request("GET /downloads HTTP/1.1", ".") {
        RequestPlan::Download { query } => assert_eq!(query, None),
        _ => panic!(),
    }
    match plan_request("GET /%64ownload?a?b HTTP/1.1", ".") {
        RequestPlan::Download { query } => assert_eq!(query, Some("a?b".to_string())),
        _ => panic!(),
    }
}

#[test]
fn targets_outside_the_base_are_forbidden() {
    match resolve_target("/srv", "/etc/passwd", false, true) {
        Target::Respond(r) => assert_eq!(
            reply_text(&r),
            "HTTP/1.1 403 Forbidden\r\nContent-Length: 9\r\nContent-Type: text/plain\r\n\r\nForbidden"
        ),
        _ => panic!(),
    }
    assert!(matches!(resolve_target("/srv", "/srvx/a", true, false), Target::Respond(_)));
}

#[test]
fn targets_inside_the_base() {
    assert!(matches!(resolve_target("/srv", "/srv", true, false), Target::Listing));
    assert!(matches!(resolve_target("/srv", "/srv/d", true, false), Target::Listing));
    match resolve_target("/srv", "/srv/d/f.txt", false, true) {
        Target::File { name } => assert_eq!(name, "f.txt"),
        _ => panic!(),
    }
    match resolve_target("/srv", "/srv/gone", false, false) {
        Target::Respond(r) => assert_eq!(
            reply_text(&r),
            "HTTP/1.1 404 Not Found\r\nContent-Length: 9\r\nContent-Type: text/plain\r\n\r\nNot found"
        ),
        _ => panic!(),
    }
    match resolve_target("/srv", "/srv/..", false, true) {
        Target::File { name } => assert_eq!(name, "file"),
        _ => panic!(),
    }
}

#[test]
fn file_and_page_heads() {
    assert_eq!(
        file_head("a.txt", 3),
        "HTTP/1.1 200 OK\r\nContent-Length: 3\r\nContent-Type: application/octet-stream\r\nContent-Disposition: attachment; filename=\"a.txt\"\r\n\r\n"
    );
    assert_eq!(
        reply_text(&page_reply("<p>".to_string())),
        "HTTP/1.1 200 OK\r\nContent-Length: 3\r\nContent-Type: text/html; charset=utf-8\r\n\r\n<p>"
    );
}

#[test]
fn download_query_defaults() {
    let d = plan_download("/srv", None);
    assert_eq!(d.format, "zip");
    assert_eq!(d.candidate, "/srv/");
    let d = plan_download("/srv", Some("path=%2F%2Fdocs%2Fa&format=7z"));
    assert_eq!(d.format, "7z");
    assert_eq!(d.candidate, "/srv/docs/a");
}

#[test]
fn download_decisions() {
    match decide_download("/srv", "/srv/docs", true, "zip") {
        DownloadDecision::Archive { format, file_name, content_type } => {
            assert!(matches!(format, ArchiveFormat::Zip));
            assert_eq!(file_name, "docs.zip");
            assert_eq!(content_type, "application/zip");
        }
        _ => panic!(),
    }
    match decide_download("/srv", "/srv/docs", true, "tgz") {
        DownloadDecision::Archive { format, file_name, content_type } => {
            assert!(matches!(format, ArchiveFormat::TarGz));
            assert_eq!(file_name, "docs.tar.gz");
            assert_eq!(content_type, "application/gzip");
        }
        _ => panic!(),
    }
    match decide_download("/srv", "/srv/docs", true, "tar.gz") {
        DownloadDecision::Archive { format, .. } => assert!(matches!(format, ArchiveFormat::TarGz)),
        _ => panic!(),
    }
    match decide_download("/", "/", true, "7z") {
        DownloadDecision::Archive { format, file_name, content_type } => {
            assert!(matches!(format, ArchiveFormat::SevenZ));
            assert_eq!(file_name, "archive.7z");
            assert_eq!(content_type, "application/x-7z-compressed");
        }
        _ => panic!(),
    }
}

#[test]
fn download_refusals() {
    let text = |d: DownloadDecision| match d {
        DownloadDecision::Respond(r) => reply_text(&r),
        _ => panic!(),
    };
    assert!(text(decide_download("/srv", "/etc", true, "zip")).starts_with("HTTP/1.1 403 Forbidden"));
    assert!(text(decide_download("/srv", "/srv/f", false, "zip")).ends_with("Path must be a directory"));
    assert!(text(decide_download("/srv", "/srv/d", true, "rar")).ends_with("Unknown archive format"));
    assert!(text(decide_download("/srv", "/srv/d", false, "rar")).ends_with("Path must be a directory"));
}

#[test]
fn archive_failures() {
    assert!(reply_text(&archive_failed(ArchiveFormat::Zip)).ends_with("\r\n\r\nFailed to create zip"));
    assert!(reply_text(&archive_failed(ArchiveFormat::TarGz)).ends_with("\r\n\r\nFailed to create tar.gz"));
    assert!(reply_text(&archive_failed(ArchiveFormat::SevenZ))
        .starts_with("HTTP/1.1 500 Internal Server Error\r\nContent-Length: 48\r\n"));
}

#[test]
fn queries_and_escapes_do_not_change_the_lookup() {
    let candidate = |line: &str| match plan_request(line, "/srv") {
        RequestPlan::Lookup { candidate, .. } => candidate,
        _ => panic!(),
    };
    let c = candidate("GET /a.txt HTTP/1.1");
    assert_eq!(c, "/srv/a.txt");
    assert_eq!(candidate("GET /%61.txt HTTP/1.1"), c);
    assert_eq!(candidate("GET /a.txt?x=1 HTTP/1.1"), c);
}

#[test]
fn paths_without_text_are_refused() {
    assert_eq!(
        reply_text(&ls_web::server::untexted_path_reply()),
        "HTTP/1.1 403 Forbidden\r\nContent-Length: 9\r\nContent-Type: text/plain\r\n\r\nForbidden"
    );
}
