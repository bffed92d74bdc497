//! What the server answers: the decisions between the reads of the request,
//! of the file system and of the archivers, which the program performs.

use vstd::prelude::*;
use crate::http::{request_method, request_target, parse_request_line, status_response_text,
    attachment_head_text, status_response, attachment_head, is_space, lemma_request_words};
use crate::text::{find_char, chars_of, find_from, slice_of, string_from, same_text, text_starts_with,
    lemma_find_char_at};
use crate::urlcodec::{decoded_or_same, decode_or_keep, url_encoded, lemma_decode_encoded,
    lemma_encoded_has_no_separators, lemma_encoded_chars};
use crate::paths::{std_path_join, std_path_starts_with, std_path_file_name, path_join,
    path_starts_with, path_file_name};
use crate::query::{query_pairs, lookup_last, parse_query, query_value, split_on, piece_key, piece_value};

verus! {

/// A response with a status line, a body and the body's content type.
pub struct Reply {
    pub status: String,
    pub body: String,
    pub content_type: String,
}

/// The texts of a `Reply`.
pub struct ReplyView {
    pub status: Seq<char>,
    pub body: Seq<char>,
    pub content_type: Seq<char>,
}

impl View for Reply {
    type V = ReplyView;

    open spec fn view(&self) -> ReplyView {
        ReplyView { status: self.status@, body: self.body@, content_type: self.content_type@ }
    }
}

/// A reply from three texts.
pub open spec fn reply_of(status: Seq<char>, body: Seq<char>, content_type: Seq<char>) -> ReplyView {
    ReplyView { status, body, content_type }
}

fn make_reply(status: &str, body: &str, content_type: &str) -> (r: Reply)
    ensures
        r@ == reply_of(status@, body@, content_type@),
{
    Reply { status: status.to_owned(), body: body.to_owned(), content_type: content_type.to_owned() }
}

/// The text of a reply as it is sent.
pub fn reply_text(r: &Reply) -> (t: String)
    ensures
        t@ == status_response_text(r.status@, r.body@, r.content_type@),
{
    status_response(r.status.as_str(), r.body.as_str(), r.content_type.as_str())
}

/// The reply that carries a listing page.
pub fn page_reply(html: String) -> (r: Reply)
    ensures
        r@ == reply_of("200 OK"@, html@, "text/html; charset=utf-8"@),
{
    Reply { status: "200 OK".to_owned(), body: html, content_type: "text/html; charset=utf-8".to_owned() }
}

/// The head of the response that sends a file of `length` bytes.
pub fn file_head(name: &str, length: usize) -> (r: String)
    ensures
        r@ == attachment_head_text(name@, length as nat, "application/octet-stream"@),
{
    attachment_head(name, length, "application/octet-stream")
}

/// What a request asks for, once its line is read.
pub enum RequestPlan {
    /// Answer at once.
    Respond(Reply),
    /// An archive of a directory, described by the query.
    Download { query: Option<String> },
    /// The file or directory at `candidate`; `url` is the request's target.
    Lookup { candidate: String, url: String },
}

/// The texts of a `RequestPlan`.
pub enum PlanView {
    Respond(ReplyView),
    Download { query: Option<Seq<char>> },
    Lookup { candidate: Seq<char>, url: Seq<char> },
}

impl View for RequestPlan {
    type V = PlanView;

    open spec fn view(&self) -> PlanView {
        match self {
            RequestPlan::Respond(r) => PlanView::Respond(r@),
            RequestPlan::Download { query } => PlanView::Download {
                query: match query {
                    Some(q) => Some(q@),
                    None => None,
                },
            },
            RequestPlan::Lookup { candidate, url } => PlanView::Lookup { candidate: candidate@, url: url@ },
        }
    }
}

/// The path of a request target (before the first `?`) and its query (after
/// it), as `splitn(2, '?')` gives them.
pub open spec fn split_target(target: Seq<char>) -> (Seq<char>, Option<Seq<char>>) {
    match find_char(target, '?') {
        Some(i) => (target.take(i as int), Some(target.skip(i as int + 1))),
        None => (target, None),
    }
}

/// `p` without one leading `/`.
pub open spec fn strip_slash(p: Seq<char>) -> Seq<char> {
    if p.len() > 0 && p[0] == '/' { p.drop_first() } else { p }
}

/// What the server does with the request line `line`, serving `serve_dir`:
/// anything but `GET` is refused; a decoded path that starts with
/// `download` asks for an archive; any other names a file or directory
/// under `serve_dir`.
pub open spec fn request_plan(line: Seq<char>, serve_dir: Seq<char>) -> PlanView {
    let target = request_target(line);
    if request_method(line) != "GET"@ {
        PlanView::Respond(reply_of("405 Method Not Allowed"@, "Method not allowed"@, "text/plain"@))
    } else {
        let path = decoded_or_same(strip_slash(split_target(target).0));
        if "download"@.is_prefix_of(path) {
            PlanView::Download { query: split_target(target).1 }
        } else {
            PlanView::Lookup { candidate: std_path_join(serve_dir, path), url: target }
        }
    }
}

/// Reads a request line and decides what it asks for.
pub fn plan_request(line: &str, serve_dir: &str) -> (plan: RequestPlan)
    ensures
        plan@ == request_plan(line@, serve_dir@),
{
    let req = parse_request_line(line);
    if !same_text(req.method.as_str(), "GET") {
        return RequestPlan::Respond(make_reply("405 Method Not Allowed", "Method not allowed", "text/plain"));
    }
    let tc = chars_of(req.target.as_str());
    assert(tc@.skip(0) == tc@);
    let (path, query) = match find_from(&tc, 0, '?') {
        Some(i) => {
            assert(tc@.take(i as int) == tc@.subrange(0, i as int));
            assert(tc@.skip(i as int + 1) == tc@.subrange(i + 1, tc@.len() as int));
            (string_from(slice_of(&tc, 0, i)), Some(string_from(slice_of(&tc, i + 1, tc.len()))))
        },
        None => (req.target.clone(), None),
    };
    let pc = chars_of(path.as_str());
    let stripped = if pc.len() > 0 && pc[0] == '/' {
        assert(pc@.drop_first() == pc@.subrange(1, pc@.len() as int));
        string_from(slice_of(&pc, 1, pc.len()))
    } else {
        path
    };
    let decoded = decode_or_keep(stripped.as_str());
    if text_starts_with(decoded.as_str(), "download") {
        RequestPlan::Download { query }
    } else {
        let candidate = path_join(serve_dir, decoded.as_str());
        RequestPlan::Lookup { candidate, url: req.target }
    }
}

/// The reply to a request whose resolved path, or the served directory, has
/// no text form: whether it lies in the served directory cannot be decided on
/// text, so it is refused as if outside.
pub fn untexted_path_reply() -> (r: Reply)
    ensures
        r@ == reply_of("403 Forbidden"@, "Forbidden"@, "text/plain"@),
{
    make_reply("403 Forbidden", "Forbidden", "text/plain")
}

/// What a looked-up path gets.
pub enum Target {
    /// Answer with this.
    Respond(Reply),
    /// The listing of the directory.
    Listing,
    /// The file, downloaded under `name`.
    File { name: String },
}

/// The texts of a `Target`.
pub enum TargetView {
    Respond(ReplyView),
    Listing,
    File { name: Seq<char> },
}

impl View for Target {
    type V = TargetView;

    open spec fn view(&self) -> TargetView {
        match self {
            Target::Respond(r) => TargetView::Respond(r@),
            Target::Listing => TargetView::Listing,
            Target::File { name } => TargetView::File { name: name@ },
        }
    }
}

/// The name under which the file at `path` is sent: its file name, or
/// `file`.
pub open spec fn download_name(path: Seq<char>, fallback: Seq<char>) -> Seq<char> {
    match std_path_file_name(path) {
        Some(n) => n,
        None => fallback,
    }
}

/// What the resolved path `path` gets, `base` being the resolved served
/// directory: nothing outside `base` is served; a directory is listed; a
/// file is sent; anything else is not found.
pub open spec fn target_of(base: Seq<char>, path: Seq<char>, is_dir: bool, is_file: bool) -> TargetView {
    if !std_path_starts_with(path, base) {
        TargetView::Respond(reply_of("403 Forbidden"@, "Forbidden"@, "text/plain"@))
    } else if is_dir {
        TargetView::Listing
    } else if is_file {
        TargetView::File { name: download_name(path, "file"@) }
    } else {
        TargetView::Respond(reply_of("404 Not Found"@, "Not found"@, "text/plain"@))
    }
}

fn name_or(path: &str, fallback: &str) -> (r: String)
    ensures
        r@ == download_name(path@, fallback@),
{
    match path_file_name(path) {
        Some(n) => n,
        None => fallback.to_owned(),
    }
}

/// Decides what the resolved path `path` gets, with `is_dir` and `is_file`
/// what the file system says of it.
pub fn resolve_target(base: &str, path: &str, is_dir: bool, is_file: bool) -> (t: Target)
    ensures
        t@ == target_of(base@, path@, is_dir, is_file),
{
    if !path_starts_with(path, base) {
        Target::Respond(make_reply("403 Forbidden", "Forbidden", "text/plain"))
    } else if is_dir {
        Target::Listing
    } else if is_file {
        Target::File { name: name_or(path, "file") }
    } else {
        Target::Respond(make_reply("404 Not Found", "Not found", "text/plain"))
    }
}

/// `s` without any leading `c`.
pub open spec fn trim_leading(s: Seq<char>, c: char) -> Seq<char>
    decreases s.len(),
{
    if s.len() > 0 && s[0] == c { trim_leading(s.drop_first(), c) } else { s }
}

fn trim_leading_slashes(s: &str) -> (r: String)
    ensures
        r@ == trim_leading(s@, '/'),
{
    let cs = chars_of(s);
    let mut i: usize = 0;
    assert(cs@.skip(0) =~= cs@);
    while i < cs.len() && cs[i] == '/'
        invariant
            i <= cs.len(),
            trim_leading(cs@, '/') == trim_leading(cs@.skip(i as int), '/'),
        decreases cs.len() - i,
    {
        assert(cs@.skip(i as int).drop_first() == cs@.skip(i + 1));
        i = i + 1;
    }
    assert(cs@.skip(i as int) == cs@.subrange(i as int, cs@.len() as int));
    string_from(slice_of(&cs, i, cs.len()))
}

/// What a download request asks for: an archive `format` of the directory
/// at `candidate`.
pub struct DownloadRequest {
    pub format: String,
    pub candidate: String,
}

/// The format that a query asks for: its `format` value, or `zip`.
pub open spec fn requested_format(query: Seq<char>) -> Seq<char> {
    match lookup_last(query_pairs(query), "format"@) {
        Some(f) => f,
        None => "zip"@,
    }
}

/// The path that a query asks for: its `path` value, or empty.
pub open spec fn requested_path(query: Seq<char>) -> Seq<char> {
    match lookup_last(query_pairs(query), "path"@) {
        Some(p) => p,
        None => Seq::empty(),
    }
}

/// Reads the query of a download request (an absent query reads as empty)
/// against the served directory `base`.
pub fn plan_download(base: &str, query: Option<&str>) -> (r: DownloadRequest)
    ensures
        ({
            let q = match query {
                Some(q) => q@,
                None => Seq::empty(),
            };
            &&& r.format@ == requested_format(q)
            &&& r.candidate@ == std_path_join(base@, trim_leading(requested_path(q), '/'))
        }),
{
    let q = match query {
        Some(q) => q,
        None => "",
    };
    proof {
        reveal_strlit("");
        assert(""@ =~= Seq::<char>::empty());
    }
    let params = parse_query(q);
    let format = match query_value(&params, "format") {
        Some(f) => f,
        None => "zip".to_owned(),
    };
    let path = match query_value(&params, "path") {
        Some(p) => p,
        None => String::new(),
    };
    let trimmed = trim_leading_slashes(path.as_str());
    let candidate = path_join(base, trimmed.as_str());
    DownloadRequest { format, candidate }
}

/// The archive formats the server makes.
#[derive(Clone, Copy, Debug)]
pub enum ArchiveFormat {
    Zip,
    TarGz,
    SevenZ,
}

/// What a download request gets.
pub enum DownloadDecision {
    /// Answer with this.
    Respond(Reply),
    /// An archive in `format`, sent as `file_name` of `content_type`.
    Archive { format: ArchiveFormat, file_name: String, content_type: String },
}

/// The texts of a `DownloadDecision`.
pub enum DecisionView {
    Respond(ReplyView),
    Archive { format: ArchiveFormat, file_name: Seq<char>, content_type: Seq<char> },
}

impl View for DownloadDecision {
    type V = DecisionView;

    open spec fn view(&self) -> DecisionView {
        match self {
            DownloadDecision::Respond(r) => DecisionView::Respond(r@),
            DownloadDecision::Archive { format, file_name, content_type } => DecisionView::Archive {
                format: *format,
                file_name: file_name@,
                content_type: content_type@,
            },
        }
    }
}

/// What a download of the resolved path `path` in `format` gets, `base`
/// being the resolved served directory: nothing outside `base`; only a
/// directory; only the formats `zip`, `tar.gz` (or `tgz`) and `7z`.
pub open spec fn download_decision(base: Seq<char>, path: Seq<char>, is_dir: bool, format: Seq<char>) -> DecisionView {
    let name = download_name(path, "archive"@);
    if !std_path_starts_with(path, base) {
        DecisionView::Respond(reply_of("403 Forbidden"@, "Forbidden"@, "text/plain"@))
    } else if !is_dir {
        DecisionView::Respond(reply_of("400 Bad Request"@, "Path must be a directory"@, "text/plain"@))
    } else if format == "zip"@ {
        DecisionView::Archive { format: ArchiveFormat::Zip, file_name: name + ".zip"@, content_type: "application/zip"@ }
    } else if format == "tar.gz"@ || format == "tgz"@ {
        DecisionView::Archive { format: ArchiveFormat::TarGz, file_name: name + ".tar.gz"@, content_type: "application/gzip"@ }
    } else if format == "7z"@ {
        DecisionView::Archive { format: ArchiveFormat::SevenZ, file_name: name + ".7z"@, content_type: "application/x-7z-compressed"@ }
    } else {
        DecisionView::Respond(reply_of("400 Bad Request"@, "Unknown archive format"@, "text/plain"@))
    }
}

fn with_suffix(name: &String, suffix: &str) -> (r: String)
    ensures
        r@ == name@ + suffix@,
{
    let mut r = name.clone();
    r.append(suffix);
    r
}

/// Decides what a download of the resolved path `path` in `format` gets,
/// with `is_dir` what the file system says of it.
pub fn decide_download(base: &str, path: &str, is_dir: bool, format: &str) -> (d: DownloadDecision)
    ensures
        d@ == download_decision(base@, path@, is_dir, format@),
{
    if !path_starts_with(path, base) {
        return DownloadDecision::Respond(make_reply("403 Forbidden", "Forbidden", "text/plain"));
    }
    if !is_dir {
        return DownloadDecision::Respond(make_reply("400 Bad Request", "Path must be a directory", "text/plain"));
    }
    let name = name_or(path, "archive");
    if same_text(format, "zip") {
        DownloadDecision::Archive {
            format: ArchiveFormat::Zip,
            file_name: with_suffix(&name, ".zip"),
            content_type: "application/zip".to_owned(),
        }
    } else if same_text(format, "tar.gz") || same_text(format, "tgz") {
        DownloadDecision::Archive {
            format: ArchiveFormat::TarGz,
            file_name: with_suffix(&name, ".tar.gz"),
            content_type: "application/gzip".to_owned(),
        }
    } else if same_text(format, "7z") {
        DownloadDecision::Archive {
            format: ArchiveFormat::SevenZ,
            file_name: with_suffix(&name, ".7z"),
            content_type: "application/x-7z-compressed".to_owned(),
        }
    } else {
        DownloadDecision::Respond(make_reply("400 Bad Request", "Unknown archive format", "text/plain"))
    }
}

/// The reply when making an archive failed.
pub open spec fn archive_failure(format: ArchiveFormat) -> ReplyView {
    match format {
        ArchiveFormat::Zip => reply_of("500 Internal Server Error"@, "Failed to create zip"@, "text/plain"@),
        ArchiveFormat::TarGz => reply_of("500 Internal Server Error"@, "Failed to create tar.gz"@, "text/plain"@),
        ArchiveFormat::SevenZ => reply_of(
            "500 Internal Server Error"@,
            "Failed to create 7z archive (requires 7z binary)"@,
            "text/plain"@,
        ),
    }
}

/// The reply when making an archive in `format` failed.
pub fn archive_failed(format: ArchiveFormat) -> (r: Reply)
    ensures
        r@ == archive_failure(format),
{
    match format {
        ArchiveFormat::Zip => make_reply("500 Internal Server Error", "Failed to create zip", "text/plain"),
        ArchiveFormat::TarGz => make_reply("500 Internal Server Error", "Failed to create tar.gz", "text/plain"),
        ArchiveFormat::SevenZ => make_reply(
            "500 Internal Server Error",
            "Failed to create 7z archive (requires 7z binary)",
            "text/plain",
        ),
    }
}

/// The decoded path that a request line names: its target up to the first
/// `?`, without one leading `/`, percent-decoded.
pub open spec fn request_path(line: Seq<char>) -> Seq<char> {
    decoded_or_same(strip_slash(split_target(request_target(line)).0))
}

/// Two `GET` requests whose targets decode to the same path (whatever their
/// queries and escapes) look up the same file or directory.
pub proof fn lemma_same_path_same_lookup(line1: Seq<char>, line2: Seq<char>, serve_dir: Seq<char>)
    requires
        request_method(line1) == "GET"@,
        request_method(line2) == "GET"@,
        request_path(line1) == request_path(line2),
        !"download"@.is_prefix_of(request_path(line1)),
    ensures
        request_plan(line1, serve_dir) matches PlanView::Lookup { candidate: c1, .. }
            && request_plan(line2, serve_dir) matches PlanView::Lookup { candidate: c2, .. }
            && c1 == c2 && c1 == std_path_join(serve_dir, request_path(line1)),
{
}

/// The file-name extension of an archive kind.
pub open spec fn archive_extension(format: ArchiveFormat) -> Seq<char> {
    match format {
        ArchiveFormat::Zip => ".zip"@,
        ArchiveFormat::TarGz => ".tar.gz"@,
        ArchiveFormat::SevenZ => ".7z"@,
    }
}

/// The content type under which an archive kind is sent.
pub open spec fn archive_content_type(format: ArchiveFormat) -> Seq<char> {
    match format {
        ArchiveFormat::Zip => "application/zip"@,
        ArchiveFormat::TarGz => "application/gzip"@,
        ArchiveFormat::SevenZ => "application/x-7z-compressed"@,
    }
}

/// An archive is sent as the directory's name (or `archive`) followed by the
/// extension of its kind, with the content type of its kind, whichever name
/// of the format was asked for.
pub proof fn lemma_archive_named_by_kind(base: Seq<char>, path: Seq<char>, is_dir: bool, format: Seq<char>)
    ensures
        download_decision(base, path, is_dir, format) matches DecisionView::Archive { format: f, file_name, content_type }
            ==> file_name == download_name(path, "archive"@) + archive_extension(f) && content_type
            == archive_content_type(f),
{
}

/// `tar.gz` and `tgz` name the same archive format: a download asked for
/// with either gets the same answer, which, for a directory inside the
/// served one, is a gzipped tar archive named after the directory with the
/// extension `.tar.gz`.
pub proof fn lemma_tar_gz_aliases_agree(base: Seq<char>, path: Seq<char>, is_dir: bool)
    ensures
        download_decision(base, path, is_dir, "tar.gz"@) == download_decision(base, path, is_dir, "tgz"@),
        std_path_starts_with(path, base) && is_dir ==> download_decision(base, path, is_dir, "tgz"@) == (
        DecisionView::Archive {
            format: ArchiveFormat::TarGz,
            file_name: download_name(path, "archive"@) + ".tar.gz"@,
            content_type: "application/gzip"@,
        }),
{
    reveal_strlit("tar.gz");
    reveal_strlit("tgz");
    reveal_strlit("zip");
    assert("tar.gz"@ != "zip"@) by {
        assert("tar.gz"@.len() != "zip"@.len());
    }
    assert("tgz"@ != "zip"@) by {
        assert("tgz"@[0] != "zip"@[0]);
    }
}

/// The link that a listing writes for an entry, `/` and the entry's name
/// percent-encoded, leads back to exactly that name: a `GET` of it, whatever
/// follows the target after white space, names the entry, and, unless the
/// name starts with `download`, looks up the entry under the served
/// directory with the link as its url.
pub proof fn lemma_link_leads_to_entry(name: Seq<char>, rest: Seq<char>, serve_dir: Seq<char>)
    requires
        rest.len() == 0 || is_space(rest[0]),
    ensures
        request_method("GET /"@ + url_encoded(name) + rest) == "GET"@,
        request_path("GET /"@ + url_encoded(name) + rest) == name,
        !"download"@.is_prefix_of(name) ==> request_plan("GET /"@ + url_encoded(name) + rest, serve_dir)
            == (PlanView::Lookup { candidate: std_path_join(serve_dir, name), url: seq!['/'] + url_encoded(name) }),
{
    reveal_strlit("GET /");
    reveal_strlit("GET");
    let enc = url_encoded(name);
    let target = seq!['/'] + enc;
    lemma_encoded_chars(name);
    assert forall|k: int| 0 <= k < target.len() implies !is_space(#[trigger] target[k]) && target[k] != '?' by {
        if k > 0 {
            assert(target[k] == enc[k - 1]);
        }
    }
    assert forall|k: int| 0 <= k < "GET"@.len() implies !is_space(#[trigger] "GET"@[k]) by {}
    lemma_request_words("GET"@, target, rest);
    assert("GET /"@ + enc + rest == "GET"@ + seq![' '] + target + rest);
    lemma_find_char_at(target, '?', target.len() as int);
    assert(strip_slash(target) == enc);
    lemma_decode_encoded(name);
}

/// Nothing outside the served directory is listed or sent.
pub proof fn lemma_served_paths_inside(base: Seq<char>, path: Seq<char>, is_dir: bool, is_file: bool)
    ensures
        !(target_of(base, path, is_dir, is_file) is Respond) ==> std_path_starts_with(path, base),
{
}

/// Only directories inside the served directory are archived.
pub proof fn lemma_archives_inside(base: Seq<char>, path: Seq<char>, is_dir: bool, format: Seq<char>)
    ensures
        download_decision(base, path, is_dir, format) is Archive ==> std_path_starts_with(path, base) && is_dir,
{
}

/// A request with any method but `GET` is refused with `405`.
pub proof fn lemma_only_get(line: Seq<char>, serve_dir: Seq<char>)
    ensures
        request_method(line) != "GET"@ ==> request_plan(line, serve_dir) == PlanView::Respond(
            reply_of("405 Method Not Allowed"@, "Method not allowed"@, "text/plain"@),
        ),
{
}

proof fn lemma_split_without_sep(s: Seq<char>, sep: char)
    requires
        forall|i: int| 0 <= i < s.len() ==> s[i] != sep,
    ensures
        split_on(s, sep) == seq![s],
{
    lemma_find_char_at(s, sep, s.len() as int);
}

proof fn lemma_key_value(key: Seq<char>, value: Seq<char>)
    requires
        forall|i: int| 0 <= i < key.len() ==> key[i] != '=',
    ensures
        piece_key(key + seq!['='] + value) == key,
        piece_value(key + seq!['='] + value) == value,
{
    let piece = key + seq!['='] + value;
    assert forall|k: int| 0 <= k < key.len() implies piece[k] != '=' by {
        assert(piece[k] == key[k]);
    }
    lemma_find_char_at(piece, '=', key.len() as int);
    assert(piece.take(key.len() as int) == key);
    assert(piece.skip(key.len() as int + 1) == value);
}

/// The query of a download link, `path=` and the encoded path, then
/// `&format=` and the encoded format, is read back as that path and format.
pub proof fn lemma_download_query_roundtrip(path: Seq<char>, format: Seq<char>)
    ensures
        ({
            let q = "path="@ + url_encoded(path) + "&format="@ + url_encoded(format);
            requested_path(q) == path && requested_format(q) == format
        }),
{
    reveal_strlit("path=");
    reveal_strlit("&format=");
    reveal_strlit("path");
    reveal_strlit("format");
    let ep = url_encoded(path);
    let ef = url_encoded(format);
    lemma_encoded_has_no_separators(path);
    lemma_encoded_has_no_separators(format);
    lemma_decode_encoded(path);
    lemma_decode_encoded(format);
    let a = "path"@ + seq!['='] + ep;
    let b = "format"@ + seq!['='] + ef;
    assert("path="@ == "path"@ + seq!['=']);
    assert("&format="@ == seq!['&'] + "format"@ + seq!['=']);
    let q = "path="@ + ep + "&format="@ + ef;
    assert(q == a + seq!['&'] + b);
    assert forall|k: int| 0 <= k < a.len() implies q[k] != '&' by {
        assert(q[k] == a[k]);
        if k >= 5 {
            assert(a[k] == ep[k - 5]);
        }
    }
    lemma_find_char_at(q, '&', a.len() as int);
    assert(q.take(a.len() as int) == a);
    assert(q.skip(a.len() as int + 1) == b);
    assert forall|k: int| 0 <= k < b.len() implies b[k] != '&' by {
        if k >= 7 {
            assert(b[k] == ef[k - 7]);
        }
    }
    lemma_split_without_sep(b, '&');
    assert(split_on(q, '&') == seq![a, b]);
    lemma_key_value("path"@, ep);
    lemma_key_value("format"@, ef);
    let pairs = query_pairs(q);
    assert(pairs == seq![("path"@, path), ("format"@, format)]);
    assert("path"@ != "format"@) by {
        assert("path"@.len() != "format"@.len());
    }
    assert(pairs.drop_last() == seq![("path"@, path)]);
    assert(pairs.last() == ("format"@, format));
    assert(pairs.drop_last().last() == ("path"@, path));
    assert(lookup_last(pairs.drop_last(), "path"@) == Some(path));
    assert(lookup_last(pairs, "path"@) == Some(path));
    assert(lookup_last(pairs, "format"@) == Some(format));
}

} // verus!
