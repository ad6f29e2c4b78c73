use std::io::Write;

use rust_web_browser_engineering::dom::Attributes;
use rust_web_browser_engineering::http::{
    build_request, decode_chunked, fetch_kind, find_bytes, guess_content_type_from_path, parse_response_bytes,
    redirect_location, FetchKind, HttpError, Response,
};
use rust_web_browser_engineering::url::URL;

fn response_with(content_type: Option<&str>, body: Vec<u8>) -> Response {
    Response { status_code: 200, headers: Attributes::new(), body, content_type: content_type.map(str::to_string) }
}

#[test]
fn extracts_charset_from_content_type_header() {
    let response = response_with(Some("text/html; charset=Shift_JIS"), Vec::new());

    assert_eq!(response.charset_from_header().as_deref(), Some("shift_jis"));
}

#[test]
fn decodes_shift_jis_body() {
    let response = response_with(Some("text/html; charset=Shift_JIS"), vec![0x90, 0xa2, 0x8a, 0x45]);

    assert_eq!(response.body_text_with_charset("shift_jis"), "世界");
}

#[test]
fn charset_parameter_is_found_after_others_and_unquoted() {
    let r = response_with(Some("text/html; q=1; CHARSET = \"EUC-JP\""), Vec::new());
    assert_eq!(r.charset_from_header().as_deref(), Some("euc-jp"));
    let r = response_with(Some("charset=utf-8"), Vec::new());
    assert_eq!(r.charset_from_header(), None);
    let r = response_with(Some("text/html; charset=''"), Vec::new());
    assert_eq!(r.charset_from_header(), None);
    assert_eq!(response_with(None, Vec::new()).charset_from_header(), None);
}

#[test]
fn unknown_charset_falls_back_to_utf8() {
    let r = response_with(None, "é".as_bytes().to_vec());
    assert_eq!(r.body_text_with_charset("no-such-charset"), "é");
    let r = response_with(None, vec![b'a', 0xff, b'b']);
    assert_eq!(r.body_text_lossy(), "a\u{fffd}b");
}

#[test]
fn parses_status_headers_and_chunked_body() {
    let raw = b"HTTP/1.1 200 OK\r\nContent-Type: text/plain\r\nTransfer-Encoding: Chunked\r\nX-A:  1 \r\n\r\n4\r\nWiki\r\n5;ext\r\npedia\r\n0\r\n\r\n".to_vec();
    let resp = match parse_response_bytes(raw) {
        Ok(r) => r,
        Err(e) => panic!("{}", e.message()),
    };
    assert_eq!(resp.status_code, 200);
    assert_eq!(resp.content_type.as_deref(), Some("text/plain"));
    assert_eq!(resp.header("X-A").map(|s| s.as_str()), Some("1"));
    assert_eq!(resp.body, b"Wikipedia".to_vec());
}

#[test]
fn no_content_and_informational_responses_have_no_body() {
    let resp = parse_response_bytes(b"HTTP/1.1 204 No Content\r\n\r\nignored".to_vec()).ok().unwrap();
    assert_eq!(resp.status_code, 204);
    assert!(resp.body.is_empty());
    let resp = parse_response_bytes(b"garbage\r\n\r\nbody".to_vec()).ok().unwrap();
    assert_eq!(resp.status_code, 0);
    assert_eq!(resp.body, b"body".to_vec());
}

#[test]
fn gzip_and_brotli_bodies_are_decoded() {
    let mut gz = flate2::write::GzEncoder::new(Vec::new(), flate2::Compression::default());
    gz.write_all(b"hello gzip").unwrap();
    let gz_bytes = gz.finish().unwrap();
    let mut raw = b"HTTP/1.1 200 OK\r\nContent-Encoding: identity, GZIP\r\n\r\n".to_vec();
    raw.extend_from_slice(&gz_bytes);
    let resp = parse_response_bytes(raw).ok().unwrap();
    assert_eq!(resp.body, b"hello gzip".to_vec());

    let mut br_bytes = Vec::new();
    {
        let mut w = brotli::CompressorWriter::new(&mut br_bytes, 4096, 5, 22);
        w.write_all(b"hello brotli").unwrap();
    }
    let mut raw = b"HTTP/1.1 200 OK\r\nContent-Encoding: br\r\n\r\n".to_vec();
    raw.extend_from_slice(&br_bytes);
    let resp = parse_response_bytes(raw).ok().unwrap();
    assert_eq!(resp.body, b"hello brotli".to_vec());
}

#[test]
fn response_errors_are_reported() {
    match parse_response_bytes(b"HTTP/1.1 200 OK\r\n".to_vec()) {
        Err(HttpError::InvalidResponse(m)) => assert_eq!(m, "missing header terminator"),
        _ => panic!("expected invalid response"),
    }
    match parse_response_bytes(b"HTTP/1.1 200 OK\r\nContent-Encoding: zstd\r\n\r\nx".to_vec()) {
        Err(e) => assert_eq!(e.message(), "unsupported content-encoding: zstd"),
        _ => panic!("expected unsupported encoding"),
    }
    match parse_response_bytes(b"HTTP/1.1 200 OK\r\nContent-Encoding: gzip\r\n\r\nnot gzip".to_vec()) {
        Err(e) => assert_eq!(e.message(), "decode failed: gzip"),
        _ => panic!("expected decode failure"),
    }
}

#[test]
fn chunked_decoding_stops_at_malformed_input() {
    assert_eq!(decode_chunked(b"3\r\nabc\r\nzz\r\ndef\r\n"), b"abc".to_vec());
    assert_eq!(decode_chunked(b"10\r\nshort"), Vec::<u8>::new());
    assert_eq!(decode_chunked(b"3\r\nabcX"), b"abc".to_vec());
    assert_eq!(decode_chunked(b"+2\r\nok\r\n"), b"ok".to_vec());
}

#[test]
fn finds_bytes() {
    assert_eq!(find_bytes(b"abcabc", b"ca"), Some(2));
    assert_eq!(find_bytes(b"abc", b""), None);
    assert_eq!(find_bytes(b"ab", b"abc"), None);
    assert_eq!(find_bytes(b"abc", b"abc"), Some(0));
}

#[test]
fn content_type_follows_the_extension() {
    assert_eq!(guess_content_type_from_path("/a/INDEX.HTM").as_deref(), Some("text/html; charset=utf-8"));
    assert_eq!(guess_content_type_from_path("x.jpeg").as_deref(), Some("image/jpeg"));
    assert_eq!(guess_content_type_from_path("x.bin").as_deref(), Some("application/octet-stream"));
}

#[test]
fn request_names_path_and_host() {
    let url = URL::new("http://example.com:8080");
    let req = build_request(&url);
    assert!(req.starts_with("GET / HTTP/1.1\r\nHost: example.com\r\n"));
    assert!(req.ends_with("Connection: close\r\n\r\n"));
}

#[test]
fn redirects_and_schemes() {
    let mut headers = Attributes::new();
    headers.insert("location".to_string(), "/next".to_string());
    let resp = Response { status_code: 302, headers, body: Vec::new(), content_type: None };
    assert_eq!(redirect_location(&resp).as_deref(), Some("/next"));
    let resp = Response { status_code: 200, ..resp };
    assert_eq!(redirect_location(&resp), None);
    assert!(matches!(fetch_kind(&URL::new("file:///tmp/a.html")), Ok(FetchKind::File)));
    assert!(matches!(fetch_kind(&URL::new("https://example.com/")), Ok(FetchKind::Network)));
}
