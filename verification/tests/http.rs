use lsnet::http::{banner_of, complete, dechunk, parse_response, parse_url, request, tag};

#[test]
fn parses_urls() {
    assert_eq!(
        parse_url("http://192.168.1.1:41389/rootDesc.xml"),
        Some((u32::from_be_bytes([192, 168, 1, 1]), 41389, "/rootDesc.xml".to_string()))
    );
    assert_eq!(
        parse_url("http://10.0.0.2"),
        Some((u32::from_be_bytes([10, 0, 0, 2]), 80, "/".to_string()))
    );
    assert_eq!(parse_url("http://10.0.0.2/a\rX-Evil: 1"), None);
}

#[test]
fn dechunks() {
    assert_eq!(dechunk(b"5\r\nhello\r\n6\r\n world\r\n0\r\n\r\n"), b"hello world");
}

#[test]
fn extracts_tags() {
    let xml = "<root><device><friendlyName>Den  TV &amp; more</friendlyName><Title x='1'>Hi</Title>";
    assert_eq!(tag(xml, "friendlyName").as_deref(), Some("Den TV & more"));
    assert_eq!(tag(xml, "title").as_deref(), Some("Hi"));
    assert_eq!(tag(xml, "missing"), None);
}

#[test]
fn knows_when_a_response_is_complete() {
    assert!(!complete(b"HTTP/1.0 200 OK\r\nContent-Length: 5\r\n"));
    assert!(!complete(b"HTTP/1.0 200 OK\r\nContent-Length: 5\r\n\r\nhel"));
    assert!(complete(b"HTTP/1.0 200 OK\r\nContent-Length: 5\r\n\r\nhello"));
    assert!(complete(b"HTTP/1.1 200 OK\r\nTransfer-Encoding: chunked\r\n\r\n2\r\nhi\r\n0\r\n\r\n"));
    assert!(!complete(b"HTTP/1.0 200 OK\r\nServer: x\r\n\r\nhello"));
}

#[test]
fn reads_a_banner() {
    let raw = b"HTTP/1.0 200 OK\r\nServer: lighttpd\r\nContent-Length: 27\r\n\r\n<html><title>NAS</title>ok";
    let resp = parse_response(raw).unwrap();
    assert_eq!(resp.header("server"), Some("lighttpd"));
    assert_eq!(resp.header("SERVER"), Some("lighttpd"));
    assert_eq!(resp.header("missing"), None);
    let b = banner_of(&resp).unwrap();
    assert_eq!(b.server.as_deref(), Some("lighttpd"));
    assert_eq!(b.title.as_deref(), Some("NAS"));
    assert!(parse_response(b"no blank line").is_none());
}

#[test]
fn reads_chunked_bodies() {
    let raw = b"HTTP/1.1 200 OK\r\nTransfer-Encoding: chunked\r\n\r\n5\r\nhello\r\n0\r\n\r\n";
    let resp = parse_response(raw).unwrap();
    assert_eq!(resp.body, "hello");
}

#[test]
fn ungzips_bodies() {
    // "hi" compressed with gzip.
    let gz: [u8; 22] = [
        0x1f, 0x8b, 0x08, 0x00, 0x00, 0x00, 0x00, 0x00, 0x02, 0x03, 0xcb, 0xc8, 0x04, 0x00, 0xac, 0x2a, 0x93, 0xd8,
        0x02, 0x00, 0x00, 0x00,
    ];
    let mut raw = b"HTTP/1.0 200 OK\r\n\r\n".to_vec();
    raw.extend_from_slice(&gz);
    let resp = parse_response(&raw).unwrap();
    assert_eq!(resp.body, "hi");
}

#[test]
fn writes_requests() {
    assert_eq!(
        request(u32::from_be_bytes([192, 168, 1, 1]), 80, "/"),
        "GET / HTTP/1.0\r\nHost: 192.168.1.1:80\r\nUser-Agent: lsnet\r\nConnection: close\r\n\r\n"
    );
}

#[test]
fn dechunk_takes_what_is_left_of_an_oversized_chunk() {
    assert_eq!(dechunk(b"ffffffffffffffff\r\nx"), b"x".to_vec());
    assert_eq!(dechunk(b"5\r\nab"), b"ab".to_vec());
}

#[test]
fn tag_text_is_already_collapsed() {
    let t = tag("<friendlyName>\n  Living   Room &amp;\tTV </friendlyName>", "FRIENDLYNAME").unwrap();
    assert_eq!(t, "Living Room & TV");
    assert_eq!(t.split_whitespace().collect::<Vec<_>>().join(" "), t);
}

#[test]
fn dechunk_reads_back_what_was_encoded() {
    let chunks: Vec<&[u8]> = vec![b"hello\r\n", b"x", &[7u8; 300]];
    let mut data = Vec::new();
    let mut want = Vec::new();
    for c in &chunks {
        data.extend_from_slice(format!("{:x}\r\n", c.len()).as_bytes());
        data.extend_from_slice(c);
        data.extend_from_slice(b"\r\n");
        want.extend_from_slice(c);
    }
    data.extend_from_slice(b"0\r\n\r\n");
    assert_eq!(dechunk(&data), want);
}
