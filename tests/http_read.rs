use cuckoo_http::http_read::HTTPRead;

fn read_all_chunks(data: &[u8], chunk: usize) -> Vec<(Vec<u8>, Vec<u8>)> {
    let mut reader = HTTPRead::new();
    let mut out = Vec::new();
    for part in data.chunks(chunk) {
        reader.fill(part);
        while let Some(r) = reader.next() {
            out.push(r);
        }
    }
    out
}

#[test]
fn get_request_same_for_any_chunking() {
    let data = b"GET /x HTTP/1.1\r\nContent-Length: 0\r\n\r\n";
    let whole = read_all_chunks(data, data.len());
    assert_eq!(whole.len(), 1);
    assert_eq!(whole[0].0, data.to_vec());
    assert_eq!(whole[0].1, b"/x".to_vec());
    for chunk in 1..data.len() {
        assert_eq!(read_all_chunks(data, chunk), whole);
    }
}

#[test]
fn post_body_is_framed_exactly() {
    let data = b"POST / HTTP/1.1\r\nContent-Length: 5\r\n\r\nhello";
    let mut reader = HTTPRead::new();
    reader.fill(data);
    let (req, url) = reader.next().unwrap();
    assert_eq!(req, data.to_vec());
    assert!(req.ends_with(b"\r\n\r\nhello"));
    assert_eq!(url, b"/".to_vec());
    assert_eq!(reader.next(), None);
}

#[test]
fn post_does_not_read_past_body() {
    let first = b"POST /a HTTP/1.1\r\nContent-Length: 5\r\n\r\nhello";
    let second = b"GET /b HTTP/1.1\r\nContent-Length: 0\r\n\r\n";
    let mut data = first.to_vec();
    data.extend_from_slice(second);
    let out = read_all_chunks(&data, 3);
    assert_eq!(out.len(), 2);
    assert_eq!(out[0].0, first.to_vec());
    assert_eq!(out[0].1, b"/a".to_vec());
    assert_eq!(out[1].0, second.to_vec());
    assert_eq!(out[1].1, b"/b".to_vec());
}

#[test]
fn incomplete_request_waits_for_more() {
    let mut reader = HTTPRead::new();
    reader.fill(b"POST / HTTP/1.1\r\nContent-Length: 5\r\n\r\nhel");
    assert_eq!(reader.next(), None);
    reader.fill(b"lo");
    let (req, _) = reader.next().unwrap();
    assert!(req.ends_with(b"hello"));
}

#[test]
fn get_with_declared_length_has_no_body() {
    let data = b"GET /test HTTP/1.1\r\nContent-Length: 10\r\n\r\n";
    let out = read_all_chunks(data, 7);
    assert_eq!(out.len(), 1);
    assert_eq!(out[0].1, b"/test".to_vec());
}

#[test]
fn feed_one_byte_at_a_time() {
    let data = b"POST / HTTP/1.1\r\nContent-Length: 10\r\n\r\n{fdfafa}xy";
    let mut reader = HTTPRead::new();
    let mut done = None;
    for (i, c) in data.iter().enumerate() {
        let r = reader.feed(*c);
        if r.is_some() {
            assert_eq!(i, data.len() - 1);
            done = r;
        }
    }
    assert_eq!(done.unwrap().0, data.to_vec());
}

#[test]
fn content_length_without_blank_after_colon() {
    let data = b"POST /p HTTP/1.1\r\nContent-Length:5\r\n\r\nhello";
    let out = read_all_chunks(data, 1);
    assert_eq!(out.len(), 1);
    assert_eq!(out[0].0, data.to_vec());
    let data2 = b"POST /p HTTP/1.1\r\nContent-Length:12\r\n\r\nhello world!";
    let out2 = read_all_chunks(data2, data2.len());
    assert_eq!(out2.len(), 1);
    assert_eq!(out2[0].0, data2.to_vec());
}

#[test]
fn content_length_with_tab_and_two_digits() {
    let data = b"POST /p HTTP/1.1\r\nContent-Length: \t12\r\n\r\nhello world!";
    let mut reader = HTTPRead::new();
    reader.fill(data);
    let (req, url) = reader.next().unwrap();
    assert_eq!(req, data.to_vec());
    assert_eq!(url, b"/p".to_vec());
    assert_eq!(reader.next(), None);
}
