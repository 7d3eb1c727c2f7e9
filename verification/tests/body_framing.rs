use minihttp::response::{Response, ResponseLazy};
use minihttp::source::MemSource;
use minihttp::Error;

fn materialize(raw: &[u8]) -> Result<Response, Error> {
    let lazy = ResponseLazy::from_stream(MemSource::new(raw.to_vec()), None, None)?;
    Response::create(lazy, false)
}

fn err_of<T>(r: Result<T, Error>) -> Error {
    match r {
        Err(e) => e,
        Ok(_) => panic!("expected an error"),
    }
}

#[test]
fn content_length_round_trip() {
    let resp = materialize(b"HTTP/1.1 200 OK\r\nContent-Length: 5\r\n\r\nhelloEXTRA").unwrap();
    assert_eq!(resp.status_code, 200);
    assert_eq!(resp.reason_phrase, "OK");
    assert_eq!(resp.as_bytes(), b"hello");
}

#[test]
fn content_length_truncated_stream_ends_early() {
    let resp = materialize(b"HTTP/1.1 200 OK\r\nContent-Length: 50\r\n\r\nonly-this").unwrap();
    assert_eq!(resp.as_bytes(), b"only-this");
}

#[test]
fn end_on_close_takes_whole_stream() {
    let resp = materialize(b"HTTP/1.1 200 OK\r\n\r\neverything until close").unwrap();
    assert_eq!(resp.as_bytes(), b"everything until close");
}

#[test]
fn chunked_round_trip_synthesizes_content_length() {
    let resp = materialize(
        b"HTTP/1.1 200 OK\r\nTransfer-Encoding: chunked\r\n\r\n3\r\nabc\r\n0\r\n\r\n",
    )
    .unwrap();
    assert_eq!(resp.as_bytes(), b"abc");
    assert_eq!(resp.headers.get("content-length").unwrap(), "3");
    assert!(resp.headers.get("transfer-encoding").is_none());
}

#[test]
fn chunked_multiple_chunks_and_extension() {
    let resp = materialize(
        b"HTTP/1.1 200 OK\r\nTransfer-Encoding: chunked\r\n\r\n2;ext=1\r\nab\r\n3\r\ncde\r\n0\r\n\r\n",
    )
    .unwrap();
    assert_eq!(resp.as_bytes(), b"abcde");
    assert_eq!(resp.headers.get("content-length").unwrap(), "5");
}

#[test]
fn chunked_trailers_are_merged() {
    let resp = materialize(
        b"HTTP/1.1 200 OK\r\nTransfer-Encoding: chunked\r\n\r\n3\r\nabc\r\n0\r\nX-After: yes\r\n\r\n",
    )
    .unwrap();
    assert_eq!(resp.as_bytes(), b"abc");
    assert_eq!(resp.headers.get("x-after").unwrap(), "yes");
}

#[test]
fn malformed_chunk_size_fails() {
    let err = err_of(materialize(
        b"HTTP/1.1 200 OK\r\nTransfer-Encoding: chunked\r\n\r\nzz\r\nabc\r\n",
    ));
    assert_eq!(err, Error::MalformedChunkLength);
}

#[test]
fn malformed_chunk_size_yields_no_bytes() {
    let mut lazy = ResponseLazy::from_stream(
        MemSource::new(b"HTTP/1.1 200 OK\r\nTransfer-Encoding: chunked\r\n\r\nzz\r\nabc\r\n".to_vec()),
        None,
        None,
    )
    .unwrap();
    match lazy.next() {
        Some(Err(Error::MalformedChunkLength)) => {}
        other => panic!("expected the malformed-chunk-length error, got {:?}", other.is_some()),
    }
}

#[test]
fn malformed_chunk_end_fails() {
    let err = err_of(materialize(
        b"HTTP/1.1 200 OK\r\nTransfer-Encoding: chunked\r\n\r\n3\r\nabcXYZ\r\n",
    ));
    assert_eq!(err, Error::MalformedChunkEnd);
}

#[test]
fn status_204_has_empty_body_despite_content_length() {
    let resp = materialize(b"HTTP/1.1 204 No Content\r\nContent-Length: 5\r\n\r\nhello").unwrap();
    assert_eq!(resp.status_code, 204);
    assert_eq!(resp.as_bytes(), b"");
}

#[test]
fn status_304_has_empty_body() {
    let resp = materialize(b"HTTP/1.1 304 Not Modified\r\nContent-Length: 3\r\n\r\nabc").unwrap();
    assert_eq!(resp.as_bytes(), b"");
}

#[test]
fn head_response_has_empty_body() {
    let lazy = ResponseLazy::from_stream(
        MemSource::new(b"HTTP/1.1 200 OK\r\nContent-Length: 3\r\n\r\nabc".to_vec()),
        None,
        None,
    )
    .unwrap();
    let resp = Response::create(lazy, true).unwrap();
    assert_eq!(resp.as_bytes(), b"");
}

#[test]
fn estimates_are_capped_for_huge_content_length() {
    let mut raw = b"HTTP/1.1 200 OK\r\nContent-Length: 1000000\r\n\r\n".to_vec();
    raw.extend(std::iter::repeat(b'x').take(20000));
    let mut lazy = ResponseLazy::from_stream(MemSource::new(raw), None, None).unwrap();
    let mut seen: usize = 0;
    while let Some(item) = lazy.next() {
        let (_, estimate) = item.unwrap();
        assert!(estimate <= 16384);
        assert!(estimate >= 1);
        seen += 1;
    }
    assert_eq!(seen, 20000);
}

#[test]
fn chunked_estimates_are_capped() {
    let mut raw = b"HTTP/1.1 200 OK\r\nTransfer-Encoding: chunked\r\n\r\n7530\r\n".to_vec();
    raw.extend(std::iter::repeat(b'y').take(0x7530));
    raw.extend(b"\r\n0\r\n\r\n");
    let mut lazy = ResponseLazy::from_stream(MemSource::new(raw), None, None).unwrap();
    while let Some(item) = lazy.next() {
        let (_, estimate) = item.unwrap();
        assert!(estimate <= 16384);
    }
}

#[test]
fn malformed_content_length_fails() {
    let err = err_of(materialize(b"HTTP/1.1 200 OK\r\nContent-Length: abc\r\n\r\n"));
    assert_eq!(err, Error::MalformedContentLength);
}

#[test]
fn transfer_encoding_overrides_content_length() {
    let resp = materialize(
        b"HTTP/1.1 200 OK\r\nContent-Length: 99\r\nTransfer-Encoding: chunked\r\n\r\n2\r\nhi\r\n0\r\n\r\n",
    )
    .unwrap();
    assert_eq!(resp.as_bytes(), b"hi");
    assert_eq!(resp.headers.get("content-length").unwrap(), "2");
}

#[test]
fn headers_overflow_fails() {
    let raw = b"HTTP/1.1 200 OK\r\nX-Long-Header-Name: some-quite-long-value\r\n\r\n";
    let err = err_of(ResponseLazy::from_stream(MemSource::new(raw.to_vec()), Some(10), None));
    assert_eq!(err, Error::HeadersOverflow);
}

#[test]
fn status_line_overflow_fails() {
    let raw = b"HTTP/1.1 200 A-rather-wordy-reason-phrase\r\n\r\n";
    let err = err_of(ResponseLazy::from_stream(MemSource::new(raw.to_vec()), None, Some(8)));
    assert_eq!(err, Error::StatusLineOverflow);
}

#[test]
fn trailer_overflow_fails() {
    let raw = b"HTTP/1.1 200 OK\r\nA: b\r\nTransfer-Encoding: chunked\r\n\r\n1\r\nz\r\n0\r\nX-Trailer-That-Is-Long: value\r\n\r\n";
    let lazy = ResponseLazy::from_stream(MemSource::new(raw.to_vec()), Some(40), None).unwrap();
    let err = err_of(Response::create(lazy, false));
    assert_eq!(err, Error::HeadersOverflow);
}

#[test]
fn invalid_utf8_in_header_fails() {
    let raw = b"HTTP/1.1 200 OK\r\nX-Bad: \xff\xfe\r\n\r\n";
    let err = err_of(ResponseLazy::from_stream(MemSource::new(raw.to_vec()), None, None));
    assert_eq!(err, Error::InvalidUtf8InResponse);
}

#[test]
fn utf8_header_value_decodes() {
    let raw = "HTTP/1.1 200 OK\r\nX-Name: Zo\u{eb}\r\n\r\n".as_bytes();
    let lazy = ResponseLazy::from_stream(MemSource::new(raw.to_vec()), None, None).unwrap();
    assert_eq!(lazy.headers.get("x-name").unwrap(), "Zo\u{eb}");
}

#[test]
fn invalid_utf8_in_body_fails_as_str() {
    let resp = materialize(b"HTTP/1.1 200 OK\r\nContent-Length: 2\r\n\r\n\xff\xfe").unwrap();
    match resp.as_str() {
        Err(e) => assert_eq!(e, Error::InvalidUtf8InBody),
        Ok(_) => panic!("expected an error"),
    }
    assert_eq!(resp.as_bytes(), b"\xff\xfe");
}

#[test]
fn utf8_body_as_str() {
    let raw = "HTTP/1.1 200 OK\r\nContent-Length: 6\r\n\r\nh\u{e9}llo".as_bytes();
    let resp = materialize(raw).unwrap();
    assert_eq!(resp.as_str().unwrap(), "h\u{e9}llo");
    assert_eq!(resp.into_bytes(), "h\u{e9}llo".as_bytes().to_vec());
}

#[test]
fn lenient_status_line_falls_back_to_503() {
    let resp = materialize(b"garbage\r\n\r\nrest").unwrap();
    assert_eq!(resp.status_code, 503);
    assert_eq!(resp.reason_phrase, "Server did not provide a status line");
}

#[test]
fn lazy_read_fills_in_slices() {
    let raw = b"HTTP/1.1 200 OK\r\nContent-Length: 5\r\n\r\nhello";
    let mut lazy = ResponseLazy::from_stream(MemSource::new(raw.to_vec()), None, None).unwrap();
    let first = lazy.read(3).unwrap();
    assert_eq!(first, b"hel".to_vec());
    let second = lazy.read(10).unwrap();
    assert_eq!(second, b"lo".to_vec());
    let third = lazy.read(10).unwrap();
    assert_eq!(third, b"".to_vec());
}

#[test]
fn next_after_end_keeps_returning_none() {
    let raw = b"HTTP/1.1 200 OK\r\nContent-Length: 2\r\n\r\nhi";
    let mut lazy = ResponseLazy::from_stream(MemSource::new(raw.to_vec()), None, None).unwrap();
    assert!(matches!(lazy.next(), Some(Ok((b'h', _)))));
    assert!(matches!(lazy.next(), Some(Ok((b'i', _)))));
    assert!(lazy.next().is_none());
    assert!(lazy.next().is_none());
    assert!(lazy.next().is_none());
}

#[test]
fn chunked_end_keeps_returning_none() {
    let raw = b"HTTP/1.1 200 OK\r\nTransfer-Encoding: chunked\r\n\r\n1\r\nz\r\n0\r\n\r\n";
    let mut lazy = ResponseLazy::from_stream(MemSource::new(raw.to_vec()), None, None).unwrap();
    assert!(matches!(lazy.next(), Some(Ok((b'z', _)))));
    assert!(lazy.next().is_none());
    assert!(lazy.next().is_none());
}
