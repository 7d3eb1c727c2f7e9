//! Reading an HTTP/1.1 response: status line and headers, then the body
//! under one of three framing rules, lazily or fully materialized.

use vstd::prelude::*;
use vstd::string::StrSliceExecFns;
use vstd::utf8::decode_utf8;
use vstd::utf8::valid_utf8;

use crate::Error;
use crate::buf_reader::BufReader;
use crate::headers::Headers;
use crate::source::ByteSource;
use crate::source::BytesIter;

verus! {

/// The first position of byte `b` in `s`, if any.
pub open spec fn find_byte(s: Seq<u8>, b: u8) -> Option<int>
    decreases s.len(),
{
    if s.len() == 0 {
        None
    } else if s[0] == b {
        Some(0)
    } else {
        match find_byte(s.skip(1), b) {
            Some(i) => Some(i + 1),
            None => None,
        }
    }
}

/// What `find_byte` finds is the first occurrence.
pub proof fn lemma_find_byte(s: Seq<u8>, b: u8)
    ensures
        match find_byte(s, b) {
            None => forall|j: int| 0 <= j < s.len() ==> s[j] != b,
            Some(i) => 0 <= i < s.len() && s[i] == b && forall|j: int| 0 <= j < i ==> s[j] != b,
        },
    decreases s.len(),
{
    if s.len() > 0 && s[0] != b {
        lemma_find_byte(s.skip(1), b);
        match find_byte(s.skip(1), b) {
            None => {
                assert forall|j: int| 0 <= j < s.len() implies s[j] != b by {
                    if j > 0 {
                        assert(s.skip(1)[j - 1] == s[j]);
                    }
                }
            },
            Some(i) => {
                assert(s.skip(1)[i] == s[i + 1]);
                assert forall|j: int| 0 <= j < i + 1 implies s[j] != b by {
                    if j > 0 {
                        assert(s.skip(1)[j - 1] == s[j]);
                    }
                }
            },
        }
    }
}

proof fn lemma_find_byte_at(s: Seq<u8>, b: u8, i: int)
    requires
        0 <= i < s.len(),
        s[i] == b,
        forall|j: int| 0 <= j < i ==> s[j] != b,
    ensures
        find_byte(s, b) == Some(i),
{
    lemma_find_byte(s, b);
    match find_byte(s, b) {
        None => {
            assert(false);
        },
        Some(k) => {
            if k < i {
                assert(s[k] != b);
                assert(false);
            }
            if k > i {
                assert(s[i] != b);
                assert(false);
            }
        },
    }
}

proof fn lemma_find_byte_none(s: Seq<u8>, b: u8)
    requires
        forall|j: int| 0 <= j < s.len() ==> s[j] != b,
    ensures
        find_byte(s, b) is None,
{
    lemma_find_byte(s, b);
    match find_byte(s, b) {
        None => {},
        Some(k) => {
            assert(s[k] != b);
            assert(false);
        },
    }
}

/// The bytes of one line: everything before the first line feed, or the
/// whole stream when it ends without one.
pub open spec fn raw_line(s: Seq<u8>) -> Seq<u8> {
    match find_byte(s, 10) {
        Some(i) => s.take(i),
        None => s,
    }
}

/// How many stream bytes reading one line consumes: the line and its line
/// feed, or everything when the stream ends first.
pub open spec fn line_consumed(s: Seq<u8>) -> int {
    match find_byte(s, 10) {
        Some(i) => i + 1,
        None => s.len() as int,
    }
}

/// One trailing carriage return removed.
pub open spec fn strip_cr(l: Seq<u8>) -> Seq<u8> {
    if l.len() > 0 && l.last() == 13 {
        l.drop_last()
    } else {
        l
    }
}

/// Whether reading one line trips a length ceiling of `m` bytes: the bound
/// is checked against the bytes gathered so far before each new byte.
pub open spec fn line_overflows(s: Seq<u8>, max: Option<usize>) -> bool {
    match max {
        None => false,
        Some(m) => match find_byte(s, 10) {
            Some(i) => i >= m,
            None => s.len() > m,
        },
    }
}

/// What reading one line yields.
pub ghost enum SpecLine {
    Line { line: Seq<char>, count: int, rest: Seq<u8> },
    Fail { err: Error },
}

/// The meaning of reading one CRLF- or LF-terminated line from the front of
/// `s` under an optional length ceiling: its decoded text, the byte length
/// of the undecoded line, and the unconsumed rest of the stream.
pub open spec fn spec_read_line(s: Seq<u8>, max: Option<usize>, overflow_error: Error) -> SpecLine {
    if line_overflows(s, max) {
        SpecLine::Fail { err: overflow_error }
    } else if !valid_utf8(strip_cr(raw_line(s))) {
        SpecLine::Fail { err: Error::InvalidUtf8InResponse }
    } else {
        SpecLine::Line {
            line: decode_utf8(strip_cr(raw_line(s))),
            count: strip_cr(raw_line(s)).len() as int,
            rest: s.skip(line_consumed(s)),
        }
    }
}

/// Relies on `String::from_utf8`: succeeds exactly on UTF-8 input and
/// decodes it; the resulting text re-encodes to the given bytes.
#[verifier::external_body]
fn string_from_utf8(bytes: Vec<u8>) -> (r: Option<String>)
    ensures
        r is Some <==> valid_utf8(bytes@),
        r matches Some(s) ==> s@ == decode_utf8(bytes@),
{
    match String::from_utf8(bytes) {
        Ok(s) => Some(s),
        Err(_) => None,
    }
}

/// Reads one line, stripping the terminator, and decodes it as UTF-8; the
/// returned count is the line's length in bytes before decoding. A line
/// longer than `max_len` fails with `overflow_error`, checked before each
/// byte is added.
fn read_line<R: ByteSource>(stream: &mut R, max_len: Option<usize>, overflow_error: Error) -> (r:
    Result<(String, usize), Error>)
    requires
        old(stream).wf(),
        !(overflow_error matches Error::IoError(_)),
    ensures
        final(stream).wf(),
        final(stream).greedy() == old(stream).greedy(),
        final(stream).infallible() == old(stream).infallible(),
        final(stream).stream().len() <= old(stream).stream().len(),
        match r {
            Ok((line, count)) => {
                &&& spec_read_line(old(stream).stream(), max_len, overflow_error)
                    matches SpecLine::Line { line: l, count: c, rest }
                    && l == line@ && c == count as int && rest == final(stream).stream()
            },
            Err(e) => e matches Error::IoError(_) || spec_read_line(
                old(stream).stream(),
                max_len,
                overflow_error,
            ) == (SpecLine::Fail { err: e }),
        },
        old(stream).infallible() ==> !(r matches Err(e) && e matches Error::IoError(_)),
{
    let ghost s0 = old(stream).stream();
    let mut bytes: Vec<u8> = Vec::new();
    loop
        invariant_except_break
            s0 == old(stream).stream(),
            !(overflow_error matches Error::IoError(_)),
            stream.stream().len() <= s0.len(),
            stream.wf(),
            stream.greedy() == old(stream).greedy(),
            stream.infallible() == old(stream).infallible(),
            bytes.len() <= s0.len(),
            bytes@ == s0.take(bytes.len() as int),
            stream.stream() == s0.skip(bytes.len() as int),
            forall|j: int| 0 <= j < bytes.len() ==> s0[j] != 10,
            match max_len {
                Some(m) => bytes.len() <= m,
                None => true,
            },
        ensures
            s0 == old(stream).stream(),
            stream.stream().len() <= s0.len(),
            stream.wf(),
            stream.greedy() == old(stream).greedy(),
            stream.infallible() == old(stream).infallible(),
            !line_overflows(s0, max_len),
            bytes@ == strip_cr(raw_line(s0)),
            stream.stream() == s0.skip(line_consumed(s0)),
        decreases s0.len() - bytes.len(),
    {
        match stream.next_byte() {
            None => {
                proof {
                    lemma_find_byte_none(s0, 10);
                    assert(s0.take(bytes.len() as int) =~= s0);
                    assert(bytes@ == raw_line(s0));
                    assert(bytes.len() == s0.len());
                    if bytes@.len() > 0 && bytes@.last() == 13 {
                        assert(s0[bytes.len() - 1] != 10);
                    }
                }
                if bytes.len() > 0 && bytes[bytes.len() - 1] == 13 {
                    bytes.pop();
                }
                proof {
                    assert(bytes@ == strip_cr(raw_line(s0)));
                }
                break ;
            },
            Some(Err(e)) => {
                return Err(Error::IoError(e));
            },
            Some(Ok(byte)) => {
                match max_len {
                    Some(m) => {
                        if bytes.len() >= m {
                            proof {
                                if byte == 10 {
                                    lemma_find_byte_at(s0, 10, bytes.len() as int);
                                } else {
                                    match find_byte(s0, 10) {
                                        Some(i) => {
                                            lemma_find_byte(s0, 10);
                                            assert(i > bytes.len());
                                        },
                                        None => {
                                            assert(s0.len() > bytes.len());
                                        },
                                    }
                                }
                                assert(line_overflows(s0, max_len));
                            }
                            return Err(overflow_error);
                        }
                    },
                    None => {},
                }
                if byte == 10 {
                    proof {
                        lemma_find_byte_at(s0, 10, bytes.len() as int);
                        assert(s0.take(bytes.len() as int) == raw_line(s0));
                        if bytes@.len() > 0 && bytes@.last() == 13 {
                            assert(s0[bytes.len() - 1] != 10);
                        }
                    }
                    if bytes.len() > 0 && bytes[bytes.len() - 1] == 13 {
                        bytes.pop();
                    }
                    proof {
                        assert(bytes@ == strip_cr(raw_line(s0)));
                    }
                    break ;
                } else {
                    proof {
                        assert(s0.skip(bytes.len() as int)[0] == s0[bytes.len() as int]);
                    }
                    bytes.push(byte);
                    proof {
                        assert(bytes@ =~= s0.take(bytes.len() as int));
                        assert(stream.stream() =~= s0.skip(bytes.len() as int));
                    }
                }
            },
        }
    }
    let count = bytes.len();
    match string_from_utf8(bytes) {
        Some(line) => Ok((line, count)),
        None => Err(Error::InvalidUtf8InResponse),
    }
}


/// How an accumulated header block turns out.
pub ghost enum HeadBlock {
    Block { entries: Seq<(Seq<char>, Seq<char>)>, rest: Seq<u8>, budget: Option<usize> },
    Fail { err: Error },
}

/// The meaning of reading header lines from `s` until a blank line, under an
/// optional byte budget: each line costs its own bytes plus two for the line
/// break, and a line that has no colon is skipped. The budget is checked
/// before it is spent; spending past it is the overflow error.
pub open spec fn spec_header_block(
    s: Seq<u8>,
    budget: Option<usize>,
    acc: Seq<(Seq<char>, Seq<char>)>,
) -> HeadBlock
    decreases s.len(),
{
    match spec_read_line(s, budget, Error::HeadersOverflow) {
        SpecLine::Fail { err } => HeadBlock::Fail { err },
        SpecLine::Line { line, count, rest } => {
            if line.len() == 0 {
                HeadBlock::Block { entries: acc, rest, budget }
            } else {
                let next_budget = match budget {
                    Some(b) => {
                        if count + 2 > b {
                            None
                        } else {
                            Some((b - count - 2) as usize)
                        }
                    },
                    None => None,
                };
                if budget is Some && next_budget is None {
                    HeadBlock::Fail { err: Error::HeadersOverflow }
                } else {
                    let acc2 = match crate::parse::header_parts(line) {
                        Some(kv) => crate::headers::insert_entry(acc, kv.0, kv.1),
                        None => acc,
                    };
                    if rest.len() < s.len() {
                        spec_header_block(rest, next_budget, acc2)
                    } else {
                        HeadBlock::Block { entries: acc2, rest, budget: next_budget }
                    }
                }
            }
        },
    }
}

/// The framing a header list selects: a `transfer-encoding: chunked` entry
/// switches to chunked framing, a `content-length` entry fixes the byte
/// count (a later entry overriding an earlier one), and a `content-length`
/// value that does not parse spoils the whole selection.
pub ghost enum FramingSel {
    Sel { chunked: bool, content_length: Option<int> },
    Bad,
}

pub open spec fn framing_fold(es: Seq<(Seq<char>, Seq<char>)>) -> FramingSel
    decreases es.len(),
{
    if es.len() == 0 {
        FramingSel::Sel { chunked: false, content_length: None }
    } else {
        match framing_fold(es.drop_last()) {
            FramingSel::Bad => FramingSel::Bad,
            FramingSel::Sel { chunked, content_length } => {
                let k = es.last().0;
                let v = es.last().1;
                let chunked2 = chunked || (crate::parse::trim_chars(k) == "transfer-encoding"@
                    && crate::parse::trim_chars(crate::parse::lower_chars(v)) == "chunked"@);
                if crate::parse::trim_chars(k) == "content-length"@ {
                    match crate::parse::parse_uint_spec(
                        crate::parse::trim_chars(v),
                        10,
                        usize::MAX as int,
                    ) {
                        Some(n) => FramingSel::Sel { chunked: chunked2, content_length: Some(n) },
                        None => FramingSel::Bad,
                    }
                } else {
                    FramingSel::Sel { chunked: chunked2, content_length }
                }
            },
        }
    }
}

/// A framing selection gone bad never recovers as more entries are read.
proof fn lemma_framing_fold_bad(es: Seq<(Seq<char>, Seq<char>)>, j: int)
    requires
        0 <= j <= es.len(),
        framing_fold(es.take(j)) == FramingSel::Bad,
    ensures
        framing_fold(es) == FramingSel::Bad,
    decreases es.len() - j,
{
    if j == es.len() {
        assert(es.take(j) =~= es);
    } else {
        assert(es.take(j + 1).drop_last() =~= es.take(j));
        lemma_framing_fold_bad(es, j + 1);
    }
}

/// The body framing of one response, chosen once from its headers.
pub enum HttpStreamState {
    /// No length is known; the body ends when the source closes.
    EndOnClose,
    /// Exactly this many bytes are left to deliver.
    ContentLength(usize),
    /// Chunked transfer encoding: whether more chunks are expected, how much
    /// is left of the current chunk, and how much has been delivered in all.
    Chunked(bool, usize, usize),
}

/// What response metadata means, read from the front of a byte stream.
pub ghost enum MetaOut {
    Meta {
        code: int,
        reason: Seq<char>,
        entries: Seq<(Seq<char>, Seq<char>)>,
        state: HttpStreamState,
        rest: Seq<u8>,
        trailer_budget: Option<usize>,
    },
    Fail { err: Error },
}

/// The meaning of reading a status line and a header block and selecting the
/// body framing: `transfer-encoding: chunked` wins over `content-length`,
/// which wins over reading until the connection closes.
pub open spec fn spec_metadata(
    s: Seq<u8>,
    max_headers_size: Option<usize>,
    max_status_line_len: Option<usize>,
) -> MetaOut {
    match spec_read_line(s, max_status_line_len, Error::StatusLineOverflow) {
        SpecLine::Fail { err } => MetaOut::Fail { err },
        SpecLine::Line { line, count: _, rest } => {
            match spec_header_block(rest, max_headers_size, Seq::empty()) {
                HeadBlock::Fail { err } => MetaOut::Fail { err },
                HeadBlock::Block { entries, rest: rest2, budget } => {
                    match framing_fold(entries) {
                        FramingSel::Bad => MetaOut::Fail { err: Error::MalformedContentLength },
                        FramingSel::Sel { chunked, content_length } => MetaOut::Meta {
                            code: crate::parse::status_code_of(line),
                            reason: crate::parse::reason_of(line),
                            entries,
                            state: if chunked {
                                HttpStreamState::Chunked(true, 0, 0)
                            } else {
                                match content_length {
                                    Some(l) => HttpStreamState::ContentLength(l as usize),
                                    None => HttpStreamState::EndOnClose,
                                }
                            },
                            rest: rest2,
                            trailer_budget: budget,
                        },
                    }
                },
            }
        },
    }
}

/// A header block fails only by overflowing its budget or holding a line
/// that is not UTF-8.
pub proof fn lemma_header_block_error_kinds(
    s: Seq<u8>,
    budget: Option<usize>,
    acc: Seq<(Seq<char>, Seq<char>)>,
)
    ensures
        spec_header_block(s, budget, acc) matches HeadBlock::Fail { err } ==> err
            == Error::HeadersOverflow || err == Error::InvalidUtf8InResponse,
    decreases s.len(),
{
    match spec_read_line(s, budget, Error::HeadersOverflow) {
        SpecLine::Fail { err } => {},
        SpecLine::Line { line, count, rest } => {
            if line.len() != 0 && rest.len() < s.len() {
                let next_budget = match budget {
                    Some(b) => {
                        if count + 2 > b {
                            None
                        } else {
                            Some((b - count - 2) as usize)
                        }
                    },
                    None => None,
                };
                if !(budget is Some && next_budget is None) {
                    match crate::parse::header_parts(line) {
                        Some(kv) => {
                            lemma_header_block_error_kinds(
                                rest,
                                next_budget,
                                crate::headers::insert_entry(acc, kv.0, kv.1),
                            );
                        },
                        None => {
                            lemma_header_block_error_kinds(rest, next_budget, acc);
                        },
                    }
                }
            }
        },
    }
}

/// Reading metadata fails only with the status-line or header overflow
/// errors, a line that is not UTF-8, or a bad `Content-Length` value.
pub proof fn lemma_metadata_error_kinds(
    s: Seq<u8>,
    max_headers_size: Option<usize>,
    max_status_line_len: Option<usize>,
)
    ensures
        spec_metadata(s, max_headers_size, max_status_line_len) matches MetaOut::Fail { err }
            ==> err == Error::StatusLineOverflow || err == Error::HeadersOverflow || err
            == Error::InvalidUtf8InResponse || err == Error::MalformedContentLength,
{
    match spec_read_line(s, max_status_line_len, Error::StatusLineOverflow) {
        SpecLine::Fail { err } => {},
        SpecLine::Line { line, count, rest } => {
            lemma_header_block_error_kinds(rest, max_headers_size, Seq::empty());
        },
    }
}

/// Whether a lazy response's metadata fields are exactly what reading the
/// front of `bytes` under the given ceilings yields.
pub open spec fn from_metadata_of<S: ByteSource>(
    lazy: ResponseLazy<S>,
    bytes: Seq<u8>,
    max_headers_size: Option<usize>,
    max_status_line_len: Option<usize>,
) -> bool {
    spec_metadata(bytes, max_headers_size, max_status_line_len) matches MetaOut::Meta {
        code,
        reason,
        entries,
        state,
        rest,
        trailer_budget,
    } && code == lazy.status_code as int && reason == lazy.reason_phrase@ && entries
        == lazy.headers@ && state == lazy.state_spec() && rest == lazy.stream_bytes()
        && trailer_budget == lazy.trailer_budget()
}

/// Metadata of one response, handed from `read_metadata` to the response
/// constructors.
struct ResponseMetadata {
    status_code: i32,
    reason_phrase: String,
    headers: Headers,
    state: HttpStreamState,
    max_trailing_headers_size: Option<usize>,
}

/// Reads the status line and header block and selects the body framing.
#[verifier::loop_isolation(false)]
fn read_metadata<R: ByteSource>(
    stream: &mut R,
    max_headers_size: Option<usize>,
    max_status_line_len: Option<usize>,
) -> (r: Result<ResponseMetadata, Error>)
    requires
        old(stream).wf(),
    ensures
        final(stream).wf(),
        final(stream).greedy() == old(stream).greedy(),
        final(stream).infallible() == old(stream).infallible(),
        match r {
            Ok(meta) => {
                &&& spec_metadata(old(stream).stream(), max_headers_size, max_status_line_len)
                    matches MetaOut::Meta { code, reason, entries, state, rest, trailer_budget }
                    && code == meta.status_code as int && reason == meta.reason_phrase@ && entries
                    == meta.headers@ && state == meta.state && rest == final(stream).stream()
                    && trailer_budget == meta.max_trailing_headers_size
                &&& meta.headers.wf()
            },
            Err(e) => e matches Error::IoError(_) || spec_metadata(
                old(stream).stream(),
                max_headers_size,
                max_status_line_len,
            ) == (MetaOut::Fail { err: e }),
        },
        old(stream).infallible() ==> !(r matches Err(e) && e matches Error::IoError(_)),
{
    let ghost s0 = old(stream).stream();
    let (status_line, _count) = match read_line(stream, max_status_line_len,
        Error::StatusLineOverflow) {
        Ok(lc) => lc,
        Err(e) => {
            return Err(e);
        },
    };
    let (status_code, reason_phrase) = crate::parse::parse_status_line(status_line.as_str());

    let ghost s1 = stream.stream();
    let mut headers = Headers::new();
    let mut budget: Option<usize> = max_headers_size;
    let mut done = false;
    while !done
        invariant
            stream.wf(),
            stream.greedy() == old(stream).greedy(),
            stream.infallible() == old(stream).infallible(),
            headers.wf(),
            !done ==> spec_header_block(s1, max_headers_size, Seq::empty()) == spec_header_block(
                stream.stream(),
                budget,
                headers@,
            ),
            done ==> spec_header_block(s1, max_headers_size, Seq::empty()) == (HeadBlock::Block {
                entries: headers@,
                rest: stream.stream(),
                budget,
            }),
        decreases stream.stream().len(), (if done {
            0int
        } else {
            1int
        }),
    {
        let ghost pre = stream.stream();
        let ghost pre_budget = budget;
        let ghost pre_headers = headers@;
        let (line, count) = match read_line(stream, budget, Error::HeadersOverflow) {
            Ok(lc) => lc,
            Err(e) => {
                return Err(e);
            },
        };
        if line.as_str().is_empty() {
            proof {
                lemma_find_byte(pre, 10);
                assert(stream.stream().len() <= pre.len());
            }
            done = true;
            continue ;
        }
        proof {
            lemma_find_byte(pre, 10);
            if strip_cr(raw_line(pre)).len() == 0 {
                assert(line@.len() == 0);
            }
            assert(line_consumed(pre) >= 1);
            assert(stream.stream().len() < pre.len());
        }
        match budget {
            Some(b) => {
                if b < count || b - count < 2 {
                    proof {
                        assert(spec_header_block(pre, pre_budget, pre_headers) == (HeadBlock::Fail {
                            err: Error::HeadersOverflow,
                        }));
                    }
                    return Err(Error::HeadersOverflow);
                }
                budget = Some(b - count - 2);
            },
            None => {},
        }
        match crate::parse::parse_header(line) {
            Some((key, value)) => {
                headers.insert(key, value);
            },
            None => {},
        }
        proof {
            assert(spec_header_block(pre, pre_budget, pre_headers) == spec_header_block(
                stream.stream(),
                budget,
                headers@,
            ));
        }
    }

    let mut chunked = false;
    let mut content_length: Option<usize> = None;
    let m = headers.len();
    let mut i: usize = 0;
    while i < m
        invariant
            i <= m,
            m == headers@.len(),
            framing_fold(headers@.take(i as int)) == (FramingSel::Sel {
                chunked,
                content_length: (match content_length {
                    Some(l) => Some(l as int),
                    None => None,
                }),
            }),
        decreases m - i,
    {
        let (k, v) = headers.entry_at(i);
        let kt = crate::parse::trimmed(k.as_str());
        if crate::parse::str_eq(kt.as_str(), "transfer-encoding") {
            let vl = crate::parse::to_lowercase(v.as_str());
            let vt = crate::parse::trimmed(vl.as_str());
            if crate::parse::str_eq(vt.as_str(), "chunked") {
                chunked = true;
            }
        }
        if crate::parse::str_eq(kt.as_str(), "content-length") {
            let vt = crate::parse::trimmed(v.as_str());
            match crate::parse::parse_uint(vt.as_str(), false) {
                Some(l) => {
                    content_length = Some(l);
                },
                None => {
                    proof {
                        assert(headers@.take(i as int + 1).drop_last() =~= headers@.take(i as int));
                        assert(framing_fold(headers@.take(i as int + 1)) == FramingSel::Bad);
                        lemma_framing_fold_bad(headers@, i as int + 1);
                    }
                    return Err(Error::MalformedContentLength);
                },
            }
        }
        proof {
            assert(headers@.take(i as int + 1).drop_last() =~= headers@.take(i as int));
        }
        i += 1;
    }
    proof {
        assert(headers@.take(m as int) =~= headers@);
    }

    let state = if chunked {
        HttpStreamState::Chunked(true, 0, 0)
    } else {
        match content_length {
            Some(length) => HttpStreamState::ContentLength(length),
            None => HttpStreamState::EndOnClose,
        }
    };

    Ok(
        ResponseMetadata {
            status_code,
            reason_phrase,
            headers,
            state,
            max_trailing_headers_size: budget,
        },
    )
}


/// Ceiling for the advisory size estimate handed out with each body byte,
/// bounding caller-side pre-reservation against hostile framing values.
pub const MAX_CONTENT_LENGTH: usize = 16384;

/// The meaning of reading trailer lines: like the header block, but any line
/// that is not a header (a blank line included) ends the block, and the
/// entries extend the headers already parsed.
pub open spec fn spec_trailer_block(
    s: Seq<u8>,
    budget: Option<usize>,
    acc: Seq<(Seq<char>, Seq<char>)>,
) -> HeadBlock
    decreases s.len(),
{
    match spec_read_line(s, budget, Error::HeadersOverflow) {
        SpecLine::Fail { err } => HeadBlock::Fail { err },
        SpecLine::Line { line, count, rest } => {
            let next_budget = match budget {
                Some(b) => {
                    if count + 2 > b {
                        None
                    } else {
                        Some((b - count - 2) as usize)
                    }
                },
                None => None,
            };
            if budget is Some && next_budget is None {
                HeadBlock::Fail { err: Error::HeadersOverflow }
            } else {
                match crate::parse::header_parts(line) {
                    None => HeadBlock::Block { entries: acc, rest, budget: next_budget },
                    Some(kv) => {
                        if rest.len() < s.len() {
                            spec_trailer_block(
                                rest,
                                next_budget,
                                crate::headers::insert_entry(acc, kv.0, kv.1),
                            )
                        } else {
                            HeadBlock::Block {
                                entries: crate::headers::insert_entry(acc, kv.0, kv.1),
                                rest,
                                budget: next_budget,
                            }
                        }
                    },
                }
            }
        },
    }
}

/// The size a chunk-size line names: empty means zero, anything after a
/// semicolon is an ignored extension, and the hexadecimal number is trimmed
/// before parsing.
pub open spec fn spec_chunk_size(line: Seq<char>) -> Option<int> {
    if line.len() == 0 {
        Some(0)
    } else {
        let lstr = match crate::parse::find_char(line, ';') {
            Some(i) => crate::parse::trim_chars(line.take(i)),
            None => crate::parse::trim_chars(line),
        };
        crate::parse::parse_uint_spec(lstr, 16, usize::MAX as int)
    }
}

/// Everything draining a body yields: on success the body bytes, the headers
/// as they stand afterwards (chunked framing edits them), and the unconsumed
/// stream; on failure the error and the bytes delivered before it, so that a
/// failure with an empty prefix means nothing at all is handed out.
pub ghost enum DrainOut {
    Done { body: Seq<u8>, entries: Seq<(Seq<char>, Seq<char>)>, rest: Seq<u8> },
    Fail { prefix: Seq<u8>, err: Error },
}

/// One more leading byte on a drained body, delivered before any failure.
pub open spec fn cons_drain(b: u8, d: DrainOut) -> DrainOut {
    match d {
        DrainOut::Done { body, entries, rest } => DrainOut::Done {
            body: seq![b] + body,
            entries,
            rest,
        },
        DrainOut::Fail { prefix, err } => DrainOut::Fail { prefix: seq![b] + prefix, err },
    }
}

/// The error a drain runs into, if any.
pub open spec fn drain_error(d: DrainOut) -> Option<Error> {
    match d {
        DrainOut::Done { body, entries, rest } => None,
        DrainOut::Fail { prefix, err } => Some(err),
    }
}

/// Whether a drain hands out no byte at all: done with an empty body, or
/// failing before the first byte.
pub open spec fn drain_yields_nothing(d: DrainOut) -> bool {
    match d {
        DrainOut::Done { body, entries, rest } => body.len() == 0,
        DrainOut::Fail { prefix, err } => prefix.len() == 0,
    }
}

/// The whole body a framing state yields from a byte stream, by the rules of
/// section 4.4: close-terminated bodies take the stream whole; fixed-length
/// bodies take exactly the advertised count, or all there is; chunked bodies
/// alternate hexadecimal size lines and chunk data, and the zero-sized chunk
/// parses trailers, records the delivered total as a `content-length` header,
/// and drops `transfer-encoding`. A stream that ends early ends the body.
pub open spec fn spec_drain(
    state: HttpStreamState,
    s: Seq<u8>,
    es: Seq<(Seq<char>, Seq<char>)>,
    tb: Option<usize>,
) -> DrainOut
    decreases s.len(),
{
    match state {
        HttpStreamState::EndOnClose => DrainOut::Done {
            body: s,
            entries: es,
            rest: Seq::empty(),
        },
        HttpStreamState::ContentLength(k) => {
            let n = crate::source::min_int(k as int, s.len() as int);
            DrainOut::Done { body: s.take(n), entries: es, rest: s.skip(n) }
        },
        HttpStreamState::Chunked(expecting, rem, total) => {
            if !expecting && rem == 0 {
                DrainOut::Done { body: Seq::empty(), entries: es, rest: s }
            } else if rem == 0 {
                match spec_read_line(s, Some(1024), Error::MalformedChunkLength) {
                    SpecLine::Fail { err } => DrainOut::Fail { prefix: Seq::empty(), err },
                    SpecLine::Line { line, count: _, rest } => {
                        match spec_chunk_size(line) {
                            None => DrainOut::Fail {
                                prefix: Seq::empty(),
                                err: Error::MalformedChunkLength,
                            },
                            Some(sz) => {
                                if sz == 0 {
                                    match spec_trailer_block(rest, tb, es) {
                                        HeadBlock::Fail { err } => DrainOut::Fail {
                                            prefix: Seq::empty(),
                                            err,
                                        },
                                        HeadBlock::Block { entries, rest: rest2, budget: _ } => {
                                            DrainOut::Done {
                                                body: Seq::empty(),
                                                entries: crate::headers::remove_entry(
                                                    crate::headers::insert_entry(
                                                        entries,
                                                        "content-length"@,
                                                        crate::parse::dec_str(total as int),
                                                    ),
                                                    "transfer-encoding"@,
                                                ),
                                                rest: rest2,
                                            }
                                        },
                                    }
                                } else {
                                    let total2 = if total + sz <= usize::MAX {
                                        (total + sz) as usize
                                    } else {
                                        usize::MAX
                                    };
                                    if rest.len() < s.len() {
                                        spec_drain(
                                            HttpStreamState::Chunked(true, sz as usize, total2),
                                            rest,
                                            es,
                                            tb,
                                        )
                                    } else {
                                        DrainOut::Done { body: Seq::empty(), entries: es, rest }
                                    }
                                }
                            },
                        }
                    },
                }
            } else {
                if s.len() == 0 {
                    DrainOut::Done { body: Seq::empty(), entries: es, rest: s }
                } else {
                    let b = s[0];
                    let rest = s.skip(1);
                    if rem == 1 {
                        match spec_read_line(rest, Some(2), Error::MalformedChunkEnd) {
                            SpecLine::Fail { err } => DrainOut::Fail { prefix: Seq::empty(), err },
                            SpecLine::Line { line: _, count: _, rest: rest2 } => {
                                if rest2.len() < s.len() {
                                    cons_drain(
                                        b,
                                        spec_drain(
                                            HttpStreamState::Chunked(expecting, 0, total),
                                            rest2,
                                            es,
                                            tb,
                                        ),
                                    )
                                } else {
                                    DrainOut::Done { body: seq![b], entries: es, rest: rest2 }
                                }
                            },
                        }
                    } else {
                        cons_drain(
                            b,
                            spec_drain(
                                HttpStreamState::Chunked(expecting, (rem - 1) as usize, total),
                                rest,
                                es,
                                tb,
                            ),
                        )
                    }
                }
            }
        },
    }
}

/// A drain over an empty stream hands out no byte, whatever the state: the
/// body ends (or, for chunked framing with a spent trailer budget, fails)
/// before anything is delivered.
pub proof fn lemma_drain_of_empty(
    state: HttpStreamState,
    s: Seq<u8>,
    es: Seq<(Seq<char>, Seq<char>)>,
    tb: Option<usize>,
)
    requires
        s.len() == 0,
    ensures
        drain_yields_nothing(spec_drain(state, s, es, tb)),
{
    match state {
        HttpStreamState::EndOnClose => {},
        HttpStreamState::ContentLength(k) => {
            assert(s.take(crate::source::min_int(k as int, 0)) =~= Seq::<u8>::empty());
        },
        HttpStreamState::Chunked(expecting, rem, total) => {
            if expecting || rem > 0 {
                if rem == 0 {
                    lemma_find_byte(s, 10);
                    assert(raw_line(s) =~= Seq::<u8>::empty());
                    assert(strip_cr(raw_line(s)) =~= Seq::<u8>::empty());
                    assert(spec_read_line(s, Some(1024), Error::MalformedChunkLength)
                        == (SpecLine::Line {
                        line: decode_utf8(Seq::<u8>::empty()),
                        count: 0,
                        rest: s.skip(0),
                    }));
                    assert(decode_utf8(Seq::<u8>::empty()).len() == 0);
                    assert(spec_chunk_size(decode_utf8(Seq::<u8>::empty())) == Some(0int));
                    let rest = s.skip(0);
                    assert(rest.len() == 0);
                    assert(raw_line(rest) =~= Seq::<u8>::empty()) by {
                        lemma_find_byte(rest, 10);
                    }
                    assert(strip_cr(raw_line(rest)) =~= Seq::<u8>::empty());
                    match spec_read_line(rest, tb, Error::HeadersOverflow) {
                        SpecLine::Fail { err } => {},
                        SpecLine::Line { line, count, rest: rest2 } => {
                            assert(line.len() == 0);
                            assert(crate::parse::header_parts(line) is None) by {
                                crate::parse::lemma_find_char(line, ':');
                                match crate::parse::find_char(line, ':') {
                                    None => {},
                                    Some(i) => {
                                        assert(false);
                                    },
                                }
                            }
                        },
                    }
                }
            }
        },
    }
}

/// Pulls one body byte where the body simply runs until the source closes.
fn read_until_closed<R: ByteSource>(bytes: &mut R) -> (r: Option<Result<(u8, usize), Error>>)
    requires
        old(bytes).wf(),
    ensures
        final(bytes).wf(),
        final(bytes).greedy() == old(bytes).greedy(),
        final(bytes).infallible() == old(bytes).infallible(),
        match r {
            None => old(bytes).stream().len() == 0 && final(bytes).stream() == old(bytes).stream(),
            Some(Ok((b, est))) => old(bytes).stream().len() > 0 && b == old(bytes).stream()[0]
                && final(bytes).stream() == old(bytes).stream().skip(1) && est == 1,
            Some(Err(e)) => e matches Error::IoError(_),
        },
        old(bytes).infallible() ==> !(r matches Some(Err(_))),
{
    match bytes.next_byte() {
        Some(Ok(byte)) => Some(Ok((byte, 1))),
        Some(Err(err)) => Some(Err(Error::IoError(err))),
        None => None,
    }
}

/// Pulls one body byte of a fixed-length body, counting `content_length`
/// down and estimating what is left, capped at `MAX_CONTENT_LENGTH`.
fn read_with_content_length<R: ByteSource>(bytes: &mut R, content_length: &mut usize) -> (r: Option<
    Result<(u8, usize), Error>,
>)
    requires
        old(bytes).wf(),
    ensures
        final(bytes).wf(),
        final(bytes).greedy() == old(bytes).greedy(),
        final(bytes).infallible() == old(bytes).infallible(),
        match r {
            None => {
                &&& (*old(content_length) == 0 || old(bytes).stream().len() == 0)
                &&& final(bytes).stream() == old(bytes).stream()
                &&& *final(content_length) == (if *old(content_length) == 0 {
                    0int
                } else {
                    *old(content_length) - 1
                })
            },
            Some(Ok((b, est))) => *old(content_length) > 0 && old(bytes).stream().len() > 0 && b
                == old(bytes).stream()[0] && final(bytes).stream() == old(bytes).stream().skip(1)
                && *final(content_length) == *old(content_length) - 1 && est as int
                == crate::source::min_int(*final(content_length) as int, 16383) + 1,
            Some(Err(e)) => e matches Error::IoError(_),
        },
        old(bytes).infallible() ==> !(r matches Some(Err(_))),
{
    if *content_length > 0 {
        *content_length -= 1;
        match bytes.next_byte() {
            Some(Ok(byte)) => {
                let est = if *content_length < MAX_CONTENT_LENGTH - 1 {
                    *content_length + 1
                } else {
                    MAX_CONTENT_LENGTH
                };
                return Some(Ok((byte, est)));
            },
            Some(Err(err)) => {
                return Some(Err(Error::IoError(err)));
            },
            None => {
                return None;
            },
        }
    }
    None
}

/// Reads trailer headers after the final chunk into the header set, spending
/// whatever header budget is left.
fn read_trailers<R: ByteSource>(
    bytes: &mut R,
    headers: &mut Headers,
    max_headers_size: Option<usize>,
) -> (r: Result<(), Error>)
    requires
        old(bytes).wf(),
        old(headers).wf(),
    ensures
        final(bytes).wf(),
        final(bytes).greedy() == old(bytes).greedy(),
        final(bytes).infallible() == old(bytes).infallible(),
        final(headers).wf(),
        final(bytes).stream().len() <= old(bytes).stream().len(),
        match r {
            Ok(()) => spec_trailer_block(old(bytes).stream(), max_headers_size, old(headers)@)
                matches HeadBlock::Block { entries, rest, budget: _ } && entries == final(headers)@
                && rest == final(bytes).stream(),
            Err(e) => e matches Error::IoError(_) || spec_trailer_block(
                old(bytes).stream(),
                max_headers_size,
                old(headers)@,
            ) == (HeadBlock::Fail { err: e }),
        },
        old(bytes).infallible() ==> !(r matches Err(e) && e matches Error::IoError(_)),
{
    let ghost s0 = old(bytes).stream();
    let ghost tb0 = max_headers_size;
    let mut budget = max_headers_size;
    let mut done = false;
    while !done
        invariant
            s0 == old(bytes).stream(),
            tb0 == max_headers_size,
            bytes.stream().len() <= s0.len(),
            bytes.wf(),
            bytes.greedy() == old(bytes).greedy(),
            bytes.infallible() == old(bytes).infallible(),
            headers.wf(),
            !done ==> spec_trailer_block(s0, tb0, old(headers)@) == spec_trailer_block(
                bytes.stream(),
                budget,
                headers@,
            ),
            done ==> (spec_trailer_block(s0, tb0, old(headers)@) matches HeadBlock::Block {
                entries,
                rest,
                budget: _,
            } && entries == headers@ && rest == bytes.stream()),
        decreases bytes.stream().len(), (if done {
            0int
        } else {
            1int
        }),
    {
        let ghost pre = bytes.stream();
        let ghost pre_budget = budget;
        let ghost pre_headers = headers@;
        let (line, count) = match read_line(bytes, budget, Error::HeadersOverflow) {
            Ok(lc) => lc,
            Err(e) => {
                return Err(e);
            },
        };
        proof {
            lemma_find_byte(pre, 10);
        }
        match budget {
            Some(b) => {
                if b < count || b - count < 2 {
                    proof {
                        assert(spec_trailer_block(pre, pre_budget, pre_headers) == (HeadBlock::Fail {
                            err: Error::HeadersOverflow,
                        }));
                    }
                    return Err(Error::HeadersOverflow);
                }
                budget = Some(b - count - 2);
            },
            None => {},
        }
        match crate::parse::parse_header(line) {
            Some((key, value)) => {
                proof {
                    crate::parse::lemma_find_char(line@, ':');
                    assert(line@.len() > 0);
                    if strip_cr(raw_line(pre)).len() == 0 {
                        assert(line@.len() == 0);
                    }
                    assert(line_consumed(pre) >= 1);
                    assert(bytes.stream().len() < pre.len());
                }
                headers.insert(key, value);
                proof {
                    assert(spec_trailer_block(pre, pre_budget, pre_headers) == spec_trailer_block(
                        bytes.stream(),
                        budget,
                        headers@,
                    ));
                }
            },
            None => {
                proof {
                    assert(bytes.stream().len() <= pre.len());
                    assert(spec_trailer_block(pre, pre_budget, pre_headers) == (HeadBlock::Block {
                        entries: headers@,
                        rest: bytes.stream(),
                        budget,
                    }));
                }
                done = true;
            },
        }
    }
    Ok(())
}


/// Pulls one body byte of a chunked body: starts a new chunk at a hex size
/// line when the current one is spent, ends the body at the zero-sized
/// chunk (parsing trailers, recording the delivered total as a
/// `content-length` header and dropping `transfer-encoding`), and checks the
/// two-byte line closing each chunk.
fn read_chunked<R: ByteSource>(
    bytes: &mut R,
    headers: &mut Headers,
    expecting_more_chunks: &mut bool,
    chunk_length: &mut usize,
    content_length: &mut usize,
    max_trailing_headers_size: Option<usize>,
) -> (r: Option<Result<(u8, usize), Error>>)
    requires
        old(bytes).wf(),
        old(headers).wf(),
    ensures
        final(bytes).wf(),
        final(bytes).greedy() == old(bytes).greedy(),
        final(bytes).infallible() == old(bytes).infallible(),
        final(headers).wf(),
        ({
            let st0 = HttpStreamState::Chunked(
                *old(expecting_more_chunks),
                *old(chunk_length),
                *old(content_length),
            );
            let st1 = HttpStreamState::Chunked(
                *final(expecting_more_chunks),
                *final(chunk_length),
                *final(content_length),
            );
            match r {
                None => {
                    &&& final(bytes).stream().len() <= old(bytes).stream().len()
                    &&& spec_drain(
                        st0,
                        old(bytes).stream(),
                        old(headers)@,
                        max_trailing_headers_size,
                    ) == (DrainOut::Done {
                        body: Seq::<u8>::empty(),
                        entries: final(headers)@,
                        rest: final(bytes).stream(),
                    })
                    &&& drain_yields_nothing(
                        spec_drain(
                            st1,
                            final(bytes).stream(),
                            final(headers)@,
                            max_trailing_headers_size,
                        ),
                    )
                },
                Some(Ok((b, est))) => {
                    &&& spec_drain(
                        st0,
                        old(bytes).stream(),
                        old(headers)@,
                        max_trailing_headers_size,
                    ) == cons_drain(
                        b,
                        spec_drain(
                            st1,
                            final(bytes).stream(),
                            final(headers)@,
                            max_trailing_headers_size,
                        ),
                    )
                    &&& final(bytes).stream().len() < old(bytes).stream().len()
                    &&& final(headers)@ == old(headers)@
                    &&& *final(expecting_more_chunks) == *old(expecting_more_chunks)
                    &&& *final(content_length) >= *old(content_length)
                    &&& 1 <= est <= 16384
                },
                Some(Err(e)) => e matches Error::IoError(_) || spec_drain(
                    st0,
                    old(bytes).stream(),
                    old(headers)@,
                    max_trailing_headers_size,
                ) == (DrainOut::Fail { prefix: Seq::empty(), err: e }),
            }
        }),
        old(bytes).infallible() ==> !(r matches Some(Err(e)) && e matches Error::IoError(_)),
{
    let ghost st0 = HttpStreamState::Chunked(
        *expecting_more_chunks,
        *chunk_length,
        *content_length,
    );
    let ghost s0 = bytes.stream();
    let ghost es0 = headers@;
    if !*expecting_more_chunks && *chunk_length == 0 {
        proof {
            assert(spec_drain(st0, s0, es0, max_trailing_headers_size) == (DrainOut::Done {
                body: Seq::<u8>::empty(),
                entries: es0,
                rest: s0,
            }));
        }
        return None;
    }
    if *chunk_length == 0 {
        let (length_line, _count) = match read_line(bytes, Some(1024), Error::MalformedChunkLength) {
            Ok(lc) => lc,
            Err(err) => {
                return Some(Err(err));
            },
        };
        proof {
            lemma_find_byte(s0, 10);
        }

        let incoming_length: usize;
        if length_line.as_str().is_empty() {
            incoming_length = 0;
        } else {
            let n = length_line.as_str().unicode_len();
            let end: usize = match crate::parse::find_from(length_line.as_str(), 0, ';') {
                Some(i) => i,
                None => n,
            };
            let prefix = length_line.as_str().substring_char(0, end);
            let number = crate::parse::trimmed(prefix);
            proof {
                match crate::parse::find_char(length_line@, ';') {
                    Some(i) => {
                        assert(prefix@ =~= length_line@.take(i));
                    },
                    None => {
                        assert(prefix@ =~= length_line@);
                    },
                }
            }
            match crate::parse::parse_uint(number.as_str(), true) {
                Some(length) => {
                    incoming_length = length;
                },
                None => {
                    return Some(Err(Error::MalformedChunkLength));
                },
            }
        }

        if incoming_length == 0 {
            if let Err(err) = read_trailers(bytes, headers, max_trailing_headers_size) {
                return Some(Err(err));
            }
            *expecting_more_chunks = false;
            let total = crate::parse::usize_to_string(*content_length);
            headers.insert("content-length".to_owned(), total);
            headers.remove("transfer-encoding");
            proof {
                assert(spec_drain(
                    HttpStreamState::Chunked(false, 0, *content_length),
                    bytes.stream(),
                    headers@,
                    max_trailing_headers_size,
                ) == (DrainOut::Done {
                    body: Seq::<u8>::empty(),
                    entries: headers@,
                    rest: bytes.stream(),
                }));
            }
            return None;
        }
        proof {
            if strip_cr(raw_line(s0)).len() == 0 {
                assert(spec_chunk_size(decode_utf8(strip_cr(raw_line(s0)))) == Some(0int));
            }
            assert(line_consumed(s0) >= 1);
            assert(bytes.stream().len() < s0.len());
        }
        *chunk_length = incoming_length;
        *content_length = if *content_length <= usize::MAX - incoming_length {
            *content_length + incoming_length
        } else {
            usize::MAX
        };
        proof {
            assert(spec_drain(st0, s0, es0, max_trailing_headers_size) == spec_drain(
                HttpStreamState::Chunked(true, *chunk_length, *content_length),
                bytes.stream(),
                headers@,
                max_trailing_headers_size,
            ));
        }
    }

    let ghost st_mid = HttpStreamState::Chunked(
        *expecting_more_chunks,
        *chunk_length,
        *content_length,
    );
    let ghost s_mid = bytes.stream();
    if *chunk_length > 0 {
        *chunk_length -= 1;
        match bytes.next_byte() {
            Some(Ok(byte)) => {
                if *chunk_length == 0 {
                    if let Err(err) = read_line(bytes, Some(2), Error::MalformedChunkEnd) {
                        return Some(Err(err));
                    }
                    proof {
                        lemma_find_byte(s_mid.skip(1), 10);
                        assert(bytes.stream().len() < s_mid.len());
                    }
                } else {
                    proof {
                        assert(bytes.stream() == s_mid.skip(1));
                    }
                }
                let est = if *chunk_length < MAX_CONTENT_LENGTH - 1 {
                    *chunk_length + 1
                } else {
                    MAX_CONTENT_LENGTH
                };
                return Some(Ok((byte, est)));
            },
            Some(Err(err)) => {
                return Some(Err(Error::IoError(err)));
            },
            None => {
                proof {
                    lemma_drain_of_empty(
                        HttpStreamState::Chunked(
                            *expecting_more_chunks,
                            *chunk_length,
                            *content_length,
                        ),
                        bytes.stream(),
                        headers@,
                        max_trailing_headers_size,
                    );
                }
                return None;
            },
        }
    }
    proof {
        assert(false);
    }
    None
}


/// Capacity of the buffered reader wrapped around the transport.
pub const BACKING_READ_BUFFER_LENGTH: usize = 16384;

/// A body prefix prepended to a drained body.
pub open spec fn cons_drain_seq(bs: Seq<u8>, d: DrainOut) -> DrainOut {
    match d {
        DrainOut::Done { body, entries, rest } => DrainOut::Done { body: bs + body, entries, rest },
        DrainOut::Fail { prefix, err } => DrainOut::Fail { prefix: bs + prefix, err },
    }
}

/// An HTTP response whose body bytes are only read as they are pulled, one
/// at a time, each with an advisory estimate of how many are left (capped at
/// `MAX_CONTENT_LENGTH`, and never authoritative).
pub struct ResponseLazy<R: ByteSource> {
    /// The status code of the response, eg. 404.
    pub status_code: i32,
    /// The reason phrase of the response, eg. "Not Found".
    pub reason_phrase: String,
    /// The headers of the response; field names are all lowercase.
    pub headers: Headers,
    /// The URL of the resource this response came from.
    pub url: String,
    /// The transport the body is still to be pulled from.
    pub stream: R,
    /// The framing state, selected once from the headers.
    pub state: HttpStreamState,
    /// What is left of the header budget, spent on trailer headers.
    pub max_trailing_headers_size: Option<usize>,
}

impl<R: ByteSource> ResponseLazy<R> {
    pub open spec fn stream_bytes(&self) -> Seq<u8> {
        self.stream.stream()
    }

    pub open spec fn stream_wf(&self) -> bool {
        self.stream.wf()
    }

    pub open spec fn stream_infallible(&self) -> bool {
        self.stream.infallible()
    }

    pub open spec fn state_spec(&self) -> HttpStreamState {
        self.state
    }

    pub open spec fn trailer_budget(&self) -> Option<usize> {
        self.max_trailing_headers_size
    }

    pub open spec fn wf(&self) -> bool {
        self.stream_wf() && self.headers.wf()
    }

    /// What draining the rest of this body must yield.
    pub open spec fn drain(&self) -> DrainOut {
        spec_drain(self.state_spec(), self.stream_bytes(), self.headers@, self.trailer_budget())
    }

    /// Wraps a byte source in a buffered reader, reads the response metadata
    /// from it, and selects the body framing; the body itself is not pulled.
    pub fn from_stream(
        stream: R,
        max_headers_size: Option<usize>,
        max_status_line_len: Option<usize>,
    ) -> (r: Result<ResponseLazy<BufReader<R>>, Error>)
        requires
            stream.wf(),
        ensures
            match r {
                Ok(lazy) => {
                    &&& spec_metadata(stream.stream(), max_headers_size, max_status_line_len)
                        matches MetaOut::Meta { code, reason, entries, state, rest, trailer_budget }
                        && code == lazy.status_code as int && reason == lazy.reason_phrase@
                        && entries == lazy.headers@ && state == lazy.state_spec() && rest
                        == lazy.stream_bytes() && trailer_budget == lazy.trailer_budget()
                    &&& lazy.url@ == Seq::<char>::empty()
                    &&& lazy.wf()
                    &&& (stream.infallible() ==> lazy.stream_infallible())
                },
                Err(e) => e matches Error::IoError(_) || spec_metadata(
                    stream.stream(),
                    max_headers_size,
                    max_status_line_len,
                ) == (MetaOut::Fail { err: e }),
            },
            stream.infallible() ==> !(r matches Err(e) && e matches Error::IoError(_)),
    {
        let mut stream = BufReader::with_capacity(BACKING_READ_BUFFER_LENGTH, stream);
        match read_metadata(&mut stream, max_headers_size, max_status_line_len) {
            Ok(meta) => {
                let ResponseMetadata {
                    status_code,
                    reason_phrase,
                    headers,
                    state,
                    max_trailing_headers_size,
                } = meta;
                Ok(
                    ResponseLazy {
                        status_code,
                        reason_phrase,
                        headers,
                        url: String::new(),
                        stream,
                        state,
                        max_trailing_headers_size,
                    },
                )
            },
            Err(e) => Err(e),
        }
    }

    /// Pulls the next body byte together with an advisory estimate of how
    /// many bytes are left, `MAX_CONTENT_LENGTH` at most; `None` is the end
    /// of the body.
    pub fn next(&mut self) -> (r: Option<Result<(u8, usize), Error>>)
        requires
            old(self).wf(),
        ensures
            final(self).wf(),
            final(self).stream_infallible() == old(self).stream_infallible(),
            final(self).status_code == old(self).status_code,
            final(self).reason_phrase == old(self).reason_phrase,
            final(self).url == old(self).url,
            match r {
                None => {
                    &&& final(self).stream_bytes().len() <= old(self).stream_bytes().len()
                    &&& old(self).drain() == (DrainOut::Done {
                        body: Seq::<u8>::empty(),
                        entries: final(self).headers@,
                        rest: final(self).stream_bytes(),
                    })
                    &&& drain_yields_nothing(final(self).drain())
                },
                Some(Ok((b, est))) => {
                    &&& old(self).drain() == cons_drain(b, final(self).drain())
                    &&& final(self).stream_bytes().len() < old(self).stream_bytes().len()
                    &&& final(self).headers@ == old(self).headers@
                    &&& 1 <= est <= 16384
                },
                Some(Err(e)) => e matches Error::IoError(_) || old(self).drain() == (DrainOut::Fail {
                    prefix: Seq::empty(),
                    err: e,
                }),
            },
            old(self).stream_infallible() ==> !(r matches Some(Err(e)) && e matches Error::IoError(
                _,
            )),
            match old(self).state_spec() {
                HttpStreamState::EndOnClose => final(self).state_spec() is EndOnClose,
                HttpStreamState::ContentLength(_) => final(self).state_spec() is ContentLength,
                HttpStreamState::Chunked(_, _, _) => final(self).state_spec() is Chunked,
            },
            !(old(self).state_spec() matches HttpStreamState::Chunked(_, _, _))
                ==> final(self).headers == old(self).headers,
    {
        match self.state {
            HttpStreamState::EndOnClose => {
                let r = read_until_closed(&mut self.stream);
                proof {
                    match r {
                        None => {
                            assert(old(self).drain() == (DrainOut::Done {
                                body: Seq::<u8>::empty(),
                                entries: self.headers@,
                                rest: self.stream.stream(),
                            })) by {
                                assert(old(self).stream_bytes() =~= Seq::<u8>::empty());
                            }
                            lemma_drain_of_empty(
                                self.state,
                                self.stream.stream(),
                                self.headers@,
                                self.max_trailing_headers_size,
                            );
                        },
                        Some(Ok((b, est))) => {
                            assert(old(self).stream_bytes() =~= seq![b]
                                + self.stream.stream());
                            assert(old(self).drain() == cons_drain(b, self.drain()));
                        },
                        Some(Err(e)) => {},
                    }
                }
                r
            },
            HttpStreamState::ContentLength(length) => {
                let mut length = length;
                let ghost k = length;
                let r = read_with_content_length(&mut self.stream, &mut length);
                self.state = HttpStreamState::ContentLength(length);
                proof {
                    let s = old(self).stream_bytes();
                    match r {
                        None => {
                            let n = crate::source::min_int(k as int, s.len() as int);
                            assert(n == 0);
                            assert(s.take(0) =~= Seq::<u8>::empty());
                            assert(s.skip(0) =~= s);
                            let n2 = crate::source::min_int(length as int, s.len() as int);
                            assert(n2 == 0);
                            assert(s.take(0) =~= Seq::<u8>::empty());
                            assert(drain_yields_nothing(self.drain()));
                        },
                        Some(Ok((b, est))) => {
                            let n = crate::source::min_int(k as int, s.len() as int);
                            let n2 = crate::source::min_int(
                                length as int,
                                s.skip(1).len() as int,
                            );
                            assert(s.take(n) =~= seq![b] + s.skip(1).take(n2));
                            assert(s.skip(n) =~= s.skip(1).skip(n2));
                            assert(old(self).drain() == cons_drain(b, self.drain()));
                        },
                        Some(Err(e)) => {},
                    }
                }
                r
            },
            HttpStreamState::Chunked(expecting, len, total) => {
                let mut expecting = expecting;
                let mut len = len;
                let mut total = total;
                let r = read_chunked(
                    &mut self.stream,
                    &mut self.headers,
                    &mut expecting,
                    &mut len,
                    &mut total,
                    self.max_trailing_headers_size,
                );
                self.state = HttpStreamState::Chunked(expecting, len, total);
                r
            },
        }
    }
    /// Fills a buffer with up to `max` body bytes, pulling them one at a
    /// time; fewer than `max` come back only once the body has ended.
    #[verifier::loop_isolation(false)]
    pub fn read(&mut self, max: usize) -> (r: Result<Vec<u8>, Error>)
        requires
            old(self).wf(),
        ensures
            final(self).wf(),
            final(self).stream_infallible() == old(self).stream_infallible(),
            final(self).status_code == old(self).status_code,
            final(self).reason_phrase == old(self).reason_phrase,
            final(self).url == old(self).url,
            match r {
                Ok(v) => {
                    &&& v.len() <= max
                    &&& (v.len() == max ==> old(self).drain() == cons_drain_seq(
                        v@,
                        final(self).drain(),
                    ))
                    &&& (v.len() < max ==> old(self).drain() == (DrainOut::Done {
                        body: v@,
                        entries: final(self).headers@,
                        rest: final(self).stream_bytes(),
                    }))
                },
                Err(e) => e matches Error::IoError(_) || drain_error(old(self).drain()) == Some(
                    e,
                ),
            },
            old(self).stream_infallible() ==> !(r matches Err(e) && e matches Error::IoError(_)),
    {
        let ghost p0 = *self;
        let mut out: Vec<u8> = Vec::new();
        if max == 0 {
            proof {
                assert(p0.drain() == cons_drain_seq(out@, self.drain())) by {
                    match self.drain() {
                        DrainOut::Done { body, entries, rest } => {
                            assert(Seq::<u8>::empty() + body =~= body);
                        },
                        DrainOut::Fail { prefix, err } => {},
                    }
                }
            }
            return Ok(out);
        }
        let mut done = false;
        while !done
            invariant
                self.wf(),
                self.stream_infallible() == p0.stream_infallible(),
                self.status_code == p0.status_code,
                self.reason_phrase == p0.reason_phrase,
                self.url == p0.url,
                out.len() <= max,
                !done ==> out.len() < max && p0.drain() == cons_drain_seq(out@, self.drain()),
                done ==> (if out.len() == max {
                    p0.drain() == cons_drain_seq(out@, self.drain())
                } else {
                    p0.drain() == (DrainOut::Done {
                        body: out@,
                        entries: self.headers@,
                        rest: self.stream_bytes(),
                    })
                }),
            decreases self.stream_bytes().len(), (if done {
                0int
            } else {
                1int
            }),
        {
            let ghost pre = *self;
            let ghost out0 = out@;
            match self.next() {
                Some(Ok((byte, _length))) => {
                    out.push(byte);
                    proof {
                        match self.drain() {
                            DrainOut::Done { body: b2, entries, rest } => {
                                assert(out0 + (seq![byte] + b2) =~= out@ + b2);
                            },
                            DrainOut::Fail { prefix, err } => {
                                assert(out0 + (seq![byte] + prefix) =~= out@ + prefix);
                            },
                        }
                        assert(p0.drain() == cons_drain_seq(out@, self.drain()));
                    }
                    if out.len() >= max {
                        done = true;
                    }
                },
                Some(Err(err)) => {
                    proof {
                        assert(p0.drain() == cons_drain_seq(out0, pre.drain()));
                        if !(err matches Error::IoError(_)) {
                            assert(pre.drain() == (DrainOut::Fail {
                                prefix: Seq::empty(),
                                err,
                            }));
                            assert(drain_error(p0.drain()) == Some(err));
                        }
                    }
                    return Err(err);
                },
                None => {
                    proof {
                        assert(pre.drain() == (DrainOut::Done {
                            body: Seq::<u8>::empty(),
                            entries: self.headers@,
                            rest: self.stream_bytes(),
                        }));
                        assert(out@ + Seq::<u8>::empty() =~= out@);
                        assert(p0.drain() == (DrainOut::Done {
                            body: out@,
                            entries: self.headers@,
                            rest: self.stream_bytes(),
                        }));
                    }
                    done = true;
                },
            }
        }
        Ok(out)
    }
}

/// A fully materialized HTTP response.
pub struct Response {
    /// The status code of the response, eg. 404.
    pub status_code: i32,
    /// The reason phrase of the response, eg. "Not Found".
    pub reason_phrase: String,
    /// The headers of the response; field names are all lowercase.
    pub headers: Headers,
    /// The URL of the resource this response came from, after redirects.
    pub url: String,
    /// The materialized body.
    pub body: Vec<u8>,
}

impl Response {
    /// The bytes of the materialized body.
    pub open spec fn body_bytes(&self) -> Seq<u8> {
        self.body@
    }

    /// Drains a lazy response into a materialized one. A HEAD request's
    /// response, and any response with status 204 or 304, never carries a
    /// body, whatever its framing headers claim: the body is left empty and
    /// the stream untouched.
    #[verifier::loop_isolation(false)]
    pub fn create<R: ByteSource>(parent: ResponseLazy<R>, is_head: bool) -> (r: Result<
        Response,
        Error,
    >)
        requires
            parent.wf(),
        ensures
            match r {
                Ok(resp) => {
                    &&& resp.status_code == parent.status_code
                    &&& resp.reason_phrase == parent.reason_phrase
                    &&& resp.url == parent.url
                    &&& if is_head || parent.status_code == 204 || parent.status_code == 304 {
                        resp.body_bytes() == Seq::<u8>::empty() && resp.headers@ == parent.headers@
                    } else {
                        parent.drain() matches DrainOut::Done { body, entries, rest } && body
                            == resp.body_bytes() && entries == resp.headers@
                    }
                },
                Err(e) => e matches Error::IoError(_) || (!(is_head || parent.status_code == 204
                    || parent.status_code == 304) && drain_error(parent.drain()) == Some(e)),
            },
            (is_head || parent.status_code == 204 || parent.status_code == 304) ==> r is Ok,
            parent.stream_infallible() ==> !(r matches Err(e) && e matches Error::IoError(_)),
    {
        let mut parent = parent;
        let ghost p0 = parent;
        let mut body: Vec<u8> = Vec::new();
        if !is_head && parent.status_code != 204 && parent.status_code != 304 {
            let mut done = false;
            while !done
                invariant
                    parent.wf(),
                    parent.stream_infallible() == p0.stream_infallible(),
                    parent.status_code == p0.status_code,
                    parent.reason_phrase == p0.reason_phrase,
                    parent.url == p0.url,
                    !done ==> p0.drain() == cons_drain_seq(body@, parent.drain()),
                    done ==> p0.drain() == (DrainOut::Done {
                        body: body@,
                        entries: parent.headers@,
                        rest: parent.stream_bytes(),
                    }),
                decreases parent.stream_bytes().len(), (if done {
                    0int
                } else {
                    1int
                }),
            {
                let ghost pre = parent;
                let ghost body0 = body@;
                match parent.next() {
                    Some(Ok((byte, _length))) => {
                        body.push(byte);
                        proof {
                            assert(p0.drain() == cons_drain_seq(body0, pre.drain()));
                            assert(pre.drain() == cons_drain(byte, parent.drain()));
                            match parent.drain() {
                                DrainOut::Done { body: b2, entries, rest } => {
                                    assert(cons_drain(byte, parent.drain()) == (DrainOut::Done {
                                        body: seq![byte] + b2,
                                        entries,
                                        rest,
                                    }));
                                    assert(body0 + (seq![byte] + b2) =~= body@ + b2);
                                },
                                DrainOut::Fail { prefix, err } => {
                                    assert(body0 + (seq![byte] + prefix) =~= body@ + prefix);
                                },
                            }
                            assert(p0.drain() == cons_drain_seq(body@, parent.drain()));
                        }
                    },
                    Some(Err(err)) => {
                        return Err(err);
                    },
                    None => {
                        proof {
                            match p0.drain() {
                                DrainOut::Done { body: b2, entries, rest } => {
                                    assert(body@ + Seq::<u8>::empty() =~= body@);
                                },
                                DrainOut::Fail { prefix, err } => {},
                            }
                        }
                        done = true;
                    },
                }
            }
        }

        let ResponseLazy { status_code, reason_phrase, headers, url, .. } = parent;

        Ok(Response { status_code, reason_phrase, headers, url, body })
    }

    /// Relies on `str::from_utf8`: succeeds exactly on UTF-8 input and
    /// decodes it.
    #[verifier::external_body]
    fn str_from_utf8(v: &[u8]) -> (r: Option<&str>)
        ensures
            r is Some <==> valid_utf8(v@),
            r matches Some(s) ==> s@ == decode_utf8(v@),
    {
        match core::str::from_utf8(v) {
            Ok(s) => Some(s),
            Err(_) => None,
        }
    }

    /// The body as text, where it is valid UTF-8.
    pub fn as_str(&self) -> (r: Result<&str, Error>)
        ensures
            match r {
                Ok(s) => valid_utf8(self.body_bytes()) && s@ == decode_utf8(self.body_bytes()),
                Err(e) => !valid_utf8(self.body_bytes()) && e == Error::InvalidUtf8InBody,
            },
    {
        match Self::str_from_utf8(self.body.as_slice()) {
            Some(s) => Ok(s),
            None => Err(Error::InvalidUtf8InBody),
        }
    }

    /// The contained bytes of the body.
    pub fn as_bytes(&self) -> (r: &[u8])
        ensures
            r@ == self.body_bytes(),
    {
        self.body.as_slice()
    }

    /// The bytes that make up the body, consuming the response.
    pub fn into_bytes(self) -> (r: Vec<u8>)
        ensures
            r@ == self.body_bytes(),
    {
        self.body
    }
}

} // verus!
