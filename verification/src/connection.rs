//! Sending requests and following redirects: the target URL model, the
//! per-status redirect decision, host-name conversion to ASCII, and the
//! connection loop over an abstract transport.

use vstd::prelude::*;
use vstd::string::StrSliceExecFns;
use vstd::string::StringExecFns;
use vstd::utf8::is_ascii_chars;

use crate::Error;
use crate::buf_reader::BufReader;
use crate::parse::dec_str;
use crate::parse::find_char;
use crate::parse::parse_uint_spec;
use crate::headers::lookup;
use crate::response::from_metadata_of;
use crate::response::spec_metadata;
use crate::response::MetaOut;
use crate::response::ResponseLazy;
use crate::source::ByteSource;
use crate::source::MemSource;
use crate::source::TransportError;

verus! {

/// An HTTP request method.
#[derive(Clone, Copy, PartialEq, Eq, Structural, Debug)]
pub enum Method {
    Get,
    Head,
    Post,
    Put,
    Delete,
    Options,
    Patch,
    Trace,
}

/// The mathematical shape of a URL: scheme, host, port and resource.
pub ghost struct UrlSpec {
    pub https: bool,
    pub host: Seq<char>,
    pub port: u16,
    pub resource: Seq<char>,
}

/// A request target: scheme, host, port, and the resource (path and query).
pub struct Url {
    /// Whether the scheme is `https` rather than `http`.
    pub https: bool,
    /// The host name.
    pub host: String,
    /// The port.
    pub port: u16,
    /// The path and query, always starting with a slash.
    pub resource: String,
}

impl View for Url {
    type V = UrlSpec;

    open spec fn view(&self) -> UrlSpec {
        UrlSpec { https: self.https, host: self.host@, port: self.port, resource: self.resource@ }
    }
}

pub open spec fn default_port(https: bool) -> u16 {
    if https {
        443
    } else {
        80
    }
}

pub open spec fn starts_with(s: Seq<char>, p: Seq<char>) -> bool {
    p.len() <= s.len() && s.take(p.len() as int) == p
}

/// The URL an authority-and-path tail (everything after `scheme://`) names:
/// the host runs to the first colon or slash, an explicit in-range port
/// overrides the scheme's default, and an empty path means the root.
pub open spec fn parse_authority(https: bool, rest: Seq<char>) -> UrlSpec {
    let end = match find_char(rest, '/') {
        Some(i) => i,
        None => rest.len() as int,
    };
    let hostport = rest.take(end);
    let resource = if end == rest.len() {
        "/"@
    } else {
        rest.skip(end)
    };
    match find_char(hostport, ':') {
        Some(i) => {
            let port = match parse_uint_spec(hostport.skip(i + 1), 10, 65535) {
                Some(p) => p as u16,
                None => default_port(https),
            };
            UrlSpec { https, host: hostport.take(i), port, resource }
        },
        None => UrlSpec { https, host: hostport, port: default_port(https), resource },
    }
}

/// The URL a `Location` value resolves to against a base URL: an absolute
/// URL replaces everything, an absolute path keeps scheme, host and port,
/// and anything else is taken relative to the host's root.
pub open spec fn resolve_spec(base: UrlSpec, loc: Seq<char>) -> UrlSpec {
    if starts_with(loc, "http://"@) {
        parse_authority(false, loc.skip(7))
    } else if starts_with(loc, "https://"@) {
        parse_authority(true, loc.skip(8))
    } else if loc.len() > 0 && loc[0] == '/' {
        UrlSpec { https: base.https, host: base.host, port: base.port, resource: loc }
    } else {
        UrlSpec { https: base.https, host: base.host, port: base.port, resource: "/"@ + loc }
    }
}

/// The text of a URL: the scheme, the host, the port where it is not the
/// scheme's default, and the resource.
pub open spec fn url_chars(u: UrlSpec) -> Seq<char> {
    (if u.https {
        "https://"@
    } else {
        "http://"@
    }) + u.host + (if u.port == default_port(u.https) {
        Seq::<char>::empty()
    } else {
        ":"@ + dec_str(u.port as int)
    }) + u.resource
}

/// A URL with its host converted to ASCII, as sending converts it.
pub open spec fn with_ascii_host(u: UrlSpec) -> UrlSpec {
    UrlSpec { https: u.https, host: ascii_host_of(u.host), port: u.port, resource: u.resource }
}

/// The URL standing after following a sequence of redirect `Location`
/// values from `from`: each hop's host is converted to ASCII by sending,
/// and the next location resolves against the result.
pub open spec fn follow_locations(from: UrlSpec, locs: Seq<Seq<char>>) -> UrlSpec
    decreases locs.len(),
{
    if locs.len() == 0 {
        with_ascii_host(from)
    } else {
        with_ascii_host(resolve_spec(follow_locations(from, locs.drop_last()), locs.last()))
    }
}

impl Url {
    /// Parses the tail after `scheme://` into host, port and resource.
    fn from_authority(https: bool, rest: &str) -> (r: Url)
        ensures
            r@ == parse_authority(https, rest@),
    {
        let n = rest.unicode_len();
        let end = match crate::parse::find_from(rest, 0, '/') {
            Some(i) => i,
            None => n,
        };
        let hostport = rest.substring_char(0, end);
        let resource: String = if end == n {
            "/".to_owned()
        } else {
            rest.substring_char(end, n).to_owned()
        };
        let hp_len = hostport.unicode_len();
        proof {
            assert(hostport@ =~= rest@.take(end as int));
            if end < n {
                assert(resource@ =~= rest@.skip(end as int));
            }
        }
        match crate::parse::find_from(hostport, 0, ':') {
            Some(i) => {
                let host = hostport.substring_char(0, i).to_owned();
                let port_str = hostport.substring_char(i + 1, hp_len);
                let port: u16 = match crate::parse::parse_uint(port_str, false) {
                    Some(p) => {
                        if p <= 65535 {
                            p as u16
                        } else {
                            if https {
                                443
                            } else {
                                80
                            }
                        }
                    },
                    None => {
                        if https {
                            443
                        } else {
                            80
                        }
                    },
                };
                proof {
                    assert(host@ =~= hostport@.take(i as int));
                    assert(port_str@ =~= hostport@.skip(i + 1));
                }
                Url { https, host, port, resource }
            },
            None => {
                let host = hostport.to_owned();
                Url { https, host, port: if https {
                    443
                } else {
                    80
                }, resource }
            },
        }
    }

    /// Replaces this URL with what `location` resolves to against it.
    pub fn resolve(&mut self, location: &str)
        ensures
            final(self)@ == resolve_spec(old(self)@, location@),
    {
        proof {
            reveal_strlit("http://");
            reveal_strlit("https://");
            reveal_strlit("/");
        }
        let n = location.unicode_len();
        let is_http = n >= 7 && crate::parse::str_eq(location.substring_char(0, 7), "http://");
        if is_http {
            proof {
                assert(location@.take(7) == "http://"@);
                assert(starts_with(location@, "http://"@));
            }
            *self = Url::from_authority(false, location.substring_char(7, n));
            proof {
                assert(location@.subrange(7, n as int) =~= location@.skip(7));
            }
            return ;
        }
        let is_https = n >= 8 && crate::parse::str_eq(location.substring_char(0, 8), "https://");
        proof {
            assert(!starts_with(location@, "http://"@));
            if !(n >= 8 && location@.take(8) == "https://"@) {
                assert(!starts_with(location@, "https://"@));
            }
        }
        if is_https {
            proof {
                assert(starts_with(location@, "https://"@));
            }
            *self = Url::from_authority(true, location.substring_char(8, n));
            proof {
                assert(location@.subrange(8, n as int) =~= location@.skip(8));
            }
            return ;
        }
        if n > 0 && location.get_char(0) == '/' {
            self.resource = location.to_owned();
            return ;
        }
        let mut resource = "/".to_owned();
        resource.append(location);
        self.resource = resource;
    }

    /// The URL written out as text.
    pub fn to_string(&self) -> (r: String)
        ensures
            r@ == url_chars(self@),
    {
        let mut out = String::new();
        if self.https {
            out.append("https://");
        } else {
            out.append("http://");
        }
        out.append(self.host.as_str());
        let def: u16 = if self.https {
            443
        } else {
            80
        };
        if self.port != def {
            out.append(":");
            let port_str = crate::parse::usize_to_string(self.port as usize);
            out.append(port_str.as_str());
        }
        out.append(self.resource.as_str());
        proof {
            assert(out@ =~= url_chars(self@));
        }
        out
    }
}


/// The name Punycode gives to one host label (without the `xn--` prefix):
/// a pure function of the label's characters.
pub uninterp spec fn punycode_of(s: Seq<char>) -> Seq<char>;

/// One host label in its ASCII form: an ASCII label is itself, any other is
/// its Punycode encoding behind `xn--`.
pub open spec fn encode_label(l: Seq<char>) -> Seq<char> {
    if is_ascii_chars(l) {
        l
    } else {
        "xn--"@ + punycode_of(l)
    }
}

/// A whole host in its ASCII form, label by label.
pub open spec fn ascii_host_of(h: Seq<char>) -> Seq<char>
    decreases h.len(),
{
    match find_char(h, '.') {
        Some(i) => {
            if 0 <= i < h.len() {
                encode_label(h.take(i)) + "."@ + ascii_host_of(h.skip(i + 1))
            } else {
                encode_label(h)
            }
        },
        None => encode_label(h),
    }
}

/// Whether Punycode encoding succeeds on a label: like the encoding itself,
/// a function of the label's characters alone.
pub uninterp spec fn punycode_ok(s: Seq<char>) -> bool;

/// One host label the conversion accepts: ASCII as it stands, or within the
/// DNS label ceiling of 63 characters and accepted by the encoder.
pub open spec fn label_ok(l: Seq<char>) -> bool {
    is_ascii_chars(l) || (l.len() <= 63 && punycode_ok(l))
}

/// Every label of the host is acceptable.
pub open spec fn host_ok(h: Seq<char>) -> bool
    decreases h.len(),
{
    match find_char(h, '.') {
        Some(i) => {
            if 0 <= i < h.len() {
                label_ok(h.take(i)) && host_ok(h.skip(i + 1))
            } else {
                label_ok(h)
            }
        },
        None => label_ok(h),
    }
}

/// Relies on `punycode::encode`: the encoding and its success are functions
/// of the label's characters alone, and what it returns holds only ASCII
/// characters. The encoder checks its 32-bit accumulator for overflow only
/// ahead of the big multiplication, not ahead of its unit increments, so a
/// label thousands of characters long could make it panic; the length bound
/// keeps the accumulator below 64 * 0x110001, far from overflow.
#[verifier::external_body]
fn puny_encode(label: &str) -> (r: Result<String, ()>)
    requires
        label@.len() <= 63,
    ensures
        r is Ok <==> punycode_ok(label@),
        r matches Ok(out) ==> out@ == punycode_of(label@) && is_ascii_chars(out@),
{
    punycode::encode(label)
}

/// An ASCII host is already its own ASCII form, and every label of it is
/// acceptable.
proof fn lemma_ascii_host_identity(h: Seq<char>)
    requires
        is_ascii_chars(h),
    ensures
        ascii_host_of(h) == h,
        host_ok(h),
    decreases h.len(),
{
    reveal_strlit(".");
    crate::parse::lemma_find_char(h, '.');
    match find_char(h, '.') {
        None => {},
        Some(i) => {
            assert(is_ascii_chars(h.take(i))) by {
                assert(forall|j: int| 0 <= j < i ==> h.take(i)[j] == #[trigger] h[j]);
            }
            assert(is_ascii_chars(h.skip(i + 1))) by {
                assert(forall|j: int|
                    0 <= j < h.len() - i - 1 ==> #[trigger] h.skip(i + 1)[j] == h[j + i + 1]);
            }
            lemma_ascii_host_identity(h.skip(i + 1));
            assert(h.take(i) + "."@ + h.skip(i + 1) =~= h);
        },
    }
}

/// Converts a host to its ASCII form: an ASCII host is returned unchanged,
/// any other has each non-ASCII label Punycode-encoded behind `xn--`.
pub fn ensure_ascii_host(host: String) -> (r: Result<String, Error>)
    ensures
        r is Ok <==> host_ok(host@),
        match r {
            Ok(h) => h@ == ascii_host_of(host@),
            Err(e) => e == Error::PunycodeConversionFailed && !is_ascii_chars(host@),
        },
        is_ascii_chars(host@) ==> r == Ok::<String, Error>(host),
{
    if host.as_str().is_ascii() {
        proof {
            lemma_ascii_host_identity(host@);
        }
        return Ok(host);
    }
    proof {
        reveal_strlit(".");
        reveal_strlit("xn--");
    }
    let n = host.as_str().unicode_len();
    let mut result = String::new();
    let mut start: usize = 0;
    proof {
        assert(host@.skip(0) =~= host@);
        assert(Seq::<char>::empty() + ascii_host_of(host@) =~= ascii_host_of(host@));
    }
    loop
        invariant_except_break
            start <= n,
            n == host@.len(),
            !is_ascii_chars(host@),
            ascii_host_of(host@) == result@ + ascii_host_of(host@.skip(start as int)),
            host_ok(host@) == host_ok(host@.skip(start as int)),
        ensures
            result@ == ascii_host_of(host@),
            host_ok(host@),
        decreases n - start,
    {
        proof {
            reveal_strlit(".");
            reveal_strlit("xn--");
        }
        let ghost pre = result@;
        let ghost tail = host@.skip(start as int);
        let end = match crate::parse::find_from_offset(host.as_str(), start, '.') {
            Some(i) => i,
            None => n,
        };
        let label = host.as_str().substring_char(start, end);
        proof {
            assert(label@ =~= tail.take(end - start));
        }
        proof {
            if end == n {
                crate::parse::lemma_find_char(tail, '.');
                assert(tail.take(end - start) =~= tail);
                assert(host_ok(tail) == label_ok(tail));
            } else {
                let os = start as int;
                assert(host@[end as int] == '.');
                assert(tail[end - os] == '.');
                assert(host_ok(tail) == (label_ok(tail.take(end - os)) && host_ok(
                    tail.skip(end - os + 1),
                )));
            }
        }
        if label.is_ascii() {
            result.append(label);
        } else {
            if label.unicode_len() > 63 {
                proof {
                    assert(!label_ok(label@));
                    assert(!host_ok(host@));
                }
                return Err(Error::PunycodeConversionFailed);
            }
            match puny_encode(label) {
                Ok(encoded) => {
                    result.append("xn--");
                    result.append(encoded.as_str());
                    proof {
                        assert(result@ =~= pre + ("xn--"@ + punycode_of(label@)));
                    }
                },
                Err(_) => {
                    proof {
                        assert(!label_ok(label@));
                        assert(!host_ok(host@));
                    }
                    return Err(Error::PunycodeConversionFailed);
                },
            }
        }
        if end == n {
            proof {
                assert(tail.take(end - start) =~= tail);
                assert(ascii_host_of(tail) == encode_label(tail)) by {
                    crate::parse::lemma_find_char(tail, '.');
                }
                assert(result@ =~= pre + encode_label(tail));
                assert(label_ok(tail));
            }
            break ;
        }
        crate::parse::push_char(&mut result, '.');
        proof {
            let os = start as int;
            assert(ascii_host_of(tail) == encode_label(tail.take(end - os)) + "."@ + ascii_host_of(
                tail.skip(end - os + 1),
            ));
            assert(tail.skip(end - os + 1) =~= host@.skip(end + 1));
            assert(result@ =~= pre + encode_label(label@) + "."@);
            assert((pre + ascii_host_of(tail)) =~= (pre + encode_label(label@) + "."@)
                + ascii_host_of(host@.skip(end + 1)));
            assert(label_ok(label@));
        }
        start = end + 1;
    }
    Ok(result)
}

/// Ceilings and the method of a request.
pub struct Config {
    /// The request method.
    pub method: Method,
    /// Ceiling on the whole header block (and what is left, on trailers).
    pub max_headers_size: Option<usize>,
    /// Ceiling on the status line.
    pub max_status_line_len: Option<usize>,
    /// How many redirect hops may follow the first response before the
    /// chain is abandoned as an error.
    pub max_redirects: usize,
}

/// One request: where it goes, how, and what it carries. How the request is
/// serialized onto the wire is the transport's business, not the core's.
pub struct Request {
    /// The target URL.
    pub url: Url,
    /// Method and ceilings.
    pub config: Config,
    /// The request headers, as given by the caller.
    pub headers: Vec<(String, String)>,
    /// The request body.
    pub body: Vec<u8>,
}

impl Request {
    /// Rewrites the target to what `url` resolves to against it.
    pub fn redirect_to(&mut self, url: &str)
        ensures
            final(self).url@ == resolve_spec(old(self).url@, url@),
            final(self).config == old(self).config,
            final(self).headers == old(self).headers,
            final(self).body == old(self).body,
    {
        self.url.resolve(url);
    }
}

/// A connection to the server for sending one request, possibly rewritten
/// across redirect hops.
pub struct Connection {
    /// The request the next hop will send.
    pub request: Request,
}

impl Connection {
    /// Creates a new `Connection` around a request.
    pub fn new(request: Request) -> (r: Connection)
        ensures
            r.request == request,
    {
        Connection { request }
    }
}

/// The status codes that redirect a request.
pub open spec fn is_redirect_status(code: int) -> bool {
    code == 301 || code == 302 || code == 303 || code == 307
}

/// Where one response sends the connection next: on to another hop, or done.
pub enum NextHop {
    Redirect(Result<Connection, Error>),
    Destination(Connection),
}

/// Decides what a status code means for the connection: 301, 302, 303 and
/// 307 rewrite the target to the `Location` value and go again (303 turning
/// POST, PUT and DELETE into GET), a redirect without a `Location` fails
/// with the missing-location error, and every other status is the terminal
/// hop.
pub fn get_redirect(connection: Connection, status_code: i32, url: Option<&String>) -> (r: NextHop)
    ensures
        !(status_code == 301 || status_code == 302 || status_code == 303 || status_code == 307)
            ==> r == NextHop::Destination(connection),
        (status_code == 301 || status_code == 302 || status_code == 303 || status_code == 307)
            ==> match url {
            None => r == NextHop::Redirect(Err::<Connection, Error>(Error::RedirectLocationMissing)),
            Some(u) => r matches NextHop::Redirect(Ok(c)) && c.request.url@ == resolve_spec(
                connection.request.url@,
                u@,
            ) && c.request.config.method == (if status_code == 303 && (connection.request.config.method
                == Method::Post || connection.request.config.method == Method::Put
                || connection.request.config.method == Method::Delete) {
                Method::Get
            } else {
                connection.request.config.method
            }) && c.request.config.max_headers_size == connection.request.config.max_headers_size
                && c.request.config.max_status_line_len
                == connection.request.config.max_status_line_len && c.request.headers
                == connection.request.headers && c.request.body == connection.request.body,
        },
{
    let mut connection = connection;
    if status_code == 301 || status_code == 302 || status_code == 303 || status_code == 307 {
        let url = match url {
            Some(url) => url,
            None => {
                return NextHop::Redirect(Err(Error::RedirectLocationMissing));
            },
        };
        connection.request.redirect_to(url.as_str());
        if status_code == 303 {
            match connection.request.config.method {
                Method::Post | Method::Put | Method::Delete => {
                    connection.request.config.method = Method::Get;
                },
                _ => {},
            }
        }
        NextHop::Redirect(Ok(connection))
    } else {
        NextHop::Destination(connection)
    }
}

/// The capability to open transport connections and write requests onto
/// them: the physical network half the core consumes but does not implement.
pub trait Connector: Sized {
    /// The byte stream a connection reads its response from.
    type Stream: ByteSource;

    /// Establishes a connection to the given URL, plaintext or TLS,
    /// suspending the flow for as long as the transport needs.
    fn connect_http(&mut self, url: &String, is_plain_tcp: bool) -> (r: Result<
        Self::Stream,
        TransportError,
    >)
        ensures
            r matches Ok(s) ==> s.wf(),
    ;

    /// Serializes one request onto the connection as one contiguous write.
    /// What the stream will deliver afterwards is the response this request
    /// provokes; nothing more is promised of it.
    fn write_request(&mut self, stream: &mut Self::Stream, request: &Request) -> (r: Result<
        (),
        TransportError,
    >)
        requires
            old(stream).wf(),
        ensures
            final(stream).wf(),
    ;
}

impl Connection {
    /// Sends the request over one fresh connection and reads the response
    /// metadata; the body is left on the stream. The host is converted to
    /// its ASCII form first.
    pub fn send_one<C: Connector>(self, connector: &mut C) -> (r: Result<
        (Connection, ResponseLazy<BufReader<C::Stream>>),
        Error,
    >)
        ensures
            r matches Ok((c, resp)) ==> {
                &&& resp.wf()
                &&& resp.url@ == Seq::<char>::empty()
                &&& c.request.config == self.request.config
                &&& c.request.url@ == with_ascii_host(self.request.url@)
                &&& c.request.headers == self.request.headers
                &&& c.request.body == self.request.body
                &&& exists|bytes: Seq<u8>|
                    from_metadata_of(
                        resp,
                        bytes,
                        self.request.config.max_headers_size,
                        self.request.config.max_status_line_len,
                    )
            },
            (r matches Err(e) && e == Error::PunycodeConversionFailed) <==> !host_ok(
                self.request.url@.host,
            ),
            r matches Err(e) ==> {
                ||| e matches Error::IoError(_)
                ||| e == Error::StatusLineOverflow
                ||| e == Error::HeadersOverflow
                ||| e == Error::InvalidUtf8InResponse
                ||| e == Error::MalformedContentLength
                ||| e == Error::PunycodeConversionFailed
            },
    {
        let mut this = self;
        let host = this.request.url.host.clone();
        match ensure_ascii_host(host) {
            Ok(h) => {
                this.request.url.host = h;
            },
            Err(e) => {
                return Err(e);
            },
        }
        let url_text = this.request.url.to_string();
        let is_plain_tcp = !this.request.url.https;
        let mut tcp = match connector.connect_http(&url_text, is_plain_tcp) {
            Ok(t) => t,
            Err(te) => {
                return Err(Error::IoError(te));
            },
        };
        if let Err(te) = connector.write_request(&mut tcp, &this.request) {
            return Err(Error::IoError(te));
        }
        let ghost stream_bytes = tcp.stream();
        match ResponseLazy::from_stream(
            tcp,
            this.request.config.max_headers_size,
            this.request.config.max_status_line_len,
        ) {
            Ok(response) => {
                proof {
                    assert(from_metadata_of(
                        response,
                        stream_bytes,
                        this.request.config.max_headers_size,
                        this.request.config.max_status_line_len,
                    ));
                    assert(this.request.url@ == with_ascii_host(self.request.url@));
                }
                Ok((this, response))
            },
            Err(e) => {
                proof {
                    crate::response::lemma_metadata_error_kinds(
                        stream_bytes,
                        this.request.config.max_headers_size,
                        this.request.config.max_status_line_len,
                    );
                }
                Err(e)
            },
        }
    }

    /// Sends the request and follows redirects until a terminal response,
    /// whose `url` field is set to the last hop's resolved URL — the URL that
    /// following some sequence of `Location` values from the original request
    /// reaches. A chain of more than `max_redirects` hops is abandoned with
    /// an error, and every error is tied to its cause: transport failures
    /// and unparseable metadata may come from any hop, the missing-location
    /// error only from a redirect response without a `location` header, the
    /// hop-limit error only after a redirect response, and the host
    /// conversion error only from an unacceptable host.
    #[verifier::loop_isolation(false)]
    pub fn send<C: Connector>(self, connector: &mut C) -> (r: Result<
        ResponseLazy<BufReader<C::Stream>>,
        Error,
    >)
        ensures
            r matches Ok(resp) ==> {
                &&& resp.wf()
                &&& !is_redirect_status(resp.status_code as int)
                &&& exists|locs: Seq<Seq<char>>|
                    resp.url@ == url_chars(follow_locations(self.request.url@, locs))
            },
            r matches Err(e) ==> {
                ||| e matches Error::IoError(_)
                ||| e == Error::StatusLineOverflow
                ||| e == Error::HeadersOverflow
                ||| e == Error::InvalidUtf8InResponse
                ||| e == Error::MalformedContentLength
                ||| e == Error::PunycodeConversionFailed
                ||| e == Error::RedirectLocationMissing
                ||| e == Error::TooManyRedirects
            },
            r matches Err(e) && e == Error::PunycodeConversionFailed ==> !host_ok(
                self.request.url@.host,
            ) || (exists|locs: Seq<Seq<char>>, loc: Seq<char>|
                !host_ok(resolve_spec(follow_locations(self.request.url@, locs), loc).host)),
            r matches Err(e) && e == Error::RedirectLocationMissing ==> exists|bytes: Seq<u8>|
                (#[trigger] spec_metadata(
                    bytes,
                    self.request.config.max_headers_size,
                    self.request.config.max_status_line_len,
                ) matches MetaOut::Meta { code, reason, entries, state, rest, trailer_budget }
                    && is_redirect_status(code) && lookup(entries, "location"@) is None),
            r matches Err(e) && e == Error::TooManyRedirects ==> exists|bytes: Seq<u8>|
                (#[trigger] spec_metadata(
                    bytes,
                    self.request.config.max_headers_size,
                    self.request.config.max_status_line_len,
                ) matches MetaOut::Meta { code, reason, entries, state, rest, trailer_budget }
                    && is_redirect_status(code)),
    {
        let ghost orig_url = self.request.url@;
        let ghost mh0 = self.request.config.max_headers_size;
        let ghost msl0 = self.request.config.max_status_line_len;
        let ghost mut locs: Seq<Seq<char>> = Seq::empty();
        let mut hops_left = self.request.config.max_redirects;
        let first = self.send_one(connector);
        let (mut conn, mut response) = match first {
            Ok(p) => p,
            Err(e) => {
                return Err(e);
            },
        };
        proof {
            assert(conn.request.url@ == follow_locations(orig_url, locs));
        }
        let loc_opt = response.headers.get("location");
        let ghost loc_view: Option<Seq<char>> = match loc_opt {
            Some(u) => Some(u@),
            None => None,
        };
        let mut next_hop = get_redirect(conn, response.status_code, loc_opt);
        proof {
            match &next_hop {
                NextHop::Redirect(Ok(cn)) => {
                    let l = loc_view.unwrap();
                    assert(cn.request.url@ == resolve_spec(follow_locations(orig_url, locs), l));
                },
                _ => {},
            }
        }
        loop
            invariant
                response.wf(),
                exists|bytes: Seq<u8>| from_metadata_of(response, bytes, mh0, msl0),
                next_hop matches NextHop::Destination(cn) ==> !is_redirect_status(
                    response.status_code as int,
                ) && cn.request.url@ == follow_locations(orig_url, locs),
                next_hop matches NextHop::Redirect(Ok(cn)) ==> is_redirect_status(
                    response.status_code as int,
                ) && (exists|loc: Seq<char>|
                    cn.request.url@ == resolve_spec(follow_locations(orig_url, locs), loc))
                    && cn.request.config.max_headers_size == mh0
                    && cn.request.config.max_status_line_len == msl0,
                next_hop matches NextHop::Redirect(Err(e2)) ==> e2
                    == Error::RedirectLocationMissing && is_redirect_status(
                    response.status_code as int,
                ) && lookup(response.headers@, "location"@) is None,
            decreases hops_left,
        {
            match next_hop {
                NextHop::Redirect(res) => {
                    let c = match res {
                        Ok(c) => c,
                        Err(e) => {
                            return Err(e);
                        },
                    };
                    if hops_left == 0 {
                        return Err(Error::TooManyRedirects);
                    }
                    hops_left -= 1;
                    let ghost pre_locs = locs;
                    proof {
                        let l = choose|l: Seq<char>|
                            c.request.url@ == resolve_spec(follow_locations(orig_url, locs), l);
                        locs = locs.push(l);
                        assert(locs.drop_last() =~= pre_locs);
                        assert(c.request.url@ == resolve_spec(
                            follow_locations(orig_url, pre_locs),
                            locs.last(),
                        ));
                    }
                    let hop = c.send_one(connector);
                    match hop {
                        Ok(p) => {
                            conn = p.0;
                            response = p.1;
                            proof {
                                assert(conn.request.url@ == with_ascii_host(
                                    resolve_spec(follow_locations(orig_url, pre_locs), locs.last()),
                                ));
                                assert(conn.request.url@ == follow_locations(orig_url, locs));
                            }
                        },
                        Err(e) => {
                            proof {
                                if e == Error::PunycodeConversionFailed {
                                    assert(!host_ok(resolve_spec(
                                        follow_locations(orig_url, pre_locs),
                                        locs.last(),
                                    ).host));
                                }
                            }
                            return Err(e);
                        },
                    }
                    let loc_opt = response.headers.get("location");
                    let ghost loc_view: Option<Seq<char>> = match loc_opt {
                        Some(u) => Some(u@),
                        None => None,
                    };
                    next_hop = get_redirect(conn, response.status_code, loc_opt);
                    proof {
                        match &next_hop {
                            NextHop::Redirect(Ok(cn)) => {
                                let l = loc_view.unwrap();
                                assert(cn.request.url@ == resolve_spec(
                                    follow_locations(orig_url, locs),
                                    l,
                                ));
                            },
                            _ => {},
                        }
                    }
                },
                NextHop::Destination(connection) => {
                    let url_text = connection.request.url.to_string();
                    response.url = url_text;
                    proof {
                        assert(response.url@ == url_chars(follow_locations(orig_url, locs)));
                    }
                    return Ok(response);
                },
            }
        }
    }
}


/// A connector that serves a fixed script of responses from memory, one per
/// connection, in order: the reference transport for exercising the
/// connection loop without a network.
pub struct ScriptedConnector {
    /// The responses still to serve, first next.
    pub responses: Vec<Vec<u8>>,
    /// How many connections have been opened.
    pub opened: usize,
}

impl ScriptedConnector {
    pub fn new(responses: Vec<Vec<u8>>) -> (r: ScriptedConnector)
        ensures
            r.responses == responses,
            r.opened == 0,
    {
        ScriptedConnector { responses, opened: 0 }
    }
}

impl Connector for ScriptedConnector {
    type Stream = MemSource;

    fn connect_http(&mut self, url: &String, is_plain_tcp: bool) -> (r: Result<
        MemSource,
        TransportError,
    >) {
        if self.opened < self.responses.len() {
            let data = self.responses[self.opened].clone();
            self.opened = self.opened + 1;
            Ok(MemSource::new(data))
        } else {
            Err(TransportError { code: -1 })
        }
    }

    fn write_request(&mut self, stream: &mut MemSource, request: &Request) -> (r: Result<
        (),
        TransportError,
    >) {
        Ok(())
    }
}

} // verus!
