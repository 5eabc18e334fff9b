//! HTTP/1.1 message types: methods, versions, status codes, headers,
//! requests and responses.
//!
//! Requests and responses carry their textual parts as byte vectors, as they
//! stand on the wire.  A response's `body` is not the body bytes but a path
//! into the in-memory file cache; the serializer emits only the head, and
//! the sender streams the cached file thereafter.

use vstd::prelude::*;
use vstd::string::StringSliceAdditionalSpecFns;

verus! {

/// A request method.  Only `GET` and `POST` are parsed from the wire;
/// `ANY` matches every method when routing.
#[derive(Debug, PartialEq, Eq, Structural, Clone, Copy)]
pub enum Method {
    UNINITIALIZED,
    CONNECT,
    DELETE,
    GET,
    HEAD,
    OPTIONS,
    PATCH,
    POST,
    PUT,
    TRACE,
    ANY,
}

/// What `Method::parse` yields on a given token.
pub open spec fn spec_parse_method(s: Seq<u8>) -> Option<Method> {
    if s == "GET".spec_bytes() {
        Some(Method::GET)
    } else if s == "POST".spec_bytes() {
        Some(Method::POST)
    } else {
        None
    }
}

impl Method {
    /// Look a method token up in the fixed table of supported methods.
    pub fn parse(s: &[u8]) -> (r: Option<Method>)
        ensures
            r == spec_parse_method(s@),
    {
        if bytes_eq(s, "GET".as_bytes()) {
            Some(Method::GET)
        } else if bytes_eq(s, "POST".as_bytes()) {
            Some(Method::POST)
        } else {
            proof {
                reveal_strlit("GET");
                reveal_strlit("POST");
            }
            None
        }
    }
}

/// An HTTP protocol version.
#[derive(Debug, PartialEq, Eq, Structural, Clone, Copy)]
pub enum Version {
    V_1_0,
    V_1_1,
    V_2_0,
    V_3_0,
}

/// The wire form of a version, as bytes.
pub open spec fn spec_version_bytes(v: Version) -> Seq<u8> {
    match v {
        Version::V_1_0 => "HTTP/1".spec_bytes(),
        Version::V_1_1 => "HTTP/1.1".spec_bytes(),
        Version::V_2_0 => "HTTP/2".spec_bytes(),
        Version::V_3_0 => "HTTP/3".spec_bytes(),
    }
}

/// ASCII uppercasing of one byte.
pub open spec fn spec_upper(b: u8) -> u8 {
    if 0x61 <= b && b <= 0x7a {
        (b - 0x20) as u8
    } else {
        b
    }
}

/// ASCII uppercasing of a byte sequence.
pub open spec fn spec_upper_bytes(s: Seq<u8>) -> Seq<u8> {
    s.map_values(|b: u8| spec_upper(b))
}

/// What `Version::parse` yields: the token is matched case-insensitively
/// against the four known version strings.
pub open spec fn spec_parse_version(s: Seq<u8>) -> Option<Version> {
    let u = spec_upper_bytes(s);
    if u == "HTTP/1".spec_bytes() {
        Some(Version::V_1_0)
    } else if u == "HTTP/1.1".spec_bytes() {
        Some(Version::V_1_1)
    } else if u == "HTTP/2".spec_bytes() {
        Some(Version::V_2_0)
    } else if u == "HTTP/3".spec_bytes() {
        Some(Version::V_3_0)
    } else {
        None
    }
}

impl Version {
    /// Match a version token, case-insensitively, against the known
    /// versions.
    pub fn parse(s: &[u8]) -> (r: Option<Version>)
        ensures
            r == spec_parse_version(s@),
    {
        let u = upper_bytes(s);
        if bytes_eq(u.as_slice(), "HTTP/1".as_bytes()) {
            Some(Version::V_1_0)
        } else if bytes_eq(u.as_slice(), "HTTP/1.1".as_bytes()) {
            Some(Version::V_1_1)
        } else if bytes_eq(u.as_slice(), "HTTP/2".as_bytes()) {
            Some(Version::V_2_0)
        } else if bytes_eq(u.as_slice(), "HTTP/3".as_bytes()) {
            Some(Version::V_3_0)
        } else {
            None
        }
    }

    /// The wire form of this version.
    pub fn to_str(&self) -> (r: &'static str)
        ensures
            r.spec_bytes() == spec_version_bytes(*self),
    {
        match self {
            Version::V_1_0 => "HTTP/1",
            Version::V_1_1 => "HTTP/1.1",
            Version::V_2_0 => "HTTP/2",
            Version::V_3_0 => "HTTP/3",
        }
    }
}

/// A response status.
#[derive(Debug, PartialEq, Eq, Structural, Clone, Copy)]
pub enum Status {
    Continue,
    SwitchingProtocols,
    EarlyHints,
    Okay,
    Created,
    Accepted,
    NonAuthoritativeInformation,
    NoContent,
    ResetContent,
    PartialContent,
    MultiStatus,
    AlreadyReported,
    IMUsed,
    MultipleChoices,
    MovedPermanently,
    Found,
    SeeOther,
    NotModified,
    Unused,
    TemporaryRedirect,
    PermanentRedirect,
    BadRequest,
    Unauthorized,
    PaymentRequired,
    Forbidden,
    NotFound,
    NotAcceptable,
    ProxyAuthenticationRequired,
    RequestTimeout,
    Conflict,
    Gone,
    LengthRequired,
    PreconditionFailed,
    ContentTooLarge,
    URITooLong,
    UnsupportedMediaType,
    RangeNotSatisfiable,
    ExpectationFailed,
    ImaTeapot,
    MisdirectedRequest,
    UnprocessableContent,
    Locked,
    FailedDependency,
    TooEarly,
    UpgradeRequired,
    PreconditionRequired,
    TooManyRequests,
    RequestHeaderFieldTooLarge,
    UnavailableForLegalReasons,
    InternalServerError,
    NotImplemented,
    BadGateway,
    ServiceUnavailable,
    GatewayTimeout,
    HTTPVersionNotSupported,
    VariantAlsoNegotiates,
    InsufficientStorage,
    LoopDetected,
    NotExtended,
    NetworkAuthenticationRequired,
}

/// The status line text of a status, as bytes.
pub open spec fn spec_status_line_bytes(s: Status) -> Seq<u8> {
    match s {
        Status::Okay => "200 OK".spec_bytes(),
        Status::Created => "201 Created".spec_bytes(),
        Status::NotModified => "304 Not Modified".spec_bytes(),
        Status::NotFound => "404 Not Found".spec_bytes(),
        Status::SwitchingProtocols => "101 Switching Protocols".spec_bytes(),
        _ => "STATUS CODE NOT IMPLEMENTED".spec_bytes(),
    }
}

impl Status {
    /// The text that stands after the version on the status line.
    pub fn to_status_line(&self) -> (r: &'static str)
        ensures
            r.spec_bytes() == spec_status_line_bytes(*self),
    {
        match self {
            Self::Okay => "200 OK",
            Self::Created => "201 Created",
            Self::NotModified => "304 Not Modified",
            Self::NotFound => "404 Not Found",
            Self::SwitchingProtocols => "101 Switching Protocols",
            _ => "STATUS CODE NOT IMPLEMENTED",
        }
    }
}

/// One response header: a key and a value.
#[derive(Debug, Clone)]
pub struct Header(pub Vec<u8>, pub Vec<u8>);

/// A parsed request.  `headers` and `query_params` are association lists
/// with distinct keys; header keys are stored case-folded to lower case.
#[derive(Debug)]
pub struct Request {
    pub method: Method,
    pub path: Vec<u8>,
    pub version: Version,
    pub headers: Vec<(Vec<u8>, Vec<u8>)>,
    pub query_params: Vec<(Vec<u8>, Vec<u8>)>,
    pub body: Vec<u8>,
}

/// The mathematical content of a parsed request.
pub ghost struct ReqView {
    pub method: Method,
    pub path: Seq<u8>,
    pub version: Version,
    pub headers: Seq<(Seq<u8>, Seq<u8>)>,
    pub query_params: Seq<(Seq<u8>, Seq<u8>)>,
    pub body: Seq<u8>,
}

impl View for Request {
    type V = ReqView;

    open spec fn view(&self) -> ReqView {
        ReqView {
            method: self.method,
            path: self.path@,
            version: self.version,
            headers: spec_kvs(self.headers@),
            query_params: spec_kvs(self.query_params@),
            body: self.body@,
        }
    }
}

/// A response under construction.  `body` is a path into the file cache,
/// never the body bytes themselves.
#[derive(Debug)]
pub struct Response {
    pub version: Version,
    pub status: Status,
    pub headers: Vec<Header>,
    pub body: Vec<u8>,
}

/// The view of a header list: each header as a pair of byte sequences.
pub open spec fn spec_headers(hs: Seq<Header>) -> Seq<(Seq<u8>, Seq<u8>)> {
    hs.map_values(|h: Header| (h.0@, h.1@))
}

/// The view of an association list of byte vectors.
pub open spec fn spec_kvs(v: Seq<(Vec<u8>, Vec<u8>)>) -> Seq<(Seq<u8>, Seq<u8>)> {
    v.map_values(|p: (Vec<u8>, Vec<u8>)| (p.0@, p.1@))
}

/// Look a key up in an association list: the first pair with that key.
pub open spec fn spec_lookup(kvs: Seq<(Seq<u8>, Seq<u8>)>, key: Seq<u8>) -> Option<Seq<u8>>
    decreases kvs.len(),
{
    if kvs.len() == 0 {
        None
    } else if kvs[0].0 == key {
        Some(kvs[0].1)
    } else {
        spec_lookup(kvs.skip(1), key)
    }
}

/// Insert into an association list, replacing the first pair with the same
/// key if one exists, else appending.
pub open spec fn spec_insert(kvs: Seq<(Seq<u8>, Seq<u8>)>, key: Seq<u8>, value: Seq<u8>) -> Seq<
    (Seq<u8>, Seq<u8>),
>
    decreases kvs.len(),
{
    if kvs.len() == 0 {
        seq![(key, value)]
    } else if kvs[0].0 == key {
        seq![(key, value)] + kvs.skip(1)
    } else {
        seq![kvs[0]] + spec_insert(kvs.skip(1), key, value)
    }
}

impl Response {
    /// Append a header to the response's ordered header list.
    pub fn add_header(&mut self, key: &[u8], value: &[u8])
        ensures
            final(self).version == old(self).version,
            final(self).status == old(self).status,
            final(self).body == old(self).body,
            spec_headers(final(self).headers@) == spec_headers(old(self).headers@).push(
                (key@, value@),
            ),
    {
        let k = slice_to_vec_u8(key);
        let v = slice_to_vec_u8(value);
        self.headers.push(Header(k, v));
        proof {
            assert(spec_headers(self.headers@) =~= spec_headers(old(self).headers@).push(
                (key@, value@),
            ));
        }
    }
}

/// The mathematical content of a response.
pub ghost struct RespView {
    pub version: Version,
    pub status: Status,
    pub headers: Seq<(Seq<u8>, Seq<u8>)>,
    pub body: Seq<u8>,
}

impl View for Response {
    type V = RespView;

    open spec fn view(&self) -> RespView {
        RespView {
            version: self.version,
            status: self.status,
            headers: spec_headers(self.headers@),
            body: self.body@,
        }
    }
}

/// One routed service: a path prefix and the method it accepts.  The
/// handler that serves a matched request is the embedder's; the router
/// here decides which service matches and what the stripped path is.
#[derive(Debug)]
pub struct Service {
    pub path: Vec<u8>,
    pub method: Method,
}

impl Service {
    pub fn new(path: &[u8], method: Method) -> (r: Service)
        ensures
            r.path@ == path@,
            r.method == method,
    {
        Service { path: slice_to_vec_u8(path), method }
    }
}

/// The view of a service list.
pub open spec fn spec_services(s: Seq<Service>) -> Seq<(Seq<u8>, Method)> {
    s.map_values(|sv: Service| (sv.path@, sv.method))
}

/// Whether a service accepts a request: its prefix begins the path,
/// segment-wise, and its method matches exactly or is `ANY`.
pub open spec fn spec_service_matches(
    path: Seq<u8>,
    m: Method,
    sp: Seq<u8>,
    sm: Method,
) -> bool {
    crate::helpers::spec_path_starts_with(path, sp) && (m == sm || sm == Method::ANY)
}

/// The first service, from `i` on, that accepts the request.
pub open spec fn spec_route(
    services: Seq<(Seq<u8>, Method)>,
    m: Method,
    path: Seq<u8>,
    i: int,
) -> Option<int>
    decreases services.len() - i,
    when 0 <= i
{
    if i >= services.len() {
        None
    } else if spec_service_matches(path, m, services[i].0, services[i].1) {
        Some(i)
    } else {
        spec_route(services, m, path, i + 1)
    }
}

/// The decimal form of a number, most significant digit first.
pub open spec fn spec_dec(n: int) -> Seq<u8>
    decreases n,
{
    if n < 10 {
        seq![(0x30 + if n >= 0 {
            n
        } else {
            0
        }) as u8]
    } else {
        spec_dec(n / 10) + seq![(0x30 + n % 10) as u8]
    }
}

/// Render a number in decimal.
pub fn dec_bytes(n: usize) -> (r: Vec<u8>)
    ensures
        r@ == spec_dec(n as int),
    decreases n,
{
    if n < 10 {
        let mut v: Vec<u8> = Vec::new();
        v.push(0x30 + (n as u8));
        proof {
            assert(v@ =~= spec_dec(n as int));
        }
        v
    } else {
        let mut v = dec_bytes(n / 10);
        v.push(0x30 + ((n % 10) as u8));
        proof {
            assert(v@ =~= spec_dec(n as int));
        }
        v
    }
}

/// Byte-for-byte equality of two slices.
pub fn bytes_eq(a: &[u8], b: &[u8]) -> (r: bool)
    ensures
        r == (a@ == b@),
{
    if a.len() != b.len() {
        proof {
            assert(a@ != b@);
        }
        return false;
    }
    let n = a.len();
    let mut i: usize = 0;
    while i < n
        invariant
            n == a@.len() == b@.len(),
            i <= n,
            forall|j: int| 0 <= j < i ==> a@[j] == b@[j],
        decreases n - i,
    {
        if a[i] != b[i] {
            proof {
                assert(a@ != b@);
            }
            return false;
        }
        i = i + 1;
    }
    proof {
        assert(a@ =~= b@);
    }
    true
}

/// Copy a byte slice into a fresh vector.
pub fn slice_to_vec_u8(s: &[u8]) -> (r: Vec<u8>)
    ensures
        r@ == s@,
{
    let mut v: Vec<u8> = Vec::new();
    let n = s.len();
    let mut i: usize = 0;
    while i < n
        invariant
            n == s@.len(),
            i <= n,
            v@ == s@.take(i as int),
        decreases n - i,
    {
        v.push(s[i]);
        i = i + 1;
        proof {
            assert(s@.take(i as int) =~= s@.take(i - 1).push(s@[i - 1]));
        }
    }
    proof {
        assert(s@.take(n as int) =~= s@);
    }
    v
}

/// ASCII-uppercase every byte of a slice.
pub fn upper_bytes(s: &[u8]) -> (r: Vec<u8>)
    ensures
        r@ == spec_upper_bytes(s@),
{
    let mut v: Vec<u8> = Vec::new();
    let n = s.len();
    let mut i: usize = 0;
    while i < n
        invariant
            n == s@.len(),
            i <= n,
            v@ =~= spec_upper_bytes(s@).take(i as int),
        decreases n - i,
    {
        let b = s[i];
        if 0x61 <= b && b <= 0x7a {
            v.push(b - 0x20);
        } else {
            v.push(b);
        }
        i = i + 1;
    }
    proof {
        assert(spec_upper_bytes(s@).take(n as int) =~= spec_upper_bytes(s@));
    }
    v
}

/// The HTTP service router: the registered services, the configured
/// homepage and 404 page, the file cache, and the wire codec.
pub struct HttpServer {
    pub services: Vec<Service>,
    pub homepage: Vec<u8>,
    pub not_found: Vec<u8>,
    pub file_system: crate::vfs::Vfs,
    pub smith: crate::smithy::HttpSmithText,
}

/// What finishing a handler's response yields, given the configured
/// pages, the cache contents, the request's headers, and the date
/// header's text.
///
/// An empty body path is replaced by the homepage.  A path that is not
/// sane, or misses the cache, turns the response into a 404 whose body
/// is the configured 404 page.  A hit whose `if-modified-since` date is
/// no older than the file's modification time yields 304 with an empty
/// body.  `server`, `date` and `content-length` headers are appended
/// after any the handler set.
pub open spec fn spec_finish_response(
    homepage: Seq<u8>,
    not_found: Seq<u8>,
    files: Seq<(Seq<u8>, crate::vfs::VfileView)>,
    req_headers: Seq<(Seq<u8>, Seq<u8>)>,
    resp: RespView,
    date: Seq<u8>,
) -> RespView {
    let body0 = if resp.body.len() == 0 {
        homepage
    } else {
        resp.body
    };
    let found = crate::helpers::spec_path_is_sane(body0) && crate::vfs::spec_file_lookup(files, body0)
        is Some;
    if found {
        let f = crate::vfs::spec_file_lookup(files, body0).unwrap();
        let not_modified = match spec_lookup(req_headers, "if-modified-since".spec_bytes()) {
            Some(v) => match crate::http::rfc2822_value(v) {
                Some(t) => t >= f.modified,
                None => false,
            },
            None => false,
        };
        if not_modified {
            spec_with_std_headers(
                RespView {
                    version: resp.version,
                    status: Status::NotModified,
                    headers: resp.headers,
                    body: Seq::empty(),
                },
                date,
                0,
            )
        } else {
            spec_with_std_headers(
                RespView {
                    version: resp.version,
                    status: resp.status,
                    headers: resp.headers,
                    body: body0,
                },
                date,
                f.data.len() as int,
            )
        }
    } else {
        let size = match crate::vfs::spec_file_lookup(files, not_found) {
            Some(f) => f.data.len() as int,
            None => 0,
        };
        spec_with_std_headers(
            RespView {
                version: resp.version,
                status: Status::NotFound,
                headers: resp.headers,
                body: not_found,
            },
            date,
            size,
        )
    }
}

/// What handling a request yields, given the router's configuration,
/// the cache contents, the request, and the date header's text.
///
/// The first matching service decides the base status and the stripped
/// path, which the identity handler passes through; finishing the
/// response then substitutes the homepage, resolves the cache, and
/// appends the standard headers.
pub open spec fn spec_handle_request(
    services: Seq<(Seq<u8>, Method)>,
    homepage: Seq<u8>,
    not_found: Seq<u8>,
    files: Seq<(Seq<u8>, crate::vfs::VfileView)>,
    req: ReqView,
    date: Seq<u8>,
) -> RespView {
    let base: (Status, Seq<u8>) = match spec_route(services, req.method, req.path, 0) {
        Some(i) => (Status::Okay, crate::helpers::spec_strip_prefix(req.path, services[i].0)),
        None => (Status::NotFound, Seq::empty()),
    };
    spec_finish_response(
        homepage,
        not_found,
        files,
        req.headers,
        RespView { version: Version::V_1_1, status: base.0, headers: Seq::empty(), body: base.1 },
        date,
    )
}

/// The standard trailer headers every response carries.
pub open spec fn spec_with_std_headers(r: RespView, date: Seq<u8>, size: int) -> RespView {
    RespView {
        version: r.version,
        status: r.status,
        headers: r.headers.push(("server".spec_bytes(), "simple-server".spec_bytes())).push(
            ("date".spec_bytes(), date),
        ).push(("content-length".spec_bytes(), spec_dec(size))),
        body: r.body,
    }
}

/// The timestamp an RFC 2822 date names, in seconds since the epoch:
/// a function of the text alone.
pub uninterp spec fn rfc2822_value(s: Seq<u8>) -> Option<int>;

/// Relies on chrono's DateTime::parse_from_rfc2822: parsing is a pure
/// function of the text; the timestamp is taken in seconds.
#[verifier::external_body]
fn parse_rfc2822(s: &[u8]) -> (r: Option<i64>)
    ensures
        match r {
            Some(t) => rfc2822_value(s@) == Some(t as int),
            None => rfc2822_value(s@) is None,
        },
{
    match core::str::from_utf8(s) {
        Ok(text) => chrono::DateTime::parse_from_rfc2822(text).ok().map(|d| d.timestamp()),
        Err(_) => None,
    }
}

/// Relies on chrono's Utc::now and to_rfc2822.  The clock decides the
/// text, so nothing is promised of it.  chrono documents that the call
/// panics only on environmental grounds, never on an input: `Utc::now`
/// if the system clock is set before the Unix epoch, `to_rfc2822` for
/// years outside 0 to 9999.
#[verifier::external_body]
fn now_rfc2822() -> String {
    chrono::Utc::now().to_rfc2822()
}

impl HttpServer {
    /// A router with no services, no pages configured, and an empty
    /// cache.
    pub fn new() -> (r: HttpServer)
        ensures
            spec_services(r.services@) =~= Seq::<(Seq<u8>, Method)>::empty(),
            r.homepage@ =~= Seq::<u8>::empty(),
            r.not_found@ =~= Seq::<u8>::empty(),
            crate::vfs::spec_files(r.file_system.files@) =~= Seq::<
                (Seq<u8>, crate::vfs::VfileView),
            >::empty(),
    {
        HttpServer {
            services: Vec::new(),
            homepage: Vec::new(),
            not_found: Vec::new(),
            file_system: crate::vfs::Vfs::new(),
            smith: crate::smithy::HttpSmithText,
        }
    }

    /// Register a service at the end of the ordered list.
    pub fn add_service(&mut self, path: &[u8], method: Method)
        ensures
            spec_services(final(self).services@) == spec_services(old(self).services@).push(
                (path@, method),
            ),
            final(self).homepage == old(self).homepage,
            final(self).not_found == old(self).not_found,
            final(self).file_system == old(self).file_system,
    {
        self.services.push(Service::new(path, method));
        proof {
            assert(spec_services(self.services@) =~= spec_services(old(self).services@).push(
                (path@, method),
            ));
        }
    }

    /// Configure the homepage path.
    pub fn set_homepage(&mut self, path: &[u8])
        ensures
            final(self).homepage@ == path@,
            final(self).services == old(self).services,
            final(self).not_found == old(self).not_found,
            final(self).file_system == old(self).file_system,
    {
        self.homepage = slice_to_vec_u8(path);
    }

    /// Configure the 404 page path.
    pub fn set_404_page(&mut self, path: &[u8])
        ensures
            final(self).not_found@ == path@,
            final(self).services == old(self).services,
            final(self).homepage == old(self).homepage,
            final(self).file_system == old(self).file_system,
    {
        self.not_found = slice_to_vec_u8(path);
    }

    /// Configure the client root directory the embedder loads files
    /// from.
    pub fn set_client_directory(&mut self, path: &[u8])
        ensures
            final(self).file_system.client_dir@ == path@,
            final(self).file_system.files == old(self).file_system.files,
            final(self).services == old(self).services,
            final(self).homepage == old(self).homepage,
            final(self).not_found == old(self).not_found,
    {
        self.file_system.client_dir = slice_to_vec_u8(path);
    }

    /// The first service that accepts this request.
    pub fn route(&self, request: &Request) -> (r: Option<usize>)
        ensures
            match r {
                Some(i) => spec_route(
                    spec_services(self.services@),
                    request@.method,
                    request@.path,
                    0,
                ) == Some(i as int) && i < self.services@.len(),
                None => spec_route(
                    spec_services(self.services@),
                    request@.method,
                    request@.path,
                    0,
                ) is None,
            },
    {
        let n = self.services.len();
        let ghost sv = spec_services(self.services@);
        let mut i: usize = 0;
        while i < n
            invariant
                n == self.services@.len(),
                sv == spec_services(self.services@),
                i <= n,
                spec_route(sv, request@.method, request@.path, 0) == spec_route(
                    sv,
                    request@.method,
                    request@.path,
                    i as int,
                ),
            decreases n - i,
        {
            let s = &self.services[i];
            proof {
                assert(sv[i as int] == (s.path@, s.method));
            }
            if crate::helpers::path_starts_with(request.path.as_slice(), s.path.as_slice()) && (
            request.method == s.method || s.method == Method::ANY) {
                return Some(i);
            }
            i = i + 1;
        }
        None
    }

    /// The request's path with the matched service's prefix stripped,
    /// segment-wise.  `i` is the index `route` returned.
    pub fn stripped_path(&self, request: &Request, i: usize) -> (r: Vec<u8>)
        requires
            i < self.services@.len(),
            spec_route(spec_services(self.services@), request@.method, request@.path, 0) == Some(
                i as int,
            ),
        ensures
            r@ == crate::helpers::spec_strip_prefix(
                request@.path,
                spec_services(self.services@)[i as int].0,
            ),
    {
        let segs = crate::helpers::path_segments(request.path.as_slice());
        let psegs = crate::helpers::path_segments(self.services[i].path.as_slice());
        let pn = psegs.len();
        let sn = segs.len();
        let from = if pn <= sn {
            pn
        } else {
            sn
        };
        proof {
            assert(spec_services(self.services@)[i as int] == (
                self.services@[i as int].path@,
                self.services@[i as int].method,
            ));
            crate::http::lemma_route_matches(
                spec_services(self.services@),
                request@.method,
                request@.path,
                i as int,
            );
        }
        let joined = crate::helpers::join_segments(&segs, from);
        proof {
            let sv = spec_services(self.services@);
            assert(crate::helpers::spec_path_starts_with(request@.path, sv[i as int].0));
            assert(from as int == crate::helpers::spec_segments(sv[i as int].0).len());
            assert(joined@ == crate::helpers::spec_strip_prefix(request@.path, sv[i as int].0));
        }
        joined
    }

    /// Finish a handler's response: substitute the homepage for an empty
    /// body path, turn an insane or uncached path into the configured
    /// 404, answer an up-to-date `if-modified-since` with 304, and
    /// append the `server`, `date` and `content-length` headers.
    pub fn finish_response(&self, request: &Request, resp: Response, date: &[u8]) -> (r: Response)
        ensures
            r@ == spec_finish_response(
                self.homepage@,
                self.not_found@,
                crate::vfs::spec_files(self.file_system.files@),
                request@.headers,
                resp@,
                date@,
            ),
    {
        let ghost rv = resp@;
        let version = resp.version;
        let status = resp.status;
        let headers = resp.headers;
        let body = resp.body;
        let body0 = if body.len() == 0 {
            crate::helpers::clone_vec_u8(&self.homepage)
        } else {
            body
        };
        let sane = crate::helpers::path_is_sane(body0.as_slice());
        let mut file_size: usize = 0;
        let mut found = false;
        if sane {
            match self.file_system.get(body0.as_slice()) {
                Some(f) => {
                    file_size = f.data.len();
                    found = true;
                },
                None => {},
            }
        }
        let mut response: Response;
        let mut size: usize;
        if found {
            let mut not_modified = false;
            match crate::helpers::lookup_kv(&request.headers, "if-modified-since".as_bytes()) {
                Some(v) => {
                    match parse_rfc2822(v.as_slice()) {
                        Some(t) => {
                            let f = match self.file_system.get(body0.as_slice()) {
                                Some(f) => f,
                                None => {
                                    proof {
                                        assert(false);
                                    }
                                    return Response {
                                        version: Version::V_1_1,
                                        status: Status::NotFound,
                                        headers: Vec::new(),
                                        body: Vec::new(),
                                    };
                                },
                            };
                            not_modified = t >= f.modified;
                        },
                        None => {},
                    }
                },
                None => {},
            }
            if not_modified {
                response = Response {
                    version,
                    status: Status::NotModified,
                    headers,
                    body: Vec::new(),
                };
                size = 0;
            } else {
                response = Response { version, status, headers, body: body0 };
                size = file_size;
            }
        } else {
            size = match self.file_system.get_size(self.not_found.as_slice()) {
                Some(s) => s,
                None => 0,
            };
            response = Response {
                version,
                status: Status::NotFound,
                headers,
                body: crate::helpers::clone_vec_u8(&self.not_found),
            };
        }
        response.add_header("server".as_bytes(), "simple-server".as_bytes());
        response.add_header("date".as_bytes(), date);
        let cl = dec_bytes(size);
        response.add_header("content-length".as_bytes(), cl.as_slice());
        proof {
            let files = crate::vfs::spec_files(self.file_system.files@);
            let spec_r = spec_finish_response(
                self.homepage@,
                self.not_found@,
                files,
                request@.headers,
                rv,
                date@,
            );
            assert(response@.version == spec_r.version);
            assert(response@.status == spec_r.status);
            assert(response@.body == spec_r.body);
            let b0 = if rv.body.len() == 0 {
                self.homepage@
            } else {
                rv.body
            };
            let fnd = crate::helpers::spec_path_is_sane(b0) && crate::vfs::spec_file_lookup(
                files,
                b0,
            ) is Some;
            if fnd {
                let f = crate::vfs::spec_file_lookup(files, b0).unwrap();
                let nm = match spec_lookup(request@.headers, "if-modified-since".spec_bytes()) {
                    Some(v) => match rfc2822_value(v) {
                        Some(t) => t >= f.modified,
                        None => false,
                    },
                    None => false,
                };
                if nm {
                    assert(size == 0);
                } else {
                    assert(size as int == f.data.len());
                }
            } else {
                assert(size as int == match crate::vfs::spec_file_lookup(
                    files,
                    self.not_found@,
                ) {
                    Some(f) => f.data.len() as int,
                    None => 0int,
                });
            }
            assert(response@.headers =~= rv.headers.push(
                ("server".spec_bytes(), "simple-server".spec_bytes()),
            ).push(("date".spec_bytes(), date@)).push(
                ("content-length".spec_bytes(), spec_dec(size as int)),
            ));
            assert(response@.headers =~= spec_r.headers);
            assert(response@ == spec_r);
        }
        response
    }

    /// Handle one request against the router's configuration and the
    /// cache, with the given date header text: route, strip the matched
    /// prefix into the identity handler's response, and finish it.
    pub fn handle_request_at(&self, request: &Request, date: &[u8]) -> (r: Response)
        ensures
            r@ == spec_handle_request(
                spec_services(self.services@),
                self.homepage@,
                self.not_found@,
                crate::vfs::spec_files(self.file_system.files@),
                request@,
                date@,
            ),
    {
        let routed = self.route(request);
        let (status0, stripped): (Status, Vec<u8>) = match routed {
            Some(i) => (Status::Okay, self.stripped_path(request, i)),
            None => (Status::NotFound, Vec::new()),
        };
        proof {
            let sv = spec_services(self.services@);
            match spec_route(sv, request@.method, request@.path, 0) {
                Some(i) => {
                    assert(status0 == Status::Okay);
                    assert(stripped@ == crate::helpers::spec_strip_prefix(
                        request@.path,
                        sv[i].0,
                    ));
                },
                None => {
                    assert(status0 == Status::NotFound);
                    assert(stripped@ =~= Seq::<u8>::empty());
                },
            }
        }
        let resp0 = Response {
            version: Version::V_1_1,
            status: status0,
            headers: Vec::new(),
            body: stripped,
        };
        proof {
            assert(resp0@.headers =~= Seq::<(Seq<u8>, Seq<u8>)>::empty());
        }
        self.finish_response(request, resp0, date)
    }

    /// Serialize a response's head and pair it with the cached body
    /// bytes its path names — an uncached path delivers an empty body —
    /// ready for the sender.  `None` exactly when the combined length
    /// cannot fit the machine's address space.
    pub fn package_response(&self, response: &Response) -> (r: Option<crate::vfs::Package>)
        ensures
            ({
                let head = crate::smithy::spec_serialize(
                    response@.version,
                    response@.status,
                    response@.headers,
                );
                let body = match crate::vfs::spec_file_lookup(
                    crate::vfs::spec_files(self.file_system.files@),
                    response@.body,
                ) {
                    Some(f) => f,
                    None => (crate::vfs::VfileView { data: Seq::empty(), modified: 0 }),
                };
                match r {
                    Some(p) => p.head@ == head && p.body@ == body && p.writ == 0
                        && crate::server_G::SendTo::send_inv(&p),
                    None => head.len() + body.data.len() > usize::MAX,
                }
            }),
    {
        let (head, body_path) = self.smith.serialize(response);
        let body: crate::vfs::V_file = match self.file_system.get(body_path.as_slice()) {
            Some(f) => crate::vfs::V_file {
                data: crate::helpers::clone_vec_u8(&f.data),
                modified: f.modified,
            },
            None => crate::vfs::V_file { data: Vec::new(), modified: 0 },
        };
        if body.data.len() > usize::MAX - head.len() {
            return None;
        }
        Some(crate::vfs::Package::new(head, body))
    }

    /// Handle one request: the date header carries what the clock said
    /// when the response was made.
    pub fn handle_request(&mut self, request: Request) -> (r: Response)
        ensures
            exists|date: Seq<u8>|
                r@ == #[trigger] spec_handle_request(
                    spec_services(old(self).services@),
                    old(self).homepage@,
                    old(self).not_found@,
                    crate::vfs::spec_files(old(self).file_system.files@),
                    request@,
                    date,
                ),
            *final(self) == *old(self),
    {
        let date = now_rfc2822();
        let db = date.as_str().as_bytes();
        let r = self.handle_request_at(&request, db);
        proof {
            assert(r@ == spec_handle_request(
                spec_services(self.services@),
                self.homepage@,
                self.not_found@,
                crate::vfs::spec_files(self.file_system.files@),
                request@,
                db@,
            ));
        }
        r
    }
}

/// A route hit means the service's prefix matched.
pub proof fn lemma_route_matches(
    services: Seq<(Seq<u8>, Method)>,
    m: Method,
    path: Seq<u8>,
    i: int,
)
    requires
        spec_route(services, m, path, 0) == Some(i),
    ensures
        0 <= i < services.len(),
        spec_service_matches(path, m, services[i].0, services[i].1),
    decreases services.len(),
{
    lemma_route_matches_from(services, m, path, 0, i);
}

proof fn lemma_route_matches_from(
    services: Seq<(Seq<u8>, Method)>,
    m: Method,
    path: Seq<u8>,
    j: int,
    i: int,
)
    requires
        0 <= j,
        spec_route(services, m, path, j) == Some(i),
    ensures
        j <= i < services.len(),
        spec_service_matches(path, m, services[i].0, services[i].1),
    decreases services.len() - j,
{
    if j < services.len() && !spec_service_matches(path, m, services[j].0, services[j].1) {
        lemma_route_matches_from(services, m, path, j + 1, i);
    }
}

} // verus!
