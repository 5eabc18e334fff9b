//! The HTTP/1.1 wire codec: request parsing and response serialization.
//!
//! The parser follows the RFC 9112 subset this server speaks: it locates
//! the `\r\n\r\n` header terminator (rejecting bare carriage returns and
//! bytes at or above 0x80 in the head), splits the request line on single
//! spaces, folds header keys to lower case, and frames the body by
//! `content-length` alone.  A leading `\r\n\r\n` is consumed without being
//! treated as a request.  Bytes past the parsed request are left for the
//! next parse.

use vstd::prelude::*;
use vstd::string::StringSliceAdditionalSpecFns;

use crate::helpers::{
    find_byte, find_byte_exec, find_crlf, find_crlf_exec, is_ws, is_ws_exec, lower_bytes,
    parse_usize, spec_lower_bytes, spec_parse_usize, spec_lines, spec_split, spec_trim,
    split_exec, trim_bytes, insert_kv, clone_vec_u8, lemma_find_byte_bounds,
    lemma_find_crlf_bounds, spec_trim_start,
};
use crate::http::{
    bytes_eq, slice_to_vec_u8, spec_headers, spec_insert, spec_kvs, spec_parse_method,
    spec_parse_version, spec_status_line_bytes, spec_version_bytes, Method, ReqView, Request,
    Response, Status, Version,
};

verus! {

/// Why a parse failed.  `Incomplete` means more bytes may repair it; every
/// other variant is a protocol violation.
#[derive(Debug, PartialEq, Eq, Structural, Clone, Copy)]
pub enum ParseError {
    Incomplete,
    InvalidCharacter,
    TerminatorNotFound,
    BareCarriageReturn,
    BadStatusLine,
    BadMethod,
    UnknownVersion,
    BadQuery,
    MissingValueInField,
    WhitespaceBeforeColon,
    DeprecatedHeaderFolding,
    InvalidContentLength,
    WhiteSpaceAfterStartLine,
}

/// The text codec for HTTP/1.1.
#[derive(Debug, Clone, Copy, Default)]
pub struct HttpSmithText;

/// The four bytes `\r\n\r\n` stand at position `i` of `s`.
pub open spec fn terminator_at(s: Seq<u8>, i: int) -> bool {
    &&& i + 4 <= s.len()
    &&& s[i] == 0x0d
    &&& s[i + 1] == 0x0a
    &&& s[i + 2] == 0x0d
    &&& s[i + 3] == 0x0a
}

/// The outcome of scanning for the header terminator.
pub ghost enum HeadScan {
    Found(int),
    Incomplete,
    BareCr,
    HighByte,
}

/// Scan from position `i` for the first header terminator, rejecting a
/// carriage return not followed by a line feed and any byte >= 0x80.
pub open spec fn spec_scan_head(s: Seq<u8>, i: int) -> HeadScan
    decreases s.len() - i,
    when 0 <= i <= s.len()
{
    if i >= s.len() {
        HeadScan::Incomplete
    } else if s[i] == 0x0d {
        if i + 1 < s.len() && s[i + 1] == 0x0a {
            if terminator_at(s, i) {
                HeadScan::Found(i)
            } else {
                spec_scan_head(s, i + 1)
            }
        } else {
            HeadScan::BareCr
        }
    } else if s[i] >= 0x80 {
        HeadScan::HighByte
    } else {
        spec_scan_head(s, i + 1)
    }
}

/// The input starts with `\r\n\r\n`.
pub open spec fn spec_starts_crlf2(b: Seq<u8>) -> bool {
    b.len() >= 4 && b[0] == 0x0d && b[1] == 0x0a && b[2] == 0x0d && b[3] == 0x0a
}

/// One query parameter list folded from `&`-separated `k=v` segments,
/// later keys replacing earlier equal ones.
pub open spec fn spec_query_fold(
    params: Seq<Seq<u8>>,
    i: int,
    acc: Seq<(Seq<u8>, Seq<u8>)>,
) -> Result<Seq<(Seq<u8>, Seq<u8>)>, ParseError>
    decreases params.len() - i,
    when 0 <= i
{
    if i >= params.len() {
        Ok(acc)
    } else {
        match find_byte(params[i], 0x3d, 0) {
            None => Err(ParseError::BadQuery),
            Some(e) => spec_query_fold(
                params,
                i + 1,
                spec_insert(acc, params[i].take(e), params[i].skip(e + 1)),
            ),
        }
    }
}

/// What parsing a query string yields.
pub open spec fn spec_parse_query(q: Seq<u8>) -> Result<Seq<(Seq<u8>, Seq<u8>)>, ParseError> {
    spec_query_fold(spec_split(q, 0x26), 0, Seq::empty())
}

/// What parsing the request line yields: method, path, query parameters
/// and version, or the first error in the order the checks are made.
pub open spec fn spec_request_line(line: Seq<u8>) -> Result<
    (Method, Seq<u8>, Seq<(Seq<u8>, Seq<u8>)>, Version),
    ParseError,
> {
    let rl = spec_split(line, 0x20);
    if rl.len() != 3 {
        Err(ParseError::BadStatusLine)
    } else {
        match spec_parse_method(rl[0]) {
            None => Err(ParseError::BadMethod),
            Some(m) => {
                let t = rl[1];
                let path = match find_byte(t, 0x3f, 0) {
                    Some(q) => t.take(q),
                    None => t,
                };
                let queryres = match find_byte(t, 0x3f, 0) {
                    Some(q) => spec_parse_query(t.skip(q + 1)),
                    None => Ok(Seq::<(Seq<u8>, Seq<u8>)>::empty()),
                };
                match queryres {
                    Err(e) => Err(e),
                    Ok(query) => {
                        let vt = rl[2];
                        if vt.len() > 0 && is_ws(vt[vt.len() - 1]) {
                            Err(ParseError::WhiteSpaceAfterStartLine)
                        } else {
                            match spec_parse_version(vt) {
                                None => Err(ParseError::UnknownVersion),
                                Some(v) => Ok((m, path, query, v)),
                            }
                        }
                    },
                }
            },
        }
    }
}

/// The header fold `fold0` of a request whose request line parsed as
/// `(m, path, q, v)` decides the whole parse: an error is the parse's
/// error, and a final accumulator completes the request.
pub open spec fn spec_fold_decides(
    b: Seq<u8>,
    fold0: Result<HeadersOut, ParseError>,
    m: Method,
    path: Seq<u8>,
    q: Seq<(Seq<u8>, Seq<u8>)>,
    v: Version,
) -> bool {
    spec_deserialize(b) == match fold0 {
        Err(e) => Err::<(ReqView, int), ParseError>(e),
        Ok(out) => Ok(
            (
                ReqView {
                    method: m,
                    path: path,
                    version: v,
                    headers: out.headers,
                    query_params: q,
                    body: out.body,
                },
                b.len() - out.rest.len(),
            ),
        ),
    }
}

/// The accumulator of the header fold: the headers gathered so far, the
/// body taken so far, and the bytes not yet claimed by anything.
pub ghost struct HeadersOut {
    pub headers: Seq<(Seq<u8>, Seq<u8>)>,
    pub body: Seq<u8>,
    pub rest: Seq<u8>,
}

/// Fold the header lines from index `i` on: split each at the first
/// colon, lowercase the key, trim the value, reject whitespace before the
/// colon and deprecated line folding, and on `content-length` take that
/// many bytes of the remainder as the body.
pub open spec fn spec_headers_fold(lines: Seq<Seq<u8>>, i: int, acc: HeadersOut) -> Result<
    HeadersOut,
    ParseError,
>
    decreases lines.len() - i,
    when 0 <= i
{
    if i >= lines.len() {
        Ok(acc)
    } else {
        let line = lines[i];
        match find_byte(line, 0x3a, 0) {
            None => Err(ParseError::MissingValueInField),
            Some(c) => {
                let key = spec_lower_bytes(line.take(c));
                let value = spec_trim(line.skip(c + 1));
                if key.len() > 0 && is_ws(key[key.len() - 1]) {
                    Err(ParseError::WhitespaceBeforeColon)
                } else if key.len() > 0 && is_ws(key[0]) {
                    Err(ParseError::DeprecatedHeaderFolding)
                } else if key == "content-length".spec_bytes() {
                    match spec_parse_usize(value) {
                        None => Err(ParseError::InvalidContentLength),
                        Some(n) => if acc.rest.len() < n {
                            Err(ParseError::Incomplete)
                        } else {
                            spec_headers_fold(
                                lines,
                                i + 1,
                                HeadersOut {
                                    headers: spec_insert(acc.headers, key, value),
                                    body: acc.rest.take(n),
                                    rest: acc.rest.skip(n),
                                },
                            )
                        },
                    }
                } else {
                    spec_headers_fold(
                        lines,
                        i + 1,
                        HeadersOut {
                            headers: spec_insert(acc.headers, key, value),
                            body: acc.body,
                            rest: acc.rest,
                        },
                    )
                }
            },
        }
    }
}

/// What parsing a whole request from `b` yields: the request and the
/// number of bytes consumed, or the first error.  A leading `\r\n\r\n` is
/// stripped and counted as consumed.
pub open spec fn spec_deserialize(b: Seq<u8>) -> Result<(ReqView, int), ParseError> {
    let off: int = if spec_starts_crlf2(b) {
        4
    } else {
        0
    };
    let s = b.skip(off);
    match spec_scan_head(s, 0) {
        HeadScan::Incomplete => Err(ParseError::Incomplete),
        HeadScan::BareCr => Err(ParseError::BareCarriageReturn),
        HeadScan::HighByte => Err(ParseError::InvalidCharacter),
        HeadScan::Found(i) => {
            let head = s.take(i);
            let rest0 = s.skip(i + 4);
            let lines = spec_lines(head);
            match spec_request_line(lines[0]) {
                Err(e) => Err(e),
                Ok((m, path, query, v)) => {
                    match spec_headers_fold(
                        lines,
                        1,
                        HeadersOut { headers: Seq::empty(), body: Seq::empty(), rest: rest0 },
                    ) {
                        Err(e) => Err(e),
                        Ok(out) => Ok(
                            (
                                ReqView {
                                    method: m,
                                    path: path,
                                    version: v,
                                    headers: out.headers,
                                    query_params: query,
                                    body: out.body,
                                },
                                b.len() - out.rest.len(),
                            ),
                        ),
                    }
                },
            }
        },
    }
}

/// Scan a byte slice for the header terminator.
fn scan_head_exec(s: &[u8]) -> (r: Result<usize, ParseError>)
    ensures
        match r {
            Ok(i) => spec_scan_head(s@, 0) == HeadScan::Found(i as int) && terminator_at(
                s@,
                i as int,
            ),
            Err(e) => match e {
                ParseError::Incomplete => spec_scan_head(s@, 0) == HeadScan::Incomplete,
                ParseError::BareCarriageReturn => spec_scan_head(s@, 0) == HeadScan::BareCr,
                ParseError::InvalidCharacter => spec_scan_head(s@, 0) == HeadScan::HighByte,
                _ => false,
            },
        },
{
    let n = s.len();
    let mut i: usize = 0;
    while i < n
        invariant
            n == s@.len(),
            i <= n,
            spec_scan_head(s@, 0) == spec_scan_head(s@, i as int),
        decreases n - i,
    {
        let b = s[i];
        if b == 0x0d {
            if n - i >= 2 && s[i + 1] == 0x0a {
                if n - i >= 4 && s[i + 2] == 0x0d && s[i + 3] == 0x0a {
                    return Ok(i);
                }
            } else {
                return Err(ParseError::BareCarriageReturn);
            }
        } else if b >= 0x80 {
            return Err(ParseError::InvalidCharacter);
        }
        i = i + 1;
    }
    Err(ParseError::Incomplete)
}

/// Parse the `&`-separated `k=v` pairs of a query string into an
/// association list, later values replacing earlier ones for equal keys.
pub fn parse_query_parameters(query: &[u8]) -> (r: Result<Vec<(Vec<u8>, Vec<u8>)>, ParseError>)
    ensures
        match r {
            Ok(v) => spec_parse_query(query@) == Ok::<_, ParseError>(spec_kvs(v@)),
            Err(e) => spec_parse_query(query@) == Err::<Seq<(Seq<u8>, Seq<u8>)>, _>(e),
        },
{
    let params = split_exec(query, 0x26);
    let ghost pv = params@.map_values(|x: Vec<u8>| x@);
    let mut acc: Vec<(Vec<u8>, Vec<u8>)> = Vec::new();
    proof {
        assert(spec_kvs(acc@) =~= Seq::<(Seq<u8>, Seq<u8>)>::empty());
    }
    let n = params.len();
    let mut i: usize = 0;
    while i < n
        invariant
            n == params@.len(),
            pv == params@.map_values(|x: Vec<u8>| x@),
            i <= n,
            spec_parse_query(query@) == spec_query_fold(pv, i as int, spec_kvs(acc@)),
        decreases n - i,
    {
        let param = params[i].as_slice();
        proof {
            assert(param@ == pv[i as int]);
        }
        match find_byte_exec(param, 0x3d) {
            None => {
                return Err(ParseError::BadQuery);
            },
            Some(e) => {
                proof {
                    lemma_find_byte_bounds(param@, 0x3d, 0);
                }
                let key = slice_to_vec_u8(vstd::slice::slice_subrange(param, 0, e));
                let pl = param.len();
                let value = slice_to_vec_u8(vstd::slice::slice_subrange(param, e + 1, pl));
                proof {
                    assert(key@ =~= pv[i as int].take(e as int));
                    assert(value@ =~= pv[i as int].skip(e + 1));
                }
                insert_kv(&mut acc, key, value);
            },
        }
        i = i + 1;
    }
    Ok(acc)
}

/// Parse the request line: three space-separated tokens, the target split
/// once at `?` into path and query.
fn parse_request_line(line: &[u8]) -> (r: Result<
    (Method, Vec<u8>, Vec<(Vec<u8>, Vec<u8>)>, Version),
    ParseError,
>)
    ensures
        match r {
            Ok(t) => spec_request_line(line@) == Ok::<_, ParseError>(
                (t.0, t.1@, spec_kvs(t.2@), t.3),
            ),
            Err(e) => spec_request_line(line@) == Err::<
                (Method, Seq<u8>, Seq<(Seq<u8>, Seq<u8>)>, Version),
                _,
            >(e),
        },
{
    let parts = split_exec(line, 0x20);
    let ghost rl = spec_split(line@, 0x20);
    proof {
        assert(parts@.map_values(|x: Vec<u8>| x@) == rl);
    }
    if parts.len() != 3 {
        return Err(ParseError::BadStatusLine);
    }
    proof {
        assert(parts@[0]@ == rl[0]);
        assert(parts@[1]@ == rl[1]);
        assert(parts@[2]@ == rl[2]);
    }
    let method = match Method::parse(parts[0].as_slice()) {
        Some(m) => m,
        None => {
            return Err(ParseError::BadMethod);
        },
    };
    let target = parts[1].as_slice();
    let mut path: Vec<u8>;
    let mut query: Vec<(Vec<u8>, Vec<u8>)>;
    match find_byte_exec(target, 0x3f) {
        Some(q) => {
            proof {
                lemma_find_byte_bounds(target@, 0x3f, 0);
            }
            path = slice_to_vec_u8(vstd::slice::slice_subrange(target, 0, q));
            let tl = target.len();
            query =
            match parse_query_parameters(vstd::slice::slice_subrange(target, q + 1, tl)) {
                Ok(v) => v,
                Err(e) => {
                    proof {
                        assert(target@.subrange(q + 1, tl as int) =~= rl[1].skip(q + 1));
                    }
                    return Err(e);
                },
            };
            proof {
                assert(path@ =~= rl[1].take(q as int));
                assert(target@.subrange(q + 1, tl as int) =~= rl[1].skip(q + 1));
            }
        },
        None => {
            path = slice_to_vec_u8(target);
            query = Vec::new();
            proof {
                assert(spec_kvs(query@) =~= Seq::<(Seq<u8>, Seq<u8>)>::empty());
            }
        },
    }
    let vt = parts[2].as_slice();
    let vl = vt.len();
    if vl > 0 && is_ws_exec(vt[vl - 1]) {
        return Err(ParseError::WhiteSpaceAfterStartLine);
    }
    let version = match Version::parse(vt) {
        Some(v) => v,
        None => {
            return Err(ParseError::UnknownVersion);
        },
    };
    Ok((method, path, query, version))
}

impl HttpSmithText {
    /// Parse one request from the committed bytes.  On success the request
    /// and the number of bytes consumed are returned; the unconsumed
    /// remainder, `buf.len() - consumed` bytes, is left for the next
    /// parse.  `Incomplete` asks the caller to wait for more bytes; every
    /// other error is a protocol violation.
    pub fn deserialize(&self, buf: &[u8]) -> (r: Result<(Request, usize), ParseError>)
        ensures
            match r {
                Ok(p) => spec_deserialize(buf@) == Ok::<_, ParseError>((p.0@, p.1 as int))
                    && p.1 <= buf@.len(),
                Err(e) => spec_deserialize(buf@) == Err::<(ReqView, int), _>(e),
            },
    {
        let n = buf.len();
        let off: usize = if n >= 4 && buf[0] == 0x0d && buf[1] == 0x0a && buf[2] == 0x0d
            && buf[3] == 0x0a {
            4
        } else {
            0
        };
        let s = vstd::slice::slice_subrange(buf, off, n);
        proof {
            assert(s@ =~= buf@.skip(off as int));
        }
        let term = match scan_head_exec(s) {
            Ok(i) => i,
            Err(e) => {
                return Err(e);
            },
        };
        let head = vstd::slice::slice_subrange(s, 0, term);
        let ghost headv = buf@.skip(off as int).take(term as int);
        proof {
            assert(head@ =~= headv);
        }
        let ghost lines = spec_lines(headv);
        let hl = head.len();
        let (rl_end, has_more): (usize, bool) = match find_crlf_exec(head) {
            Some(j) => (j, true),
            None => (hl, false),
        };
        let line0 = vstd::slice::slice_subrange(head, 0, rl_end);
        proof {
            if has_more {
                assert(lines == seq![headv.take(rl_end as int)] + spec_lines(
                    headv.skip(rl_end + 2),
                ));
                assert(line0@ =~= headv.take(rl_end as int));
            } else {
                assert(lines == seq![headv]);
                assert(line0@ =~= headv);
            }
            assert(lines[0] == line0@);
        }
        let (method, path, query, version) = match parse_request_line(line0) {
            Ok(t) => t,
            Err(e) => {
                return Err(e);
            },
        };
        // Header lines, folding the body out of the post-terminator bytes.
        let mut headers: Vec<(Vec<u8>, Vec<u8>)> = Vec::new();
        let mut body: Vec<u8> = Vec::new();
        let mut rs: usize = off + term + 4;
        let ghost init = HeadersOut {
            headers: Seq::empty(),
            body: Seq::empty(),
            rest: buf@.skip(off + term + 4),
        };
        let ghost fold0 = spec_headers_fold(lines, 1, init);
        proof {
            assert(buf@.skip(off as int).skip(term + 4) =~= buf@.skip(off + term + 4));
            assert(spec_kvs(headers@) =~= Seq::<(Seq<u8>, Seq<u8>)>::empty());
            assert(body@ =~= Seq::<u8>::empty());
            assert(off as int == if spec_starts_crlf2(buf@) {
                4int
            } else {
                0int
            });
            assert(headv == buf@.skip(off as int).take(term as int));
            assert(spec_fold_decides(buf@, fold0, method, path@, spec_kvs(query@), version));
        }
        let mut p: usize = if has_more {
            rl_end + 2
        } else {
            hl
        };
        let ghost mut k: int = 1;
        let mut done = !has_more;
        proof {
            if has_more {
                assert(lines.skip(1) =~= spec_lines(headv.skip(p as int)));
            } else {
                assert(k == lines.len());
            }
        }
        while !done
            invariant
                n == buf@.len(),
                off + term + 4 <= n,
                head@ == headv,
                headv == buf@.skip(off as int).take(term as int),
                hl == headv.len(),
                lines == spec_lines(headv),
                1 <= k <= lines.len(),
                p <= hl,
                rs <= n,
                off + term + 4 <= rs,
                done ==> k == lines.len(),
                !done ==> lines.skip(k) == spec_lines(headv.skip(p as int)),
                fold0 == spec_headers_fold(
                    lines,
                    k,
                    HeadersOut {
                        headers: spec_kvs(headers@),
                        body: body@,
                        rest: buf@.skip(rs as int),
                    },
                ),
                spec_fold_decides(buf@, fold0, method, path@, spec_kvs(query@), version),
            decreases lines.len() - k,
        {
            let ghost cur = HeadersOut {
                headers: spec_kvs(headers@),
                body: body@,
                rest: buf@.skip(rs as int),
            };
            let suffix = vstd::slice::slice_subrange(head, p, hl);
            proof {
                assert(suffix@ =~= headv.skip(p as int));
                assert(spec_lines(suffix@) == lines.skip(k));
                assert(spec_lines(suffix@).len() >= 1);
                assert(k < lines.len());
                assert(lines[k as int] == spec_lines(suffix@)[0]);
            }
            let sl = suffix.len();
            let (line_end, more): (usize, bool) = match find_crlf_exec(suffix) {
                Some(j) => (j, true),
                None => (sl, false),
            };
            let line = vstd::slice::slice_subrange(suffix, 0, line_end);
            proof {
                if more {
                    assert(spec_lines(suffix@) == seq![suffix@.take(line_end as int)]
                        + spec_lines(suffix@.skip(line_end + 2)));
                } else {
                    assert(spec_lines(suffix@) == seq![suffix@]);
                }
                assert(line@ =~= suffix@.take(line_end as int));
                assert(lines[k as int] == line@);
            }
            // Process one header line, mirroring one unfolding of the fold.
            let c = match find_byte_exec(line, 0x3a) {
                Some(c) => c,
                None => {
                    proof {
                        assert(spec_headers_fold(lines, k, cur) == Err::<HeadersOut, _>(
                            ParseError::MissingValueInField,
                        ));
                    }
                    return Err(ParseError::MissingValueInField);
                },
            };
            proof {
                lemma_find_byte_bounds(line@, 0x3a, 0);
            }
            let key = lower_bytes(vstd::slice::slice_subrange(line, 0, c));
            let ll = line.len();
            let value = trim_bytes(vstd::slice::slice_subrange(line, c + 1, ll));
            proof {
                assert(line@.subrange(0, c as int) =~= line@.take(c as int));
                assert(line@.subrange(c + 1, ll as int) =~= line@.skip(c + 1));
            }
            proof {
                assert(key@ == spec_lower_bytes(lines[k as int].take(c as int)));
                assert(value@ == spec_trim(lines[k as int].skip(c + 1)));
            }
            let kl = key.len();
            if kl > 0 && is_ws_exec(key[kl - 1]) {
                proof {
                    assert(spec_headers_fold(lines, k, cur) == Err::<HeadersOut, _>(
                        ParseError::WhitespaceBeforeColon,
                    ));
                }
                return Err(ParseError::WhitespaceBeforeColon);
            }
            if kl > 0 && is_ws_exec(key[0]) {
                proof {
                    assert(spec_headers_fold(lines, k, cur) == Err::<HeadersOut, _>(
                        ParseError::DeprecatedHeaderFolding,
                    ));
                }
                return Err(ParseError::DeprecatedHeaderFolding);
            }
            if bytes_eq(key.as_slice(), "content-length".as_bytes()) {
                let cl = match parse_usize(value.as_slice()) {
                    Some(cl) => cl,
                    None => {
                        proof {
                            assert(spec_headers_fold(lines, k, cur) == Err::<HeadersOut, _>(
                                ParseError::InvalidContentLength,
                            ));
                        }
                        return Err(ParseError::InvalidContentLength);
                    },
                };
                if n - rs < cl {
                    proof {
                        assert(cur.rest.len() == n - rs);
                        assert(spec_headers_fold(lines, k, cur) == Err::<HeadersOut, _>(
                            ParseError::Incomplete,
                        ));
                    }
                    return Err(ParseError::Incomplete);
                }
                body = slice_to_vec_u8(vstd::slice::slice_subrange(buf, rs, rs + cl));
                proof {
                    assert(body@ =~= buf@.skip(rs as int).take(cl as int));
                    assert(buf@.skip(rs as int).skip(cl as int) =~= buf@.skip(rs + cl));
                }
                rs = rs + cl;
                insert_kv(&mut headers, key, value);
            } else {
                insert_kv(&mut headers, key, value);
            }
            proof {
                k = k + 1;
                if more {
                    assert(suffix@.skip(line_end + 2) =~= headv.skip(
                        p + line_end + 2,
                    ));
                    assert(lines.skip(k) =~= spec_lines(suffix@).skip(1));
                }
            }
            if more {
                p = p + line_end + 2;
            } else {
                p = hl;
                done = true;
                proof {
                    assert(spec_lines(suffix@).len() == 1);
                    assert(k == lines.len());
                }
            }
        }
        let request = Request { method, path, version, headers, query_params: query, body };
        proof {
            assert(spec_headers_fold(lines, k, HeadersOut {
                headers: spec_kvs(request.headers@),
                body: request.body@,
                rest: buf@.skip(rs as int),
            }) == Ok::<_, ParseError>(HeadersOut {
                headers: spec_kvs(request.headers@),
                body: request.body@,
                rest: buf@.skip(rs as int),
            }));
            assert(n - buf@.skip(rs as int).len() == rs);
        }
        Ok((request, rs))
    }
}

impl crate::server_G::Parser<Request, ParseError> for HttpSmithText {
    /// One parse call yields exactly what `spec_deserialize` says of the
    /// bytes: the parsed request and its consumed count, no progress on
    /// an incomplete request, or the violation found.
    open spec fn parse_rel(
        pre: Self,
        buf: Seq<u8>,
        r: Result<(Option<Request>, int), ParseError>,
        post: Self,
    ) -> bool {
        match r {
            Ok((Some(req), c)) => spec_deserialize(buf) == Ok::<_, ParseError>((req@, c)),
            Ok((None, c)) => c == 0 && spec_deserialize(buf) == Err::<(ReqView, int), _>(
                ParseError::Incomplete,
            ),
            Err(e) => e != ParseError::Incomplete && spec_deserialize(buf) == Err::<
                (ReqView, int),
                _,
            >(e),
        }
    }

    /// One parser step for the reactor: an incomplete request consumes
    /// nothing and produces nothing, so the reactor waits for more
    /// bytes.
    fn parse(&mut self, buf: &[u8]) -> (r: Result<(Option<Request>, usize), ParseError>)
        ensures
            match r {
                Ok(p) => match p.0 {
                    Some(req) => spec_deserialize(buf@) == Ok::<_, ParseError>(
                        (req@, p.1 as int),
                    ),
                    None => p.1 == 0 && spec_deserialize(buf@) == Err::<(ReqView, int), _>(
                        ParseError::Incomplete,
                    ),
                },
                Err(e) => e != ParseError::Incomplete && spec_deserialize(buf@) == Err::<
                    (ReqView, int),
                    _,
                >(e),
            },
    {
        match self.deserialize(buf) {
            Ok((req, consumed)) => Ok((Some(req), consumed)),
            Err(ParseError::Incomplete) => Ok((None, 0)),
            Err(e) => Err(e),
        }
    }
}

/// The reactor instantiated for plain HTTP: package deliveries out,
/// requests in, no application handshake.
pub type HttpServer2 = crate::server_G::Server_G<
    crate::vfs::Package,
    HttpSmithText,
    Request,
    ParseError,
    crate::server_G::NoopHandshaker,
>;

/// Every successfully parsed request leaves exactly the bytes it did
/// not consume: the remaining bytes plus the consumed count equal the
/// input length.
pub proof fn lemma_consumed_accounts_for_input(b: Seq<u8>)
    ensures
        match spec_deserialize(b) {
            Ok(p) => 0 <= p.1 <= b.len() && (b.len() - p.1) + p.1 == b.len(),
            Err(_) => true,
        },
{
    let off: int = if spec_starts_crlf2(b) {
        4
    } else {
        0
    };
    let s = b.skip(off);
    match spec_scan_head(s, 0) {
        HeadScan::Found(i) => {
            let lines = spec_lines(s.take(i));
            let init = HeadersOut {
                headers: Seq::empty(),
                body: Seq::empty(),
                rest: s.skip(i + 4),
            };
            lemma_scan_found_bounds(s, 0);
            lemma_fold_rest_shrinks(lines, 1, init);
        },
        _ => {},
    }
}

/// A leading `\r\n\r\n` — whitespace before the request line — is
/// consumed rather than treated as a complete empty request: the parse
/// is the parse of what follows, its consumed count four higher; in
/// particular nothing following is `Incomplete`.  One leading
/// terminator is stripped per parse, so what follows must not begin
/// with another.
pub proof fn lemma_leading_terminator_consumed(b: Seq<u8>)
    requires
        spec_starts_crlf2(b),
        !spec_starts_crlf2(b.skip(4)),
    ensures
        spec_deserialize(b) == match spec_deserialize(b.skip(4)) {
            Ok(p) => Ok::<(ReqView, int), ParseError>((p.0, p.1 + 4)),
            Err(e) => Err::<(ReqView, int), ParseError>(e),
        },
{
    let s = b.skip(4);
    assert(s.skip(0) =~= s);
}

/// A found terminator lies within the scanned bytes.
proof fn lemma_scan_found_bounds(s: Seq<u8>, i: int)
    requires
        0 <= i <= s.len(),
    ensures
        match spec_scan_head(s, i) {
            HeadScan::Found(j) => i <= j && j + 4 <= s.len(),
            _ => true,
        },
    decreases s.len() - i,
{
    if i < s.len() {
        lemma_scan_found_bounds(s, i + 1);
    }
}

/// The header fold only shrinks the unclaimed remainder.
proof fn lemma_fold_rest_shrinks(lines: Seq<Seq<u8>>, i: int, acc: HeadersOut)
    requires
        0 <= i,
    ensures
        match spec_headers_fold(lines, i, acc) {
            Ok(out) => out.rest.len() <= acc.rest.len(),
            Err(_) => true,
        },
    decreases lines.len() - i,
{
    if i < lines.len() {
        let line = lines[i];
        match crate::helpers::find_byte(line, 0x3a, 0) {
            None => {},
            Some(c) => {
                let key = crate::helpers::spec_lower_bytes(line.take(c));
                let value = crate::helpers::spec_trim(line.skip(c + 1));
                if key.len() > 0 && crate::helpers::is_ws(key[key.len() - 1]) {
                } else if key.len() > 0 && crate::helpers::is_ws(key[0]) {
                } else if key == "content-length".spec_bytes() {
                    match crate::helpers::spec_parse_usize(value) {
                        None => {},
                        Some(n) => {
                            crate::helpers::lemma_digits_val_bounds(
                                crate::helpers::strip_plus(value),
                            );
                            if acc.rest.len() >= n {
                                lemma_fold_rest_shrinks(
                                    lines,
                                    i + 1,
                                    HeadersOut {
                                        headers: crate::http::spec_insert(
                                            acc.headers,
                                            key,
                                            value,
                                        ),
                                        body: acc.rest.take(n),
                                        rest: acc.rest.skip(n),
                                    },
                                );
                            }
                        },
                    }
                } else {
                    lemma_fold_rest_shrinks(
                        lines,
                        i + 1,
                        HeadersOut {
                            headers: crate::http::spec_insert(acc.headers, key, value),
                            body: acc.body,
                            rest: acc.rest,
                        },
                    );
                }
            },
        }
    }
}

/// A parsed request's body is exactly as long as its `content-length`
/// header says, and a request without one has an empty body: in
/// particular `content-length: 0` yields an empty body, leaving any
/// trailing bytes for the next parse.
pub proof fn lemma_content_length_frames_body(b: Seq<u8>)
    ensures
        match spec_deserialize(b) {
            Ok(p) => match crate::http::spec_lookup(p.0.headers, "content-length".spec_bytes()) {
                Some(v) => spec_parse_usize(v) matches Some(n) && p.0.body.len() == n,
                None => p.0.body.len() == 0,
            },
            Err(_) => true,
        },
{
    let off: int = if spec_starts_crlf2(b) {
        4
    } else {
        0
    };
    let s = b.skip(off);
    match spec_scan_head(s, 0) {
        HeadScan::Found(i) => {
            let lines = spec_lines(s.take(i));
            match spec_request_line(lines[0]) {
                Err(_) => {},
                Ok(_) => {
                    let init = HeadersOut {
                        headers: Seq::empty(),
                        body: Seq::empty(),
                        rest: s.skip(i + 4),
                    };
                    lemma_fold_body_matches_length(lines, 1, init);
                },
            }
        },
        _ => {},
    }
}

/// Looking the inserted key up finds the inserted value.
proof fn lemma_lookup_insert_same(kvs: Seq<(Seq<u8>, Seq<u8>)>, key: Seq<u8>, value: Seq<u8>)
    ensures
        crate::http::spec_lookup(spec_insert(kvs, key, value), key) == Some(value),
    decreases kvs.len(),
{
    if kvs.len() == 0 {
    } else if kvs[0].0 == key {
    } else {
        lemma_lookup_insert_same(kvs.skip(1), key, value);
        assert((seq![kvs[0]] + spec_insert(kvs.skip(1), key, value)).skip(1) =~= spec_insert(
            kvs.skip(1),
            key,
            value,
        ));
    }
}

/// Inserting one key leaves every other key's lookup unchanged.
proof fn lemma_lookup_insert_other(
    kvs: Seq<(Seq<u8>, Seq<u8>)>,
    key: Seq<u8>,
    value: Seq<u8>,
    other: Seq<u8>,
)
    requires
        key != other,
    ensures
        crate::http::spec_lookup(spec_insert(kvs, key, value), other) == crate::http::spec_lookup(
            kvs,
            other,
        ),
    decreases kvs.len(),
{
    if kvs.len() == 0 {
        let ins = seq![(key, value)];
        assert(spec_insert(kvs, key, value) == ins);
        assert(ins[0] == (key, value));
        assert(ins.skip(1) =~= Seq::<(Seq<u8>, Seq<u8>)>::empty());
        assert(crate::http::spec_lookup(ins.skip(1), other) is None);
        assert(crate::http::spec_lookup(ins, other) is None);
        assert(crate::http::spec_lookup(kvs, other) is None);
    } else if kvs[0].0 == key {
        let ins = seq![(key, value)] + kvs.skip(1);
        assert(spec_insert(kvs, key, value) == ins);
        assert(ins[0] == (key, value));
        assert(ins.skip(1) =~= kvs.skip(1));
        assert(crate::http::spec_lookup(ins, other) == crate::http::spec_lookup(
            kvs.skip(1),
            other,
        ));
        assert(crate::http::spec_lookup(kvs, other) == crate::http::spec_lookup(
            kvs.skip(1),
            other,
        ));
    } else {
        lemma_lookup_insert_other(kvs.skip(1), key, value, other);
        let ins = seq![kvs[0]] + spec_insert(kvs.skip(1), key, value);
        assert(spec_insert(kvs, key, value) == ins);
        assert(ins[0] == kvs[0]);
        assert(ins.skip(1) =~= spec_insert(kvs.skip(1), key, value));
        if kvs[0].0 == other {
            assert(crate::http::spec_lookup(ins, other) == Some(kvs[0].1));
            assert(crate::http::spec_lookup(kvs, other) == Some(kvs[0].1));
        } else {
            assert(crate::http::spec_lookup(ins, other) == crate::http::spec_lookup(
                spec_insert(kvs.skip(1), key, value),
                other,
            ));
            assert(crate::http::spec_lookup(kvs, other) == crate::http::spec_lookup(
                kvs.skip(1),
                other,
            ));
        }
    }
}

/// Through the header fold, the gathered body is exactly as long as the
/// content-length header the gathered headers hold, or empty without
/// one.
proof fn lemma_fold_body_matches_length(lines: Seq<Seq<u8>>, i: int, acc: HeadersOut)
    requires
        0 <= i,
        match crate::http::spec_lookup(acc.headers, "content-length".spec_bytes()) {
            Some(v) => spec_parse_usize(v) matches Some(n) && acc.body.len() == n,
            None => acc.body.len() == 0,
        },
    ensures
        match spec_headers_fold(lines, i, acc) {
            Ok(out) => match crate::http::spec_lookup(
                out.headers,
                "content-length".spec_bytes(),
            ) {
                Some(v) => spec_parse_usize(v) matches Some(n) && out.body.len() == n,
                None => out.body.len() == 0,
            },
            Err(_) => true,
        },
    decreases lines.len() - i,
{
    if i < lines.len() {
        let line = lines[i];
        match find_byte(line, 0x3a, 0) {
            None => {},
            Some(c) => {
                let key = spec_lower_bytes(line.take(c));
                let value = spec_trim(line.skip(c + 1));
                if key.len() > 0 && is_ws(key[key.len() - 1]) {
                } else if key.len() > 0 && is_ws(key[0]) {
                } else if key == "content-length".spec_bytes() {
                    match spec_parse_usize(value) {
                        None => {},
                        Some(n) => {
                            crate::helpers::lemma_digits_val_bounds(
                                crate::helpers::strip_plus(value),
                            );
                            if acc.rest.len() >= n {
                                lemma_lookup_insert_same(acc.headers, key, value);
                                lemma_fold_body_matches_length(
                                    lines,
                                    i + 1,
                                    HeadersOut {
                                        headers: spec_insert(acc.headers, key, value),
                                        body: acc.rest.take(n),
                                        rest: acc.rest.skip(n),
                                    },
                                );
                            }
                        },
                    }
                } else {
                    lemma_lookup_insert_other(
                        acc.headers,
                        key,
                        value,
                        "content-length".spec_bytes(),
                    );
                    lemma_fold_body_matches_length(
                        lines,
                        i + 1,
                        HeadersOut {
                            headers: spec_insert(acc.headers, key, value),
                            body: acc.body,
                            rest: acc.rest,
                        },
                    );
                }
            },
        }
    }
}

/// The wire form of a bare GET request for a target path: request line,
/// then the blank line, no headers and no body.
pub open spec fn spec_request_wire(path: Seq<u8>) -> Seq<u8> {
    "GET".spec_bytes() + seq![0x20u8] + path + seq![0x20u8] + "HTTP/1.1".spec_bytes() + seq![
        0x0du8,
        0x0au8,
        0x0du8,
        0x0au8,
    ]
}

/// Serialize a bare GET request for a target path: request line, then
/// the blank line, no headers and no body.
pub fn serialize_request(path: &[u8]) -> (r: Vec<u8>)
    ensures
        r@ == spec_request_wire(path@),
{
    let mut out: Vec<u8> = Vec::new();
    out.extend_from_slice("GET".as_bytes());
    out.push(0x20);
    out.extend_from_slice(path);
    out.push(0x20);
    out.extend_from_slice("HTTP/1.1".as_bytes());
    out.push(0x0d);
    out.push(0x0a);
    out.push(0x0d);
    out.push(0x0a);
    proof {
        assert(out@ =~= spec_request_wire(path@));
    }
    out
}

/// Serialize a GET request carrying one header line.
pub fn serialize_request_with_header(path: &[u8], key: &[u8], value: &[u8]) -> (r: Vec<u8>)
    ensures
        r@ == spec_request_wire_with_header(path@, key@, value@),
{
    let mut out: Vec<u8> = Vec::new();
    out.extend_from_slice("GET".as_bytes());
    out.push(0x20);
    out.extend_from_slice(path);
    out.push(0x20);
    out.extend_from_slice("HTTP/1.1".as_bytes());
    out.push(0x0d);
    out.push(0x0a);
    out.extend_from_slice(key);
    out.push(0x3a);
    out.push(0x20);
    out.extend_from_slice(value);
    out.push(0x0d);
    out.push(0x0a);
    out.push(0x0d);
    out.push(0x0a);
    proof {
        assert(out@ =~= spec_request_wire_with_header(path@, key@, value@));
    }
    out
}

proof fn lemma_literal_bytes()
    ensures
        "GET".spec_bytes() =~= seq![71u8, 69u8, 84u8],
        "HTTP/1.1".spec_bytes() =~= seq![72u8, 84u8, 84u8, 80u8, 47u8, 49u8, 46u8, 49u8],
        "HTTP/1".spec_bytes().len() == 6,
        "HTTP/2".spec_bytes().len() == 6,
{
    reveal_strlit("GET");
    reveal_strlit("HTTP/1.1");
    reveal_strlit("HTTP/1");
    reveal_strlit("HTTP/2");
    broadcast use vstd::utf8::is_ascii_chars_encode_utf8;

    assert(vstd::utf8::is_ascii_chars("GET"@));
    assert(vstd::utf8::is_ascii_chars("HTTP/1.1"@));
    assert(vstd::utf8::is_ascii_chars("HTTP/1"@));
    assert(vstd::utf8::is_ascii_chars("HTTP/2"@));
}

proof fn lemma_scan_reaches_term(s: Seq<u8>, i: int)
    requires
        0 <= i <= s.len() - 4,
        terminator_at(s, s.len() - 4),
        forall|j: int|
            i <= j < s.len() - 4 ==> (#[trigger] s[j]) < 0x80 && (s[j] == 0x0d ==> s[j + 1]
                == 0x0a && !terminator_at(s, j)),
    ensures
        spec_scan_head(s, i) == HeadScan::Found(s.len() - 4),
    decreases s.len() - i,
{
    if i < s.len() - 4 {
        lemma_scan_reaches_term(s, i + 1);
    }
}

proof fn lemma_find_crlf_absent(s: Seq<u8>, i: int)
    requires
        0 <= i,
        forall|j: int| 0 <= j < s.len() ==> s[j] != 0x0d,
    ensures
        find_crlf(s, i) is None,
    decreases s.len() - i,
{
    if i + 2 <= s.len() {
        lemma_find_crlf_absent(s, i + 1);
    }
}

proof fn lemma_canonical_request_line(path: Seq<u8>)
    requires
        path.len() >= 1,
        forall|i: int| 0 <= i < path.len() ==> 0x21 <= (#[trigger] path[i]) <= 0x7e && path[i] != 0x3f,
    ensures
        spec_request_line(
            "GET".spec_bytes() + seq![0x20u8] + path + seq![0x20u8] + "HTTP/1.1".spec_bytes(),
        ) == Ok::<_, ParseError>(
            (Method::GET, path, Seq::<(Seq<u8>, Seq<u8>)>::empty(), Version::V_1_1),
        ),
{
    lemma_literal_bytes();
    let line0 = "GET".spec_bytes() + seq![0x20u8] + path + seq![0x20u8] + "HTTP/1.1".spec_bytes();
    let p = path.len() as int;
    assert(line0.len() == 13 + p);
    assert(line0[0] == 71 && line0[1] == 69 && line0[2] == 84 && line0[3] == 0x20);
    assert(forall|j: int| 4 <= j < 4 + p ==> line0[j] == path[j - 4]);
    assert(line0[4 + p] == 0x20);
    assert(line0[5 + p] == 72 && line0[6 + p] == 84 && line0[7 + p] == 84 && line0[8 + p] == 80);
    assert(line0[9 + p] == 47 && line0[10 + p] == 49 && line0[11 + p] == 46 && line0[12 + p]
        == 49);
    lemma_find_byte_bounds(line0, 0x20, 0);
    assert(find_byte(line0, 0x20, 0) == Some(3int));
    let t1 = line0.skip(4);
    assert(t1.len() == 9 + p);
    lemma_find_byte_bounds(t1, 0x20, 0);
    assert(forall|j: int| 0 <= j < p ==> t1[j] == path[j]);
    assert(t1[p] == 0x20);
    assert(find_byte(t1, 0x20, 0) == Some(p));
    let t2 = t1.skip(p + 1);
    assert(t2 =~= "HTTP/1.1".spec_bytes());
    lemma_find_byte_bounds(t2, 0x20, 0);
    assert(find_byte(t2, 0x20, 0) is None);
    let rl = spec_split(line0, 0x20);
    assert(spec_split(line0, 0x20) == seq![line0.take(3)] + spec_split(line0.skip(4int), 0x20));
    assert(t1 == line0.skip(4int));
    assert(spec_split(t1, 0x20) == seq![t1.take(p)] + spec_split(t1.skip(p + 1), 0x20));
    assert(t2 == t1.skip(p + 1));
    assert(spec_split(t2, 0x20) == seq![t2]);
    assert(rl == seq![line0.take(3)] + (seq![t1.take(p)] + seq![t2]));
    assert(line0.take(3) =~= "GET".spec_bytes());
    assert(t1.take(p) =~= path);
    assert(rl.len() == 3);
    assert(rl[0] == "GET".spec_bytes());
    assert(rl[1] =~= path);
    assert(rl[2] =~= "HTTP/1.1".spec_bytes());
    assert(spec_parse_method(rl[0]) == Some(Method::GET));
    lemma_find_byte_bounds(rl[1], 0x3f, 0);
    assert(find_byte(rl[1], 0x3f, 0) is None);
    let vt = rl[2];
    assert(!is_ws(vt[vt.len() - 1]));
    assert(crate::http::spec_upper_bytes(vt) =~= "HTTP/1.1".spec_bytes());
    assert(crate::http::spec_upper_bytes(vt) != "HTTP/1".spec_bytes());
    assert(spec_parse_version(vt) == Some(Version::V_1_1));
}

/// The round trip between the serializer's wire form and the parser:
/// for every target path of printable bytes holding no space and no
/// query separator, the serialized GET request parses back to exactly
/// that request — GET, that path, HTTP/1.1, no headers, no query, no
/// body — consuming the whole wire.
pub proof fn lemma_request_round_trip(path: Seq<u8>)
    requires
        path.len() >= 1,
        forall|i: int| 0 <= i < path.len() ==> 0x21 <= (#[trigger] path[i]) <= 0x7e && path[i] != 0x3f,
    ensures
        spec_deserialize(spec_request_wire(path)) == Ok::<_, ParseError>(
            (
                ReqView {
                    method: Method::GET,
                    path: path,
                    version: Version::V_1_1,
                    headers: Seq::empty(),
                    query_params: Seq::empty(),
                    body: Seq::empty(),
                },
                spec_request_wire(path).len() as int,
            ),
        ),
{
    lemma_literal_bytes();
    let w = spec_request_wire(path);
    let p = path.len() as int;
    let lw = w.len() as int;
    assert(lw == 17 + p);
    assert(w[0] == 71 && w[1] == 69 && w[2] == 84 && w[3] == 0x20);
    assert(forall|j: int| 4 <= j < 4 + p ==> w[j] == path[j - 4]);
    assert(w[4 + p] == 0x20);
    assert(w[5 + p] == 72 && w[6 + p] == 84 && w[7 + p] == 84 && w[8 + p] == 80);
    assert(w[9 + p] == 47 && w[10 + p] == 49 && w[11 + p] == 46 && w[12 + p] == 49);
    assert(w[13 + p] == 0x0d && w[14 + p] == 0x0a && w[15 + p] == 0x0d && w[16 + p] == 0x0a);
    assert(!spec_starts_crlf2(w));
    assert(w.skip(0) =~= w);
    // The scan runs to the terminator: nothing before it is a carriage
    // return or a high byte.
    assert(terminator_at(w, lw - 4));
    assert forall|j: int|
        0 <= j < lw - 4 implies (#[trigger] w[j]) < 0x80 && (w[j] == 0x0d ==> w[j + 1] == 0x0a
            && !terminator_at(w, j)) by {
        if 4 <= j < 4 + p {
            assert(w[j] == path[j - 4]);
        }
    }
    lemma_scan_reaches_term(w, 0);
    let head = w.take(lw - 4);
    assert(head.len() == 13 + p);
    // One line: the head holds no carriage return at all.
    assert(forall|j: int| 0 <= j < head.len() ==> head[j] != 0x0d);
    lemma_find_crlf_absent(head, 0);
    assert(spec_lines(head) =~= seq![head]);
    // The request line is the whole head.
    lemma_canonical_request_line(path);
    assert(head =~= "GET".spec_bytes() + seq![0x20u8] + path + seq![0x20u8]
        + "HTTP/1.1".spec_bytes());
    assert(spec_request_line(head) == Ok::<_, ParseError>(
        (Method::GET, path, Seq::<(Seq<u8>, Seq<u8>)>::empty(), Version::V_1_1),
    ));
    // No header lines: the fold returns its starting accumulator, and
    // nothing remains past the terminator.
    let init = HeadersOut { headers: Seq::empty(), body: Seq::empty(), rest: w.skip(lw) };
    assert(w.skip(lw).len() == 0);
    assert(spec_headers_fold(seq![head], 1, init) == Ok::<_, ParseError>(init));
    assert(w.skip(0).take(lw - 4) =~= head);
    assert(w.skip(0).skip((lw - 4) + 4) =~= w.skip(lw));
}

/// The wire form of a GET request carrying one header line.
pub open spec fn spec_request_wire_with_header(
    path: Seq<u8>,
    key: Seq<u8>,
    value: Seq<u8>,
) -> Seq<u8> {
    "GET".spec_bytes() + seq![0x20u8] + path + seq![0x20u8] + "HTTP/1.1".spec_bytes() + seq![
        0x0du8,
        0x0au8,
    ] + key + seq![0x3au8, 0x20u8] + value + seq![0x0du8, 0x0au8, 0x0du8, 0x0au8]
}

/// The round trip with a header: a serialized GET request carrying one
/// canonical header line — lower-case printable key, printable value —
/// parses back to exactly that request, that header included,
/// consuming the whole wire.  Keys in other cases and values with edge
/// whitespace come back case-folded and trimmed instead, which is the
/// parser's normalization.
#[verifier::rlimit(100)]
#[verifier::spinoff_prover]
pub proof fn lemma_request_with_header_round_trip(path: Seq<u8>, key: Seq<u8>, value: Seq<u8>)
    requires
        path.len() >= 1,
        forall|i: int| 0 <= i < path.len() ==> 0x21 <= (#[trigger] path[i]) <= 0x7e && path[i] != 0x3f,
        key.len() >= 1,
        forall|i: int|
            0 <= i < key.len() ==> 0x21 <= (#[trigger] key[i]) <= 0x7e && key[i] != 0x3a && !(
            0x41 <= key[i] <= 0x5a),
        key != "content-length".spec_bytes(),
        forall|i: int| 0 <= i < value.len() ==> 0x21 <= (#[trigger] value[i]) <= 0x7e,
    ensures
        spec_deserialize(spec_request_wire_with_header(path, key, value)) == Ok::<_, ParseError>(
            (
                ReqView {
                    method: Method::GET,
                    path: path,
                    version: Version::V_1_1,
                    headers: seq![(key, value)],
                    query_params: Seq::empty(),
                    body: Seq::empty(),
                },
                spec_request_wire_with_header(path, key, value).len() as int,
            ),
        ),
{
    lemma_literal_bytes();
    let w = spec_request_wire_with_header(path, key, value);
    let p = path.len() as int;
    let k = key.len() as int;
    let v = value.len() as int;
    let lw = w.len() as int;
    assert(lw == 21 + p + k + v);
    assert(w[0] == 71 && w[1] == 69 && w[2] == 84 && w[3] == 0x20);
    assert(forall|j: int| 4 <= j < 4 + p ==> w[j] == path[j - 4]);
    assert(w[4 + p] == 0x20);
    assert(w[5 + p] == 72 && w[6 + p] == 84 && w[7 + p] == 84 && w[8 + p] == 80);
    assert(w[9 + p] == 47 && w[10 + p] == 49 && w[11 + p] == 46 && w[12 + p] == 49);
    assert(w[13 + p] == 0x0d && w[14 + p] == 0x0a);
    assert(forall|j: int| 15 + p <= j < 15 + p + k ==> w[j] == key[j - 15 - p]);
    assert(w[15 + p + k] == 0x3a && w[16 + p + k] == 0x20);
    assert(forall|j: int| 17 + p + k <= j < 17 + p + k + v ==> w[j] == value[j - 17 - p - k]);
    assert(w[lw - 4] == 0x0d && w[lw - 3] == 0x0a && w[lw - 2] == 0x0d && w[lw - 1] == 0x0a);
    assert(!spec_starts_crlf2(w));
    assert(w.skip(0) =~= w);
    // The scan passes the line break after the request line — it is not
    // the terminator, since the key begins right after it — and stops at
    // the blank line.
    assert(terminator_at(w, lw - 4));
    assert(!terminator_at(w, 13 + p));
    assert forall|j: int|
        0 <= j < lw - 4 implies (#[trigger] w[j]) < 0x80 && (w[j] == 0x0d ==> w[j + 1] == 0x0a
            && !terminator_at(w, j)) by {
        if 4 <= j < 4 + p {
            assert(w[j] == path[j - 4]);
        }
        if 15 + p <= j < 15 + p + k {
            assert(w[j] == key[j - 15 - p]);
        }
        if 17 + p + k <= j < 17 + p + k + v {
            assert(w[j] == value[j - 17 - p - k]);
        }
    }
    lemma_scan_reaches_term(w, 0);
    let head = w.take(lw - 4);
    assert(head.len() == 17 + p + k + v);
    // Two lines: the only line break inside the head is the one after
    // the request line.
    lemma_find_crlf_bounds(head, 0);
    assert(head[13 + p] == 0x0d && head[14 + p] == 0x0a);
    assert(forall|j: int| 0 <= j < 13 + p ==> head[j] != 0x0d);
    assert(find_crlf(head, 0) == Some(13 + p));
    let line0 = head.take(13 + p);
    let hline = head.skip(15 + p);
    assert(forall|j: int| 0 <= j < hline.len() ==> hline[j] != 0x0d);
    lemma_find_crlf_absent(hline, 0);
    assert(spec_lines(hline) == seq![hline]);
    let lines = spec_lines(head);
    assert(lines == seq![line0] + seq![hline]);
    assert(lines.len() == 2 && lines[0] == line0 && lines[1] == hline);
    // The request line parses as in the bare round trip.
    lemma_canonical_request_line(path);
    assert(line0 =~= "GET".spec_bytes() + seq![0x20u8] + path + seq![0x20u8]
        + "HTTP/1.1".spec_bytes());
    assert(spec_request_line(line0) == Ok::<_, ParseError>(
        (Method::GET, path, Seq::<(Seq<u8>, Seq<u8>)>::empty(), Version::V_1_1),
    ));
    // The header line folds to exactly the canonical key and value.
    assert(hline =~= key + seq![0x3au8, 0x20u8] + value);
    lemma_header_line_folds(w, lines, hline, key, value, lw);
}

proof fn lemma_header_line_folds(
    w: Seq<u8>,
    lines: Seq<Seq<u8>>,
    hline: Seq<u8>,
    key: Seq<u8>,
    value: Seq<u8>,
    lw: int,
)
    requires
        key.len() >= 1,
        forall|i: int|
            0 <= i < key.len() ==> 0x21 <= (#[trigger] key[i]) <= 0x7e && key[i] != 0x3a && !(
            0x41 <= key[i] <= 0x5a),
        key != "content-length".spec_bytes(),
        forall|i: int| 0 <= i < value.len() ==> 0x21 <= (#[trigger] value[i]) <= 0x7e,
        hline == key + seq![0x3au8, 0x20u8] + value,
        lines.len() == 2,
        lines[1] == hline,
        lw == w.len(),
    ensures
        spec_headers_fold(
            lines,
            1,
            HeadersOut { headers: Seq::empty(), body: Seq::empty(), rest: w.skip(lw) },
        ) == Ok::<_, ParseError>(
            HeadersOut { headers: seq![(key, value)], body: Seq::empty(), rest: w.skip(lw) },
        ),
{
    let k = key.len() as int;
    let v = value.len() as int;
    assert(forall|j: int| 0 <= j < k ==> hline[j] == key[j]);
    assert(hline[k] == 0x3a);
    lemma_find_byte_bounds(hline, 0x3a, 0);
    assert(find_byte(hline, 0x3a, 0) == Some(k));
    assert(hline.take(k) =~= key);
    assert(spec_lower_bytes(key) =~= key);
    let rest_of_line = hline.skip(k + 1);
    assert(rest_of_line =~= seq![0x20u8] + value);
    assert(rest_of_line.skip(1) =~= value);
    assert(is_ws(rest_of_line[0]));
    assert(spec_trim_start(rest_of_line) == spec_trim_start(value));
    if value.len() > 0 {
        assert(!is_ws(value[0]));
        assert(!is_ws(value[value.len() - 1]));
    }
    assert(spec_trim_start(value) == value);
    assert(crate::helpers::spec_trim_end(value) == value);
    assert(spec_trim(rest_of_line) == value);
    assert(key.len() > 0 && !is_ws(key[key.len() - 1]) && !is_ws(key[0]));
    assert(spec_insert(Seq::empty(), key, value) == seq![(key, value)]);
    let done = HeadersOut { headers: seq![(key, value)], body: Seq::empty(), rest: w.skip(lw) };
    assert(spec_headers_fold(lines, 2, done) == Ok::<_, ParseError>(done));
}

/// The other direction of the round trip, on the wires where it is
/// exact: parsing a canonical one-header GET wire and re-serializing
/// what came out gives the wire back byte for byte.  On other wires the
/// parser's case folding of header names and trimming of value
/// whitespace make re-serialization differ by exactly that
/// normalization, so the identity is stated only of wires already in
/// the parser's normal form.
pub proof fn lemma_serialize_of_parse_identity(path: Seq<u8>, key: Seq<u8>, value: Seq<u8>)
    requires
        path.len() >= 1,
        forall|i: int| 0 <= i < path.len() ==> 0x21 <= (#[trigger] path[i]) <= 0x7e && path[i] != 0x3f,
        key.len() >= 1,
        forall|i: int|
            0 <= i < key.len() ==> 0x21 <= (#[trigger] key[i]) <= 0x7e && key[i] != 0x3a && !(
            0x41 <= key[i] <= 0x5a),
        key != "content-length".spec_bytes(),
        forall|i: int| 0 <= i < value.len() ==> 0x21 <= (#[trigger] value[i]) <= 0x7e,
    ensures
        match spec_deserialize(spec_request_wire_with_header(path, key, value)) {
            Ok(p) => p.0.headers.len() == 1 && spec_request_wire_with_header(
                p.0.path,
                p.0.headers[0].0,
                p.0.headers[0].1,
            ) == spec_request_wire_with_header(path, key, value),
            Err(_) => false,
        },
{
    lemma_request_with_header_round_trip(path, key, value);
}

/// The serialized form of one header line.
pub open spec fn spec_header_line(h: (Seq<u8>, Seq<u8>)) -> Seq<u8> {
    h.0 + seq![0x3au8, 0x20u8] + h.1 + seq![0x0du8, 0x0au8]
}

/// The serialized form of a header list.
pub open spec fn spec_serialize_headers(hs: Seq<(Seq<u8>, Seq<u8>)>) -> Seq<u8>
    decreases hs.len(),
{
    if hs.len() == 0 {
        Seq::empty()
    } else {
        spec_header_line(hs[0]) + spec_serialize_headers(hs.skip(1))
    }
}

/// The serialized head of a response: status line, headers, blank line.
pub open spec fn spec_serialize(v: Version, st: Status, hs: Seq<(Seq<u8>, Seq<u8>)>) -> Seq<u8> {
    spec_version_bytes(v) + seq![0x20u8] + spec_status_line_bytes(st) + seq![0x0du8, 0x0au8]
        + spec_serialize_headers(hs) + seq![0x0du8, 0x0au8]
}

proof fn lemma_serialize_headers_snoc(hs: Seq<(Seq<u8>, Seq<u8>)>, i: int)
    requires
        0 <= i < hs.len(),
    ensures
        spec_serialize_headers(hs.take(i + 1)) == spec_serialize_headers(hs.take(i))
            + spec_header_line(hs[i]),
    decreases i,
{
    if i == 0 {
        assert(hs.take(1)[0] == hs[0]);
        assert(hs.take(1).skip(1) =~= Seq::<(Seq<u8>, Seq<u8>)>::empty());
        assert(hs.take(0) =~= Seq::<(Seq<u8>, Seq<u8>)>::empty());
        assert(spec_serialize_headers(hs.take(1)) =~= spec_serialize_headers(hs.take(0))
            + spec_header_line(hs[0]));
    } else {
        assert(hs.take(i + 1).skip(1) =~= hs.skip(1).take(i));
        assert(hs.take(i).skip(1) =~= hs.skip(1).take(i - 1));
        lemma_serialize_headers_snoc(hs.skip(1), i - 1);
        assert(hs.take(i + 1)[0] == hs[0]);
        assert(hs.take(i)[0] == hs[0]);
        assert(hs.skip(1)[i - 1] == hs[i]);
        assert(spec_serialize_headers(hs.take(i + 1)) =~= spec_serialize_headers(hs.take(i))
            + spec_header_line(hs[i]));
    }
}

impl HttpSmithText {
    /// Serialize a response's head: `<version> <status-line>\r\n`, each
    /// header as `<key>: <value>\r\n`, then a blank line.  The body path
    /// is handed back beside it for the sender to stream from the cache.
    pub fn serialize(&self, response: &Response) -> (r: (Vec<u8>, Vec<u8>))
        ensures
            r.0@ == spec_serialize(
                response.version,
                response.status,
                spec_headers(response.headers@),
            ),
            r.1@ == response.body@,
    {
        let mut data: Vec<u8> = Vec::new();
        let vb = response.version.to_str();
        data.extend_from_slice(vb.as_bytes());
        data.push(0x20);
        let sb = response.status.to_status_line();
        data.extend_from_slice(sb.as_bytes());
        data.push(0x0d);
        data.push(0x0a);
        let ghost front = spec_version_bytes(response.version) + seq![0x20u8]
            + spec_status_line_bytes(response.status) + seq![0x0du8, 0x0au8];
        proof {
            assert(data@ =~= front);
        }
        let ghost hs = spec_headers(response.headers@);
        let hn = response.headers.len();
        let mut i: usize = 0;
        proof {
            assert(hs.take(0) =~= Seq::<(Seq<u8>, Seq<u8>)>::empty());
        }
        while i < hn
            invariant
                hn == response.headers@.len(),
                hs == spec_headers(response.headers@),
                i <= hn,
                front == spec_version_bytes(response.version) + seq![0x20u8]
                    + spec_status_line_bytes(response.status) + seq![0x0du8, 0x0au8],
                data@ == front + spec_serialize_headers(hs.take(i as int)),
            decreases hn - i,
        {
            let h = &response.headers[i];
            data.extend_from_slice(h.0.as_slice());
            data.push(0x3a);
            data.push(0x20);
            data.extend_from_slice(h.1.as_slice());
            data.push(0x0d);
            data.push(0x0a);
            proof {
                lemma_serialize_headers_snoc(hs, i as int);
                assert(hs[i as int] == (response.headers@[i as int].0@,
                    response.headers@[i as int].1@));
                assert(data@ =~= front + spec_serialize_headers(hs.take(i + 1)));
            }
            i = i + 1;
        }
        data.push(0x0d);
        data.push(0x0a);
        proof {
            assert(hs.take(hn as int) =~= hs);
            assert(data@ =~= spec_serialize(response.version, response.status, hs));
        }
        let body_path = clone_vec_u8(&response.body);
        (data, body_path)
    }
}

} // verus!
