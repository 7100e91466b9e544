//! Minimal HTTP framing: requests read from bytes, responses built and
//! framed as bytes.
use vstd::prelude::*;
use crate::grammar::lit;

verus! {

broadcast use vstd::seq::group_seq_axioms, vstd::slice::group_slice_axioms;

/// The request methods this endpoint understands.
#[derive(Clone, Copy, Debug, PartialEq, Eq)]
pub enum Method {
    Get,
    Head,
    Post,
    Put,
    Delete,
    Connect,
    Options,
    Trace,
    Patch,
}

/// An HTTP version, as major and minor number.
#[derive(Clone, Copy, Debug, PartialEq, Eq)]
pub struct HTTPVersion(pub u8, pub u8);

/// A header line: its field name and its value, as bytes.
#[derive(Debug)]
pub struct Header {
    pub field: Vec<u8>,
    pub value: Vec<u8>,
}

/// Why a request could not be read.
#[derive(Clone, Copy, Debug, PartialEq, Eq)]
pub enum RequestError {
    /// The bytes ended before the request did: the peer went away, or more
    /// is still to come.
    UnexpectedEof,
    /// A request or header line holds a byte outside ASCII.
    NotAscii,
    /// The request line names a method outside the known set.
    InvalidMethod,
    /// The request line names an HTTP version outside the known set.
    InvalidVersion,
    /// A request line without its parts, or a header line without a colon.
    Malformed,
    /// A `Content-Length` header whose value is not a decimal number (with
    /// an optional `+`) that fits in a `usize`.
    InvalidLength,
}

// ---------------------------------------------------------------- spec

/// ASCII upper case letters made lower case; every other byte kept.
pub open spec fn lower(b: u8) -> u8 {
    if 65 <= b <= 90 {
        (b + 32) as u8
    } else {
        b
    }
}

/// Two field names that are equal but for ASCII case.
pub open spec fn same_field(a: Seq<u8>, b: Seq<u8>) -> bool {
    a.len() == b.len() && forall|k: int| 0 <= k < a.len() ==> lower(#[trigger] a[k]) == lower(b[k])
}

/// The position of the first CRLF at or after `i`, or the end of `s`.
pub open spec fn crlf_at(s: Seq<u8>, i: int) -> int
    decreases s.len() - i,
{
    if 0 <= i && i + 1 < s.len() {
        if s[i] == 13 && s[i + 1] == 10 {
            i
        } else {
            crlf_at(s, i + 1)
        }
    } else {
        s.len() as int
    }
}

/// The first position at or after `i` (and before `e`) that holds `b`, or `e`.
pub open spec fn find_byte(s: Seq<u8>, i: int, e: int, b: u8) -> int
    decreases e - i,
{
    if i < e && s[i] != b {
        find_byte(s, i + 1, e, b)
    } else {
        i
    }
}

pub open spec fn is_blank(b: u8) -> bool {
    b == 32 || b == 9
}

/// The first position in `i..e` that is not a space or tab, or `e`.
pub open spec fn trim_start(s: Seq<u8>, i: int, e: int) -> int
    decreases e - i,
{
    if i < e && is_blank(s[i]) {
        trim_start(s, i + 1, e)
    } else {
        i
    }
}

/// The end of `i..e` without its trailing spaces and tabs.
pub open spec fn trim_end(s: Seq<u8>, i: int, e: int) -> int
    decreases e - i,
{
    if i < e && is_blank(s[e - 1]) {
        trim_end(s, i, e - 1)
    } else {
        e
    }
}

/// `i..e` without surrounding spaces and tabs.
pub open spec fn trimmed(s: Seq<u8>, i: int, e: int) -> Seq<u8> {
    let a = trim_start(s, i, e);
    s.subrange(a, trim_end(s, a, e))
}

pub open spec fn all_ascii(s: Seq<u8>, i: int, e: int) -> bool {
    forall|k: int| i <= k < e ==> #[trigger] s[k] < 128
}

pub open spec fn method_of(t: Seq<u8>) -> Option<Method> {
    if t == lit("GET") {
        Some(Method::Get)
    } else if t == lit("HEAD") {
        Some(Method::Head)
    } else if t == lit("POST") {
        Some(Method::Post)
    } else if t == lit("PUT") {
        Some(Method::Put)
    } else if t == lit("DELETE") {
        Some(Method::Delete)
    } else if t == lit("CONNECT") {
        Some(Method::Connect)
    } else if t == lit("OPTIONS") {
        Some(Method::Options)
    } else if t == lit("TRACE") {
        Some(Method::Trace)
    } else if t == lit("PATCH") {
        Some(Method::Patch)
    } else {
        None
    }
}

pub open spec fn is_digit(b: u8) -> bool {
    48 <= b <= 57
}

/// The versions this endpoint understands, by major and minor number.
pub open spec fn known_version(major: u8, minor: u8) -> bool {
    (major == 0 && minor == 9) || (major == 1 && minor == 0) || (major == 1 && minor == 1) || (
    major == 2 && minor == 0) || (major == 3 && minor == 0)
}

/// A version token `HTTP/<major>.<minor>` of a known version.
pub open spec fn version_of(t: Seq<u8>) -> Option<HTTPVersion> {
    if t.len() == 8 && t.subrange(0, 5) == lit("HTTP/") && is_digit(t[5]) && t[6] == 46
        && is_digit(t[7]) && known_version((t[5] - 48) as u8, (t[7] - 48) as u8) {
        Some(HTTPVersion((t[5] - 48) as u8, (t[7] - 48) as u8))
    } else {
        None
    }
}

/// What a request holds, as bytes.
pub struct RequestModel {
    pub method: Method,
    pub path: Seq<u8>,
    pub version: HTTPVersion,
    pub headers: Seq<(Seq<u8>, Seq<u8>)>,
    pub body: Option<Seq<u8>>,
    pub body_length: nat,
}

/// The first position in `i..e` that holds a space or tab, or `e`.
pub open spec fn find_blank(s: Seq<u8>, i: int, e: int) -> int
    decreases e - i,
{
    if i < e && !is_blank(s[i]) {
        find_blank(s, i + 1, e)
    } else {
        i
    }
}

/// The request line `s[0..e]`: exactly three tokens, method, path and
/// version, separated by runs of spaces and tabs.
pub open spec fn request_line(s: Seq<u8>, e: int) -> Result<(Method, Seq<u8>, HTTPVersion), RequestError> {
    let a0 = trim_start(s, 0, e);
    let a = find_blank(s, a0, e);
    match method_of(s.subrange(a0, a)) {
        None => Err(RequestError::InvalidMethod),
        Some(m) => {
            let b0 = trim_start(s, a, e);
            let b = find_blank(s, b0, e);
            let c0 = trim_start(s, b, e);
            let c = find_blank(s, c0, e);
            if b0 == e || c0 == e || trim_start(s, c, e) != e {
                Err(RequestError::Malformed)
            } else {
                match version_of(s.subrange(c0, c)) {
                    None => Err(RequestError::InvalidVersion),
                    Some(v) => Ok((m, s.subrange(b0, b), v)),
                }
            }
        },
    }
}

/// The header line `s[i..e]`, split at its first colon, both sides trimmed.
pub open spec fn header_line(s: Seq<u8>, i: int, e: int) -> Result<(Seq<u8>, Seq<u8>), RequestError> {
    let c = find_byte(s, i, e, 58);
    if c == e {
        Err(RequestError::Malformed)
    } else {
        Ok((trimmed(s, i, c), trimmed(s, c + 1, e)))
    }
}

/// The header lines from `i` on, up to and including the empty line that
/// ends them; the position after that line.
pub open spec fn headers_from(s: Seq<u8>, i: int) -> Result<(Seq<(Seq<u8>, Seq<u8>)>, int), RequestError>
    decreases s.len() - i,
{
    let e = crlf_at(s, i);
    if !(0 <= i <= e && e + 1 < s.len()) {
        Err(RequestError::UnexpectedEof)
    } else if !all_ascii(s, i, e) {
        Err(RequestError::NotAscii)
    } else if e == i {
        Ok((Seq::empty(), e + 2))
    } else {
        match header_line(s, i, e) {
            Err(x) => Err(x),
            Ok(h) => match headers_from(s, e + 2) {
                Ok((hs, k)) => Ok((seq![h] + hs, k)),
                Err(x) => Err(x),
            },
        }
    }
}

/// The number that a sequence of decimal digits stands for.
pub open spec fn digits_value(d: Seq<u8>) -> nat
    decreases d.len(),
{
    if d.len() == 0 {
        0
    } else {
        digits_value(d.drop_last()) * 10 + (d.last() - 48) as nat
    }
}

/// The body length that the first `Content-Length` header from index `k`
/// on gives; 0 where there is none.
pub open spec fn content_length_from(hs: Seq<(Seq<u8>, Seq<u8>)>, k: int) -> Result<nat, RequestError>
    decreases hs.len() - k,
{
    if k < 0 || k >= hs.len() {
        Ok(0)
    } else if same_field(hs[k].0, lit("Content-Length")) {
        match length_of(hs[k].1) {
            Some(n) => Ok(n),
            None => Err(RequestError::InvalidLength),
        }
    } else {
        content_length_from(hs, k + 1)
    }
}

/// What the bytes `s` read as: a request and the number of bytes it took,
/// or why there is none.
pub open spec fn request_spec(s: Seq<u8>) -> Result<(RequestModel, int), RequestError> {
    let e = crlf_at(s, 0);
    if !(e + 1 < s.len()) {
        Err(RequestError::UnexpectedEof)
    } else if !all_ascii(s, 0, e) {
        Err(RequestError::NotAscii)
    } else {
        match request_line(s, e) {
            Err(x) => Err(x),
            Ok((method, path, version)) => match headers_from(s, e + 2) {
                Err(x) => Err(x),
                Ok((headers, k)) => match content_length_from(headers, 0) {
                    Err(x) => Err(x),
                    Ok(n) => if n == 0 {
                        Ok(
                            (
                                RequestModel {
                                    method,
                                    path,
                                    version,
                                    headers,
                                    body: None,
                                    body_length: 0,
                                },
                                k,
                            ),
                        )
                    } else if k + n > s.len() {
                        Err(RequestError::UnexpectedEof)
                    } else {
                        Ok(
                            (
                                RequestModel {
                                    method,
                                    path,
                                    version,
                                    headers,
                                    body: Some(s.subrange(k, k + n)),
                                    body_length: n,
                                },
                                k + n,
                            ),
                        )
                    },
                },
            },
        }
    }
}

} // verus!

verus! {

/// A request read from a client.
pub struct Request {
    remote_addr: Option<String>,
    method: Method,
    path: Vec<u8>,
    http_version: HTTPVersion,
    headers: Vec<Header>,
    body_length: usize,
    body: Option<Vec<u8>>,
}

pub open spec fn headers_view(hs: Seq<Header>) -> Seq<(Seq<u8>, Seq<u8>)> {
    Seq::new(hs.len(), |i: int| (hs[i].field@, hs[i].value@))
}

impl Request {
    pub closed spec fn model(&self) -> RequestModel {
        RequestModel {
            method: self.method,
            path: self.path@,
            version: self.http_version,
            headers: headers_view(self.headers@),
            body: match self.body {
                Some(b) => Some(b@),
                None => None,
            },
            body_length: self.body_length as nat,
        }
    }

    pub closed spec fn remote(&self) -> Option<String> {
        self.remote_addr
    }

    pub fn new(
        remote_addr: Option<String>,
        method: Method,
        path: Vec<u8>,
        http_version: HTTPVersion,
        headers: Vec<Header>,
        body_length: usize,
        body: Option<Vec<u8>>,
    ) -> (r: Self)
        ensures
            r.remote() == remote_addr,
            r.model() == (RequestModel {
                method,
                path: path@,
                version: http_version,
                headers: headers_view(headers@),
                body: match body {
                    Some(b) => Some(b@),
                    None => None,
                },
                body_length: body_length as nat,
            }),
    {
        Request { remote_addr, method, path, http_version, headers, body_length, body }
    }

    /// The method requested by the client.
    pub fn method(&self) -> (r: &Method)
        ensures
            *r == self.model().method,
    {
        &self.method
    }

    /// The resource requested by the client.
    pub fn url(&self) -> (r: &[u8])
        ensures
            r@ == self.model().path,
    {
        self.path.as_slice()
    }

    /// The headers sent by the client, in order.
    pub fn headers(&self) -> (r: &[Header])
        ensures
            headers_view(r@) == self.model().headers,
    {
        self.headers.as_slice()
    }

    /// The HTTP version of the request.
    pub fn http_version(&self) -> (r: &HTTPVersion)
        ensures
            *r == self.model().version,
    {
        &self.http_version
    }

    /// The body, where the request has one.
    pub fn body(&self) -> (r: Option<&Vec<u8>>)
        ensures
            r matches Some(b) ==> self.model().body == Some(b@),
            r is None ==> self.model().body is None,
    {
        self.body.as_ref()
    }

    /// The length of the body in bytes.
    pub fn body_length(&self) -> (r: usize)
        ensures
            r == self.model().body_length,
    {
        self.body_length
    }

    /// The address of the client, where the transport has one.
    pub fn remote_addr(&self) -> (r: Option<&String>)
        ensures
            r matches Some(a) ==> self.remote() == Some(*a),
            r is None ==> self.remote() is None,
    {
        self.remote_addr.as_ref()
    }
}

fn next_crlf(s: &[u8], i: usize) -> (r: usize)
    requires
        i <= s@.len(),
    ensures
        r as int == crlf_at(s@, i as int),
        i <= r <= s@.len(),
{
    let mut j: usize = i;
    while s.len() - j > 1 && !(s[j] == 13 && s[j + 1] == 10)
        invariant
            i <= j <= s@.len(),
            crlf_at(s@, i as int) == crlf_at(s@, j as int),
        decreases s@.len() - j,
    {
        j = j + 1;
    }
    if s.len() - j > 1 {
        j
    } else {
        s.len()
    }
}

fn scan_byte(s: &[u8], i: usize, e: usize, b: u8) -> (r: usize)
    requires
        i <= e <= s@.len(),
    ensures
        r as int == find_byte(s@, i as int, e as int, b),
        i <= r <= e,
{
    let mut j: usize = i;
    while j < e && s[j] != b
        invariant
            i <= j <= e <= s@.len(),
            find_byte(s@, i as int, e as int, b) == find_byte(
                s@,
                j as int,
                e as int,
                b,
            ),
        decreases e - j,
    {
        j = j + 1;
    }
    j
}

fn trim_range(s: &[u8], i: usize, e: usize) -> (r: Vec<u8>)
    requires
        i <= e <= s@.len(),
    ensures
        r@ == trimmed(s@, i as int, e as int),
{
    let mut a: usize = i;
    while a < e && (s[a] == 32 || s[a] == 9)
        invariant
            i <= a <= e <= s@.len(),
            trim_start(s@, i as int, e as int) == trim_start(s@, a as int, e as int),
        decreases e - a,
    {
        a = a + 1;
    }
    let mut z: usize = e;
    while a < z && (s[z - 1] == 32 || s[z - 1] == 9)
        invariant
            a <= z <= e <= s@.len(),
            trim_end(s@, a as int, e as int) == trim_end(s@, a as int, z as int),
        decreases z - a,
    {
        z = z - 1;
    }
    copy_range(s, a, z)
}

/// The bytes `s[a..z]` in a vector of their own.
fn copy_range(s: &[u8], a: usize, z: usize) -> (r: Vec<u8>)
    requires
        a <= z <= s@.len(),
    ensures
        r@ == s@.subrange(a as int, z as int),
{
    let mut out: Vec<u8> = Vec::with_capacity(z - a);
    let mut k: usize = a;
    while k < z
        invariant
            a <= k <= z <= s@.len(),
            out@ == s@.subrange(a as int, k as int),
        decreases z - k,
    {
        out.push(s[k]);
        k = k + 1;
        assert(out@ =~= s@.subrange(a as int, k as int));
    }
    out
}

fn check_ascii(s: &[u8], i: usize, e: usize) -> (r: bool)
    requires
        i <= e <= s@.len(),
    ensures
        r == all_ascii(s@, i as int, e as int),
{
    let mut k: usize = i;
    while k < e
        invariant
            i <= k <= e <= s@.len(),
            forall|m: int| i <= m < k ==> #[trigger] s@[m] < 128,
        decreases e - k,
    {
        if s[k] >= 128 {
            return false;
        }
        k = k + 1;
    }
    true
}

/// The bytes `s[i..e]` are exactly the literal `t`.
fn is_lit(s: &[u8], i: usize, e: usize, t: &str) -> (r: bool)
    requires
        i <= e <= s@.len(),
    ensures
        r == (s@.subrange(i as int, e as int) == lit(t)),
{
    let l = t.as_bytes();
    if e - i != l.len() {
        return false;
    }
    let mut k: usize = 0;
    while k < l.len()
        invariant
            k <= l@.len(),
            i + l@.len() == e <= s@.len(),
            l@ == lit(t),
            forall|m: int| 0 <= m < k ==> s@[i + m] == l@[m],
        decreases l@.len() - k,
    {
        if s[i + k] != l[k] {
            assert(s@.subrange(i as int, e as int)[k as int] != l@[k as int]);
            return false;
        }
        k = k + 1;
    }
    assert(s@.subrange(i as int, e as int) =~= l@);
    true
}

fn parse_method(s: &[u8], i: usize, e: usize) -> (r: Option<Method>)
    requires
        i <= e <= s@.len(),
    ensures
        r == method_of(s@.subrange(i as int, e as int)),
{
    if is_lit(s, i, e, "GET") {
        Some(Method::Get)
    } else if is_lit(s, i, e, "HEAD") {
        Some(Method::Head)
    } else if is_lit(s, i, e, "POST") {
        Some(Method::Post)
    } else if is_lit(s, i, e, "PUT") {
        Some(Method::Put)
    } else if is_lit(s, i, e, "DELETE") {
        Some(Method::Delete)
    } else if is_lit(s, i, e, "CONNECT") {
        Some(Method::Connect)
    } else if is_lit(s, i, e, "OPTIONS") {
        Some(Method::Options)
    } else if is_lit(s, i, e, "TRACE") {
        Some(Method::Trace)
    } else if is_lit(s, i, e, "PATCH") {
        Some(Method::Patch)
    } else {
        None
    }
}

fn parse_version(s: &[u8], i: usize, e: usize) -> (r: Option<HTTPVersion>)
    requires
        i <= e <= s@.len(),
    ensures
        r == version_of(s@.subrange(i as int, e as int)),
{
    let ghost t = s@.subrange(i as int, e as int);
    if e - i != 8 || !is_lit(s, i, i + 5, "HTTP/") {
        proof {
            if t.len() == 8 {
                assert(t.subrange(0, 5) =~= s@.subrange(i as int, i + 5));
            }
        }
        return None;
    }
    assert(t.subrange(0, 5) =~= s@.subrange(i as int, i + 5));
    let major = s[i + 5];
    let dot = s[i + 6];
    let minor = s[i + 7];
    if !(48 <= major && major <= 57 && dot == 46 && 48 <= minor && minor <= 57) {
        return None;
    }
    let ma = major - 48;
    let mi = minor - 48;
    if (ma == 0 && mi == 9) || (ma == 1 && mi == 0) || (ma == 1 && mi == 1) || (ma == 2 && mi == 0)
        || (ma == 3 && mi == 0) {
        Some(HTTPVersion(ma, mi))
    } else {
        None
    }
}

} // verus!

verus! {

fn lower_byte(b: u8) -> (r: u8)
    ensures
        r == lower(b),
{
    if 65 <= b && b <= 90 {
        b + 32
    } else {
        b
    }
}

/// `a` equals the literal `t` but for ASCII case.
fn field_is(a: &[u8], t: &str) -> (r: bool)
    ensures
        r == same_field(a@, lit(t)),
{
    let l = t.as_bytes();
    if a.len() != l.len() {
        return false;
    }
    let mut k: usize = 0;
    while k < a.len()
        invariant
            k <= a@.len(),
            a@.len() == l@.len(),
            l@ == lit(t),
            forall|m: int| 0 <= m < k ==> lower(#[trigger] a@[m]) == lower(l@[m]),
        decreases a@.len() - k,
    {
        if lower_byte(a[k]) != lower_byte(l[k]) {
            return false;
        }
        k = k + 1;
    }
    true
}

fn read_request_line(s: &[u8], e: usize) -> (r: Result<(Method, Vec<u8>, HTTPVersion), RequestError>)
    requires
        e <= s@.len(),
    ensures
        match r {
            Ok((m, p, v)) => crate::http::request_line(s@, e as int) == Ok::<
                (Method, Seq<u8>, HTTPVersion),
                RequestError,
            >((m, p@, v)),
            Err(x) => crate::http::request_line(s@, e as int) == Err::<
                (Method, Seq<u8>, HTTPVersion),
                RequestError,
            >(x),
        },
{
    let a0 = skip_blanks(s, 0, e);
    let a = scan_blank(s, a0, e);
    match parse_method(s, a0, a) {
        None => Err(RequestError::InvalidMethod),
        Some(m) => {
            let b0 = skip_blanks(s, a, e);
            let b = scan_blank(s, b0, e);
            let c0 = skip_blanks(s, b, e);
            let c = scan_blank(s, c0, e);
            if b0 == e || c0 == e || skip_blanks(s, c, e) != e {
                return Err(RequestError::Malformed);
            }
            match parse_version(s, c0, c) {
                None => Err(RequestError::InvalidVersion),
                Some(v) => Ok((m, copy_range(s, b0, b), v)),
            }
        },
    }
}

fn skip_blanks(s: &[u8], i: usize, e: usize) -> (r: usize)
    requires
        i <= e <= s@.len(),
    ensures
        r as int == trim_start(s@, i as int, e as int),
        i <= r <= e,
{
    let mut j: usize = i;
    while j < e && (s[j] == 32 || s[j] == 9)
        invariant
            i <= j <= e <= s@.len(),
            trim_start(s@, i as int, e as int) == trim_start(s@, j as int, e as int),
        decreases e - j,
    {
        j = j + 1;
    }
    j
}

fn scan_blank(s: &[u8], i: usize, e: usize) -> (r: usize)
    requires
        i <= e <= s@.len(),
    ensures
        r as int == find_blank(s@, i as int, e as int),
        i <= r <= e,
{
    let mut j: usize = i;
    while j < e && !(s[j] == 32 || s[j] == 9)
        invariant
            i <= j <= e <= s@.len(),
            find_blank(s@, i as int, e as int) == find_blank(s@, j as int, e as int),
        decreases e - j,
    {
        j = j + 1;
    }
    j
}

fn read_headers(s: &[u8], i: usize) -> (r: Result<(Vec<Header>, usize), RequestError>)
    requires
        i <= s@.len(),
    ensures
        match r {
            Ok((hs, k)) => crate::http::headers_from(s@, i as int) == Ok::<
                (Seq<(Seq<u8>, Seq<u8>)>, int),
                RequestError,
            >((headers_view(hs@), k as int)) && k <= s@.len(),
            Err(x) => crate::http::headers_from(s@, i as int) == Err::<
                (Seq<(Seq<u8>, Seq<u8>)>, int),
                RequestError,
            >(x),
        },
{
    let mut acc: Vec<Header> = Vec::new();
    let mut p: usize = i;
    proof {
        match crate::http::headers_from(s@, i as int) {
            Ok((hs, k)) => assert(headers_view(acc@) + hs =~= hs),
            Err(_) => {},
        }
    }
    loop
        invariant
            i <= p <= s@.len(),
            crate::http::headers_from(s@, i as int) == match crate::http::headers_from(s@, p as int) {
                Ok((hs, k)) => Ok((headers_view(acc@) + hs, k)),
                Err(x) => Err::<(Seq<(Seq<u8>, Seq<u8>)>, int), RequestError>(x),
            },
        decreases s@.len() - p,
    {
        let e = next_crlf(s, p);
        if !(s.len() - e > 1) {
            return Err(RequestError::UnexpectedEof);
        }
        if !check_ascii(s, p, e) {
            return Err(RequestError::NotAscii);
        }
        if e == p {
            assert(headers_view(acc@) + Seq::<(Seq<u8>, Seq<u8>)>::empty() =~= headers_view(acc@));
            return Ok((acc, e + 2));
        }
        let c = scan_byte(s, p, e, 58);
        if c == e {
            return Err(RequestError::Malformed);
        }
        let field = trim_range(s, p, c);
        let value = trim_range(s, c + 1, e);
        let ghost h = (field@, value@);
        let ghost old_acc = acc@;
        acc.push(Header { field, value });
        p = e + 2;
        proof {
            assert(headers_view(acc@) =~= headers_view(old_acc).push(h));
            match crate::http::headers_from(s@, p as int) {
                Ok((hs, k)) => {
                    assert(headers_view(old_acc) + (seq![h] + hs) =~= headers_view(acc@) + hs);
                },
                Err(_) => {},
            }
        }
    }
}

proof fn lemma_digits_value_grows(d: Seq<u8>, k: int)
    requires
        0 <= k <= d.len(),
        forall|m: int| 0 <= m < d.len() ==> is_digit(#[trigger] d[m]),
    ensures
        digits_value(d) >= digits_value(d.subrange(0, k)),
    decreases d.len(),
{
    if d.len() == 0 {
        assert(d.subrange(0, k) =~= d);
    } else if k == d.len() {
        assert(d.subrange(0, k) =~= d);
    } else {
        lemma_digits_value_grows(d.drop_last(), k);
        assert(d.drop_last().subrange(0, k) =~= d.subrange(0, k));
    }
}

/// The value of the digits `v`, where it is at most `cap`; `None` where it
/// is more.
fn digits_upto(v: &[u8], cap: usize) -> (r: Option<usize>)
    requires
        forall|m: int| 0 <= m < v@.len() ==> is_digit(#[trigger] v@[m]),
    ensures
        r matches Some(n) ==> n == digits_value(v@) && n <= cap,
        r is None ==> digits_value(v@) > cap,
{
    let mut value: usize = 0;
    let mut k: usize = 0;
    while k < v.len()
        invariant
            k <= v@.len(),
            forall|m: int| 0 <= m < v@.len() ==> is_digit(#[trigger] v@[m]),
            value == digits_value(v@.subrange(0, k as int)),
            value <= cap,
        decreases v@.len() - k,
    {
        assert(v@.subrange(0, k + 1).drop_last() =~= v@.subrange(0, k as int));
        let d = (v[k] - 48) as usize;
        if value > cap / 10 {
            proof {
                assert(value * 10 > cap) by (nonlinear_arith)
                    requires
                        value > cap / 10,
                ;
                lemma_digits_value_grows(v@, k + 1);
            }
            return None;
        }
        assert(value * 10 <= cap) by (nonlinear_arith)
            requires
                value <= cap / 10,
        ;
        if d > cap - value * 10 {
            proof {
                lemma_digits_value_grows(v@, k + 1);
            }
            return None;
        }
        value = value * 10 + d;
        k = k + 1;
    }
    assert(v@.subrange(0, k as int) =~= v@);
    Some(value)
}

} // verus!

verus! {

fn content_length(hs: &Vec<Header>) -> (r: Result<usize, RequestError>)
    ensures
        match r {
            Ok(n) => content_length_from(headers_view(hs@), 0) == Ok::<nat, RequestError>(n as nat),
            Err(x) => content_length_from(headers_view(hs@), 0) == Err::<nat, RequestError>(x),
        },
{
    let ghost hv = headers_view(hs@);
    let mut k: usize = 0;
    while k < hs.len()
        invariant
            k <= hs@.len(),
            hv == headers_view(hs@),
            content_length_from(hv, 0) == content_length_from(hv, k as int),
        decreases hs@.len() - k,
    {
        if field_is(hs[k].field.as_slice(), "Content-Length") {
            return match parse_length(hs[k].value.as_slice()) {
                Some(n) => Ok(n),
                None => Err(RequestError::InvalidLength),
            };
        }
        k = k + 1;
    }
    Ok(0)
}

/// Reads one request from the start of `s`.
///
/// On success it also gives the number of bytes the request took: its
/// head, and exactly as many body bytes as its `Content-Length` header
/// names (none where there is no such header). `UnexpectedEof` means that
/// `s` ended before the request did.
pub fn create_request(s: &[u8], remote_addr: Option<String>) -> (r: Result<(Request, usize), RequestError>)
    ensures
        match r {
            Ok((req, used)) => request_spec(s@) == Ok::<(RequestModel, int), RequestError>(
                (req.model(), used as int),
            ) && req.remote() == remote_addr,
            Err(x) => request_spec(s@) == Err::<(RequestModel, int), RequestError>(x),
        },
        r matches Ok((req, used)) ==> content_length_from(req.model().headers, 0) == Ok::<
            nat,
            RequestError,
        >(req.model().body_length) && used <= s@.len() && match req.model().body {
            Some(b) => b.len() == req.model().body_length && req.model().body_length > 0 && b
                == s@.subrange(used - req.model().body_length, used as int),
            None => req.model().body_length == 0,
        },
{
    let e = next_crlf(s, 0);
    if !(s.len() - e > 1) {
        return Err(RequestError::UnexpectedEof);
    }
    if !check_ascii(s, 0, e) {
        return Err(RequestError::NotAscii);
    }
    let (method, path, version) = match read_request_line(s, e) {
        Ok(t) => t,
        Err(x) => {
            return Err(x);
        },
    };
    let (headers, k) = match read_headers(s, e + 2) {
        Ok(t) => t,
        Err(x) => {
            return Err(x);
        },
    };
    let n = match content_length(&headers) {
        Ok(n) => n,
        Err(x) => {
            return Err(x);
        },
    };
    if n > s.len() - k {
        return Err(RequestError::UnexpectedEof);
    }
    if n == 0 {
        let req = Request::new(remote_addr, method, path, version, headers, 0, None);
        Ok((req, k))
    } else {
        let body = copy_range(s, k, k + n);
        let req = Request::new(remote_addr, method, path, version, headers, n, Some(body));
        Ok((req, k + n))
    }
}

} // verus!

verus! {

/// An HTTP status code.
#[derive(Clone, Copy, Debug, PartialEq, Eq)]
pub struct StatusCode(pub u16);

/// The reason phrase that goes with a status code.
pub open spec fn reason_of(code: u16) -> &'static str {
    if code == 100 {
        "Continue"
    } else if code == 101 {
        "Switching Protocols"
    } else if code == 200 {
        "OK"
    } else if code == 201 {
        "Created"
    } else if code == 202 {
        "Accepted"
    } else if code == 204 {
        "No Content"
    } else if code == 301 {
        "Moved Permanently"
    } else if code == 302 {
        "Found"
    } else if code == 304 {
        "Not Modified"
    } else if code == 400 {
        "Bad Request"
    } else if code == 401 {
        "Unauthorized"
    } else if code == 403 {
        "Forbidden"
    } else if code == 404 {
        "Not Found"
    } else if code == 405 {
        "Method Not Allowed"
    } else if code == 408 {
        "Request Time-out"
    } else if code == 411 {
        "Length Required"
    } else if code == 413 {
        "Request Entity Too Large"
    } else if code == 500 {
        "Internal Server Error"
    } else if code == 501 {
        "Not Implemented"
    } else if code == 502 {
        "Bad Gateway"
    } else if code == 503 {
        "Service Unavailable"
    } else if code == 505 {
        "HTTP Version not supported"
    } else {
        "Unknown"
    }
}

impl StatusCode {
    /// The reason phrase that goes with this code.
    pub fn default_reason_phrase(&self) -> (r: &'static str)
        ensures
            r == reason_of(self.0),
    {
        let code = self.0;
        if code == 100 {
            "Continue"
        } else if code == 101 {
            "Switching Protocols"
        } else if code == 200 {
            "OK"
        } else if code == 201 {
            "Created"
        } else if code == 202 {
            "Accepted"
        } else if code == 204 {
            "No Content"
        } else if code == 301 {
            "Moved Permanently"
        } else if code == 302 {
            "Found"
        } else if code == 304 {
            "Not Modified"
        } else if code == 400 {
            "Bad Request"
        } else if code == 401 {
            "Unauthorized"
        } else if code == 403 {
            "Forbidden"
        } else if code == 404 {
            "Not Found"
        } else if code == 405 {
            "Method Not Allowed"
        } else if code == 408 {
            "Request Time-out"
        } else if code == 411 {
            "Length Required"
        } else if code == 413 {
            "Request Entity Too Large"
        } else if code == 500 {
            "Internal Server Error"
        } else if code == 501 {
            "Not Implemented"
        } else if code == 502 {
            "Bad Gateway"
        } else if code == 503 {
            "Service Unavailable"
        } else if code == 505 {
            "HTTP Version not supported"
        } else {
            "Unknown"
        }
    }
}

} // verus!

verus! {

/// A name for what `httpdate::fmt_http_date` gives for a moment, counted in
/// seconds since the Unix epoch.
pub uninterp spec fn http_date_of(secs: u64) -> Seq<char>;

/// The seconds since the Unix epoch from which a date can be written: the
/// dates before the year 10000.
pub open spec fn date_in_range(secs: u64) -> bool {
    secs < 253402300800
}

/// Relies on `httpdate::fmt_http_date`: the IMF-fixdate of a moment, such
/// as `Sun, 06 Nov 1994 08:49:37 GMT`, which depends on the moment alone.
/// It panics from the year 10000 on, which `requires` leaves out.
#[verifier::external_body]
fn http_date(secs: u64) -> (r: String)
    requires
        date_in_range(secs),
    ensures
        r@ == http_date_of(secs),
{
    httpdate::fmt_http_date(std::time::UNIX_EPOCH + std::time::Duration::from_secs(secs))
}

pub open spec fn is_field(h: (Seq<u8>, Seq<u8>), name: &str) -> bool {
    same_field(h.0, lit(name))
}

/// The header fields that a caller can never set.
pub open spec fn protected(f: Seq<u8>) -> bool {
    same_field(f, lit("Connection")) || same_field(f, lit("Trailer")) || same_field(
        f,
        lit("Transfer-Encoding"),
    ) || same_field(f, lit("Upgrade"))
}

/// The digits of a length, without its optional leading `+`.
pub open spec fn length_digits(v: Seq<u8>) -> Seq<u8> {
    if v.len() > 0 && v[0] == 43 {
        v.drop_first()
    } else {
        v
    }
}

/// A decimal length as `usize` reads it: an optional `+`, then digits
/// only, of a value at most `usize::MAX`.
pub open spec fn length_of(v: Seq<u8>) -> Option<nat> {
    let d = length_digits(v);
    if d.len() > 0 && (forall|m: int| 0 <= m < d.len() ==> is_digit(#[trigger] d[m]))
        && digits_value(d) <= usize::MAX {
        Some(digits_value(d))
    } else {
        None
    }
}

/// The index of the first header from `k` on whose field is `name`, or the length.
pub open spec fn first_field(hs: Seq<(Seq<u8>, Seq<u8>)>, name: &str, k: int) -> int
    decreases hs.len() - k,
{
    if 0 <= k < hs.len() && !is_field(hs[k], name) {
        first_field(hs, name, k + 1)
    } else {
        k
    }
}

/// Headers and data length after the header `(f, v)` is set: protected
/// fields are dropped; `Content-Length` sets the data length instead; a
/// `Content-Type` replaces the value of the one already there; any other
/// header comes last.
pub open spec fn add_header_spec(
    hs: Seq<(Seq<u8>, Seq<u8>)>,
    len: nat,
    f: Seq<u8>,
    v: Seq<u8>,
) -> (Seq<(Seq<u8>, Seq<u8>)>, nat) {
    if protected(f) {
        (hs, len)
    } else if same_field(f, lit("Content-Length")) {
        match length_of(v) {
            Some(n) => (hs, n),
            None => (hs, len),
        }
    } else if same_field(f, lit("Content-Type")) && first_field(hs, "Content-Type", 0) < hs.len() {
        let idx = first_field(hs, "Content-Type", 0);
        (hs.update(idx, (hs[idx].0, v)), len)
    } else {
        (hs.push((f, v)), len)
    }
}

/// No header names `Content-Length`, and at most one names `Content-Type`.
pub open spec fn headers_wf(hs: Seq<(Seq<u8>, Seq<u8>)>) -> bool {
    &&& forall|i: int| 0 <= i < hs.len() ==> !is_field(#[trigger] hs[i], "Content-Length")
    &&& forall|i: int, j: int|
        0 <= i < j < hs.len() && is_field(#[trigger] hs[i], "Content-Type") ==> !is_field(
            #[trigger] hs[j],
            "Content-Type",
        )
}

/// A response under construction.
pub struct Response {
    status_code: StatusCode,
    headers: Vec<Header>,
    data: Option<Vec<u8>>,
    data_length: usize,
}

impl Response {
    pub closed spec fn status(&self) -> u16 {
        self.status_code.0
    }

    pub closed spec fn header_seq(&self) -> Seq<(Seq<u8>, Seq<u8>)> {
        headers_view(self.headers@)
    }

    pub closed spec fn data_spec(&self) -> Option<Seq<u8>> {
        match self.data {
            Some(d) => Some(d@),
            None => None,
        }
    }

    pub closed spec fn length(&self) -> nat {
        self.data_length as nat
    }

    pub open spec fn wf(&self) -> bool {
        headers_wf(self.header_seq())
    }
}

} // verus!

verus! {

/// The byte lengths of the header names with a meaning of their own.
proof fn lemma_field_lits()
    ensures
        lit("Content-Type").len() == 12,
        lit("Content-Length").len() == 14,
        lit("Connection").len() == 10,
        lit("Trailer").len() == 7,
        lit("Transfer-Encoding").len() == 17,
        lit("Upgrade").len() == 7,
        lit("Date").len() == 4,
        lit("Server").len() == 6,
{
    reveal_strlit("Date");
    reveal_strlit("Server");
    assert(vstd::string::is_ascii("Date"));
    assert(vstd::string::is_ascii("Server"));
    reveal_strlit("Content-Type");
    reveal_strlit("Content-Length");
    reveal_strlit("Connection");
    reveal_strlit("Trailer");
    reveal_strlit("Transfer-Encoding");
    reveal_strlit("Upgrade");
    assert(vstd::string::is_ascii("Content-Type"));
    assert(vstd::string::is_ascii("Content-Length"));
    assert(vstd::string::is_ascii("Connection"));
    assert(vstd::string::is_ascii("Trailer"));
    assert(vstd::string::is_ascii("Transfer-Encoding"));
    assert(vstd::string::is_ascii("Upgrade"));
}

/// Whether the bytes are a decimal length, and which.
fn parse_length(v: &[u8]) -> (r: Option<usize>)
    ensures
        match r {
            Some(n) => length_of(v@) == Some(n as nat),
            None => length_of(v@) is None,
        },
{
    let st: usize = if v.len() > 0 && v[0] == 43 {
        1
    } else {
        0
    };
    let d = &v[st..v.len()];
    assert(d@ =~= length_digits(v@));
    if d.len() == 0 {
        return None;
    }
    let mut m: usize = 0;
    while m < d.len()
        invariant
            m <= d@.len(),
            d@ == length_digits(v@),
            forall|j: int| 0 <= j < m ==> is_digit(#[trigger] d@[j]),
        decreases d@.len() - m,
    {
        if !(48 <= d[m] && d[m] <= 57) {
            assert(!is_digit(d@[m as int]));
            return None;
        }
        m = m + 1;
    }
    digits_upto(d, usize::MAX)
}

impl Response {
    /// Sets a header, with the rules for the fields that have a meaning of
    /// their own (see `add_header_spec`).
    pub fn add_header(&mut self, header: Header)
        requires
            old(self).wf(),
        ensures
            final(self).wf(),
            (final(self).header_seq(), final(self).length()) == add_header_spec(
                old(self).header_seq(),
                old(self).length(),
                header.field@,
                header.value@,
            ),
            final(self).status() == old(self).status(),
            final(self).data_spec() == old(self).data_spec(),
    {
        proof {
            lemma_field_lits();
        }
        let f = header.field.as_slice();
        if field_is(f, "Connection") || field_is(f, "Trailer") || field_is(f, "Transfer-Encoding")
            || field_is(f, "Upgrade") {
            return;
        }
        if field_is(f, "Content-Length") {
            match parse_length(header.value.as_slice()) {
                Some(n) => {
                    self.data_length = n;
                },
                None => {},
            }
            return;
        }
        let ghost hs = headers_view(self.headers@);
        if field_is(f, "Content-Type") {
            let mut idx: usize = 0;
            while idx < self.headers.len() && !field_is(self.headers[idx].field.as_slice(), "Content-Type")
                invariant
                    idx <= self.headers@.len(),
                    hs == headers_view(self.headers@),
                    first_field(hs, "Content-Type", 0) == first_field(hs, "Content-Type", idx as int),
                decreases self.headers@.len() - idx,
            {
                idx = idx + 1;
            }
            if idx < self.headers.len() {
                let mut h = self.headers.remove(idx);
                h.value = header.value;
                self.headers.insert(idx, h);
                proof {
                    assert(headers_view(self.headers@) =~= hs.update(
                        idx as int,
                        (hs[idx as int].0, header.value@),
                    ));
                    assert forall|i: int, j: int|
                        0 <= i < j < hs.len() && is_field(
                            #[trigger] headers_view(self.headers@)[i],
                            "Content-Type",
                        ) implies !is_field(
                        #[trigger] headers_view(self.headers@)[j],
                        "Content-Type",
                    ) by {
                        assert(is_field(hs[i], "Content-Type"));
                    }
                }
                return;
            }
        }
        let ghost h = (header.field@, header.value@);
        self.headers.push(header);
        proof {
            let hs2 = headers_view(self.headers@);
            assert(hs2 =~= hs.push(h));
            if same_field(h.0, lit("Content-Type")) {
                assert forall|i: int| 0 <= i < hs.len() implies !is_field(
                    #[trigger] hs[i],
                    "Content-Type",
                ) by {
                    lemma_first_field_none(hs, "Content-Type", 0, i);
                }
            }
            assert forall|i: int, j: int|
                0 <= i < j < hs2.len() && is_field(#[trigger] hs2[i], "Content-Type") implies !is_field(
                #[trigger] hs2[j],
                "Content-Type",
            ) by {
                if j == hs.len() && same_field(h.0, lit("Content-Type")) {
                    lemma_first_field_none(hs, "Content-Type", 0, i);
                }
            }
        }
    }
}

proof fn lemma_first_field_none(hs: Seq<(Seq<u8>, Seq<u8>)>, name: &str, k: int, i: int)
    requires
        0 <= k <= i < hs.len(),
        first_field(hs, name, k) >= hs.len(),
    ensures
        !is_field(hs[i], name),
    decreases i - k,
{
    if k < i {
        lemma_first_field_none(hs, name, k + 1, i);
    }
}

} // verus!

verus! {

/// What a response carries in its `Server` header unless it sets its own.
pub open spec fn server_name() -> Seq<u8> {
    lit("Xml Rpc ArceOS (Rust)")
}

/// The headers as sent: a `Date` header first where there is none, a
/// `Server` header before all where there is none, and the one
/// `Content-Length` header last.
pub open spec fn final_headers(hs: Seq<(Seq<u8>, Seq<u8>)>, len: nat, date: Seq<u8>) -> Seq<
    (Seq<u8>, Seq<u8>),
> {
    let h1 = if first_field(hs, "Date", 0) < hs.len() {
        hs
    } else {
        seq![(lit("Date"), date)] + hs
    };
    let h2 = if first_field(h1, "Server", 0) < h1.len() {
        h1
    } else {
        seq![(lit("Server"), server_name())] + h1
    };
    h2.push((lit("Content-Length"), crate::grammar::digits(len)))
}

/// The body goes unsent for a status of class 1xx, for 204 and 304, and
/// where the caller asks so.
pub open spec fn body_suppressed(code: u16, do_not_send_body: bool) -> bool {
    do_not_send_body || (100 <= code <= 199) || code == 204 || code == 304
}

/// Header lines `<Field>: <Value>\r\n`, the first `n` of `hs`.
pub open spec fn header_block(hs: Seq<(Seq<u8>, Seq<u8>)>, n: nat) -> Seq<u8>
    decreases n,
{
    if n == 0 || n > hs.len() {
        Seq::empty()
    } else {
        header_block(hs, (n - 1) as nat) + hs[n - 1].0 + lit(": ") + hs[n - 1].1 + lit("\r\n")
    }
}

/// The status line, always of HTTP/1.0.
pub open spec fn status_line(code: u16) -> Seq<u8> {
    lit("HTTP/") + seq![49u8, 46u8, 48u8, 32u8] + crate::grammar::digits(code as nat) + seq![32u8]
        + lit(reason_of(code)) + lit("\r\n")
}

/// The headers and data length after the first `n` headers of `list` are
/// set one after the other.
pub open spec fn add_headers_spec(
    hs: Seq<(Seq<u8>, Seq<u8>)>,
    len: nat,
    list: Seq<(Seq<u8>, Seq<u8>)>,
    n: nat,
) -> (Seq<(Seq<u8>, Seq<u8>)>, nat)
    decreases n,
{
    if n == 0 || n > list.len() {
        (hs, len)
    } else {
        let (h, l) = add_headers_spec(hs, len, list, (n - 1) as nat);
        add_header_spec(h, l, list[n - 1].0, list[n - 1].1)
    }
}

/// The bytes sent for a response.
pub open spec fn frame_spec(
    code: u16,
    hs: Seq<(Seq<u8>, Seq<u8>)>,
    data: Option<Seq<u8>>,
    len: nat,
    do_not_send_body: bool,
    date: Seq<u8>,
) -> Seq<u8> {
    let fh = final_headers(hs, len, date);
    status_line(code) + header_block(fh, fh.len()) + lit("\r\n") + if !body_suppressed(
        code,
        do_not_send_body,
    ) && data is Some && len >= 1 {
        data->0
    } else {
        Seq::empty()
    }
}

} // verus!

verus! {

fn str_vec(t: &str) -> (r: Vec<u8>)
    ensures
        r@ == lit(t),
{
    let mut out: Vec<u8> = Vec::new();
    crate::encode::push_str(&mut out, t);
    assert(out@ =~= lit(t));
    out
}

fn push_decimal(out: &mut Vec<u8>, n: u64)
    ensures
        final(out)@ == old(out)@ + crate::grammar::digits(n as nat),
    decreases n,
{
    if n < 10 {
        out.push((48 + n) as u8);
        assert(out@ =~= old(out)@ + crate::grammar::digits(n as nat));
    } else {
        push_decimal(out, n / 10);
        out.push((48 + n % 10) as u8);
        assert(out@ =~= old(out)@ + crate::grammar::digits(n as nat));
    }
}

fn find_field(hs: &Vec<Header>, name: &str) -> (r: usize)
    ensures
        r as int == first_field(headers_view(hs@), name, 0),
        r <= hs@.len(),
{
    let ghost hv = headers_view(hs@);
    let mut idx: usize = 0;
    while idx < hs.len() && !field_is(hs[idx].field.as_slice(), name)
        invariant
            idx <= hs@.len(),
            hv == headers_view(hs@),
            first_field(hv, name, 0) == first_field(hv, name, idx as int),
        decreases hs@.len() - idx,
    {
        idx = idx + 1;
    }
    idx
}

impl Response {
    /// A response with the given status and data, and the given headers set
    /// one after the other.
    pub fn new(status_code: StatusCode, headers: Vec<Header>, data: Option<Vec<u8>>, data_length: usize) -> (r: Response)
        ensures
            r.wf(),
            r.status() == status_code.0,
            r.data_spec() == (match data {
                Some(d) => Some(d@),
                None => None::<Seq<u8>>,
            }),
            (r.header_seq(), r.length()) == add_headers_spec(
                Seq::empty(),
                data_length as nat,
                headers_view(headers@),
                headers@.len(),
            ),
    {
        let mut response = Response {
            status_code,
            headers: Vec::new(),
            data,
            data_length,
        };
        assert(response.header_seq() =~= Seq::<(Seq<u8>, Seq<u8>)>::empty());
        let mut headers = headers;
        let ghost orig = headers@;
        let ghost hv = headers_view(headers@);
        let mut k: usize = 0;
        assert(orig.len() == headers.len());
        while headers.len() > 0
            invariant
                orig.len() <= usize::MAX,
                response.wf(),
                response.status() == status_code.0,
                response.data_spec() == (match data {
                    Some(d) => Some(d@),
                    None => None::<Seq<u8>>,
                }),
                hv == headers_view(orig),
                k <= orig.len(),
                headers@ == orig.subrange(k as int, orig.len() as int),
                (response.header_seq(), response.length()) == add_headers_spec(
                    Seq::empty(),
                    data_length as nat,
                    hv,
                    k as nat,
                ),
            decreases headers@.len(),
        {
            let h = headers.remove(0);
            assert(h == orig[k as int]);
            assert(headers@ =~= orig.subrange(k + 1, orig.len() as int));
            response.add_header(h);
            k = k + 1;
        }
        assert(k == orig.len());
        response
    }
}

} // verus!

verus! {

impl Response {
    /// The same response, with one more header set as `add_header` does.
    pub fn with_header(self, header: Header) -> (r: Response)
        requires
            self.wf(),
        ensures
            r.wf(),
            (r.header_seq(), r.length()) == add_header_spec(
                self.header_seq(),
                self.length(),
                header.field@,
                header.value@,
            ),
            r.status() == self.status(),
            r.data_spec() == self.data_spec(),
    {
        let mut s = self;
        s.add_header(header);
        s
    }

    /// The same response, with another status code.
    pub fn with_status_code(self, code: StatusCode) -> (r: Response)
        ensures
            r.status() == code.0,
            r.header_seq() == self.header_seq(),
            r.length() == self.length(),
            r.data_spec() == self.data_spec(),
    {
        let mut s = self;
        s.status_code = code;
        s
    }

    /// The same response, with other data and data length.
    pub fn with_data(self, data: Option<Vec<u8>>, data_length: usize) -> (r: Response)
        ensures
            r.status() == self.status(),
            r.header_seq() == self.header_seq(),
            r.length() == data_length,
            r.data_spec() == (match data {
                Some(d) => Some(d@),
                None => None::<Seq<u8>>,
            }),
    {
        Response { data, headers: self.headers, status_code: self.status_code, data_length }
    }

    /// The status code.
    pub fn status_code(&self) -> (r: StatusCode)
        ensures
            r.0 == self.status(),
    {
        self.status_code
    }

    /// The length of the data, as the `Content-Length` header will give it.
    pub fn data_length(&self) -> (r: usize)
        ensures
            r == self.length(),
    {
        self.data_length
    }

    /// The headers set so far, in order.
    pub fn headers(&self) -> (r: &[Header])
        ensures
            headers_view(r@) == self.header_seq(),
    {
        self.headers.as_slice()
    }

    /// An empty response with status 400.
    pub fn empty_400() -> (r: Response)
        ensures
            r.wf(),
            r.status() == 400,
            r.header_seq() == Seq::<(Seq<u8>, Seq<u8>)>::empty(),
            r.data_spec() is None,
            r.length() == 0,
    {
        let none: Vec<Header> = Vec::new();
        assert(headers_view(none@) =~= Seq::<(Seq<u8>, Seq<u8>)>::empty());
        Response::new(StatusCode(400), none, None, 0)
    }

    /// A response with status 200 that carries `data`, with the given
    /// `Content-Type` and the data's length.
    pub fn from_data(content_type: &str, data: Option<Vec<u8>>) -> (r: Response)
        ensures
            r.wf(),
            r.status() == 200,
            r.header_seq() == seq![(lit("Content-Type"), lit(content_type))],
            r.data_spec() == (match data {
                Some(d) => Some(d@),
                None => None::<Seq<u8>>,
            }),
            r.length() == (match data {
                Some(d) => d@.len(),
                None => 0,
            }),
    {
        proof {
            lemma_field_lits();
        }
        let mut headers: Vec<Header> = Vec::new();
        let mut value: Vec<u8> = Vec::new();
        crate::encode::push_bytes(&mut value, content_type.as_bytes());
        assert(value@ =~= lit(content_type));
        headers.push(Header { field: str_vec("Content-Type"), value });
        let data_length = match &data {
            Some(d) => d.len(),
            None => 0,
        };
        let r = Response::new(StatusCode(200), headers, data, data_length);
        proof {
            let hv = headers_view(headers@);
            assert(hv[0].0 == lit("Content-Type"));
            assert(first_field(Seq::<(Seq<u8>, Seq<u8>)>::empty(), "Content-Type", 0) == 0);
            assert(add_headers_spec(Seq::empty(), data_length as nat, hv, 0) == (
                Seq::<(Seq<u8>, Seq<u8>)>::empty(),
                data_length as nat,
            ));
            assert(seq![(lit("Content-Type"), lit(content_type))] =~= Seq::<
                (Seq<u8>, Seq<u8>),
            >::empty().push(hv[0]));
        }
        r
    }

    /// The bytes that send this response: the status line, the headers
    /// (with `Date`, `Server` and `Content-Length` as `final_headers` says),
    /// an empty line, and the data unless `body_suppressed`.
    /// `now_secs` is the moment of sending, in seconds since the Unix epoch.
    pub fn raw_print(self, do_not_send_body: bool, now_secs: u64) -> (r: Vec<u8>)
        requires
            date_in_range(now_secs),
        ensures
            r@ == frame_spec(
                self.status(),
                self.header_seq(),
                self.data_spec(),
                self.length(),
                do_not_send_body,
                vstd::utf8::encode_utf8(http_date_of(now_secs)),
            ),
    {
        let ghost date = vstd::utf8::encode_utf8(http_date_of(now_secs));
        let ghost hs0 = self.header_seq();
        let mut headers = self.headers;
        if find_field(&headers, "Date") == headers.len() {
            let d = http_date(now_secs);
            let mut value: Vec<u8> = Vec::new();
            crate::encode::push_bytes(&mut value, d.as_str().as_bytes());
            headers.insert(0, Header { field: str_vec("Date"), value });
            assert(headers_view(headers@) =~= seq![(lit("Date"), date)] + hs0);
        }
        let ghost hs1 = headers_view(headers@);
        if find_field(&headers, "Server") == headers.len() {
            headers.insert(0, Header { field: str_vec("Server"), value: str_vec("Xml Rpc ArceOS (Rust)") });
            assert(headers_view(headers@) =~= seq![(lit("Server"), server_name())] + hs1);
        }
        let ghost hs2 = headers_view(headers@);
        let code = self.status_code.0;
        let suppress = do_not_send_body || (100 <= code && code <= 199) || code == 204 || code == 304;
        let mut len_value: Vec<u8> = Vec::new();
        push_decimal(&mut len_value, self.data_length as u64);
        assert(len_value@ =~= crate::grammar::digits(self.data_length as nat));
        headers.push(Header { field: str_vec("Content-Length"), value: len_value });
        let ghost fh = headers_view(headers@);
        assert(fh =~= final_headers(hs0, self.length(), date));
        let mut out: Vec<u8> = Vec::new();
        crate::encode::push_str(&mut out, "HTTP/");
        out.push(49u8);
        out.push(46u8);
        out.push(48u8);
        out.push(32u8);
        push_decimal(&mut out, code as u64);
        out.push(32u8);
        crate::encode::push_str(&mut out, self.status_code.default_reason_phrase());
        crate::encode::push_str(&mut out, "\r\n");
        assert(out@ =~= status_line(code));
        let mut k: usize = 0;
        while k < headers.len()
            invariant
                k <= headers@.len(),
                fh == headers_view(headers@),
                out@ == status_line(code) + header_block(fh, k as nat),
            decreases headers@.len() - k,
        {
            let ghost before = out@;
            crate::encode::push_bytes(&mut out, headers[k].field.as_slice());
            crate::encode::push_str(&mut out, ": ");
            crate::encode::push_bytes(&mut out, headers[k].value.as_slice());
            crate::encode::push_str(&mut out, "\r\n");
            k = k + 1;
            assert(out@ =~= status_line(code) + header_block(fh, k as nat));
        }
        crate::encode::push_str(&mut out, "\r\n");
        let ghost head = out@;
        if !suppress && self.data_length >= 1 {
            match &self.data {
                Some(d) => crate::encode::push_bytes(&mut out, d.as_slice()),
                None => {},
            }
        }
        assert(out@ =~= frame_spec(
            self.status(),
            hs0,
            self.data_spec(),
            self.length(),
            do_not_send_body,
            date,
        ));
        out
    }
}

} // verus!

verus! {

proof fn lemma_first_field_found(hs: Seq<(Seq<u8>, Seq<u8>)>, name: &str, k: int)
    requires
        0 <= k <= hs.len(),
    ensures
        k <= first_field(hs, name, k) <= hs.len(),
        first_field(hs, name, k) < hs.len() ==> is_field(hs[first_field(hs, name, k)], name),
        forall|i: int| k <= i < first_field(hs, name, k) ==> !is_field(#[trigger] hs[i], name),
    decreases hs.len() - k,
{
    if k < hs.len() && !is_field(hs[k], name) {
        lemma_first_field_found(hs, name, k + 1);
    }
}

/// Setting a header keeps the header list well formed: no `Content-Length`
/// header, and at most one `Content-Type` header.
pub proof fn lemma_add_header_wf(hs: Seq<(Seq<u8>, Seq<u8>)>, len: nat, f: Seq<u8>, v: Seq<u8>)
    requires
        headers_wf(hs),
    ensures
        headers_wf(add_header_spec(hs, len, f, v).0),
{
    lemma_field_lits();
    lemma_first_field_found(hs, "Content-Type", 0);
    let h2 = add_header_spec(hs, len, f, v).0;
    if !protected(f) && !same_field(f, lit("Content-Length")) {
        if same_field(f, lit("Content-Type")) && first_field(hs, "Content-Type", 0) < hs.len() {
            let idx = first_field(hs, "Content-Type", 0);
            assert forall|i: int, j: int|
                0 <= i < j < h2.len() && is_field(#[trigger] h2[i], "Content-Type") implies !is_field(
                #[trigger] h2[j],
                "Content-Type",
            ) by {
                assert(is_field(hs[i], "Content-Type"));
            }
        } else {
            assert forall|i: int, j: int|
                0 <= i < j < h2.len() && is_field(#[trigger] h2[i], "Content-Type") implies !is_field(
                #[trigger] h2[j],
                "Content-Type",
            ) by {
                if j == hs.len() && same_field(f, lit("Content-Type")) {
                    assert(!is_field(hs[i], "Content-Type"));
                }
            }
        }
    }
}

/// Setting `Content-Type` twice leaves exactly one `Content-Type` header,
/// and it holds the second value.
pub proof fn law_content_type_set_twice(
    hs: Seq<(Seq<u8>, Seq<u8>)>,
    len: nat,
    f1: Seq<u8>,
    v1: Seq<u8>,
    f2: Seq<u8>,
    v2: Seq<u8>,
)
    requires
        headers_wf(hs),
        same_field(f1, lit("Content-Type")),
        same_field(f2, lit("Content-Type")),
    ensures
        ({
            let (h1, l1) = add_header_spec(hs, len, f1, v1);
            let h2 = add_header_spec(h1, l1, f2, v2).0;
            let idx = first_field(h2, "Content-Type", 0);
            &&& idx < h2.len()
            &&& h2[idx].1 == v2
            &&& forall|j: int| 0 <= j < h2.len() && j != idx ==> !is_field(#[trigger] h2[j], "Content-Type")
        }),
{
    lemma_field_lits();
    let (h1, l1) = add_header_spec(hs, len, f1, v1);
    lemma_add_header_wf(hs, len, f1, v1);
    lemma_first_field_found(hs, "Content-Type", 0);
    lemma_first_field_found(h1, "Content-Type", 0);
    assert(first_field(h1, "Content-Type", 0) < h1.len()) by {
        assert(!protected(f1));
        assert(!same_field(f1, lit("Content-Length")));
        if first_field(hs, "Content-Type", 0) >= hs.len() {
            assert(h1 == hs.push((f1, v1)));
            assert(is_field(h1[hs.len() as int], "Content-Type"));
        } else {
            let idx = first_field(hs, "Content-Type", 0);
            assert(h1 == hs.update(idx, (hs[idx].0, v1)));
            assert(is_field(h1[idx], "Content-Type"));
        }
    }
    let h2 = add_header_spec(h1, l1, f2, v2).0;
    lemma_add_header_wf(h1, l1, f2, v2);
    let idx1 = first_field(h1, "Content-Type", 0);
    assert(h2 == h1.update(idx1, (h1[idx1].0, v2)));
    lemma_first_field_found(h2, "Content-Type", 0);
    assert(is_field(h2[idx1], "Content-Type"));
    assert(first_field(h2, "Content-Type", 0) == idx1) by {
        assert forall|i: int| 0 <= i < idx1 implies !is_field(#[trigger] h2[i], "Content-Type") by {
            assert(h2[i] == h1[i]);
        }
        lemma_first_field_is(h2, "Content-Type", 0, idx1);
    }
}

proof fn lemma_first_field_is(hs: Seq<(Seq<u8>, Seq<u8>)>, name: &str, k: int, idx: int)
    requires
        0 <= k <= idx < hs.len(),
        is_field(hs[idx], name),
        forall|i: int| k <= i < idx ==> !is_field(#[trigger] hs[i], name),
    ensures
        first_field(hs, name, k) == idx,
    decreases idx - k,
{
    if k < idx {
        lemma_first_field_is(hs, name, k + 1, idx);
    }
}

/// The headers as sent hold exactly one `Content-Length` header, the last,
/// however the response was built.
pub proof fn law_one_content_length(hs: Seq<(Seq<u8>, Seq<u8>)>, len: nat, date: Seq<u8>)
    requires
        headers_wf(hs),
    ensures
        ({
            let fh = final_headers(hs, len, date);
            &&& fh.len() > 0
            &&& is_field(fh.last(), "Content-Length")
            &&& forall|i: int| 0 <= i < fh.len() - 1 ==> !is_field(#[trigger] fh[i], "Content-Length")
        }),
{
    lemma_field_lits();
    let fh = final_headers(hs, len, date);
    assert(same_field(lit("Content-Length"), lit("Content-Length")));
    assert forall|i: int| 0 <= i < fh.len() - 1 implies !is_field(#[trigger] fh[i], "Content-Length") by {
        let h1 = if first_field(hs, "Date", 0) < hs.len() {
            hs
        } else {
            seq![(lit("Date"), date)] + hs
        };
        let h2 = if first_field(h1, "Server", 0) < h1.len() {
            h1
        } else {
            seq![(lit("Server"), server_name())] + h1
        };
        assert(fh[i] == h2[i]);
        if h2 != h1 && i == 0 {
        } else {
            let i1 = if h2 != h1 { i - 1 } else { i };
            assert(h2[i] == h1[i1]);
            if h1 != hs && i1 == 0 {
            } else {
                let i0 = if h1 != hs { i1 - 1 } else { i1 };
                assert(h1[i1] == hs[i0]);
            }
        }
    }
}

} // verus!

verus! {

proof fn lemma_prefix_crlf(s: Seq<u8>, n: int, i: int)
    requires
        0 <= i <= n <= s.len(),
    ensures
        ({
            let t = s.subrange(0, n);
            let e = crlf_at(s, i);
            if e + 1 < n {
                crlf_at(t, i) == e
            } else {
                !(crlf_at(t, i) + 1 < t.len())
            }
        }),
    decreases s.len() - i,
{
    let t = s.subrange(0, n);
    if i + 1 < n {
        if !(s[i] == 13 && s[i + 1] == 10) {
            lemma_prefix_crlf(s, n, i + 1);
        }
    } else if i + 1 < s.len() {
        if !(s[i] == 13 && s[i + 1] == 10) {
            lemma_crlf_ge(s, i + 1);
        }
    }
}

proof fn lemma_crlf_ge(s: Seq<u8>, i: int)
    requires
        0 <= i <= s.len(),
    ensures
        crlf_at(s, i) >= i,
    decreases s.len() - i,
{
    if i + 1 < s.len() && !(s[i] == 13 && s[i + 1] == 10) {
        lemma_crlf_ge(s, i + 1);
    }
}

proof fn lemma_prefix_find(s: Seq<u8>, t: Seq<u8>, i: int, e: int, b: u8)
    requires
        0 <= i <= e <= t.len() <= s.len(),
        t == s.subrange(0, t.len() as int),
    ensures
        find_byte(t, i, e, b) == find_byte(s, i, e, b),
    decreases e - i,
{
    if i < e {
        lemma_prefix_find(s, t, i + 1, e, b);
    }
}

proof fn lemma_prefix_trimmed(s: Seq<u8>, t: Seq<u8>, i: int, e: int)
    requires
        0 <= i <= e <= t.len() <= s.len(),
        t == s.subrange(0, t.len() as int),
    ensures
        trimmed(t, i, e) == trimmed(s, i, e),
{
    lemma_prefix_trim_start(s, t, i, e);
    let a = trim_start(s, i, e);
    lemma_trim_start_bounds(s, i, e);
    lemma_prefix_trim_end(s, t, a, e);
    lemma_trim_end_bounds(s, a, e);
    assert(t.subrange(a, trim_end(s, a, e)) =~= s.subrange(a, trim_end(s, a, e)));
}

proof fn lemma_trim_start_bounds(s: Seq<u8>, i: int, e: int)
    requires
        i <= e,
    ensures
        i <= trim_start(s, i, e) <= e,
    decreases e - i,
{
    if i < e && is_blank(s[i]) {
        lemma_trim_start_bounds(s, i + 1, e);
    }
}

proof fn lemma_trim_end_bounds(s: Seq<u8>, i: int, e: int)
    requires
        i <= e,
    ensures
        i <= trim_end(s, i, e) <= e,
    decreases e - i,
{
    if i < e && is_blank(s[e - 1]) {
        lemma_trim_end_bounds(s, i, e - 1);
    }
}

proof fn lemma_prefix_trim_start(s: Seq<u8>, t: Seq<u8>, i: int, e: int)
    requires
        0 <= i <= e <= t.len() <= s.len(),
        t == s.subrange(0, t.len() as int),
    ensures
        trim_start(t, i, e) == trim_start(s, i, e),
    decreases e - i,
{
    if i < e {
        lemma_prefix_trim_start(s, t, i + 1, e);
    }
}

proof fn lemma_prefix_trim_end(s: Seq<u8>, t: Seq<u8>, i: int, e: int)
    requires
        0 <= i <= e <= t.len() <= s.len(),
        t == s.subrange(0, t.len() as int),
    ensures
        trim_end(t, i, e) == trim_end(s, i, e),
    decreases e - i,
{
    if i < e {
        lemma_prefix_trim_end(s, t, i, e - 1);
    }
}

proof fn lemma_prefix_line(s: Seq<u8>, t: Seq<u8>, i: int, e: int)
    requires
        0 <= i <= e <= t.len() <= s.len(),
        t == s.subrange(0, t.len() as int),
    ensures
        all_ascii(t, i, e) == all_ascii(s, i, e),
        header_line(t, i, e) == header_line(s, i, e),
{
    assert(all_ascii(t, i, e) == all_ascii(s, i, e)) by {
        if all_ascii(s, i, e) {
            assert forall|k: int| i <= k < e implies #[trigger] t[k] < 128 by {
                assert(t[k] == s[k]);
            }
        } else {
            let k = choose|k: int| i <= k < e && !(#[trigger] s[k] < 128);
            assert(t[k] == s[k]);
        }
    }
    lemma_prefix_find(s, t, i, e, 58);
    let c = find_byte(s, i, e, 58);
    lemma_find_bounds(s, i, e, 58);
    if c != e {
        lemma_prefix_trimmed(s, t, i, c);
        lemma_prefix_trimmed(s, t, c + 1, e);
    }
}

proof fn lemma_find_bounds(s: Seq<u8>, i: int, e: int, b: u8)
    requires
        i <= e,
    ensures
        i <= find_byte(s, i, e, b) <= e,
    decreases e - i,
{
    if i < e && s[i] != b {
        lemma_find_bounds(s, i + 1, e, b);
    }
}

proof fn lemma_prefix_headers(s: Seq<u8>, n: int, i: int)
    requires
        0 <= i <= n <= s.len(),
        headers_from(s, i) is Ok,
        n < headers_from(s, i)->Ok_0.1,
    ensures
        headers_from(s.subrange(0, n), i) == Err::<(Seq<(Seq<u8>, Seq<u8>)>, int), RequestError>(
            RequestError::UnexpectedEof,
        ),
    decreases s.len() - i,
{
    let t = s.subrange(0, n);
    let e = crlf_at(s, i);
    lemma_prefix_crlf(s, n, i);
    if e + 1 < n {
        lemma_prefix_line(s, t, i, e);
        if e != i {
            lemma_prefix_headers(s, n, e + 2);
        }
    }
}

proof fn lemma_headers_bound(s: Seq<u8>, i: int)
    requires
        headers_from(s, i) is Ok,
    ensures
        headers_from(s, i)->Ok_0.1 <= s.len(),
    decreases s.len() - i,
{
    let e = crlf_at(s, i);
    if 0 <= i <= e && e + 1 < s.len() && all_ascii(s, i, e) && e != i {
        lemma_headers_bound(s, e + 2);
    }
}

proof fn lemma_prefix_find_blank(s: Seq<u8>, t: Seq<u8>, i: int, e: int)
    requires
        0 <= i <= e <= t.len() <= s.len(),
        t == s.subrange(0, t.len() as int),
    ensures
        find_blank(t, i, e) == find_blank(s, i, e),
        i <= find_blank(s, i, e) <= e,
    decreases e - i,
{
    if i < e {
        lemma_prefix_find_blank(s, t, i + 1, e);
    }
}

proof fn lemma_prefix_request_line(s: Seq<u8>, t: Seq<u8>, e: int)
    requires
        0 <= e <= t.len() <= s.len(),
        t == s.subrange(0, t.len() as int),
    ensures
        request_line(t, e) == request_line(s, e),
{
    lemma_prefix_trim_start(s, t, 0, e);
    lemma_trim_start_bounds(s, 0, e);
    let a0 = trim_start(s, 0, e);
    lemma_prefix_find_blank(s, t, a0, e);
    let a = find_blank(s, a0, e);
    assert(t.subrange(a0, a) =~= s.subrange(a0, a));
    lemma_prefix_trim_start(s, t, a, e);
    lemma_trim_start_bounds(s, a, e);
    let b0 = trim_start(s, a, e);
    lemma_prefix_find_blank(s, t, b0, e);
    let b = find_blank(s, b0, e);
    assert(t.subrange(b0, b) =~= s.subrange(b0, b));
    lemma_prefix_trim_start(s, t, b, e);
    lemma_trim_start_bounds(s, b, e);
    let c0 = trim_start(s, b, e);
    lemma_prefix_find_blank(s, t, c0, e);
    let c = find_blank(s, c0, e);
    assert(t.subrange(c0, c) =~= s.subrange(c0, c));
    lemma_prefix_trim_start(s, t, c, e);
}

/// A request cut off before the empty line that ends its headers reads as
/// `UnexpectedEof`: never as a malformed line or another error.
pub proof fn law_truncated_head_is_eof(s: Seq<u8>, n: int)
    requires
        request_spec(s) is Ok,
        0 <= n,
        n + request_spec(s)->Ok_0.0.body_length < request_spec(s)->Ok_0.1,
    ensures
        request_spec(s.subrange(0, n)) == Err::<(RequestModel, int), RequestError>(
            RequestError::UnexpectedEof,
        ),
{
    let e = crlf_at(s, 0);
    lemma_crlf_ge(s, 0);
    lemma_headers_bound(s, e + 2);
    assert(n <= s.len());
    let t = s.subrange(0, n);
    lemma_prefix_crlf(s, n, 0);
    if e + 1 < n {
        lemma_prefix_line(s, t, 0, e);
        lemma_prefix_request_line(s, t, e);
        assert(request_line(t, e) == request_line(s, e));
        lemma_prefix_headers(s, n, e + 2);
    }
}

} // verus!

verus! {

/// What a connection does next with the bytes it has read so far.
pub enum ConnectionStep {
    /// Answer the request, then drop the bytes it took.
    Answer(Request, usize),
    /// The request is not complete yet: read more, or close if the peer
    /// has gone away.
    ReadMore,
    /// The bytes are no request: close the connection.
    Close,
}

/// Decides the next step of a connection from the bytes read so far.
pub fn next_step(pending: &[u8], remote_addr: Option<String>) -> (r: ConnectionStep)
    ensures
        match r {
            ConnectionStep::Answer(req, used) => request_spec(pending@) == Ok::<
                (RequestModel, int),
                RequestError,
            >((req.model(), used as int)) && req.remote() == remote_addr,
            ConnectionStep::ReadMore => request_spec(pending@) == Err::<(RequestModel, int), RequestError>(
                RequestError::UnexpectedEof,
            ),
            ConnectionStep::Close => request_spec(pending@) matches Err(x) && x
                != RequestError::UnexpectedEof,
        },
{
    match create_request(pending, remote_addr) {
        Ok((req, used)) => ConnectionStep::Answer(req, used),
        Err(RequestError::UnexpectedEof) => ConnectionStep::ReadMore,
        Err(_) => ConnectionStep::Close,
    }
}

} // verus!
