use vstd::prelude::*;
use vstd::string::{StrSliceExecFns, StringExecFns};
use vstd::utf8::*;

use crate::text::{find_char, first_index, parse_usize, spec_parse_usize, trim_seq, trim_text, int_error_text, parse_u16, same_text, spec_parse_u16, split_bytes, split_seq, split_text, string_from_utf8, string_views, lemma_split_len};

verus! {

/// HTTP request methods.
#[derive(Debug, Clone, Copy, PartialEq, Eq, Structural)]
pub enum Method {
    GET,
    POST,
    HEAD,
    OPTIONS,
    DELETE,
    PUT,
    CONNECT,
    TRACE,
}

/// The upper-case name of a method.
pub open spec fn method_name(m: Method) -> Seq<char> {
    match m {
        Method::GET => "GET"@,
        Method::POST => "POST"@,
        Method::HEAD => "HEAD"@,
        Method::OPTIONS => "OPTIONS"@,
        Method::DELETE => "DELETE"@,
        Method::PUT => "PUT"@,
        Method::CONNECT => "CONNECT"@,
        Method::TRACE => "TRACE"@,
    }
}

impl Method {
    /// The method's name in upper case.
    pub fn as_str(&self) -> (r: &'static str)
        ensures
            r@ == method_name(*self),
    {
        match self {
            Method::GET => "GET",
            Method::POST => "POST",
            Method::HEAD => "HEAD",
            Method::OPTIONS => "OPTIONS",
            Method::DELETE => "DELETE",
            Method::PUT => "PUT",
            Method::CONNECT => "CONNECT",
            Method::TRACE => "TRACE",
        }
    }

    pub fn to_string(&self) -> (r: String)
        ensures
            r@ == method_name(*self),
    {
        self.as_str().to_owned()
    }
}

/// The first line of a request: method, target and protocol version.
#[derive(Debug, Clone)]
pub struct RequestLine {
    pub method: Method,
    pub request_target: String,
    pub http_version: String,
}

/// The text of a request line, ended by CRLF.
pub open spec fn request_line_text(m: Method, target: Seq<char>, version: Seq<char>) -> Seq<char> {
    method_name(m) + " "@ + target + " "@ + version + "\r\n"@
}

impl RequestLine {
    /// A request line for `url` in HTTP/1.1.
    pub fn new(method: Method, url: &str) -> (r: RequestLine)
        ensures
            r.method == method,
            r.request_target@ == url@,
            r.http_version@ == "HTTP/1.1"@,
    {
        RequestLine { method, request_target: url.to_owned(), http_version: "HTTP/1.1".to_owned() }
    }

    /// `"<method> <target> <version>\r\n"`.
    pub fn to_string(&self) -> (r: String)
        ensures
            r@ == request_line_text(self.method, self.request_target@, self.http_version@),
    {
        let mut s = self.method.to_string();
        s.append(" ");
        s.append(self.request_target.as_str());
        s.append(" ");
        s.append(self.http_version.as_str());
        s.append("\r\n");
        s
    }
}

/// Header fields as `(name, value)` texts.
pub open spec fn pair_views(v: Seq<(String, String)>) -> Seq<(Seq<char>, Seq<char>)> {
    v.map_values(|p: (String, String)| (p.0@, p.1@))
}

/// No two fields share a name.
pub open spec fn keys_unique(m: Seq<(Seq<char>, Seq<char>)>) -> bool {
    forall|i: int, j: int| 0 <= i < j < m.len() ==> (#[trigger] m[i]).0 != (#[trigger] m[j]).0
}

/// `m` with the field `k` set to `v`: its value replaced where `k` is present, else appended.
pub open spec fn set_field(m: Seq<(Seq<char>, Seq<char>)>, k: Seq<char>, v: Seq<char>) -> Seq<(Seq<char>, Seq<char>)> {
    if exists|i: int| 0 <= i < m.len() && m[i].0 == k {
        let i = choose|i: int| 0 <= i < m.len() && m[i].0 == k;
        m.update(i, (k, v))
    } else {
        m.push((k, v))
    }
}

/// The fields set one after another, a later value replacing an earlier one.
pub open spec fn fields_of(pairs: Seq<(Seq<char>, Seq<char>)>) -> Seq<(Seq<char>, Seq<char>)>
    decreases pairs.len(),
{
    if pairs.len() == 0 {
        Seq::empty()
    } else {
        set_field(fields_of(pairs.drop_last()), pairs.last().0, pairs.last().1)
    }
}

/// Each field as `"name: value\r\n"`.
pub open spec fn fields_text(m: Seq<(Seq<char>, Seq<char>)>) -> Seq<char>
    decreases m.len(),
{
    if m.len() == 0 {
        Seq::empty()
    } else {
        fields_text(m.drop_last()) + m.last().0 + ": "@ + m.last().1 + "\r\n"@
    }
}

/// The header fields of a message, in the order in which their names first came.
///
/// The fields are a vector of pairs whose names are unique rather than a `HashMap`: with `String`
/// keys the map's specification lets nothing be proved of its contents, and the vector also keeps
/// the order in which the fields came.
#[derive(Debug, Clone)]
pub struct HTTPHeaders(Vec<(String, String)>);

impl View for HTTPHeaders {
    type V = Seq<(Seq<char>, Seq<char>)>;

    closed spec fn view(&self) -> Seq<(Seq<char>, Seq<char>)> {
        pair_views(self.0@)
    }
}

impl HTTPHeaders {
    pub open spec fn wf(&self) -> bool {
        keys_unique(self@)
    }

    /// No fields.
    pub fn empty() -> (r: HTTPHeaders)
        ensures
            r@ == Seq::<(Seq<char>, Seq<char>)>::empty(),
            r.wf(),
    {
        let r = HTTPHeaders(Vec::new());
        assert(r@ =~= Seq::<(Seq<char>, Seq<char>)>::empty());
        r
    }

    /// Sets the field `key` to `value`: replaces its value where present, else appends it.
    pub fn set(&mut self, key: String, value: String)
        requires
            old(self).wf(),
        ensures
            final(self).wf(),
            final(self)@ == set_field(old(self)@, key@, value@),
    {
        let ghost m = self@;
        let mut i: usize = 0;
        while i < self.0.len()
            invariant
                i <= self.0@.len(),
                m == self@,
                m == old(self)@,
                keys_unique(m),
                forall|j: int| 0 <= j < i ==> (#[trigger] m[j]).0 != key@,
            decreases self.0@.len() - i,
        {
            if self.0[i].0 == key {
                proof {
                    assert(m[i as int].0 == key@);
                    let c = choose|j: int| 0 <= j < m.len() && m[j].0 == key@;
                    assert(c == i as int) by {
                        if c != i as int {
                            if c < i {
                                assert(m[c].0 != key@);
                            } else {
                                assert(m[i as int].0 != m[c].0);
                            }
                        }
                    }
                }
                self.0.set(i, (key, value));
                proof {
                    assert(self@ =~= m.update(i as int, (key@, value@)));
                    assert(exists|j: int| 0 <= j < m.len() && m[j].0 == key@);
                    assert(self@ == set_field(m, key@, value@));
                }
                return;
            }
            i = i + 1;
        }
        self.0.push((key, value));
        proof {
            assert(self@ =~= m.push((key@, value@)));
            assert(!exists|j: int| 0 <= j < m.len() && m[j].0 == key@);
        }
    }

    /// The fields of `pairs`, a later value replacing an earlier one of the same name.
    pub fn from_pairs(pairs: Vec<(String, String)>) -> (r: HTTPHeaders)
        ensures
            r.wf(),
            r@ == fields_of(pair_views(pairs@)),
    {
        let mut h = HTTPHeaders::empty();
        let ghost ps = pair_views(pairs@);
        proof {
            assert(ps.take(0) =~= Seq::<(Seq<char>, Seq<char>)>::empty());
        }
        let n = pairs.len();
        let mut i: usize = 0;
        while i < n
            invariant
                i <= n,
                n == ps.len(),
                ps == pair_views(pairs@),
                h.wf(),
                h@ == fields_of(ps.take(i as int)),
            decreases n - i,
        {
            let k = pairs[i].0.clone();
            let v = pairs[i].1.clone();
            proof {
                assert(ps.take(i + 1).drop_last() =~= ps.take(i as int));
                assert(ps.take(i + 1).last() == ps[i as int]);
            }
            h.set(k, v);
            i = i + 1;
        }
        assert(ps.take(n as int) =~= ps);
        h
    }

    /// Each field as `"name: value\r\n"`, in order.
    pub fn to_string(&self) -> (r: String)
        ensures
            r@ == fields_text(self@),
    {
        let mut s = String::new();
        let mut i: usize = 0;
        while i < self.0.len()
            invariant
                i <= self.0@.len(),
                s@ == fields_text(self@.take(i as int)),
            decreases self.0@.len() - i,
        {
            proof {
                assert(self@.take(i + 1).drop_last() =~= self@.take(i as int));
                assert(self@.take(i + 1).last() == self@[i as int]);
            }
            s.append(self.0[i].0.as_str());
            s.append(": ");
            s.append(self.0[i].1.as_str());
            s.append("\r\n");
            i = i + 1;
        }
        assert(self@.take(self@.len() as int) =~= self@);
        s
    }
}

/// A request: its first line, its header fields and an optional body.
#[derive(Debug, Clone)]
pub struct HTTPRequest {
    pub request_line: RequestLine,
    pub headers: HTTPHeaders,
    pub body: Option<String>,
}

/// The text of a request: its line, its fields, a blank line, and the body followed by CRLF.
pub open spec fn request_text(line: Seq<char>, fields: Seq<char>, body: Option<Seq<char>>) -> Seq<char> {
    match body {
        Some(b) => line + fields + "\r\n"@ + b + "\r\n"@,
        None => line + fields + "\r\n"@,
    }
}

impl HTTPRequest {
    /// A request for `url` on `hostname`, with a `Host` field.
    pub fn new(method: Method, hostname: &str, url: &str, body: Option<String>) -> (r: HTTPRequest)
        ensures
            r.request_line.method == method,
            r.request_line.request_target@ == url@,
            r.request_line.http_version@ == "HTTP/1.1"@,
            r.headers@ == seq![("Host"@, hostname@)],
            r.headers.wf(),
            r.body == body,
    {
        let request_line = RequestLine::new(method, url);
        let mut headers = HTTPHeaders::empty();
        headers.set("Host".to_owned(), hostname.to_owned());
        assert(headers@ =~= seq![("Host"@, hostname@)]);
        HTTPRequest { request_line, headers, body }
    }

    /// The request as it goes on the wire.
    pub fn to_string(&self) -> (r: String)
        ensures
            r@ == request_text(
                request_line_text(
                    self.request_line.method,
                    self.request_line.request_target@,
                    self.request_line.http_version@,
                ),
                fields_text(self.headers@),
                match self.body {
                    Some(b) => Some(b@),
                    None => None,
                },
            ),
    {
        let mut s = self.request_line.to_string();
        let fields = self.headers.to_string();
        s.append(fields.as_str());
        s.append("\r\n");
        match &self.body {
            Some(b) => {
                s.append(b.as_str());
                s.append("\r\n");
            },
            None => {},
        }
        s
    }
}

/// The transfer protocol that a URL's scheme names.
#[derive(Debug, Clone, Copy, PartialEq, Eq, Structural)]
pub enum Protocol {
    HTTP,
    HTTPS,
}

pub open spec fn protocol_of(s: Seq<char>) -> Option<Protocol> {
    if s == "http"@ {
        Some(Protocol::HTTP)
    } else if s == "https"@ {
        Some(Protocol::HTTPS)
    } else {
        None
    }
}

impl Protocol {
    /// `http` or `https`; any other scheme is refused.
    pub fn parse(value: &str) -> (r: Result<Protocol, String>)
        ensures
            match protocol_of(value@) {
                Some(p) => r matches Ok(q) && q == p,
                None => r matches Err(e) && e@ == "invalid protocol schema"@,
            },
    {
        if same_text(value, "http") {
            Ok(Protocol::HTTP)
        } else if same_text(value, "https") {
            Ok(Protocol::HTTPS)
        } else {
            Err("invalid protocol schema".to_owned())
        }
    }
}

/// The method that `s` names, in upper or in lower case.
pub open spec fn method_of(s: Seq<char>) -> Option<Method> {
    if s == "GET"@ || s == "get"@ {
        Some(Method::GET)
    } else if s == "POST"@ || s == "post"@ {
        Some(Method::POST)
    } else if s == "PUT"@ || s == "put"@ {
        Some(Method::PUT)
    } else if s == "DELETE"@ || s == "delete"@ {
        Some(Method::DELETE)
    } else if s == "HEAD"@ || s == "head"@ {
        Some(Method::HEAD)
    } else if s == "OPTIONS"@ || s == "options"@ {
        Some(Method::OPTIONS)
    } else if s == "CONNECT"@ || s == "connect"@ {
        Some(Method::CONNECT)
    } else if s == "TRACE"@ || s == "trace"@ {
        Some(Method::TRACE)
    } else {
        None
    }
}

impl Method {
    /// The method named by `s`; fails with `"invalid HTTP method: <s>"`.
    pub fn parse(s: &str) -> (r: Result<Method, String>)
        ensures
            match method_of(s@) {
                Some(m) => r matches Ok(x) && x == m,
                None => r matches Err(e) && e@ == "invalid HTTP method: "@ + s@,
            },
    {
        if same_text(s, "GET") || same_text(s, "get") {
            Ok(Method::GET)
        } else if same_text(s, "POST") || same_text(s, "post") {
            Ok(Method::POST)
        } else if same_text(s, "PUT") || same_text(s, "put") {
            Ok(Method::PUT)
        } else if same_text(s, "DELETE") || same_text(s, "delete") {
            Ok(Method::DELETE)
        } else if same_text(s, "HEAD") || same_text(s, "head") {
            Ok(Method::HEAD)
        } else if same_text(s, "OPTIONS") || same_text(s, "options") {
            Ok(Method::OPTIONS)
        } else if same_text(s, "CONNECT") || same_text(s, "connect") {
            Ok(Method::CONNECT)
        } else if same_text(s, "TRACE") || same_text(s, "trace") {
            Ok(Method::TRACE)
        } else {
            let mut e = "invalid HTTP method: ".to_owned();
            e.append(s);
            Err(e)
        }
    }
}

/// The request line in `s`: its first three space-separated pieces.
pub open spec fn request_line_of(s: Seq<char>) -> Result<(Method, Seq<char>, Seq<char>), Seq<char>> {
    let pieces = split_seq(s, ' ');
    match method_of(pieces[0]) {
        None => Err("invalid HTTP method: "@ + pieces[0]),
        Some(m) => {
            if pieces.len() < 2 {
                Err("failed to get request target"@)
            } else if pieces.len() < 3 {
                Err("failed to get HTTP version"@)
            } else {
                Ok((m, pieces[1], pieces[2]))
            }
        },
    }
}

impl RequestLine {
    /// Reads `"<method> <target> <version>"`; text after a third space is ignored.
    pub fn parse(s: &str) -> (r: Result<RequestLine, String>)
        ensures
            match request_line_of(s@) {
                Ok((m, t, v)) => r matches Ok(l) && l.method == m && l.request_target@ == t
                    && l.http_version@ == v,
                Err(msg) => r matches Err(e) && e@ == msg,
            },
    {
        let pieces = split_text(s, ' ');
        proof {
            lemma_split_len(s@, ' ');
            assert(string_views(pieces@)[0] == pieces@[0]@);
        }
        let method = Method::parse(pieces[0].as_str())?;
        if pieces.len() < 2 {
            return Err("failed to get request target".to_owned());
        }
        if pieces.len() < 3 {
            return Err("failed to get HTTP version".to_owned());
        }
        proof {
            assert(string_views(pieces@)[1] == pieces@[1]@);
            assert(string_views(pieces@)[2] == pieces@[2]@);
        }
        Ok(RequestLine {
            method,
            request_target: pieces[1].clone(),
            http_version: pieces[2].clone(),
        })
    }
}

/// Whether `s` begins with `prefix`.
pub fn starts_with_text(s: &str, prefix: &str) -> (r: bool)
    ensures
        r == (prefix@.len() <= s@.len() && s@.take(prefix@.len() as int) == prefix@),
{
    let n = s.unicode_len();
    let k = prefix.unicode_len();
    if k > n {
        return false;
    }
    same_text(s.substring_char(0, k), prefix)
}

/// The protocol version of a status line; it must begin with `HTTP/`.
#[derive(Debug, Clone, PartialEq)]
pub struct HTTPVersion(pub String);

pub open spec fn version_of(s: Seq<char>) -> Result<Seq<char>, Seq<char>> {
    if 5 <= s.len() && s.take(5) == "HTTP/"@ {
        Ok(s)
    } else {
        Err("invalid HTTP Version: "@ + s)
    }
}

impl HTTPVersion {
    /// The version in `s`; fails with `"invalid HTTP Version: <s>"`.
    pub fn parse(s: &str) -> (r: Result<HTTPVersion, String>)
        ensures
            match version_of(s@) {
                Ok(t) => r matches Ok(x) && x.0@ == t,
                Err(m) => r matches Err(e) && e@ == m,
            },
    {
        proof {
            reveal_strlit("HTTP/");
        }
        if starts_with_text(s, "HTTP/") {
            Ok(HTTPVersion(s.to_owned()))
        } else {
            let mut e = "invalid HTTP Version: ".to_owned();
            e.append(s);
            Err(e)
        }
    }

    /// The version in the bytes `v`, which must be UTF-8.
    pub fn from_bytes(v: &[u8]) -> (r: Result<HTTPVersion, String>)
        ensures
            !valid_utf8(v@) ==> r is Err,
            valid_utf8(v@) ==> match version_of(decode_utf8(v@)) {
                Ok(t) => r matches Ok(x) && x.0@ == t,
                Err(m) => r matches Err(e) && e@ == m,
            },
    {
        let s = string_from_utf8(vstd::slice::slice_to_vec(v))?;
        HTTPVersion::parse(s.as_str())
    }
}

/// The numeric status of a response.
#[derive(Debug, Clone, PartialEq)]
pub struct StatusCode(pub u16);

impl StatusCode {
    /// The code in `s`; fails with `"error parsing status code: <s>"`.
    pub fn parse(s: &str) -> (r: Result<StatusCode, String>)
        ensures
            match spec_parse_u16(s@) {
                Ok(n) => r matches Ok(x) && x.0 == n,
                Err(_) => r matches Err(e) && e@ == "error parsing status code: "@ + s@,
            },
    {
        match parse_u16(s) {
            Ok(n) => Ok(StatusCode(n)),
            Err(_) => {
                let mut e = "error parsing status code: ".to_owned();
                e.append(s);
                Err(e)
            },
        }
    }

    /// The code in the bytes `v`, which must be UTF-8; fails with the integer parser's message.
    pub fn from_bytes(v: &[u8]) -> (r: Result<StatusCode, String>)
        ensures
            !valid_utf8(v@) ==> r is Err,
            valid_utf8(v@) ==> match spec_parse_u16(decode_utf8(v@)) {
                Ok(n) => r matches Ok(x) && x.0 == n,
                Err(k) => r matches Err(e) && e@ == int_error_text(k),
            },
    {
        let s = string_from_utf8(vstd::slice::slice_to_vec(v))?;
        match parse_u16(s.as_str()) {
            Ok(n) => Ok(StatusCode(n)),
            Err(k) => Err(k.message()),
        }
    }
}

/// The first line of a response.
#[derive(Debug, Clone)]
pub struct StatusLine {
    pub http_version: HTTPVersion,
    pub status_code: StatusCode,
    pub status_text: String,
}

/// The status line in `s`: version, code and text, its first three space-separated pieces.
pub open spec fn status_line_of(s: Seq<char>) -> Result<(Seq<char>, u16, Seq<char>), Seq<char>> {
    let pieces = split_seq(s, ' ');
    match version_of(pieces[0]) {
        Err(m) => Err(m),
        Ok(v) => {
            if pieces.len() < 2 {
                Err("no status code to be parsed"@)
            } else {
                match spec_parse_u16(pieces[1]) {
                    Err(_) => Err("error parsing status code: "@ + pieces[1]),
                    Ok(c) => {
                        if pieces.len() < 3 {
                            Err("failed to get status text"@)
                        } else {
                            Ok((v, c, pieces[2]))
                        }
                    },
                }
            }
        },
    }
}

/// The status line in the bytes `v`, split at spaces before each piece is read as UTF-8.
/// `Err(None)` stands for a piece that is not UTF-8, whose message the UTF-8 decoder gives.
pub open spec fn status_line_of_bytes(v: Seq<u8>) -> Result<(Seq<char>, u16, Seq<char>), Option<Seq<char>>> {
    let pieces = split_seq(v, 32u8);
    if !valid_utf8(pieces[0]) {
        Err(None)
    } else {
        match version_of(decode_utf8(pieces[0])) {
            Err(m) => Err(Some(m)),
            Ok(ver) => {
                if pieces.len() < 2 {
                    Err(Some("no status code to be parsed"@))
                } else if !valid_utf8(pieces[1]) {
                    Err(None)
                } else {
                    match spec_parse_u16(decode_utf8(pieces[1])) {
                        Err(k) => Err(Some(int_error_text(k))),
                        Ok(c) => {
                            if pieces.len() < 3 {
                                Err(Some("failed to get status text"@))
                            } else if !valid_utf8(pieces[2]) {
                                Err(None)
                            } else {
                                Ok((ver, c, decode_utf8(pieces[2])))
                            }
                        },
                    }
                }
            },
        }
    }
}

impl StatusLine {
    /// Reads `"<version> <code> <text>"`; text after a third space is ignored.
    pub fn parse(s: &str) -> (r: Result<StatusLine, String>)
        ensures
            match status_line_of(s@) {
                Ok((v, c, t)) => r matches Ok(l) && l.http_version.0@ == v && l.status_code.0 == c
                    && l.status_text@ == t,
                Err(m) => r matches Err(e) && e@ == m,
            },
    {
        let pieces = split_text(s, ' ');
        proof {
            lemma_split_len(s@, ' ');
            assert(string_views(pieces@)[0] == pieces@[0]@);
        }
        let http_version = HTTPVersion::parse(pieces[0].as_str())?;
        if pieces.len() < 2 {
            return Err("no status code to be parsed".to_owned());
        }
        assert(string_views(pieces@)[1] == pieces@[1]@);
        let status_code = StatusCode::parse(pieces[1].as_str())?;
        if pieces.len() < 3 {
            return Err("failed to get status text".to_owned());
        }
        assert(string_views(pieces@)[2] == pieces@[2]@);
        Ok(StatusLine { http_version, status_code, status_text: pieces[2].clone() })
    }

    /// Reads a status line from raw bytes, split at spaces.
    pub fn from_bytes(v: &[u8]) -> (r: Result<StatusLine, String>)
        ensures
            match status_line_of_bytes(v@) {
                Ok((ver, c, t)) => r matches Ok(l) && l.http_version.0@ == ver && l.status_code.0 == c
                    && l.status_text@ == t,
                Err(Some(m)) => r matches Err(e) && e@ == m,
                Err(None) => r is Err,
            },
    {
        let pieces = split_bytes(v, 32u8);
        proof {
            lemma_split_len(v@, 32u8);
            assert(pieces@.map_values(|p: Vec<u8>| p@)[0] == pieces@[0]@);
        }
        let http_version = HTTPVersion::from_bytes(pieces[0].as_slice())?;
        if pieces.len() < 2 {
            return Err("no status code to be parsed".to_owned());
        }
        assert(pieces@.map_values(|p: Vec<u8>| p@)[1] == pieces@[1]@);
        let status_code = StatusCode::from_bytes(pieces[1].as_slice())?;
        if pieces.len() < 3 {
            return Err("failed to get status text".to_owned());
        }
        assert(pieces@.map_values(|p: Vec<u8>| p@)[2] == pieces@[2]@);
        let status_text = string_from_utf8(pieces[2].clone())?;
        Ok(StatusLine { http_version, status_code, status_text })
    }
}

/// `m` after the header line `t`: a line with a colon sets the field named by the text before
/// it to the trimmed text after it; a line without one changes nothing.
pub open spec fn field_line(m: Seq<(Seq<char>, Seq<char>)>, t: Seq<char>) -> Seq<(Seq<char>, Seq<char>)> {
    match first_index(t, ':') {
        Some(j) => set_field(m, t.take(j), trim_seq(t.skip(j + 1))),
        None => m,
    }
}

/// The fields of the text lines from `i` up to the first empty line, which is consumed too,
/// with the index after the last line read.
pub open spec fn scan_text_fields(lines: Seq<Seq<char>>, i: int, m: Seq<(Seq<char>, Seq<char>)>) -> (Seq<(Seq<char>, Seq<char>)>, int)
    decreases lines.len() - i,
{
    if i >= lines.len() {
        (m, i)
    } else if lines[i].len() == 0 {
        (m, i + 1)
    } else {
        scan_text_fields(lines, i + 1, field_line(m, lines[i]))
    }
}

/// The fields of the byte lines from `i` up to the first line that is a lone carriage return,
/// which is consumed too; `None` when a line before it is not UTF-8.
pub open spec fn scan_byte_fields(lines: Seq<Seq<u8>>, i: int, m: Seq<(Seq<char>, Seq<char>)>) -> Option<(Seq<(Seq<char>, Seq<char>)>, int)>
    decreases lines.len() - i,
{
    if i >= lines.len() {
        Some((m, i))
    } else if lines[i] == seq![13u8] {
        Some((m, i + 1))
    } else if !valid_utf8(lines[i]) {
        None
    } else {
        scan_byte_fields(lines, i + 1, field_line(m, decode_utf8(lines[i])))
    }
}

pub open spec fn byte_views(v: Seq<Vec<u8>>) -> Seq<Seq<u8>> {
    v.map_values(|b: Vec<u8>| b@)
}

/// The value of the field named `k`.
pub open spec fn field_value(m: Seq<(Seq<char>, Seq<char>)>, k: Seq<char>) -> Option<Seq<char>> {
    if exists|i: int| 0 <= i < m.len() && m[i].0 == k {
        let i = choose|i: int| 0 <= i < m.len() && m[i].0 == k;
        Some(m[i].1)
    } else {
        None
    }
}

impl HTTPHeaders {
    /// Adds the field that a header line holds, if it holds one.
    fn add_line(&mut self, line: &str)
        requires
            old(self).wf(),
        ensures
            final(self).wf(),
            final(self)@ == field_line(old(self)@, line@),
    {
        match find_char(line, ':') {
            Some(j) => {
                let n = line.unicode_len();
                let key = line.substring_char(0, j).to_owned();
                let value = trim_text(line.substring_char(j + 1, n));
                assert(key@ =~= line@.take(j as int));
                assert(line@.subrange(j + 1, n as int) =~= line@.skip(j + 1));
                self.set(key, value);
            },
            None => {},
        }
    }

    /// Reads header lines from `lines[*pos]` on, up to and including the first empty line, and
    /// moves `*pos` past what it read.
    pub fn new_from_string_iter(lines: &[String], pos: &mut usize) -> (r: Result<HTTPHeaders, String>)
        ensures
            r matches Ok(h) && h.wf() && (h@, *final(pos) as int) == scan_text_fields(
                string_views(lines@),
                *old(pos) as int,
                Seq::empty(),
            ),
    {
        let ghost ls = string_views(lines@);
        let mut h = HTTPHeaders::empty();
        let mut i = *pos;
        while i < lines.len()
            invariant
                ls == string_views(lines@),
                h.wf(),
                scan_text_fields(ls, *old(pos) as int, Seq::empty()) == scan_text_fields(ls, i as int, h@),
            decreases lines@.len() - i,
        {
            assert(ls[i as int] == lines@[i as int]@);
            if lines[i].unicode_len() == 0 {
                *pos = i + 1;
                return Ok(h);
            }
            h.add_line(lines[i].as_str());
            i = i + 1;
        }
        *pos = i;
        Ok(h)
    }

    /// Reads header lines from `lines[*pos]` on, up to and including the first line that is a
    /// lone carriage return, and moves `*pos` past what it read; fails on a line that is not
    /// UTF-8.
    pub fn new(lines: &[Vec<u8>], pos: &mut usize) -> (r: Result<HTTPHeaders, String>)
        ensures
            match scan_byte_fields(byte_views(lines@), *old(pos) as int, Seq::empty()) {
                Some((m, e)) => r matches Ok(h) && h.wf() && h@ == m && *final(pos) == e,
                None => r is Err,
            },
    {
        let ghost ls = byte_views(lines@);
        let mut h = HTTPHeaders::empty();
        let mut i = *pos;
        while i < lines.len()
            invariant
                ls == byte_views(lines@),
                h.wf(),
                scan_byte_fields(ls, *old(pos) as int, Seq::empty()) == scan_byte_fields(ls, i as int, h@),
            decreases lines@.len() - i,
        {
            assert(ls[i as int] == lines@[i as int]@);
            if lines[i].len() == 1 && lines[i][0] == 13u8 {
                assert(ls[i as int] =~= seq![13u8]);
                *pos = i + 1;
                return Ok(h);
            }
            assert(ls[i as int] != seq![13u8]);
            let line = string_from_utf8(lines[i].clone())?;
            h.add_line(line.as_str());
            i = i + 1;
        }
        *pos = i;
        Ok(h)
    }

    /// The value of the field named `key`.
    pub fn get(&self, key: &str) -> (r: Option<&String>)
        requires
            self.wf(),
        ensures
            match field_value(self@, key@) {
                Some(v) => r matches Some(x) && x@ == v,
                None => r is None,
            },
    {
        let mut i: usize = 0;
        while i < self.0.len()
            invariant
                i <= self.0@.len(),
                keys_unique(self@),
                forall|j: int| 0 <= j < i ==> (#[trigger] self@[j]).0 != key@,
            decreases self.0@.len() - i,
        {
            if same_text(self.0[i].0.as_str(), key) {
                proof {
                    assert(self@[i as int].0 == key@);
                    let c = choose|j: int| 0 <= j < self@.len() && self@[j].0 == key@;
                    assert(c == i as int) by {
                        if c != i as int {
                            if c < i {
                                assert(self@[c].0 != key@);
                            } else {
                                assert(self@[i as int].0 != self@[c].0);
                            }
                        }
                    }
                }
                return Some(&self.0[i].1);
            }
            i = i + 1;
        }
        None
    }
}

/// The texts one after another.
pub open spec fn concat_all(ls: Seq<Seq<char>>) -> Seq<char>
    decreases ls.len(),
{
    if ls.len() == 0 {
        Seq::empty()
    } else {
        concat_all(ls.drop_last()) + ls.last()
    }
}

impl HTTPRequest {
    /// Reads a request from its lines: the request line, header lines up to an empty line, and
    /// the remaining lines, joined, as the body.
    pub fn parse(lines: &[String]) -> (r: Result<HTTPRequest, String>)
        ensures
            lines@.len() == 0 ==> (r matches Err(e) && e@ == "failed to get request line"@),
            lines@.len() > 0 ==> match request_line_of(lines@[0]@) {
                Err(m) => r matches Err(e) && e@ == m,
                Ok((m, t, v)) => {
                    let (fields, end) = scan_text_fields(string_views(lines@), 1, Seq::empty());
                    &&& r matches Ok(q)
                    &&& q.request_line.method == m
                    &&& q.request_line.request_target@ == t
                    &&& q.request_line.http_version@ == v
                    &&& q.headers.wf()
                    &&& q.headers@ == fields
                    &&& end < lines@.len() ==> (q.body matches Some(b) && b@ == concat_all(
                        string_views(lines@).skip(end),
                    ))
                    &&& end >= lines@.len() ==> q.body is None
                },
            },
    {
        if lines.len() == 0 {
            return Err("failed to get request line".to_owned());
        }
        let request_line = RequestLine::parse(lines[0].as_str())?;
        let mut pos: usize = 1;
        let headers = match HTTPHeaders::new_from_string_iter(lines, &mut pos) {
            Ok(h) => h,
            Err(e) => {
                return Err(e);
            },
        };
        let ghost ls = string_views(lines@);
        let body = if pos < lines.len() {
            let mut b = String::new();
            let mut i = pos;
            assert(ls.skip(pos as int).take(0) =~= Seq::<Seq<char>>::empty());
            while i < lines.len()
                invariant
                    pos <= i <= lines@.len(),
                    ls == string_views(lines@),
                    b@ == concat_all(ls.skip(pos as int).take(i - pos)),
                decreases lines@.len() - i,
            {
                proof {
                    let t = ls.skip(pos as int).take(i + 1 - pos);
                    assert(t.drop_last() =~= ls.skip(pos as int).take(i - pos));
                    assert(t.last() == lines@[i as int]@);
                }
                b.append(lines[i].as_str());
                i = i + 1;
            }
            assert(ls.skip(pos as int).take(lines@.len() - pos) =~= ls.skip(pos as int));
            Some(b)
        } else {
            None
        };
        Ok(HTTPRequest { request_line, headers, body })
    }
}

/// A response: its status line, its header fields and its body.
#[derive(Debug, Clone)]
pub struct HTTPResponse {
    pub status_line: StatusLine,
    pub headers: HTTPHeaders,
    pub body: Option<String>,
}

/// The body bytes: each line from `i` on with its newline restored, for as long as the line
/// is shorter than what is left of `length`.
pub open spec fn body_bytes(lines: Seq<Seq<u8>>, i: int, length: int) -> Seq<u8>
    decreases lines.len() - i,
{
    if i >= lines.len() || i < 0 {
        Seq::empty()
    } else {
        let d = lines[i].push(10u8);
        if d.len() >= length {
            Seq::empty()
        } else {
            d + body_bytes(lines, i + 1, length - d.len())
        }
    }
}

/// One step of reading a body: a line of `line_len` bytes, with its newline, is taken while it
/// is shorter than the `remaining` length; the result is what remains after it, or `None` when
/// reading stops.
pub fn body_step(remaining: usize, line_len: usize) -> (r: Option<usize>)
    ensures
        line_len + 1 < remaining ==> r == Some((remaining - line_len - 1) as usize),
        line_len + 1 >= remaining ==> r is None,
{
    if line_len < remaining && line_len + 1 < remaining {
        Some(remaining - line_len - 1)
    } else {
        None
    }
}

/// The response that `lines` hold: status line, fields and body text. `Err(None)` stands for
/// bytes that are not UTF-8, whose message the UTF-8 decoder gives.
pub open spec fn response_of(lines: Seq<Seq<u8>>) -> Result<((Seq<char>, u16, Seq<char>), Seq<(Seq<char>, Seq<char>)>, Seq<char>), Option<Seq<char>>> {
    if lines.len() == 0 {
        Err(Some("failed to get status line"@))
    } else {
        match status_line_of_bytes(lines[0]) {
            Err(e) => Err(e),
            Ok(sl) => match scan_byte_fields(lines, 1, Seq::empty()) {
                None => Err(None),
                Some((m, end)) => match field_value(m, "Content-Length"@) {
                    None => Err(Some("HTTP header doesn't have Content-Length header in it"@)),
                    Some(t) => match spec_parse_usize(t) {
                        Err(k) => Err(Some(int_error_text(k))),
                        Ok(length) => {
                            let b = body_bytes(lines, end, length);
                            if valid_utf8(b) {
                                Ok((sl, m, decode_utf8(b)))
                            } else {
                                Err(None)
                            }
                        },
                    },
                },
            },
        }
    }
}

impl HTTPResponse {
    /// Reads a response from its lines, split at `\n`: the status line, header lines up to a
    /// lone carriage return, then a body whose extent `Content-Length` bounds.
    pub fn parse(lines: &[Vec<u8>]) -> (r: Result<HTTPResponse, String>)
        ensures
            match response_of(byte_views(lines@)) {
                Ok((sl, m, b)) => r matches Ok(x) && x.status_line.http_version.0@ == sl.0
                    && x.status_line.status_code.0 == sl.1 && x.status_line.status_text@ == sl.2
                    && x.headers.wf() && x.headers@ == m && x.body == Some(x.body->Some_0) && x.body->Some_0@ == b,
                Err(Some(msg)) => r matches Err(e) && e@ == msg,
                Err(None) => r is Err,
            },
    {
        if lines.len() == 0 {
            return Err("failed to get status line".to_owned());
        }
        let status_line = StatusLine::from_bytes(lines[0].as_slice())?;
        let mut pos: usize = 1;
        let headers = HTTPHeaders::new(lines, &mut pos)?;
        let ghost ls = byte_views(lines@);
        let ghost end = pos as int;
        proof {
            reveal_strlit("Content-Length");
        }
        let length_text = match headers.get("Content-Length") {
            Some(t) => t,
            None => {
                return Err("HTTP header doesn't have Content-Length header in it".to_owned());
            },
        };
        let mut length = match parse_usize(length_text.as_str()) {
            Ok(n) => n,
            Err(k) => {
                return Err(k.message());
            },
        };
        let ghost total = length as int;
        let mut body: Vec<u8> = Vec::new();
        let mut i = pos;
        let mut stop = false;
        while i < lines.len() && !stop
            invariant
                ls == byte_views(lines@),
                end <= i,
                body_bytes(ls, end, total) == body@ + body_bytes(ls, i as int, length as int),
                stop ==> body_bytes(ls, i as int, length as int) == Seq::<u8>::empty(),
            decreases lines@.len() - i, if stop { 0int } else { 1int },
        {
            let mut data = lines[i].clone();
            assert(data@ == ls[i as int]);
            data.push(10u8);
            if data.len() >= length {
                stop = true;
                continue;
            }
            length = length - data.len();
            let ghost before = body@;
            let mut j: usize = 0;
            while j < data.len()
                invariant
                    j <= data@.len(),
                    body@ == before + data@.take(j as int),
                decreases data@.len() - j,
            {
                assert(data@.take(j + 1) =~= data@.take(j as int).push(data@[j as int]));
                body.push(data[j]);
                j = j + 1;
            }
            proof {
                assert(data@.take(data@.len() as int) =~= data@);
                assert(before + (data@ + body_bytes(ls, i + 1, length as int)) =~= body@ + body_bytes(ls, i + 1, length as int));
            }
            i = i + 1;
        }
        assert(body@ + body_bytes(ls, i as int, length as int) =~= body@);
        let text = string_from_utf8(body)?;
        proof {
            assert(lines@[0]@ == ls[0]);
            assert(body@ == body_bytes(ls, end, total));
        }
        Ok(HTTPResponse { status_line, headers, body: Some(text) })
    }
}

} // verus!
