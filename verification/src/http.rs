//! The nine request verbs, the supported content types, and the request
//! descriptor parsed from a header block.

use vstd::prelude::*;
use vstd::utf8::{decode_utf8, valid_utf8};

use crate::errors::HttpError;
use crate::num::{all_digits_chars, dec_value_chars, is_digit_char, parse_usize_digits};
use crate::strings::{chars_to_string, utf8_to_str};

verus! {

/// The nine supported request verbs.
#[derive(Clone, Copy, PartialEq, Eq, Structural, Debug)]
pub enum HttpMethod {
    GET,
    POST,
    PUT,
    DELETE,
    PATCH,
    HEAD,
    OPTIONS,
    TRACE,
    CONNECT,
}

/// The wire name of a method.
pub open spec fn method_name(m: HttpMethod) -> Seq<char> {
    match m {
        HttpMethod::GET => "GET"@,
        HttpMethod::POST => "POST"@,
        HttpMethod::PUT => "PUT"@,
        HttpMethod::DELETE => "DELETE"@,
        HttpMethod::PATCH => "PATCH"@,
        HttpMethod::HEAD => "HEAD"@,
        HttpMethod::OPTIONS => "OPTIONS"@,
        HttpMethod::TRACE => "TRACE"@,
        HttpMethod::CONNECT => "CONNECT"@,
    }
}

/// The method whose wire name is `s`, if any: a strict table lookup.
pub open spec fn method_of(s: Seq<char>) -> Option<HttpMethod> {
    if s == method_name(HttpMethod::GET) {
        Some(HttpMethod::GET)
    } else if s == method_name(HttpMethod::POST) {
        Some(HttpMethod::POST)
    } else if s == method_name(HttpMethod::PUT) {
        Some(HttpMethod::PUT)
    } else if s == method_name(HttpMethod::PATCH) {
        Some(HttpMethod::PATCH)
    } else if s == method_name(HttpMethod::DELETE) {
        Some(HttpMethod::DELETE)
    } else if s == method_name(HttpMethod::HEAD) {
        Some(HttpMethod::HEAD)
    } else if s == method_name(HttpMethod::OPTIONS) {
        Some(HttpMethod::OPTIONS)
    } else if s == method_name(HttpMethod::TRACE) {
        Some(HttpMethod::TRACE)
    } else if s == method_name(HttpMethod::CONNECT) {
        Some(HttpMethod::CONNECT)
    } else {
        None
    }
}

/// Whether a verb supports a request body: content-type and content-length
/// headers are honoured only for these.
pub open spec fn spec_supports_body(m: HttpMethod) -> bool {
    match m {
        HttpMethod::POST
        | HttpMethod::PUT
        | HttpMethod::PATCH
        | HttpMethod::DELETE
        | HttpMethod::OPTIONS => true,
        _ => false,
    }
}

/// True when the view of `v` equals the view of `s`.
pub fn chars_equal_str(v: &Vec<char>, s: &str) -> (r: bool)
    ensures
        r == (v@ == s@),
{
    let n = s.unicode_len();
    if v.len() != n {
        return false;
    }
    let mut i: usize = 0;
    while i < n
        invariant
            n == s@.len(),
            v@.len() == n,
            i <= n,
            forall|k: int| 0 <= k < i ==> v@[k] == s@[k],
        decreases n - i,
    {
        if v[i] != s.get_char(i) {
            return false;
        }
        i = i + 1;
    }
    proof {
        assert(v@ =~= s@);
    }
    true
}

impl HttpMethod {
    /// Whether this verb supports a request body.
    pub fn supports_request_body(&self) -> (r: bool)
        ensures
            r == spec_supports_body(*self),
    {
        match self {
            HttpMethod::POST
            | HttpMethod::PUT
            | HttpMethod::PATCH
            | HttpMethod::DELETE
            | HttpMethod::OPTIONS => true,
            _ => false,
        }
    }

    /// The strict table lookup from a verb's wire name.
    pub fn from_chars(v: &Vec<char>) -> (r: Result<HttpMethod, HttpError>)
        ensures
            r matches Ok(m) ==> method_of(v@) == Some(m),
            r is Err ==> r == Err::<HttpMethod, HttpError>(HttpError::UnsupportedMethod)
                && method_of(v@) is None,
    {
        if chars_equal_str(v, "GET") {
            Ok(HttpMethod::GET)
        } else if chars_equal_str(v, "POST") {
            Ok(HttpMethod::POST)
        } else if chars_equal_str(v, "PUT") {
            Ok(HttpMethod::PUT)
        } else if chars_equal_str(v, "PATCH") {
            Ok(HttpMethod::PATCH)
        } else if chars_equal_str(v, "DELETE") {
            Ok(HttpMethod::DELETE)
        } else if chars_equal_str(v, "HEAD") {
            Ok(HttpMethod::HEAD)
        } else if chars_equal_str(v, "OPTIONS") {
            Ok(HttpMethod::OPTIONS)
        } else if chars_equal_str(v, "TRACE") {
            Ok(HttpMethod::TRACE)
        } else if chars_equal_str(v, "CONNECT") {
            Ok(HttpMethod::CONNECT)
        } else {
            Err(HttpError::UnsupportedMethod)
        }
    }

    /// The wire name of this verb.
    pub fn name(&self) -> (s: &'static str)
        ensures
            s@ == method_name(*self),
    {
        match self {
            HttpMethod::GET => "GET",
            HttpMethod::POST => "POST",
            HttpMethod::PUT => "PUT",
            HttpMethod::DELETE => "DELETE",
            HttpMethod::PATCH => "PATCH",
            HttpMethod::HEAD => "HEAD",
            HttpMethod::OPTIONS => "OPTIONS",
            HttpMethod::TRACE => "TRACE",
            HttpMethod::CONNECT => "CONNECT",
        }
    }
}

/// The supported content types; `Absent` renders as empty text.
#[derive(Clone, Copy, PartialEq, Eq, Structural, Debug)]
pub enum ContentType {
    TextPlain,
    ApplicationJson,
    ApplicationOctetStream,
    Absent,
}

/// The wire name of a content type.
pub open spec fn content_type_name(c: ContentType) -> Seq<char> {
    match c {
        ContentType::TextPlain => "text/plain"@,
        ContentType::ApplicationJson => "application/json"@,
        ContentType::ApplicationOctetStream => "application/octet-stream"@,
        ContentType::Absent => ""@,
    }
}

/// The content type whose wire name is `s`, if any; `Absent` has no wire
/// name.
pub open spec fn content_type_of(s: Seq<char>) -> Option<ContentType> {
    if s == content_type_name(ContentType::TextPlain) {
        Some(ContentType::TextPlain)
    } else if s == content_type_name(ContentType::ApplicationJson) {
        Some(ContentType::ApplicationJson)
    } else if s == content_type_name(ContentType::ApplicationOctetStream) {
        Some(ContentType::ApplicationOctetStream)
    } else {
        None
    }
}

impl ContentType {
    /// The strict table lookup from a content type's wire name.
    pub fn from_chars(v: &Vec<char>) -> (r: Result<ContentType, HttpError>)
        ensures
            r matches Ok(c) ==> content_type_of(v@) == Some(c),
            r is Err ==> r == Err::<ContentType, HttpError>(HttpError::UnsupportedContentType)
                && content_type_of(v@) is None,
    {
        if chars_equal_str(v, "text/plain") {
            Ok(ContentType::TextPlain)
        } else if chars_equal_str(v, "application/json") {
            Ok(ContentType::ApplicationJson)
        } else if chars_equal_str(v, "application/octet-stream") {
            Ok(ContentType::ApplicationOctetStream)
        } else {
            Err(HttpError::UnsupportedContentType)
        }
    }

    /// The wire name of this content type.
    pub fn name(&self) -> (s: &'static str)
        ensures
            s@ == content_type_name(*self),
    {
        match self {
            ContentType::TextPlain => "text/plain",
            ContentType::ApplicationJson => "application/json",
            ContentType::ApplicationOctetStream => "application/octet-stream",
            ContentType::Absent => "",
        }
    }
}

/// A request body, tagged by the content type it arrived under.
pub enum Body {
    TextPlain(String),
    ApplicationJson(crate::json::Json),
    ApplicationOctetStream(Vec<u8>),
    Empty,
}

/// The two uppercase hexadecimal digits of a byte.
pub open spec fn byte_hex_text(b: u8) -> Seq<char> {
    seq![hex_char_upper(b / 16), hex_char_upper(b % 16)]
}

/// An uppercase hexadecimal digit character.
pub open spec fn hex_char_upper(d: u8) -> char {
    if d < 10 {
        (48 + d) as char
    } else {
        (55 + d) as char
    }
}

/// The bytes of `s` from `i` on as two-digit uppercase hexadecimal pairs,
/// with a space before every pair but the first.
pub open spec fn bytes_hex_text_from(s: Seq<u8>, i: int, first: bool) -> Seq<char>
    decreases s.len() - i,
    when 0 <= i
{
    if i >= s.len() {
        Seq::empty()
    } else {
        (if first {
            Seq::empty()
        } else {
            seq![' ']
        }) + byte_hex_text(s[i]) + bytes_hex_text_from(s, i + 1, false)
    }
}

impl Body {
    /// Renders the body: plain text as itself, a JSON value by the JSON
    /// renderer, raw bytes as space-separated uppercase hexadecimal pairs,
    /// and no body as empty text.
    #[verifier::loop_isolation(false)]
    pub fn to_text(&self) -> (r: String)
        ensures
            self matches Body::TextPlain(s) ==> r@ == s@,
            self matches Body::ApplicationJson(j) ==> r@ == crate::render::spec_render(j@),
            self matches Body::ApplicationOctetStream(v) ==> r@ == bytes_hex_text_from(
                v@,
                0,
                true,
            ),
            self is Empty ==> r@ == Seq::<char>::empty(),
    {
        match self {
            Body::TextPlain(s) => s.clone(),
            Body::ApplicationJson(j) => j.to_text(),
            Body::ApplicationOctetStream(v) => {
                let ghost s = v@;
                let mut out: Vec<char> = Vec::new();
                let mut i: usize = 0;
                while i < v.len()
                    invariant
                        i <= s.len(),
                        bytes_hex_text_from(s, 0, true) == out@ + bytes_hex_text_from(
                            s,
                            i as int,
                            i == 0,
                        ),
                    decreases s.len() - i,
                {
                    let ghost out0 = out@;
                    if i > 0 {
                        out.push(' ');
                    }
                    let b = v[i];
                    let hi = b / 16;
                    let lo = b % 16;
                    if hi < 10 {
                        out.push((48 + hi) as char);
                    } else {
                        out.push((55 + hi) as char);
                    }
                    if lo < 10 {
                        out.push((48 + lo) as char);
                    } else {
                        out.push((55 + lo) as char);
                    }
                    proof {
                        if i == 0 {
                            assert(out@ =~= out0 + (Seq::<char>::empty() + byte_hex_text(
                                s[i as int],
                            )));
                        } else {
                            assert(out@ =~= out0 + (seq![' '] + byte_hex_text(s[i as int])));
                        }
                    }
                    i = i + 1;
                }
                crate::strings::chars_to_string(&out)
            },
            Body::Empty => String::new(),
        }
    }
}

/// The first position at or after `i` where `a` directly followed by `b`
/// occurs.
pub open spec fn find_pair_from(s: Seq<char>, i: int, a: char, b: char) -> Option<int>
    decreases s.len() - i,
    when 0 <= i
{
    if i + 2 > s.len() {
        None
    } else if s[i] == a && s[i + 1] == b {
        Some(i)
    } else {
        find_pair_from(s, i + 1, a, b)
    }
}

/// A found pair lies at or after `i` and fits inside the text.
pub proof fn lemma_find_pair_bound(s: Seq<char>, i: int, a: char, b: char)
    requires
        0 <= i,
    ensures
        find_pair_from(s, i, a, b) matches Some(p) ==> i <= p && p + 2 <= s.len(),
    decreases s.len() - i,
{
    if i + 2 <= s.len() && !(s[i] == a && s[i + 1] == b) {
        lemma_find_pair_bound(s, i + 1, a, b);
    }
}

/// The first position at or after `i` where `c` occurs.
pub open spec fn find_char_from(s: Seq<char>, i: int, c: char) -> Option<int>
    decreases s.len() - i,
    when 0 <= i
{
    if i >= s.len() {
        None
    } else if s[i] == c {
        Some(i)
    } else {
        find_char_from(s, i + 1, c)
    }
}

/// A found character lies at or after `i` and inside the text.
pub proof fn lemma_find_char_bound(s: Seq<char>, i: int, c: char)
    requires
        0 <= i,
    ensures
        find_char_from(s, i, c) matches Some(p) ==> i <= p && p < s.len(),
    decreases s.len() - i,
{
    if i < s.len() && s[i] != c {
        lemma_find_char_bound(s, i + 1, c);
    }
}

/// The pieces of `s[i..]` split at every `\r\n`; a trailing separator
/// yields a final empty piece.
pub open spec fn split_crlf_from(s: Seq<char>, i: int) -> Seq<Seq<char>>
    decreases s.len() - i,
    when 0 <= i <= s.len()
    via split_crlf_from_dec
{
    match find_pair_from(s, i, '\r', '\n') {
        None => seq![s.subrange(i, s.len() as int)],
        Some(p) => seq![s.subrange(i, p)] + split_crlf_from(s, p + 2),
    }
}

#[via_fn]
proof fn split_crlf_from_dec(s: Seq<char>, i: int) {
    lemma_find_pair_bound(s, i, '\r', '\n');
}

/// The pieces of `s[i..]` split at every `c`; consecutive separators yield
/// empty pieces.
pub open spec fn split_char_from(s: Seq<char>, i: int, c: char) -> Seq<Seq<char>>
    decreases s.len() - i,
    when 0 <= i <= s.len()
    via split_char_from_dec
{
    match find_char_from(s, i, c) {
        None => seq![s.subrange(i, s.len() as int)],
        Some(p) => seq![s.subrange(i, p)] + split_char_from(s, p + 1, c),
    }
}

#[via_fn]
proof fn split_char_from_dec(s: Seq<char>, i: int, c: char) {
    lemma_find_char_bound(s, i, c);
}

/// The views of a sequence of character vectors, elementwise.
pub open spec fn lines_views(ls: Seq<Vec<char>>) -> Seq<Seq<char>> {
    ls.map_values(|l: Vec<char>| l@)
}

/// Copies `v[a..b]` into a fresh vector.
pub fn copy_range(v: &Vec<char>, a: usize, b: usize) -> (r: Vec<char>)
    requires
        a <= b <= v@.len(),
    ensures
        r@ == v@.subrange(a as int, b as int),
{
    let mut r: Vec<char> = Vec::new();
    let mut k: usize = a;
    while k < b
        invariant
            a <= k <= b <= v@.len(),
            r@ == v@.subrange(a as int, k as int),
        decreases b - k,
    {
        r.push(v[k]);
        proof {
            assert(r@ =~= v@.subrange(a as int, k + 1));
        }
        k = k + 1;
    }
    r
}

/// Splits `v` at every `\r\n`, exactly as `split_crlf_from` says.
#[verifier::loop_isolation(false)]
pub fn split_crlf(v: &Vec<char>) -> (r: Vec<Vec<char>>)
    ensures
        lines_views(r@) == split_crlf_from(v@, 0),
{
    let ghost s = v@;
    let n = v.len();
    let mut res: Vec<Vec<char>> = Vec::new();
    let mut start: usize = 0;
    let mut k: usize = 0;
    proof {
        assert(lines_views(res@) =~= Seq::<Seq<char>>::empty());
        assert(split_crlf_from(s, 0) =~= Seq::<Seq<char>>::empty() + split_crlf_from(s, 0));
    }
    while n - k > 1
        invariant
            start <= k <= n,
            split_crlf_from(s, 0) == lines_views(res@) + split_crlf_from(s, start as int),
            find_pair_from(s, start as int, '\r', '\n') == find_pair_from(s, k as int, '\r', '\n'),
        decreases n - k,
    {
        if v[k] == '\r' && v[k + 1] == '\n' {
            proof {
                assert(find_pair_from(s, k as int, '\r', '\n') == Some(k as int));
            }
            let piece = copy_range(v, start, k);
            proof {
                assert(lines_views(res@.push(piece)) =~= lines_views(res@).push(piece@));
                assert(lines_views(res@) + (seq![s.subrange(start as int, k as int)]
                    + split_crlf_from(s, k + 2)) =~= lines_views(res@.push(piece))
                    + split_crlf_from(s, k + 2));
            }
            res.push(piece);
            start = k + 2;
            k = k + 2;
        } else {
            proof {
                assert(find_pair_from(s, k as int, '\r', '\n') == find_pair_from(
                    s,
                    k + 1,
                    '\r',
                    '\n',
                ));
            }
            k = k + 1;
        }
    }
    proof {
        assert(find_pair_from(s, k as int, '\r', '\n') is None);
    }
    let piece = copy_range(v, start, n);
    proof {
        assert(lines_views(res@.push(piece)) =~= lines_views(res@).push(piece@));
        assert(lines_views(res@) + seq![s.subrange(start as int, s.len() as int)] =~= lines_views(
            res@.push(piece),
        ));
    }
    res.push(piece);
    res
}

/// Splits `v` at every occurrence of `c`, exactly as `split_char_from`
/// says.
#[verifier::loop_isolation(false)]
pub fn split_char(v: &Vec<char>, c: char) -> (r: Vec<Vec<char>>)
    ensures
        lines_views(r@) == split_char_from(v@, 0, c),
{
    let ghost s = v@;
    let n = v.len();
    let mut res: Vec<Vec<char>> = Vec::new();
    let mut start: usize = 0;
    let mut k: usize = 0;
    proof {
        assert(lines_views(res@) =~= Seq::<Seq<char>>::empty());
        assert(split_char_from(s, 0, c) =~= Seq::<Seq<char>>::empty() + split_char_from(s, 0, c));
    }
    while k < n
        invariant
            start <= k <= n,
            split_char_from(s, 0, c) == lines_views(res@) + split_char_from(s, start as int, c),
            find_char_from(s, start as int, c) == find_char_from(s, k as int, c),
        decreases n - k,
    {
        if v[k] == c {
            proof {
                assert(find_char_from(s, k as int, c) == Some(k as int));
            }
            let piece = copy_range(v, start, k);
            proof {
                assert(lines_views(res@.push(piece)) =~= lines_views(res@).push(piece@));
                assert(lines_views(res@) + (seq![s.subrange(start as int, k as int)]
                    + split_char_from(s, k + 1, c)) =~= lines_views(res@.push(piece))
                    + split_char_from(s, k + 1, c));
            }
            res.push(piece);
            start = k + 1;
            k = k + 1;
        } else {
            proof {
                assert(find_char_from(s, k as int, c) == find_char_from(s, k + 1, c));
            }
            k = k + 1;
        }
    }
    proof {
        assert(find_char_from(s, k as int, c) is None);
    }
    let piece = copy_range(v, start, n);
    proof {
        assert(lines_views(res@.push(piece)) =~= lines_views(res@).push(piece@));
        assert(lines_views(res@) + seq![s.subrange(start as int, s.len() as int)] =~= lines_views(
            res@.push(piece),
        ));
    }
    res.push(piece);
    res
}

/// Spec-level mirror of [`Request`], over character sequences.
pub struct RequestV {
    pub method: HttpMethod,
    pub route: Seq<char>,
    pub version: Seq<char>,
    pub host: Seq<char>,
    pub content_type: Option<ContentType>,
    pub content_length: Option<int>,
}

/// Folds the header lines from index `i` on into the `(host,
/// content-type, content-length)` state: `Host` stores its value verbatim,
/// the other two are honoured only on body-supporting methods, lines
/// without `": "` or with an empty value are skipped, and unknown names
/// are ignored.
pub open spec fn spec_headers(
    lines: Seq<Seq<char>>,
    i: int,
    m: HttpMethod,
    host: Option<Seq<char>>,
    ct: Option<ContentType>,
    cl: Option<int>,
) -> Result<(Option<Seq<char>>, Option<ContentType>, Option<int>), HttpError>
    decreases lines.len() - i,
    when 0 <= i
{
    if i >= lines.len() {
        Ok((host, ct, cl))
    } else {
        let line = lines[i];
        match find_pair_from(line, 0, ':', ' ') {
            None => spec_headers(lines, i + 1, m, host, ct, cl),
            Some(p) => {
                if p + 2 == line.len() {
                    spec_headers(lines, i + 1, m, host, ct, cl)
                } else {
                    let name = line.subrange(0, p);
                    let value = line.subrange(p + 2, line.len() as int);
                    if name == "Host"@ {
                        spec_headers(lines, i + 1, m, Some(value), ct, cl)
                    } else if name == "Content-Type"@ {
                        if spec_supports_body(m) {
                            match content_type_of(value) {
                                None => Err(HttpError::UnsupportedContentType),
                                Some(c) => spec_headers(lines, i + 1, m, host, Some(c), cl),
                            }
                        } else {
                            spec_headers(lines, i + 1, m, host, ct, cl)
                        }
                    } else if name == "Content-Length"@ {
                        if spec_supports_body(m) {
                            let cl2 = if all_digits_chars(value) && dec_value_chars(value)
                                <= usize::MAX {
                                Some(dec_value_chars(value))
                            } else {
                                None
                            };
                            spec_headers(lines, i + 1, m, host, ct, cl2)
                        } else {
                            spec_headers(lines, i + 1, m, host, ct, cl)
                        }
                    } else {
                        spec_headers(lines, i + 1, m, host, ct, cl)
                    }
                }
            },
        }
    }
}

/// The request descriptor a header block's lines parse to: the first line
/// must be exactly `method route version`, the method one of the nine, and
/// a `Host` value must be present.
pub open spec fn spec_parse_header(lines: Seq<Seq<char>>) -> Result<RequestV, HttpError> {
    if lines.len() == 0 {
        Err(HttpError::MalformedRequestLine)
    } else {
        let parts = split_char_from(lines[0], 0, ' ');
        if parts.len() != 3 {
            Err(HttpError::MalformedRequestLine)
        } else {
            match method_of(parts[0]) {
                None => Err(HttpError::UnsupportedMethod),
                Some(m) => match spec_headers(lines, 1, m, None, None, None) {
                    Err(e) => Err(e),
                    Ok((host, ct, cl)) => match host {
                        None => Err(HttpError::MissingHost),
                        Some(h) => Ok(
                            RequestV {
                                method: m,
                                route: parts[1],
                                version: parts[2],
                                host: h,
                                content_type: ct,
                                content_length: cl,
                            },
                        ),
                    },
                },
            }
        }
    }
}

/// The request descriptor a raw header block parses to: reject bytes that
/// are not UTF-8 text, then split on `\r\n` and parse the lines.
pub open spec fn spec_from_bytes(bytes: Seq<u8>) -> Result<RequestV, HttpError> {
    if !valid_utf8(bytes) {
        Err(HttpError::Utf8Decode)
    } else {
        spec_parse_header(split_crlf_from(decode_utf8(bytes), 0))
    }
}

/// A parsed request: the structured descriptor from the header block,
/// plus the buffer that will accumulate the body bytes.
pub struct Request {
    pub method: HttpMethod,
    pub route: String,
    pub http_version: String,
    pub host: String,
    pub content_type: Option<ContentType>,
    pub content_length: Option<usize>,
    pub content: Vec<u8>,
}

impl View for Request {
    type V = RequestV;

    open spec fn view(&self) -> RequestV {
        RequestV {
            method: self.method,
            route: self.route@,
            version: self.http_version@,
            host: self.host@,
            content_type: self.content_type,
            content_length: match self.content_length {
                Some(n) => Some(n as int),
                None => None,
            },
        }
    }
}

impl Request {
    /// Parses a raw header block into a request descriptor, exactly as
    /// `spec_from_bytes` says; the body buffer starts empty.
    #[verifier::loop_isolation(false)]
    pub fn from_bytes(bytes: &[u8]) -> (r: Result<Request, HttpError>)
        ensures
            match r {
                Ok(req) => spec_from_bytes(bytes@) == Ok::<RequestV, HttpError>(req@)
                    && req.content@ == Seq::<u8>::empty(),
                Err(e) => spec_from_bytes(bytes@) == Err::<RequestV, HttpError>(e),
            },
    {
        let s = match utf8_to_str(bytes) {
            Some(s) => s,
            None => {
                return Err(HttpError::Utf8Decode);
            },
        };
        let n = s.unicode_len();
        let mut cv: Vec<char> = Vec::new();
        let mut k: usize = 0;
        while k < n
            invariant
                n == s@.len(),
                k <= n,
                cv@ == s@.take(k as int),
            decreases n - k,
        {
            cv.push(s.get_char(k));
            proof {
                assert(cv@ =~= s@.take(k + 1));
            }
            k = k + 1;
        }
        proof {
            assert(s@.take(n as int) =~= s@);
        }
        let ghost lv = split_crlf_from(cv@, 0);
        let lines = split_crlf(&cv);
        proof {
            assert(lines@.len() == lv.len());
        }
        if lines.len() == 0 {
            return Err(HttpError::MalformedRequestLine);
        }
        proof {
            assert(lines@[0]@ == lv[0]);
        }
        let ghost pv = split_char_from(lv[0], 0, ' ');
        let parts = split_char(&lines[0], ' ');
        proof {
            assert(parts@.len() == pv.len());
        }
        if parts.len() != 3 {
            return Err(HttpError::MalformedRequestLine);
        }
        proof {
            assert(parts@[0]@ == pv[0]);
            assert(parts@[1]@ == pv[1]);
            assert(parts@[2]@ == pv[2]);
        }
        let method = match HttpMethod::from_chars(&parts[0]) {
            Ok(m) => m,
            Err(e) => {
                return Err(e);
            },
        };
        let mut host: Option<String> = None;
        let mut content_type: Option<ContentType> = None;
        let mut content_length: Option<usize> = None;
        let mut i: usize = 1;
        while i < lines.len()
            invariant
                1 <= i <= lines@.len(),
                spec_headers(lv, 1, method, None, None, None) == spec_headers(
                    lv,
                    i as int,
                    method,
                    opt_str_view(host),
                    content_type,
                    opt_len_view(content_length),
                ),
            decreases lines@.len() - i,
        {
            let line = &lines[i];
            proof {
                assert(line@ == lv[i as int]);
            }
            let ghost lnv = lv[i as int];
            let m = line.len();
            let mut p: usize = 0;
            let mut found = false;
            while !found && m - p > 1
                invariant
                    p <= m,
                    m == lnv.len(),
                    line@ == lnv,
                    find_pair_from(lnv, 0, ':', ' ') == if found {
                        Some(p as int)
                    } else {
                        find_pair_from(lnv, p as int, ':', ' ')
                    },
                decreases m - p, (if found { 0int } else { 1int }),
            {
                if line[p] == ':' && line[p + 1] == ' ' {
                    found = true;
                } else {
                    p = p + 1;
                }
            }
            if !found {
                proof {
                    assert(find_pair_from(lnv, p as int, ':', ' ') is None);
                }
                i = i + 1;
                continue ;
            }
            if m - p == 2 {
                i = i + 1;
                continue ;
            }
            proof {
                lemma_find_pair_bound(lnv, 0, ':', ' ');
            }
            let name = copy_range(line, 0, p);
            let value = copy_range(line, p + 2, m);
            if chars_equal_str(&name, "Host") {
                host = Some(chars_to_string(&value));
            } else if chars_equal_str(&name, "Content-Type") {
                if method.supports_request_body() {
                    match ContentType::from_chars(&value) {
                        Ok(c) => {
                            content_type = Some(c);
                        },
                        Err(e) => {
                            return Err(e);
                        },
                    }
                }
            } else if chars_equal_str(&name, "Content-Length") {
                if method.supports_request_body() {
                    let mut all_dig = true;
                    let mut q: usize = 0;
                    while q < value.len()
                        invariant
                            q <= value@.len(),
                            all_dig == all_digits_chars(value@.subrange(0, q as int)),
                        decreases value@.len() - q,
                    {
                        let ghost pref = value@.subrange(0, q as int);
                        if !(value[q] >= '0' && value[q] <= '9') {
                            all_dig = false;
                        }
                        proof {
                            let sub = value@.subrange(0, q + 1);
                            assert(sub.drop_last() =~= pref);
                            assert(sub[q as int] == value@[q as int]);
                            if all_digits_chars(sub) {
                                assert forall|mm: int| 0 <= mm < pref.len() implies is_digit_char(
                                    pref[mm],
                                ) by {
                                    assert(pref[mm] == sub[mm]);
                                }
                            }
                            if all_digits_chars(pref) && is_digit_char(value@[q as int]) {
                                assert forall|mm: int| 0 <= mm < sub.len() implies is_digit_char(
                                    sub[mm],
                                ) by {
                                    if mm < q {
                                        assert(sub[mm] == pref[mm]);
                                    }
                                }
                            }
                        }
                        q = q + 1;
                    }
                    proof {
                        assert(value@.subrange(0, value@.len() as int) =~= value@);
                    }
                    if all_dig {
                        content_length = parse_usize_digits(value.as_slice(), 0, value.len());
                        proof {
                            assert(value@.subrange(0, value@.len() as int) =~= value@);
                        }
                    } else {
                        content_length = None;
                    }
                }
            }
            i = i + 1;
        }
        let h = match host {
            Some(h) => h,
            None => {
                return Err(HttpError::MissingHost);
            },
        };
        let req = Request {
            method,
            route: chars_to_string(&parts[1]),
            http_version: chars_to_string(&parts[2]),
            host: h,
            content_type,
            content_length,
            content: Vec::new(),
        };
        Ok(req)
    }
}

/// The view of an optional owned string.
pub open spec fn opt_str_view(h: Option<String>) -> Option<Seq<char>> {
    match h {
        Some(s) => Some(s@),
        None => None,
    }
}

/// The view of an optional machine-word length.
pub open spec fn opt_len_view(h: Option<usize>) -> Option<int> {
    match h {
        Some(n) => Some(n as int),
        None => None,
    }
}

} // verus!
