//! Properties of the parsing layers, stated once over the spec functions
//! that the executable contracts use, and proved for all inputs.

use vstd::prelude::*;

use crate::errors::JsonErrorV;
use crate::http::{
    find_char_from, find_pair_from, method_name, method_of, spec_from_bytes, spec_headers,
    spec_parse_header, spec_supports_body, split_char_from, ContentType, HttpMethod, RequestV,
};
use crate::lexer::{
    chars_of_bytes, has_dot_range, ident_len, num_len, scan_str, spec_tokenise, spec_tokenise_at,
    SpecToken,
};
use crate::num::{dec_str, dec_value, dec_value_chars, is_digit, is_digit_char};
use crate::parser::{spec_parse, spec_parse_elements, spec_parse_members, spec_parse_value};
use crate::render::spec_render;
use crate::json::JsonV;

verus! {

broadcast use vstd::string::group_string_axioms;

/// Folding header lines on a method without a request body never fills in
/// a content type or a content length.
proof fn lemma_headers_no_body(
    lines: Seq<Seq<char>>,
    i: int,
    m: HttpMethod,
    host: Option<Seq<char>>,
)
    requires
        !spec_supports_body(m),
        0 <= i,
    ensures
        spec_headers(lines, i, m, host, None, None) matches Ok(t) ==> t.1 is None && t.2 is None,
    decreases lines.len() - i,
{
    if i < lines.len() {
        let line = lines[i];
        match find_pair_from(line, 0, ':', ' ') {
            None => {
                lemma_headers_no_body(lines, i + 1, m, host);
            },
            Some(p) => {
                if p + 2 == line.len() {
                    lemma_headers_no_body(lines, i + 1, m, host);
                } else {
                    let value = line.subrange(p + 2, line.len() as int);
                    lemma_headers_no_body(lines, i + 1, m, host);
                    lemma_headers_no_body(lines, i + 1, m, Some(value));
                }
            },
        }
    }
}

/// For the verbs that take no request body — GET, HEAD, TRACE, CONNECT —
/// a parsed request never carries a content type or a content length,
/// whatever headers the wire sent.
pub proof fn lemma_no_body_no_content(bytes: Seq<u8>)
    ensures
        spec_from_bytes(bytes) matches Ok(rv) ==> (!spec_supports_body(rv.method)
            ==> rv.content_type is None && rv.content_length is None),
{
    if spec_from_bytes(bytes) is Ok {
        let lines = crate::http::split_crlf_from(vstd::utf8::decode_utf8(bytes), 0);
        let parts = split_char_from(lines[0], 0, ' ');
        if parts.len() == 3 {
            match method_of(parts[0]) {
                Some(m) => {
                    if !spec_supports_body(m) {
                        lemma_headers_no_body(lines, 1, m, None);
                    }
                },
                None => {},
            }
        }
    }
}

/// A method's wire name contains no space and no carriage return.
proof fn lemma_method_name_plain(m: HttpMethod)
    ensures
        forall|k: int| 0 <= k < method_name(m).len() ==> method_name(m)[k] != ' ',
        forall|k: int| 0 <= k < method_name(m).len() ==> method_name(m)[k] != '\r',
{
    reveal_strlit("GET");
    reveal_strlit("POST");
    reveal_strlit("PUT");
    reveal_strlit("DELETE");
    reveal_strlit("PATCH");
    reveal_strlit("HEAD");
    reveal_strlit("OPTIONS");
    reveal_strlit("TRACE");
    reveal_strlit("CONNECT");
}

/// Looking a method's own wire name up finds that method.
proof fn lemma_method_of_name(m: HttpMethod)
    ensures
        method_of(method_name(m)) == Some(m),
{
    reveal_strlit("GET");
    reveal_strlit("POST");
    reveal_strlit("PUT");
    reveal_strlit("DELETE");
    reveal_strlit("PATCH");
    reveal_strlit("HEAD");
    reveal_strlit("OPTIONS");
    reveal_strlit("TRACE");
    reveal_strlit("CONNECT");
    assert("GET"@.len() == 3 && "GET"@[0] == 'G');
    assert("POST"@.len() == 4 && "POST"@[0] == 'P');
    assert("PUT"@.len() == 3 && "PUT"@[0] == 'P');
    assert("PATCH"@.len() == 5 && "PATCH"@[0] == 'P');
    assert("DELETE"@.len() == 6 && "DELETE"@[0] == 'D');
    assert("HEAD"@.len() == 4 && "HEAD"@[0] == 'H');
    assert("OPTIONS"@.len() == 7 && "OPTIONS"@[0] == 'O');
    assert("TRACE"@.len() == 5 && "TRACE"@[0] == 'T');
    assert("CONNECT"@.len() == 7 && "CONNECT"@[0] == 'C');
}

/// When `c` is absent from `s[i..j]` and sits at `j`, the search from `i`
/// finds `j`.
proof fn lemma_find_char_at(s: Seq<char>, i: int, j: int, c: char)
    requires
        0 <= i <= j < s.len(),
        forall|k: int| i <= k < j ==> s[k] != c,
        s[j] == c,
    ensures
        find_char_from(s, i, c) == Some(j),
    decreases j - i,
{
    if i < j {
        lemma_find_char_at(s, i + 1, j, c);
    }
}

/// When `c` is absent from `s[i..]`, the search from `i` finds nothing.
proof fn lemma_find_char_none(s: Seq<char>, i: int, c: char)
    requires
        0 <= i,
        forall|k: int| i <= k < s.len() ==> s[k] != c,
    ensures
        find_char_from(s, i, c) is None,
    decreases s.len() - i,
{
    if i < s.len() {
        lemma_find_char_none(s, i + 1, c);
    }
}

/// Splitting `a SP b SP c` on spaces yields exactly `[a, b, c]` when none
/// of the three contains a space.
proof fn lemma_split_three(a: Seq<char>, b: Seq<char>, c: Seq<char>)
    requires
        forall|k: int| 0 <= k < a.len() ==> a[k] != ' ',
        forall|k: int| 0 <= k < b.len() ==> b[k] != ' ',
        forall|k: int| 0 <= k < c.len() ==> c[k] != ' ',
    ensures
        split_char_from(a + seq![' '] + b + seq![' '] + c, 0, ' ') == seq![a, b, c],
{
    let s = a + seq![' '] + b + seq![' '] + c;
    let p1 = a.len() as int;
    let p2 = a.len() + 1 + b.len() as int;
    assert(s.len() == a.len() + b.len() + c.len() + 2);
    assert(forall|k: int| 0 <= k < p1 ==> s[k] == a[k]);
    assert(s[p1] == ' ');
    assert(forall|k: int| p1 + 1 <= k < p2 ==> s[k] == b[k - p1 - 1]);
    assert(s[p2] == ' ');
    assert(forall|k: int| p2 + 1 <= k < s.len() ==> s[k] == c[k - p2 - 1]);
    lemma_find_char_at(s, 0, p1, ' ');
    assert(s.subrange(0, p1) =~= a);
    lemma_find_char_at(s, p1 + 1, p2, ' ');
    assert(s.subrange(p1 + 1, p2) =~= b);
    lemma_find_char_none(s, p2 + 1, ' ');
    assert(s.subrange(p2 + 1, s.len() as int) =~= c);
    assert(split_char_from(s, p2 + 1, ' ') == seq![c]);
    assert(split_char_from(s, p1 + 1, ' ') == seq![b] + seq![c]);
    assert(split_char_from(s, 0, ' ') == seq![a] + (seq![b] + seq![c]));
    assert(seq![a] + (seq![b] + seq![c]) =~= seq![a, b, c]);
}

/// For every header block whose first line is `METHOD SP ROUTE SP
/// VERSION` and whose second line is `Host: ` with a non-empty value,
/// parsing succeeds and returns exactly those four fields, with no
/// content type and no content length.
pub proof fn lemma_header_block_roundtrip(
    m: HttpMethod,
    route: Seq<char>,
    version: Seq<char>,
    host: Seq<char>,
)
    requires
        forall|k: int| 0 <= k < route.len() ==> route[k] != ' ',
        forall|k: int| 0 <= k < version.len() ==> version[k] != ' ',
        host.len() > 0,
    ensures
        ({
            let request_line = method_name(m) + seq![' '] + route + seq![' '] + version;
            let host_line = seq!['H', 'o', 's', 't', ':', ' '] + host;
            spec_parse_header(seq![request_line, host_line]) == Ok::<RequestV, crate::errors::HttpError>(
                RequestV {
                    method: m,
                    route: route,
                    version: version,
                    host: host,
                    content_type: None,
                    content_length: None,
                },
            )
        }),
{
    let request_line = method_name(m) + seq![' '] + route + seq![' '] + version;
    let host_line = seq!['H', 'o', 's', 't', ':', ' '] + host;
    let lines = seq![request_line, host_line];
    lemma_method_name_plain(m);
    lemma_split_three(method_name(m), route, version);
    lemma_method_of_name(m);
    let parts = split_char_from(lines[0], 0, ' ');
    assert(parts.len() == 3);
    assert(parts[0] == method_name(m));
    assert(parts[1] == route);
    assert(parts[2] == version);
    // The host line's first `": "` sits right after the name.
    assert(host_line.len() == host.len() + 6);
    assert(host_line[4] == ':' && host_line[5] == ' ');
    assert(find_pair_from(host_line, 4, ':', ' ') == Some(4int));
    assert(find_pair_from(host_line, 3, ':', ' ') == Some(4int));
    assert(find_pair_from(host_line, 2, ':', ' ') == Some(4int));
    assert(find_pair_from(host_line, 1, ':', ' ') == Some(4int));
    assert(find_pair_from(host_line, 0, ':', ' ') == Some(4int));
    assert(host_line.subrange(0, 4) =~= "Host"@) by {
        reveal_strlit("Host");
    }
    assert(host_line.subrange(6, host_line.len() as int) =~= host);
    assert(spec_headers(lines, 2, m, Some(host), None, None) == Ok::<
        (Option<Seq<char>>, Option<ContentType>, Option<int>),
        crate::errors::HttpError,
    >((Some(host), None, None)));
    assert(spec_headers(lines, 1, m, None, None, None) == Ok::<
        (Option<Seq<char>>, Option<ContentType>, Option<int>),
        crate::errors::HttpError,
    >((Some(host), None, None)));
}

/// When the pair `a b` is absent from `s[i..j]` and sits at `j`, the
/// search from `i` finds `j`.
proof fn lemma_find_pair_at(s: Seq<char>, i: int, j: int, a: char, b: char)
    requires
        0 <= i <= j,
        j + 2 <= s.len(),
        forall|k: int| i <= k < j ==> !((#[trigger] s[k]) == a && s[k + 1] == b),
        s[j] == a && s[j + 1] == b,
    ensures
        find_pair_from(s, i, a, b) == Some(j),
    decreases j - i,
{
    if i < j {
        lemma_find_pair_at(s, i + 1, j, a, b);
    }
}

/// When the pair `a b` is absent from `s[i..]`, the search from `i` finds
/// nothing.
proof fn lemma_find_pair_none(s: Seq<char>, i: int, a: char, b: char)
    requires
        0 <= i,
        forall|k: int| i <= k < s.len() - 1 ==> !((#[trigger] s[k]) == a && s[k + 1] == b),
    ensures
        find_pair_from(s, i, a, b) is None,
    decreases s.len() - i,
{
    if i + 2 <= s.len() {
        lemma_find_pair_none(s, i + 1, a, b);
    }
}

/// For every header block sent as raw bytes — the UTF-8 encoding of
/// `METHOD SP ROUTE SP VERSION CRLF Host: VALUE` — parsing succeeds and
/// returns exactly those four fields.
pub proof fn lemma_header_bytes_roundtrip(
    m: HttpMethod,
    route: Seq<char>,
    version: Seq<char>,
    host: Seq<char>,
)
    requires
        forall|k: int| 0 <= k < route.len() ==> route[k] != ' ' && route[k] != '\r',
        forall|k: int| 0 <= k < version.len() ==> version[k] != ' ' && version[k] != '\r',
        forall|k: int| 0 <= k < host.len() ==> host[k] != '\r',
        host.len() > 0,
    ensures
        ({
            let block = method_name(m) + seq![' '] + route + seq![' '] + version + seq![
                '\r',
                '\n',
                'H',
                'o',
                's',
                't',
                ':',
                ' ',
            ] + host;
            spec_from_bytes(vstd::utf8::encode_utf8(block)) == Ok::<
                RequestV,
                crate::errors::HttpError,
            >(
                RequestV {
                    method: m,
                    route: route,
                    version: version,
                    host: host,
                    content_type: None,
                    content_length: None,
                },
            )
        }),
{
    broadcast use vstd::utf8::encode_utf8_valid_utf8, vstd::utf8::encode_utf8_decode_utf8;

    let line0 = method_name(m) + seq![' '] + route + seq![' '] + version;
    let line1 = seq!['H', 'o', 's', 't', ':', ' '] + host;
    let block = method_name(m) + seq![' '] + route + seq![' '] + version + seq![
        '\r',
        '\n',
        'H',
        'o',
        's',
        't',
        ':',
        ' ',
    ] + host;
    assert(block =~= line0 + seq!['\r', '\n'] + line1);
    lemma_method_name_plain(m);
    let p = line0.len() as int;
    assert(forall|k: int| 0 <= k < p ==> block[k] == line0[k]);
    assert(block[p] == '\r' && block[p + 1] == '\n');
    assert(forall|k: int| p + 2 <= k < block.len() ==> block[k] == line1[k - p - 2]);
    assert(forall|k: int| 0 <= k < p ==> block[k] != '\r');
    lemma_find_pair_at(block, 0, p, '\r', '\n');
    assert(forall|k: int| p + 2 <= k < block.len() ==> block[k] != '\r') by {
        reveal_strlit("Host");
    }
    lemma_find_pair_none(block, p + 2, '\r', '\n');
    assert(block.subrange(0, p) =~= line0);
    assert(block.subrange(p + 2, block.len() as int) =~= line1);
    assert(crate::http::split_crlf_from(block, p + 2) == seq![line1]);
    assert(crate::http::split_crlf_from(block, 0) == seq![line0] + seq![line1]);
    assert(seq![line0] + seq![line1] =~= seq![line0, line1]);
    lemma_header_block_roundtrip(m, route, version, host);
    assert(vstd::utf8::decode_utf8(vstd::utf8::encode_utf8(block)) == block);
}

/// Every character of a non-negative value's decimal text is a digit, and
/// there is at least one.
proof fn lemma_dec_str_digits(n: int)
    requires
        n >= 0,
    ensures
        dec_str(n).len() >= 1,
        crate::num::all_digits_chars(dec_str(n)),
    decreases n,
{
    if n >= 10 {
        lemma_dec_str_digits(n / 10);
        let s = dec_str(n / 10);
        let c = (48 + n % 10) as char;
        assert(is_digit_char(c));
        assert(forall|k: int|
            0 <= k < s.push(c).len() ==> is_digit_char(
                #[trigger] s.push(c)[k],
            )) by {
            assert(forall|k: int| 0 <= k < s.len() ==> s.push(c)[k] == s[k]);
            assert(s.push(c)[s.len() as int] == c);
        }
    }
}

/// The decimal text of a non-negative value reads back to that value.
proof fn lemma_dec_str_value(n: int)
    requires
        n >= 0,
    ensures
        dec_value_chars(dec_str(n)) == n,
    decreases n,
{
    if n < 10 {
        let s = dec_str(n);
        assert(s =~= seq![(48 + n) as char]);
        assert(s.drop_last() =~= Seq::<char>::empty());
        assert(dec_value_chars(Seq::<char>::empty()) == 0);
        assert(s.last() == (48 + n) as char);
        assert(((48 + n) as char) as int == 48 + n);
        assert(dec_value_chars(s) == dec_value_chars(s.drop_last()) * 10 + (s.last() as int - 48));
    } else {
        lemma_dec_str_value(n / 10);
        let s = dec_str(n / 10);
        let c = (48 + n % 10) as char;
        assert(s.push(c).drop_last() =~= s);
        assert(s.push(c).last() == c);
        assert((c as int) == 48 + n % 10);
        assert(dec_value_chars(s.push(c)) == (n / 10) * 10 + n % 10);
    }
}

/// A byte run reads as the same decimal value as its characters.
proof fn lemma_dec_value_bytes_chars(b: Seq<u8>)
    ensures
        dec_value_chars(chars_of_bytes(b)) == dec_value(b),
    decreases b.len(),
{
    if b.len() > 0 {
        lemma_dec_value_bytes_chars(b.drop_last());
        assert(chars_of_bytes(b).drop_last() =~= chars_of_bytes(b.drop_last()));
        assert(chars_of_bytes(b).last() == b.last() as char);
        assert((b.last() as char) as int == b.last() as int);
    }
}

/// A run of digit-or-dot bytes with no second dot is consumed whole by
/// the number scanner.
proof fn lemma_num_len_all(s: Seq<u8>, i: int, sd: bool)
    requires
        0 <= i <= s.len(),
        forall|j: int| i <= j < s.len() ==> is_digit(#[trigger] s[j]) || s[j] == 46,
        sd ==> forall|j: int| i <= j < s.len() ==> s[j] != 46,
        forall|j1: int, j2: int|
            i <= j1 < j2 < s.len() && s[j1] == 46 ==> s[j2] != 46,
    ensures
        num_len(s, i, sd) == s.len() - i,
    decreases s.len() - i,
{
    if i < s.len() {
        if is_digit(s[i]) {
            lemma_num_len_all(s, i + 1, sd);
        } else {
            assert(s[i] == 46);
            assert(forall|j: int| i + 1 <= j < s.len() ==> s[j] != 46);
            lemma_num_len_all(s, i + 1, true);
        }
    }
}

/// A run of lowercase bytes is consumed whole by the identifier scanner.
proof fn lemma_ident_len_all(s: Seq<u8>, i: int)
    requires
        0 <= i <= s.len(),
        forall|j: int| i <= j < s.len() ==> crate::lexer::is_lower(#[trigger] s[j]),
    ensures
        ident_len(s, i) == s.len() - i,
    decreases s.len() - i,
{
    if i < s.len() {
        lemma_ident_len_all(s, i + 1);
    }
}

/// Scanning a string body free of quotes and backslashes, closed by a
/// final quote, decodes exactly those characters.
proof fn lemma_scan_plain(b: Seq<u8>, i: int, t: Seq<char>)
    requires
        0 <= i,
        b.len() == i + t.len() + 1,
        forall|j: int|
            0 <= j < t.len() ==> (b[i + j] as char) == t[j] && t[j] != '"' && t[j] != '\\',
        b[i + t.len()] == 34,
    ensures
        scan_str(b, i) == Ok::<(Seq<char>, nat), JsonErrorV>((t, (t.len() + 1) as nat)),
    decreases t.len(),
{
    if t.len() == 0 {
        assert(b[i] == 34);
        assert(t =~= Seq::<char>::empty());
    } else {
        assert((b[i] as char) == t[0]);
        if b[i] == 34 {
            assert(t[0] == '"');
            assert(false);
        }
        if b[i] == 92 {
            assert(t[0] == '\\');
            assert(false);
        }
        let t2 = t.drop_first();
        assert(forall|j: int|
            0 <= j < t2.len() ==> (b[i + 1 + j] as char) == t2[j] && t2[j] != '"' && t2[j]
                != '\\') by {
            assert(forall|j: int| 0 <= j < t2.len() ==> t2[j] == t[j + 1]);
        }
        lemma_scan_plain(b, i + 1, t2);
        assert(seq![t[0]] + t2 =~= t);
    }
}

/// Whether a value is a scalar within the grammar's reach: a non-negative
/// 64-bit integer (the grammar has no minus sign), a float literal made
/// of digits around a single dot, text free of quotes and backslashes
/// whose characters fit in one byte, a boolean, or `null`.
pub open spec fn scalar_renderable(v: JsonV) -> bool {
    match v {
        JsonV::Int(n) => 0 <= n <= i64::MAX,
        JsonV::Float(t) => {
            &&& t.len() > 0
            &&& is_digit_char(t[0])
            &&& forall|k: int| 0 <= k < t.len() ==> is_digit_char(#[trigger] t[k]) || t[k] == '.'
            &&& exists|k: int| 0 <= k < t.len() && t[k] == '.'
            &&& forall|k1: int, k2: int|
                0 <= k1 < k2 < t.len() && t[k1] == '.' ==> t[k2] != '.'
        },
        JsonV::Text(s) => forall|k: int|
            0 <= k < s.len() ==> (#[trigger] s[k]) != '"' && s[k] != '\\' && (s[k] as u32) < 256,
        JsonV::Bool(_) => true,
        JsonV::Null => true,
        _ => false,
    }
}

/// Rendering a scalar and parsing any byte sequence that reads as the
/// rendered text reproduces the value exactly.
#[verifier::rlimit(100)]
pub proof fn lemma_scalar_round_trip(v: JsonV, b: Seq<u8>)
    requires
        scalar_renderable(v),
        chars_of_bytes(b) == spec_render(v),
    ensures
        spec_parse(b) == Ok::<JsonV, JsonErrorV>(v),
{
    let cb = chars_of_bytes(b);
    assert(cb.len() == b.len());
    assert(forall|j: int| 0 <= j < b.len() ==> cb[j] == (#[trigger] b[j]) as char);
    match v {
        JsonV::Int(n) => {
            lemma_dec_str_digits(n);
            assert(forall|j: int| 0 <= j < b.len() ==> is_digit(#[trigger] b[j])) by {
                assert(forall|j: int|
                    0 <= j < b.len() ==> is_digit_char(#[trigger] cb[j]));
            }
            lemma_num_len_all(b, 0, false);
            assert(!has_dot_range(b, 0, b.len() as int));
            assert(b.subrange(0, b.len() as int) =~= b);
            lemma_dec_value_bytes_chars(b);
            lemma_dec_str_value(n);
            assert(dec_value(b) == n);
            assert(spec_tokenise_at(b, 0) == crate::lexer::tok_cons(
                SpecToken::Int(n),
                spec_tokenise_at(b, b.len() as int),
            ));
            let ts = seq![SpecToken::Int(n)];
            assert(spec_tokenise(b) == Ok::<Seq<SpecToken>, JsonErrorV>(ts)) by {
                assert(seq![SpecToken::Int(n)] + Seq::<SpecToken>::empty() =~= ts);
            }
            assert(spec_parse_value(ts, 0) == Ok::<(JsonV, int), JsonErrorV>((v, 0)));
        },
        JsonV::Float(t) => {
            assert(forall|j: int|
                0 <= j < b.len() ==> is_digit(#[trigger] b[j]) || b[j] == 46) by {
                assert(forall|j: int|
                    0 <= j < b.len() ==> is_digit_char(#[trigger] cb[j]) || cb[j] == '.');
            }
            assert(forall|j1: int, j2: int|
                0 <= j1 < j2 < b.len() && b[j1] == 46 ==> b[j2] != 46) by {
                assert(forall|j: int| 0 <= j < b.len() ==> ((#[trigger] b[j]) == 46 <==> cb[j] == '.'));
            }
            lemma_num_len_all(b, 0, false);
            assert(is_digit(b[0]));
            assert(has_dot_range(b, 0, b.len() as int)) by {
                let k = choose|k: int| 0 <= k < t.len() && t[k] == '.';
                assert(cb[k] == '.');
                assert(b[k] == 46);
            }
            assert(b.subrange(0, b.len() as int) =~= b);
            assert(spec_tokenise_at(b, 0) == crate::lexer::tok_cons(
                SpecToken::Float(t),
                spec_tokenise_at(b, b.len() as int),
            ));
            let ts = seq![SpecToken::Float(t)];
            assert(spec_tokenise(b) == Ok::<Seq<SpecToken>, JsonErrorV>(ts)) by {
                assert(seq![SpecToken::Float(t)] + Seq::<SpecToken>::empty() =~= ts);
            }
            assert(spec_parse_value(ts, 0) == Ok::<(JsonV, int), JsonErrorV>((v, 0)));
        },
        JsonV::Text(s) => {
            assert(cb[0] == '"');
            assert(b[0] == 34);
            assert(b.len() == s.len() + 2);
            assert(forall|j: int|
                0 <= j < s.len() ==> (b[1 + j] as char) == s[j] && s[j] != '"' && s[j]
                    != '\\') by {
                assert(forall|j: int| 0 <= j < s.len() ==> cb[1 + j] == s[j]);
            }
            assert(cb[b.len() - 1] == '"');
            assert(b[1 + s.len() as int] == 34);
            lemma_scan_plain(b, 1, s);
            assert(spec_tokenise_at(b, 0) == crate::lexer::tok_cons(
                SpecToken::Text(s),
                spec_tokenise_at(b, b.len() as int),
            ));
            let ts = seq![SpecToken::Text(s)];
            assert(spec_tokenise(b) == Ok::<Seq<SpecToken>, JsonErrorV>(ts)) by {
                assert(seq![SpecToken::Text(s)] + Seq::<SpecToken>::empty() =~= ts);
            }
            assert(spec_parse_value(ts, 0) == Ok::<(JsonV, int), JsonErrorV>((v, 0)));
        },
        JsonV::Bool(bl) => {
            if bl {
                assert(cb =~= seq!['t', 'r', 'u', 'e']);
                assert(b[0] == 116 && b[1] == 114 && b[2] == 117 && b[3] == 101);
                assert(forall|j: int|
                    0 <= j < b.len() ==> crate::lexer::is_lower(#[trigger] b[j]));
                lemma_ident_len_all(b, 0);
                assert(b.subrange(0, b.len() as int) =~= b);
                assert(b.subrange(0, 4) =~= seq![116u8, 114u8, 117u8, 101u8]);
                assert(spec_tokenise_at(b, 0) == crate::lexer::tok_cons(
                    SpecToken::Bool(true),
                    spec_tokenise_at(b, b.len() as int),
                ));
                let ts = seq![SpecToken::Bool(true)];
                assert(spec_tokenise(b) == Ok::<Seq<SpecToken>, JsonErrorV>(ts)) by {
                    assert(seq![SpecToken::Bool(true)] + Seq::<SpecToken>::empty() =~= ts);
                }
                assert(spec_parse_value(ts, 0) == Ok::<(JsonV, int), JsonErrorV>((v, 0)));
            } else {
                assert(cb =~= seq!['f', 'a', 'l', 's', 'e']);
                assert(b[0] == 102 && b[1] == 97 && b[2] == 108 && b[3] == 115 && b[4] == 101);
                assert(forall|j: int|
                    0 <= j < b.len() ==> crate::lexer::is_lower(#[trigger] b[j]));
                lemma_ident_len_all(b, 0);
                assert(b.subrange(0, b.len() as int) =~= b);
                assert(b.subrange(0, 5) =~= seq![102u8, 97u8, 108u8, 115u8, 101u8]);
                assert(b.subrange(0, 5) != seq![116u8, 114u8, 117u8, 101u8]);
                assert(spec_tokenise_at(b, 0) == crate::lexer::tok_cons(
                    SpecToken::Bool(false),
                    spec_tokenise_at(b, b.len() as int),
                ));
                let ts = seq![SpecToken::Bool(false)];
                assert(spec_tokenise(b) == Ok::<Seq<SpecToken>, JsonErrorV>(ts)) by {
                    assert(seq![SpecToken::Bool(false)] + Seq::<SpecToken>::empty() =~= ts);
                }
                assert(spec_parse_value(ts, 0) == Ok::<(JsonV, int), JsonErrorV>((v, 0)));
            }
        },
        JsonV::Null => {
            assert(cb =~= seq!['n', 'u', 'l', 'l']);
            assert(b[0] == 110 && b[1] == 117 && b[2] == 108 && b[3] == 108);
            assert(forall|j: int| 0 <= j < b.len() ==> crate::lexer::is_lower(#[trigger] b[j]));
            lemma_ident_len_all(b, 0);
            assert(b.subrange(0, b.len() as int) =~= b);
            assert(b.subrange(0, 4) =~= seq![110u8, 117u8, 108u8, 108u8]);
            assert(b.subrange(0, 4) != seq![116u8, 114u8, 117u8, 101u8]);
            assert(b.subrange(0, 4) != seq![102u8, 97u8, 108u8, 115u8, 101u8]);
            assert(spec_tokenise_at(b, 0) == crate::lexer::tok_cons(
                SpecToken::Null,
                spec_tokenise_at(b, b.len() as int),
            ));
            let ts = seq![SpecToken::Null];
            assert(spec_tokenise(b) == Ok::<Seq<SpecToken>, JsonErrorV>(ts)) by {
                assert(seq![SpecToken::Null] + Seq::<SpecToken>::empty() =~= ts);
            }
            assert(spec_parse_value(ts, 0) == Ok::<(JsonV, int), JsonErrorV>((v, 0)));
        },
        _ => {},
    }
}

/// Within a successfully parsed value, no comma directly precedes a
/// closing bracket or brace, and the value never ends in a comma.
pub proof fn lemma_value_no_trailing_comma(ts: Seq<SpecToken>, i: int)
    requires
        spec_parse_value(ts, i) is Ok,
    ensures
        ({
            let e = spec_parse_value(ts, i)->Ok_0.1;
            &&& i <= e < ts.len()
            &&& !(ts[e] is Comma)
            &&& forall|k: int|
                i <= k < e && (#[trigger] ts[k]) is Comma ==> !(ts[k + 1] is CurlyClose || ts[k
                    + 1] is BracketClose)
        }),
    decreases ts.len() - i, 0int,
{
    match ts[i] {
        SpecToken::CurlyOpen => {
            lemma_members_no_trailing_comma(ts, i + 1, Seq::empty());
        },
        SpecToken::BracketOpen => {
            if !(ts[i + 1] is BracketClose) {
                lemma_elements_no_trailing_comma(ts, i + 1, Seq::empty());
            }
        },
        _ => {},
    }
}

/// Within successfully parsed object members, no comma directly precedes
/// a closing bracket or brace, and the members end at their brace.
proof fn lemma_members_no_trailing_comma(
    ts: Seq<SpecToken>,
    i: int,
    acc: Seq<(Seq<char>, crate::json::JsonV)>,
)
    requires
        spec_parse_members(ts, i, acc) is Ok,
    ensures
        ({
            let e = spec_parse_members(ts, i, acc)->Ok_0.1;
            &&& i <= e < ts.len()
            &&& ts[e] is CurlyClose
            &&& forall|k: int|
                i <= k < e && (#[trigger] ts[k]) is Comma ==> !(ts[k + 1] is CurlyClose || ts[k
                    + 1] is BracketClose)
        }),
    decreases ts.len() - i, 1int,
{
    let key = ts[i]->Text_0;
    lemma_value_no_trailing_comma(ts, i + 2);
    let p = spec_parse_value(ts, i + 2)->Ok_0;
    let e1 = p.1;
    let acc2 = crate::json::upsert_pair(acc, key, p.0);
    if ts[e1 + 1] is Comma {
        lemma_members_no_trailing_comma(ts, e1 + 2, acc2);
        let e = spec_parse_members(ts, e1 + 2, acc2)->Ok_0.1;
        assert forall|k: int|
            i <= k < e && (#[trigger] ts[k]) is Comma implies !(ts[k + 1] is CurlyClose || ts[k
                + 1] is BracketClose) by {
            if k == e1 + 1 {
                assert(ts[k + 1] is Text);
            }
        }
    }
}

/// Within successfully parsed array elements, no comma directly precedes
/// a closing bracket or brace, and the elements end at their bracket.
proof fn lemma_elements_no_trailing_comma(ts: Seq<SpecToken>, i: int, acc: Seq<crate::json::JsonV>)
    requires
        spec_parse_elements(ts, i, acc) is Ok,
    ensures
        ({
            let e = spec_parse_elements(ts, i, acc)->Ok_0.1;
            &&& i <= e < ts.len()
            &&& ts[e] is BracketClose
            &&& forall|k: int|
                i <= k < e && (#[trigger] ts[k]) is Comma ==> !(ts[k + 1] is CurlyClose || ts[k
                    + 1] is BracketClose)
        }),
    decreases ts.len() - i, 1int,
{
    lemma_value_no_trailing_comma(ts, i);
    let p = spec_parse_value(ts, i)->Ok_0;
    let e1 = p.1;
    let acc2 = acc.push(p.0);
    if ts[e1 + 1] is Comma {
        lemma_elements_no_trailing_comma(ts, e1 + 2, acc2);
        let e = spec_parse_elements(ts, e1 + 2, acc2)->Ok_0.1;
        assert forall|k: int|
            i <= k < e && (#[trigger] ts[k]) is Comma implies !(ts[k + 1] is CurlyClose || ts[k
                + 1] is BracketClose) by {
            if k == e1 + 1 {
                assert(!(ts[k + 1] is BracketClose) && !(ts[k + 1] is CurlyClose)) by {
                    assert(spec_parse_value(ts, e1 + 2) is Ok);
                }
            }
        }
    }
}

/// Trailing commas are rejected in every array and object position: in a
/// token sequence that parses as a complete document, a comma is never
/// directly followed by a closing bracket or brace.
pub proof fn lemma_document_no_trailing_comma(s: Seq<u8>)
    requires
        spec_parse(s) is Ok,
    ensures
        spec_tokenise(s) matches Ok(ts) ==> forall|k: int|
            0 <= k < ts.len() - 1 && (#[trigger] ts[k]) is Comma ==> !(ts[k + 1] is CurlyClose
                || ts[k + 1] is BracketClose),
{
    match spec_tokenise(s) {
        Ok(ts) => {
            lemma_value_no_trailing_comma(ts, 0);
            assert(spec_parse_value(ts, 0)->Ok_0.1 == ts.len() - 1);
        },
        Err(_) => {},
    }
}

/// An empty array parses successfully.
pub proof fn lemma_empty_array_parses()
    ensures
        spec_parse_value(seq![SpecToken::BracketOpen, SpecToken::BracketClose], 0) == Ok::<
            (JsonV, int),
            JsonErrorV,
        >((JsonV::List(Seq::empty()), 1)),
{
}

/// An empty object is rejected by the grammar.
pub proof fn lemma_empty_object_rejected()
    ensures
        spec_parse_value(seq![SpecToken::CurlyOpen, SpecToken::CurlyClose], 0) == Err::<
            (JsonV, int),
            JsonErrorV,
        >(JsonErrorV::EmptyObjectNotPermitted),
{
}

} // verus!
