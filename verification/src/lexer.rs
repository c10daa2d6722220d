//! The JSON tokenizer: lexes a byte buffer, left to right, into an ordered
//! token sequence, failing at the first structurally invalid byte.
//!
//! The spec functions in this module define the lexical grammar directly
//! over the byte sequence; `tokenise` is proved to return exactly what the
//! grammar says, token for token and error for error.

use vstd::prelude::*;

use crate::errors::{JsonError, JsonErrorV};
use crate::num::{
    all_digits, dec_value, hex4_value, hex_digit, hex_digit_val, is_digit, is_hex_digit,
};
use crate::strings::{char_from_u32, chars_to_string};

verus! {

/// Spec-level mirror of [`Token`], with text carried as character
/// sequences and integers unbounded.
pub enum SpecToken {
    CurlyOpen,
    CurlyClose,
    BracketOpen,
    BracketClose,
    Comma,
    Colon,
    Text(Seq<char>),
    Bool(bool),
    Int(int),
    Float(Seq<char>),
    Null,
}

/// A grammar token: structural punctuation, a string literal with its
/// escapes decoded, a boolean, a 64-bit signed integer, a floating-point
/// literal carried as its source text, or `null`. Tokens carry no position
/// metadata.
pub enum Token {
    CurlyOpen,
    CurlyClose,
    BracketOpen,
    BracketClose,
    Comma,
    Colon,
    Text(String),
    Bool(bool),
    Int(i64),
    Float(String),
    Null,
}

impl View for Token {
    type V = SpecToken;

    open spec fn view(&self) -> SpecToken {
        match self {
            Token::CurlyOpen => SpecToken::CurlyOpen,
            Token::CurlyClose => SpecToken::CurlyClose,
            Token::BracketOpen => SpecToken::BracketOpen,
            Token::BracketClose => SpecToken::BracketClose,
            Token::Comma => SpecToken::Comma,
            Token::Colon => SpecToken::Colon,
            Token::Text(s) => SpecToken::Text(s@),
            Token::Bool(b) => SpecToken::Bool(*b),
            Token::Int(n) => SpecToken::Int(*n as int),
            Token::Float(t) => SpecToken::Float(t@),
            Token::Null => SpecToken::Null,
        }
    }
}

/// The views of a token sequence, elementwise.
pub open spec fn token_views(ts: Seq<Token>) -> Seq<SpecToken> {
    ts.map_values(|t: Token| t@)
}

/// Whether a byte is skipped as whitespace: space, tab or newline.
pub open spec fn is_ws(b: u8) -> bool {
    b == 32 || b == 9 || b == 10
}

/// Whether a byte is a lowercase ASCII letter.
pub open spec fn is_lower(b: u8) -> bool {
    97 <= b <= 122
}

/// Each byte read as the character with the same code.
pub open spec fn chars_of_bytes(s: Seq<u8>) -> Seq<char> {
    s.map_values(|b: u8| b as char)
}

/// The length of the number literal starting at `i`: digits with at most
/// one `.`; `seen_dot` records whether the `.` was already consumed.
pub open spec fn num_len(s: Seq<u8>, i: int, seen_dot: bool) -> nat
    decreases s.len() - i,
    when 0 <= i <= s.len()
{
    if i >= s.len() {
        0
    } else if is_digit(s[i]) {
        1 + num_len(s, i + 1, seen_dot)
    } else if s[i] == 46 && !seen_dot {
        1 + num_len(s, i + 1, true)
    } else {
        0
    }
}

/// Whether `s` has a `.` somewhere in `[a, b)`.
pub open spec fn has_dot_range(s: Seq<u8>, a: int, b: int) -> bool {
    exists|k: int| a <= k < b && s[k] == 46
}

/// The length of the lowercase identifier run starting at `i`.
pub open spec fn ident_len(s: Seq<u8>, i: int) -> nat
    decreases s.len() - i,
    when 0 <= i <= s.len()
{
    if i >= s.len() {
        0
    } else if is_lower(s[i]) {
        1 + ident_len(s, i + 1)
    } else {
        0
    }
}

/// A number run fits inside the buffer.
pub proof fn lemma_num_len_bound(s: Seq<u8>, i: int, seen_dot: bool)
    requires
        0 <= i <= s.len(),
    ensures
        num_len(s, i, seen_dot) <= s.len() - i,
    decreases s.len() - i,
{
    if i < s.len() && (is_digit(s[i]) || (s[i] == 46 && !seen_dot)) {
        lemma_num_len_bound(s, i + 1, seen_dot || s[i] == 46);
        if is_digit(s[i]) {
            lemma_num_len_bound(s, i + 1, seen_dot);
        }
    }
}

/// An identifier run fits inside the buffer.
pub proof fn lemma_ident_len_bound(s: Seq<u8>, i: int)
    requires
        0 <= i <= s.len(),
    ensures
        ident_len(s, i) <= s.len() - i,
    decreases s.len() - i,
{
    if i < s.len() && is_lower(s[i]) {
        lemma_ident_len_bound(s, i + 1);
    }
}

/// Prepends one decoded character to the result of a string scan.
pub open spec fn scan_cons(c: char, k: nat, r: Result<(Seq<char>, nat), JsonErrorV>) -> Result<
    (Seq<char>, nat),
    JsonErrorV,
> {
    match r {
        Ok((t, u)) => Ok((seq![c] + t, (k + u) as nat)),
        Err(e) => Err(e),
    }
}

/// Scans the inside of a string literal beginning at `i` (just past the
/// opening quote): the decoded content, and the count of bytes consumed up
/// to and including the closing quote.
pub open spec fn scan_str(s: Seq<u8>, i: int) -> Result<(Seq<char>, nat), JsonErrorV>
    decreases s.len() - i,
    when 0 <= i <= s.len()
{
    if i >= s.len() {
        Err(JsonErrorV::UnterminatedString)
    } else if s[i] == 34 {
        Ok((Seq::empty(), 1))
    } else if s[i] == 92 {
        if i + 1 >= s.len() {
            Err(JsonErrorV::UnterminatedString)
        } else {
            let e = s[i + 1];
            if e == 117 {
                if i + 2 >= s.len() {
                    Err(JsonErrorV::TruncatedEscape)
                } else if !is_hex_digit(s[i + 2]) {
                    Err(JsonErrorV::InvalidHexDigit(s[i + 2]))
                } else if i + 3 >= s.len() {
                    Err(JsonErrorV::TruncatedEscape)
                } else if !is_hex_digit(s[i + 3]) {
                    Err(JsonErrorV::InvalidHexDigit(s[i + 3]))
                } else if i + 4 >= s.len() {
                    Err(JsonErrorV::TruncatedEscape)
                } else if !is_hex_digit(s[i + 4]) {
                    Err(JsonErrorV::InvalidHexDigit(s[i + 4]))
                } else if i + 5 >= s.len() {
                    Err(JsonErrorV::TruncatedEscape)
                } else if !is_hex_digit(s[i + 5]) {
                    Err(JsonErrorV::InvalidHexDigit(s[i + 5]))
                } else {
                    let code = hex4_value(s[i + 2], s[i + 3], s[i + 4], s[i + 5]);
                    if 0xD800 <= code <= 0xDFFF {
                        Err(JsonErrorV::InvalidCodepoint(code as u32))
                    } else {
                        scan_cons(code as char, 6, scan_str(s, i + 6))
                    }
                }
            } else if e == 34 || e == 92 || e == 47 {
                scan_cons(e as char, 2, scan_str(s, i + 2))
            } else if e == 98 {
                scan_cons('\u{8}', 2, scan_str(s, i + 2))
            } else if e == 102 {
                scan_cons('\u{c}', 2, scan_str(s, i + 2))
            } else if e == 110 {
                scan_cons('\n', 2, scan_str(s, i + 2))
            } else if e == 114 {
                scan_cons('\r', 2, scan_str(s, i + 2))
            } else if e == 116 {
                scan_cons('\t', 2, scan_str(s, i + 2))
            } else {
                Err(JsonErrorV::InvalidEscape(e))
            }
        }
    } else {
        scan_cons(s[i] as char, 1, scan_str(s, i + 1))
    }
}

/// A successful string scan consumes at least the closing quote and stays
/// inside the buffer.
pub proof fn lemma_scan_str_bound(s: Seq<u8>, i: int)
    requires
        0 <= i <= s.len(),
    ensures
        scan_str(s, i) matches Ok((t, u)) ==> 1 <= u && i + u <= s.len(),
    decreases s.len() - i,
{
    if i < s.len() && s[i] != 34 {
        if s[i] == 92 {
            if i + 1 < s.len() {
                lemma_scan_str_bound(s, i + 2);
                if i + 6 <= s.len() {
                    lemma_scan_str_bound(s, i + 6);
                }
            }
        } else {
            lemma_scan_str_bound(s, i + 1);
        }
    }
}

/// Prepends one token to the result of lexing the rest of the buffer.
pub open spec fn tok_cons(t: SpecToken, r: Result<Seq<SpecToken>, JsonErrorV>) -> Result<
    Seq<SpecToken>,
    JsonErrorV,
> {
    match r {
        Ok(ts) => Ok(seq![t] + ts),
        Err(e) => Err(e),
    }
}

/// The token sequence lexed from `s` starting at `i`, or the first error.
pub open spec fn spec_tokenise_at(s: Seq<u8>, i: int) -> Result<Seq<SpecToken>, JsonErrorV>
    decreases s.len() - i,
    when 0 <= i <= s.len()
    via spec_tokenise_at_dec
{
    if i >= s.len() {
        Ok(Seq::empty())
    } else {
        let b = s[i];
        if is_ws(b) {
            spec_tokenise_at(s, i + 1)
        } else if b == 123 {
            tok_cons(SpecToken::CurlyOpen, spec_tokenise_at(s, i + 1))
        } else if b == 125 {
            tok_cons(SpecToken::CurlyClose, spec_tokenise_at(s, i + 1))
        } else if b == 91 {
            tok_cons(SpecToken::BracketOpen, spec_tokenise_at(s, i + 1))
        } else if b == 93 {
            tok_cons(SpecToken::BracketClose, spec_tokenise_at(s, i + 1))
        } else if b == 44 {
            tok_cons(SpecToken::Comma, spec_tokenise_at(s, i + 1))
        } else if b == 58 {
            tok_cons(SpecToken::Colon, spec_tokenise_at(s, i + 1))
        } else if is_digit(b) {
            let n = num_len(s, i, false) as int;
            let run = s.subrange(i, i + n);
            if has_dot_range(s, i, i + n) {
                tok_cons(SpecToken::Float(chars_of_bytes(run)), spec_tokenise_at(s, i + n))
            } else if dec_value(run) <= i64::MAX {
                tok_cons(SpecToken::Int(dec_value(run)), spec_tokenise_at(s, i + n))
            } else {
                Err(JsonErrorV::InvalidNumberLiteral(chars_of_bytes(run)))
            }
        } else if is_lower(b) {
            let n = ident_len(s, i) as int;
            let run = s.subrange(i, i + n);
            if run == seq![116u8, 114u8, 117u8, 101u8] {
                tok_cons(SpecToken::Bool(true), spec_tokenise_at(s, i + n))
            } else if run == seq![102u8, 97u8, 108u8, 115u8, 101u8] {
                tok_cons(SpecToken::Bool(false), spec_tokenise_at(s, i + n))
            } else if run == seq![110u8, 117u8, 108u8, 108u8] {
                tok_cons(SpecToken::Null, spec_tokenise_at(s, i + n))
            } else {
                spec_tokenise_at(s, i + n)
            }
        } else if b == 34 {
            match scan_str(s, i + 1) {
                Ok((t, u)) => tok_cons(SpecToken::Text(t), spec_tokenise_at(s, i + 1 + u)),
                Err(e) => Err(e),
            }
        } else {
            Err(JsonErrorV::InvalidCharacter(b))
        }
    }
}

#[via_fn]
proof fn spec_tokenise_at_dec(s: Seq<u8>, i: int) {
    if 0 <= i && i < s.len() {
        lemma_num_len_bound(s, i, false);
        lemma_ident_len_bound(s, i);
        lemma_scan_str_bound(s, i + 1);
    }
}

/// The token sequence lexed from `s`, or the first error.
pub open spec fn spec_tokenise(s: Seq<u8>) -> Result<Seq<SpecToken>, JsonErrorV> {
    spec_tokenise_at(s, 0)
}

/// Prepends already-lexed tokens to the result of lexing the rest.
pub open spec fn prepend_tokens(
    pre: Seq<SpecToken>,
    r: Result<Seq<SpecToken>, JsonErrorV>,
) -> Result<Seq<SpecToken>, JsonErrorV> {
    match r {
        Ok(ts) => Ok(pre + ts),
        Err(e) => Err(e),
    }
}

/// The lexer's loop invariant: what the whole buffer lexes to is the
/// tokens already produced followed by whatever the rest lexes to.
pub open spec fn lex_inv(s: Seq<u8>, pre: Seq<SpecToken>, cur: int) -> bool {
    spec_tokenise_at(s, 0) == prepend_tokens(pre, spec_tokenise_at(s, cur))
}

proof fn lemma_lex_step(s: Seq<u8>, pre: Seq<SpecToken>, cur: int, t: SpecToken, k: int)
    requires
        lex_inv(s, pre, cur),
        spec_tokenise_at(s, cur) == tok_cons(t, spec_tokenise_at(s, cur + k)),
    ensures
        lex_inv(s, pre.push(t), cur + k),
{
    match spec_tokenise_at(s, cur + k) {
        Ok(ts) => {
            assert(pre + (seq![t] + ts) =~= pre.push(t) + ts);
        },
        Err(_) => {},
    }
}

proof fn lemma_token_views_push(ts: Seq<Token>, t: Token)
    ensures
        token_views(ts.push(t)) == token_views(ts).push(t@),
{
    assert(token_views(ts.push(t)) =~= token_views(ts).push(t@));
}

/// The string scan's loop invariant: what the whole literal scans to is
/// the content already decoded followed by whatever the rest scans to.
pub open spec fn scan_inv(s: Seq<u8>, start: int, acc: Seq<char>, j: int) -> bool {
    match scan_str(s, j) {
        Ok((t, u)) => scan_str(s, start) == Ok::<(Seq<char>, nat), JsonErrorV>(
            (acc + t, ((j - start) + u) as nat),
        ),
        Err(e) => scan_str(s, start) == Err::<(Seq<char>, nat), JsonErrorV>(e),
    }
}

proof fn lemma_scan_step(s: Seq<u8>, start: int, acc: Seq<char>, j: int, c: char, k: int)
    requires
        start <= j,
        0 <= k,
        scan_inv(s, start, acc, j),
        scan_str(s, j) == scan_cons(c, k as nat, scan_str(s, j + k)),
    ensures
        scan_inv(s, start, acc.push(c), j + k),
{
    match scan_str(s, j + k) {
        Ok((t, u)) => {
            assert(acc + (seq![c] + t) =~= acc.push(c) + t);
        },
        Err(_) => {},
    }
}

/// Lexes a byte buffer into the token sequence that the lexical grammar
/// (`spec_tokenise`) assigns to it, or returns exactly the grammar's first
/// error.
#[verifier::rlimit(100)]
pub fn tokenise(data: &[u8]) -> (r: Result<Vec<Token>, JsonError>)
    ensures
        match r {
            Ok(v) => spec_tokenise(data@) == Ok::<Seq<SpecToken>, JsonErrorV>(token_views(v@)),
            Err(e) => spec_tokenise(data@) == Err::<Seq<SpecToken>, JsonErrorV>(e@),
        },
{
    let ghost s = data@;
    let mut res: Vec<Token> = Vec::new();
    let mut cur: usize = 0;
    proof {
        assert(token_views(res@) =~= Seq::<SpecToken>::empty());
        match spec_tokenise_at(s, 0) {
            Ok(ts) => {
                assert(Seq::<SpecToken>::empty() + ts =~= ts);
            },
            Err(_) => {},
        }
    }
    while cur < data.len()
        invariant
            cur <= s.len(),
            s == data@,
            lex_inv(s, token_views(res@), cur as int),
        decreases s.len() - cur,
    {
        let ghost pre = token_views(res@);
        let b = data[cur];
        if b == 32 || b == 9 || b == 10 {
            cur = cur + 1;
        } else if b == 123 {
            proof {
                lemma_lex_step(s, pre, cur as int, SpecToken::CurlyOpen, 1);
                lemma_token_views_push(res@, Token::CurlyOpen);
            }
            res.push(Token::CurlyOpen);
            cur = cur + 1;
        } else if b == 125 {
            proof {
                lemma_lex_step(s, pre, cur as int, SpecToken::CurlyClose, 1);
                lemma_token_views_push(res@, Token::CurlyClose);
            }
            res.push(Token::CurlyClose);
            cur = cur + 1;
        } else if b == 91 {
            proof {
                lemma_lex_step(s, pre, cur as int, SpecToken::BracketOpen, 1);
                lemma_token_views_push(res@, Token::BracketOpen);
            }
            res.push(Token::BracketOpen);
            cur = cur + 1;
        } else if b == 93 {
            proof {
                lemma_lex_step(s, pre, cur as int, SpecToken::BracketClose, 1);
                lemma_token_views_push(res@, Token::BracketClose);
            }
            res.push(Token::BracketClose);
            cur = cur + 1;
        } else if b == 44 {
            proof {
                lemma_lex_step(s, pre, cur as int, SpecToken::Comma, 1);
                lemma_token_views_push(res@, Token::Comma);
            }
            res.push(Token::Comma);
            cur = cur + 1;
        } else if b == 58 {
            proof {
                lemma_lex_step(s, pre, cur as int, SpecToken::Colon, 1);
                lemma_token_views_push(res@, Token::Colon);
            }
            res.push(Token::Colon);
            cur = cur + 1;
        } else if 48 <= b && b <= 57 {
            let mut j: usize = cur;
            let mut fd = false;
            while j < data.len() && ((48 <= data[j] && data[j] <= 57) || (!fd && data[j] == 46))
                invariant
                    s == data@,
                    cur <= j <= s.len(),
                    forall|k: int| cur <= k < j ==> is_digit(s[k]) || s[k] == 46,
                    fd == has_dot_range(s, cur as int, j as int),
                    num_len(s, cur as int, false) == (j - cur) + num_len(s, j as int, fd),
                decreases s.len() - j,
            {
                let ghost fd0 = fd;
                if data[j] == 46 {
                    fd = true;
                }
                proof {
                    assert(num_len(s, j as int, fd0) == 1 + num_len(s, j + 1, fd));
                    assert(has_dot_range(s, cur as int, j + 1) == (fd0 || s[j as int] == 46));
                }
                j = j + 1;
            }
            proof {
                assert(num_len(s, j as int, fd) == 0);
                assert(num_len(s, cur as int, false) == j - cur);
            }
            let ghost n = num_len(s, cur as int, false) as int;
            let ghost run = s.subrange(cur as int, cur as int + n);
            if fd {
                let mut txt: Vec<char> = Vec::new();
                let mut k: usize = cur;
                while k < j
                    invariant
                        s == data@,
                        cur <= k <= j <= s.len(),
                        txt@ == chars_of_bytes(s.subrange(cur as int, k as int)),
                    decreases j - k,
                {
                    txt.push(data[k] as char);
                    proof {
                        assert(txt@ =~= chars_of_bytes(s.subrange(cur as int, k + 1)));
                    }
                    k = k + 1;
                }
                let tstr = chars_to_string(&txt);
                proof {
                    assert(run =~= s.subrange(cur as int, j as int));
                    lemma_lex_step(
                        s,
                        pre,
                        cur as int,
                        SpecToken::Float(chars_of_bytes(run)),
                        j - cur,
                    );
                    lemma_token_views_push(res@, Token::Float(tstr));
                }
                res.push(Token::Float(tstr));
                cur = j;
            } else {
                proof {
                    assert(run =~= s.subrange(cur as int, j as int));
                    assert(all_digits(run));
                }
                match crate::num::parse_i64_digits(data, cur, j) {
                    Some(v) => {
                        proof {
                            lemma_lex_step(
                                s,
                                pre,
                                cur as int,
                                SpecToken::Int(dec_value(run)),
                                j - cur,
                            );
                            lemma_token_views_push(res@, Token::Int(v));
                        }
                        res.push(Token::Int(v));
                        cur = j;
                    },
                    None => {
                        let mut txt: Vec<char> = Vec::new();
                        let mut k: usize = cur;
                        while k < j
                            invariant
                                s == data@,
                                cur <= k <= j <= s.len(),
                                txt@ == chars_of_bytes(s.subrange(cur as int, k as int)),
                            decreases j - k,
                        {
                            txt.push(data[k] as char);
                            proof {
                                assert(txt@ =~= chars_of_bytes(s.subrange(cur as int, k + 1)));
                            }
                            k = k + 1;
                        }
                        let tstr = chars_to_string(&txt);
                        return Err(JsonError::InvalidNumberLiteral(tstr));
                    },
                }
            }
        } else if 97 <= b && b <= 122 {
            let mut j: usize = cur;
            while j < data.len() && 97 <= data[j] && data[j] <= 122
                invariant
                    s == data@,
                    cur <= j <= s.len(),
                    forall|k: int| cur <= k < j ==> is_lower(s[k]),
                    ident_len(s, cur as int) == (j - cur) + ident_len(s, j as int),
                decreases s.len() - j,
            {
                proof {
                    assert(ident_len(s, j as int) == 1 + ident_len(s, j + 1));
                }
                j = j + 1;
            }
            proof {
                assert(ident_len(s, j as int) == 0);
                assert(ident_len(s, cur as int) == j - cur);
            }
            let ghost n = ident_len(s, cur as int) as int;
            let ghost run = s.subrange(cur as int, cur as int + n);
            proof {
                assert(run =~= s.subrange(cur as int, j as int));
            }
            let len = j - cur;
            if len == 4 && data[cur] == 116 && data[cur + 1] == 114 && data[cur + 2] == 117
                && data[cur + 3] == 101 {
                proof {
                    assert(run =~= seq![116u8, 114u8, 117u8, 101u8]);
                    lemma_lex_step(s, pre, cur as int, SpecToken::Bool(true), j - cur);
                    lemma_token_views_push(res@, Token::Bool(true));
                }
                res.push(Token::Bool(true));
                cur = j;
            } else if len == 5 && data[cur] == 102 && data[cur + 1] == 97 && data[cur + 2] == 108
                && data[cur + 3] == 115 && data[cur + 4] == 101 {
                proof {
                    assert(run != seq![116u8, 114u8, 117u8, 101u8]);
                    assert(run =~= seq![102u8, 97u8, 108u8, 115u8, 101u8]);
                    lemma_lex_step(s, pre, cur as int, SpecToken::Bool(false), j - cur);
                    lemma_token_views_push(res@, Token::Bool(false));
                }
                res.push(Token::Bool(false));
                cur = j;
            } else if len == 4 && data[cur] == 110 && data[cur + 1] == 117 && data[cur + 2] == 108
                && data[cur + 3] == 108 {
                proof {
                    assert(run != seq![116u8, 114u8, 117u8, 101u8]);
                    assert(run != seq![102u8, 97u8, 108u8, 115u8, 101u8]);
                    assert(run =~= seq![110u8, 117u8, 108u8, 108u8]);
                    lemma_lex_step(s, pre, cur as int, SpecToken::Null, j - cur);
                    lemma_token_views_push(res@, Token::Null);
                }
                res.push(Token::Null);
                cur = j;
            } else {
                proof {
                    if run == seq![116u8, 114u8, 117u8, 101u8] {
                        assert(run.len() == 4 && run[0] == 116 && run[1] == 114 && run[2] == 117
                            && run[3] == 101);
                        assert(false);
                    }
                    if run == seq![102u8, 97u8, 108u8, 115u8, 101u8] {
                        assert(run.len() == 5 && run[0] == 102 && run[1] == 97 && run[2] == 108
                            && run[3] == 115 && run[4] == 101);
                        assert(false);
                    }
                    if run == seq![110u8, 117u8, 108u8, 108u8] {
                        assert(run.len() == 4 && run[0] == 110 && run[1] == 117 && run[2] == 108
                            && run[3] == 108);
                        assert(false);
                    }
                }
                cur = j;
            }
        } else if b == 34 {
            let mut content: Vec<char> = Vec::new();
            let mut j: usize = cur + 1;
            proof {
                match scan_str(s, j as int) {
                    Ok((t, u)) => {
                        assert(Seq::<char>::empty() + t =~= t);
                    },
                    Err(_) => {},
                }
            }
            while j < data.len() && data[j] != 34
                invariant
                    s == data@,
                    cur < j <= s.len(),
                    scan_inv(s, cur as int + 1, content@, j as int),
                    s[cur as int] == 34,
                    cur < s.len(),
                    lex_inv(s, pre, cur as int),
                    pre == token_views(res@),
                decreases s.len() - j,
            {
                let c = data[j];
                if c == 92 {
                    if j + 1 >= data.len() {
                        return Err(JsonError::UnterminatedString);
                    }
                    let e = data[j + 1];
                    if e == 117 {
                        if j + 2 >= data.len() {
                            return Err(JsonError::TruncatedEscape);
                        }
                        let h0 = data[j + 2];
                        if !hex_digit(h0) {
                            return Err(JsonError::InvalidHexDigit(h0));
                        }
                        if j + 3 >= data.len() {
                            return Err(JsonError::TruncatedEscape);
                        }
                        let h1 = data[j + 3];
                        if !hex_digit(h1) {
                            return Err(JsonError::InvalidHexDigit(h1));
                        }
                        if j + 4 >= data.len() {
                            return Err(JsonError::TruncatedEscape);
                        }
                        let h2 = data[j + 4];
                        if !hex_digit(h2) {
                            return Err(JsonError::InvalidHexDigit(h2));
                        }
                        if j + 5 >= data.len() {
                            return Err(JsonError::TruncatedEscape);
                        }
                        let h3 = data[j + 5];
                        if !hex_digit(h3) {
                            return Err(JsonError::InvalidHexDigit(h3));
                        }
                        let code: u32 = ((hex_digit_val(h0) * 16 + hex_digit_val(h1)) * 16
                            + hex_digit_val(h2)) * 16 + hex_digit_val(h3);
                        proof {
                            assert(code as int == hex4_value(h0, h1, h2, h3));
                        }
                        if 0xD800 <= code && code <= 0xDFFF {
                            return Err(JsonError::InvalidCodepoint(code));
                        }
                        match char_from_u32(code) {
                            Some(ch) => {
                                proof {
                                    vstd::utf8::char_u32_cast(ch, code);
                                    assert(ch == (hex4_value(h0, h1, h2, h3) as char));
                                    lemma_scan_step(s, cur as int + 1, content@, j as int, ch, 6);
                                }
                                content.push(ch);
                                j = j + 6;
                            },
                            None => {
                                proof {
                                    assert(false);
                                }
                                return Err(JsonError::InvalidCodepoint(code));
                            },
                        }
                    } else if e == 34 || e == 92 || e == 47 {
                        proof {
                            lemma_scan_step(s, cur as int + 1, content@, j as int, e as char, 2);
                        }
                        content.push(e as char);
                        j = j + 2;
                    } else if e == 98 {
                        proof {
                            lemma_scan_step(s, cur as int + 1, content@, j as int, '\u{8}', 2);
                        }
                        content.push('\u{8}');
                        j = j + 2;
                    } else if e == 102 {
                        proof {
                            lemma_scan_step(s, cur as int + 1, content@, j as int, '\u{c}', 2);
                        }
                        content.push('\u{c}');
                        j = j + 2;
                    } else if e == 110 {
                        proof {
                            lemma_scan_step(s, cur as int + 1, content@, j as int, '\n', 2);
                        }
                        content.push('\n');
                        j = j + 2;
                    } else if e == 114 {
                        proof {
                            lemma_scan_step(s, cur as int + 1, content@, j as int, '\r', 2);
                        }
                        content.push('\r');
                        j = j + 2;
                    } else if e == 116 {
                        proof {
                            lemma_scan_step(s, cur as int + 1, content@, j as int, '\t', 2);
                        }
                        content.push('\t');
                        j = j + 2;
                    } else {
                        return Err(JsonError::InvalidEscape(e));
                    }
                } else {
                    proof {
                        lemma_scan_step(s, cur as int + 1, content@, j as int, c as char, 1);
                    }
                    content.push(c as char);
                    j = j + 1;
                }
            }
            if j >= data.len() {
                return Err(JsonError::UnterminatedString);
            }
            proof {
                assert(s[j as int] == 34);
                assert(scan_str(s, j as int) == Ok::<(Seq<char>, nat), JsonErrorV>(
                    (Seq::empty(), 1nat),
                ));
                assert(content@ + Seq::<char>::empty() =~= content@);
                assert(scan_str(s, cur as int + 1) == Ok::<(Seq<char>, nat), JsonErrorV>(
                    (content@, (j - cur) as nat),
                ));
                lemma_lex_step(s, pre, cur as int, SpecToken::Text(content@), j + 1 - cur);
            }
            let tstr = chars_to_string(&content);
            proof {
                lemma_token_views_push(res@, Token::Text(tstr));
            }
            res.push(Token::Text(tstr));
            cur = j + 1;
        } else {
            return Err(JsonError::InvalidCharacter(b));
        }
    }
    proof {
        match spec_tokenise_at(s, 0) {
            Ok(ts) => {
                assert(token_views(res@) + Seq::<SpecToken>::empty() =~= token_views(res@));
            },
            Err(_) => {},
        }
    }
    Ok(res)
}

} // verus!
