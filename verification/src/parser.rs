//! The JSON value parser: recursive descent over the token sequence, from
//! index 0; a successful top-level parse must consume every token.
//!
//! The spec functions define the grammar over spec tokens; each exec
//! function is proved to return exactly what the grammar says. A value
//! parse returns the value together with the index of its last token.

use vstd::prelude::*;

use crate::errors::{JsonError, JsonErrorV};
use crate::json::{
    json_wf, json_wf_list, json_wf_pairs, jview, jview_list, lemma_json_wf_list, lemma_jview_list,
    upsert_pair, Json, JsonNumber, JsonObject, JsonV,
};
use crate::lexer::{spec_tokenise, token_views, tokenise, SpecToken, Token};

verus! {

/// The value starting at token `i`, with the index of its last token; or
/// the grammar's first error.
pub open spec fn spec_parse_value(ts: Seq<SpecToken>, i: int) -> Result<(JsonV, int), JsonErrorV>
    decreases ts.len() - i, 0int,
{
    if i >= ts.len() {
        Err(JsonErrorV::UnexpectedToken)
    } else {
        match ts[i] {
            SpecToken::Bool(b) => Ok((JsonV::Bool(b), i)),
            SpecToken::Null => Ok((JsonV::Null, i)),
            SpecToken::Text(t) => Ok((JsonV::Text(t), i)),
            SpecToken::Int(n) => Ok((JsonV::Int(n), i)),
            SpecToken::Float(t) => Ok((JsonV::Float(t), i)),
            SpecToken::CurlyOpen => {
                if i + 1 >= ts.len() {
                    Err(JsonErrorV::UnexpectedToken)
                } else if ts[i + 1] is CurlyClose {
                    Err(JsonErrorV::EmptyObjectNotPermitted)
                } else if !(ts[i + 1] is Text) {
                    Err(JsonErrorV::UnexpectedToken)
                } else {
                    match spec_parse_members(ts, i + 1, Seq::empty()) {
                        Ok((ps, e)) => Ok((JsonV::Object(ps), e)),
                        Err(er) => Err(er),
                    }
                }
            },
            SpecToken::BracketOpen => {
                if i + 1 >= ts.len() {
                    Err(JsonErrorV::UnexpectedToken)
                } else if ts[i + 1] is BracketClose {
                    Ok((JsonV::List(Seq::empty()), i + 1))
                } else {
                    match spec_parse_elements(ts, i + 1, Seq::empty()) {
                        Ok((vs, e)) => Ok((JsonV::List(vs), e)),
                        Err(er) => Err(er),
                    }
                }
            },
            _ => Err(JsonErrorV::UnexpectedToken),
        }
    }
}

/// The object members starting at token `i` (a string key), accumulated
/// onto `acc` with last write wins, up to the closing brace.
pub open spec fn spec_parse_members(
    ts: Seq<SpecToken>,
    i: int,
    acc: Seq<(Seq<char>, JsonV)>,
) -> Result<(Seq<(Seq<char>, JsonV)>, int), JsonErrorV>
    decreases ts.len() - i, 1int,
{
    if i >= ts.len() || !(ts[i] is Text) {
        Err(JsonErrorV::UnexpectedToken)
    } else {
        let key = ts[i]->Text_0;
        if i + 1 >= ts.len() || !(ts[i + 1] is Colon) {
            Err(JsonErrorV::UnexpectedToken)
        } else if i + 2 >= ts.len() {
            Err(JsonErrorV::UnexpectedToken)
        } else {
            match spec_parse_value(ts, i + 2) {
                Err(e) => Err(JsonErrorV::InField(key, Box::new(e))),
                Ok((v, e)) => {
                    let acc2 = upsert_pair(acc, key, v);
                    if e < i {
                        Err(JsonErrorV::UnexpectedToken)
                    } else if e + 1 >= ts.len() {
                        Err(JsonErrorV::UnexpectedToken)
                    } else if ts[e + 1] is Comma {
                        if e + 2 >= ts.len() {
                            Err(JsonErrorV::UnexpectedToken)
                        } else if ts[e + 2] is CurlyClose {
                            Err(JsonErrorV::TrailingComma)
                        } else if ts[e + 2] is Text {
                            spec_parse_members(ts, e + 2, acc2)
                        } else {
                            Err(JsonErrorV::UnexpectedToken)
                        }
                    } else if ts[e + 1] is CurlyClose {
                        Ok((acc2, e + 1))
                    } else {
                        Err(JsonErrorV::UnexpectedToken)
                    }
                },
            }
        }
    }
}

/// The array elements starting at token `i`, appended to `acc`, up to the
/// closing bracket.
pub open spec fn spec_parse_elements(
    ts: Seq<SpecToken>,
    i: int,
    acc: Seq<JsonV>,
) -> Result<(Seq<JsonV>, int), JsonErrorV>
    decreases ts.len() - i, 1int,
{
    match spec_parse_value(ts, i) {
        Err(e) => Err(e),
        Ok((v, e)) => {
            let acc2 = acc.push(v);
            if e < i {
                Err(JsonErrorV::UnexpectedToken)
            } else if e + 1 >= ts.len() {
                Err(JsonErrorV::UnexpectedToken)
            } else if ts[e + 1] is Comma {
                if e + 2 >= ts.len() {
                    Err(JsonErrorV::UnexpectedToken)
                } else if ts[e + 2] is BracketClose {
                    Err(JsonErrorV::TrailingComma)
                } else {
                    spec_parse_elements(ts, e + 2, acc2)
                }
            } else if ts[e + 1] is BracketClose {
                Ok((acc2, e + 1))
            } else {
                Err(JsonErrorV::UnexpectedToken)
            }
        },
    }
}

/// The value a whole byte buffer parses to: lex, parse one value from
/// index 0, and demand that it ends at the last token.
pub open spec fn spec_parse(s: Seq<u8>) -> Result<JsonV, JsonErrorV> {
    match spec_tokenise(s) {
        Err(e) => Err(e),
        Ok(ts) => {
            if ts.len() == 0 {
                Err(JsonErrorV::UnexpectedToken)
            } else {
                match spec_parse_value(ts, 0) {
                    Err(e) => Err(e),
                    Ok((v, e)) => {
                        if e == ts.len() - 1 {
                            Ok(v)
                        } else {
                            Err(JsonErrorV::TrailingData)
                        }
                    },
                }
            }
        },
    }
}

/// Parses the value starting at token `ind`, returning it with the index
/// of its last token: exactly what the grammar (`spec_parse_value`) says.
pub fn parse_value(data: &Vec<Token>, ind: usize) -> (r: Result<(Json, usize), JsonError>)
    ensures
        match r {
            Ok(p) => {
                &&& spec_parse_value(token_views(data@), ind as int) == Ok::<
                    (JsonV, int),
                    JsonErrorV,
                >((jview(p.0), p.1 as int))
                &&& ind <= p.1 < data@.len()
                &&& json_wf(p.0)
            },
            Err(e) => spec_parse_value(token_views(data@), ind as int) == Err::<
                (JsonV, int),
                JsonErrorV,
            >(e@),
        },
    decreases data@.len() - ind, 0int,
{
    let ghost ts = token_views(data@);
    if ind >= data.len() {
        return Err(JsonError::UnexpectedToken);
    }
    proof {
        assert(ts[ind as int] == data@[ind as int]@);
    }
    match &data[ind] {
        Token::Bool(b) => Ok((Json::Bool(*b), ind)),
        Token::Null => Ok((Json::Null, ind)),
        Token::Text(t) => Ok((Json::Text(t.clone()), ind)),
        Token::Int(n) => Ok((Json::Number(JsonNumber::Int(*n)), ind)),
        Token::Float(t) => Ok((Json::Number(JsonNumber::Float(t.clone())), ind)),
        Token::CurlyOpen => {
            if ind + 1 >= data.len() {
                return Err(JsonError::UnexpectedToken);
            }
            proof {
                assert(ts[ind + 1] == data@[ind as int + 1]@);
            }
            if matches!(&data[ind + 1], Token::CurlyClose) {
                return Err(JsonError::EmptyObjectNotPermitted);
            }
            if !matches!(&data[ind + 1], Token::Text(_)) {
                return Err(JsonError::UnexpectedToken);
            }
            match parse_members(data, ind + 1, JsonObject::new()) {
                Ok(p) => {
                    let (obj, e) = p;
                    Ok((Json::Object(obj), e))
                },
                Err(er) => Err(er),
            }
        },
        Token::BracketOpen => {
            if ind + 1 >= data.len() {
                return Err(JsonError::UnexpectedToken);
            }
            proof {
                assert(ts[ind + 1] == data@[ind as int + 1]@);
            }
            if matches!(&data[ind + 1], Token::BracketClose) {
                let empty: Vec<Json> = Vec::new();
                proof {
                    assert(jview_list(empty@) =~= Seq::<JsonV>::empty());
                }
                return Ok((Json::List(empty), ind + 1));
            }
            match parse_elements(data, ind + 1, Vec::new()) {
                Ok(p) => {
                    let (vs, e) = p;
                    Ok((Json::List(vs), e))
                },
                Err(er) => Err(er),
            }
        },
        _ => Err(JsonError::UnexpectedToken),
    }
}

/// Parses object members from token `ind` onto `acc`: exactly what the
/// grammar (`spec_parse_members`) says.
pub fn parse_members(data: &Vec<Token>, ind: usize, acc: JsonObject) -> (r: Result<
    (JsonObject, usize),
    JsonError,
>)
    requires
        acc.wf(),
        json_wf_pairs(acc.entries@),
    ensures
        match r {
            Ok(p) => {
                &&& spec_parse_members(token_views(data@), ind as int, acc@) == Ok::<
                    (Seq<(Seq<char>, JsonV)>, int),
                    JsonErrorV,
                >((p.0@, p.1 as int))
                &&& ind <= p.1 < data@.len()
                &&& p.0.wf()
                &&& json_wf_pairs(p.0.entries@)
            },
            Err(e) => spec_parse_members(token_views(data@), ind as int, acc@) == Err::<
                (Seq<(Seq<char>, JsonV)>, int),
                JsonErrorV,
            >(e@),
        },
    decreases data@.len() - ind, 1int,
{
    let ghost ts = token_views(data@);
    if ind >= data.len() {
        return Err(JsonError::UnexpectedToken);
    }
    proof {
        assert(ts[ind as int] == data@[ind as int]@);
    }
    let key = match &data[ind] {
        Token::Text(k) => k.clone(),
        _ => {
            return Err(JsonError::UnexpectedToken);
        },
    };
    if ind + 1 >= data.len() {
        return Err(JsonError::UnexpectedToken);
    }
    proof {
        assert(ts[ind + 1] == data@[ind as int + 1]@);
    }
    if !matches!(&data[ind + 1], Token::Colon) {
        return Err(JsonError::UnexpectedToken);
    }
    if ind + 2 >= data.len() {
        return Err(JsonError::UnexpectedToken);
    }
    match parse_value(data, ind + 2) {
        Err(e) => Err(JsonError::InField(key, Box::new(e))),
        Ok(p) => {
            let (v, e) = p;
            let mut obj = acc;
            obj.upsert(key, v);
            if e + 1 >= data.len() {
                return Err(JsonError::UnexpectedToken);
            }
            proof {
                assert(ts[e + 1] == data@[e as int + 1]@);
            }
            match &data[e + 1] {
                Token::Comma => {
                    if e + 2 >= data.len() {
                        return Err(JsonError::UnexpectedToken);
                    }
                    proof {
                        assert(ts[e + 2] == data@[e as int + 2]@);
                    }
                    match &data[e + 2] {
                        Token::CurlyClose => Err(JsonError::TrailingComma),
                        Token::Text(_) => parse_members(data, e + 2, obj),
                        _ => Err(JsonError::UnexpectedToken),
                    }
                },
                Token::CurlyClose => Ok((obj, e + 1)),
                _ => Err(JsonError::UnexpectedToken),
            }
        },
    }
}

/// Parses array elements from token `ind` onto `acc`: exactly what the
/// grammar (`spec_parse_elements`) says.
pub fn parse_elements(data: &Vec<Token>, ind: usize, acc: Vec<Json>) -> (r: Result<
    (Vec<Json>, usize),
    JsonError,
>)
    requires
        json_wf_list(acc@),
    ensures
        match r {
            Ok(p) => {
                &&& spec_parse_elements(token_views(data@), ind as int, jview_list(acc@)) == Ok::<
                    (Seq<JsonV>, int),
                    JsonErrorV,
                >((jview_list(p.0@), p.1 as int))
                &&& ind <= p.1 < data@.len()
                &&& json_wf_list(p.0@)
            },
            Err(e) => spec_parse_elements(token_views(data@), ind as int, jview_list(acc@))
                == Err::<(Seq<JsonV>, int), JsonErrorV>(e@),
        },
    decreases data@.len() - ind, 1int,
{
    let ghost ts = token_views(data@);
    match parse_value(data, ind) {
        Err(e) => Err(e),
        Ok(p) => {
            let (v, e) = p;
            proof {
                vstd::std_specs::vec::axiom_spec_len(data);
                assert(ind <= e < data@.len());
            }
            let ghost acc0 = jview_list(acc@);
            let mut vs = acc;
            proof {
                lemma_jview_list(vs@);
                lemma_json_wf_list(vs@);
            }
            vs.push(v);
            proof {
                lemma_jview_list(vs@);
                lemma_json_wf_list(vs@);
                assert(jview_list(vs@) =~= acc0.push(jview(v)));
                assert(json_wf_list(vs@));
            }
            if e + 1 >= data.len() {
                return Err(JsonError::UnexpectedToken);
            }
            proof {
                assert(ts[e + 1] == data@[e as int + 1]@);
            }
            match &data[e + 1] {
                Token::Comma => {
                    if e + 2 >= data.len() {
                        return Err(JsonError::UnexpectedToken);
                    }
                    proof {
                        assert(ts[e + 2] == data@[e as int + 2]@);
                    }
                    if matches!(&data[e + 2], Token::BracketClose) {
                        return Err(JsonError::TrailingComma);
                    }
                    parse_elements(data, e + 2, vs)
                },
                Token::BracketClose => Ok((vs, e + 1)),
                _ => Err(JsonError::UnexpectedToken),
            }
        },
    }
}

impl Json {
    /// Parses JSON text: exactly `parse` on the text's UTF-8 bytes.
    pub fn from_str(s: &str) -> (r: Result<Json, JsonError>)
        ensures
            match r {
                Ok(v) => spec_parse(vstd::utf8::encode_utf8(s@)) == Ok::<JsonV, JsonErrorV>(
                    jview(v),
                ) && json_wf(v),
                Err(e) => spec_parse(vstd::utf8::encode_utf8(s@)) == Err::<JsonV, JsonErrorV>(e@),
            },
    {
        Json::parse(s.as_bytes())
    }

    /// Parses a byte buffer to the JSON value the grammar (`spec_parse`)
    /// assigns to it, or returns exactly the grammar's first error.
    pub fn parse(data: &[u8]) -> (r: Result<Json, JsonError>)
        ensures
            match r {
                Ok(v) => spec_parse(data@) == Ok::<JsonV, JsonErrorV>(jview(v)) && json_wf(v),
                Err(e) => spec_parse(data@) == Err::<JsonV, JsonErrorV>(e@),
            },
    {
        match tokenise(data) {
            Err(e) => Err(e),
            Ok(tokens) => {
                if tokens.len() == 0 {
                    proof {
                        assert(token_views(tokens@) =~= Seq::<SpecToken>::empty());
                    }
                    Err(JsonError::UnexpectedToken)
                } else {
                    proof {
                        assert(token_views(tokens@).len() == tokens@.len());
                    }
                    match parse_value(&tokens, 0) {
                        Err(e) => Err(e),
                        Ok(p) => {
                            let (v, e) = p;
                            if e == tokens.len() - 1 {
                                Ok(v)
                            } else {
                                Err(JsonError::TrailingData)
                            }
                        },
                    }
                }
            },
        }
    }
}

} // verus!
