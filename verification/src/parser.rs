use vstd::prelude::*;
use crate::ast::{BinaryOp, Expr, MemberOp, QuantKind, SpecExpr, UnaryOp};
use crate::error::{decimal, Error, SpecError};
use crate::ast::{lemma_view_exprs, lemma_view_exprs_push, view_exprs, view_strings};
use crate::error::decimal_chars;
use crate::lexer::{lex_step, Lexer, SpecToken, SpecTokenKind, Token, TokenKind};
use crate::text::{chars_string, push_all, push_str, str_chars, text_eq};

verus! {

/// The tokens of a text as the parser asks for them: every token up to and including the end
/// marker, or, where a character starts no token, the tokens before it and the error there.
pub struct TokenStream {
    pub toks: Seq<SpecToken>,
    pub err: Option<SpecError>,
}

/// The tokens of `s` read from index `i`.
pub open spec fn lex_from(s: Seq<char>, i: nat) -> TokenStream
    decreases s.len() + 1 - i,
{
    match lex_step(s, i) {
        Err(e) => TokenStream { toks: Seq::empty(), err: Some(e) },
        Ok((t, j)) => if t.kind is End {
            TokenStream { toks: seq![t], err: None }
        } else {
            proof {
                crate::lexer::lemma_lex_step_progress(s, i);
            }
            let rest = lex_from(s, j);
            TokenStream { toks: seq![t] + rest.toks, err: rest.err }
        },
    }
}

/// The tokens of `s`.
pub open spec fn lex_stream(s: Seq<char>) -> TokenStream {
    lex_from(s, 0)
}

/// The end marker comes last and only there, and exactly when no character was refused.
pub open spec fn stream_wf(ts: TokenStream) -> bool {
    &&& forall|i: int| 0 <= i < ts.toks.len() - 1 ==> !(#[trigger] ts.toks[i].kind is End)
    &&& (ts.err is None <==> (ts.toks.len() > 0 && ts.toks.last().kind is End))
}

/// Every token stream read from a text is well formed.
pub proof fn lemma_lex_from_wf(s: Seq<char>, i: nat)
    ensures
        stream_wf(lex_from(s, i)),
    decreases s.len() + 1 - i,
{
    match lex_step(s, i) {
        Err(e) => {},
        Ok((t, j)) => if !(t.kind is End) {
            crate::lexer::lemma_lex_step_progress(s, i);
            lemma_lex_from_wf(s, j);
            let rest = lex_from(s, j);
            let all = seq![t] + rest.toks;
            assert forall|k: int| 0 <= k < all.len() - 1 implies !(#[trigger] all[k].kind is End) by {
                if k > 0 {
                    assert(all[k] == rest.toks[k - 1]);
                }
            }
            if rest.toks.len() > 0 {
                assert(all.last() == rest.toks.last());
            }
        },
    }
}

/// A string as `Debug` prints its contents: backslashes and quotes escaped.
pub open spec fn debug_text(x: Seq<char>) -> Seq<char>
    decreases x.len(),
{
    if x.len() == 0 {
        Seq::empty()
    } else {
        (if x[0] == '\\' || x[0] == '"' {
            seq!['\\', x[0]]
        } else {
            seq![x[0]]
        }) + debug_text(x.drop_first())
    }
}

/// A token kind as `Debug` prints it.
pub open spec fn describe(k: SpecTokenKind) -> Seq<char> {
    match k {
        SpecTokenKind::Ident(x) => "Ident(\""@ + debug_text(x) + "\")"@,
        SpecTokenKind::Number(x) => "Number(\""@ + debug_text(x) + "\")"@,
        SpecTokenKind::Op(x) => "Op(\""@ + debug_text(x) + "\")"@,
        SpecTokenKind::LParen => "LParen"@,
        SpecTokenKind::RParen => "RParen"@,
        SpecTokenKind::LBracket => "LBracket"@,
        SpecTokenKind::RBracket => "RBracket"@,
        SpecTokenKind::Comma => "Comma"@,
        SpecTokenKind::Semicolon => "Semicolon"@,
        SpecTokenKind::Question => "Question"@,
        SpecTokenKind::Colon => "Colon"@,
        SpecTokenKind::KwForall => "KwForall"@,
        SpecTokenKind::KwExists => "KwExists"@,
        SpecTokenKind::End => "End"@,
    }
}

/// The error for a token that cannot stand where it stands.
pub open spec fn unexpected(t: SpecToken) -> SpecError {
    SpecError::Parse("unexpected token "@ + describe(t.kind) + " at "@ + decimal(t.pos))
}

/// The error for a token where another was required.
pub open spec fn expected(want: SpecTokenKind, t: SpecToken) -> SpecError {
    SpecError::Parse(
        "expected "@ + describe(want) + ", found "@ + describe(t.kind) + " at "@ + decimal(t.pos),
    )
}

/// The error for reading past the last token, which the parser never does.
pub open spec fn past_end() -> SpecError {
    SpecError::Parse("unexpected end of input"@)
}

/// The index of the token after `k`, or the error that stopped the reading there.
pub open spec fn next_index(ts: TokenStream, k: nat) -> Result<nat, SpecError> {
    if k + 1 < ts.toks.len() {
        Ok(k + 1)
    } else {
        match ts.err {
            Some(e) => Err(e),
            None => Err(past_end()),
        }
    }
}

/// The prefix operator that an operator spelling stands for.
pub open spec fn unary_of(o: Seq<char>) -> Option<UnaryOp> {
    if o.len() == 1 && o[0] == '!' {
        Some(UnaryOp::Not)
    } else if o.len() == 1 && o[0] == '-' {
        Some(UnaryOp::Neg)
    } else if o.len() == 1 && o[0] == '+' {
        Some(UnaryOp::Pos)
    } else {
        None
    }
}

/// The infix operator that an operator spelling stands for.
pub open spec fn binop_of(o: Seq<char>) -> Option<BinaryOp> {
    if o.len() == 1 && o[0] == '*' {
        Some(BinaryOp::Mul)
    } else if o.len() == 1 && o[0] == '/' {
        Some(BinaryOp::Div)
    } else if o.len() == 1 && o[0] == '%' {
        Some(BinaryOp::Mod)
    } else if o.len() == 1 && o[0] == '+' {
        Some(BinaryOp::Add)
    } else if o.len() == 1 && o[0] == '-' {
        Some(BinaryOp::Sub)
    } else if o.len() == 1 && o[0] == '<' {
        Some(BinaryOp::Lt)
    } else if o.len() == 2 && o[0] == '<' && o[1] == '=' {
        Some(BinaryOp::Le)
    } else if o.len() == 1 && o[0] == '>' {
        Some(BinaryOp::Gt)
    } else if o.len() == 2 && o[0] == '>' && o[1] == '=' {
        Some(BinaryOp::Ge)
    } else if o.len() == 2 && o[0] == '=' && o[1] == '=' {
        Some(BinaryOp::Eq)
    } else if o.len() == 2 && o[0] == '!' && o[1] == '=' {
        Some(BinaryOp::Ne)
    } else if o.len() == 2 && o[0] == '&' && o[1] == '&' {
        Some(BinaryOp::And)
    } else if o.len() == 2 && o[0] == '|' && o[1] == '|' {
        Some(BinaryOp::Or)
    } else if o.len() == 3 && o[0] == '=' && o[1] == '=' && o[2] == '>' {
        Some(BinaryOp::Implies)
    } else if o.len() == 4 && o[0] == '<' && o[1] == '=' && o[2] == '=' && o[3] == '>' {
        Some(BinaryOp::Iff)
    } else {
        None
    }
}

/// The member access that an operator spelling stands for.
pub open spec fn member_of(o: Seq<char>) -> Option<MemberOp> {
    if o.len() == 1 && o[0] == '.' {
        Some(MemberOp::Dot)
    } else if o.len() == 2 && o[0] == '-' && o[1] == '>' {
        Some(MemberOp::Arrow)
    } else {
        None
    }
}

/// The binding power of a prefix operator's operand: tighter than every infix operator, so
/// `-a * b` reads as `(-a) * b`.
pub open spec fn unary_rbp() -> nat {
    10
}

/// Left and right binding power of an infix operator.
pub open spec fn left_bp(op: BinaryOp) -> nat {
    op.spec_precedence() as nat
}

pub open spec fn right_bp(op: BinaryOp) -> nat {
    match op.spec_assoc() {
        crate::ast::Assoc::Left => op.spec_precedence() as nat + 1,
        crate::ast::Assoc::Right => op.spec_precedence() as nat,
    }
}

/// A result index lies after `k` and within the stream.
pub open spec fn advanced(ts: TokenStream, k: nat, k2: nat) -> bool {
    k < k2 < ts.toks.len()
}

/// Reads an expression at token `k` whose infix operators bind at least as strongly as `min`:
/// the expression and the index of the first token after it.
pub open spec fn parse_bp(ts: TokenStream, k: nat, min: nat) -> Result<(SpecExpr, nat), SpecError>
    decreases ts.toks.len() - k, 3nat,
{
    if k >= ts.toks.len() {
        Err(past_end())
    } else {
        let t = ts.toks[k as int];
        match t.kind {
            SpecTokenKind::Ident(n) => match next_index(ts, k) {
                Err(e) => Err(e),
                Ok(k1) => parse_loop(ts, k1, SpecExpr::Ident(n), min),
            },
            SpecTokenKind::Number(n) => match next_index(ts, k) {
                Err(e) => Err(e),
                Ok(k1) => parse_loop(ts, k1, SpecExpr::Number(n), min),
            },
            SpecTokenKind::Op(o) => if unary_of(o) is Some {
                match next_index(ts, k) {
                    Err(e) => Err(e),
                    Ok(k1) => match parse_bp(ts, k1, unary_rbp()) {
                        Err(e) => Err(e),
                        Ok((e, k2)) => if advanced(ts, k, k2) {
                            parse_loop(
                                ts,
                                k2,
                                SpecExpr::Unary { op: unary_of(o)->0, expr: Box::new(e) },
                                min,
                            )
                        } else {
                            Err(past_end())
                        },
                    },
                }
            } else {
                Err(unexpected(t))
            },
            SpecTokenKind::LParen => match next_index(ts, k) {
                Err(e) => Err(e),
                Ok(k1) => match parse_bp(ts, k1, 0) {
                    Err(e) => Err(e),
                    Ok((e, k2)) => if !advanced(ts, k, k2) {
                        Err(past_end())
                    } else if ts.toks[k2 as int].kind is RParen {
                        match next_index(ts, k2) {
                            Err(er) => Err(er),
                            Ok(k3) => parse_loop(ts, k3, e, min),
                        }
                    } else {
                        Err(expected(SpecTokenKind::RParen, ts.toks[k2 as int]))
                    },
                },
            },
            SpecTokenKind::KwForall => parse_quant(ts, k, QuantKind::Forall, min),
            SpecTokenKind::KwExists => parse_quant(ts, k, QuantKind::Exists, min),
            _ => Err(unexpected(t)),
        }
    }
}

/// Reads a quantifier whose keyword is token `k`: binders, `;`, and a body that reaches as
/// far as any expression can.
pub open spec fn parse_quant(ts: TokenStream, k: nat, kind: QuantKind, min: nat) -> Result<
    (SpecExpr, nat),
    SpecError,
>
    decreases ts.toks.len() - k, 2nat,
{
    if k >= ts.toks.len() {
        Err(past_end())
    } else {
        match next_index(ts, k) {
            Err(e) => Err(e),
            Ok(k1) => match parse_binders(ts, k1, Seq::empty()) {
                Err(e) => Err(e),
                Ok((vars, k2)) => if !advanced(ts, k, k2) {
                    Err(past_end())
                } else {
                    match next_index(ts, k2) {
                        Err(e) => Err(e),
                        Ok(k3) => match parse_bp(ts, k3, 0) {
                            Err(e) => Err(e),
                            Ok((body, k4)) => if advanced(ts, k, k4) {
                                parse_loop(
                                    ts,
                                    k4,
                                    SpecExpr::Quant { kind, vars, body: Box::new(body) },
                                    min,
                                )
                            } else {
                                Err(past_end())
                            },
                        },
                    }
                },
            },
        }
    }
}

/// Joins the words of a binder, such as a type and a name, with single spaces.
pub open spec fn add_word(acc: Seq<char>, w: Seq<char>) -> Seq<char> {
    if acc.len() == 0 {
        w
    } else {
        acc + seq![' '] + w
    }
}

/// Reads one binder, a run of names, from token `k`: its text and the index after it.
pub open spec fn parse_words(ts: TokenStream, k: nat, acc: Seq<char>) -> Result<(Seq<char>, nat), SpecError>
    decreases ts.toks.len() - k,
{
    if k >= ts.toks.len() {
        Err(past_end())
    } else {
        let t = ts.toks[k as int];
        match t.kind {
            SpecTokenKind::Ident(w) => match next_index(ts, k) {
                Err(e) => Err(e),
                Ok(k1) => if ts.toks[k1 as int].kind is Ident {
                    parse_words(ts, k1, add_word(acc, w))
                } else {
                    Ok((add_word(acc, w), k1))
                },
            },
            _ => Err(unexpected(t)),
        }
    }
}

/// Reads binders separated by commas from token `k`, up to the `;` that ends them: the binders
/// and the index of that `;`.
pub open spec fn parse_binders(ts: TokenStream, k: nat, acc: Seq<Seq<char>>) -> Result<
    (Seq<Seq<char>>, nat),
    SpecError,
>
    decreases ts.toks.len() - k,
{
    match parse_words(ts, k, Seq::empty()) {
        Err(e) => Err(e),
        Ok((w, k1)) => if !advanced(ts, k, k1) {
            Err(past_end())
        } else {
            let t = ts.toks[k1 as int];
            match t.kind {
                SpecTokenKind::Comma => match next_index(ts, k1) {
                    Err(e) => Err(e),
                    Ok(k2) => parse_binders(ts, k2, acc.push(w)),
                },
                SpecTokenKind::Semicolon => Ok((acc.push(w), k1)),
                _ => Err(expected(SpecTokenKind::Semicolon, t)),
            }
        },
    }
}

/// Extends `lhs` with the postfix and infix operators that follow at token `k`, as long as
/// they bind at least as strongly as `min`.
pub open spec fn parse_loop(ts: TokenStream, k: nat, lhs: SpecExpr, min: nat) -> Result<
    (SpecExpr, nat),
    SpecError,
>
    decreases ts.toks.len() - k, 2nat,
{
    if k >= ts.toks.len() {
        Err(past_end())
    } else {
        let t = ts.toks[k as int];
        match t.kind {
            SpecTokenKind::Op(o) => if member_of(o) is Some {
                match next_index(ts, k) {
                    Err(e) => Err(e),
                    Ok(k1) => match ts.toks[k1 as int].kind {
                        SpecTokenKind::Ident(f) => match next_index(ts, k1) {
                            Err(e) => Err(e),
                            Ok(k2) => parse_loop(
                                ts,
                                k2,
                                SpecExpr::Member { base: Box::new(lhs), op: member_of(o)->0, field: f },
                                min,
                            ),
                        },
                        _ => Err(unexpected(ts.toks[k1 as int])),
                    },
                }
            } else if binop_of(o) is Some {
                let op = binop_of(o)->0;
                if left_bp(op) < min {
                    Ok((lhs, k))
                } else {
                    match next_index(ts, k) {
                        Err(e) => Err(e),
                        Ok(k1) => match parse_bp(ts, k1, right_bp(op)) {
                            Err(e) => Err(e),
                            Ok((rhs, k2)) => if advanced(ts, k, k2) {
                                parse_loop(
                                    ts,
                                    k2,
                                    SpecExpr::Binary { op, left: Box::new(lhs), right: Box::new(rhs) },
                                    min,
                                )
                            } else {
                                Err(past_end())
                            },
                        },
                    }
                }
            } else {
                Ok((lhs, k))
            },
            SpecTokenKind::Question => if 1 < min {
                Ok((lhs, k))
            } else {
                match next_index(ts, k) {
                    Err(e) => Err(e),
                    Ok(k1) => match parse_bp(ts, k1, 0) {
                        Err(e) => Err(e),
                        Ok((then_e, k2)) => if !advanced(ts, k, k2) {
                            Err(past_end())
                        } else if ts.toks[k2 as int].kind is Colon {
                            match next_index(ts, k2) {
                                Err(e) => Err(e),
                                Ok(k3) => match parse_bp(ts, k3, 1) {
                                    Err(e) => Err(e),
                                    Ok((else_e, k4)) => if advanced(ts, k, k4) {
                                        parse_loop(
                                            ts,
                                            k4,
                                            SpecExpr::Ternary {
                                                cond: Box::new(lhs),
                                                then_expr: Box::new(then_e),
                                                else_expr: Box::new(else_e),
                                            },
                                            min,
                                        )
                                    } else {
                                        Err(past_end())
                                    },
                                },
                            }
                        } else {
                            Err(expected(SpecTokenKind::Colon, ts.toks[k2 as int]))
                        },
                    },
                }
            },
            SpecTokenKind::LParen => match next_index(ts, k) {
                Err(e) => Err(e),
                Ok(k1) => match parse_args(ts, k1, Seq::empty()) {
                    Err(e) => Err(e),
                    Ok((args, k2)) => if advanced(ts, k, k2) {
                        parse_loop(ts, k2, SpecExpr::Call { callee: Box::new(lhs), args }, min)
                    } else {
                        Err(past_end())
                    },
                },
            },
            SpecTokenKind::LBracket => match next_index(ts, k) {
                Err(e) => Err(e),
                Ok(k1) => match parse_bp(ts, k1, 0) {
                    Err(e) => Err(e),
                    Ok((index, k2)) => if !advanced(ts, k, k2) {
                        Err(past_end())
                    } else if ts.toks[k2 as int].kind is RBracket {
                        match next_index(ts, k2) {
                            Err(e) => Err(e),
                            Ok(k3) => parse_loop(
                                ts,
                                k3,
                                SpecExpr::Index { base: Box::new(lhs), index: Box::new(index) },
                                min,
                            ),
                        }
                    } else {
                        Err(expected(SpecTokenKind::RBracket, ts.toks[k2 as int]))
                    },
                },
            },
            _ => Ok((lhs, k)),
        }
    }
}

/// Reads call arguments from token `k`, after `acc`, through the closing `)`: the arguments and
/// the index after the `)`.
pub open spec fn parse_args(ts: TokenStream, k: nat, acc: Seq<SpecExpr>) -> Result<
    (Seq<SpecExpr>, nat),
    SpecError,
>
    decreases ts.toks.len() - k, 4nat,
{
    if k >= ts.toks.len() {
        Err(past_end())
    } else if acc.len() == 0 && ts.toks[k as int].kind is RParen {
        match next_index(ts, k) {
            Err(e) => Err(e),
            Ok(k1) => Ok((acc, k1)),
        }
    } else {
        match parse_bp(ts, k, 0) {
            Err(e) => Err(e),
            Ok((a, k1)) => if !advanced(ts, k, k1) {
                Err(past_end())
            } else {
                let t = ts.toks[k1 as int];
                match t.kind {
                    SpecTokenKind::Comma => match next_index(ts, k1) {
                        Err(e) => Err(e),
                        Ok(k2) => parse_args(ts, k2, acc.push(a)),
                    },
                    SpecTokenKind::RParen => match next_index(ts, k1) {
                        Err(e) => Err(e),
                        Ok(k2) => Ok((acc.push(a), k2)),
                    },
                    _ => Err(expected(SpecTokenKind::RParen, t)),
                }
            },
        }
    }
}

/// The expression at token `k` that reaches to the end marker.
pub open spec fn parse_from(ts: TokenStream, k: nat) -> Result<SpecExpr, SpecError> {
    match parse_bp(ts, k, 0) {
        Err(e) => Err(e),
        Ok((e, k2)) => if k2 < ts.toks.len() && ts.toks[k2 as int].kind is End {
            Ok(e)
        } else if k2 < ts.toks.len() {
            Err(unexpected(ts.toks[k2 as int]))
        } else {
            Err(past_end())
        },
    }
}

/// A whole token stream read as one expression.
pub open spec fn parse_stream(ts: TokenStream) -> Result<SpecExpr, SpecError> {
    if ts.toks.len() == 0 {
        match ts.err {
            Some(e) => Err(e),
            None => Err(past_end()),
        }
    } else {
        parse_from(ts, 0)
    }
}

/// A whole text read as one expression.
pub open spec fn parse_text(s: Seq<char>) -> Result<SpecExpr, SpecError> {
    parse_stream(lex_stream(s))
}


/// The models of a list of tokens.
pub open spec fn token_views(v: Seq<Token>) -> Seq<SpecToken> {
    v.map_values(|t: Token| t@)
}

/// The model of an optional error.
pub open spec fn error_view(e: Option<Error>) -> Option<SpecError> {
    match e {
        Some(x) => Some(x@),
        None => None,
    }
}

/// A copy of an error.
pub fn copy_error(e: &Error) -> (r: Error)
    ensures
        r@ == e@,
{
    match e {
        Error::Lex(m) => Error::Lex(m.clone()),
        Error::Parse(m) => Error::Parse(m.clone()),
    }
}

/// A copy of a token kind.
pub fn copy_kind(k: &TokenKind) -> (r: TokenKind)
    ensures
        r@ == k@,
{
    match k {
        TokenKind::Ident(x) => TokenKind::Ident(x.clone()),
        TokenKind::Number(x) => TokenKind::Number(x.clone()),
        TokenKind::Op(x) => TokenKind::Op(x.clone()),
        TokenKind::LParen => TokenKind::LParen,
        TokenKind::RParen => TokenKind::RParen,
        TokenKind::LBracket => TokenKind::LBracket,
        TokenKind::RBracket => TokenKind::RBracket,
        TokenKind::Comma => TokenKind::Comma,
        TokenKind::Semicolon => TokenKind::Semicolon,
        TokenKind::Question => TokenKind::Question,
        TokenKind::Colon => TokenKind::Colon,
        TokenKind::KwForall => TokenKind::KwForall,
        TokenKind::KwExists => TokenKind::KwExists,
        TokenKind::End => TokenKind::End,
    }
}

/// Appends a string's characters as `Debug` prints them between quotes.
fn push_debug_text(r: &mut Vec<char>, x: &String)
    ensures
        final(r)@ == old(r)@ + debug_text(x@),
{
    let v = str_chars(x.as_str());
    let ghost r0 = r@;
    let mut i: usize = 0;
    proof {
        assert(v@.skip(0) =~= v@);
    }
    while i < v.len()
        invariant
            i <= v.len(),
            v@ == x@,
            r@ + debug_text(v@.skip(i as int)) == r0 + debug_text(v@),
        decreases v.len() - i,
    {
        let ghost rest = v@.skip(i as int);
        assert(rest.drop_first() =~= v@.skip(i + 1));
        let ghost r1 = r@;
        let c = v[i];
        if c == '\\' || c == '"' {
            r.push('\\');
        }
        r.push(c);
        i += 1;
        assert(r@ + debug_text(v@.skip(i as int)) =~= r1 + debug_text(rest));
    }
    assert(v@.skip(i as int) =~= Seq::<char>::empty());
    assert(r@ + debug_text(v@.skip(i as int)) =~= r@);
}

/// A token kind as `Debug` prints it.
fn describe_kind(k: &TokenKind) -> (r: Vec<char>)
    ensures
        r@ == describe(k@),
{
    let mut r: Vec<char> = Vec::new();
    match k {
        TokenKind::Ident(x) => {
            push_str(&mut r, "Ident(\"");
            push_debug_text(&mut r, x);
            push_str(&mut r, "\")");
        },
        TokenKind::Number(x) => {
            push_str(&mut r, "Number(\"");
            push_debug_text(&mut r, x);
            push_str(&mut r, "\")");
        },
        TokenKind::Op(x) => {
            push_str(&mut r, "Op(\"");
            push_debug_text(&mut r, x);
            push_str(&mut r, "\")");
        },
        TokenKind::LParen => push_str(&mut r, "LParen"),
        TokenKind::RParen => push_str(&mut r, "RParen"),
        TokenKind::LBracket => push_str(&mut r, "LBracket"),
        TokenKind::RBracket => push_str(&mut r, "RBracket"),
        TokenKind::Comma => push_str(&mut r, "Comma"),
        TokenKind::Semicolon => push_str(&mut r, "Semicolon"),
        TokenKind::Question => push_str(&mut r, "Question"),
        TokenKind::Colon => push_str(&mut r, "Colon"),
        TokenKind::KwForall => push_str(&mut r, "KwForall"),
        TokenKind::KwExists => push_str(&mut r, "KwExists"),
        TokenKind::End => push_str(&mut r, "End"),
    }
    r
}

fn unexpected_error(t: &Token) -> (r: Error)
    ensures
        r@ == unexpected(t@),
{
    let mut m: Vec<char> = Vec::new();
    push_str(&mut m, "unexpected token ");
    let d = describe_kind(&t.kind);
    push_all(&mut m, &d);
    push_str(&mut m, " at ");
    let n = decimal_chars(t.pos);
    push_all(&mut m, &n);
    Error::Parse(chars_string(&m))
}

fn expected_error(want: &TokenKind, t: &Token) -> (r: Error)
    ensures
        r@ == expected(want@, t@),
{
    let mut m: Vec<char> = Vec::new();
    push_str(&mut m, "expected ");
    let d = describe_kind(want);
    push_all(&mut m, &d);
    push_str(&mut m, ", found ");
    let d2 = describe_kind(&t.kind);
    push_all(&mut m, &d2);
    push_str(&mut m, " at ");
    let n = decimal_chars(t.pos);
    push_all(&mut m, &n);
    Error::Parse(chars_string(&m))
}

fn past_end_error() -> (r: Error)
    ensures
        r@ == past_end(),
{
    Error::Parse(String::from_str("unexpected end of input"))
}

fn unary_op_of(o: &String) -> (r: Option<UnaryOp>)
    ensures
        r == unary_of(o@),
{
    let c = str_chars(o.as_str());
    if (c.len() == 1 && c[0] == '!') {
        Some(UnaryOp::Not)
    } else if (c.len() == 1 && c[0] == '-') {
        Some(UnaryOp::Neg)
    } else if (c.len() == 1 && c[0] == '+') {
        Some(UnaryOp::Pos)
    } else {
        None
    }
}

fn binary_op_of(o: &String) -> (r: Option<BinaryOp>)
    ensures
        r == binop_of(o@),
{
    let c = str_chars(o.as_str());
    if (c.len() == 1 && c[0] == '*') {
        Some(BinaryOp::Mul)
    } else if (c.len() == 1 && c[0] == '/') {
        Some(BinaryOp::Div)
    } else if (c.len() == 1 && c[0] == '%') {
        Some(BinaryOp::Mod)
    } else if (c.len() == 1 && c[0] == '+') {
        Some(BinaryOp::Add)
    } else if (c.len() == 1 && c[0] == '-') {
        Some(BinaryOp::Sub)
    } else if (c.len() == 1 && c[0] == '<') {
        Some(BinaryOp::Lt)
    } else if (c.len() == 2 && c[0] == '<' && c[1] == '=') {
        Some(BinaryOp::Le)
    } else if (c.len() == 1 && c[0] == '>') {
        Some(BinaryOp::Gt)
    } else if (c.len() == 2 && c[0] == '>' && c[1] == '=') {
        Some(BinaryOp::Ge)
    } else if (c.len() == 2 && c[0] == '=' && c[1] == '=') {
        Some(BinaryOp::Eq)
    } else if (c.len() == 2 && c[0] == '!' && c[1] == '=') {
        Some(BinaryOp::Ne)
    } else if (c.len() == 2 && c[0] == '&' && c[1] == '&') {
        Some(BinaryOp::And)
    } else if (c.len() == 2 && c[0] == '|' && c[1] == '|') {
        Some(BinaryOp::Or)
    } else if (c.len() == 3 && c[0] == '=' && c[1] == '=' && c[2] == '>') {
        Some(BinaryOp::Implies)
    } else if (c.len() == 4 && c[0] == '<' && c[1] == '=' && c[2] == '=' && c[3] == '>') {
        Some(BinaryOp::Iff)
    } else {
        None
    }
}

fn member_op_of(o: &String) -> (r: Option<MemberOp>)
    ensures
        r == member_of(o@),
{
    let c = str_chars(o.as_str());
    if (c.len() == 1 && c[0] == '.') {
        Some(MemberOp::Dot)
    } else if (c.len() == 2 && c[0] == '-' && c[1] == '>') {
        Some(MemberOp::Arrow)
    } else {
        None
    }
}

/// Binding powers of an infix operator.
fn infix_binding_power(op: BinaryOp) -> (r: (u8, u8))
    ensures
        r.0 as nat == left_bp(op),
        r.1 as nat == right_bp(op),
{
    let prec = op.precedence();
    match op.assoc() {
        crate::ast::Assoc::Left => (prec, prec + 1),
        crate::ast::Assoc::Right => (prec, prec),
    }
}

/// The tokens of `input`, up to the end marker or the first character that starts no token.
pub fn tokenize(input: &str) -> (r: (Vec<Token>, Option<Error>))
    ensures
        (TokenStream { toks: token_views(r.0@), err: error_view(r.1) }) == lex_stream(input@),
{
    let mut lexer = Lexer::new(input);
    let mut toks: Vec<Token> = Vec::new();
    let mut err: Option<Error> = None;
    let ghost s = input@;
    loop
        invariant_except_break
            err is None,
            (TokenStream {
                toks: token_views(toks@) + lex_from(s, lexer@.1).toks,
                err: lex_from(s, lexer@.1).err,
            }) == lex_stream(s),
        invariant
            lexer@.0 == s,
            lexer@.1 <= s.len(),
        ensures
            (TokenStream { toks: token_views(toks@), err: error_view(err) }) == lex_stream(s),
        decreases s.len() + 1 - lexer@.1,
    {
        let ghost i = lexer@.1;
        let ghost before = token_views(toks@);
        proof {
            crate::lexer::lemma_lex_step_progress(s, i);
        }
        match lexer.next_token() {
            Ok(t) => {
                let end = match t.kind {
                    TokenKind::End => true,
                    _ => false,
                };
                let ghost tv = t@;
                toks.push(t);
                assert(token_views(toks@) =~= before.push(tv));
                if end {
                    assert(token_views(toks@) =~= before + seq![tv]);
                    break;
                }
                let ghost j = lexer@.1;
                assert(before + lex_from(s, i).toks =~= token_views(toks@) + lex_from(s, j).toks);
            },
            Err(e) => {
                err = Some(e);
                assert(token_views(toks@) =~= before + lex_from(s, i).toks);
                break;
            },
        }
    }
    (toks, err)
}

/// Reads expressions from the tokens of a text.
pub struct Parser {
    tokens: Vec<Token>,
    lex_error: Option<Error>,
    pos: usize,
}

impl Parser {
    /// The tokens being read.
    pub closed spec fn stream(&self) -> TokenStream {
        TokenStream { toks: token_views(self.tokens@), err: error_view(self.lex_error) }
    }

    /// The index of the token being looked at.
    pub closed spec fn cursor(&self) -> nat {
        self.pos as nat
    }

    /// The tokens are those of a text, and the cursor looks at one of them.
    #[verifier::type_invariant]
    pub closed spec fn wf(&self) -> bool {
        &&& stream_wf(self.stream())
        &&& self.pos < self.tokens@.len()
    }

    pub fn new(input: &str) -> (r: Result<Parser, Error>)
        ensures
            lex_stream(input@).toks.len() == 0 ==> (r matches Err(e) && Some(e@) == lex_stream(
                input@,
            ).err),
            lex_stream(input@).toks.len() > 0 ==> (r matches Ok(p) && p.wf() && p.stream()
                == lex_stream(input@) && p.cursor() == 0),
    {
        let (tokens, lex_error) = tokenize(input);
        proof {
            lemma_lex_from_wf(input@, 0);
        }
        if tokens.len() == 0 {
            match lex_error {
                Some(e) => Err(e),
                None => Err(past_end_error()),
            }
        } else {
            Ok(Parser { tokens, lex_error, pos: 0 })
        }
    }

    /// A copy of the kind of the token being looked at.
    fn peek_kind(&self) -> (k: TokenKind)
        ensures
            k@ == self.stream().toks[self.cursor() as int].kind,
    {
        proof {
            use_type_invariant(&*self);
        }
        copy_kind(&self.tokens[self.pos].kind)
    }

    /// The error for the token being looked at.
    fn unexpected_here(&self) -> (e: Error)
        ensures
            e@ == unexpected(self.stream().toks[self.cursor() as int]),
    {
        proof {
            use_type_invariant(&*self);
        }
        unexpected_error(&self.tokens[self.pos])
    }

    /// The error for the token being looked at where `want` was required.
    fn expected_here(&self, want: TokenKind) -> (e: Error)
        ensures
            e@ == expected(want@, self.stream().toks[self.cursor() as int]),
    {
        proof {
            use_type_invariant(&*self);
        }
        expected_error(&want, &self.tokens[self.pos])
    }

    /// Moves to the next token.
    fn bump(&mut self) -> (r: Result<(), Error>)
        ensures
            final(self).stream() == old(self).stream(),
            final(self).wf(),
            match next_index(old(self).stream(), old(self).cursor()) {
                Ok(k1) => r is Ok && final(self).cursor() == k1,
                Err(e) => r matches Err(x) && x@ == e,
            },
    {
        proof {
            use_type_invariant(&*self);
        }
        if self.pos < self.tokens.len() - 1 {
            self.pos = self.pos + 1;
            Ok(())
        } else {
            match &self.lex_error {
                Some(e) => Err(copy_error(e)),
                None => Err(past_end_error()),
            }
        }
    }

    /// Moves past a token of kind `want`, or fails on the token being looked at.
    fn expect(&mut self, want: TokenKind) -> (r: Result<(), Error>)
        ensures
            final(self).stream() == old(self).stream(),
            final(self).wf(),
            if old(self).stream().toks[old(self).cursor() as int].kind == want@ {
                match next_index(old(self).stream(), old(self).cursor()) {
                    Ok(k1) => r is Ok && final(self).cursor() == k1,
                    Err(e) => r matches Err(x) && x@ == e,
                }
            } else {
                r matches Err(x) && x@ == expected(
                    want@,
                    old(self).stream().toks[old(self).cursor() as int],
                ) && final(self).cursor() == old(self).cursor()
            },
    {
        proof {
            use_type_invariant(&*self);
        }
        let here = self.peek_kind();
        if same_kind(&here, &want) {
            self.bump()
        } else {
            Err(self.expected_here(want))
        }
    }
}


/// Whether two texts are the same.
fn same_text(a: &String, b: &String) -> (r: bool)
    ensures
        r == (a@ == b@),
{
    let x = str_chars(a.as_str());
    let y = str_chars(b.as_str());
    crate::lexer::same_chars(&x, &y)
}

/// Whether two token kinds are the same.
fn same_kind(a: &TokenKind, b: &TokenKind) -> (r: bool)
    ensures
        r == (a@ == b@),
{
    match b {
        TokenKind::Ident(y) => match a {
            TokenKind::Ident(x) => same_text(x, y),
            _ => false,
        },
        TokenKind::Number(y) => match a {
            TokenKind::Number(x) => same_text(x, y),
            _ => false,
        },
        TokenKind::Op(y) => match a {
            TokenKind::Op(x) => same_text(x, y),
            _ => false,
        },
        TokenKind::LParen => matches!(a, TokenKind::LParen),
        TokenKind::RParen => matches!(a, TokenKind::RParen),
        TokenKind::LBracket => matches!(a, TokenKind::LBracket),
        TokenKind::RBracket => matches!(a, TokenKind::RBracket),
        TokenKind::Comma => matches!(a, TokenKind::Comma),
        TokenKind::Semicolon => matches!(a, TokenKind::Semicolon),
        TokenKind::Question => matches!(a, TokenKind::Question),
        TokenKind::Colon => matches!(a, TokenKind::Colon),
        TokenKind::KwForall => matches!(a, TokenKind::KwForall),
        TokenKind::KwExists => matches!(a, TokenKind::KwExists),
        TokenKind::End => matches!(a, TokenKind::End),
    }
}

/// An executable result agrees with a spec result, the cursor ending where the spec says.
pub open spec fn agrees<T: View, U>(r: Result<T, Error>, spec: Result<(U, nat), SpecError>, cursor: nat) -> bool
    where T: View<V = U>
{
    match spec {
        Ok((e, k2)) => r matches Ok(x) && x@ == e && cursor == k2,
        Err(er) => r matches Err(x) && x@ == er,
    }
}

impl Parser {
    /// Reads an expression whose infix operators bind at least as strongly as `min_bp`.
    fn parse_expr_bp(&mut self, min_bp: u8) -> (r: Result<Expr, Error>)
        ensures
            final(self).stream() == old(self).stream(),
            final(self).wf(),
            agrees(r, parse_bp(old(self).stream(), old(self).cursor(), min_bp as nat), final(self).cursor()),
            r is Ok ==> old(self).cursor() < final(self).cursor(),
        decreases old(self).stream().toks.len() - old(self).cursor(), 3nat,
    {
        proof {
            use_type_invariant(&*self);
        }
        let kind = self.peek_kind();
        match kind {
            TokenKind::Ident(name) => {
                match self.bump() {
                    Err(e) => return Err(e),
                    Ok(()) => {},
                }
                self.parse_loop(Expr::Ident(name), min_bp)
            },
            TokenKind::Number(value) => {
                match self.bump() {
                    Err(e) => return Err(e),
                    Ok(()) => {},
                }
                self.parse_loop(Expr::Number(value), min_bp)
            },
            TokenKind::Op(o) => {
                match unary_op_of(&o) {
                    Some(uop) => {
                        match self.bump() {
                            Err(e) => return Err(e),
                            Ok(()) => {},
                        }
                        let inner = match self.parse_expr_bp(10) {
                            Err(e) => return Err(e),
                            Ok(x) => x,
                        };
                        self.parse_loop(Expr::Unary { op: uop, expr: Box::new(inner) }, min_bp)
                    },
                    None => Err(self.unexpected_here()),
                }
            },
            TokenKind::LParen => {
                match self.bump() {
                    Err(e) => return Err(e),
                    Ok(()) => {},
                }
                let inner = match self.parse_expr_bp(0) {
                    Err(e) => return Err(e),
                    Ok(x) => x,
                };
                match self.expect(TokenKind::RParen) {
                    Err(e) => return Err(e),
                    Ok(()) => {},
                }
                self.parse_loop(inner, min_bp)
            },
            TokenKind::KwForall => self.parse_quant(QuantKind::Forall, min_bp),
            TokenKind::KwExists => self.parse_quant(QuantKind::Exists, min_bp),
            _ => Err(self.unexpected_here()),
        }
    }

    /// Reads a quantifier whose keyword is the token being looked at.
    fn parse_quant(&mut self, kind: QuantKind, min_bp: u8) -> (r: Result<Expr, Error>)
        ensures
            final(self).stream() == old(self).stream(),
            final(self).wf(),
            agrees(r, parse_quant(old(self).stream(), old(self).cursor(), kind, min_bp as nat), final(self).cursor()),
            r is Ok ==> old(self).cursor() < final(self).cursor(),
        decreases old(self).stream().toks.len() - old(self).cursor(), 2nat,
    {
        proof {
            use_type_invariant(&*self);
        }
        match self.bump() {
            Err(e) => return Err(e),
            Ok(()) => {},
        }
        let none: Vec<String> = Vec::new();
        assert(view_strings(none@) =~= Seq::<Seq<char>>::empty());
        let vars = match self.parse_binders(none) {
            Err(e) => return Err(e),
            Ok(v) => v,
        };
        match self.bump() {
            Err(e) => return Err(e),
            Ok(()) => {},
        }
        let body = match self.parse_expr_bp(0) {
            Err(e) => return Err(e),
            Ok(x) => x,
        };
        self.parse_loop(Expr::Quant { kind, vars, body: Box::new(body) }, min_bp)
    }

    /// Reads one binder: a run of names joined by single spaces.
    fn parse_words(&mut self, acc: Vec<char>) -> (r: Result<Vec<char>, Error>)
        ensures
            final(self).stream() == old(self).stream(),
            final(self).wf(),
            agrees(r, parse_words(old(self).stream(), old(self).cursor(), acc@), final(self).cursor()),
            r is Ok ==> old(self).cursor() < final(self).cursor(),
        decreases old(self).stream().toks.len() - old(self).cursor(),
    {
        proof {
            use_type_invariant(&*self);
        }
        match self.peek_kind() {
            TokenKind::Ident(w) => {
                match self.bump() {
                    Err(e) => return Err(e),
                    Ok(()) => {},
                }
                let mut next = acc;
                if next.len() > 0 {
                    next.push(' ');
                }
                let wv = str_chars(w.as_str());
                push_all(&mut next, &wv);
                assert(next@ =~= add_word(acc@, w@));
                match self.peek_kind() {
                    TokenKind::Ident(_) => self.parse_words(next),
                    _ => Ok(next),
                }
            },
            _ => Err(self.unexpected_here()),
        }
    }

    /// Reads binders separated by commas, stopping at the `;` that ends them.
    fn parse_binders(&mut self, acc: Vec<String>) -> (r: Result<Vec<String>, Error>)
        ensures
            final(self).stream() == old(self).stream(),
            final(self).wf(),
            match parse_binders(old(self).stream(), old(self).cursor(), view_strings(acc@)) {
                Ok((vs, k2)) => r matches Ok(x) && view_strings(x@) == vs && final(self).cursor() == k2,
                Err(er) => r matches Err(x) && x@ == er,
            },
            r is Ok ==> old(self).cursor() < final(self).cursor(),
        decreases old(self).stream().toks.len() - old(self).cursor(),
    {
        proof {
            use_type_invariant(&*self);
        }
        let w = match self.parse_words(Vec::new()) {
            Err(e) => return Err(e),
            Ok(w) => w,
        };
        let mut acc = acc;
        let ghost before = view_strings(acc@);
        match self.peek_kind() {
            TokenKind::Comma => {
                match self.bump() {
                    Err(e) => return Err(e),
                    Ok(()) => {},
                }
                let ws = chars_string(&w);
                acc.push(ws);
                assert(view_strings(acc@) =~= before.push(w@));
                self.parse_binders(acc)
            },
            TokenKind::Semicolon => {
                let ws = chars_string(&w);
                acc.push(ws);
                assert(view_strings(acc@) =~= before.push(w@));
                Ok(acc)
            },
            _ => Err(self.expected_here(TokenKind::Semicolon)),
        }
    }

    /// Extends `lhs` with the postfix and infix operators that follow, as long as they bind at
    /// least as strongly as `min_bp`.
    fn parse_loop(&mut self, lhs: Expr, min_bp: u8) -> (r: Result<Expr, Error>)
        ensures
            final(self).stream() == old(self).stream(),
            final(self).wf(),
            agrees(r, parse_loop(old(self).stream(), old(self).cursor(), lhs@, min_bp as nat), final(self).cursor()),
            r is Ok ==> old(self).cursor() <= final(self).cursor(),
        decreases old(self).stream().toks.len() - old(self).cursor(), 2nat,
    {
        proof {
            use_type_invariant(&*self);
        }
        match self.peek_kind() {
            TokenKind::Op(o) => {
                match member_op_of(&o) {
                    Some(mop) => {
                        match self.bump() {
                            Err(e) => return Err(e),
                            Ok(()) => {},
                        }
                        match self.peek_kind() {
                            TokenKind::Ident(field) => {
                                match self.bump() {
                                    Err(e) => return Err(e),
                                    Ok(()) => {},
                                }
                                return self.parse_loop(
                                    Expr::Member { base: Box::new(lhs), op: mop, field },
                                    min_bp,
                                );
                            },
                            _ => return Err(self.unexpected_here()),
                        }
                    },
                    None => {},
                }
                match binary_op_of(&o) {
                    Some(op) => {
                        let (lbp, rbp) = infix_binding_power(op);
                        if lbp < min_bp {
                            return Ok(lhs);
                        }
                        match self.bump() {
                            Err(e) => return Err(e),
                            Ok(()) => {},
                        }
                        let rhs = match self.parse_expr_bp(rbp) {
                            Err(e) => return Err(e),
                            Ok(x) => x,
                        };
                        self.parse_loop(
                            Expr::Binary { op, left: Box::new(lhs), right: Box::new(rhs) },
                            min_bp,
                        )
                    },
                    None => Ok(lhs),
                }
            },
            TokenKind::Question => {
                if 1 < min_bp {
                    return Ok(lhs);
                }
                match self.bump() {
                    Err(e) => return Err(e),
                    Ok(()) => {},
                }
                let then_expr = match self.parse_expr_bp(0) {
                    Err(e) => return Err(e),
                    Ok(x) => x,
                };
                match self.expect(TokenKind::Colon) {
                    Err(e) => return Err(e),
                    Ok(()) => {},
                }
                let else_expr = match self.parse_expr_bp(1) {
                    Err(e) => return Err(e),
                    Ok(x) => x,
                };
                self.parse_loop(
                    Expr::Ternary {
                        cond: Box::new(lhs),
                        then_expr: Box::new(then_expr),
                        else_expr: Box::new(else_expr),
                    },
                    min_bp,
                )
            },
            TokenKind::LParen => {
                match self.bump() {
                    Err(e) => return Err(e),
                    Ok(()) => {},
                }
                let args = match self.parse_args(Vec::new()) {
                    Err(e) => return Err(e),
                    Ok(a) => a,
                };
                self.parse_loop(Expr::Call { callee: Box::new(lhs), args }, min_bp)
            },
            TokenKind::LBracket => {
                match self.bump() {
                    Err(e) => return Err(e),
                    Ok(()) => {},
                }
                let index = match self.parse_expr_bp(0) {
                    Err(e) => return Err(e),
                    Ok(x) => x,
                };
                match self.expect(TokenKind::RBracket) {
                    Err(e) => return Err(e),
                    Ok(()) => {},
                }
                self.parse_loop(Expr::Index { base: Box::new(lhs), index: Box::new(index) }, min_bp)
            },
            _ => Ok(lhs),
        }
    }

    /// Reads call arguments after `acc`, through the closing `)`.
    fn parse_args(&mut self, acc: Vec<Expr>) -> (r: Result<Vec<Expr>, Error>)
        ensures
            final(self).stream() == old(self).stream(),
            final(self).wf(),
            match parse_args(old(self).stream(), old(self).cursor(), view_exprs(acc@)) {
                Ok((args, k2)) => r matches Ok(x) && view_exprs(x@) == args && final(self).cursor() == k2,
                Err(er) => r matches Err(x) && x@ == er,
            },
            r is Ok ==> old(self).cursor() < final(self).cursor(),
        decreases old(self).stream().toks.len() - old(self).cursor(), 4nat,
    {
        proof {
            use_type_invariant(&*self);
        }
        proof {
            lemma_view_exprs(acc@);
        }
        if acc.len() == 0 {
            match self.peek_kind() {
                TokenKind::RParen => {
                    match self.bump() {
                        Err(e) => return Err(e),
                        Ok(()) => {},
                    }
                    return Ok(acc);
                },
                _ => {},
            }
        }
        let a = match self.parse_expr_bp(0) {
            Err(e) => return Err(e),
            Ok(x) => x,
        };
        let mut acc = acc;
        let ghost before = acc@;
        match self.peek_kind() {
            TokenKind::Comma => {
                match self.bump() {
                    Err(e) => return Err(e),
                    Ok(()) => {},
                }
                proof {
                    lemma_view_exprs_push(before, a);
                }
                acc.push(a);
                self.parse_args(acc)
            },
            TokenKind::RParen => {
                match self.bump() {
                    Err(e) => return Err(e),
                    Ok(()) => {},
                }
                proof {
                    lemma_view_exprs_push(before, a);
                }
                acc.push(a);
                Ok(acc)
            },
            _ => Err(self.expected_here(TokenKind::RParen)),
        }
    }

    /// Reads one expression that reaches to the end of the text.
    pub fn parse_expression(&mut self) -> (r: Result<Expr, Error>)
        ensures
            final(self).stream() == old(self).stream(),
            final(self).wf(),
            match parse_from(old(self).stream(), old(self).cursor()) {
                Ok(e) => r matches Ok(x) && x@ == e,
                Err(er) => r matches Err(x) && x@ == er,
            },
    {
        proof {
            use_type_invariant(&*self);
        }
        let expr = match self.parse_expr_bp(0) {
            Err(e) => return Err(e),
            Ok(x) => x,
        };
        match self.peek_kind() {
            TokenKind::End => Ok(expr),
            _ => Err(self.unexpected_here()),
        }
    }
}

/// Reads a whole text as one expression.
pub fn parse_expression(input: &str) -> (r: Result<Expr, Error>)
    ensures
        match parse_text(input@) {
            Ok(e) => r matches Ok(x) && x@ == e,
            Err(er) => r matches Err(x) && x@ == er,
        },
{
    let mut parser = match Parser::new(input) {
        Err(e) => return Err(e),
        Ok(p) => p,
    };
    parser.parse_expression()
}


/// One clause of an annotation.
#[derive(Debug)]
pub enum ClauseKind {
    Expr(Expr),
    Assert(Expr),
    LoopInvariant(Expr),
    Requires(Expr),
    Ensures(Expr),
    Assumes(Expr),
    Assigns(Vec<Expr>),
    Behavior(String),
}

/// The model of a [`ClauseKind`].
pub enum SpecClause {
    Expr(SpecExpr),
    Assert(SpecExpr),
    LoopInvariant(SpecExpr),
    Requires(SpecExpr),
    Ensures(SpecExpr),
    Assumes(SpecExpr),
    Assigns(Seq<SpecExpr>),
    Behavior(Seq<char>),
}

impl View for ClauseKind {
    type V = SpecClause;

    open spec fn view(&self) -> SpecClause {
        match self {
            ClauseKind::Expr(e) => SpecClause::Expr(e@),
            ClauseKind::Assert(e) => SpecClause::Assert(e@),
            ClauseKind::LoopInvariant(e) => SpecClause::LoopInvariant(e@),
            ClauseKind::Requires(e) => SpecClause::Requires(e@),
            ClauseKind::Ensures(e) => SpecClause::Ensures(e@),
            ClauseKind::Assumes(e) => SpecClause::Assumes(e@),
            ClauseKind::Assigns(v) => SpecClause::Assigns(view_exprs(v@)),
            ClauseKind::Behavior(n) => SpecClause::Behavior(n@),
        }
    }
}

/// The models of a list of clauses.
pub open spec fn clause_views(v: Seq<ClauseKind>) -> Seq<SpecClause> {
    v.map_values(|c: ClauseKind| c@)
}

/// The clause that a keyword followed by one expression makes.
pub open spec fn keyword_clause(w: Seq<char>, e: SpecExpr) -> Option<SpecClause> {
    if w == "requires"@ {
        Some(SpecClause::Requires(e))
    } else if w == "ensures"@ {
        Some(SpecClause::Ensures(e))
    } else if w == "assumes"@ {
        Some(SpecClause::Assumes(e))
    } else if w == "assert"@ {
        Some(SpecClause::Assert(e))
    } else {
        None
    }
}

/// Reads the expressions of an `assigns` clause, separated by commas.
pub open spec fn parse_assigns(ts: TokenStream, k: nat, items: Seq<SpecExpr>) -> Result<
    (Seq<SpecExpr>, nat),
    SpecError,
>
    decreases ts.toks.len() - k,
{
    match parse_bp(ts, k, 0) {
        Err(e) => Err(e),
        Ok((e, k1)) => if !advanced(ts, k, k1) {
            Err(past_end())
        } else if ts.toks[k1 as int].kind is Comma {
            match next_index(ts, k1) {
                Err(er) => Err(er),
                Ok(k2) => parse_assigns(ts, k2, items.push(e)),
            }
        } else {
            Ok((items.push(e), k1))
        },
    }
}

/// After clause `c`, which ends before token `k`: a `;` and more clauses, or the end.
pub open spec fn clause_end(ts: TokenStream, k: nat, acc: Seq<SpecClause>, c: SpecClause) -> Result<
    Seq<SpecClause>,
    SpecError,
>
    decreases ts.toks.len() - k, 0nat,
{
    if k >= ts.toks.len() {
        Err(past_end())
    } else {
        let t = ts.toks[k as int];
        match t.kind {
            SpecTokenKind::Semicolon => match next_index(ts, k) {
                Err(e) => Err(e),
                Ok(k1) => parse_clauses(ts, k1, acc.push(c)),
            },
            SpecTokenKind::End => Ok(acc.push(c)),
            _ => Err(unexpected(t)),
        }
    }
}

/// Reads the clauses of an annotation from token `k`, after the clauses `acc`.
pub open spec fn parse_clauses(ts: TokenStream, k: nat, acc: Seq<SpecClause>) -> Result<
    Seq<SpecClause>,
    SpecError,
>
    decreases ts.toks.len() - k, 1nat,
{
    if k >= ts.toks.len() {
        Err(past_end())
    } else {
        let t = ts.toks[k as int];
        match t.kind {
            SpecTokenKind::End => Ok(acc),
            SpecTokenKind::Ident(w) => if w == "behavior"@ {
                match next_index(ts, k) {
                    Err(e) => Err(e),
                    Ok(k1) => match ts.toks[k1 as int].kind {
                        SpecTokenKind::Ident(name) => match next_index(ts, k1) {
                            Err(e) => Err(e),
                            Ok(k2) => if ts.toks[k2 as int].kind is Colon {
                                match next_index(ts, k2) {
                                    Err(e) => Err(e),
                                    Ok(k3) => parse_clauses(ts, k3, acc.push(SpecClause::Behavior(name))),
                                }
                            } else {
                                Err(expected(SpecTokenKind::Colon, ts.toks[k2 as int]))
                            },
                        },
                        _ => Err(unexpected(ts.toks[k1 as int])),
                    },
                }
            } else if w == "loop"@ {
                match next_index(ts, k) {
                    Err(e) => Err(e),
                    Ok(k1) => if ts.toks[k1 as int].kind == SpecTokenKind::Ident("invariant"@) {
                        match next_index(ts, k1) {
                            Err(e) => Err(e),
                            Ok(k2) => match parse_bp(ts, k2, 0) {
                                Err(e) => Err(e),
                                Ok((e, k3)) => if advanced(ts, k, k3) {
                                    clause_end(ts, k3, acc, SpecClause::LoopInvariant(e))
                                } else {
                                    Err(past_end())
                                },
                            },
                        }
                    } else {
                        Err(unexpected(ts.toks[k1 as int]))
                    },
                }
            } else if w == "assigns"@ {
                match next_index(ts, k) {
                    Err(e) => Err(e),
                    Ok(k1) => match parse_assigns(ts, k1, Seq::empty()) {
                        Err(e) => Err(e),
                        Ok((items, k2)) => if advanced(ts, k, k2) {
                            clause_end(ts, k2, acc, SpecClause::Assigns(items))
                        } else {
                            Err(past_end())
                        },
                    },
                }
            } else if keyword_clause(w, SpecExpr::Ident(w)) is Some {
                match next_index(ts, k) {
                    Err(e) => Err(e),
                    Ok(k1) => match parse_bp(ts, k1, 0) {
                        Err(e) => Err(e),
                        Ok((e, k2)) => if advanced(ts, k, k2) {
                            clause_end(ts, k2, acc, keyword_clause(w, e)->0)
                        } else {
                            Err(past_end())
                        },
                    },
                }
            } else {
                parse_plain_clause(ts, k, acc)
            },
            _ => parse_plain_clause(ts, k, acc),
        }
    }
}

/// A clause that is a bare expression.
pub open spec fn parse_plain_clause(ts: TokenStream, k: nat, acc: Seq<SpecClause>) -> Result<
    Seq<SpecClause>,
    SpecError,
>
    decreases ts.toks.len() - k, 0nat,
{
    match parse_bp(ts, k, 0) {
        Err(e) => Err(e),
        Ok((e, k2)) => if advanced(ts, k, k2) {
            clause_end(ts, k2, acc, SpecClause::Expr(e))
        } else {
            Err(past_end())
        },
    }
}

/// The clauses of an annotation's text.
pub open spec fn parse_annotation_text(s: Seq<char>) -> Result<Seq<SpecClause>, SpecError> {
    let ts = lex_stream(s);
    if ts.toks.len() == 0 {
        match ts.err {
            Some(e) => Err(e),
            None => Err(past_end()),
        }
    } else {
        parse_clauses(ts, 0, Seq::empty())
    }
} 


/// `clause_views` distributes over pushing one clause.
proof fn lemma_clause_views_push(v: Seq<ClauseKind>, c: ClauseKind)
    ensures
        clause_views(v.push(c)) == clause_views(v).push(c@),
{
    assert(clause_views(v.push(c)) =~= clause_views(v).push(c@));
}

impl Parser {
    /// Reads the expressions of an `assigns` clause.
    fn parse_assigns(&mut self, items: Vec<Expr>) -> (r: Result<Vec<Expr>, Error>)
        ensures
            final(self).stream() == old(self).stream(),
            final(self).wf(),
            match parse_assigns(old(self).stream(), old(self).cursor(), view_exprs(items@)) {
                Ok((v, k2)) => r matches Ok(x) && view_exprs(x@) == v && final(self).cursor() == k2,
                Err(er) => r matches Err(x) && x@ == er,
            },
            r is Ok ==> old(self).cursor() < final(self).cursor(),
        decreases old(self).stream().toks.len() - old(self).cursor(),
    {
        proof {
            use_type_invariant(&*self);
        }
        let e = match self.parse_expr_bp(0) {
            Err(er) => return Err(er),
            Ok(x) => x,
        };
        let mut items = items;
        let ghost before = items@;
        proof {
            lemma_view_exprs_push(before, e);
        }
        match self.peek_kind() {
            TokenKind::Comma => {
                match self.bump() {
                    Err(er) => return Err(er),
                    Ok(()) => {},
                }
                items.push(e);
                self.parse_assigns(items)
            },
            _ => {
                items.push(e);
                Ok(items)
            },
        }
    }

    /// After a clause: a `;` and more clauses, or the end.
    fn clause_end(&mut self, acc: Vec<ClauseKind>, c: ClauseKind) -> (r: Result<Vec<ClauseKind>, Error>)
        ensures
            match clause_end(old(self).stream(), old(self).cursor(), clause_views(acc@), c@) {
                Ok(v) => r matches Ok(x) && clause_views(x@) == v,
                Err(er) => r matches Err(x) && x@ == er,
            },
        decreases old(self).stream().toks.len() - old(self).cursor(), 0nat,
    {
        proof {
            use_type_invariant(&*self);
        }
        let mut acc = acc;
        let ghost before = acc@;
        proof {
            lemma_clause_views_push(before, c);
        }
        match self.peek_kind() {
            TokenKind::Semicolon => {
                match self.bump() {
                    Err(er) => return Err(er),
                    Ok(()) => {},
                }
                acc.push(c);
                self.parse_clauses(acc)
            },
            TokenKind::End => {
                acc.push(c);
                Ok(acc)
            },
            _ => Err(self.unexpected_here()),
        }
    }

    /// A clause that is a bare expression.
    fn parse_plain_clause(&mut self, acc: Vec<ClauseKind>) -> (r: Result<Vec<ClauseKind>, Error>)
        ensures
            match parse_plain_clause(old(self).stream(), old(self).cursor(), clause_views(acc@)) {
                Ok(v) => r matches Ok(x) && clause_views(x@) == v,
                Err(er) => r matches Err(x) && x@ == er,
            },
        decreases old(self).stream().toks.len() - old(self).cursor(), 0nat,
    {
        proof {
            use_type_invariant(&*self);
        }
        let e = match self.parse_expr_bp(0) {
            Err(er) => return Err(er),
            Ok(x) => x,
        };
        self.clause_end(acc, ClauseKind::Expr(e))
    }

    /// Reads the clauses of an annotation, after the clauses `acc`.
    fn parse_clauses(&mut self, acc: Vec<ClauseKind>) -> (r: Result<Vec<ClauseKind>, Error>)
        ensures
            match parse_clauses(old(self).stream(), old(self).cursor(), clause_views(acc@)) {
                Ok(v) => r matches Ok(x) && clause_views(x@) == v,
                Err(er) => r matches Err(x) && x@ == er,
            },
        decreases old(self).stream().toks.len() - old(self).cursor(), 1nat,
    {
        proof {
            use_type_invariant(&*self);
        }
        match self.peek_kind() {
            TokenKind::End => Ok(acc),
            TokenKind::Ident(w) => {
                if text_eq(&w, "behavior") {
                    match self.bump() {
                        Err(er) => return Err(er),
                        Ok(()) => {},
                    }
                    let name = match self.peek_kind() {
                        TokenKind::Ident(name) => name,
                        _ => return Err(self.unexpected_here()),
                    };
                    match self.bump() {
                        Err(er) => return Err(er),
                        Ok(()) => {},
                    }
                    match self.peek_kind() {
                        TokenKind::Colon => {},
                        _ => return Err(self.expected_here(TokenKind::Colon)),
                    }
                    match self.bump() {
                        Err(er) => return Err(er),
                        Ok(()) => {},
                    }
                    let mut acc = acc;
                    let c = ClauseKind::Behavior(name);
                    proof {
                        lemma_clause_views_push(acc@, c);
                    }
                    acc.push(c);
                    self.parse_clauses(acc)
                } else if text_eq(&w, "loop") {
                    match self.bump() {
                        Err(er) => return Err(er),
                        Ok(()) => {},
                    }
                    let is_inv = match self.peek_kind() {
                        TokenKind::Ident(x) => text_eq(&x, "invariant"),
                        _ => false,
                    };
                    if !is_inv {
                        return Err(self.unexpected_here());
                    }
                    match self.bump() {
                        Err(er) => return Err(er),
                        Ok(()) => {},
                    }
                    let e = match self.parse_expr_bp(0) {
                        Err(er) => return Err(er),
                        Ok(x) => x,
                    };
                    self.clause_end(acc, ClauseKind::LoopInvariant(e))
                } else if text_eq(&w, "assigns") {
                    match self.bump() {
                        Err(er) => return Err(er),
                        Ok(()) => {},
                    }
                    let none: Vec<Expr> = Vec::new();
                    proof {
                        lemma_view_exprs(none@);
                    }
                    let items = match self.parse_assigns(none) {
                        Err(er) => return Err(er),
                        Ok(x) => x,
                    };
                    self.clause_end(acc, ClauseKind::Assigns(items))
                } else if text_eq(&w, "requires") || text_eq(&w, "ensures") || text_eq(&w, "assumes")
                    || text_eq(&w, "assert") {
                    match self.bump() {
                        Err(er) => return Err(er),
                        Ok(()) => {},
                    }
                    let e = match self.parse_expr_bp(0) {
                        Err(er) => return Err(er),
                        Ok(x) => x,
                    };
                    let c = if text_eq(&w, "requires") {
                        ClauseKind::Requires(e)
                    } else if text_eq(&w, "ensures") {
                        ClauseKind::Ensures(e)
                    } else if text_eq(&w, "assumes") {
                        ClauseKind::Assumes(e)
                    } else {
                        ClauseKind::Assert(e)
                    };
                    self.clause_end(acc, c)
                } else {
                    self.parse_plain_clause(acc)
                }
            },
            _ => self.parse_plain_clause(acc),
        }
    }
}

/// Reads the clauses of an annotation's text.
pub fn parse_annotation_list(input: &str) -> (r: Result<Vec<ClauseKind>, Error>)
    ensures
        match parse_annotation_text(input@) {
            Ok(v) => r matches Ok(x) && clause_views(x@) == v,
            Err(er) => r matches Err(x) && x@ == er,
        },
{
    let mut parser = match Parser::new(input) {
        Err(e) => return Err(e),
        Ok(p) => p,
    };
    let none: Vec<ClauseKind> = Vec::new();
    assert(clause_views(none@) =~= Seq::<SpecClause>::empty());
    parser.parse_clauses(none)
}

} // verus!