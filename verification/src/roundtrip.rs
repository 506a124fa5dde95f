use vstd::prelude::*;
use crate::ast::{Assoc, BinaryOp, MemberOp, QuantKind, SpecExpr, UnaryOp};
use crate::format::{child_parens_needed, format_args, format_ctx, format_spec, member_str, parens_needed, prec_of, simplify, wrap_if};
use crate::lexer::{digits_end, first_op, ident_continue, ident_end, ident_start, forall_text, exists_text, lex_step, operator_spellings, punct_kind, skip_ws_from, word_kind, SpecToken, SpecTokenKind};
use crate::parser::{lex_stream, parse_text, add_word, advanced, binop_of, left_bp, member_of, next_index, parse_args, parse_binders, parse_bp, parse_loop, parse_quant, parse_words, right_bp, unary_of, unary_rbp, TokenStream};
use crate::laws::{law_simplify_is_idempotent, lemma_join_cons};
use crate::names::{lemma_parse_text_names, lemma_simplify_names};
use crate::text::{join, split_from};
use crate::text::{is_digit, is_ws, occurs_at, split_on};

verus! {

/// `t` in parenthesis tokens when `b`.
pub open spec fn wrap_toks(t: Seq<SpecTokenKind>, b: bool) -> Seq<SpecTokenKind> {
    if b {
        seq![SpecTokenKind::LParen] + t + seq![SpecTokenKind::RParen]
    } else {
        t
    }
}

/// The name tokens of one binder, such as `integer i`.
pub open spec fn word_toks(ws: Seq<Seq<char>>) -> Seq<SpecTokenKind>
    decreases ws.len(),
{
    if ws.len() == 0 {
        Seq::empty()
    } else {
        seq![SpecTokenKind::Ident(ws[0])] + word_toks(ws.drop_first())
    }
}

/// The tokens of the binders of a quantifier.
pub open spec fn var_toks(vars: Seq<Seq<char>>) -> Seq<SpecTokenKind>
    decreases vars.len(),
{
    if vars.len() == 0 {
        Seq::empty()
    } else if vars.len() == 1 {
        word_toks(split_on(vars[0], ' '))
    } else {
        word_toks(split_on(vars[0], ' ')) + seq![SpecTokenKind::Comma] + var_toks(vars.drop_first())
    }
}

/// The tokens of the text that `format_ctx` gives for `e`.
pub open spec fn toks_ctx(e: SpecExpr, parent_prec: nat, parent_assoc: Assoc, is_right: bool) -> Seq<SpecTokenKind>
    decreases e, 1nat,
{
    wrap_toks(core_toks(e), parens_needed(prec_of(e), parent_prec, parent_assoc, is_right))
}

/// The tokens of `e` without parentheses around the whole.
pub open spec fn core_toks(e: SpecExpr) -> Seq<SpecTokenKind>
    decreases e, 0nat,
{
    match e {
        SpecExpr::Ident(n) => seq![SpecTokenKind::Ident(n)],
        SpecExpr::Number(n) => seq![SpecTokenKind::Number(n)],
        SpecExpr::Unary { op, expr } => seq![SpecTokenKind::Op(op.spec_str())] + toks_ctx(
            *expr,
            10,
            Assoc::Right,
            false,
        ),
        SpecExpr::Binary { op, left, right } => {
            let p = op.spec_precedence() as nat;
            let a = op.spec_assoc();
            wrap_toks(toks_ctx(*left, p, a, false), child_parens_needed(*left, op)) + seq![
                SpecTokenKind::Op(op.spec_str()),
            ] + wrap_toks(toks_ctx(*right, p, a, true), child_parens_needed(*right, op))
        },
        SpecExpr::Ternary { cond, then_expr, else_expr } => toks_ctx(*cond, 1, Assoc::Right, false)
            + seq![SpecTokenKind::Question] + toks_ctx(*then_expr, 1, Assoc::Right, false) + seq![
            SpecTokenKind::Colon,
        ] + toks_ctx(*else_expr, 1, Assoc::Right, true),
        SpecExpr::Call { callee, args } => wrap_toks(
            toks_ctx(*callee, 0, Assoc::Left, false),
            parens_needed(prec_of(*callee), 11, Assoc::Left, false),
        ) + seq![SpecTokenKind::LParen] + args_toks(args) + seq![SpecTokenKind::RParen],
        SpecExpr::Index { base, index } => wrap_toks(
            toks_ctx(*base, 0, Assoc::Left, false),
            parens_needed(prec_of(*base), 11, Assoc::Left, false),
        ) + seq![SpecTokenKind::LBracket] + toks_ctx(*index, 0, Assoc::Left, false) + seq![
            SpecTokenKind::RBracket,
        ],
        SpecExpr::Member { base, op, field } => wrap_toks(
            toks_ctx(*base, 0, Assoc::Left, false),
            parens_needed(prec_of(*base), 11, Assoc::Left, false),
        ) + seq![SpecTokenKind::Op(member_str(op)), SpecTokenKind::Ident(field)],
        SpecExpr::Quant { kind, vars, body } => seq![
            match kind {
                QuantKind::Forall => SpecTokenKind::KwForall,
                QuantKind::Exists => SpecTokenKind::KwExists,
            },
        ] + var_toks(vars) + seq![SpecTokenKind::Semicolon] + toks_ctx(*body, 0, Assoc::Right, true),
    }
}

/// The tokens of call arguments, separated by commas.
pub open spec fn args_toks(args: Seq<SpecExpr>) -> Seq<SpecTokenKind>
    decreases args, 2nat,
{
    if args.len() == 0 {
        Seq::empty()
    } else if args.len() == 1 {
        toks_ctx(args[0], 0, Assoc::Left, false)
    } else {
        toks_ctx(args[0], 0, Assoc::Left, false) + seq![SpecTokenKind::Comma] + args_toks(
            args.subrange(1, args.len() as int),
        )
    }
}


/// Token `t`, after an expression parsed at binding power `min`, ends that expression: the
/// parser's loop takes no postfix or infix operator from it.
pub open spec fn stops(t: SpecTokenKind, min: nat) -> bool {
    match t {
        SpecTokenKind::Op(o) => member_of(o) is None && (binop_of(o) is None || left_bp(
            binop_of(o)->0,
        ) < min),
        SpecTokenKind::Question => 1 < min,
        SpecTokenKind::LParen => false,
        SpecTokenKind::LBracket => false,
        _ => true,
    }
}

/// The top operator of `e` binds at least as strongly as `min`.
pub open spec fn top_ok(e: SpecExpr, min: nat) -> bool {
    match e {
        SpecExpr::Binary { op, .. } => left_bp(op) >= min,
        SpecExpr::Ternary { .. } => 1 >= min,
        _ => true,
    }
}

/// The left operand of a binary operator is printed inside parentheses.
pub open spec fn left_wrapped(op: BinaryOp, l: SpecExpr) -> bool {
    child_parens_needed(l, op) || parens_needed(
        prec_of(l),
        op.spec_precedence() as nat,
        op.spec_assoc(),
        false,
    )
}

/// The right operand of a binary operator is printed inside parentheses.
pub open spec fn right_wrapped(op: BinaryOp, r: SpecExpr) -> bool {
    child_parens_needed(r, op) || parens_needed(
        prec_of(r),
        op.spec_precedence() as nat,
        op.spec_assoc(),
        true,
    )
}

/// Token `t`, right after the text of `e`, ends every expression on the right edge of `e`
/// that the parser reads with a binding power of its own.
pub open spec fn right_ok(e: SpecExpr, t: SpecTokenKind) -> bool
    decreases e,
{
    match e {
        SpecExpr::Unary { expr, .. } => stops(t, unary_rbp()) && (!parens_needed(
            prec_of(*expr),
            10,
            Assoc::Right,
            false,
        ) ==> right_ok(*expr, t)),
        SpecExpr::Binary { op, right, .. } => stops(t, right_bp(op)) && (!right_wrapped(op, *right)
            ==> right_ok(*right, t)),
        SpecExpr::Ternary { else_expr, .. } => stops(t, 1) && (!parens_needed(
            prec_of(*else_expr),
            1,
            Assoc::Right,
            true,
        ) ==> right_ok(*else_expr, t)),
        SpecExpr::Quant { body, .. } => stops(t, 0) && (!parens_needed(
            prec_of(*body),
            0,
            Assoc::Right,
            true,
        ) ==> right_ok(*body, t)),
        _ => true,
    }
}

/// Every binder is a run of nonempty names separated by single spaces.
pub open spec fn binders_ok(vars: Seq<Seq<char>>) -> bool {
    &&& vars.len() > 0
    &&& forall|i: int, j: int|
        0 <= i < vars.len() && 0 <= j < split_on(vars[i], ' ').len() ==> (#[trigger] split_on(
            vars[i],
            ' ',
        )[j]).len() > 0
}

/// The text of `e` reads back as `e` wherever an operand is followed by an operator: no
/// operand on the left of an operator ends in an expression that would take that operator.
pub open spec fn parse_ok(e: SpecExpr) -> bool
    decreases e, 1nat,
{
    match e {
        SpecExpr::Ident(_) => true,
        SpecExpr::Number(_) => true,
        SpecExpr::Unary { expr, .. } => parse_ok(*expr),
        SpecExpr::Binary { op, left, right } => parse_ok(*left) && parse_ok(*right) && (!left_wrapped(
            op,
            *left,
        ) ==> right_ok(*left, SpecTokenKind::Op(op.spec_str()))),
        SpecExpr::Ternary { cond, then_expr, else_expr } => parse_ok(*cond) && parse_ok(*then_expr)
            && parse_ok(*else_expr) && (!parens_needed(prec_of(*cond), 1, Assoc::Right, false)
            ==> right_ok(*cond, SpecTokenKind::Question)),
        SpecExpr::Call { callee, args } => parse_ok(*callee) && all_parse_ok(args),
        SpecExpr::Index { base, index } => parse_ok(*base) && parse_ok(*index),
        SpecExpr::Member { base, .. } => parse_ok(*base),
        SpecExpr::Quant { vars, body, .. } => binders_ok(vars) && parse_ok(*body),
    }
}

pub open spec fn all_parse_ok(args: Seq<SpecExpr>) -> bool
    decreases args, 2nat,
{
    if args.len() == 0 {
        true
    } else {
        parse_ok(args[0]) && all_parse_ok(args.subrange(1, args.len() as int))
    }
}

/// Tokens `k ..` of the stream have the kinds `ks`.
pub open spec fn toks_at(ts: TokenStream, k: nat, ks: Seq<SpecTokenKind>) -> bool {
    &&& k + ks.len() <= ts.toks.len()
    &&& forall|j: int| 0 <= j < ks.len() ==> #[trigger] ts.toks[k + j].kind == ks[j]
}

proof fn lemma_toks_at_split(ts: TokenStream, k: nat, a: Seq<SpecTokenKind>, b: Seq<SpecTokenKind>)
    requires
        toks_at(ts, k, a + b),
    ensures
        toks_at(ts, k, a),
        toks_at(ts, k + a.len(), b),
{
    assert forall|j: int| 0 <= j < a.len() implies #[trigger] ts.toks[k + j].kind == a[j] by {
        assert((a + b)[j] == a[j]);
    }
    assert forall|j: int| 0 <= j < b.len() implies #[trigger] ts.toks[k + a.len() + j].kind == b[j] by {
        assert((a + b)[a.len() + j] == b[j]);
        assert(ts.toks[k + (a.len() + j)].kind == (a + b)[a.len() + j]);
    }
}

/// Reading past a token that is not the last.
proof fn lemma_next(ts: TokenStream, k: nat)
    requires
        k + 1 < ts.toks.len(),
    ensures
        next_index(ts, k) == Ok::<nat, crate::error::SpecError>(k + 1),
{
}

proof fn lemma_stops_mono(t: SpecTokenKind, m: nat, m2: nat)
    requires
        stops(t, m),
        m <= m2,
    ensures
        stops(t, m2),
{
}

/// A token that ends expressions at binding power 0 ends every expression.
proof fn lemma_right_ok_closing(e: SpecExpr, t: SpecTokenKind)
    requires
        stops(t, 0),
    ensures
        right_ok(e, t),
    decreases e,
{
    match e {
        SpecExpr::Unary { expr, .. } => {
            lemma_stops_mono(t, 0, unary_rbp());
            lemma_right_ok_closing(*expr, t);
        },
        SpecExpr::Binary { op, right, .. } => {
            lemma_stops_mono(t, 0, right_bp(op));
            lemma_right_ok_closing(*right, t);
        },
        SpecExpr::Ternary { else_expr, .. } => {
            lemma_stops_mono(t, 0, 1);
            lemma_right_ok_closing(*else_expr, t);
        },
        SpecExpr::Quant { body, .. } => {
            lemma_right_ok_closing(*body, t);
        },
        _ => {},
    }
}

/// The loop takes nothing from a token that stops it.
proof fn lemma_loop_stops(ts: TokenStream, k: nat, lhs: SpecExpr, min: nat)
    requires
        k < ts.toks.len(),
        stops(ts.toks[k as int].kind, min),
    ensures
        parse_loop(ts, k, lhs, min) == Ok::<(SpecExpr, nat), crate::error::SpecError>((lhs, k)),
{
}

/// The parser reads each operator's spelling as that operator.
proof fn lemma_spellings()
    ensures
        forall|op: BinaryOp| #[trigger] binop_of(op.spec_str()) == Some(op),
        forall|op: BinaryOp| #[trigger] member_of(op.spec_str()) is None,
        forall|op: UnaryOp| #[trigger] unary_of(op.spec_str()) == Some(op),
        forall|m: MemberOp| #[trigger] member_of(member_str(m)) == Some(m),
{
    assert forall|op: BinaryOp| #[trigger] binop_of(op.spec_str()) == Some(op) by {
        match op {
            BinaryOp::Mul => {},
            BinaryOp::Div => {},
            BinaryOp::Mod => {},
            BinaryOp::Add => {},
            BinaryOp::Sub => {},
            BinaryOp::Lt => {},
            BinaryOp::Le => {},
            BinaryOp::Gt => {},
            BinaryOp::Ge => {},
            BinaryOp::Eq => {},
            BinaryOp::Ne => {},
            BinaryOp::And => {},
            BinaryOp::Or => {},
            BinaryOp::Implies => {},
            BinaryOp::Iff => {},
        }
    }
    assert forall|op: BinaryOp| #[trigger] member_of(op.spec_str()) is None by {
        match op {
            BinaryOp::Mul => {},
            BinaryOp::Div => {},
            BinaryOp::Mod => {},
            BinaryOp::Add => {},
            BinaryOp::Sub => {},
            BinaryOp::Lt => {},
            BinaryOp::Le => {},
            BinaryOp::Gt => {},
            BinaryOp::Ge => {},
            BinaryOp::Eq => {},
            BinaryOp::Ne => {},
            BinaryOp::And => {},
            BinaryOp::Or => {},
            BinaryOp::Implies => {},
            BinaryOp::Iff => {},
        }
    }
    assert forall|op: UnaryOp| #[trigger] unary_of(op.spec_str()) == Some(op) by {
        match op {
            UnaryOp::Not => {},
            UnaryOp::Neg => {},
            UnaryOp::Pos => {},
        }
    }
    assert forall|m: MemberOp| #[trigger] member_of(member_str(m)) == Some(m) by {
        match m {
            MemberOp::Dot => {},
            MemberOp::Arrow => {},
        }
    }
}


/// Names added to a binder's text one after another.
pub open spec fn add_words(acc: Seq<char>, ws: Seq<Seq<char>>) -> Seq<char>
    decreases ws.len(),
{
    if ws.len() == 0 {
        acc
    } else {
        add_words(add_word(acc, ws[0]), ws.drop_first())
    }
}

proof fn lemma_word_toks_len(ws: Seq<Seq<char>>)
    ensures
        word_toks(ws).len() == ws.len(),
        forall|i: int| 0 <= i < ws.len() ==> #[trigger] word_toks(ws)[i] == SpecTokenKind::Ident(ws[i]),
    decreases ws.len(),
{
    if ws.len() > 0 {
        lemma_word_toks_len(ws.drop_first());
        let w = word_toks(ws);
        assert forall|i: int| 0 <= i < ws.len() implies #[trigger] w[i] == SpecTokenKind::Ident(ws[i]) by {
            if i > 0 {
                assert(w[i] == word_toks(ws.drop_first())[i - 1]);
            }
        }
    }
}

proof fn lemma_add_words(acc: Seq<char>, ws: Seq<Seq<char>>)
    requires
        ws.len() > 0,
        forall|i: int| 0 <= i < ws.len() ==> (#[trigger] ws[i]).len() > 0,
    ensures
        add_words(acc, ws) == if acc.len() == 0 {
            join(ws, " "@)
        } else {
            acc + " "@ + join(ws, " "@)
        },
    decreases ws.len(),
{
    reveal_strlit(" ");
    let rest = ws.drop_first();
    assert(ws =~= seq![ws[0]] + rest);
    lemma_join_cons(ws[0], rest, " "@);
    if rest.len() == 0 {
        assert(add_words(add_word(acc, ws[0]), rest) == add_word(acc, ws[0]));
    } else {
        assert forall|i: int| 0 <= i < rest.len() implies (#[trigger] rest[i]).len() > 0 by {
            assert(rest[i] == ws[i + 1]);
        }
        lemma_add_words(add_word(acc, ws[0]), rest);
        assert(ws[0].len() > 0);
        if acc.len() == 0 {
            assert(add_word(acc, ws[0]) == ws[0]);
        } else {
            assert(add_word(acc, ws[0]) + " "@ + join(rest, " "@) =~= acc + " "@ + (ws[0] + " "@ + join(
                rest,
                " "@,
            )));
        }
    }
}

pub proof fn lemma_split_join(s: Seq<char>, c: char, cur: Seq<char>)
    ensures
        join(split_from(s, c, cur), seq![c]) == cur + s,
        split_from(s, c, cur).len() > 0,
    decreases s.len(),
{
    if s.len() == 0 {
        assert(join(seq![cur], seq![c]) == cur);
        assert(cur + s =~= cur);
    } else if s[0] == c {
        lemma_split_join(s.drop_first(), c, Seq::empty());
        let rest = split_from(s.drop_first(), c, Seq::empty());
        lemma_join_cons(cur, rest, seq![c]);
        assert(cur + seq![c] + (Seq::<char>::empty() + s.drop_first()) =~= cur + s);
    } else {
        lemma_split_join(s.drop_first(), c, cur.push(s[0]));
        assert(cur.push(s[0]) + s.drop_first() =~= cur + s);
    }
}

/// A binder's names joined by single spaces give the binder back.
proof fn lemma_binder_text(v: Seq<char>)
    requires
        forall|j: int| 0 <= j < split_on(v, ' ').len() ==> (#[trigger] split_on(v, ' ')[j]).len() > 0,
    ensures
        add_words(Seq::empty(), split_on(v, ' ')) == v,
        split_on(v, ' ').len() > 0,
{
    reveal_strlit(" ");
    lemma_split_join(v, ' ', Seq::empty());
    lemma_add_words(Seq::empty(), split_on(v, ' '));
    assert(" "@ =~= seq![' ']);
    assert(Seq::<char>::empty() + v =~= v);
}

proof fn lemma_parse_words(ts: TokenStream, k: nat, acc: Seq<char>, ws: Seq<Seq<char>>)
    requires
        ws.len() > 0,
        toks_at(ts, k, word_toks(ws)),
        k + ws.len() < ts.toks.len(),
        !(ts.toks[(k + ws.len()) as int].kind is Ident),
    ensures
        parse_words(ts, k, acc) == Ok::<(Seq<char>, nat), crate::error::SpecError>((add_words(acc, ws), k + ws.len())),
    decreases ws.len(),
{
    lemma_word_toks_len(ws);
    assert(ts.toks[(k + 0) as int].kind == word_toks(ws)[0]);
    lemma_next(ts, k);
    let rest = ws.drop_first();
    if ws.len() == 1 {
        assert(add_words(add_word(acc, ws[0]), rest) == add_word(acc, ws[0]));
    } else {
        lemma_word_toks_len(rest);
        assert(ts.toks[(k + 1) as int].kind == word_toks(ws)[1]);
        assert forall|j: int| 0 <= j < word_toks(rest).len() implies #[trigger] ts.toks[(k + 1) + j].kind
            == word_toks(rest)[j] by {
            assert(ts.toks[k + (j + 1)].kind == word_toks(ws)[j + 1]);
        }
        lemma_parse_words(ts, k + 1, add_word(acc, ws[0]), rest);
    }
}

/// The tokens of the binders of a quantifier are read back as those binders.
proof fn lemma_parse_binders(ts: TokenStream, k: nat, acc: Seq<Seq<char>>, vars: Seq<Seq<char>>)
    requires
        binders_ok(vars),
        toks_at(ts, k, var_toks(vars) + seq![SpecTokenKind::Semicolon]),
        k + var_toks(vars).len() + 1 < ts.toks.len(),
    ensures
        parse_binders(ts, k, acc) == Ok::<(Seq<Seq<char>>, nat), crate::error::SpecError>((acc + vars, k + var_toks(vars).len())),
    decreases vars.len(),
{
    let v = vars[0];
    let ws = split_on(v, ' ');
    assert forall|j: int| 0 <= j < ws.len() implies (#[trigger] ws[j]).len() > 0 by {
        assert(split_on(vars[0], ' ')[j].len() > 0);
    }
    lemma_binder_text(v);
    lemma_word_toks_len(ws);
    let rest = vars.drop_first();
    if vars.len() == 1 {
        assert(var_toks(vars) == word_toks(ws));
        lemma_toks_at_split(ts, k, word_toks(ws), seq![SpecTokenKind::Semicolon]);
        assert(ts.toks[(k + ws.len() + 0) as int].kind == SpecTokenKind::Semicolon);
        lemma_parse_words(ts, k, Seq::empty(), ws);
        assert(acc.push(v) =~= acc + vars);
    } else {
        let tail = seq![SpecTokenKind::Comma] + var_toks(rest) + seq![SpecTokenKind::Semicolon];
        assert(var_toks(vars) + seq![SpecTokenKind::Semicolon] =~= word_toks(ws) + tail);
        lemma_toks_at_split(ts, k, word_toks(ws), tail);
        let k1 = k + ws.len();
        assert(ts.toks[(k1 + 0) as int].kind == tail[0]);
        lemma_parse_words(ts, k, Seq::empty(), ws);
        lemma_next(ts, k1);
        lemma_toks_at_split(ts, k1, seq![SpecTokenKind::Comma], var_toks(rest) + seq![SpecTokenKind::Semicolon]);
        assert(tail =~= seq![SpecTokenKind::Comma] + (var_toks(rest) + seq![SpecTokenKind::Semicolon]));
        assert(binders_ok(rest)) by {
            assert forall|i: int, j: int|
                0 <= i < rest.len() && 0 <= j < split_on(rest[i], ' ').len() implies (#[trigger] split_on(
                rest[i],
                ' ',
            )[j]).len() > 0 by {
                assert(rest[i] == vars[i + 1]);
            }
        }
        lemma_parse_binders(ts, k1 + 1, acc.push(v), rest);
        assert(acc.push(v) + rest =~= acc + vars);
    }
}


/// Tokens that can begin the text of an expression.
pub open spec fn opens_expr(t: SpecTokenKind) -> bool {
    t is Ident || t is Number || t is Op || t is LParen || t is KwForall || t is KwExists
}

proof fn lemma_core_starts(e: SpecExpr)
    ensures
        core_toks(e).len() > 0,
        opens_expr(core_toks(e)[0]),
    decreases e,
{
    match e {
        SpecExpr::Binary { op, left, right } => {
            lemma_core_starts(*left);
        },
        SpecExpr::Ternary { cond, .. } => {
            lemma_core_starts(*cond);
        },
        SpecExpr::Call { callee, .. } => {
            lemma_core_starts(*callee);
        },
        SpecExpr::Index { base, .. } => {
            lemma_core_starts(*base);
        },
        SpecExpr::Member { base, .. } => {
            lemma_core_starts(*base);
        },
        _ => {},
    }
}

proof fn lemma_toks_starts(e: SpecExpr, pp: nat, pa: Assoc, r: bool)
    ensures
        toks_ctx(e, pp, pa, r).len() > 0,
        opens_expr(toks_ctx(e, pp, pa, r)[0]),
{
    lemma_core_starts(e);
}

/// A parenthesized expression is read as what is inside.
proof fn lemma_paren(ts: TokenStream, k: nat, x: Seq<SpecTokenKind>, v: SpecExpr, min: nat)
    requires
        toks_at(ts, k, seq![SpecTokenKind::LParen] + x + seq![SpecTokenKind::RParen]),
        k + x.len() + 2 < ts.toks.len(),
        parse_bp(ts, k + 1, 0) == Ok::<(SpecExpr, nat), crate::error::SpecError>((v, k + 1 + x.len())),
    ensures
        parse_bp(ts, k, min) == parse_loop(ts, k + x.len() + 2, v, min),
{
    let all = seq![SpecTokenKind::LParen] + x + seq![SpecTokenKind::RParen];
    assert(ts.toks[(k + 0) as int].kind == all[0]);
    assert(ts.toks[(k + (x.len() + 1)) as int].kind == all[x.len() + 1int]);
    lemma_next(ts, k);
    lemma_next(ts, k + 1 + x.len());
}

/// An operand at token `k`, printed in context `(pp, pa, r)` and in parentheses when `w`, is
/// read as `x`, after which the parser's loop continues at binding power `min`.
proof fn lemma_parse_operand(
    ts: TokenStream,
    k: nat,
    x: SpecExpr,
    pp: nat,
    pa: Assoc,
    r: bool,
    w: bool,
    min: nat,
)
    requires
        parse_ok(x),
        toks_at(ts, k, wrap_toks(toks_ctx(x, pp, pa, r), w)),
        k + wrap_toks(toks_ctx(x, pp, pa, r), w).len() < ts.toks.len(),
        !w && !parens_needed(prec_of(x), pp, pa, r) ==> right_ok(
            x,
            ts.toks[(k + wrap_toks(toks_ctx(x, pp, pa, r), w).len()) as int].kind,
        ) && top_ok(x, min),
    ensures
        parse_bp(ts, k, min) == parse_loop(ts, k + wrap_toks(toks_ctx(x, pp, pa, r), w).len(), x, min),
    decreases x, if w {
        4nat
    } else {
        2nat
    },
{
    let t = toks_ctx(x, pp, pa, r);
    if w {
        lemma_toks_at_split(ts, k, seq![SpecTokenKind::LParen] + t, seq![SpecTokenKind::RParen]);
        lemma_toks_at_split(ts, k, seq![SpecTokenKind::LParen], t);
        assert(ts.toks[(k + 1 + t.len()) as int].kind == (seq![SpecTokenKind::LParen] + t + seq![
            SpecTokenKind::RParen,
        ])[t.len() + 1int]);
        lemma_right_ok_closing(x, SpecTokenKind::RParen);
        lemma_parse_expr(ts, k + 1, x, pp, pa, r, false, 0);
        lemma_paren(ts, k, t, x, min);
    } else if parens_needed(prec_of(x), pp, pa, r) {
        let c = core_toks(x);
        lemma_toks_at_split(ts, k, seq![SpecTokenKind::LParen] + c, seq![SpecTokenKind::RParen]);
        lemma_toks_at_split(ts, k, seq![SpecTokenKind::LParen], c);
        let tr = ts.toks[(k + 1 + c.len()) as int].kind;
        assert(tr == (seq![SpecTokenKind::LParen] + c + seq![SpecTokenKind::RParen])[c.len() + 1int]);
        lemma_right_ok_closing(x, tr);
        lemma_parse_core(ts, k + 1, x, 0);
        lemma_loop_stops(ts, k + 1 + c.len(), x, 0);
        lemma_paren(ts, k, c, x, min);
    } else {
        lemma_parse_core(ts, k, x, min);
    }
}

/// An expression at token `k`, followed by a token that ends it at binding power `min`, is
/// read whole.
proof fn lemma_parse_expr(
    ts: TokenStream,
    k: nat,
    x: SpecExpr,
    pp: nat,
    pa: Assoc,
    r: bool,
    w: bool,
    min: nat,
)
    requires
        parse_ok(x),
        toks_at(ts, k, wrap_toks(toks_ctx(x, pp, pa, r), w)),
        k + wrap_toks(toks_ctx(x, pp, pa, r), w).len() < ts.toks.len(),
        stops(ts.toks[(k + wrap_toks(toks_ctx(x, pp, pa, r), w).len()) as int].kind, min),
        !w && !parens_needed(prec_of(x), pp, pa, r) ==> right_ok(
            x,
            ts.toks[(k + wrap_toks(toks_ctx(x, pp, pa, r), w).len()) as int].kind,
        ) && top_ok(x, min),
    ensures
        parse_bp(ts, k, min) == Ok::<(SpecExpr, nat), crate::error::SpecError>((x, k + wrap_toks(toks_ctx(x, pp, pa, r), w).len())),
    decreases x, if w {
        5nat
    } else {
        3nat
    },
{
    lemma_parse_operand(ts, k, x, pp, pa, r, w, min);
    lemma_loop_stops(ts, k + wrap_toks(toks_ctx(x, pp, pa, r), w).len(), x, min);
}

/// The tokens of `e`, without parentheses around the whole, bring the parser's loop at
/// binding power `min` to the token after them with `e` read.
proof fn lemma_parse_core(ts: TokenStream, k: nat, e: SpecExpr, min: nat)
    requires
        parse_ok(e),
        toks_at(ts, k, core_toks(e)),
        k + core_toks(e).len() < ts.toks.len(),
        right_ok(e, ts.toks[(k + core_toks(e).len()) as int].kind),
        top_ok(e, min),
    ensures
        parse_bp(ts, k, min) == parse_loop(ts, k + core_toks(e).len(), e, min),
    decreases e, 1nat,
{
    assert(ts.toks[(k + 0) as int].kind == core_toks(e)[0]);
    match e {
        SpecExpr::Ident(_) => {
            lemma_next(ts, k);
        },
        SpecExpr::Number(_) => {
            lemma_next(ts, k);
        },
        SpecExpr::Unary { .. } => lemma_parse_unary(ts, k, e, min),
        SpecExpr::Binary { .. } => lemma_parse_binary(ts, k, e, min),
        SpecExpr::Ternary { .. } => lemma_parse_ternary(ts, k, e, min),
        SpecExpr::Call { .. } => lemma_parse_call(ts, k, e, min),
        SpecExpr::Index { .. } => lemma_parse_index(ts, k, e, min),
        SpecExpr::Member { .. } => lemma_parse_member(ts, k, e, min),
        SpecExpr::Quant { .. } => lemma_parse_quant(ts, k, e, min),
    }
}

proof fn lemma_parse_unary(ts: TokenStream, k: nat, e: SpecExpr, min: nat)
    requires
        parse_ok(e),
        toks_at(ts, k, core_toks(e)),
        k + core_toks(e).len() < ts.toks.len(),
        right_ok(e, ts.toks[(k + core_toks(e).len()) as int].kind),
        top_ok(e, min),
        e is Unary,
    ensures
        parse_bp(ts, k, min) == parse_loop(ts, k + core_toks(e).len(), e, min),
    decreases e, 0nat,
{
    lemma_spellings();
    let c = core_toks(e);
    let n = c.len();
    let t = ts.toks[(k + n) as int].kind;
    assert(ts.toks[(k + 0) as int].kind == c[0]);
    match e {
        SpecExpr::Unary { op, expr } => {
            let xt = toks_ctx(*expr, 10, Assoc::Right, false);
            lemma_toks_at_split(ts, k, seq![SpecTokenKind::Op(op.spec_str())], xt);
            lemma_next(ts, k);
            lemma_parse_expr(ts, k + 1, *expr, 10, Assoc::Right, false, false, unary_rbp());
        },
        _ => {},
    }
}

proof fn lemma_parse_binary(ts: TokenStream, k: nat, e: SpecExpr, min: nat)
    requires
        parse_ok(e),
        toks_at(ts, k, core_toks(e)),
        k + core_toks(e).len() < ts.toks.len(),
        right_ok(e, ts.toks[(k + core_toks(e).len()) as int].kind),
        top_ok(e, min),
        e is Binary,
    ensures
        parse_bp(ts, k, min) == parse_loop(ts, k + core_toks(e).len(), e, min),
    decreases e, 0nat,
{
    lemma_spellings();
    let c = core_toks(e);
    let n = c.len();
    let t = ts.toks[(k + n) as int].kind;
    assert(ts.toks[(k + 0) as int].kind == c[0]);
    match e {
        SpecExpr::Binary { op, left, right } => {
            let p = op.spec_precedence() as nat;
            let a = op.spec_assoc();
            let lt = wrap_toks(toks_ctx(*left, p, a, false), child_parens_needed(*left, op));
            let rt = wrap_toks(toks_ctx(*right, p, a, true), child_parens_needed(*right, op));
            let ot = seq![SpecTokenKind::Op(op.spec_str())];
            assert(c =~= lt + (ot + rt));
            lemma_toks_at_split(ts, k, lt, ot + rt);
            lemma_toks_at_split(ts, k + lt.len(), ot, rt);
            assert(ts.toks[(k + lt.len() + 0) as int].kind == (ot + rt)[0]);
            lemma_parse_operand(ts, k, *left, p, a, false, child_parens_needed(*left, op), min);
            lemma_next(ts, k + lt.len());
            lemma_parse_expr(
                ts,
                k + lt.len() + 1,
                *right,
                p,
                a,
                true,
                child_parens_needed(*right, op),
                right_bp(op),
            );
        },
        _ => {},
    }
}

proof fn lemma_parse_ternary(ts: TokenStream, k: nat, e: SpecExpr, min: nat)
    requires
        parse_ok(e),
        toks_at(ts, k, core_toks(e)),
        k + core_toks(e).len() < ts.toks.len(),
        right_ok(e, ts.toks[(k + core_toks(e).len()) as int].kind),
        top_ok(e, min),
        e is Ternary,
    ensures
        parse_bp(ts, k, min) == parse_loop(ts, k + core_toks(e).len(), e, min),
    decreases e, 0nat,
{
    lemma_spellings();
    let c = core_toks(e);
    let n = c.len();
    let t = ts.toks[(k + n) as int].kind;
    assert(ts.toks[(k + 0) as int].kind == c[0]);
    match e {
        SpecExpr::Ternary { cond, then_expr, else_expr } => {
            let ct = toks_ctx(*cond, 1, Assoc::Right, false);
            let tt = toks_ctx(*then_expr, 1, Assoc::Right, false);
            let ft = toks_ctx(*else_expr, 1, Assoc::Right, true);
            let q = seq![SpecTokenKind::Question];
            let co = seq![SpecTokenKind::Colon];
            assert(c =~= ct + (q + (tt + (co + ft))));
            lemma_toks_at_split(ts, k, ct, q + (tt + (co + ft)));
            let k1 = k + ct.len();
            lemma_toks_at_split(ts, k1, q, tt + (co + ft));
            lemma_toks_at_split(ts, k1 + 1, tt, co + ft);
            let k2 = k1 + 1 + tt.len();
            lemma_toks_at_split(ts, k2, co, ft);
            assert(ts.toks[(k1 + 0) as int].kind == (q + (tt + (co + ft)))[0]);
            assert(ts.toks[(k2 + 0) as int].kind == (co + ft)[0]);
            lemma_parse_operand(ts, k, *cond, 1, Assoc::Right, false, false, min);
            lemma_next(ts, k1);
            lemma_right_ok_closing(*then_expr, SpecTokenKind::Colon);
            lemma_parse_expr(ts, k1 + 1, *then_expr, 1, Assoc::Right, false, false, 0);
            lemma_next(ts, k2);
            lemma_parse_expr(ts, k2 + 1, *else_expr, 1, Assoc::Right, true, false, 1);
        },
        _ => {},
    }
}

proof fn lemma_parse_call(ts: TokenStream, k: nat, e: SpecExpr, min: nat)
    requires
        parse_ok(e),
        toks_at(ts, k, core_toks(e)),
        k + core_toks(e).len() < ts.toks.len(),
        right_ok(e, ts.toks[(k + core_toks(e).len()) as int].kind),
        top_ok(e, min),
        e is Call,
    ensures
        parse_bp(ts, k, min) == parse_loop(ts, k + core_toks(e).len(), e, min),
    decreases e, 0nat,
{
    lemma_spellings();
    let c = core_toks(e);
    let n = c.len();
    let t = ts.toks[(k + n) as int].kind;
    assert(ts.toks[(k + 0) as int].kind == c[0]);
    match e {
        SpecExpr::Call { callee, args } => {
            let bt = wrap_toks(
                toks_ctx(*callee, 0, Assoc::Left, false),
                parens_needed(prec_of(*callee), 11, Assoc::Left, false),
            );
            let at = args_toks(args);
            let lp = seq![SpecTokenKind::LParen];
            let rp = seq![SpecTokenKind::RParen];
            assert(c =~= bt + (lp + (at + rp)));
            lemma_toks_at_split(ts, k, bt, lp + (at + rp));
            let k1 = k + bt.len();
            lemma_toks_at_split(ts, k1, lp, at + rp);
            assert(ts.toks[(k1 + 0) as int].kind == (lp + (at + rp))[0]);
            lemma_parse_operand(
                ts,
                k,
                *callee,
                0,
                Assoc::Left,
                false,
                parens_needed(prec_of(*callee), 11, Assoc::Left, false),
                min,
            );
            lemma_next(ts, k1);
            lemma_parse_args(ts, k1 + 1, Seq::empty(), args);
            assert(Seq::<SpecExpr>::empty() + args =~= args);
        },
        _ => {},
    }
}

proof fn lemma_parse_index(ts: TokenStream, k: nat, e: SpecExpr, min: nat)
    requires
        parse_ok(e),
        toks_at(ts, k, core_toks(e)),
        k + core_toks(e).len() < ts.toks.len(),
        right_ok(e, ts.toks[(k + core_toks(e).len()) as int].kind),
        top_ok(e, min),
        e is Index,
    ensures
        parse_bp(ts, k, min) == parse_loop(ts, k + core_toks(e).len(), e, min),
    decreases e, 0nat,
{
    lemma_spellings();
    let c = core_toks(e);
    let n = c.len();
    let t = ts.toks[(k + n) as int].kind;
    assert(ts.toks[(k + 0) as int].kind == c[0]);
    match e {
        SpecExpr::Index { base, index } => {
            let bt = wrap_toks(
                toks_ctx(*base, 0, Assoc::Left, false),
                parens_needed(prec_of(*base), 11, Assoc::Left, false),
            );
            let it = toks_ctx(*index, 0, Assoc::Left, false);
            let lb = seq![SpecTokenKind::LBracket];
            let rb = seq![SpecTokenKind::RBracket];
            assert(c =~= bt + (lb + (it + rb)));
            lemma_toks_at_split(ts, k, bt, lb + (it + rb));
            let k1 = k + bt.len();
            lemma_toks_at_split(ts, k1, lb, it + rb);
            lemma_toks_at_split(ts, k1 + 1, it, rb);
            assert(ts.toks[(k1 + 0) as int].kind == (lb + (it + rb))[0]);
            assert(ts.toks[(k1 + 1 + it.len() + 0) as int].kind == rb[0]);
            lemma_parse_operand(
                ts,
                k,
                *base,
                0,
                Assoc::Left,
                false,
                parens_needed(prec_of(*base), 11, Assoc::Left, false),
                min,
            );
            lemma_next(ts, k1);
            lemma_right_ok_closing(*index, SpecTokenKind::RBracket);
            lemma_parse_expr(ts, k1 + 1, *index, 0, Assoc::Left, false, false, 0);
            lemma_next(ts, k1 + 1 + it.len());
        },
        _ => {},
    }
}

proof fn lemma_parse_member(ts: TokenStream, k: nat, e: SpecExpr, min: nat)
    requires
        parse_ok(e),
        toks_at(ts, k, core_toks(e)),
        k + core_toks(e).len() < ts.toks.len(),
        right_ok(e, ts.toks[(k + core_toks(e).len()) as int].kind),
        top_ok(e, min),
        e is Member,
    ensures
        parse_bp(ts, k, min) == parse_loop(ts, k + core_toks(e).len(), e, min),
    decreases e, 0nat,
{
    lemma_spellings();
    let c = core_toks(e);
    let n = c.len();
    let t = ts.toks[(k + n) as int].kind;
    assert(ts.toks[(k + 0) as int].kind == c[0]);
    match e {
        SpecExpr::Member { base, op, field } => {
            let bt = wrap_toks(
                toks_ctx(*base, 0, Assoc::Left, false),
                parens_needed(prec_of(*base), 11, Assoc::Left, false),
            );
            let mt = seq![SpecTokenKind::Op(member_str(op)), SpecTokenKind::Ident(field)];
            lemma_toks_at_split(ts, k, bt, mt);
            let k1 = k + bt.len();
            assert(ts.toks[(k1 + 0) as int].kind == mt[0]);
            assert(ts.toks[(k1 + 1) as int].kind == mt[1]);
            lemma_parse_operand(
                ts,
                k,
                *base,
                0,
                Assoc::Left,
                false,
                parens_needed(prec_of(*base), 11, Assoc::Left, false),
                min,
            );
            lemma_next(ts, k1);
            lemma_next(ts, k1 + 1);
        },
        _ => {},
    }
}

proof fn lemma_parse_quant(ts: TokenStream, k: nat, e: SpecExpr, min: nat)
    requires
        parse_ok(e),
        toks_at(ts, k, core_toks(e)),
        k + core_toks(e).len() < ts.toks.len(),
        right_ok(e, ts.toks[(k + core_toks(e).len()) as int].kind),
        top_ok(e, min),
        e is Quant,
    ensures
        parse_bp(ts, k, min) == parse_loop(ts, k + core_toks(e).len(), e, min),
    decreases e, 0nat,
{
    lemma_spellings();
    let c = core_toks(e);
    let n = c.len();
    let t = ts.toks[(k + n) as int].kind;
    assert(ts.toks[(k + 0) as int].kind == c[0]);
    match e {
        SpecExpr::Quant { kind, vars, body } => {
            let kw = seq![
                match kind {
                    QuantKind::Forall => SpecTokenKind::KwForall,
                    QuantKind::Exists => SpecTokenKind::KwExists,
                },
            ];
            let vt = var_toks(vars);
            let sc = seq![SpecTokenKind::Semicolon];
            let bt = toks_ctx(*body, 0, Assoc::Right, true);
            assert(c =~= kw + ((vt + sc) + bt));
            lemma_toks_at_split(ts, k, kw, (vt + sc) + bt);
            lemma_toks_at_split(ts, k + 1, vt + sc, bt);
            lemma_next(ts, k);
            lemma_parse_binders(ts, k + 1, Seq::empty(), vars);
            assert(Seq::<Seq<char>>::empty() + vars =~= vars);
            let k2 = k + 1 + vt.len();
            lemma_toks_at_split(ts, k + 1, vt, sc);
            assert(ts.toks[(k + 1 + vt.len() + 0) as int].kind == sc[0]);
            lemma_next(ts, k2);
            lemma_parse_expr(ts, k2 + 1, *body, 0, Assoc::Right, true, false, 0);
            assert(k2 + 1 + bt.len() == k + n);
            assert(parse_quant(ts, k, kind, min) == parse_loop(ts, k + n, e, min));
            match kind {
                QuantKind::Forall => {
                    assert(ts.toks[k as int].kind == SpecTokenKind::KwForall);
                },
                QuantKind::Exists => {
                    assert(ts.toks[k as int].kind == SpecTokenKind::KwExists);
                },
            }
        },
        _ => {},
    }
}

/// The tokens of call arguments, then `)`, are read back as those arguments after `acc`.
proof fn lemma_parse_args(ts: TokenStream, k: nat, acc: Seq<SpecExpr>, args: Seq<SpecExpr>)
    requires
        all_parse_ok(args),
        acc.len() == 0 || args.len() > 0,
        toks_at(ts, k, args_toks(args) + seq![SpecTokenKind::RParen]),
        k + args_toks(args).len() + 1 < ts.toks.len(),
    ensures
        parse_args(ts, k, acc) == Ok::<(Seq<SpecExpr>, nat), crate::error::SpecError>((acc + args, k + args_toks(args).len() + 1)),
    decreases args, 3nat,
{
    let rp = seq![SpecTokenKind::RParen];
    if args.len() == 0 {
        assert(ts.toks[(k + 0) as int].kind == (args_toks(args) + rp)[0]);
        lemma_next(ts, k);
        assert(acc + args =~= acc);
    } else {
        let a0 = args[0];
        let t0 = toks_ctx(a0, 0, Assoc::Left, false);
        let rest = args.subrange(1, args.len() as int);
        lemma_toks_starts(a0, 0, Assoc::Left, false);
        if args.len() == 1 {
            lemma_toks_at_split(ts, k, t0, rp);
            assert(ts.toks[(k + 0) as int].kind == t0[0]);
            assert(ts.toks[(k + t0.len() + 0) as int].kind == rp[0]);
            lemma_right_ok_closing(a0, SpecTokenKind::RParen);
            lemma_parse_expr(ts, k, a0, 0, Assoc::Left, false, false, 0);
            lemma_next(ts, k + t0.len());
            assert(acc.push(a0) =~= acc + args);
        } else {
            let tail = seq![SpecTokenKind::Comma] + (args_toks(rest) + rp);
            assert(args_toks(args) + rp =~= t0 + tail);
            lemma_toks_at_split(ts, k, t0, tail);
            assert(ts.toks[(k + 0) as int].kind == t0[0]);
            assert(ts.toks[(k + t0.len() + 0) as int].kind == tail[0]);
            lemma_right_ok_closing(a0, SpecTokenKind::Comma);
            lemma_parse_expr(ts, k, a0, 0, Assoc::Left, false, false, 0);
            lemma_next(ts, k + t0.len());
            lemma_toks_at_split(ts, k + t0.len(), seq![SpecTokenKind::Comma], args_toks(rest) + rp);
            lemma_parse_args(ts, k + t0.len() + 1, acc.push(a0), rest);
            assert(acc.push(a0) + rest =~= acc + args);
        }
    }
}


/// Reading tokens one after another from index `i` gives the kinds `ks`, none of them the end,
/// and stops at index `j`.
pub open spec fn lexes_as(s: Seq<char>, i: nat, ks: Seq<SpecTokenKind>, j: nat) -> bool
    decreases ks.len(),
{
    if ks.len() == 0 {
        i == j
    } else {
        match lex_step(s, i) {
            Ok((t, i2)) => t.kind == ks[0] && !(t.kind is End) && lexes_as(s, i2, ks.drop_first(), j),
            Err(_) => false,
        }
    }
}

proof fn lemma_lexes_append(s: Seq<char>, i: nat, a: Seq<SpecTokenKind>, j: nat, b: Seq<SpecTokenKind>, k: nat)
    requires
        lexes_as(s, i, a, j),
        lexes_as(s, j, b, k),
    ensures
        lexes_as(s, i, a + b, k),
    decreases a.len(),
{
    if a.len() == 0 {
        assert(a + b =~= b);
    } else {
        let (t, i2) = lex_step(s, i)->Ok_0;
        lemma_lexes_append(s, i2, a.drop_first(), j, b, k);
        assert((a + b).drop_first() =~= a.drop_first() + b);
    }
}

/// The kinds of a list of tokens.
pub open spec fn kinds(toks: Seq<SpecToken>) -> Seq<SpecTokenKind> {
    toks.map_values(|t: SpecToken| t.kind)
}

proof fn lemma_lexes_stream(s: Seq<char>, i: nat, ks: Seq<SpecTokenKind>, j: nat)
    requires
        lexes_as(s, i, ks, j),
    ensures
        kinds(crate::parser::lex_from(s, i).toks) == ks + kinds(crate::parser::lex_from(s, j).toks),
        crate::parser::lex_from(s, i).err == crate::parser::lex_from(s, j).err,
    decreases ks.len(),
{
    if ks.len() == 0 {
        assert(ks + kinds(crate::parser::lex_from(s, j).toks) =~= kinds(crate::parser::lex_from(s, j).toks));
    } else {
        let (t, i2) = lex_step(s, i)->Ok_0;
        lemma_lexes_stream(s, i2, ks.drop_first(), j);
        let rest = crate::parser::lex_from(s, i2);
        assert(crate::parser::lex_from(s, i).toks == seq![t] + rest.toks);
        assert(kinds(seq![t] + rest.toks) =~= seq![t.kind] + kinds(rest.toks));
        assert(ks =~= seq![ks[0]] + ks.drop_first());
        assert(seq![t.kind] + (ks.drop_first() + kinds(crate::parser::lex_from(s, j).toks)) =~= ks + kinds(
            crate::parser::lex_from(s, j).toks,
        ));
    }
}

/// A text that reads as `ks` to its end is read by the parser as `ks` and the end marker.
proof fn lemma_lexes_whole(s: Seq<char>, ks: Seq<SpecTokenKind>)
    requires
        lexes_as(s, 0, ks, s.len()),
    ensures
        toks_at(crate::parser::lex_stream(s), 0, ks),
        crate::parser::lex_stream(s).toks.len() == ks.len() + 1,
        crate::parser::lex_stream(s).toks[ks.len() as int].kind is End,
{
    lemma_lexes_stream(s, 0, ks, s.len());
    let ts = crate::parser::lex_stream(s);
    let tail = crate::parser::lex_from(s, s.len());
    assert(skip_ws_from(s, s.len()) == s.len());
    assert(tail.toks.len() == 1);
    assert(kinds(tail.toks) =~= seq![SpecTokenKind::End]);
    assert(kinds(ts.toks).len() == ts.toks.len());
    assert forall|j: int| 0 <= j < ks.len() implies #[trigger] ts.toks[0 + j].kind == ks[j] by {
        assert(kinds(ts.toks)[j] == ts.toks[j].kind);
        assert((ks + kinds(tail.toks))[j] == ks[j]);
    }
    assert(kinds(ts.toks)[ks.len() as int] == (ks + kinds(tail.toks))[ks.len() as int]);
}

/// Whitespace characters start no token.
proof fn lemma_ws_classes(c: char)
    requires
        is_ws(c),
    ensures
        !ident_continue(c),
        !ident_start(c),
        !is_digit(c),
{
}

/// A text at `i` is what `occurs_at` says, character by character.
proof fn lemma_occurs_chars(s: Seq<char>, p: Seq<char>, i: nat)
    requires
        occurs_at(s, p, i as int),
    ensures
        forall|j: int| 0 <= j < p.len() ==> #[trigger] s[i + j] == p[j],
{
    assert forall|j: int| 0 <= j < p.len() implies #[trigger] s[i + j] == p[j] by {
        assert(s.subrange(i as int, (i + p.len()) as int)[j] == s[i + j]);
    }
}

proof fn lemma_occurs_split(s: Seq<char>, a: Seq<char>, b: Seq<char>, i: nat)
    requires
        occurs_at(s, a + b, i as int),
    ensures
        occurs_at(s, a, i as int),
        occurs_at(s, b, (i + a.len()) as int),
{
    lemma_occurs_chars(s, a + b, i);
    assert(s.subrange(i as int, (i + a.len()) as int) =~= a) by {
        assert forall|j: int| 0 <= j < a.len() implies s.subrange(i as int, (i + a.len()) as int)[j] == a[j] by {
            assert(s[i + j] == (a + b)[j]);
        }
    }
    assert(s.subrange((i + a.len()) as int, (i + a.len() + b.len()) as int) =~= b) by {
        assert forall|j: int| 0 <= j < b.len() implies s.subrange((i + a.len()) as int, (i + a.len() + b.len()) as int)[j] == b[j] by {
            assert(s[i + (a.len() + j)] == (a + b)[a.len() + j]);
        }
    }
}

proof fn lemma_ident_run(s: Seq<char>, i: nat, e: nat)
    requires
        i <= e <= s.len(),
        forall|j: int| i <= j < e ==> ident_continue(#[trigger] s[j]),
        e == s.len() || !ident_continue(s[e as int]),
    ensures
        ident_end(s, i) == e,
    decreases e - i,
{
    if i < e {
        lemma_ident_run(s, i + 1, e);
    }
}

proof fn lemma_digit_run(s: Seq<char>, i: nat, e: nat)
    requires
        i <= e <= s.len(),
        forall|j: int| i <= j < e ==> is_digit(#[trigger] s[j]),
        e == s.len() || !is_digit(s[e as int]),
    ensures
        digits_end(s, i) == e,
    decreases e - i,
{
    if i < e {
        lemma_digit_run(s, i + 1, e);
    }
}

/// A name, not followed by another name character, reads as one name token.
pub open spec fn valid_name(n: Seq<char>) -> bool {
    &&& n.len() > 0
    &&& ident_start(n[0])
    &&& forall|j: int| 0 <= j < n.len() ==> ident_continue(#[trigger] n[j])
    &&& n != forall_text()
    &&& n != exists_text()
}

/// A nonempty run of decimal digits.
pub open spec fn valid_number(n: Seq<char>) -> bool {
    &&& n.len() > 0
    &&& forall|j: int| 0 <= j < n.len() ==> is_digit(#[trigger] n[j])
}

/// After index `j` no name character follows.
pub open spec fn name_ends(s: Seq<char>, j: nat) -> bool {
    j >= s.len() || !ident_continue(s[j as int])
}

proof fn lemma_lex_name(s: Seq<char>, i: nat, n: Seq<char>)
    requires
        valid_name(n),
        occurs_at(s, n, i as int),
        name_ends(s, i + n.len()),
    ensures
        lexes_as(s, i, seq![SpecTokenKind::Ident(n)], i + n.len()),
{
    lemma_occurs_chars(s, n, i);
    assert(s[i as int] == n[0]);
    if is_ws(s[i as int]) {
        lemma_ws_classes(s[i as int]);
    }
    assert(skip_ws_from(s, i) == i);
    assert forall|j: int| i + 1 <= j < i + n.len() implies ident_continue(#[trigger] s[j]) by {
        assert(s[i + (j - i)] == n[j - i]);
    }
    lemma_ident_run(s, i + 1, i + n.len());
    assert(s.subrange(i as int, (i + n.len()) as int) == n);
    assert(word_kind(n) == SpecTokenKind::Ident(n));
    assert(ident_start(s[i as int]));
    assert(lex_step(s, i) == Ok::<(SpecToken, nat), crate::error::SpecError>((SpecToken { kind: SpecTokenKind::Ident(n), pos: i }, i + n.len())));
    assert(seq![SpecTokenKind::Ident(n)].drop_first().len() == 0);
    assert(lexes_as(s, i + n.len(), seq![SpecTokenKind::Ident(n)].drop_first(), i + n.len()));
}

proof fn lemma_lex_number(s: Seq<char>, i: nat, n: Seq<char>)
    requires
        valid_number(n),
        occurs_at(s, n, i as int),
        name_ends(s, i + n.len()),
    ensures
        lexes_as(s, i, seq![SpecTokenKind::Number(n)], i + n.len()),
{
    lemma_occurs_chars(s, n, i);
    assert(s[i as int] == n[0]);
    assert(is_digit(n[0]));
    assert(skip_ws_from(s, i) == i);
    assert forall|j: int| i + 1 <= j < i + n.len() implies is_digit(#[trigger] s[j]) by {
        assert(s[i + (j - i)] == n[j - i]);
    }
    lemma_digit_run(s, i + 1, i + n.len());
    assert(s.subrange(i as int, (i + n.len()) as int) == n);
    assert(!ident_start(s[i as int]));
    assert(lex_step(s, i) == Ok::<(SpecToken, nat), crate::error::SpecError>((SpecToken { kind: SpecTokenKind::Number(n), pos: i }, i + n.len())));
    assert(seq![SpecTokenKind::Number(n)].drop_first().len() == 0);
    assert(lexes_as(s, i + n.len(), seq![SpecTokenKind::Number(n)].drop_first(), i + n.len()));
}

proof fn lemma_lex_keyword(s: Seq<char>, i: nat, kind: QuantKind)
    requires
        occurs_at(s, kind.spec_str(), i as int),
        name_ends(s, i + 7),
    ensures
        lexes_as(
            s,
            i,
            seq![
                match kind {
                    QuantKind::Forall => SpecTokenKind::KwForall,
                    QuantKind::Exists => SpecTokenKind::KwExists,
                },
            ],
            i + 7,
        ),
{
    let n = kind.spec_str();
    lemma_occurs_chars(s, n, i);
    assert(s[i as int] == n[0]);
    assert(skip_ws_from(s, i) == i);
    assert forall|j: int| i + 1 <= j < i + 7 implies ident_continue(#[trigger] s[j]) by {
        assert(s[i + (j - i)] == n[j - i]);
    }
    lemma_ident_run(s, i + 1, i + 7);
    assert(s.subrange(i as int, (i + 7) as int) == n);
    let kk = match kind {
        QuantKind::Forall => SpecTokenKind::KwForall,
        QuantKind::Exists => SpecTokenKind::KwExists,
    };
    assert(n =~= forall_text() || n =~= exists_text());
    assert(word_kind(n) == kk);
    assert(ident_start(s[i as int]));
    assert(lex_step(s, i) == Ok::<(SpecToken, nat), crate::error::SpecError>((SpecToken { kind: kk, pos: i }, i + 7)));
    assert(seq![kk].drop_first().len() == 0);
    assert(lexes_as(s, i + 7, seq![kk].drop_first(), i + 7));
}

/// A punctuation character reads as its token.
proof fn lemma_lex_punct(s: Seq<char>, i: nat)
    requires
        i < s.len(),
        punct_kind(s[i as int]) is Some,
    ensures
        lexes_as(s, i, seq![punct_kind(s[i as int])->0], i + 1),
{
    assert(skip_ws_from(s, i) == i);
    assert(!ident_start(s[i as int]) && !is_digit(s[i as int]));
    let kk = punct_kind(s[i as int])->0;
    assert(lex_step(s, i) == Ok::<(SpecToken, nat), crate::error::SpecError>((SpecToken { kind: kk, pos: i }, i + 1)));
    assert(seq![kk].drop_first().len() == 0);
    assert(lexes_as(s, i + 1, seq![kk].drop_first(), i + 1));
}

/// A space before a token is skipped.
proof fn lemma_lex_space(s: Seq<char>, i: nat, ks: Seq<SpecTokenKind>, j: nat)
    requires
        i < s.len(),
        s[i as int] == ' ',
        ks.len() > 0,
        lexes_as(s, i + 1, ks, j),
    ensures
        lexes_as(s, i, ks, j),
{
    assert(skip_ws_from(s, i) == skip_ws_from(s, i + 1));
}


/// After index `j` nothing follows that would lengthen an operator spelling.
pub open spec fn op_ends(s: Seq<char>, j: nat) -> bool {
    j >= s.len() || (s[j as int] != '=' && s[j as int] != '>')
}

proof fn lemma_absent_at(s: Seq<char>, q: Seq<char>, i: nat, j: int)
    requires
        0 <= j < q.len(),
        i + j >= s.len() || s[i + j] != q[j],
    ensures
        !occurs_at(s, q, i as int),
{
    if occurs_at(s, q, i as int) {
        assert(s.subrange(i as int, (i + q.len()) as int)[j] == s[i + j]);
    }
}

proof fn lemma_first_op_walk(s: Seq<char>, i: nat, ops: Seq<Seq<char>>, m: int)
    requires
        0 <= m < ops.len(),
        occurs_at(s, ops[m], i as int),
        forall|mm: int| 0 <= mm < m ==> !occurs_at(s, #[trigger] ops[mm], i as int),
    ensures
        first_op(s, i, ops) == Some(ops[m]),
    decreases m,
{
    if m > 0 {
        assert(!occurs_at(s, ops[0], i as int));
        let rest = ops.drop_first();
        assert forall|mm: int| 0 <= mm < m - 1 implies !occurs_at(s, #[trigger] rest[mm], i as int) by {
            assert(rest[mm] == ops[mm + 1]);
        }
        lemma_first_op_walk(s, i, rest, m - 1);
    }
}

/// No spelling tried before the one that occurs at `i` occurs there, when no operator character
/// follows it.
proof fn lemma_op_earlier_absent(s: Seq<char>, i: nat, m: int)
    requires
        0 <= m < 18,
        occurs_at(s, operator_spellings()[m], i as int),
        op_ends(s, i + operator_spellings()[m].len()),
    ensures
        forall|mm: int| 0 <= mm < m ==> !occurs_at(s, #[trigger] operator_spellings()[mm], i as int),
{
    let ops = operator_spellings();
    lemma_occurs_chars(s, ops[m], i);
    assert(ops[0] == seq!['<', '=', '=', '>']);
    assert(ops[1] == seq!['=', '=', '>']);
    assert(ops[2] == seq!['&', '&']);
    assert(ops[3] == seq!['|', '|']);
    assert(ops[4] == seq!['=', '=']);
    assert(ops[5] == seq!['!', '=']);
    assert(ops[6] == seq!['<', '=']);
    assert(ops[7] == seq!['>', '=']);
    assert(ops[8] == seq!['-', '>']);
    assert(ops[9] == seq!['<']);
    assert(ops[10] == seq!['>']);
    assert(ops[11] == seq!['+']);
    assert(ops[12] == seq!['-']);
    assert(ops[13] == seq!['*']);
    assert(ops[14] == seq!['/']);
    assert(ops[15] == seq!['%']);
    assert(ops[16] == seq!['!']);
    assert(ops[17] == seq!['.']);
    if m == 1 {
        assert(s[i as int] == ops[m][0]);
        lemma_absent_at(s, ops[0], i, 0);
        assert forall|mm: int| 0 <= mm < m implies !occurs_at(s, #[trigger] ops[mm], i as int) by {
            if mm == 0 {}
        }
    }
    if m == 2 {
        assert(s[i as int] == ops[m][0]);
        lemma_absent_at(s, ops[0], i, 0);
        lemma_absent_at(s, ops[1], i, 0);
        assert forall|mm: int| 0 <= mm < m implies !occurs_at(s, #[trigger] ops[mm], i as int) by {
            if mm == 0 {}
            if mm == 1 {}
        }
    }
    if m == 3 {
        assert(s[i as int] == ops[m][0]);
        lemma_absent_at(s, ops[0], i, 0);
        lemma_absent_at(s, ops[1], i, 0);
        lemma_absent_at(s, ops[2], i, 0);
        assert forall|mm: int| 0 <= mm < m implies !occurs_at(s, #[trigger] ops[mm], i as int) by {
            if mm == 0 {}
            if mm == 1 {}
            if mm == 2 {}
        }
    }
    if m == 4 {
        assert(s[i as int] == ops[m][0]);
        lemma_absent_at(s, ops[0], i, 0);
        lemma_absent_at(s, ops[1], i, 2);
        lemma_absent_at(s, ops[2], i, 0);
        lemma_absent_at(s, ops[3], i, 0);
        assert forall|mm: int| 0 <= mm < m implies !occurs_at(s, #[trigger] ops[mm], i as int) by {
            if mm == 0 {}
            if mm == 1 {}
            if mm == 2 {}
            if mm == 3 {}
        }
    }
    if m == 5 {
        assert(s[i as int] == ops[m][0]);
        lemma_absent_at(s, ops[0], i, 0);
        lemma_absent_at(s, ops[1], i, 0);
        lemma_absent_at(s, ops[2], i, 0);
        lemma_absent_at(s, ops[3], i, 0);
        lemma_absent_at(s, ops[4], i, 0);
        assert forall|mm: int| 0 <= mm < m implies !occurs_at(s, #[trigger] ops[mm], i as int) by {
            if mm == 0 {}
            if mm == 1 {}
            if mm == 2 {}
            if mm == 3 {}
            if mm == 4 {}
        }
    }
    if m == 6 {
        assert(s[i as int] == ops[m][0]);
        lemma_absent_at(s, ops[0], i, 2);
        lemma_absent_at(s, ops[1], i, 0);
        lemma_absent_at(s, ops[2], i, 0);
        lemma_absent_at(s, ops[3], i, 0);
        lemma_absent_at(s, ops[4], i, 0);
        lemma_absent_at(s, ops[5], i, 0);
        assert forall|mm: int| 0 <= mm < m implies !occurs_at(s, #[trigger] ops[mm], i as int) by {
            if mm == 0 {}
            if mm == 1 {}
            if mm == 2 {}
            if mm == 3 {}
            if mm == 4 {}
            if mm == 5 {}
        }
    }
    if m == 7 {
        assert(s[i as int] == ops[m][0]);
        lemma_absent_at(s, ops[0], i, 0);
        lemma_absent_at(s, ops[1], i, 0);
        lemma_absent_at(s, ops[2], i, 0);
        lemma_absent_at(s, ops[3], i, 0);
        lemma_absent_at(s, ops[4], i, 0);
        lemma_absent_at(s, ops[5], i, 0);
        lemma_absent_at(s, ops[6], i, 0);
        assert forall|mm: int| 0 <= mm < m implies !occurs_at(s, #[trigger] ops[mm], i as int) by {
            if mm == 0 {}
            if mm == 1 {}
            if mm == 2 {}
            if mm == 3 {}
            if mm == 4 {}
            if mm == 5 {}
            if mm == 6 {}
        }
    }
    if m == 8 {
        assert(s[i as int] == ops[m][0]);
        lemma_absent_at(s, ops[0], i, 0);
        lemma_absent_at(s, ops[1], i, 0);
        lemma_absent_at(s, ops[2], i, 0);
        lemma_absent_at(s, ops[3], i, 0);
        lemma_absent_at(s, ops[4], i, 0);
        lemma_absent_at(s, ops[5], i, 0);
        lemma_absent_at(s, ops[6], i, 0);
        lemma_absent_at(s, ops[7], i, 0);
        assert forall|mm: int| 0 <= mm < m implies !occurs_at(s, #[trigger] ops[mm], i as int) by {
            if mm == 0 {}
            if mm == 1 {}
            if mm == 2 {}
            if mm == 3 {}
            if mm == 4 {}
            if mm == 5 {}
            if mm == 6 {}
            if mm == 7 {}
        }
    }
    if m == 9 {
        assert(s[i as int] == ops[m][0]);
        lemma_absent_at(s, ops[0], i, 1);
        lemma_absent_at(s, ops[1], i, 0);
        lemma_absent_at(s, ops[2], i, 0);
        lemma_absent_at(s, ops[3], i, 0);
        lemma_absent_at(s, ops[4], i, 0);
        lemma_absent_at(s, ops[5], i, 0);
        lemma_absent_at(s, ops[6], i, 1);
        lemma_absent_at(s, ops[7], i, 0);
        lemma_absent_at(s, ops[8], i, 0);
        assert forall|mm: int| 0 <= mm < m implies !occurs_at(s, #[trigger] ops[mm], i as int) by {
            if mm == 0 {}
            if mm == 1 {}
            if mm == 2 {}
            if mm == 3 {}
            if mm == 4 {}
            if mm == 5 {}
            if mm == 6 {}
            if mm == 7 {}
            if mm == 8 {}
        }
    }
    if m == 10 {
        assert(s[i as int] == ops[m][0]);
        lemma_absent_at(s, ops[0], i, 0);
        lemma_absent_at(s, ops[1], i, 0);
        lemma_absent_at(s, ops[2], i, 0);
        lemma_absent_at(s, ops[3], i, 0);
        lemma_absent_at(s, ops[4], i, 0);
        lemma_absent_at(s, ops[5], i, 0);
        lemma_absent_at(s, ops[6], i, 0);
        lemma_absent_at(s, ops[7], i, 1);
        lemma_absent_at(s, ops[8], i, 0);
        lemma_absent_at(s, ops[9], i, 0);
        assert forall|mm: int| 0 <= mm < m implies !occurs_at(s, #[trigger] ops[mm], i as int) by {
            if mm == 0 {}
            if mm == 1 {}
            if mm == 2 {}
            if mm == 3 {}
            if mm == 4 {}
            if mm == 5 {}
            if mm == 6 {}
            if mm == 7 {}
            if mm == 8 {}
            if mm == 9 {}
        }
    }
    if m == 11 {
        assert(s[i as int] == ops[m][0]);
        lemma_absent_at(s, ops[0], i, 0);
        lemma_absent_at(s, ops[1], i, 0);
        lemma_absent_at(s, ops[2], i, 0);
        lemma_absent_at(s, ops[3], i, 0);
        lemma_absent_at(s, ops[4], i, 0);
        lemma_absent_at(s, ops[5], i, 0);
        lemma_absent_at(s, ops[6], i, 0);
        lemma_absent_at(s, ops[7], i, 0);
        lemma_absent_at(s, ops[8], i, 0);
        lemma_absent_at(s, ops[9], i, 0);
        lemma_absent_at(s, ops[10], i, 0);
        assert forall|mm: int| 0 <= mm < m implies !occurs_at(s, #[trigger] ops[mm], i as int) by {
            if mm == 0 {}
            if mm == 1 {}
            if mm == 2 {}
            if mm == 3 {}
            if mm == 4 {}
            if mm == 5 {}
            if mm == 6 {}
            if mm == 7 {}
            if mm == 8 {}
            if mm == 9 {}
            if mm == 10 {}
        }
    }
    if m == 12 {
        assert(s[i as int] == ops[m][0]);
        lemma_absent_at(s, ops[0], i, 0);
        lemma_absent_at(s, ops[1], i, 0);
        lemma_absent_at(s, ops[2], i, 0);
        lemma_absent_at(s, ops[3], i, 0);
        lemma_absent_at(s, ops[4], i, 0);
        lemma_absent_at(s, ops[5], i, 0);
        lemma_absent_at(s, ops[6], i, 0);
        lemma_absent_at(s, ops[7], i, 0);
        lemma_absent_at(s, ops[8], i, 1);
        lemma_absent_at(s, ops[9], i, 0);
        lemma_absent_at(s, ops[10], i, 0);
        lemma_absent_at(s, ops[11], i, 0);
        assert forall|mm: int| 0 <= mm < m implies !occurs_at(s, #[trigger] ops[mm], i as int) by {
            if mm == 0 {}
            if mm == 1 {}
            if mm == 2 {}
            if mm == 3 {}
            if mm == 4 {}
            if mm == 5 {}
            if mm == 6 {}
            if mm == 7 {}
            if mm == 8 {}
            if mm == 9 {}
            if mm == 10 {}
            if mm == 11 {}
        }
    }
    if m == 13 {
        assert(s[i as int] == ops[m][0]);
        lemma_absent_at(s, ops[0], i, 0);
        lemma_absent_at(s, ops[1], i, 0);
        lemma_absent_at(s, ops[2], i, 0);
        lemma_absent_at(s, ops[3], i, 0);
        lemma_absent_at(s, ops[4], i, 0);
        lemma_absent_at(s, ops[5], i, 0);
        lemma_absent_at(s, ops[6], i, 0);
        lemma_absent_at(s, ops[7], i, 0);
        lemma_absent_at(s, ops[8], i, 0);
        lemma_absent_at(s, ops[9], i, 0);
        lemma_absent_at(s, ops[10], i, 0);
        lemma_absent_at(s, ops[11], i, 0);
        lemma_absent_at(s, ops[12], i, 0);
        assert forall|mm: int| 0 <= mm < m implies !occurs_at(s, #[trigger] ops[mm], i as int) by {
            if mm == 0 {}
            if mm == 1 {}
            if mm == 2 {}
            if mm == 3 {}
            if mm == 4 {}
            if mm == 5 {}
            if mm == 6 {}
            if mm == 7 {}
            if mm == 8 {}
            if mm == 9 {}
            if mm == 10 {}
            if mm == 11 {}
            if mm == 12 {}
        }
    }
    if m == 14 {
        assert(s[i as int] == ops[m][0]);
        lemma_absent_at(s, ops[0], i, 0);
        lemma_absent_at(s, ops[1], i, 0);
        lemma_absent_at(s, ops[2], i, 0);
        lemma_absent_at(s, ops[3], i, 0);
        lemma_absent_at(s, ops[4], i, 0);
        lemma_absent_at(s, ops[5], i, 0);
        lemma_absent_at(s, ops[6], i, 0);
        lemma_absent_at(s, ops[7], i, 0);
        lemma_absent_at(s, ops[8], i, 0);
        lemma_absent_at(s, ops[9], i, 0);
        lemma_absent_at(s, ops[10], i, 0);
        lemma_absent_at(s, ops[11], i, 0);
        lemma_absent_at(s, ops[12], i, 0);
        lemma_absent_at(s, ops[13], i, 0);
        assert forall|mm: int| 0 <= mm < m implies !occurs_at(s, #[trigger] ops[mm], i as int) by {
            if mm == 0 {}
            if mm == 1 {}
            if mm == 2 {}
            if mm == 3 {}
            if mm == 4 {}
            if mm == 5 {}
            if mm == 6 {}
            if mm == 7 {}
            if mm == 8 {}
            if mm == 9 {}
            if mm == 10 {}
            if mm == 11 {}
            if mm == 12 {}
            if mm == 13 {}
        }
    }
    if m == 15 {
        assert(s[i as int] == ops[m][0]);
        lemma_absent_at(s, ops[0], i, 0);
        lemma_absent_at(s, ops[1], i, 0);
        lemma_absent_at(s, ops[2], i, 0);
        lemma_absent_at(s, ops[3], i, 0);
        lemma_absent_at(s, ops[4], i, 0);
        lemma_absent_at(s, ops[5], i, 0);
        lemma_absent_at(s, ops[6], i, 0);
        lemma_absent_at(s, ops[7], i, 0);
        lemma_absent_at(s, ops[8], i, 0);
        lemma_absent_at(s, ops[9], i, 0);
        lemma_absent_at(s, ops[10], i, 0);
        lemma_absent_at(s, ops[11], i, 0);
        lemma_absent_at(s, ops[12], i, 0);
        lemma_absent_at(s, ops[13], i, 0);
        lemma_absent_at(s, ops[14], i, 0);
        assert forall|mm: int| 0 <= mm < m implies !occurs_at(s, #[trigger] ops[mm], i as int) by {
            if mm == 0 {}
            if mm == 1 {}
            if mm == 2 {}
            if mm == 3 {}
            if mm == 4 {}
            if mm == 5 {}
            if mm == 6 {}
            if mm == 7 {}
            if mm == 8 {}
            if mm == 9 {}
            if mm == 10 {}
            if mm == 11 {}
            if mm == 12 {}
            if mm == 13 {}
            if mm == 14 {}
        }
    }
    if m == 16 {
        assert(s[i as int] == ops[m][0]);
        lemma_absent_at(s, ops[0], i, 0);
        lemma_absent_at(s, ops[1], i, 0);
        lemma_absent_at(s, ops[2], i, 0);
        lemma_absent_at(s, ops[3], i, 0);
        lemma_absent_at(s, ops[4], i, 0);
        lemma_absent_at(s, ops[5], i, 1);
        lemma_absent_at(s, ops[6], i, 0);
        lemma_absent_at(s, ops[7], i, 0);
        lemma_absent_at(s, ops[8], i, 0);
        lemma_absent_at(s, ops[9], i, 0);
        lemma_absent_at(s, ops[10], i, 0);
        lemma_absent_at(s, ops[11], i, 0);
        lemma_absent_at(s, ops[12], i, 0);
        lemma_absent_at(s, ops[13], i, 0);
        lemma_absent_at(s, ops[14], i, 0);
        lemma_absent_at(s, ops[15], i, 0);
        assert forall|mm: int| 0 <= mm < m implies !occurs_at(s, #[trigger] ops[mm], i as int) by {
            if mm == 0 {}
            if mm == 1 {}
            if mm == 2 {}
            if mm == 3 {}
            if mm == 4 {}
            if mm == 5 {}
            if mm == 6 {}
            if mm == 7 {}
            if mm == 8 {}
            if mm == 9 {}
            if mm == 10 {}
            if mm == 11 {}
            if mm == 12 {}
            if mm == 13 {}
            if mm == 14 {}
            if mm == 15 {}
        }
    }
    if m == 17 {
        assert(s[i as int] == ops[m][0]);
        lemma_absent_at(s, ops[0], i, 0);
        lemma_absent_at(s, ops[1], i, 0);
        lemma_absent_at(s, ops[2], i, 0);
        lemma_absent_at(s, ops[3], i, 0);
        lemma_absent_at(s, ops[4], i, 0);
        lemma_absent_at(s, ops[5], i, 0);
        lemma_absent_at(s, ops[6], i, 0);
        lemma_absent_at(s, ops[7], i, 0);
        lemma_absent_at(s, ops[8], i, 0);
        lemma_absent_at(s, ops[9], i, 0);
        lemma_absent_at(s, ops[10], i, 0);
        lemma_absent_at(s, ops[11], i, 0);
        lemma_absent_at(s, ops[12], i, 0);
        lemma_absent_at(s, ops[13], i, 0);
        lemma_absent_at(s, ops[14], i, 0);
        lemma_absent_at(s, ops[15], i, 0);
        lemma_absent_at(s, ops[16], i, 0);
        assert forall|mm: int| 0 <= mm < m implies !occurs_at(s, #[trigger] ops[mm], i as int) by {
            if mm == 0 {}
            if mm == 1 {}
            if mm == 2 {}
            if mm == 3 {}
            if mm == 4 {}
            if mm == 5 {}
            if mm == 6 {}
            if mm == 7 {}
            if mm == 8 {}
            if mm == 9 {}
            if mm == 10 {}
            if mm == 11 {}
            if mm == 12 {}
            if mm == 13 {}
            if mm == 14 {}
            if mm == 15 {}
            if mm == 16 {}
        }
    }
}

/// An operator spelling not followed by an operator character reads as one operator token.
proof fn lemma_lex_op(s: Seq<char>, i: nat, m: int)
    requires
        0 <= m < 18,
        occurs_at(s, operator_spellings()[m], i as int),
        op_ends(s, i + operator_spellings()[m].len()),
    ensures
        lexes_as(
            s,
            i,
            seq![SpecTokenKind::Op(operator_spellings()[m])],
            i + operator_spellings()[m].len(),
        ),
{
    let ops = operator_spellings();
    let o = ops[m];
    lemma_op_earlier_absent(s, i, m);
    lemma_first_op_walk(s, i, ops, m);
    lemma_occurs_chars(s, o, i);
    assert(ops[0] == seq!['<', '=', '=', '>']);
    assert(ops[1] == seq!['=', '=', '>']);
    assert(ops[2] == seq!['&', '&']);
    assert(ops[3] == seq!['|', '|']);
    assert(ops[4] == seq!['=', '=']);
    assert(ops[5] == seq!['!', '=']);
    assert(ops[6] == seq!['<', '=']);
    assert(ops[7] == seq!['>', '=']);
    assert(ops[8] == seq!['-', '>']);
    assert(ops[9] == seq!['<']);
    assert(ops[10] == seq!['>']);
    assert(ops[11] == seq!['+']);
    assert(ops[12] == seq!['-']);
    assert(ops[13] == seq!['*']);
    assert(ops[14] == seq!['/']);
    assert(ops[15] == seq!['%']);
    assert(ops[16] == seq!['!']);
    assert(ops[17] == seq!['.']);
    assert(s[i as int] == o[0]);
    assert(!is_ws(o[0]));
    assert(!is_ws(s[i as int]));
    assert(skip_ws_from(s, i) == i);
    assert(!ident_start(s[i as int]) && !is_digit(s[i as int]));
    assert(punct_kind(s[i as int]) is None);
    let kk = SpecTokenKind::Op(o);
    assert(lex_step(s, i) == Ok::<(SpecToken, nat), crate::error::SpecError>((SpecToken { kind: kk, pos: i }, i + o.len())));
    assert(seq![kk].drop_first().len() == 0);
    assert(lexes_as(s, i + o.len(), seq![kk].drop_first(), i + o.len()));
}

/// Every name and number of `e` reads back as one token of its own: names are runs of name
/// characters that start as a name does and are no keyword, numbers are runs of digits.
pub open spec fn names_ok(e: SpecExpr) -> bool
    decreases e, 1nat,
{
    match e {
        SpecExpr::Ident(n) => valid_name(n),
        SpecExpr::Number(n) => valid_number(n),
        SpecExpr::Unary { expr, .. } => names_ok(*expr),
        SpecExpr::Binary { left, right, .. } => names_ok(*left) && names_ok(*right),
        SpecExpr::Ternary { cond, then_expr, else_expr } => names_ok(*cond) && names_ok(*then_expr)
            && names_ok(*else_expr),
        SpecExpr::Call { callee, args } => names_ok(*callee) && all_names_ok(args),
        SpecExpr::Index { base, index } => names_ok(*base) && names_ok(*index),
        SpecExpr::Member { base, field, .. } => names_ok(*base) && valid_name(field),
        SpecExpr::Quant { vars, body, .. } => vars_ok(vars) && names_ok(*body),
    }
}

pub open spec fn all_names_ok(args: Seq<SpecExpr>) -> bool
    decreases args, 2nat,
{
    if args.len() == 0 {
        true
    } else {
        names_ok(args[0]) && all_names_ok(args.subrange(1, args.len() as int))
    }
}

/// Binders that are names separated by single spaces.
pub open spec fn vars_ok(vars: Seq<Seq<char>>) -> bool {
    &&& vars.len() > 0
    &&& forall|i: int, j: int|
        0 <= i < vars.len() && 0 <= j < split_on(vars[i], ' ').len() ==> valid_name(
            #[trigger] split_on(vars[i], ' ')[j],
        )
}

/// The text of a node in any context is its text at the top, in parentheses where the
/// context needs them.
pub proof fn lemma_format_ctx(e: SpecExpr, pp: nat, pa: Assoc, r: bool)
    requires
        pp <= 11,
    ensures
        format_ctx(e, pp, pa, r) == wrap_if(
            format_ctx(e, 0, Assoc::Left, false),
            parens_needed(prec_of(e), pp, pa, r),
        ),
{
    match e {
        SpecExpr::Ident(_) => {},
        SpecExpr::Number(_) => {},
        _ => {},
    }
}

/// The text of a node is not empty and does not start with a character that would lengthen
/// an operator written right before it.
proof fn lemma_first_char(e: SpecExpr, pp: nat, pa: Assoc, r: bool)
    requires
        pp <= 11,
        names_ok(e),
    ensures
        format_ctx(e, pp, pa, r).len() > 0,
        format_ctx(e, pp, pa, r)[0] != '=',
        format_ctx(e, pp, pa, r)[0] != '>',
    decreases e,
{
    lemma_format_ctx(e, pp, pa, r);
    let c = format_ctx(e, 0, Assoc::Left, false);
    if !parens_needed(prec_of(e), pp, pa, r) {
        match e {
            SpecExpr::Ident(n) => {
                assert(ident_start(n[0]));
            },
            SpecExpr::Number(n) => {
                assert(is_digit(n[0]));
            },
            SpecExpr::Unary { op, expr } => {
                assert(c[0] == op.spec_str()[0]);
            },
            SpecExpr::Binary { op, left, right } => {
                let p = op.spec_precedence() as nat;
                lemma_first_char(*left, p, op.spec_assoc(), false);
            },
            SpecExpr::Ternary { cond, .. } => {
                lemma_first_char(*cond, 1, Assoc::Right, false);
            },
            SpecExpr::Call { callee, .. } => {
                lemma_first_char(*callee, 0, Assoc::Left, false);
            },
            SpecExpr::Index { base, .. } => {
                lemma_first_char(*base, 0, Assoc::Left, false);
            },
            SpecExpr::Member { base, .. } => {
                lemma_first_char(*base, 0, Assoc::Left, false);
            },
            SpecExpr::Quant { kind, .. } => {
                assert(c[0] == kind.spec_str()[0]);
            },
        }
    }
}

/// Where a binary operator's spelling stands in the lexer's list.
pub open spec fn binop_index(op: BinaryOp) -> int {
    match op {
        BinaryOp::Iff => 0,
        BinaryOp::Implies => 1,
        BinaryOp::And => 2,
        BinaryOp::Or => 3,
        BinaryOp::Eq => 4,
        BinaryOp::Ne => 5,
        BinaryOp::Le => 6,
        BinaryOp::Ge => 7,
        BinaryOp::Lt => 9,
        BinaryOp::Gt => 10,
        BinaryOp::Add => 11,
        BinaryOp::Sub => 12,
        BinaryOp::Mul => 13,
        BinaryOp::Div => 14,
        BinaryOp::Mod => 15,
    }
}

/// Where a prefix operator's spelling stands in the lexer's list.
pub open spec fn unary_index(op: UnaryOp) -> int {
    match op {
        UnaryOp::Pos => 11,
        UnaryOp::Neg => 12,
        UnaryOp::Not => 16,
    }
}

/// Where a member access's spelling stands in the lexer's list.
pub open spec fn member_index(op: MemberOp) -> int {
    match op {
        MemberOp::Arrow => 8,
        MemberOp::Dot => 17,
    }
}

proof fn lemma_op_indexes()
    ensures
        forall|op: BinaryOp|
            0 <= #[trigger] binop_index(op) < 18 && operator_spellings()[binop_index(op)]
                == op.spec_str(),
        forall|op: UnaryOp|
            0 <= #[trigger] unary_index(op) < 18 && operator_spellings()[unary_index(op)]
                == op.spec_str(),
        forall|op: MemberOp|
            0 <= #[trigger] member_index(op) < 18 && operator_spellings()[member_index(op)]
                == member_str(op),
{
    let ops = operator_spellings();
    assert(ops[0] == seq!['<', '=', '=', '>']);
    assert(ops[1] == seq!['=', '=', '>']);
    assert(ops[2] == seq!['&', '&']);
    assert(ops[3] == seq!['|', '|']);
    assert(ops[4] == seq!['=', '=']);
    assert(ops[5] == seq!['!', '=']);
    assert(ops[6] == seq!['<', '=']);
    assert(ops[7] == seq!['>', '=']);
    assert(ops[8] == seq!['-', '>']);
    assert(ops[9] == seq!['<']);
    assert(ops[10] == seq!['>']);
    assert(ops[11] == seq!['+']);
    assert(ops[12] == seq!['-']);
    assert(ops[13] == seq!['*']);
    assert(ops[14] == seq!['/']);
    assert(ops[15] == seq!['%']);
    assert(ops[16] == seq!['!']);
    assert(ops[17] == seq!['.']);
    assert forall|op: BinaryOp|
        0 <= #[trigger] binop_index(op) < 18 && operator_spellings()[binop_index(op)]
            == op.spec_str() by {
        match op {
            BinaryOp::Mul => {},
            BinaryOp::Div => {},
            BinaryOp::Mod => {},
            BinaryOp::Add => {},
            BinaryOp::Sub => {},
            BinaryOp::Lt => {},
            BinaryOp::Le => {},
            BinaryOp::Gt => {},
            BinaryOp::Ge => {},
            BinaryOp::Eq => {},
            BinaryOp::Ne => {},
            BinaryOp::And => {},
            BinaryOp::Or => {},
            BinaryOp::Implies => {},
            BinaryOp::Iff => {},
        }
    }
    assert forall|op: UnaryOp|
        0 <= #[trigger] unary_index(op) < 18 && operator_spellings()[unary_index(op)]
            == op.spec_str() by {
        match op {
            UnaryOp::Not => {},
            UnaryOp::Neg => {},
            UnaryOp::Pos => {},
        }
    }
    assert forall|op: MemberOp|
        0 <= #[trigger] member_index(op) < 18 && operator_spellings()[member_index(op)]
            == member_str(op) by {
        match op {
            MemberOp::Dot => {},
            MemberOp::Arrow => {},
        }
    }
}

proof fn lemma_occurs_char(s: Seq<char>, c: char, i: nat)
    requires
        occurs_at(s, seq![c], i as int),
    ensures
        i < s.len(),
        s[i as int] == c,
{
    lemma_occurs_chars(s, seq![c], i);
    assert(s[i as int + 0] == seq![c][0]);
}

/// What a text in parentheses tells of the characters around its inside.
proof fn lemma_parens_text(s: Seq<char>, i: nat, x: Seq<char>, b: bool)
    requires
        occurs_at(s, wrap_if(x, b), i as int),
    ensures
        occurs_at(s, x, i + if b { 1int } else { 0int }),
        wrap_if(x, b).len() == x.len() + if b { 2int } else { 0int },
        b ==> s[i as int] == '(' && i + 1 + x.len() < s.len() && s[(i + 1 + x.len()) as int] == ')',
{
    if b {
        lemma_occurs_split(s, seq!['('] + x, seq![')'], i);
        lemma_occurs_split(s, seq!['('], x, i);
        lemma_occurs_char(s, '(', i);
        lemma_occurs_char(s, ')', i + 1 + x.len());
    }
}

/// Parentheses around a text that reads as `t` read as parenthesis tokens around `t`.
proof fn lemma_lex_parens(s: Seq<char>, i: nat, x: Seq<char>, t: Seq<SpecTokenKind>, b: bool)
    requires
        b ==> s[i as int] == '(' && i + 1 + x.len() < s.len() && s[(i + 1 + x.len()) as int] == ')',
        i + 1 <= s.len(),
        lexes_as(s, if b { i + 1 } else { i }, t, (if b { i + 1 } else { i }) + x.len()),
    ensures
        lexes_as(s, i, wrap_toks(t, b), i + wrap_if(x, b).len()),
{
    if b {
        lemma_lex_punct(s, i);
        lemma_lex_punct(s, i + 1 + x.len());
        assert(punct_kind('(')->0 == SpecTokenKind::LParen);
        assert(punct_kind(')')->0 == SpecTokenKind::RParen);
        lemma_lexes_append(s, i, seq![SpecTokenKind::LParen], i + 1, t, i + 1 + x.len());
        lemma_lexes_append(
            s,
            i,
            seq![SpecTokenKind::LParen] + t,
            i + 1 + x.len(),
            seq![SpecTokenKind::RParen],
            i + 2 + x.len(),
        );
    }
}

/// Names separated by single spaces read as one name token each.
proof fn lemma_lex_words(s: Seq<char>, i: nat, ws: Seq<Seq<char>>)
    requires
        ws.len() > 0,
        forall|j: int| 0 <= j < ws.len() ==> valid_name(#[trigger] ws[j]),
        occurs_at(s, join(ws, " "@), i as int),
        name_ends(s, i + join(ws, " "@).len()),
    ensures
        lexes_as(s, i, word_toks(ws), i + join(ws, " "@).len()),
    decreases ws.len(),
{
    reveal_strlit(" ");
    let rest = ws.drop_first();
    assert(ws =~= seq![ws[0]] + rest);
    lemma_join_cons(ws[0], rest, " "@);
    assert(valid_name(ws[0]));
    if rest.len() == 0 {
        lemma_lex_name(s, i, ws[0]);
        assert(word_toks(rest) =~= Seq::<SpecTokenKind>::empty());
        assert(word_toks(ws) =~= seq![SpecTokenKind::Ident(ws[0])]);
    } else {
        let j = i + ws[0].len();
        lemma_occurs_split(s, ws[0] + " "@, join(rest, " "@), i);
        lemma_occurs_split(s, ws[0], " "@, i);
        assert(" "@ =~= seq![' ']);
        lemma_occurs_char(s, ' ', j);
        lemma_lex_name(s, i, ws[0]);
        assert forall|k: int| 0 <= k < rest.len() implies valid_name(#[trigger] rest[k]) by {
            assert(rest[k] == ws[k + 1]);
        }
        lemma_lex_words(s, j + 1, rest);
        lemma_word_toks_len(rest);
        lemma_lex_space(s, j, word_toks(rest), j + 1 + join(rest, " "@).len());
        lemma_lexes_append(
            s,
            i,
            seq![SpecTokenKind::Ident(ws[0])],
            j,
            word_toks(rest),
            j + 1 + join(rest, " "@).len(),
        );
    }
}

/// Binders separated by a comma and a space read as their names and comma tokens.
proof fn lemma_lex_vars(s: Seq<char>, i: nat, vars: Seq<Seq<char>>)
    requires
        vars_ok(vars),
        occurs_at(s, join(vars, ", "@), i as int),
        name_ends(s, i + join(vars, ", "@).len()),
    ensures
        lexes_as(s, i, var_toks(vars), i + join(vars, ", "@).len()),
        var_toks(vars).len() > 0,
    decreases vars.len(),
{
    reveal_strlit(" ");
    reveal_strlit(", ");
    let v = vars[0];
    let ws = split_on(v, ' ');
    lemma_split_join(v, ' ', Seq::empty());
    assert(" "@ =~= seq![' ']);
    assert(Seq::<char>::empty() + v =~= v);
    assert(join(ws, " "@) == v);
    assert forall|j: int| 0 <= j < ws.len() implies valid_name(#[trigger] ws[j]) by {
        assert(valid_name(split_on(vars[0], ' ')[j]));
    }
    lemma_word_toks_len(ws);
    let rest = vars.drop_first();
    assert(vars =~= seq![v] + rest);
    lemma_join_cons(v, rest, ", "@);
    if rest.len() == 0 {
        lemma_lex_words(s, i, ws);
    } else {
        let j = i + v.len();
        lemma_occurs_split(s, v + ", "@, join(rest, ", "@), i);
        lemma_occurs_split(s, v, ", "@, i);
        assert(", "@ =~= seq![','] + seq![' ']);
        lemma_occurs_split(s, seq![','], seq![' '], j);
        lemma_occurs_char(s, ',', j);
        lemma_occurs_char(s, ' ', j + 1);
        lemma_lex_words(s, i, ws);
        assert(vars_ok(rest)) by {
            assert forall|a: int, b: int|
                0 <= a < rest.len() && 0 <= b < split_on(rest[a], ' ').len() implies valid_name(
                #[trigger] split_on(rest[a], ' ')[b],
            ) by {
                assert(rest[a] == vars[a + 1]);
            }
        }
        let end = j + 2 + join(rest, ", "@).len();
        lemma_lex_vars(s, j + 2, rest);
        lemma_lex_space(s, j + 1, var_toks(rest), end);
        lemma_lex_punct(s, j);
        assert(punct_kind(',')->0 == SpecTokenKind::Comma);
        lemma_lexes_append(s, j, seq![SpecTokenKind::Comma], j + 1, var_toks(rest), end);
        lemma_lexes_append(s, i, word_toks(ws), j, seq![SpecTokenKind::Comma] + var_toks(rest), end);
        assert(var_toks(vars) =~= word_toks(ws) + (seq![SpecTokenKind::Comma] + var_toks(rest)));
    }
}

/// Call arguments, taken from the front.
proof fn lemma_format_args_cons(args: Seq<SpecExpr>)
    requires
        args.len() > 0,
    ensures
        format_args(args) == seq![format_ctx(args[0], 0, Assoc::Left, false)] + format_args(
            args.subrange(1, args.len() as int),
        ),
    decreases args.len(),
{
    let rest = args.subrange(1, args.len() as int);
    if args.len() == 1 {
        assert(args.drop_last() =~= Seq::<SpecExpr>::empty());
        assert(rest =~= Seq::<SpecExpr>::empty());
        assert(format_args(args) =~= seq![format_ctx(args[0], 0, Assoc::Left, false)] + format_args(rest));
    } else {
        let front = args.drop_last();
        lemma_format_args_cons(front);
        assert(front.subrange(1, front.len() as int) =~= rest.drop_last());
        assert(rest.last() == args.last());
        assert(front[0] == args[0]);
        assert(format_args(args) =~= seq![format_ctx(args[0], 0, Assoc::Left, false)] + format_args(rest));
    }
}

/// The text of a node, printed in its context, reads as its tokens.
proof fn lemma_lex_ctx(s: Seq<char>, i: nat, e: SpecExpr, pp: nat, pa: Assoc, r: bool)
    requires
        pp <= 11,
        names_ok(e),
        occurs_at(s, format_ctx(e, pp, pa, r), i as int),
        name_ends(s, i + format_ctx(e, pp, pa, r).len()),
    ensures
        lexes_as(s, i, toks_ctx(e, pp, pa, r), i + format_ctx(e, pp, pa, r).len()),
    decreases e, 2nat,
{
    lemma_format_ctx(e, pp, pa, r);
    let b = parens_needed(prec_of(e), pp, pa, r);
    let c = format_ctx(e, 0, Assoc::Left, false);
    lemma_parens_text(s, i, c, b);
    lemma_lex_core(s, if b { i + 1 } else { i }, e);
    lemma_lex_parens(s, i, c, core_toks(e), b);
}

/// The text of a node in its context, in parentheses when `w`, reads as its tokens.
proof fn lemma_lex_wrapped(s: Seq<char>, i: nat, e: SpecExpr, pp: nat, pa: Assoc, r: bool, w: bool)
    requires
        pp <= 11,
        names_ok(e),
        occurs_at(s, wrap_if(format_ctx(e, pp, pa, r), w), i as int),
        name_ends(s, i + wrap_if(format_ctx(e, pp, pa, r), w).len()),
    ensures
        lexes_as(
            s,
            i,
            wrap_toks(toks_ctx(e, pp, pa, r), w),
            i + wrap_if(format_ctx(e, pp, pa, r), w).len(),
        ),
        wrap_toks(toks_ctx(e, pp, pa, r), w).len() > 0,
    decreases e, 3nat,
{
    let c = format_ctx(e, pp, pa, r);
    lemma_parens_text(s, i, c, w);
    lemma_lex_ctx(s, if w { i + 1 } else { i }, e, pp, pa, r);
    lemma_lex_parens(s, i, c, toks_ctx(e, pp, pa, r), w);
    lemma_toks_starts(e, pp, pa, r);
}

/// The text of a node at the top reads as its tokens without parentheses around the whole.
proof fn lemma_lex_core(s: Seq<char>, i: nat, e: SpecExpr)
    requires
        names_ok(e),
        occurs_at(s, format_ctx(e, 0, Assoc::Left, false), i as int),
        name_ends(s, i + format_ctx(e, 0, Assoc::Left, false).len()),
    ensures
        lexes_as(s, i, core_toks(e), i + format_ctx(e, 0, Assoc::Left, false).len()),
    decreases e, 1nat,
{
    match e {
        SpecExpr::Ident(n) => {
            lemma_lex_name(s, i, n);
        },
        SpecExpr::Number(n) => {
            lemma_lex_number(s, i, n);
        },
        SpecExpr::Unary { .. } => {
            lemma_lex_unary(s, i, e);
        },
        SpecExpr::Binary { .. } => {
            lemma_lex_binary(s, i, e);
        },
        SpecExpr::Ternary { .. } => {
            lemma_lex_ternary(s, i, e);
        },
        SpecExpr::Call { .. } => {
            lemma_lex_call(s, i, e);
        },
        SpecExpr::Index { .. } => {
            lemma_lex_index(s, i, e);
        },
        SpecExpr::Member { .. } => {
            lemma_lex_member(s, i, e);
        },
        SpecExpr::Quant { .. } => {
            lemma_lex_quant(s, i, e);
        },
    }
}

proof fn lemma_lex_unary(s: Seq<char>, i: nat, e: SpecExpr)
    requires
        e is Unary,
        names_ok(e),
        occurs_at(s, format_ctx(e, 0, Assoc::Left, false), i as int),
        name_ends(s, i + format_ctx(e, 0, Assoc::Left, false).len()),
    ensures
        lexes_as(s, i, core_toks(e), i + format_ctx(e, 0, Assoc::Left, false).len()),
    decreases e, 0nat,
{
    match e {
        SpecExpr::Unary { op, expr } => {
        let o = op.spec_str();
        let g = format_ctx(*expr, 10, Assoc::Right, false);
        let end = i + 1 + g.len();
        assert(format_ctx(e, 0, Assoc::Left, false) == o + g);
        lemma_occurs_split(s, o, g, i);
        lemma_first_char(*expr, 10, Assoc::Right, false);
        lemma_occurs_chars(s, g, i + 1);
        assert(s[(i + 1) as int + 0] == g[0]);
        lemma_op_indexes();
        assert(unary_index(op) >= 0);
        lemma_lex_op(s, i, unary_index(op));
        lemma_lex_ctx(s, i + 1, *expr, 10, Assoc::Right, false);
        lemma_lexes_append(s, i, seq![SpecTokenKind::Op(o)], i + 1, toks_ctx(*expr, 10, Assoc::Right, false), end);
        },
        _ => {},
    }
}

proof fn lemma_lex_binary(s: Seq<char>, i: nat, e: SpecExpr)
    requires
        e is Binary,
        names_ok(e),
        occurs_at(s, format_ctx(e, 0, Assoc::Left, false), i as int),
        name_ends(s, i + format_ctx(e, 0, Assoc::Left, false).len()),
    ensures
        lexes_as(s, i, core_toks(e), i + format_ctx(e, 0, Assoc::Left, false).len()),
    decreases e, 0nat,
{
    match e {
        SpecExpr::Binary { op, left, right } => {
        let p = op.spec_precedence() as nat;
        let a = op.spec_assoc();
        let cl = child_parens_needed(*left, op);
        let cr = child_parens_needed(*right, op);
        let wl = wrap_if(format_ctx(*left, p, a, false), cl);
        let wr = wrap_if(format_ctx(*right, p, a, true), cr);
        let o = op.spec_str();
        let sp = seq![' '];
        assert(format_ctx(e, 0, Assoc::Left, false) == wl + sp + o + sp + wr);
        lemma_occurs_split(s, wl + sp + o + sp, wr, i);
        lemma_occurs_split(s, wl + sp + o, sp, i);
        lemma_occurs_split(s, wl + sp, o, i);
        lemma_occurs_split(s, wl, sp, i);
        let j1 = i + wl.len();
        let j3 = j1 + 1 + o.len();
        let end = j3 + 1 + wr.len();
        lemma_occurs_char(s, ' ', j1);
        lemma_occurs_char(s, ' ', j3);
        let tl = wrap_toks(toks_ctx(*left, p, a, false), cl);
        let tr = wrap_toks(toks_ctx(*right, p, a, true), cr);
        lemma_lex_wrapped(s, i, *left, p, a, false, cl);
        lemma_op_indexes();
        assert(binop_index(op) >= 0);
        lemma_lex_op(s, j1 + 1, binop_index(op));
        lemma_lex_space(s, j1, seq![SpecTokenKind::Op(o)], j3);
        lemma_lex_wrapped(s, j3 + 1, *right, p, a, true, cr);
        lemma_lex_space(s, j3, tr, end);
        lemma_lexes_append(s, i, tl, j1, seq![SpecTokenKind::Op(o)], j3);
        lemma_lexes_append(s, i, tl + seq![SpecTokenKind::Op(o)], j3, tr, end);
        },
        _ => {},
    }
}

proof fn lemma_lex_ternary(s: Seq<char>, i: nat, e: SpecExpr)
    requires
        e is Ternary,
        names_ok(e),
        occurs_at(s, format_ctx(e, 0, Assoc::Left, false), i as int),
        name_ends(s, i + format_ctx(e, 0, Assoc::Left, false).len()),
    ensures
        lexes_as(s, i, core_toks(e), i + format_ctx(e, 0, Assoc::Left, false).len()),
    decreases e, 0nat,
{
    match e {
        SpecExpr::Ternary { cond, then_expr, else_expr } => {
        reveal_strlit(" ? ");
        reveal_strlit(" : ");
        let c = format_ctx(*cond, 1, Assoc::Right, false);
        let t = format_ctx(*then_expr, 1, Assoc::Right, false);
        let f = format_ctx(*else_expr, 1, Assoc::Right, true);
        let q = " ? "@;
        let k = " : "@;
        assert(format_ctx(e, 0, Assoc::Left, false) == c + q + t + k + f);
        lemma_occurs_split(s, c + q + t + k, f, i);
        lemma_occurs_split(s, c + q + t, k, i);
        lemma_occurs_split(s, c + q, t, i);
        lemma_occurs_split(s, c, q, i);
        let j1 = i + c.len();
        let j2 = j1 + 3 + t.len();
        let end = j2 + 3 + f.len();
        lemma_occurs_chars(s, q, j1);
        lemma_occurs_chars(s, k, j2);
        assert(s[j1 as int + 0] == ' ' && s[j1 as int + 1] == '?' && s[j1 as int + 2] == ' ');
        assert(s[j2 as int + 0] == ' ' && s[j2 as int + 1] == ':' && s[j2 as int + 2] == ' ');
        let tc = toks_ctx(*cond, 1, Assoc::Right, false);
        let tt = toks_ctx(*then_expr, 1, Assoc::Right, false);
        let tf = toks_ctx(*else_expr, 1, Assoc::Right, true);
        lemma_lex_ctx(s, i, *cond, 1, Assoc::Right, false);
        lemma_lex_punct(s, j1 + 1);
        assert(punct_kind('?')->0 == SpecTokenKind::Question);
        lemma_lex_space(s, j1, seq![SpecTokenKind::Question], j1 + 2);
        lemma_lex_ctx(s, j1 + 3, *then_expr, 1, Assoc::Right, false);
        lemma_toks_starts(*then_expr, 1, Assoc::Right, false);
        lemma_lex_space(s, j1 + 2, tt, j2);
        lemma_lex_punct(s, j2 + 1);
        assert(punct_kind(':')->0 == SpecTokenKind::Colon);
        lemma_lex_space(s, j2, seq![SpecTokenKind::Colon], j2 + 2);
        lemma_lex_ctx(s, j2 + 3, *else_expr, 1, Assoc::Right, true);
        lemma_toks_starts(*else_expr, 1, Assoc::Right, true);
        lemma_lex_space(s, j2 + 2, tf, end);
        lemma_lexes_append(s, i, tc, j1, seq![SpecTokenKind::Question], j1 + 2);
        lemma_lexes_append(s, i, tc + seq![SpecTokenKind::Question], j1 + 2, tt, j2);
        lemma_lexes_append(s, i, tc + seq![SpecTokenKind::Question] + tt, j2, seq![SpecTokenKind::Colon], j2 + 2);
        lemma_lexes_append(s, i, tc + seq![SpecTokenKind::Question] + tt + seq![SpecTokenKind::Colon], j2 + 2, tf, end);
        },
        _ => {},
    }
}

proof fn lemma_lex_call(s: Seq<char>, i: nat, e: SpecExpr)
    requires
        e is Call,
        names_ok(e),
        occurs_at(s, format_ctx(e, 0, Assoc::Left, false), i as int),
        name_ends(s, i + format_ctx(e, 0, Assoc::Left, false).len()),
    ensures
        lexes_as(s, i, core_toks(e), i + format_ctx(e, 0, Assoc::Left, false).len()),
    decreases e, 0nat,
{
    match e {
        SpecExpr::Call { callee, args } => {
        let pc = parens_needed(prec_of(*callee), 11, Assoc::Left, false);
        let wc = wrap_if(format_ctx(*callee, 0, Assoc::Left, false), pc);
        let jn = join(format_args(args), ", "@);
        assert(format_ctx(e, 0, Assoc::Left, false) == wc + seq!['('] + jn + seq![')']);
        lemma_occurs_split(s, wc + seq!['('] + jn, seq![')'], i);
        lemma_occurs_split(s, wc + seq!['('], jn, i);
        lemma_occurs_split(s, wc, seq!['('], i);
        let j1 = i + wc.len();
        let j2 = j1 + 1 + jn.len();
        lemma_occurs_char(s, '(', j1);
        lemma_occurs_char(s, ')', j2);
        let tc = wrap_toks(toks_ctx(*callee, 0, Assoc::Left, false), pc);
        lemma_lex_wrapped(s, i, *callee, 0, Assoc::Left, false, pc);
        lemma_lex_punct(s, j1);
        assert(punct_kind('(')->0 == SpecTokenKind::LParen);
        lemma_lex_args(s, j1 + 1, args);
        lemma_lex_punct(s, j2);
        assert(punct_kind(')')->0 == SpecTokenKind::RParen);
        lemma_lexes_append(s, i, tc, j1, seq![SpecTokenKind::LParen], j1 + 1);
        lemma_lexes_append(s, i, tc + seq![SpecTokenKind::LParen], j1 + 1, args_toks(args), j2);
        lemma_lexes_append(s, i, tc + seq![SpecTokenKind::LParen] + args_toks(args), j2, seq![SpecTokenKind::RParen], j2 + 1);
        },
        _ => {},
    }
}

proof fn lemma_lex_index(s: Seq<char>, i: nat, e: SpecExpr)
    requires
        e is Index,
        names_ok(e),
        occurs_at(s, format_ctx(e, 0, Assoc::Left, false), i as int),
        name_ends(s, i + format_ctx(e, 0, Assoc::Left, false).len()),
    ensures
        lexes_as(s, i, core_toks(e), i + format_ctx(e, 0, Assoc::Left, false).len()),
    decreases e, 0nat,
{
    match e {
        SpecExpr::Index { base, index } => {
        let pb = parens_needed(prec_of(*base), 11, Assoc::Left, false);
        let wb = wrap_if(format_ctx(*base, 0, Assoc::Left, false), pb);
        let x = format_ctx(*index, 0, Assoc::Left, false);
        assert(format_ctx(e, 0, Assoc::Left, false) == wb + seq!['['] + x + seq![']']);
        lemma_occurs_split(s, wb + seq!['['] + x, seq![']'], i);
        lemma_occurs_split(s, wb + seq!['['], x, i);
        lemma_occurs_split(s, wb, seq!['['], i);
        let j1 = i + wb.len();
        let j2 = j1 + 1 + x.len();
        lemma_occurs_char(s, '[', j1);
        lemma_occurs_char(s, ']', j2);
        let tb = wrap_toks(toks_ctx(*base, 0, Assoc::Left, false), pb);
        let tx = toks_ctx(*index, 0, Assoc::Left, false);
        lemma_lex_wrapped(s, i, *base, 0, Assoc::Left, false, pb);
        lemma_lex_punct(s, j1);
        assert(punct_kind('[')->0 == SpecTokenKind::LBracket);
        lemma_lex_ctx(s, j1 + 1, *index, 0, Assoc::Left, false);
        lemma_lex_punct(s, j2);
        assert(punct_kind(']')->0 == SpecTokenKind::RBracket);
        lemma_lexes_append(s, i, tb, j1, seq![SpecTokenKind::LBracket], j1 + 1);
        lemma_lexes_append(s, i, tb + seq![SpecTokenKind::LBracket], j1 + 1, tx, j2);
        lemma_lexes_append(s, i, tb + seq![SpecTokenKind::LBracket] + tx, j2, seq![SpecTokenKind::RBracket], j2 + 1);
        },
        _ => {},
    }
}

proof fn lemma_lex_member(s: Seq<char>, i: nat, e: SpecExpr)
    requires
        e is Member,
        names_ok(e),
        occurs_at(s, format_ctx(e, 0, Assoc::Left, false), i as int),
        name_ends(s, i + format_ctx(e, 0, Assoc::Left, false).len()),
    ensures
        lexes_as(s, i, core_toks(e), i + format_ctx(e, 0, Assoc::Left, false).len()),
    decreases e, 0nat,
{
    match e {
        SpecExpr::Member { base, op, field } => {
        let pb = parens_needed(prec_of(*base), 11, Assoc::Left, false);
        let wb = wrap_if(format_ctx(*base, 0, Assoc::Left, false), pb);
        let o = member_str(op);
        assert(format_ctx(e, 0, Assoc::Left, false) == wb + o + field);
        lemma_occurs_split(s, wb + o, field, i);
        lemma_occurs_split(s, wb, o, i);
        let j1 = i + wb.len();
        let j2 = j1 + o.len();
        let end = j2 + field.len();
        lemma_occurs_chars(s, o, j1);
        lemma_occurs_chars(s, field, j2);
        assert(s[j1 as int + 0] == o[0]);
        assert(s[j2 as int + 0] == field[0]);
        assert(ident_start(field[0]));
        let tb = wrap_toks(toks_ctx(*base, 0, Assoc::Left, false), pb);
        lemma_lex_wrapped(s, i, *base, 0, Assoc::Left, false, pb);
        lemma_op_indexes();
        assert(member_index(op) >= 0);
        lemma_lex_op(s, j1, member_index(op));
        lemma_lex_name(s, j2, field);
        lemma_lexes_append(s, j1, seq![SpecTokenKind::Op(o)], j2, seq![SpecTokenKind::Ident(field)], end);
        lemma_lexes_append(
            s,
            i,
            tb,
            j1,
            seq![SpecTokenKind::Op(o)] + seq![SpecTokenKind::Ident(field)],
            end,
        );
        assert(core_toks(e) =~= tb + (seq![SpecTokenKind::Op(o)] + seq![SpecTokenKind::Ident(field)]));
        },
        _ => {},
    }
}

proof fn lemma_lex_quant(s: Seq<char>, i: nat, e: SpecExpr)
    requires
        e is Quant,
        names_ok(e),
        occurs_at(s, format_ctx(e, 0, Assoc::Left, false), i as int),
        name_ends(s, i + format_ctx(e, 0, Assoc::Left, false).len()),
    ensures
        lexes_as(s, i, core_toks(e), i + format_ctx(e, 0, Assoc::Left, false).len()),
    decreases e, 0nat,
{
    match e {
        SpecExpr::Quant { kind, vars, body } => {
        reveal_strlit("; ");
        reveal_strlit(", ");
        let w = kind.spec_str();
        let jv = join(vars, ", "@);
        let sc = "; "@;
        let b = format_ctx(*body, 0, Assoc::Right, true);
        assert(format_ctx(e, 0, Assoc::Left, false) == w + seq![' '] + jv + sc + b);
        lemma_occurs_split(s, w + seq![' '] + jv + sc, b, i);
        lemma_occurs_split(s, w + seq![' '] + jv, sc, i);
        lemma_occurs_split(s, w + seq![' '], jv, i);
        lemma_occurs_split(s, w, seq![' '], i);
        let j2 = i + 8 + jv.len();
        let end = j2 + 2 + b.len();
        lemma_occurs_char(s, ' ', i + 7);
        lemma_occurs_chars(s, sc, j2);
        assert(s[j2 as int + 0] == ';' && s[j2 as int + 1] == ' ');
        let kw = match kind {
            QuantKind::Forall => SpecTokenKind::KwForall,
            QuantKind::Exists => SpecTokenKind::KwExists,
        };
        let tb = toks_ctx(*body, 0, Assoc::Right, true);
        lemma_lex_keyword(s, i, kind);
        lemma_lex_vars(s, i + 8, vars);
        lemma_lex_space(s, i + 7, var_toks(vars), j2);
        lemma_lex_punct(s, j2);
        assert(punct_kind(';')->0 == SpecTokenKind::Semicolon);
        lemma_lex_ctx(s, j2 + 2, *body, 0, Assoc::Right, true);
        lemma_toks_starts(*body, 0, Assoc::Right, true);
        lemma_lex_space(s, j2 + 1, tb, end);
        lemma_lexes_append(s, i, seq![kw], i + 7, var_toks(vars), j2);
        lemma_lexes_append(s, i, seq![kw] + var_toks(vars), j2, seq![SpecTokenKind::Semicolon], j2 + 1);
        lemma_lexes_append(s, i, seq![kw] + var_toks(vars) + seq![SpecTokenKind::Semicolon], j2 + 1, tb, end);
        },
        _ => {},
    }
}

/// Call arguments separated by a comma and a space read as their tokens and comma tokens.
proof fn lemma_lex_args(s: Seq<char>, i: nat, args: Seq<SpecExpr>)
    requires
        all_names_ok(args),
        occurs_at(s, join(format_args(args), ", "@), i as int),
        name_ends(s, i + join(format_args(args), ", "@).len()),
    ensures
        lexes_as(s, i, args_toks(args), i + join(format_args(args), ", "@).len()),
    decreases args, 0nat,
{
    reveal_strlit(", ");
    if args.len() > 0 {
        let rest = args.subrange(1, args.len() as int);
        let a = format_ctx(args[0], 0, Assoc::Left, false);
        lemma_format_args_cons(args);
        lemma_join_cons(a, format_args(rest), ", "@);
        if rest.len() == 0 {
            assert(format_args(rest) =~= Seq::<Seq<char>>::empty());
            lemma_lex_ctx(s, i, args[0], 0, Assoc::Left, false);
        } else {
            let jr = join(format_args(rest), ", "@);
            let j = i + a.len();
            let end = j + 2 + jr.len();
            lemma_occurs_split(s, a + ", "@, jr, i);
            lemma_occurs_split(s, a, ", "@, i);
            lemma_occurs_chars(s, ", "@, j);
            assert(s[j as int + 0] == ',' && s[j as int + 1] == ' ');
            let ta = toks_ctx(args[0], 0, Assoc::Left, false);
            lemma_lex_ctx(s, i, args[0], 0, Assoc::Left, false);
            lemma_lex_args(s, j + 2, rest);
            lemma_toks_starts(rest[0], 0, Assoc::Left, false);
            assert(args_toks(rest).len() > 0);
            lemma_lex_space(s, j + 1, args_toks(rest), end);
            lemma_lex_punct(s, j);
            assert(punct_kind(',')->0 == SpecTokenKind::Comma);
            lemma_lexes_append(s, i, ta, j, seq![SpecTokenKind::Comma], j + 1);
            lemma_lexes_append(s, i, ta + seq![SpecTokenKind::Comma], j + 1, args_toks(rest), end);
        }
    } else {
        assert(format_args(args) =~= Seq::<Seq<char>>::empty());
    }
}

/// An expression printed without parentheses before a token that ends every expression
/// binding more loosely than `h` is not extended by that token: its top operator binds more
/// tightly than `h`, or as tightly and groups to the left.
proof fn lemma_right_ok_prec(x: SpecExpr, t: SpecTokenKind, h: nat)
    requires
        1 <= h <= 9,
        forall|m: nat| h < m ==> #[trigger] stops(t, m),
        prec_of(x) > h || (x is Binary && prec_of(x) == h && x->Binary_op.spec_assoc()
            == Assoc::Left),
    ensures
        right_ok(x, t),
    decreases x,
{
    match x {
        SpecExpr::Unary { expr, .. } => {
            assert(stops(t, unary_rbp()));
            if !parens_needed(prec_of(*expr), 10, Assoc::Right, false) {
                lemma_right_ok_prec(*expr, t, h);
            }
        },
        SpecExpr::Binary { op, right, .. } => {
            assert(stops(t, right_bp(op)));
            if !right_wrapped(op, *right) {
                lemma_right_ok_prec(*right, t, h);
            }
        },
        _ => {},
    }
}

/// Every tree with well-formed names prints so that it reads back: no operand printed
/// without parentheses takes the operator that follows it.
proof fn lemma_parse_ok_all(e: SpecExpr)
    requires
        names_ok(e),
    ensures
        parse_ok(e),
    decreases e, 1nat,
{
    lemma_spellings();
    match e {
        SpecExpr::Unary { expr, .. } => {
            lemma_parse_ok_all(*expr);
        },
        SpecExpr::Binary { op, left, right } => {
            lemma_parse_ok_all(*left);
            lemma_parse_ok_all(*right);
            let t = SpecTokenKind::Op(op.spec_str());
            let h = op.spec_precedence() as nat;
            if !left_wrapped(op, *left) {
                assert forall|m: nat| h < m implies #[trigger] stops(t, m) by {}
                if prec_of(*left) == h {
                    assert(left->Binary_op.spec_assoc() == Assoc::Left);
                }
                lemma_right_ok_prec(*left, t, h);
            }
        },
        SpecExpr::Ternary { cond, then_expr, else_expr } => {
            lemma_parse_ok_all(*cond);
            lemma_parse_ok_all(*then_expr);
            lemma_parse_ok_all(*else_expr);
            if !parens_needed(prec_of(*cond), 1, Assoc::Right, false) {
                assert forall|m: nat| 1 < m implies #[trigger] stops(SpecTokenKind::Question, m) by {}
                lemma_right_ok_prec(*cond, SpecTokenKind::Question, 1);
            }
        },
        SpecExpr::Call { callee, args } => {
            lemma_parse_ok_all(*callee);
            lemma_all_parse_ok(args);
        },
        SpecExpr::Index { base, index } => {
            lemma_parse_ok_all(*base);
            lemma_parse_ok_all(*index);
        },
        SpecExpr::Member { base, .. } => {
            lemma_parse_ok_all(*base);
        },
        SpecExpr::Quant { vars, body, .. } => {
            lemma_parse_ok_all(*body);
        },
        _ => {},
    }
}

proof fn lemma_all_parse_ok(args: Seq<SpecExpr>)
    requires
        all_names_ok(args),
    ensures
        all_parse_ok(args),
    decreases args, 2nat,
{
    if args.len() > 0 {
        lemma_parse_ok_all(args[0]);
        lemma_all_parse_ok(args.subrange(1, args.len() as int));
    }
}

/// Formatting an expression and reading the text back gives the simplified expression: the
/// printed parentheses keep its meaning. This holds of every tree whose names and numbers
/// read back as single tokens.
pub proof fn law_format_round_trip(e: SpecExpr)
    requires
        names_ok(simplify(e)),
    ensures
        parse_text(format_spec(e)) == Ok::<SpecExpr, crate::error::SpecError>(simplify(e)),
{
    let x = simplify(e);
    let s = format_spec(e);
    lemma_parse_ok_all(x);
    assert(s.subrange(0, s.len() as int) =~= s);
    lemma_lex_ctx(s, 0, x, 0, Assoc::Left, false);
    let ks = toks_ctx(x, 0, Assoc::Left, false);
    lemma_lexes_whole(s, ks);
    assert(wrap_toks(ks, false) == ks);
    lemma_right_ok_closing(x, SpecTokenKind::End);
    lemma_parse_expr(lex_stream(s), 0, x, 0, Assoc::Left, false, false, 0);
}

/// Formatting is stable: the formatted text reads back, and formatting what it reads as gives
/// the same text again (on every tree whose names and numbers read back as single tokens).
pub proof fn law_format_is_idempotent(e: SpecExpr)
    requires
        names_ok(simplify(e)),
    ensures
        parse_text(format_spec(e)) is Ok,
        format_spec(parse_text(format_spec(e))->Ok_0) == format_spec(e),
{
    law_format_round_trip(e);
    law_simplify_is_idempotent(e);
}

/// Formatting a text twice gives what formatting it once gave: when a text reads as a tree,
/// its formatted text reads back as the simplified tree, and formats to itself.
pub proof fn law_format_expression_is_idempotent(t: Seq<char>)
    requires
        parse_text(t) is Ok,
    ensures
        parse_text(format_spec(parse_text(t)->Ok_0)) == Ok::<SpecExpr, crate::error::SpecError>(
            simplify(parse_text(t)->Ok_0),
        ),
        format_spec(parse_text(format_spec(parse_text(t)->Ok_0))->Ok_0) == format_spec(
            parse_text(t)->Ok_0,
        ),
{
    let e = parse_text(t)->Ok_0;
    lemma_parse_text_names(t);
    lemma_simplify_names(e);
    law_format_round_trip(e);
    law_format_is_idempotent(e);
}

} // verus!
