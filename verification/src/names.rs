use vstd::prelude::*;
use crate::ast::{QuantKind, SpecExpr, UnaryOp};
use crate::format::{simplify, simplify_all};
use crate::lexer::{digits_end, ident_continue, ident_end, ident_start, lex_step, lemma_lex_step_progress, lemma_skip_ws_bounds, skip_ws_from, word_kind, SpecTokenKind};
use crate::parser::{add_word, advanced, lex_from, lex_stream, next_index, parse_args, parse_binders, parse_bp, parse_loop, parse_quant, parse_text, parse_words, unary_of, unary_rbp, TokenStream};
use crate::roundtrip::{all_names_ok, names_ok, valid_name, valid_number, vars_ok};
use crate::text::{is_digit, split_from, split_on};

verus! {

/// The name or number that a token carries is well formed.
pub open spec fn kind_names_ok(k: SpecTokenKind) -> bool {
    match k {
        SpecTokenKind::Ident(n) => valid_name(n),
        SpecTokenKind::Number(n) => valid_number(n),
        _ => true,
    }
}

/// Every token of the stream carries a well-formed name or number, if any.
pub open spec fn stream_names_ok(ts: TokenStream) -> bool {
    forall|j: int| 0 <= j < ts.toks.len() ==> kind_names_ok(#[trigger] ts.toks[j].kind)
}

/// Every piece of a binder between spaces is a well-formed name.
pub open spec fn binder_ok(v: Seq<char>) -> bool {
    forall|j: int| 0 <= j < split_on(v, ' ').len() ==> valid_name(#[trigger] split_on(v, ' ')[j])
}

proof fn lemma_ident_chars(s: Seq<char>, i: nat)
    requires
        i <= s.len(),
    ensures
        i <= ident_end(s, i) <= s.len(),
        forall|j: int| i <= j < ident_end(s, i) ==> ident_continue(#[trigger] s[j]),
    decreases s.len() - i,
{
    if i < s.len() && ident_continue(s[i as int]) {
        lemma_ident_chars(s, i + 1);
    }
}

proof fn lemma_digit_chars(s: Seq<char>, i: nat)
    requires
        i <= s.len(),
    ensures
        i <= digits_end(s, i) <= s.len(),
        forall|j: int| i <= j < digits_end(s, i) ==> is_digit(#[trigger] s[j]),
    decreases s.len() - i,
{
    if i < s.len() && is_digit(s[i as int]) {
        lemma_digit_chars(s, i + 1);
    }
}

/// A token read from a text carries a well-formed name or number.
proof fn lemma_step_names(s: Seq<char>, i: nat)
    ensures
        lex_step(s, i) matches Ok((t, _)) ==> kind_names_ok(t.kind),
{
    let p = skip_ws_from(s, i);
    if i <= s.len() {
        lemma_skip_ws_bounds(s, i);
    }
    if p < s.len() {
        if ident_start(s[p as int]) {
            lemma_ident_chars(s, p + 1);
            let n = s.subrange(p as int, ident_end(s, p + 1) as int);
            assert(n[0] == s[p as int]);
            assert forall|j: int| 0 <= j < n.len() implies ident_continue(#[trigger] n[j]) by {
                assert(n[j] == s[p + j]);
            }
            assert(word_kind(n) is Ident ==> valid_name(n));
        } else if is_digit(s[p as int]) {
            lemma_digit_chars(s, p + 1);
            let n = s.subrange(p as int, digits_end(s, p + 1) as int);
            assert forall|j: int| 0 <= j < n.len() implies is_digit(#[trigger] n[j]) by {
                assert(n[j] == s[p + j]);
            }
        }
    }
}

/// Every token read from a text carries a well-formed name or number.
pub proof fn lemma_lex_names(s: Seq<char>, i: nat)
    ensures
        stream_names_ok(lex_from(s, i)),
    decreases s.len() + 1 - i,
{
    lemma_step_names(s, i);
    match lex_step(s, i) {
        Err(_) => {},
        Ok((t, j)) => if !(t.kind is End) {
            lemma_lex_step_progress(s, i);
            lemma_lex_names(s, j);
            let rest = lex_from(s, j);
            let all = seq![t] + rest.toks;
            assert forall|k: int| 0 <= k < all.len() implies kind_names_ok(#[trigger] all[k].kind) by {
                if k > 0 {
                    assert(all[k] == rest.toks[k - 1]);
                }
            }
        },
    }
}

/// A text without the separator is one piece.
proof fn lemma_split_plain(s: Seq<char>, c: char, cur: Seq<char>)
    requires
        forall|j: int| 0 <= j < s.len() ==> #[trigger] s[j] != c,
    ensures
        split_from(s, c, cur) == seq![cur + s],
    decreases s.len(),
{
    if s.len() == 0 {
        assert(cur + s =~= cur);
    } else {
        assert(s[0] != c);
        lemma_split_plain(s.drop_first(), c, cur.push(s[0]));
        assert(cur.push(s[0]) + s.drop_first() =~= cur + s);
    }
}

/// A piece without the separator, added after a separator, is one more piece.
proof fn lemma_split_snoc(s: Seq<char>, c: char, cur: Seq<char>, n: Seq<char>)
    requires
        forall|j: int| 0 <= j < n.len() ==> #[trigger] n[j] != c,
    ensures
        split_from(s + seq![c] + n, c, cur) == split_from(s, c, cur).push(n),
    decreases s.len(),
{
    let t = s + seq![c] + n;
    if s.len() == 0 {
        assert(t[0] == c);
        assert(t.drop_first() =~= n);
        lemma_split_plain(n, c, Seq::empty());
        assert(Seq::<char>::empty() + n =~= n);
        assert(split_from(s, c, cur) == seq![cur]);
        assert(seq![cur] + seq![n] =~= seq![cur].push(n));
    } else {
        assert(t[0] == s[0]);
        assert(t.drop_first() =~= s.drop_first() + seq![c] + n);
        if s[0] == c {
            lemma_split_snoc(s.drop_first(), c, Seq::empty(), n);
            assert(seq![cur] + split_from(s.drop_first(), c, Seq::empty()).push(n) =~= (seq![cur]
                + split_from(s.drop_first(), c, Seq::empty())).push(n));
        } else {
            lemma_split_snoc(s.drop_first(), c, cur.push(s[0]), n);
        }
    }
}

/// Adding a well-formed name to a binder keeps it well formed.
proof fn lemma_add_word_ok(acc: Seq<char>, w: Seq<char>)
    requires
        valid_name(w),
        acc.len() == 0 || binder_ok(acc),
    ensures
        binder_ok(add_word(acc, w)),
        add_word(acc, w).len() > 0,
{
    assert(forall|j: int| 0 <= j < w.len() ==> #[trigger] w[j] != ' ') by {
        assert forall|j: int| 0 <= j < w.len() implies #[trigger] w[j] != ' ' by {
            assert(ident_continue(w[j]));
        }
    }
    if acc.len() == 0 {
        lemma_split_plain(w, ' ', Seq::empty());
        assert(Seq::<char>::empty() + w =~= w);
    } else {
        lemma_split_snoc(acc, ' ', Seq::empty(), w);
        let before = split_on(acc, ' ');
        assert forall|j: int| 0 <= j < before.push(w).len() implies valid_name(
            #[trigger] before.push(w)[j],
        ) by {
            if j < before.len() {
                assert(valid_name(split_on(acc, ' ')[j]));
            }
        }
    }
}

proof fn lemma_words_names(ts: TokenStream, k: nat, acc: Seq<char>)
    requires
        stream_names_ok(ts),
        acc.len() == 0 || binder_ok(acc),
    ensures
        parse_words(ts, k, acc) matches Ok((w, _)) ==> w.len() > 0 && binder_ok(w),
    decreases ts.toks.len() - k,
{
    if k < ts.toks.len() {
        let t = ts.toks[k as int];
        assert(kind_names_ok(t.kind));
        match t.kind {
            SpecTokenKind::Ident(w) => {
                lemma_add_word_ok(acc, w);
                match next_index(ts, k) {
                    Ok(k1) => {
                        if ts.toks[k1 as int].kind is Ident {
                            lemma_words_names(ts, k1, add_word(acc, w));
                        }
                    },
                    Err(_) => {},
                }
            },
            _ => {},
        }
    }
}

proof fn lemma_binders_names(ts: TokenStream, k: nat, acc: Seq<Seq<char>>)
    requires
        stream_names_ok(ts),
        forall|i: int| 0 <= i < acc.len() ==> binder_ok(#[trigger] acc[i]),
    ensures
        parse_binders(ts, k, acc) matches Ok((vars, _)) ==> vars_ok(vars),
    decreases ts.toks.len() - k,
{
    lemma_words_names(ts, k, Seq::empty());
    match parse_words(ts, k, Seq::empty()) {
        Err(_) => {},
        Ok((w, k1)) => if advanced(ts, k, k1) {
            let more = acc.push(w);
            assert forall|i: int| 0 <= i < more.len() implies binder_ok(#[trigger] more[i]) by {
                if i < acc.len() {
                    assert(more[i] == acc[i]);
                }
            }
            match ts.toks[k1 as int].kind {
                SpecTokenKind::Comma => match next_index(ts, k1) {
                    Ok(k2) => {
                        lemma_binders_names(ts, k2, more);
                    },
                    Err(_) => {},
                },
                SpecTokenKind::Semicolon => {
                    assert forall|i: int, j: int|
                        0 <= i < more.len() && 0 <= j < split_on(more[i], ' ').len() implies valid_name(
                        #[trigger] split_on(more[i], ' ')[j],
                    ) by {
                        assert(binder_ok(more[i]));
                    }
                },
                _ => {},
            }
        },
    }
}

/// Arguments are well formed one by one exactly when they are well formed together.
pub proof fn lemma_all_names(args: Seq<SpecExpr>)
    ensures
        all_names_ok(args) <==> forall|i: int| 0 <= i < args.len() ==> names_ok(#[trigger] args[i]),
    decreases args.len(),
{
    if args.len() > 0 {
        let rest = args.subrange(1, args.len() as int);
        lemma_all_names(rest);
        if forall|i: int| 0 <= i < args.len() ==> names_ok(#[trigger] args[i]) {
            assert forall|i: int| 0 <= i < rest.len() implies names_ok(#[trigger] rest[i]) by {
                assert(rest[i] == args[i + 1]);
            }
        }
        if all_names_ok(args) {
            assert forall|i: int| 0 <= i < args.len() implies names_ok(#[trigger] args[i]) by {
                if i > 0 {
                    assert(args[i] == rest[i - 1]);
                }
            }
        }
    }
}

/// An expression read from the stream has well-formed names.
pub proof fn lemma_bp_names(ts: TokenStream, k: nat, min: nat)
    requires
        stream_names_ok(ts),
    ensures
        parse_bp(ts, k, min) matches Ok((e, _)) ==> names_ok(e),
    decreases ts.toks.len() - k, 3nat,
{
    if k < ts.toks.len() {
        let t = ts.toks[k as int];
        assert(kind_names_ok(t.kind));
        match t.kind {
            SpecTokenKind::Ident(n) => match next_index(ts, k) {
                Ok(k1) => {
                    lemma_loop_names(ts, k1, SpecExpr::Ident(n), min);
                },
                Err(_) => {},
            },
            SpecTokenKind::Number(n) => match next_index(ts, k) {
                Ok(k1) => {
                    lemma_loop_names(ts, k1, SpecExpr::Number(n), min);
                },
                Err(_) => {},
            },
            SpecTokenKind::Op(o) => if unary_of(o) is Some {
                match next_index(ts, k) {
                    Ok(k1) => {
                        lemma_bp_names(ts, k1, unary_rbp());
                        match parse_bp(ts, k1, unary_rbp()) {
                            Ok((e, k2)) => if advanced(ts, k, k2) {
                                lemma_loop_names(
                                    ts,
                                    k2,
                                    SpecExpr::Unary { op: unary_of(o)->0, expr: Box::new(e) },
                                    min,
                                );
                            },
                            Err(_) => {},
                        }
                    },
                    Err(_) => {},
                }
            },
            SpecTokenKind::LParen => match next_index(ts, k) {
                Ok(k1) => {
                    lemma_bp_names(ts, k1, 0);
                    match parse_bp(ts, k1, 0) {
                        Ok((e, k2)) => if advanced(ts, k, k2) && ts.toks[k2 as int].kind is RParen {
                            match next_index(ts, k2) {
                                Ok(k3) => {
                                    lemma_loop_names(ts, k3, e, min);
                                },
                                Err(_) => {},
                            }
                        },
                        Err(_) => {},
                    }
                },
                Err(_) => {},
            },
            SpecTokenKind::KwForall => {
                lemma_quant_names(ts, k, QuantKind::Forall, min);
            },
            SpecTokenKind::KwExists => {
                lemma_quant_names(ts, k, QuantKind::Exists, min);
            },
            _ => {},
        }
    }
}

proof fn lemma_quant_names(ts: TokenStream, k: nat, kind: QuantKind, min: nat)
    requires
        stream_names_ok(ts),
    ensures
        parse_quant(ts, k, kind, min) matches Ok((e, _)) ==> names_ok(e),
    decreases ts.toks.len() - k, 2nat,
{
    if k < ts.toks.len() {
        match next_index(ts, k) {
            Ok(k1) => {
                lemma_binders_names(ts, k1, Seq::empty());
                match parse_binders(ts, k1, Seq::empty()) {
                    Ok((vars, k2)) => if advanced(ts, k, k2) {
                        match next_index(ts, k2) {
                            Ok(k3) => {
                                lemma_bp_names(ts, k3, 0);
                                match parse_bp(ts, k3, 0) {
                                    Ok((body, k4)) => if advanced(ts, k, k4) {
                                        lemma_loop_names(
                                            ts,
                                            k4,
                                            SpecExpr::Quant { kind, vars, body: Box::new(body) },
                                            min,
                                        );
                                    },
                                    Err(_) => {},
                                }
                            },
                            Err(_) => {},
                        }
                    },
                    Err(_) => {},
                }
            },
            Err(_) => {},
        }
    }
}

proof fn lemma_loop_names(ts: TokenStream, k: nat, lhs: SpecExpr, min: nat)
    requires
        stream_names_ok(ts),
        names_ok(lhs),
    ensures
        parse_loop(ts, k, lhs, min) matches Ok((e, _)) ==> names_ok(e),
    decreases ts.toks.len() - k, 2nat,
{
    if k < ts.toks.len() {
        let t = ts.toks[k as int];
        match t.kind {
            SpecTokenKind::Op(o) => if crate::parser::member_of(o) is Some {
                match next_index(ts, k) {
                    Ok(k1) => {
                        assert(kind_names_ok(ts.toks[k1 as int].kind));
                        match ts.toks[k1 as int].kind {
                            SpecTokenKind::Ident(f) => match next_index(ts, k1) {
                                Ok(k2) => {
                                    lemma_loop_names(
                                        ts,
                                        k2,
                                        SpecExpr::Member {
                                            base: Box::new(lhs),
                                            op: crate::parser::member_of(o)->0,
                                            field: f,
                                        },
                                        min,
                                    );
                                },
                                Err(_) => {},
                            },
                            _ => {},
                        }
                    },
                    Err(_) => {},
                }
            } else if crate::parser::binop_of(o) is Some {
                let op = crate::parser::binop_of(o)->0;
                if crate::parser::left_bp(op) >= min {
                    match next_index(ts, k) {
                        Ok(k1) => {
                            lemma_bp_names(ts, k1, crate::parser::right_bp(op));
                            match parse_bp(ts, k1, crate::parser::right_bp(op)) {
                                Ok((rhs, k2)) => if advanced(ts, k, k2) {
                                    lemma_loop_names(
                                        ts,
                                        k2,
                                        SpecExpr::Binary { op, left: Box::new(lhs), right: Box::new(rhs) },
                                        min,
                                    );
                                },
                                Err(_) => {},
                            }
                        },
                        Err(_) => {},
                    }
                }
            },
            SpecTokenKind::Question => if 1 >= min {
                match next_index(ts, k) {
                    Ok(k1) => {
                        lemma_bp_names(ts, k1, 0);
                        match parse_bp(ts, k1, 0) {
                            Ok((then_e, k2)) => if advanced(ts, k, k2) && ts.toks[k2 as int].kind is Colon {
                                match next_index(ts, k2) {
                                    Ok(k3) => {
                                        lemma_bp_names(ts, k3, 1);
                                        match parse_bp(ts, k3, 1) {
                                            Ok((else_e, k4)) => if advanced(ts, k, k4) {
                                                lemma_loop_names(
                                                    ts,
                                                    k4,
                                                    SpecExpr::Ternary {
                                                        cond: Box::new(lhs),
                                                        then_expr: Box::new(then_e),
                                                        else_expr: Box::new(else_e),
                                                    },
                                                    min,
                                                );
                                            },
                                            Err(_) => {},
                                        }
                                    },
                                    Err(_) => {},
                                }
                            },
                            Err(_) => {},
                        }
                    },
                    Err(_) => {},
                }
            },
            SpecTokenKind::LParen => match next_index(ts, k) {
                Ok(k1) => {
                    lemma_args_names(ts, k1, Seq::empty());
                    match parse_args(ts, k1, Seq::empty()) {
                        Ok((args, k2)) => if advanced(ts, k, k2) {
                            lemma_loop_names(ts, k2, SpecExpr::Call { callee: Box::new(lhs), args }, min);
                        },
                        Err(_) => {},
                    }
                },
                Err(_) => {},
            },
            SpecTokenKind::LBracket => match next_index(ts, k) {
                Ok(k1) => {
                    lemma_bp_names(ts, k1, 0);
                    match parse_bp(ts, k1, 0) {
                        Ok((index, k2)) => if advanced(ts, k, k2) && ts.toks[k2 as int].kind is RBracket {
                            match next_index(ts, k2) {
                                Ok(k3) => {
                                    lemma_loop_names(
                                        ts,
                                        k3,
                                        SpecExpr::Index { base: Box::new(lhs), index: Box::new(index) },
                                        min,
                                    );
                                },
                                Err(_) => {},
                            }
                        },
                        Err(_) => {},
                    }
                },
                Err(_) => {},
            },
            _ => {},
        }
    }
}

proof fn lemma_args_names(ts: TokenStream, k: nat, acc: Seq<SpecExpr>)
    requires
        stream_names_ok(ts),
        forall|i: int| 0 <= i < acc.len() ==> names_ok(#[trigger] acc[i]),
    ensures
        parse_args(ts, k, acc) matches Ok((args, _)) ==> all_names_ok(args),
    decreases ts.toks.len() - k, 4nat,
{
    lemma_all_names(acc);
    if k < ts.toks.len() && !(acc.len() == 0 && ts.toks[k as int].kind is RParen) {
        lemma_bp_names(ts, k, 0);
        match parse_bp(ts, k, 0) {
            Ok((a, k1)) => if advanced(ts, k, k1) {
                let more = acc.push(a);
                assert forall|i: int| 0 <= i < more.len() implies names_ok(#[trigger] more[i]) by {
                    if i < acc.len() {
                        assert(more[i] == acc[i]);
                    }
                }
                lemma_all_names(more);
                match ts.toks[k1 as int].kind {
                    SpecTokenKind::Comma => match next_index(ts, k1) {
                        Ok(k2) => {
                            lemma_args_names(ts, k2, more);
                        },
                        Err(_) => {},
                    },
                    _ => {},
                }
            },
            Err(_) => {},
        }
    }
}

/// An expression read from a text has well-formed names.
pub proof fn lemma_parse_text_names(s: Seq<char>)
    ensures
        parse_text(s) matches Ok(e) ==> names_ok(e),
{
    lemma_lex_names(s, 0);
    lemma_bp_names(lex_stream(s), 0, 0);
}

proof fn lemma_simplify_all_index(s: Seq<SpecExpr>)
    ensures
        simplify_all(s).len() == s.len(),
        forall|i: int| 0 <= i < s.len() ==> #[trigger] simplify_all(s)[i] == simplify(s[i]),
    decreases s.len(),
{
    if s.len() > 0 {
        lemma_simplify_all_index(s.drop_last());
    }
}

/// Simplifying keeps the names well formed.
pub proof fn lemma_simplify_names(e: SpecExpr)
    requires
        names_ok(e),
    ensures
        names_ok(simplify(e)),
    decreases e,
{
    match e {
        SpecExpr::Unary { op, expr } => {
            lemma_simplify_names(*expr);
        },
        SpecExpr::Binary { left, right, .. } => {
            lemma_simplify_names(*left);
            lemma_simplify_names(*right);
        },
        SpecExpr::Ternary { cond, then_expr, else_expr } => {
            lemma_simplify_names(*cond);
            lemma_simplify_names(*then_expr);
            lemma_simplify_names(*else_expr);
        },
        SpecExpr::Call { callee, args } => {
            lemma_simplify_names(*callee);
            lemma_all_names(args);
            lemma_simplify_all_index(args);
            let r = simplify_all(args);
            assert forall|i: int| 0 <= i < r.len() implies names_ok(#[trigger] r[i]) by {
                lemma_simplify_names(args[i]);
            }
            lemma_all_names(r);
        },
        SpecExpr::Index { base, index } => {
            lemma_simplify_names(*base);
            lemma_simplify_names(*index);
        },
        SpecExpr::Member { base, .. } => {
            lemma_simplify_names(*base);
        },
        SpecExpr::Quant { body, .. } => {
            lemma_simplify_names(*body);
        },
        _ => {},
    }
}

} // verus!
