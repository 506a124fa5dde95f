use vstd::prelude::*;
use crate::annotate::{apply_rules, clause_text, expr_text, item_texts, normalize_spaces, space_rules};
use crate::ast::{Assoc, SpecExpr};
use crate::format::{format_args, format_ctx, format_spec, simplify};
use crate::laws::lemma_join_cons;
use crate::lexer::SpecTokenKind;
use crate::names::{kind_names_ok, lemma_all_names, lemma_bp_names, lemma_lex_names, lemma_simplify_names, stream_names_ok};
use crate::parser::{advanced, clause_end, keyword_clause, lex_stream, next_index, parse_annotation_text, parse_assigns, parse_bp, parse_clauses, parse_plain_clause, SpecClause, TokenStream};
use crate::roundtrip::{all_names_ok, names_ok, valid_name};
use crate::text::{contains, join, replace_all, replace_fix, split_from, split_on, lemma_replace_all_len};

verus! {

/// A character that UTF-8 writes in one byte.
pub open spec fn ascii_char(c: char) -> bool {
    c <= '\u{7f}'
}

/// Every character of the text is written in one byte, so its length in characters is its
/// length in bytes.
pub open spec fn ascii(s: Seq<char>) -> bool {
    forall|j: int| 0 <= j < s.len() ==> ascii_char(#[trigger] s[j])
}

pub proof fn lemma_ascii_add(a: Seq<char>, b: Seq<char>)
    requires
        ascii(a),
        ascii(b),
    ensures
        ascii(a + b),
{
    assert forall|j: int| 0 <= j < (a + b).len() implies ascii_char(#[trigger] (a + b)[j]) by {
        if j < a.len() {
            assert((a + b)[j] == a[j]);
        } else {
            assert((a + b)[j] == b[j - a.len()]);
        }
    }
}

pub proof fn lemma_ascii_join(parts: Seq<Seq<char>>, sep: Seq<char>)
    requires
        ascii(sep),
        forall|i: int| 0 <= i < parts.len() ==> ascii(#[trigger] parts[i]),
    ensures
        ascii(join(parts, sep)),
    decreases parts.len(),
{
    if parts.len() > 1 {
        let front = parts.drop_last();
        assert forall|i: int| 0 <= i < front.len() implies ascii(#[trigger] front[i]) by {
            assert(front[i] == parts[i]);
        }
        lemma_ascii_join(front, sep);
        assert(ascii(parts.last()));
        lemma_ascii_add(join(front, sep), sep);
        lemma_ascii_add(join(front, sep) + sep, parts.last());
    } else if parts.len() == 1 {
        assert(ascii(parts[0]));
    }
}

proof fn lemma_name_ascii(n: Seq<char>)
    requires
        valid_name(n),
    ensures
        ascii(n),
{
}

proof fn lemma_binder_ascii(v: Seq<char>)
    requires
        forall|j: int| 0 <= j < split_on(v, ' ').len() ==> valid_name(#[trigger] split_on(v, ' ')[j]),
    ensures
        ascii(v),
{
    let ws = split_on(v, ' ');
    crate::roundtrip::lemma_split_join(v, ' ', Seq::empty());
    assert(Seq::<char>::empty() + v =~= v);
    assert forall|j: int| 0 <= j < ws.len() implies ascii(#[trigger] ws[j]) by {
        lemma_name_ascii(ws[j]);
    }
    lemma_ascii_join(ws, seq![' ']);
}

/// The text of an expression with well-formed names is ASCII.
pub proof fn lemma_format_ascii(e: SpecExpr, pp: nat, pa: Assoc, r: bool)
    requires
        names_ok(e),
    ensures
        ascii(format_ctx(e, pp, pa, r)),
    decreases e, 0nat,
{
    reveal_strlit(" ? ");
    reveal_strlit(" : ");
    reveal_strlit(", ");
    reveal_strlit("; ");
    match e {
        SpecExpr::Ident(n) => {},
        SpecExpr::Number(n) => {},
        SpecExpr::Unary { op, expr } => {
            lemma_format_ascii(*expr, 10, Assoc::Right, false);
            lemma_ascii_add(op.spec_str(), format_ctx(*expr, 10, Assoc::Right, false));
            lemma_ascii_add(seq!['('] + op.spec_str() + format_ctx(*expr, 10, Assoc::Right, false), seq![')']);
            lemma_ascii_add(seq!['('], op.spec_str() + format_ctx(*expr, 10, Assoc::Right, false));
        },
        SpecExpr::Binary { op, left, right } => {
            let p = op.spec_precedence() as nat;
            let a = op.spec_assoc();
            lemma_format_ascii(*left, p, a, false);
            lemma_format_ascii(*right, p, a, true);
            let l = format_ctx(*left, p, a, false);
            let rr = format_ctx(*right, p, a, true);
            lemma_wrap_ascii(l);
            lemma_wrap_ascii(rr);
            let wl = crate::format::wrap_if(l, crate::format::child_parens_needed(*left, op));
            let wr = crate::format::wrap_if(rr, crate::format::child_parens_needed(*right, op));
            lemma_ascii_add(wl, seq![' ']);
            lemma_ascii_add(wl + seq![' '], op.spec_str());
            lemma_ascii_add(wl + seq![' '] + op.spec_str(), seq![' ']);
            lemma_ascii_add(wl + seq![' '] + op.spec_str() + seq![' '], wr);
            lemma_wrap_ascii(wl + seq![' '] + op.spec_str() + seq![' '] + wr);
        },
        SpecExpr::Ternary { cond, then_expr, else_expr } => {
            lemma_format_ascii(*cond, 1, Assoc::Right, false);
            lemma_format_ascii(*then_expr, 1, Assoc::Right, false);
            lemma_format_ascii(*else_expr, 1, Assoc::Right, true);
            let c = format_ctx(*cond, 1, Assoc::Right, false);
            let t = format_ctx(*then_expr, 1, Assoc::Right, false);
            let f = format_ctx(*else_expr, 1, Assoc::Right, true);
            lemma_ascii_add(c, " ? "@);
            lemma_ascii_add(c + " ? "@, t);
            lemma_ascii_add(c + " ? "@ + t, " : "@);
            lemma_ascii_add(c + " ? "@ + t + " : "@, f);
            lemma_wrap_ascii(c + " ? "@ + t + " : "@ + f);
        },
        SpecExpr::Call { callee, args } => {
            lemma_format_ascii(*callee, 0, Assoc::Left, false);
            let c = format_ctx(*callee, 0, Assoc::Left, false);
            lemma_wrap_ascii(c);
            let wc = crate::format::wrap_if(c, crate::format::parens_needed(crate::format::prec_of(*callee), 11, Assoc::Left, false));
            lemma_args_ascii(args);
            let j = join(format_args(args), ", "@);
            lemma_ascii_add(wc, seq!['(']);
            lemma_ascii_add(wc + seq!['('], j);
            lemma_ascii_add(wc + seq!['('] + j, seq![')']);
            lemma_wrap_ascii(wc + seq!['('] + j + seq![')']);
        },
        SpecExpr::Index { base, index } => {
            lemma_format_ascii(*base, 0, Assoc::Left, false);
            lemma_format_ascii(*index, 0, Assoc::Left, false);
            let b = format_ctx(*base, 0, Assoc::Left, false);
            let x = format_ctx(*index, 0, Assoc::Left, false);
            lemma_wrap_ascii(b);
            let wb = crate::format::wrap_if(b, crate::format::parens_needed(crate::format::prec_of(*base), 11, Assoc::Left, false));
            lemma_ascii_add(wb, seq!['[']);
            lemma_ascii_add(wb + seq!['['], x);
            lemma_ascii_add(wb + seq!['['] + x, seq![']']);
            lemma_wrap_ascii(wb + seq!['['] + x + seq![']']);
        },
        SpecExpr::Member { base, op, field } => {
            lemma_format_ascii(*base, 0, Assoc::Left, false);
            let b = format_ctx(*base, 0, Assoc::Left, false);
            lemma_wrap_ascii(b);
            let wb = crate::format::wrap_if(b, crate::format::parens_needed(crate::format::prec_of(*base), 11, Assoc::Left, false));
            lemma_ascii_add(wb, crate::format::member_str(op));
            lemma_ascii_add(wb + crate::format::member_str(op), field);
            lemma_wrap_ascii(wb + crate::format::member_str(op) + field);
        },
        SpecExpr::Quant { kind, vars, body } => {
            lemma_format_ascii(*body, 0, Assoc::Right, true);
            let b = format_ctx(*body, 0, Assoc::Right, true);
            assert forall|i: int| 0 <= i < vars.len() implies ascii(#[trigger] vars[i]) by {
                assert forall|j: int| 0 <= j < split_on(vars[i], ' ').len() implies valid_name(
                    #[trigger] split_on(vars[i], ' ')[j],
                ) by {}
                lemma_binder_ascii(vars[i]);
            }
            lemma_ascii_join(vars, ", "@);
            let jv = join(vars, ", "@);
            lemma_ascii_add(kind.spec_str(), seq![' ']);
            lemma_ascii_add(kind.spec_str() + seq![' '], jv);
            lemma_ascii_add(kind.spec_str() + seq![' '] + jv, "; "@);
            lemma_ascii_add(kind.spec_str() + seq![' '] + jv + "; "@, b);
            lemma_wrap_ascii(kind.spec_str() + seq![' '] + jv + "; "@ + b);
        },
    }
}

proof fn lemma_wrap_ascii(s: Seq<char>)
    requires
        ascii(s),
    ensures
        ascii(crate::format::wrap_if(s, true)),
        ascii(crate::format::wrap_if(s, false)),
{
    lemma_ascii_add(seq!['('], s);
    lemma_ascii_add(seq!['('] + s, seq![')']);
}

proof fn lemma_args_ascii(args: Seq<SpecExpr>)
    requires
        all_names_ok(args),
    ensures
        ascii(join(format_args(args), ", "@)),
    decreases args, 1nat,
{
    reveal_strlit(", ");
    lemma_args_texts_ascii(args);
    lemma_ascii_join(format_args(args), ", "@);
}

proof fn lemma_args_texts_ascii(args: Seq<SpecExpr>)
    requires
        all_names_ok(args),
    ensures
        forall|i: int| 0 <= i < format_args(args).len() ==> ascii(#[trigger] format_args(args)[i]),
        format_args(args).len() == args.len(),
    decreases args, 0nat,
{
    lemma_all_names(args);
    if args.len() > 0 {
        let front = args.drop_last();
        assert forall|i: int| 0 <= i < front.len() implies names_ok(#[trigger] front[i]) by {
            assert(front[i] == args[i]);
        }
        lemma_all_names(front);
        lemma_args_texts_ascii(front);
        lemma_format_ascii(args.last(), 0, Assoc::Left, false);
    }
}

proof fn lemma_replace_all_ascii(s: Seq<char>, from: Seq<char>, to: Seq<char>)
    requires
        ascii(s),
        ascii(to),
    ensures
        ascii(replace_all(s, from, to)),
    decreases s.len(),
{
    if from.len() == 0 || s.len() < from.len() {
    } else if s.take(from.len() as int) == from {
        let rest = s.skip(from.len() as int);
        lemma_replace_all_ascii(rest, from, to);
        lemma_ascii_add(to, replace_all(rest, from, to));
    } else {
        let rest = s.drop_first();
        lemma_replace_all_ascii(rest, from, to);
        lemma_ascii_add(seq![s[0]], replace_all(rest, from, to));
    }
}

proof fn lemma_replace_fix_ascii(s: Seq<char>, from: Seq<char>, to: Seq<char>)
    requires
        ascii(s),
        ascii(to),
    ensures
        ascii(replace_fix(s, from, to)),
    decreases s.len(),
{
    if from.len() > 0 && to.len() < from.len() && contains(s, from) {
        lemma_replace_all_len(s, from, to);
        lemma_replace_all_ascii(s, from, to);
        lemma_replace_fix_ascii(replace_all(s, from, to), from, to);
    }
}

proof fn lemma_apply_rules_ascii(s: Seq<char>, rules: Seq<(Seq<char>, Seq<char>)>)
    requires
        ascii(s),
        forall|i: int| 0 <= i < rules.len() ==> ascii(#[trigger] rules[i].1),
    ensures
        ascii(apply_rules(s, rules)),
    decreases rules.len(),
{
    if rules.len() > 0 {
        assert(ascii(rules[0].1));
        lemma_replace_fix_ascii(s, rules[0].0, rules[0].1);
        let rest = rules.drop_first();
        assert forall|i: int| 0 <= i < rest.len() implies ascii(#[trigger] rest[i].1) by {
            assert(rest[i] == rules[i + 1]);
        }
        lemma_apply_rules_ascii(replace_fix(s, rules[0].0, rules[0].1), rest);
    }
}

/// The text of an expression inside a clause is ASCII when its names are well formed.
proof fn lemma_expr_text_ascii(e: SpecExpr)
    requires
        names_ok(e),
    ensures
        ascii(expr_text(e)),
{
    reveal_strlit("->");
    reveal_strlit(".");
    reveal_strlit("[");
    reveal_strlit("]");
    lemma_simplify_names(e);
    lemma_format_ascii(simplify(e), 0, Assoc::Left, false);
    let rules = space_rules();
    assert forall|i: int| 0 <= i < rules.len() implies ascii(#[trigger] rules[i].1) by {}
    lemma_apply_rules_ascii(format_spec(e), rules);
}

/// The names in a clause are well formed.
pub open spec fn clause_names_ok(c: SpecClause) -> bool {
    match c {
        SpecClause::Expr(e) => names_ok(e),
        SpecClause::Assert(e) => names_ok(e),
        SpecClause::LoopInvariant(e) => names_ok(e),
        SpecClause::Requires(e) => names_ok(e),
        SpecClause::Ensures(e) => names_ok(e),
        SpecClause::Assumes(e) => names_ok(e),
        SpecClause::Assigns(items) => forall|i: int| 0 <= i < items.len() ==> names_ok(#[trigger] items[i]),
        SpecClause::Behavior(n) => valid_name(n),
    }
}

proof fn lemma_clause_text_ascii(c: SpecClause)
    requires
        clause_names_ok(c),
    ensures
        ascii(clause_text(c)),
{
    reveal_strlit("assert ");
    reveal_strlit("loop invariant ");
    reveal_strlit("requires ");
    reveal_strlit("ensures ");
    reveal_strlit("assumes ");
    reveal_strlit("assigns ");
    reveal_strlit("behavior ");
    reveal_strlit(":");
    reveal_strlit(", ");
    match c {
        SpecClause::Expr(e) => {
            lemma_expr_text_ascii(e);
        },
        SpecClause::Assert(e) => {
            lemma_expr_text_ascii(e);
            lemma_ascii_add("assert "@, expr_text(e));
        },
        SpecClause::LoopInvariant(e) => {
            lemma_expr_text_ascii(e);
            lemma_ascii_add("loop invariant "@, expr_text(e));
        },
        SpecClause::Requires(e) => {
            lemma_expr_text_ascii(e);
            lemma_ascii_add("requires "@, expr_text(e));
        },
        SpecClause::Ensures(e) => {
            lemma_expr_text_ascii(e);
            lemma_ascii_add("ensures "@, expr_text(e));
        },
        SpecClause::Assumes(e) => {
            lemma_expr_text_ascii(e);
            lemma_ascii_add("assumes "@, expr_text(e));
        },
        SpecClause::Assigns(items) => {
            let ts = item_texts(items);
            assert forall|i: int| 0 <= i < ts.len() implies ascii(#[trigger] ts[i]) by {
                lemma_expr_text_ascii(items[i]);
            }
            lemma_ascii_join(ts, ", "@);
            lemma_ascii_add("assigns "@, join(ts, ", "@));
        },
        SpecClause::Behavior(n) => {
            lemma_ascii_add("behavior "@, n);
            lemma_ascii_add("behavior "@ + n, ":"@);
        },
    }
}

proof fn lemma_assigns_names(ts: TokenStream, k: nat, items: Seq<SpecExpr>)
    requires
        stream_names_ok(ts),
        forall|i: int| 0 <= i < items.len() ==> names_ok(#[trigger] items[i]),
    ensures
        parse_assigns(ts, k, items) matches Ok((r, _)) ==> forall|i: int|
            0 <= i < r.len() ==> names_ok(#[trigger] r[i]),
    decreases ts.toks.len() - k,
{
    lemma_bp_names(ts, k, 0);
    match parse_bp(ts, k, 0) {
        Ok((e, k1)) => if advanced(ts, k, k1) {
            let more = items.push(e);
            assert forall|i: int| 0 <= i < more.len() implies names_ok(#[trigger] more[i]) by {
                if i < items.len() {
                    assert(more[i] == items[i]);
                }
            }
            if ts.toks[k1 as int].kind is Comma {
                match next_index(ts, k1) {
                    Ok(k2) => {
                        lemma_assigns_names(ts, k2, more);
                    },
                    Err(_) => {},
                }
            }
        },
        Err(_) => {},
    }
}

proof fn lemma_clause_end_names(ts: TokenStream, k: nat, acc: Seq<SpecClause>, c: SpecClause)
    requires
        stream_names_ok(ts),
        forall|i: int| 0 <= i < acc.len() ==> clause_names_ok(#[trigger] acc[i]),
        clause_names_ok(c),
    ensures
        clause_end(ts, k, acc, c) matches Ok(r) ==> forall|i: int|
            0 <= i < r.len() ==> clause_names_ok(#[trigger] r[i]),
    decreases ts.toks.len() - k, 0nat,
{
    let more = acc.push(c);
    assert forall|i: int| 0 <= i < more.len() implies clause_names_ok(#[trigger] more[i]) by {
        if i < acc.len() {
            assert(more[i] == acc[i]);
        }
    }
    if k < ts.toks.len() {
        match ts.toks[k as int].kind {
            SpecTokenKind::Semicolon => match next_index(ts, k) {
                Ok(k1) => {
                    lemma_clauses_names(ts, k1, more);
                },
                Err(_) => {},
            },
            _ => {},
        }
    }
}

proof fn lemma_plain_names(ts: TokenStream, k: nat, acc: Seq<SpecClause>)
    requires
        stream_names_ok(ts),
        forall|i: int| 0 <= i < acc.len() ==> clause_names_ok(#[trigger] acc[i]),
    ensures
        parse_plain_clause(ts, k, acc) matches Ok(r) ==> forall|i: int|
            0 <= i < r.len() ==> clause_names_ok(#[trigger] r[i]),
    decreases ts.toks.len() - k, 1nat,
{
    lemma_bp_names(ts, k, 0);
    match parse_bp(ts, k, 0) {
        Ok((e, k2)) => if advanced(ts, k, k2) {
            lemma_clause_end_names(ts, k2, acc, SpecClause::Expr(e));
        },
        Err(_) => {},
    }
}

proof fn lemma_clauses_names(ts: TokenStream, k: nat, acc: Seq<SpecClause>)
    requires
        stream_names_ok(ts),
        forall|i: int| 0 <= i < acc.len() ==> clause_names_ok(#[trigger] acc[i]),
    ensures
        parse_clauses(ts, k, acc) matches Ok(r) ==> forall|i: int|
            0 <= i < r.len() ==> clause_names_ok(#[trigger] r[i]),
    decreases ts.toks.len() - k, 2nat,
{
    if k < ts.toks.len() {
        let t = ts.toks[k as int];
        match t.kind {
            SpecTokenKind::End => {},
            SpecTokenKind::Ident(w) => {
                if w == "behavior"@ {
                    match next_index(ts, k) {
                        Ok(k1) => {
                            assert(kind_names_ok(ts.toks[k1 as int].kind));
                            match ts.toks[k1 as int].kind {
                                SpecTokenKind::Ident(name) => match next_index(ts, k1) {
                                    Ok(k2) => if ts.toks[k2 as int].kind is Colon {
                                        match next_index(ts, k2) {
                                            Ok(k3) => {
                                                let more = acc.push(SpecClause::Behavior(name));
                                                assert forall|i: int| 0 <= i < more.len() implies clause_names_ok(
                                                    #[trigger] more[i],
                                                ) by {
                                                    if i < acc.len() {
                                                        assert(more[i] == acc[i]);
                                                    }
                                                }
                                                lemma_clauses_names(ts, k3, more);
                                            },
                                            Err(_) => {},
                                        }
                                    },
                                    Err(_) => {},
                                },
                                _ => {},
                            }
                        },
                        Err(_) => {},
                    }
                } else if w == "loop"@ {
                    match next_index(ts, k) {
                        Ok(k1) => match next_index(ts, k1) {
                            Ok(k2) => {
                                lemma_bp_names(ts, k2, 0);
                                match parse_bp(ts, k2, 0) {
                                    Ok((e, k3)) => if advanced(ts, k, k3) {
                                        lemma_clause_end_names(ts, k3, acc, SpecClause::LoopInvariant(e));
                                    },
                                    Err(_) => {},
                                }
                            },
                            Err(_) => {},
                        },
                        Err(_) => {},
                    }
                } else if w == "assigns"@ {
                    match next_index(ts, k) {
                        Ok(k1) => {
                            lemma_assigns_names(ts, k1, Seq::empty());
                            match parse_assigns(ts, k1, Seq::empty()) {
                                Ok((items, k2)) => if advanced(ts, k, k2) {
                                    lemma_clause_end_names(ts, k2, acc, SpecClause::Assigns(items));
                                },
                                Err(_) => {},
                            }
                        },
                        Err(_) => {},
                    }
                } else if keyword_clause(w, SpecExpr::Ident(w)) is Some {
                    match next_index(ts, k) {
                        Ok(k1) => {
                            lemma_bp_names(ts, k1, 0);
                            match parse_bp(ts, k1, 0) {
                                Ok((e, k2)) => if advanced(ts, k, k2) {
                                    lemma_clause_end_names(ts, k2, acc, keyword_clause(w, e)->0);
                                },
                                Err(_) => {},
                            }
                        },
                        Err(_) => {},
                    }
                } else {
                    lemma_plain_names(ts, k, acc);
                }
            },
            _ => {
                lemma_plain_names(ts, k, acc);
            },
        }
    }
}

/// Every clause read from an annotation's text prints as ASCII text.
pub proof fn lemma_annotation_ascii(t: Seq<char>)
    ensures
        parse_annotation_text(t) matches Ok(cs) ==> forall|i: int|
            0 <= i < cs.len() ==> ascii(#[trigger] clause_text(cs[i])),
{
    lemma_lex_names(t, 0);
    let ts = lex_stream(t);
    lemma_clauses_names(ts, 0, Seq::empty());
    if parse_annotation_text(t) is Ok {
        let cs = parse_annotation_text(t)->Ok_0;
        assert forall|i: int| 0 <= i < cs.len() implies ascii(#[trigger] clause_text(cs[i])) by {
            lemma_clause_text_ascii(cs[i]);
        }
    }
}

} // verus!
