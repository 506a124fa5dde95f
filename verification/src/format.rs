use vstd::prelude::*;
use crate::ast::{copy_strings, lemma_view_exprs, lemma_view_exprs_push, view_exprs, view_strings, Assoc, BinaryOp, Expr, MemberOp, QuantKind, SpecExpr, UnaryOp};
use crate::text::{chars_string, join, join_chars, push_all, push_str, str_chars, views};

verus! {

/// The comparison that holds exactly when `op` fails.
pub open spec fn inverted(op: BinaryOp) -> Option<BinaryOp> {
    match op {
        BinaryOp::Eq => Some(BinaryOp::Ne),
        BinaryOp::Ne => Some(BinaryOp::Eq),
        BinaryOp::Lt => Some(BinaryOp::Ge),
        BinaryOp::Le => Some(BinaryOp::Gt),
        BinaryOp::Gt => Some(BinaryOp::Le),
        BinaryOp::Ge => Some(BinaryOp::Lt),
        _ => None,
    }
}

/// The tree with every negation of a comparison turned into the opposite comparison and
/// every double negation dropped, working from the leaves up.
pub open spec fn simplify(e: SpecExpr) -> SpecExpr
    decreases e,
{
    match e {
        SpecExpr::Ident(_) => e,
        SpecExpr::Number(_) => e,
        SpecExpr::Unary { op, expr } => {
            let inner = simplify(*expr);
            if op != UnaryOp::Not {
                SpecExpr::Unary { op, expr: Box::new(inner) }
            } else {
                match inner {
                    SpecExpr::Unary { op: UnaryOp::Not, expr: x } => *x,
                    SpecExpr::Binary { op: b, left, right } => if inverted(b) is Some {
                        SpecExpr::Binary { op: inverted(b)->0, left, right }
                    } else {
                        SpecExpr::Unary { op, expr: Box::new(SpecExpr::Binary { op: b, left, right }) }
                    },
                    _ => SpecExpr::Unary { op, expr: Box::new(inner) },
                }
            }
        },
        SpecExpr::Binary { op, left, right } => SpecExpr::Binary {
            op,
            left: Box::new(simplify(*left)),
            right: Box::new(simplify(*right)),
        },
        SpecExpr::Ternary { cond, then_expr, else_expr } => SpecExpr::Ternary {
            cond: Box::new(simplify(*cond)),
            then_expr: Box::new(simplify(*then_expr)),
            else_expr: Box::new(simplify(*else_expr)),
        },
        SpecExpr::Call { callee, args } => SpecExpr::Call {
            callee: Box::new(simplify(*callee)),
            args: simplify_all(args),
        },
        SpecExpr::Index { base, index } => SpecExpr::Index {
            base: Box::new(simplify(*base)),
            index: Box::new(simplify(*index)),
        },
        SpecExpr::Member { base, op, field } => SpecExpr::Member {
            base: Box::new(simplify(*base)),
            op,
            field,
        },
        SpecExpr::Quant { kind, vars, body } => SpecExpr::Quant {
            kind,
            vars,
            body: Box::new(simplify(*body)),
        },
    }
}

/// `simplify` applied to each element.
pub open spec fn simplify_all(s: Seq<SpecExpr>) -> Seq<SpecExpr>
    decreases s,
{
    if s.len() == 0 {
        Seq::empty()
    } else {
        simplify_all(s.drop_last()).push(simplify(s.last()))
    }
}

/// Precedence of a quantifier, which reaches as far right as it can.
pub open spec fn prec_quant() -> nat {
    0
}

pub open spec fn prec_ternary() -> nat {
    1
}

pub open spec fn prec_unary() -> nat {
    10
}

pub open spec fn prec_postfix() -> nat {
    11
}

pub open spec fn prec_primary() -> nat {
    12
}

/// Does a node of precedence `node_prec` need parentheses where its parent has precedence
/// `parent_prec` and associativity `parent_assoc`, on the right side when `is_right`?
pub open spec fn parens_needed(node_prec: nat, parent_prec: nat, parent_assoc: Assoc, is_right: bool) -> bool {
    if node_prec < parent_prec {
        true
    } else if node_prec > parent_prec {
        false
    } else {
        match parent_assoc {
            Assoc::Left => is_right,
            Assoc::Right => !is_right,
        }
    }
}

/// Operands that keep their parentheses under a binary operator for readability:
/// `&&` under `||`, and an ordering comparison under `==` or `!=`.
pub open spec fn child_parens_needed(e: SpecExpr, parent_op: BinaryOp) -> bool {
    match e {
        SpecExpr::Binary { op, .. } => (parent_op == BinaryOp::Or && op == BinaryOp::And) || ((
        parent_op == BinaryOp::Eq || parent_op == BinaryOp::Ne) && (op == BinaryOp::Lt || op
            == BinaryOp::Le || op == BinaryOp::Gt || op == BinaryOp::Ge)),
        _ => false,
    }
}

/// The precedence of a node.
pub open spec fn prec_of(e: SpecExpr) -> nat {
    match e {
        SpecExpr::Quant { .. } => prec_quant(),
        SpecExpr::Ternary { .. } => prec_ternary(),
        SpecExpr::Binary { op, .. } => op.spec_precedence() as nat,
        SpecExpr::Unary { .. } => prec_unary(),
        SpecExpr::Call { .. } => prec_postfix(),
        SpecExpr::Index { .. } => prec_postfix(),
        SpecExpr::Member { .. } => prec_postfix(),
        SpecExpr::Ident(_) => prec_primary(),
        SpecExpr::Number(_) => prec_primary(),
    }
}

/// `s` in parentheses when `b`.
pub open spec fn wrap_if(s: Seq<char>, b: bool) -> Seq<char> {
    if b {
        seq!['('] + s + seq![')']
    } else {
        s
    }
}

/// The spelling of a member access.
pub open spec fn member_str(op: MemberOp) -> Seq<char> {
    match op {
        MemberOp::Dot => seq!['.'],
        MemberOp::Arrow => seq!['-', '>'],
    }
}

/// The text of `e` where its parent has precedence `parent_prec` and associativity
/// `parent_assoc`, and `e` stands on the parent's right side when `is_right`.
pub open spec fn format_ctx(e: SpecExpr, parent_prec: nat, parent_assoc: Assoc, is_right: bool) -> Seq<char>
    decreases e,
{
    match e {
        SpecExpr::Ident(n) => n,
        SpecExpr::Number(n) => n,
        SpecExpr::Unary { op, expr } => wrap_if(
            op.spec_str() + format_ctx(*expr, prec_unary(), Assoc::Right, false),
            parens_needed(prec_unary(), parent_prec, parent_assoc, is_right),
        ),
        SpecExpr::Binary { op, left, right } => {
            let prec = op.spec_precedence() as nat;
            let assoc = op.spec_assoc();
            wrap_if(
                wrap_if(format_ctx(*left, prec, assoc, false), child_parens_needed(*left, op))
                    + seq![' '] + op.spec_str() + seq![' '] + wrap_if(
                    format_ctx(*right, prec, assoc, true),
                    child_parens_needed(*right, op),
                ),
                parens_needed(prec, parent_prec, parent_assoc, is_right),
            )
        },
        SpecExpr::Ternary { cond, then_expr, else_expr } => wrap_if(
            format_ctx(*cond, prec_ternary(), Assoc::Right, false) + " ? "@ + format_ctx(
                *then_expr,
                prec_ternary(),
                Assoc::Right,
                false,
            ) + " : "@ + format_ctx(*else_expr, prec_ternary(), Assoc::Right, true),
            parens_needed(prec_ternary(), parent_prec, parent_assoc, is_right),
        ),
        SpecExpr::Call { callee, args } => wrap_if(
            wrap_if(
                format_ctx(*callee, 0, Assoc::Left, false),
                parens_needed(prec_of(*callee), prec_postfix(), Assoc::Left, false),
            ) + seq!['('] + join(format_args(args), ", "@) + seq![')'],
            parens_needed(prec_postfix(), parent_prec, parent_assoc, is_right),
        ),
        SpecExpr::Index { base, index } => wrap_if(
            wrap_if(
                format_ctx(*base, 0, Assoc::Left, false),
                parens_needed(prec_of(*base), prec_postfix(), Assoc::Left, false),
            ) + seq!['['] + format_ctx(*index, 0, Assoc::Left, false) + seq![']'],
            parens_needed(prec_postfix(), parent_prec, parent_assoc, is_right),
        ),
        SpecExpr::Member { base, op, field } => wrap_if(
            wrap_if(
                format_ctx(*base, 0, Assoc::Left, false),
                parens_needed(prec_of(*base), prec_postfix(), Assoc::Left, false),
            ) + member_str(op) + field,
            parens_needed(prec_postfix(), parent_prec, parent_assoc, is_right),
        ),
        SpecExpr::Quant { kind, vars, body } => wrap_if(
            kind.spec_str() + seq![' '] + join(vars, ", "@) + "; "@ + format_ctx(
                *body,
                prec_quant(),
                Assoc::Right,
                true,
            ),
            parens_needed(prec_quant(), parent_prec, parent_assoc, is_right),
        ),
    }
}

/// The texts of call arguments, each formatted on its own.
pub open spec fn format_args(args: Seq<SpecExpr>) -> Seq<Seq<char>>
    decreases args,
{
    if args.len() == 0 {
        Seq::empty()
    } else {
        format_args(args.drop_last()).push(format_ctx(args.last(), 0, Assoc::Left, false))
    }
}

/// The text of an expression: simplified, then printed with the parentheses it needs.
pub open spec fn format_spec(e: SpecExpr) -> Seq<char> {
    format_ctx(simplify(e), 0, Assoc::Left, false)
}


fn invert_comparison(op: BinaryOp) -> (r: Option<BinaryOp>)
    ensures
        r == inverted(op),
{
    match op {
        BinaryOp::Eq => Some(BinaryOp::Ne),
        BinaryOp::Ne => Some(BinaryOp::Eq),
        BinaryOp::Lt => Some(BinaryOp::Ge),
        BinaryOp::Le => Some(BinaryOp::Gt),
        BinaryOp::Gt => Some(BinaryOp::Le),
        BinaryOp::Ge => Some(BinaryOp::Lt),
        _ => None,
    }
}

/// `simplify_all` of one more element.
proof fn lemma_simplify_all_push(s: Seq<SpecExpr>, e: SpecExpr)
    ensures
        simplify_all(s.push(e)) == simplify_all(s).push(simplify(e)),
{
    assert(s.push(e).drop_last() =~= s);
}

/// The tree with negated comparisons turned around and double negations dropped.
pub fn simplify_expr(expr: &Expr) -> (r: Expr)
    ensures
        r@ == simplify(expr@),
    decreases expr,
{
    match expr {
        Expr::Ident(n) => Expr::Ident(n.clone()),
        Expr::Number(n) => Expr::Number(n.clone()),
        Expr::Unary { op, expr } => {
            let inner = simplify_expr(expr);
            if *op != UnaryOp::Not {
                return Expr::Unary { op: *op, expr: Box::new(inner) };
            }
            match inner {
                Expr::Unary { op: UnaryOp::Not, expr } => *expr,
                Expr::Binary { op: bin_op, left, right } => match invert_comparison(bin_op) {
                    Some(inv) => Expr::Binary { op: inv, left, right },
                    None => Expr::Unary {
                        op: UnaryOp::Not,
                        expr: Box::new(Expr::Binary { op: bin_op, left, right }),
                    },
                },
                other => Expr::Unary { op: UnaryOp::Not, expr: Box::new(other) },
            }
        },
        Expr::Binary { op, left, right } => Expr::Binary {
            op: *op,
            left: Box::new(simplify_expr(left)),
            right: Box::new(simplify_expr(right)),
        },
        Expr::Ternary { cond, then_expr, else_expr } => Expr::Ternary {
            cond: Box::new(simplify_expr(cond)),
            then_expr: Box::new(simplify_expr(then_expr)),
            else_expr: Box::new(simplify_expr(else_expr)),
        },
        Expr::Call { callee, args } => Expr::Call {
            callee: Box::new(simplify_expr(callee)),
            args: simplify_args(args),
        },
        Expr::Index { base, index } => Expr::Index {
            base: Box::new(simplify_expr(base)),
            index: Box::new(simplify_expr(index)),
        },
        Expr::Member { base, op, field } => Expr::Member {
            base: Box::new(simplify_expr(base)),
            op: *op,
            field: field.clone(),
        },
        Expr::Quant { kind, vars, body } => Expr::Quant {
            kind: *kind,
            vars: copy_strings(vars),
            body: Box::new(simplify_expr(body)),
        },
    }
}

/// `simplify_expr` applied to each argument.
fn simplify_args(args: &Vec<Expr>) -> (r: Vec<Expr>)
    ensures
        view_exprs(r@) == simplify_all(view_exprs(args@)),
    decreases args,
{
    let mut out: Vec<Expr> = Vec::new();
    let mut i: usize = 0;
    proof {
        lemma_view_exprs(args@);
        lemma_view_exprs(out@);
        assert(view_exprs(args@).take(0) =~= Seq::<SpecExpr>::empty());
    }
    while i < args.len()
        invariant
            i <= args.len(),
            view_exprs(args@).len() == args@.len(),
            forall|j: int| 0 <= j < args@.len() ==> #[trigger] view_exprs(args@)[j] == args@[j]@,
            view_exprs(out@) == simplify_all(view_exprs(args@).take(i as int)),
        decreases args.len() - i,
    {
        assert(decreases_to!(args => args@[i as int]));
        let a = simplify_expr(&args[i]);
        proof {
            lemma_view_exprs_push(out@, a);
            lemma_simplify_all_push(view_exprs(args@).take(i as int), args@[i as int]@);
            assert(view_exprs(args@).take(i + 1) =~= view_exprs(args@).take(i as int).push(
                args@[i as int]@,
            ));
        }
        out.push(a);
        i += 1;
    }
    proof {
        assert(view_exprs(args@).take(i as int) =~= view_exprs(args@));
    }
    out
}

fn needs_parens(node_prec: u8, parent_prec: u8, parent_assoc: Assoc, is_right: bool) -> (b: bool)
    ensures
        b == parens_needed(node_prec as nat, parent_prec as nat, parent_assoc, is_right),
{
    if node_prec < parent_prec {
        return true;
    }
    if node_prec > parent_prec {
        return false;
    }
    match parent_assoc {
        Assoc::Left => is_right,
        Assoc::Right => !is_right,
    }
}

fn needs_binary_child_parens(expr: &Expr, parent_op: BinaryOp) -> (b: bool)
    ensures
        b == child_parens_needed(expr@, parent_op),
{
    match expr {
        Expr::Binary { op, .. } => (parent_op == BinaryOp::Or && *op == BinaryOp::And) || ((
        parent_op == BinaryOp::Eq || parent_op == BinaryOp::Ne) && (*op == BinaryOp::Lt || *op
            == BinaryOp::Le || *op == BinaryOp::Gt || *op == BinaryOp::Ge)),
        _ => false,
    }
}

fn prec_for_expr(expr: &Expr) -> (p: u8)
    ensures
        p as nat == prec_of(expr@),
{
    match expr {
        Expr::Quant { .. } => 0,
        Expr::Ternary { .. } => 1,
        Expr::Binary { op, .. } => op.precedence(),
        Expr::Unary { .. } => 10,
        Expr::Call { .. } | Expr::Index { .. } | Expr::Member { .. } => 11,
        Expr::Ident(_) | Expr::Number(_) => 12,
    }
}

/// `v` in parentheses when `b`.
fn wrap_parens(v: Vec<char>, b: bool) -> (r: Vec<char>)
    ensures
        r@ == wrap_if(v@, b),
{
    if b {
        let mut r: Vec<char> = Vec::new();
        r.push('(');
        push_all(&mut r, &v);
        r.push(')');
        assert(r@ =~= wrap_if(v@, b));
        r
    } else {
        v
    }
}

fn format_binary_child(expr: &Expr, parent_op: BinaryOp, parent_prec: u8, parent_assoc: Assoc, is_right: bool) -> (r: Vec<char>)
    ensures
        r@ == wrap_if(
            format_ctx(expr@, parent_prec as nat, parent_assoc, is_right),
            child_parens_needed(expr@, parent_op),
        ),
    decreases expr, 3nat,
{
    let formatted = format_expr_with_ctx(expr, parent_prec, parent_assoc, is_right);
    wrap_parens(formatted, needs_binary_child_parens(expr, parent_op))
}

/// The characters of each string in a list.
fn strings_chars(v: &Vec<String>) -> (r: Vec<Vec<char>>)
    ensures
        views(r@) == view_strings(v@),
{
    let mut r: Vec<Vec<char>> = Vec::new();
    let mut i: usize = 0;
    while i < v.len()
        invariant
            i <= v.len(),
            r@.len() == i,
            forall|j: int| 0 <= j < i ==> #[trigger] r@[j]@ == v@[j]@,
        decreases v.len() - i,
    {
        r.push(str_chars(v[i].as_str()));
        i += 1;
    }
    assert(views(r@) =~= view_strings(v@));
    r
}

/// `format_args` of one more argument.
proof fn lemma_format_args_push(s: Seq<SpecExpr>, e: SpecExpr)
    ensures
        format_args(s.push(e)) == format_args(s).push(format_ctx(e, 0, Assoc::Left, false)),
{
    assert(s.push(e).drop_last() =~= s);
}

/// The text of each call argument.
fn format_arg_list(args: &Vec<Expr>) -> (parts: Vec<Vec<char>>)
    ensures
        views(parts@) == format_args(view_exprs(args@)),
    decreases args,
{
    let mut parts: Vec<Vec<char>> = Vec::new();
    let mut i: usize = 0;
    proof {
        lemma_view_exprs(args@);
        assert(views(parts@) =~= format_args(view_exprs(args@).take(0)));
    }
    while i < args.len()
        invariant
            i <= args.len(),
            view_exprs(args@).len() == args@.len(),
            forall|j: int| 0 <= j < args@.len() ==> #[trigger] view_exprs(args@)[j] == args@[j]@,
            views(parts@) == format_args(view_exprs(args@).take(i as int)),
        decreases args.len() - i,
    {
        assert(decreases_to!(args => args@[i as int]));
        let a = format_expr_with_ctx(&args[i], 0, Assoc::Left, false);
        proof {
            lemma_format_args_push(view_exprs(args@).take(i as int), args@[i as int]@);
            assert(view_exprs(args@).take(i + 1) =~= view_exprs(args@).take(i as int).push(
                args@[i as int]@,
            ));
        }
        let ghost before = views(parts@);
        parts.push(a);
        assert(views(parts@) =~= before.push(a@));
        i += 1;
    }
    proof {
        assert(view_exprs(args@).take(i as int) =~= view_exprs(args@));
    }
    parts
}

/// The text of `expr` under a parent of precedence `parent_prec` and associativity
/// `parent_assoc`, on the parent's right side when `is_right`.
fn format_expr_with_ctx(expr: &Expr, parent_prec: u8, parent_assoc: Assoc, is_right: bool) -> (r: Vec<char>)
    ensures
        r@ == format_ctx(expr@, parent_prec as nat, parent_assoc, is_right),
    decreases expr, 2nat,
{
    match expr {
        Expr::Ident(name) => str_chars(name.as_str()),
        Expr::Number(value) => str_chars(value.as_str()),
        Expr::Unary { .. } => format_unary(expr, parent_prec, parent_assoc, is_right),
        Expr::Binary { .. } => format_binary(expr, parent_prec, parent_assoc, is_right),
        Expr::Ternary { .. } => format_ternary(expr, parent_prec, parent_assoc, is_right),
        Expr::Call { .. } => format_call(expr, parent_prec, parent_assoc, is_right),
        Expr::Index { .. } => format_index(expr, parent_prec, parent_assoc, is_right),
        Expr::Member { .. } => format_member(expr, parent_prec, parent_assoc, is_right),
        Expr::Quant { .. } => format_quant(expr, parent_prec, parent_assoc, is_right),
    }
}

fn format_unary(expr: &Expr, parent_prec: u8, parent_assoc: Assoc, is_right: bool) -> (r: Vec<char>)
    requires
        expr is Unary,
    ensures
        r@ == format_ctx(expr@, parent_prec as nat, parent_assoc, is_right),
    decreases expr, 1nat,
{
    match expr {
        Expr::Unary { op, expr: inner } => {
            let inner_str = format_expr_with_ctx(inner, 10, Assoc::Right, false);
            let mut combined = str_chars(op.as_str());
            push_all(&mut combined, &inner_str);
            wrap_parens(combined, needs_parens(10, parent_prec, parent_assoc, is_right))
        },
        _ => Vec::new(),
    }
}

fn format_binary(expr: &Expr, parent_prec: u8, parent_assoc: Assoc, is_right: bool) -> (r: Vec<char>)
    requires
        expr is Binary,
    ensures
        r@ == format_ctx(expr@, parent_prec as nat, parent_assoc, is_right),
    decreases expr, 1nat,
{
    match expr {
        Expr::Binary { op, left, right } => {
            let prec = op.precedence();
            let assoc = op.assoc();
            let left_str = format_binary_child(left, *op, prec, assoc, false);
            let right_str = format_binary_child(right, *op, prec, assoc, true);
            let mut combined = left_str;
            combined.push(' ');
            push_str(&mut combined, op.as_str());
            combined.push(' ');
            push_all(&mut combined, &right_str);
            wrap_parens(combined, needs_parens(prec, parent_prec, parent_assoc, is_right))
        },
        _ => Vec::new(),
    }
}

fn format_ternary(expr: &Expr, parent_prec: u8, parent_assoc: Assoc, is_right: bool) -> (r: Vec<char>)
    requires
        expr is Ternary,
    ensures
        r@ == format_ctx(expr@, parent_prec as nat, parent_assoc, is_right),
    decreases expr, 1nat,
{
    match expr {
        Expr::Ternary { cond, then_expr, else_expr } => {
            let cond_str = format_expr_with_ctx(cond, 1, Assoc::Right, false);
            let then_str = format_expr_with_ctx(then_expr, 1, Assoc::Right, false);
            let else_str = format_expr_with_ctx(else_expr, 1, Assoc::Right, true);
            let mut combined = cond_str;
            push_str(&mut combined, " ? ");
            push_all(&mut combined, &then_str);
            push_str(&mut combined, " : ");
            push_all(&mut combined, &else_str);
            wrap_parens(combined, needs_parens(1, parent_prec, parent_assoc, is_right))
        },
        _ => Vec::new(),
    }
}

fn format_call(expr: &Expr, parent_prec: u8, parent_assoc: Assoc, is_right: bool) -> (r: Vec<char>)
    requires
        expr is Call,
    ensures
        r@ == format_ctx(expr@, parent_prec as nat, parent_assoc, is_right),
    decreases expr, 1nat,
{
    match expr {
        Expr::Call { callee, args } => {
            let callee_prec = prec_for_expr(callee);
            let callee_str = format_expr_with_ctx(callee, 0, Assoc::Left, false);
            let callee_str = wrap_parens(callee_str, needs_parens(callee_prec, 11, Assoc::Left, false));
            let parts = format_arg_list(args);
            let sep = str_chars(", ");
            let args_str = join_chars(&parts, &sep);
            let mut combined = callee_str;
            combined.push('(');
            push_all(&mut combined, &args_str);
            combined.push(')');
            wrap_parens(combined, needs_parens(11, parent_prec, parent_assoc, is_right))
        },
        _ => Vec::new(),
    }
}

fn format_index(expr: &Expr, parent_prec: u8, parent_assoc: Assoc, is_right: bool) -> (r: Vec<char>)
    requires
        expr is Index,
    ensures
        r@ == format_ctx(expr@, parent_prec as nat, parent_assoc, is_right),
    decreases expr, 1nat,
{
    match expr {
        Expr::Index { base, index } => {
            let base_prec = prec_for_expr(base);
            let base_str = format_expr_with_ctx(base, 0, Assoc::Left, false);
            let base_str = wrap_parens(base_str, needs_parens(base_prec, 11, Assoc::Left, false));
            let index_str = format_expr_with_ctx(index, 0, Assoc::Left, false);
            let mut combined = base_str;
            combined.push('[');
            push_all(&mut combined, &index_str);
            combined.push(']');
            wrap_parens(combined, needs_parens(11, parent_prec, parent_assoc, is_right))
        },
        _ => Vec::new(),
    }
}

fn format_member(expr: &Expr, parent_prec: u8, parent_assoc: Assoc, is_right: bool) -> (r: Vec<char>)
    requires
        expr is Member,
    ensures
        r@ == format_ctx(expr@, parent_prec as nat, parent_assoc, is_right),
    decreases expr, 1nat,
{
    match expr {
        Expr::Member { base, op, field } => {
            let base_prec = prec_for_expr(base);
            let base_str = format_expr_with_ctx(base, 0, Assoc::Left, false);
            let base_str = wrap_parens(base_str, needs_parens(base_prec, 11, Assoc::Left, false));
            let mut combined = base_str;
            match op {
                MemberOp::Dot => combined.push('.'),
                MemberOp::Arrow => {
                    combined.push('-');
                    combined.push('>');
                },
            }
            let f = str_chars(field.as_str());
            push_all(&mut combined, &f);
            wrap_parens(combined, needs_parens(11, parent_prec, parent_assoc, is_right))
        },
        _ => Vec::new(),
    }
}

fn format_quant(expr: &Expr, parent_prec: u8, parent_assoc: Assoc, is_right: bool) -> (r: Vec<char>)
    requires
        expr is Quant,
    ensures
        r@ == format_ctx(expr@, parent_prec as nat, parent_assoc, is_right),
    decreases expr, 1nat,
{
    match expr {
        Expr::Quant { kind, vars, body } => {
            let names = strings_chars(vars);
            let sep = str_chars(", ");
            let vars_str = join_chars(&names, &sep);
            let body_str = format_expr_with_ctx(body, 0, Assoc::Right, true);
            let mut combined = str_chars(kind.as_str());
            combined.push(' ');
            push_all(&mut combined, &vars_str);
            push_str(&mut combined, "; ");
            push_all(&mut combined, &body_str);
            wrap_parens(combined, needs_parens(0, parent_prec, parent_assoc, is_right))
        },
        _ => Vec::new(),
    }
}

/// The text of an expression: simplified, then printed with only the parentheses it needs.
pub fn format_expr(expr: &Expr) -> (s: String)
    ensures
        s@ == format_spec(expr@),
{
    let simplified = simplify_expr(expr);
    let v = format_expr_with_ctx(&simplified, 0, Assoc::Left, false);
    chars_string(&v)
}

} // verus!