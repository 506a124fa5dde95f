use vstd::prelude::*;
use crate::annotate::{annotation_text, block_end, block_opens_at, block_piece, file_text, line_end, line_opens_at, line_piece, scan, unreadable, FormatStyle};
use crate::ast::{Assoc, BinaryOp, SpecExpr, UnaryOp};
use crate::format::{format_ctx, prec_of, wrap_if};
use crate::annotate::{find_from, hang_of, single_text};
use crate::format::{format_spec, inverted, simplify, simplify_all};
use crate::parser::parse_annotation_text;
use crate::annotate::{apply_rules, greedy, normalize_spaces, sat_sub, space_rules, wrap_hang};
use crate::text::{contains, is_ws, join, occurs_at, pending, replace_all, replace_fix, trim, words, words_from};
use crate::text::{lemma_replace_all_len, lemma_replace_fix_clears};

verus! {

/// Annotation content that does not parse is kept, only trimmed, in either layout.
pub proof fn law_unparsable_content_is_kept(content: Seq<char>, style: FormatStyle)
    requires
        trim(content).len() > 0,
        parse_annotation_text(trim(content)) is Err,
    ensures
        annotation_text(content, style) == trim(content),
{
}

proof fn lemma_scan_plain(s: Seq<char>, i: nat)
    requires
        i <= s.len(),
        !contains(s, "/*@"@),
        !contains(s, "//@"@),
    ensures
        scan(s, i) == s.skip(i as int),
    decreases s.len() - i,
{
    reveal_strlit("/*@");
    reveal_strlit("//@");
    if i < s.len() {
        if block_opens_at(s, i) {
            assert(s.subrange(i as int, i + 3int) =~= "/*@"@);
            assert(occurs_at(s, "/*@"@, i as int));
        }
        if line_opens_at(s, i) {
            assert(s.subrange(i as int, i + 3int) =~= "//@"@);
            assert(occurs_at(s, "//@"@, i as int));
        }
        lemma_scan_plain(s, i + 1);
        assert(s.skip(i as int) =~= seq![s[i as int]] + s.skip(i + 1int));
    } else {
        assert(s.skip(i as int) =~= Seq::<char>::empty());
    }
}

/// C text without any `/*@` or `//@` comes out of file formatting exactly as it went in.
pub proof fn law_plain_text_is_unchanged(s: Seq<char>)
    requires
        !contains(s, "/*@"@),
        !contains(s, "//@"@),
    ensures
        file_text(s) == s,
{
    lemma_scan_plain(s, 0);
    assert(s.skip(0) =~= s);
}

/// A tree in which no negation stands directly over a negation or over a comparison.
pub open spec fn is_simplified(e: SpecExpr) -> bool
    decreases e,
{
    match e {
        SpecExpr::Ident(_) => true,
        SpecExpr::Number(_) => true,
        SpecExpr::Unary { op, expr } => is_simplified(*expr) && (op == UnaryOp::Not ==> match *expr {
            SpecExpr::Unary { op: inner, .. } => inner != UnaryOp::Not,
            SpecExpr::Binary { op: b, .. } => inverted(b) is None,
            _ => true,
        }),
        SpecExpr::Binary { left, right, .. } => is_simplified(*left) && is_simplified(*right),
        SpecExpr::Ternary { cond, then_expr, else_expr } => is_simplified(*cond) && is_simplified(
            *then_expr,
        ) && is_simplified(*else_expr),
        SpecExpr::Call { callee, args } => is_simplified(*callee) && all_simplified(args),
        SpecExpr::Index { base, index } => is_simplified(*base) && is_simplified(*index),
        SpecExpr::Member { base, .. } => is_simplified(*base),
        SpecExpr::Quant { body, .. } => is_simplified(*body),
    }
}

/// Every element is simplified.
pub open spec fn all_simplified(s: Seq<SpecExpr>) -> bool
    decreases s,
{
    if s.len() == 0 {
        true
    } else {
        all_simplified(s.drop_last()) && is_simplified(s.last())
    }
}

proof fn lemma_simplify_gives_simplified(e: SpecExpr)
    ensures
        is_simplified(simplify(e)),
    decreases e,
{
    match e {
        SpecExpr::Unary { op, expr } => {
            lemma_simplify_gives_simplified(*expr);
        },
        SpecExpr::Binary { left, right, .. } => {
            lemma_simplify_gives_simplified(*left);
            lemma_simplify_gives_simplified(*right);
        },
        SpecExpr::Ternary { cond, then_expr, else_expr } => {
            lemma_simplify_gives_simplified(*cond);
            lemma_simplify_gives_simplified(*then_expr);
            lemma_simplify_gives_simplified(*else_expr);
        },
        SpecExpr::Call { callee, args } => {
            lemma_simplify_gives_simplified(*callee);
            lemma_simplify_all_gives_simplified(args);
        },
        SpecExpr::Index { base, index } => {
            lemma_simplify_gives_simplified(*base);
            lemma_simplify_gives_simplified(*index);
        },
        SpecExpr::Member { base, .. } => {
            lemma_simplify_gives_simplified(*base);
        },
        SpecExpr::Quant { body, .. } => {
            lemma_simplify_gives_simplified(*body);
        },
        _ => {},
    }
}

proof fn lemma_simplify_all_gives_simplified(s: Seq<SpecExpr>)
    ensures
        all_simplified(simplify_all(s)),
    decreases s,
{
    if s.len() > 0 {
        lemma_simplify_all_gives_simplified(s.drop_last());
        lemma_simplify_gives_simplified(s.last());
        let r = simplify_all(s);
        assert(r.drop_last() =~= simplify_all(s.drop_last()));
    }
}

proof fn lemma_simplified_is_fixed(e: SpecExpr)
    requires
        is_simplified(e),
    ensures
        simplify(e) == e,
    decreases e,
{
    match e {
        SpecExpr::Unary { op, expr } => {
            lemma_simplified_is_fixed(*expr);
        },
        SpecExpr::Binary { left, right, .. } => {
            lemma_simplified_is_fixed(*left);
            lemma_simplified_is_fixed(*right);
        },
        SpecExpr::Ternary { cond, then_expr, else_expr } => {
            lemma_simplified_is_fixed(*cond);
            lemma_simplified_is_fixed(*then_expr);
            lemma_simplified_is_fixed(*else_expr);
        },
        SpecExpr::Call { callee, args } => {
            lemma_simplified_is_fixed(*callee);
            lemma_all_simplified_is_fixed(args);
        },
        SpecExpr::Index { base, index } => {
            lemma_simplified_is_fixed(*base);
            lemma_simplified_is_fixed(*index);
        },
        SpecExpr::Member { base, .. } => {
            lemma_simplified_is_fixed(*base);
        },
        SpecExpr::Quant { body, .. } => {
            lemma_simplified_is_fixed(*body);
        },
        _ => {},
    }
}

proof fn lemma_all_simplified_is_fixed(s: Seq<SpecExpr>)
    requires
        all_simplified(s),
    ensures
        simplify_all(s) == s,
    decreases s,
{
    if s.len() > 0 {
        lemma_all_simplified_is_fixed(s.drop_last());
        lemma_simplified_is_fixed(s.last());
        assert(simplify_all(s) =~= s);
    }
}

/// Simplification leaves no negation over a negation or a comparison, and simplifying again
/// changes nothing.
pub proof fn law_simplify_is_idempotent(e: SpecExpr)
    ensures
        is_simplified(simplify(e)),
        simplify(simplify(e)) == simplify(e),
        format_spec(simplify(e)) == format_spec(e),
{
    lemma_simplify_gives_simplified(e);
    lemma_simplified_is_fixed(simplify(e));
}


/// Joining a list that starts with `a`.
pub proof fn lemma_join_cons(a: Seq<char>, r: Seq<Seq<char>>, sep: Seq<char>)
    ensures
        join(seq![a] + r, sep) == if r.len() == 0 {
            a
        } else {
            a + sep + join(r, sep)
        },
    decreases r.len(),
{
    let all = seq![a] + r;
    if r.len() == 0 {
        assert(all =~= seq![a]);
    } else if r.len() == 1 {
        assert(all.drop_last() =~= seq![a]);
        assert(all.last() == r[0]);
        assert(join(seq![a], sep) == a);
        assert(join(r, sep) == r[0]);
        assert(join(all, sep) == join(all.drop_last(), sep) + sep + all.last());
    } else {
        lemma_join_cons(a, r.drop_last(), sep);
        assert(all.drop_last() =~= seq![a] + r.drop_last());
        assert(all.last() == r.last());
        assert(join(all, sep) == join(all.drop_last(), sep) + sep + all.last());
        assert(join(r, sep) == join(r.drop_last(), sep) + sep + r.last());
        assert(join(all, sep) =~= a + sep + join(r, sep));
    }
}

proof fn lemma_greedy_nonempty(ws: Seq<Seq<char>>, cur: Seq<char>, limit: nat, later: nat)
    requires
        cur.len() > 0,
    ensures
        greedy(ws, cur, limit, later).len() > 0,
    decreases ws.len(),
{
    if ws.len() > 0 {
        if cur.len() + 1 + ws[0].len() > limit {
        } else {
            lemma_greedy_nonempty(ws.drop_first(), cur + seq![' '] + ws[0], limit, later);
        }
    }
}

proof fn lemma_greedy_join(ws: Seq<Seq<char>>, cur: Seq<char>, limit: nat, later: nat)
    requires
        forall|i: int| 0 <= i < ws.len() ==> (#[trigger] ws[i]).len() > 0,
    ensures
        join(greedy(ws, cur, limit, later), " "@) == join(pending(cur) + ws, " "@),
    decreases ws.len(),
{
    if ws.len() == 0 {
        assert(pending(cur) + ws =~= pending(cur));
    } else {
        let w = ws[0];
        let rest = ws.drop_first();
        assert(ws =~= seq![w] + rest);
        if cur.len() == 0 {
            lemma_greedy_join(rest, w, limit, later);
            assert(pending(w) =~= seq![w]);
            assert(pending(cur) + ws =~= seq![w] + rest);
        } else if cur.len() + 1 + w.len() > limit {
            lemma_greedy_join(rest, w, later, later);
            lemma_greedy_nonempty(rest, w, later, later);
            lemma_join_cons(cur, greedy(rest, w, later, later), " "@);
            assert(pending(w) =~= seq![w]);
            lemma_join_cons(cur, ws, " "@);
            assert(pending(cur) =~= seq![cur]);
        } else {
            let c2 = cur + seq![' '] + w;
            lemma_greedy_join(rest, c2, limit, later);
            assert(pending(c2) =~= seq![c2]);
            lemma_join_cons(c2, rest, " "@);
            lemma_join_cons(cur, ws, " "@);
            lemma_join_cons(w, rest, " "@);
            assert(pending(cur) =~= seq![cur]);
            reveal_strlit(" ");
            assert(pending(cur) + ws =~= seq![cur] + ws);
        }
    }
}

proof fn lemma_words_from_nonempty(s: Seq<char>, cur: Seq<char>)
    ensures
        forall|i: int| 0 <= i < words_from(s, cur).len() ==> (#[trigger] words_from(s, cur)[i]).len() > 0,
    decreases s.len(),
{
    if s.len() == 0 {
        assert(words_from(s, cur) == pending(cur));
    } else if is_ws(s[0]) {
        lemma_words_from_nonempty(s.drop_first(), Seq::empty());
        let r = words_from(s, cur);
        let t = words_from(s.drop_first(), Seq::empty());
        assert forall|i: int| 0 <= i < r.len() implies (#[trigger] r[i]).len() > 0 by {
            if i >= pending(cur).len() {
                assert(r[i] == t[i - pending(cur).len()]);
            }
        }
    } else {
        lemma_words_from_nonempty(s.drop_first(), cur.push(s[0]));
        assert(words_from(s, cur) == words_from(s.drop_first(), cur.push(s[0])));
    }
}

/// Wrapping a clause only moves line breaks: joined with single spaces, the lines give the
/// clause's words joined with single spaces.
pub proof fn law_wrap_keeps_words(line: Seq<char>, max_len: nat, hang: nat)
    requires
        trim(line).len() > max_len,
    ensures
        join(wrap_hang(line, max_len, hang), " "@) == join(words(trim(line)), " "@),
{
    let ws = words(trim(line));
    lemma_words_from_nonempty(trim(line), Seq::empty());
    lemma_greedy_join(ws, Seq::empty(), max_len, sat_sub(max_len, hang));
    assert(pending(Seq::<char>::empty()) + ws =~= ws);
}

proof fn lemma_greedy_fits(
    ws: Seq<Seq<char>>,
    all: Seq<Seq<char>>,
    cur: Seq<char>,
    limit: nat,
    later: nat,
    m: nat,
)
    requires
        limit <= m,
        later <= m,
        forall|i: int| 0 <= i < ws.len() ==> all.contains(#[trigger] ws[i]),
        cur.len() <= m || all.contains(cur),
    ensures
        forall|i: int|
            0 <= i < greedy(ws, cur, limit, later).len() ==> (#[trigger] greedy(ws, cur, limit, later)[i]).len()
                <= m || all.contains(greedy(ws, cur, limit, later)[i]),
    decreases ws.len(),
{
    if ws.len() == 0 {
        assert(greedy(ws, cur, limit, later) == pending(cur));
    } else {
        let w = ws[0];
        let rest = ws.drop_first();
        assert(all.contains(ws[0]));
        assert forall|i: int| 0 <= i < rest.len() implies all.contains(#[trigger] rest[i]) by {
            assert(rest[i] == ws[i + 1]);
        }
        if cur.len() == 0 {
            lemma_greedy_fits(rest, all, w, limit, later, m);
            assert(greedy(ws, cur, limit, later) == greedy(rest, w, limit, later));
        } else if cur.len() + 1 + w.len() > limit {
            lemma_greedy_fits(rest, all, w, later, later, m);
            let g = greedy(rest, w, later, later);
            let r = seq![cur] + g;
            assert(greedy(ws, cur, limit, later) == r);
            assert forall|i: int| 0 <= i < r.len() implies (#[trigger] r[i]).len() <= m || all.contains(r[i]) by {
                if i > 0 {
                    assert(r[i] == g[i - 1]);
                }
            }
        } else {
            lemma_greedy_fits(rest, all, cur + seq![' '] + w, limit, later, m);
            assert(greedy(ws, cur, limit, later) == greedy(rest, cur + seq![' '] + w, limit, later));
        }
    }
}

/// Every wrapped line fits in `max_len` characters, unless it is a single word that is longer.
pub proof fn law_wrapped_lines_fit(line: Seq<char>, max_len: nat, hang: nat)
    ensures
        forall|i: int|
            0 <= i < wrap_hang(line, max_len, hang).len() ==> (#[trigger] wrap_hang(line, max_len, hang)[i]).len()
                <= max_len || words(trim(line)).contains(wrap_hang(line, max_len, hang)[i]),
{
    let t = trim(line);
    if t.len() > max_len {
        let ws = words(t);
        assert forall|i: int| 0 <= i < ws.len() implies ws.contains(#[trigger] ws[i]) by {}
        lemma_greedy_fits(ws, ws, Seq::empty(), max_len, sat_sub(max_len, hang), max_len);
    }
}

proof fn lemma_block_end_shift(a: Seq<char>, q: Seq<char>, j: nat)
    ensures
        block_end(a + q, a.len() + j) == a.len() + block_end(q, j),
    decreases q.len() - j,
{
    let s = a + q;
    if j + 1 < q.len() {
        assert(s[(a.len() + j) as int] == q[j as int]);
        assert(s[(a.len() + j + 1) as int] == q[(j + 1) as int]);
        if !(q[j as int] == '*' && q[j + 1int] == '/') {
            lemma_block_end_shift(a, q, j + 1);
        }
    }
}

proof fn lemma_line_end_shift(a: Seq<char>, q: Seq<char>, j: nat)
    ensures
        line_end(a + q, a.len() + j) == a.len() + line_end(q, j),
    decreases q.len() - j,
{
    let s = a + q;
    if j < q.len() {
        assert(s[(a.len() + j) as int] == q[j as int]);
        if q[j as int] != '\n' {
            lemma_line_end_shift(a, q, j + 1);
        }
    }
}

/// Formatting the text after a prefix does not depend on the prefix.
proof fn lemma_scan_shift(a: Seq<char>, q: Seq<char>, j: nat)
    ensures
        scan(a + q, a.len() + j) == scan(q, j),
    decreases q.len() - j,
{
    let s = a + q;
    let i = a.len() + j;
    if j < q.len() {
        assert forall|k: int| 0 <= k < q.len() - j implies #[trigger] s[(i + k) as int] == q[(j + k) as int] by {}
        assert(s[i as int] == q[j as int]);
        if j + 2 < q.len() {
            assert(s[(i + 1) as int] == q[(j + 1) as int]);
            assert(s[(i + 2) as int] == q[(j + 2) as int]);
        }
        if block_opens_at(q, j) {
            crate::annotate::lemma_block_end_bounds(q, j + 3);
            lemma_block_end_shift(a, q, j + 3);
            let e = block_end(q, j + 3);
            assert(s.subrange(i + 3int, (a.len() + e) as int) =~= q.subrange(j + 3int, e as int));
            if e + 1 < q.len() {
                lemma_scan_shift(a, q, e + 2);
            } else {
                assert(s.subrange(i as int, s.len() as int) =~= q.subrange(j as int, q.len() as int));
            }
        } else if line_opens_at(q, j) {
            crate::annotate::lemma_line_end_bounds(q, j + 3);
            lemma_line_end_shift(a, q, j + 3);
            let e = line_end(q, j + 3);
            assert(s.subrange(i + 3int, (a.len() + e) as int) =~= q.subrange(j + 3int, e as int));
            if e < q.len() {
                lemma_scan_shift(a, q, e + 1);
            }
        } else {
            lemma_scan_shift(a, q, j + 1);
        }
    }
}

/// Text in which no annotation opens is copied as it is, up to index `k`.
proof fn lemma_scan_prefix(s: Seq<char>, i: nat, k: nat)
    requires
        i <= k <= s.len(),
        forall|m: nat| i <= m < k ==> !block_opens_at(s, m) && !line_opens_at(s, m),
    ensures
        scan(s, i) == s.subrange(i as int, k as int) + scan(s, k),
    decreases k - i,
{
    if i < k {
        assert(!block_opens_at(s, i) && !line_opens_at(s, i));
        lemma_scan_prefix(s, i + 1, k);
        assert(s.subrange(i as int, k as int) =~= seq![s[i as int]] + s.subrange(i + 1int, k as int));
    } else {
        assert(s.subrange(i as int, k as int) =~= Seq::<char>::empty());
    }
}

/// No annotation opens inside a text without `/*@` and `//@`, even where it is followed by
/// another text whose third character is not `@`.
proof fn lemma_no_opens(p: Seq<char>, r: Seq<char>)
    requires
        !contains(p, "/*@"@),
        !contains(p, "//@"@),
        r.len() >= 3,
        r[0 as int] != '@',
        r[1 as int] != '@',
    ensures
        forall|m: nat| m < p.len() ==> !block_opens_at(p + r, m) && !line_opens_at(p + r, m),
{
    reveal_strlit("/*@");
    reveal_strlit("//@");
    let s = p + r;
    assert forall|m: nat| m < p.len() implies !block_opens_at(s, m) && !line_opens_at(s, m) by {
        if m + 2 < p.len() {
            if block_opens_at(s, m) {
                assert(p.subrange(m as int, m + 3int) =~= "/*@"@);
                assert(occurs_at(p, "/*@"@, m as int));
            }
            if line_opens_at(s, m) {
                assert(p.subrange(m as int, m + 3int) =~= "//@"@);
                assert(occurs_at(p, "//@"@, m as int));
            }
        } else if m + 2 == p.len() {
            assert(s[(m + 2) as int] == r[0 as int]);
        } else {
            assert(s[(m + 2) as int] == r[1 as int]);
        }
    }
}

/// A file splits at its first block annotation: the text before it is kept, the annotation's
/// content is formatted (or kept, when it does not read as clauses), and the rest of the file
/// is formatted on its own.
pub proof fn law_file_splits_at_block_annotation(p: Seq<char>, c: Seq<char>, q: Seq<char>)
    requires
        !contains(p, "/*@"@),
        !contains(p, "//@"@),
        !contains(c, "*/"@),
    ensures
        file_text(p + "/*@"@ + c + "*/"@ + q) == p + "/*@"@ + block_piece(c) + "*/"@ + file_text(q),
{
    reveal_strlit("/*@");
    reveal_strlit("*/");
    let r = "/*@"@ + c + "*/"@ + q;
    let s = p + r;
    assert(s =~= p + "/*@"@ + c + "*/"@ + q);
    assert(r[0 as int] == '/' && r[1 as int] == '*');
    lemma_no_opens(p, r);
    lemma_scan_prefix(s, 0, p.len());
    assert(s.subrange(0, p.len() as int) =~= p);
    let n = p.len();
    assert(s[n as int] == '/' && s[(n + 1) as int] == '*' && s[(n + 2) as int] == '@');
    assert(block_opens_at(s, n));
    let e = n + 3 + c.len();
    assert(s[e as int] == '*' && s[(e + 1) as int] == '/');
    assert forall|m: nat| n + 3 <= m < e implies !(#[trigger] s[m as int] == '*' && s[m + 1int] == '/') by {
        if m + 1 < e {
            if s[m as int] == '*' && s[m + 1int] == '/' {
                assert(s[m as int] == c[(m - n - 3) as int]);
                assert(s[m + 1int] == c[(m - n - 2) as int]);
                assert(c.subrange(m - n - 3, m - n - 1) =~= "*/"@);
                assert(occurs_at(c, "*/"@, m - n - 3));
            }
        } else {
            assert(s[m + 1int] == '*');
        }
    }
    lemma_block_end_upto(s, n + 3, e);
    assert(s.subrange(n + 3int, e as int) =~= c);
    let a = p + "/*@"@ + c + "*/"@;
    assert(s =~= a + q);
    lemma_scan_shift(a, q, 0);
    assert(a.len() + 0 == e + 2);
}

proof fn lemma_block_end_upto(s: Seq<char>, j: nat, e: nat)
    requires
        j <= e,
        e + 1 < s.len(),
        s[e as int] == '*' && s[e + 1int] == '/',
        forall|m: nat| j <= m < e ==> !(#[trigger] s[m as int] == '*' && s[m + 1int] == '/'),
    ensures
        block_end(s, j) == e,
    decreases e - j,
{
    if j < e {
        lemma_block_end_upto(s, j + 1, e);
    }
}

proof fn lemma_line_end_upto(s: Seq<char>, j: nat, e: nat)
    requires
        j <= e < s.len(),
        s[e as int] == '\n',
        forall|m: nat| j <= m < e ==> #[trigger] s[m as int] != '\n',
    ensures
        line_end(s, j) == e,
    decreases e - j,
{
    if j < e {
        lemma_line_end_upto(s, j + 1, e);
    }
}

/// A file splits at its first line annotation: the text before it is kept, the annotation's
/// line is formatted (or kept, when it does not read as clauses), and the rest of the file is
/// formatted on its own.
pub proof fn law_file_splits_at_line_annotation(p: Seq<char>, c: Seq<char>, q: Seq<char>)
    requires
        !contains(p, "/*@"@),
        !contains(p, "//@"@),
        !c.contains('\n'),
    ensures
        file_text(p + "//@"@ + c + "\n"@ + q) == p + "//@"@ + line_piece(c) + "\n"@ + file_text(q),
{
    reveal_strlit("//@");
    reveal_strlit("\n");
    let r = "//@"@ + c + "\n"@ + q;
    let s = p + r;
    assert(s =~= p + "//@"@ + c + "\n"@ + q);
    assert(r[0 as int] == '/' && r[1 as int] == '/');
    lemma_no_opens(p, r);
    lemma_scan_prefix(s, 0, p.len());
    assert(s.subrange(0, p.len() as int) =~= p);
    let n = p.len();
    assert(s[n as int] == '/' && s[(n + 1) as int] == '/' && s[(n + 2) as int] == '@');
    assert(line_opens_at(s, n));
    assert(!block_opens_at(s, n));
    let e = n + 3 + c.len();
    assert(s[e as int] == '\n');
    assert forall|m: nat| n + 3 <= m < e implies #[trigger] s[m as int] != '\n' by {
        assert(s[m as int] == c[(m - n - 3) as int]);
    }
    lemma_line_end_upto(s, n + 3, e);
    assert(s.subrange(n + 3int, e as int) =~= c);
    let a = p + "//@"@ + c + "\n"@;
    assert(s =~= a + q);
    lemma_scan_shift(a, q, 0);
    assert(a.len() + 0 == e + 1);
}

/// Block annotation content that does not read as clauses is kept exactly as written.
pub proof fn law_unreadable_block_is_kept(c: Seq<char>)
    requires
        unreadable(c),
    ensures
        block_piece(c) == c,
        line_piece(c) == c,
{
}

/// The text with every space left out.
pub open spec fn without_spaces(s: Seq<char>) -> Seq<char>
    decreases s.len(),
{
    if s.len() == 0 {
        Seq::empty()
    } else if s[0] == ' ' {
        without_spaces(s.drop_first())
    } else {
        seq![s[0]] + without_spaces(s.drop_first())
    }
}

proof fn lemma_without_spaces_add(a: Seq<char>, b: Seq<char>)
    ensures
        without_spaces(a + b) == without_spaces(a) + without_spaces(b),
    decreases a.len(),
{
    if a.len() == 0 {
        assert(a + b =~= b);
    } else {
        assert((a + b).drop_first() =~= a.drop_first() + b);
        assert((a + b)[0] == a[0]);
        lemma_without_spaces_add(a.drop_first(), b);
        if a[0] != ' ' {
            assert(seq![a[0]] + (without_spaces(a.drop_first()) + without_spaces(b)) =~= seq![a[0]]
                + without_spaces(a.drop_first()) + without_spaces(b));
        }
    }
}

proof fn lemma_replace_all_spaces(s: Seq<char>, from: Seq<char>, to: Seq<char>)
    requires
        without_spaces(from) == without_spaces(to),
    ensures
        without_spaces(replace_all(s, from, to)) == without_spaces(s),
    decreases s.len(),
{
    if from.len() == 0 || s.len() < from.len() {
    } else if s.take(from.len() as int) == from {
        let rest = s.skip(from.len() as int);
        lemma_replace_all_spaces(rest, from, to);
        lemma_without_spaces_add(to, replace_all(rest, from, to));
        lemma_without_spaces_add(from, rest);
        assert(s =~= from + rest);
    } else {
        let rest = s.drop_first();
        lemma_replace_all_spaces(rest, from, to);
        lemma_without_spaces_add(seq![s[0]], replace_all(rest, from, to));
        lemma_without_spaces_add(seq![s[0]], rest);
        assert(s =~= seq![s[0]] + rest);
        assert(seq![s[0]].drop_first() =~= Seq::<char>::empty());
    }
}

proof fn lemma_replace_fix_spaces(s: Seq<char>, from: Seq<char>, to: Seq<char>)
    requires
        without_spaces(from) == without_spaces(to),
    ensures
        without_spaces(replace_fix(s, from, to)) == without_spaces(s),
    decreases s.len(),
{
    if from.len() > 0 && to.len() < from.len() && contains(s, from) {
        lemma_replace_all_len(s, from, to);
        lemma_replace_all_spaces(s, from, to);
        lemma_replace_fix_spaces(replace_all(s, from, to), from, to);
    }
}

proof fn lemma_apply_rules_spaces(s: Seq<char>, rules: Seq<(Seq<char>, Seq<char>)>)
    requires
        forall|i: int| 0 <= i < rules.len() ==> without_spaces(#[trigger] rules[i].0) == without_spaces(
            rules[i].1,
        ),
    ensures
        without_spaces(apply_rules(s, rules)) == without_spaces(s),
    decreases rules.len(),
{
    if rules.len() > 0 {
        assert(without_spaces(rules[0].0) == without_spaces(rules[0].1));
        lemma_replace_fix_spaces(s, rules[0].0, rules[0].1);
        let rest = rules.drop_first();
        assert forall|i: int| 0 <= i < rest.len() implies without_spaces(#[trigger] rest[i].0)
            == without_spaces(rest[i].1) by {
            assert(rest[i] == rules[i + 1]);
        }
        lemma_apply_rules_spaces(replace_fix(s, rules[0].0, rules[0].1), rest);
    }
}

/// Space normalisation only deletes spaces: every other character stays, in order.
pub proof fn law_normalize_only_deletes_spaces(s: Seq<char>)
    ensures
        without_spaces(normalize_spaces(s)) == without_spaces(s),
{
    reveal_strlit(" -> ");
    reveal_strlit("-> ");
    reveal_strlit(" ->");
    reveal_strlit("->");
    reveal_strlit(" . ");
    reveal_strlit(". ");
    reveal_strlit(" .");
    reveal_strlit(".");
    reveal_strlit(" [");
    reveal_strlit("[ ");
    reveal_strlit("[");
    reveal_strlit(" ]");
    reveal_strlit("]");
    reveal_strlit("> ");
    reveal_strlit(" ");
    reveal_with_fuel(without_spaces, 5);
    let rules = space_rules();
    assert forall|i: int| 0 <= i < rules.len() implies without_spaces(#[trigger] rules[i].0)
        == without_spaces(rules[i].1) by {
        assert(" -> "@.drop_first() =~= "-> "@);
        assert("-> "@.drop_first() =~= "> "@);
        assert("> "@.drop_first() =~= " "@);
        assert(" "@.drop_first() =~= Seq::<char>::empty());
        assert(" ->"@.drop_first() =~= "->"@);
        assert("->"@.drop_first() =~= seq!['>']);
        assert(seq!['>'].drop_first() =~= Seq::<char>::empty());
        assert(" . "@.drop_first() =~= ". "@);
        assert(". "@.drop_first() =~= " "@);
        assert(" ."@.drop_first() =~= "."@);
        assert("."@.drop_first() =~= Seq::<char>::empty());
        assert(" ["@.drop_first() =~= "["@);
        assert("[ "@.drop_first() =~= " "@);
        assert("["@.drop_first() =~= Seq::<char>::empty());
        assert(" ]"@.drop_first() =~= "]"@);
        assert("]"@.drop_first() =~= Seq::<char>::empty());
    }
    lemma_apply_rules_spaces(s, rules);
}

proof fn lemma_occurs_skip(x: Seq<char>, k: int, p: Seq<char>, i: int)
    requires
        0 <= k <= x.len(),
        occurs_at(x.skip(k), p, i),
    ensures
        occurs_at(x, p, i + k),
{
    assert(x.subrange(i + k, i + k + p.len()) =~= x.skip(k).subrange(i, i + p.len()));
}

/// Where the text replaced so far does not start a `t` at its first `m` characters, those
/// characters are the text's own.
proof fn lemma_ra_prefix(y: Seq<char>, f: Seq<char>, t: Seq<char>, m: nat)
    requires
        f.len() > 0,
        t.len() > 0,
        m <= replace_all(y, f, t).len(),
        forall|i: int| 0 <= i < m ==> #[trigger] replace_all(y, f, t)[i] != t[0],
    ensures
        m <= y.len(),
        forall|i: int| 0 <= i < m ==> #[trigger] y[i] == replace_all(y, f, t)[i],
    decreases y.len(),
{
    let r = replace_all(y, f, t);
    if m > 0 && y.len() >= f.len() {
        if y.take(f.len() as int) == f {
            assert(r[0] == t[0]);
        } else {
            let y2 = y.drop_first();
            let r2 = replace_all(y2, f, t);
            assert(r == seq![y[0]] + r2);
            assert forall|i: int| 0 <= i < m - 1 implies #[trigger] r2[i] != t[0] by {
                assert(r2[i] == r[i + 1]);
            }
            lemma_ra_prefix(y2, f, t, (m - 1) as nat);
            assert forall|i: int| 0 <= i < m implies #[trigger] y[i] == r[i] by {
                if i > 0 {
                    assert(y[i] == y2[i - 1]);
                    assert(r[i] == r2[i - 1]);
                }
            }
        }
    }
}

/// One replacement pass keeps `p` out of the text, in the three ways the space rules do.
pub open spec fn keeps_out(f: Seq<char>, t: Seq<char>, p: Seq<char>) -> bool {
    &&& f.len() > 0
    &&& t.len() > 0
    &&& p.len() > 0
    &&& t.len() < f.len()
    &&& t[0] != ' '
    &&& {
        ||| (forall|a: int, b: int| 0 <= a < p.len() && 0 <= b < t.len() ==> p[a] != t[b])
        ||| (f == seq![' '] + t && p == t + seq![' '] && (forall|k: int|
            1 <= k < t.len() ==> #[trigger] t[k] != t[0] && t[k] != ' '))
        ||| (t.len() == 1 && f == t + seq![' '] && p == seq![' '] + t)
    }
}

proof fn lemma_ra_keeps_out(x: Seq<char>, f: Seq<char>, t: Seq<char>, p: Seq<char>)
    requires
        keeps_out(f, t, p),
        !contains(x, p),
    ensures
        !contains(replace_all(x, f, t), p),
    decreases x.len(),
{
    let r = replace_all(x, f, t);
    let general = forall|a: int, b: int| 0 <= a < p.len() && 0 <= b < t.len() ==> p[a] != t[b];
    let tail = f == seq![' '] + t && p == t + seq![' '];
    if x.len() < f.len() {
    } else if x.take(f.len() as int) == f {
        let x2 = x.skip(f.len() as int);
        let r2 = replace_all(x2, f, t);
        assert(r == t + r2);
        if contains(x2, p) {
            let i = choose|i: int| occurs_at(x2, p, i);
            lemma_occurs_skip(x, f.len() as int, p, i);
        }
        lemma_ra_keeps_out(x2, f, t, p);
        assert forall|i: int| !occurs_at(r, p, i) by {
            if occurs_at(r, p, i) {
                assert(r.subrange(i, i + p.len())[0] == r[i]);
                if i < t.len() {
                    assert(r[i] == t[i]);
                    if general {
                        assert(p[0] != t[i]);
                    } else if tail {
                        if i == 0 {
                            assert(r.subrange(i, i + p.len())[t.len() as int] == r[t.len() as int]);
                            assert(r[t.len() as int] == r2[0]);
                            assert(r2[0] == ' ');
                            lemma_ra_prefix(x2, f, t, 1);
                            assert(x2[0] == ' ');
                            assert(x.subrange(1, 1 + p.len() as int) =~= p) by {
                                assert forall|k: int| 0 <= k < p.len() implies x.subrange(1, 1 + p.len() as int)[k]
                                    == p[k] by {
                                    if k < t.len() {
                                        assert(x[1 + k] == f[1 + k]);
                                    } else {
                                        assert(x[1 + k] == x2[0]);
                                    }
                                }
                            }
                            assert(occurs_at(x, p, 1));
                        } else {
                            assert(p[0] == t[0]);
                        }
                    } else {
                        assert(p[0] == ' ');
                    }
                } else {
                    assert(r.subrange(i, i + p.len()) =~= r2.subrange(i - t.len(), i - t.len() + p.len()));
                    assert(occurs_at(r2, p, i - t.len()));
                }
            }
        }
    } else {
        let x2 = x.drop_first();
        let r2 = replace_all(x2, f, t);
        assert(r == seq![x[0]] + r2);
        if contains(x2, p) {
            let i = choose|i: int| occurs_at(x2, p, i);
            assert(x2 == x.skip(1));
            lemma_occurs_skip(x, 1, p, i);
        }
        lemma_ra_keeps_out(x2, f, t, p);
        assert forall|i: int| !occurs_at(r, p, i) by {
            if occurs_at(r, p, i) {
                if i >= 1 {
                    assert(r.subrange(i, i + p.len()) =~= r2.subrange(i - 1, i - 1 + p.len()));
                    assert(occurs_at(r2, p, i - 1));
                } else if general || tail {
                    assert forall|k: int| 0 <= k < p.len() - 1 implies #[trigger] r2[k] != t[0] by {
                        assert(r.subrange(0, p.len() as int)[k + 1] == r[k + 1]);
                        assert(r[k + 1] == r2[k]);
                        assert(p[k + 1] == r2[k]);
                    }
                    lemma_ra_prefix(x2, f, t, (p.len() - 1) as nat);
                    assert(x.subrange(0, p.len() as int) =~= p) by {
                        assert forall|k: int| 0 <= k < p.len() implies x.subrange(0, p.len() as int)[k]
                            == p[k] by {
                            assert(r.subrange(0, p.len() as int)[k] == r[k]);
                            if k > 0 {
                                assert(x[k] == x2[k - 1]);
                                assert(r[k] == r2[k - 1]);
                            }
                        }
                    }
                    assert(occurs_at(x, p, 0));
                } else {
                    assert(r.subrange(0, 2)[0] == r[0]);
                    assert(r.subrange(0, 2)[1] == r[1]);
                    assert(r2[0] == t[0]);
                    if x2.len() >= f.len() && x2.take(f.len() as int) == f {
                        assert(x2.take(f.len() as int)[0] == x2[0]);
                    } else {
                        assert(x2.len() > 0);
                        assert(x2.len() < f.len() ==> r2 == x2);
                    }
                    assert(x2[0] == t[0]);
                    assert(x.subrange(0, 2) =~= p);
                    assert(occurs_at(x, p, 0));
                }
            }
        }
    }
}

proof fn lemma_fix_keeps_out(x: Seq<char>, f: Seq<char>, t: Seq<char>, p: Seq<char>)
    requires
        keeps_out(f, t, p),
        !contains(x, p),
    ensures
        !contains(replace_fix(x, f, t), p),
    decreases x.len(),
{
    if contains(x, f) {
        lemma_replace_all_len(x, f, t);
        lemma_ra_keeps_out(x, f, t, p);
        lemma_fix_keeps_out(replace_all(x, f, t), f, t, p);
    }
}

proof fn lemma_apply_step(x: Seq<char>, rules: Seq<(Seq<char>, Seq<char>)>, k: int)
    requires
        0 <= k < rules.len(),
    ensures
        apply_rules(x, rules.skip(k)) == apply_rules(
            replace_fix(x, rules[k].0, rules[k].1),
            rules.skip(k + 1),
        ),
{
    assert(rules.skip(k).drop_first() =~= rules.skip(k + 1));
    assert(rules.skip(k)[0] == rules[k]);
}

proof fn lemma_contains_prefix(x: Seq<char>, a: Seq<char>, b: Seq<char>)
    requires
        !contains(x, a),
    ensures
        !contains(x, a + b),
{
    if contains(x, a + b) {
        let i = choose|i: int| occurs_at(x, a + b, i);
        assert(x.subrange(i, i + a.len()) =~= (a + b).subrange(0, a.len() as int));
        assert((a + b).subrange(0, a.len() as int) =~= a);
        assert(occurs_at(x, a, i));
    }
}

/// Space normalisation leaves none of its patterns behind, so normalising again changes
/// nothing.
pub proof fn law_normalize_clears_patterns(s: Seq<char>)
    ensures
        !contains(normalize_spaces(s), " ->"@),
        !contains(normalize_spaces(s), "-> "@),
        !contains(normalize_spaces(s), " ."@),
        !contains(normalize_spaces(s), ". "@),
        !contains(normalize_spaces(s), " ["@),
        !contains(normalize_spaces(s), "[ "@),
        !contains(normalize_spaces(s), " ]"@),
        normalize_spaces(normalize_spaces(s)) == normalize_spaces(s),
{
    reveal_strlit(" -> ");
    reveal_strlit("-> ");
    reveal_strlit(" ->");
    reveal_strlit("->");
    reveal_strlit(" . ");
    reveal_strlit(". ");
    reveal_strlit(" .");
    reveal_strlit(".");
    reveal_strlit(" [");
    reveal_strlit("[ ");
    reveal_strlit("[");
    reveal_strlit(" ]");
    reveal_strlit("]");
    let rules = space_rules();
    let x1 = replace_fix(s, rules[0].0, rules[0].1);
    let x2 = replace_fix(x1, rules[1].0, rules[1].1);
    let x3 = replace_fix(x2, rules[2].0, rules[2].1);
    let x4 = replace_fix(x3, rules[3].0, rules[3].1);
    let x5 = replace_fix(x4, rules[4].0, rules[4].1);
    let x6 = replace_fix(x5, rules[5].0, rules[5].1);
    let x7 = replace_fix(x6, rules[6].0, rules[6].1);
    let x8 = replace_fix(x7, rules[7].0, rules[7].1);
    let x9 = replace_fix(x8, rules[8].0, rules[8].1);
    assert(rules.skip(0) =~= rules);
    lemma_apply_step(s, rules, 0);
    lemma_apply_step(x1, rules, 1);
    lemma_apply_step(x2, rules, 2);
    lemma_apply_step(x3, rules, 3);
    lemma_apply_step(x4, rules, 4);
    lemma_apply_step(x5, rules, 5);
    lemma_apply_step(x6, rules, 6);
    lemma_apply_step(x7, rules, 7);
    lemma_apply_step(x8, rules, 8);
    assert(rules.skip(9).len() == 0);
    assert(normalize_spaces(s) == x9);
    let arrow = "->"@;
    let dot = "."@;
    let open = "["@;
    let close = "]"@;
    // `-> ` goes at the second rule and stays gone.
    lemma_replace_fix_clears(x1, "-> "@, arrow);
    assert(" ->"@ =~= seq![' '] + arrow);
    assert("-> "@ =~= arrow + seq![' ']);
    assert(keeps_out(" ->"@, arrow, "-> "@));
    lemma_fix_keeps_out(x2, " ->"@, arrow, "-> "@);
    // ` ->` goes at the third rule.
    lemma_replace_fix_clears(x2, " ->"@, arrow);
    assert(keeps_out(" . "@, dot, "-> "@));
    assert(keeps_out(". "@, dot, "-> "@));
    assert(keeps_out(" ."@, dot, "-> "@));
    assert(keeps_out(" ["@, open, "-> "@));
    assert(keeps_out("[ "@, open, "-> "@));
    assert(keeps_out(" ]"@, close, "-> "@));
    assert(keeps_out(" . "@, dot, " ->"@));
    assert(keeps_out(". "@, dot, " ->"@));
    assert(keeps_out(" ."@, dot, " ->"@));
    assert(keeps_out(" ["@, open, " ->"@));
    assert(keeps_out("[ "@, open, " ->"@));
    assert(keeps_out(" ]"@, close, " ->"@));
    lemma_fix_keeps_out(x3, " . "@, dot, "-> "@);
    lemma_fix_keeps_out(x4, ". "@, dot, "-> "@);
    lemma_fix_keeps_out(x5, " ."@, dot, "-> "@);
    lemma_fix_keeps_out(x6, " ["@, open, "-> "@);
    lemma_fix_keeps_out(x7, "[ "@, open, "-> "@);
    lemma_fix_keeps_out(x8, " ]"@, close, "-> "@);
    lemma_fix_keeps_out(x3, " . "@, dot, " ->"@);
    lemma_fix_keeps_out(x4, ". "@, dot, " ->"@);
    lemma_fix_keeps_out(x5, " ."@, dot, " ->"@);
    lemma_fix_keeps_out(x6, " ["@, open, " ->"@);
    lemma_fix_keeps_out(x7, "[ "@, open, " ->"@);
    lemma_fix_keeps_out(x8, " ]"@, close, " ->"@);
    // `. ` goes at the fifth rule, ` .` at the sixth.
    lemma_replace_fix_clears(x4, ". "@, dot);
    assert(" ."@ =~= seq![' '] + dot);
    assert(". "@ =~= dot + seq![' ']);
    assert(keeps_out(" ."@, dot, ". "@));
    lemma_fix_keeps_out(x5, " ."@, dot, ". "@);
    lemma_replace_fix_clears(x5, " ."@, dot);
    assert(keeps_out(" ["@, open, ". "@));
    assert(keeps_out("[ "@, open, ". "@));
    assert(keeps_out(" ]"@, close, ". "@));
    assert(keeps_out(" ["@, open, " ."@));
    assert(keeps_out("[ "@, open, " ."@));
    assert(keeps_out(" ]"@, close, " ."@));
    lemma_fix_keeps_out(x6, " ["@, open, ". "@);
    lemma_fix_keeps_out(x7, "[ "@, open, ". "@);
    lemma_fix_keeps_out(x8, " ]"@, close, ". "@);
    lemma_fix_keeps_out(x6, " ["@, open, " ."@);
    lemma_fix_keeps_out(x7, "[ "@, open, " ."@);
    lemma_fix_keeps_out(x8, " ]"@, close, " ."@);
    // ` [` goes at the seventh rule, `[ ` at the eighth, ` ]` at the ninth.
    lemma_replace_fix_clears(x6, " ["@, open);
    assert("[ "@ =~= open + seq![' ']);
    assert(" ["@ =~= seq![' '] + open);
    assert(keeps_out("[ "@, open, " ["@));
    lemma_fix_keeps_out(x7, "[ "@, open, " ["@);
    lemma_replace_fix_clears(x7, "[ "@, open);
    assert(keeps_out(" ]"@, close, " ["@));
    assert(keeps_out(" ]"@, close, "[ "@));
    lemma_fix_keeps_out(x8, " ]"@, close, " ["@);
    lemma_fix_keeps_out(x8, " ]"@, close, "[ "@);
    lemma_replace_fix_clears(x8, " ]"@, close);
    // The two three-character patterns start with two-character ones.
    reveal_strlit(" ");
    assert(" ->"@ + " "@ =~= " -> "@);
    lemma_contains_prefix(x9, " ->"@, " "@);
    assert(" ."@ + " "@ =~= " . "@);
    lemma_contains_prefix(x9, " ."@, " "@);
    // On a text without any pattern every rule changes nothing.
    lemma_apply_step(x9, rules, 0);
    lemma_apply_step(x9, rules, 1);
    lemma_apply_step(x9, rules, 2);
    lemma_apply_step(x9, rules, 3);
    lemma_apply_step(x9, rules, 4);
    lemma_apply_step(x9, rules, 5);
    lemma_apply_step(x9, rules, 6);
    lemma_apply_step(x9, rules, 7);
    lemma_apply_step(x9, rules, 8);
}

/// Whether comparison `op` holds between the numbers `a` and `b`.
pub open spec fn compares(op: BinaryOp, a: int, b: int) -> bool {
    match op {
        BinaryOp::Eq => a == b,
        BinaryOp::Ne => a != b,
        BinaryOp::Lt => a < b,
        BinaryOp::Le => a <= b,
        BinaryOp::Gt => a > b,
        BinaryOp::Ge => a >= b,
        _ => false,
    }
}

/// The six comparison operators.
pub open spec fn is_comparison(op: BinaryOp) -> bool {
    op == BinaryOp::Eq || op == BinaryOp::Ne || op == BinaryOp::Lt || op == BinaryOp::Le || op
        == BinaryOp::Gt || op == BinaryOp::Ge
}

/// A negated comparison simplifies to a comparison of the same operands that holds exactly
/// where the first one fails, for all numbers.
pub proof fn law_negated_comparison_is_inverted(op: BinaryOp, l: SpecExpr, r: SpecExpr)
    requires
        is_comparison(op),
    ensures
        simplify(
            SpecExpr::Unary {
                op: UnaryOp::Not,
                expr: Box::new(SpecExpr::Binary { op, left: Box::new(l), right: Box::new(r) }),
            },
        ) matches SpecExpr::Binary { op: op2, left, right } && *left == simplify(l) && *right
            == simplify(r) && is_comparison(op2) && forall|a: int, b: int| #[trigger]
            compares(op2, a, b) == !compares(op, a, b),
{
    let b = SpecExpr::Binary { op, left: Box::new(l), right: Box::new(r) };
    let sb = SpecExpr::Binary { op, left: Box::new(simplify(l)), right: Box::new(simplify(r)) };
    assert(simplify(b) == sb);
    assert(inverted(op) is Some);
    let op2 = inverted(op)->0;
    assert forall|x: int, y: int| #[trigger] compares(op2, x, y) == !compares(op, x, y) by {
        match op {
            BinaryOp::Eq => {},
            BinaryOp::Ne => {},
            BinaryOp::Lt => {},
            BinaryOp::Le => {},
            BinaryOp::Gt => {},
            BinaryOp::Ge => {},
            _ => {},
        }
    }
}

/// A double negation simplifies to what its operand simplifies to.
pub proof fn law_double_negation_is_dropped(x: SpecExpr)
    ensures
        simplify(
            SpecExpr::Unary {
                op: UnaryOp::Not,
                expr: Box::new(SpecExpr::Unary { op: UnaryOp::Not, expr: Box::new(x) }),
            },
        ) == simplify(x),
{
    lemma_simplify_gives_simplified(x);
    let y = simplify(x);
    let n1 = SpecExpr::Unary { op: UnaryOp::Not, expr: Box::new(x) };
    let n2 = SpecExpr::Unary { op: UnaryOp::Not, expr: Box::new(n1) };
    let i1 = simplify(n1);
    match y {
        SpecExpr::Unary { op, expr } => {
            if op == UnaryOp::Not {
                assert(i1 == *expr);
                assert(is_simplified(*expr));
                match *expr {
                    SpecExpr::Binary { op: b, left, right } => {
                        assert(inverted(b) is None);
                    },
                    _ => {},
                }
                assert(simplify(n2) == y);
            } else {
                assert(i1 == SpecExpr::Unary { op: UnaryOp::Not, expr: Box::new(y) });
                assert(simplify(n2) == y);
            }
        },
        SpecExpr::Binary { op, left, right } => {
            if inverted(op) is Some {
                let op2 = inverted(op)->0;
                assert(i1 == SpecExpr::Binary { op: op2, left, right });
                assert(inverted(op2) == Some(op));
                assert(simplify(n2) == y);
            } else {
                assert(i1 == SpecExpr::Unary { op: UnaryOp::Not, expr: Box::new(y) });
                assert(simplify(n2) == y);
            }
        },
        _ => {
            assert(i1 == SpecExpr::Unary { op: UnaryOp::Not, expr: Box::new(y) });
            assert(simplify(n2) == y);
        },
    }
}

/// Parentheses that precedence and grouping ask for around the left operand of `op`.
pub open spec fn left_needs_grouping(op: BinaryOp, e: SpecExpr) -> bool {
    prec_of(e) < op.spec_precedence() as nat || (prec_of(e) == op.spec_precedence() as nat
        && op.spec_assoc() == Assoc::Right)
}

/// Parentheses that precedence and grouping ask for around the right operand of `op`.
pub open spec fn right_needs_grouping(op: BinaryOp, e: SpecExpr) -> bool {
    prec_of(e) < op.spec_precedence() as nat || (prec_of(e) == op.spec_precedence() as nat
        && op.spec_assoc() == Assoc::Left)
}

/// Parentheses kept for reading: `&&` under `||`, and an ordering comparison under `==` or
/// `!=`.
pub open spec fn kept_for_reading(op: BinaryOp, e: SpecExpr) -> bool {
    match e {
        SpecExpr::Binary { op: inner, .. } => (op == BinaryOp::Or && inner == BinaryOp::And) || ((
        op == BinaryOp::Eq || op == BinaryOp::Ne) && (inner == BinaryOp::Lt || inner == BinaryOp::Le
            || inner == BinaryOp::Gt || inner == BinaryOp::Ge)),
        _ => false,
    }
}

/// An operand of a binary operator is printed in one pair of parentheses exactly when
/// precedence or grouping asks for them or they are kept for reading; otherwise it is printed
/// bare. In particular an `==` or `!=` operand of `&&` or `||` is printed without parentheses.
pub proof fn law_operand_parentheses(op: BinaryOp, l: SpecExpr, r: SpecExpr)
    ensures
        format_ctx(SpecExpr::Binary { op, left: Box::new(l), right: Box::new(r) }, 0, Assoc::Left, false)
            == wrap_if(
            format_ctx(l, 0, Assoc::Left, false),
            left_needs_grouping(op, l) || kept_for_reading(op, l),
        ) + seq![' '] + op.spec_str() + seq![' '] + wrap_if(
            format_ctx(r, 0, Assoc::Left, false),
            right_needs_grouping(op, r) || kept_for_reading(op, r),
        ),
{
    let p = op.spec_precedence() as nat;
    let a = op.spec_assoc();
    crate::roundtrip::lemma_format_ctx(l, p, a, false);
    crate::roundtrip::lemma_format_ctx(r, p, a, true);
}

/// The first index at which `== ` occurs in `s`, when `j` is one.
pub open spec fn first_eq_at(s: Seq<char>, j: int) -> bool {
    occurs_at(s, "== "@, j) && forall|k: int| 0 <= k < j ==> !occurs_at(s, "== "@, k)
}

proof fn lemma_find_first(s: Seq<char>, p: Seq<char>, i: nat)
    ensures
        find_from(s, p, i) matches Some(j) ==> occurs_at(s, p, j as int) && i <= j && forall|k: int|
            i <= k < j ==> !occurs_at(s, p, k),
        find_from(s, p, i) is None ==> forall|k: int| i <= k ==> !occurs_at(s, p, k),
    decreases s.len() + 1 - i,
{
    if i + p.len() <= s.len() && !occurs_at(s, p, i as int) {
        lemma_find_first(s, p, i + 1);
    }
}

proof fn lemma_not_prefix(a: Seq<char>, b: Seq<char>, i: int)
    requires
        0 <= i < a.len(),
        i < b.len(),
        a[i] != b[i],
    ensures
        !a.is_prefix_of(b),
{
    if a.is_prefix_of(b) {
        assert(b.subrange(0, a.len() as int)[i] == b[i]);
    }
}

proof fn lemma_prefix_cat(a: Seq<char>, rest: Seq<char>)
    ensures
        a.is_prefix_of(a + rest),
{
    assert((a + rest).subrange(0, a.len() as int) =~= a);
}

proof fn lemma_hang_ensures(rest: Seq<char>)
    ensures
        !contains("ensures "@ + rest, "== "@) ==> hang_of("ensures "@ + rest) == 8,
        contains("ensures "@ + rest, "== "@) ==> hang_of("ensures "@ + rest) >= 3 && first_eq_at(
            "ensures "@ + rest,
            hang_of("ensures "@ + rest) - 3,
        ),
{
    reveal_strlit("requires ");
    reveal_strlit("ensures ");
    reveal_strlit("== ");
    let kws = crate::annotate::hang_keywords();
    let k1 = kws.drop_first();
    assert(kws[0] == "requires "@);
    assert(k1[0] == "ensures "@);
    let e = "ensures "@ + rest;
    lemma_not_prefix("requires "@, e, 0);
    lemma_prefix_cat("ensures "@, rest);
    assert(crate::annotate::hang_from(e, kws) == crate::annotate::hang_from(e, k1));
    lemma_find_first(e, "== "@, 0);
    if contains(e, "== "@) {
        let k = choose|k: int| occurs_at(e, "== "@, k);
        assert(find_from(e, "== "@, 0) is Some);
        let j = find_from(e, "== "@, 0)->0;
        assert(crate::annotate::hang_from(e, k1) == j + 3);
        assert(first_eq_at(e, j as int));
    } else {
        if find_from(e, "== "@, 0) is Some {
            assert(occurs_at(e, "== "@, find_from(e, "== "@, 0)->0 as int));
        }
        assert(crate::annotate::hang_from(e, k1) == 8);
    }
}


/// Continuation lines of a clause hang under the text after its keyword: the hanging
/// indentation is the keyword's length for `requires`, `assumes`, `assigns`, `assert` and
/// `loop invariant`, and for `ensures` without `== `; an `ensures` with `== ` hangs after its
/// first `== `; a line with no keyword does not hang.
pub proof fn law_hang_under_clause_text(rest: Seq<char>)
    ensures
        hang_of("requires "@ + rest) == 9,
        hang_of("assumes "@ + rest) == 8,
        hang_of("assigns "@ + rest) == 8,
        hang_of("assert "@ + rest) == 7,
        hang_of("loop invariant "@ + rest) == 15,
        !contains("ensures "@ + rest, "== "@) ==> hang_of("ensures "@ + rest) == 8,
        contains("ensures "@ + rest, "== "@) ==> hang_of("ensures "@ + rest) >= 3 && first_eq_at(
            "ensures "@ + rest,
            hang_of("ensures "@ + rest) - 3,
        ),
{
    reveal_strlit("requires ");
    reveal_strlit("ensures ");
    reveal_strlit("assumes ");
    reveal_strlit("assigns ");
    reveal_strlit("assert ");
    reveal_strlit("loop invariant ");
    reveal_strlit("== ");
    let kws = crate::annotate::hang_keywords();
    let e = "ensures "@ + rest;
    lemma_hang_ensures(rest);
    assert(kws[0] == "requires "@);
    assert(kws[1] == "ensures "@);
    assert(kws[2] == "assumes "@);
    assert(kws[3] == "assigns "@);
    assert(kws[4] == "assert "@);
    assert(kws[5] == "loop invariant "@);
    let k1 = kws.drop_first();
    let k2 = k1.drop_first();
    let k3 = k2.drop_first();
    let k4 = k3.drop_first();
    let k5 = k4.drop_first();
    lemma_prefix_cat("requires "@, rest);
    lemma_not_prefix("requires "@, "assumes "@ + rest, 0);
    lemma_not_prefix("ensures "@, "assumes "@ + rest, 0);
    lemma_prefix_cat("assumes "@, rest);
    lemma_not_prefix("requires "@, "assigns "@ + rest, 0);
    lemma_not_prefix("ensures "@, "assigns "@ + rest, 0);
    lemma_not_prefix("assumes "@, "assigns "@ + rest, 3);
    lemma_prefix_cat("assigns "@, rest);
    lemma_not_prefix("requires "@, "assert "@ + rest, 0);
    lemma_not_prefix("ensures "@, "assert "@ + rest, 0);
    lemma_not_prefix("assumes "@, "assert "@ + rest, 3);
    lemma_not_prefix("assigns "@, "assert "@ + rest, 3);
    lemma_prefix_cat("assert "@, rest);
    let li = "loop invariant "@ + rest;
    lemma_not_prefix("requires "@, li, 0);
    lemma_not_prefix("ensures "@, li, 0);
    lemma_not_prefix("assumes "@, li, 0);
    lemma_not_prefix("assigns "@, li, 0);
    lemma_not_prefix("assert "@, li, 0);
    lemma_prefix_cat("loop invariant "@, rest);
    lemma_not_prefix("requires "@, e, 0);
    lemma_prefix_cat("ensures "@, rest);
    assert(k1[0] == kws[1]);
    assert(k2[0] == kws[2]);
    assert(k3[0] == kws[3]);
    assert(k4[0] == kws[4]);
    assert(k5[0] == kws[5]);
    let am = "assumes "@ + rest;
    let ag = "assigns "@ + rest;
    assert(crate::annotate::hang_from(am, k2) == 8);
    assert(crate::annotate::hang_from(am, k1) == crate::annotate::hang_from(am, k2));
    assert(crate::annotate::hang_from(am, kws) == crate::annotate::hang_from(am, k1));
    assert(crate::annotate::hang_from(ag, k3) == 8);
    assert(crate::annotate::hang_from(ag, k2) == crate::annotate::hang_from(ag, k3));
    assert(crate::annotate::hang_from(ag, k1) == crate::annotate::hang_from(ag, k2));
    assert(crate::annotate::hang_from(ag, kws) == crate::annotate::hang_from(ag, k1));
    let at = "assert "@ + rest;
    assert(crate::annotate::hang_from(at, k4) == 7);
    assert(crate::annotate::hang_from(at, k3) == crate::annotate::hang_from(at, k4));
    assert(crate::annotate::hang_from(at, k2) == crate::annotate::hang_from(at, k3));
    assert(crate::annotate::hang_from(at, k1) == crate::annotate::hang_from(at, k2));
    assert(crate::annotate::hang_from(at, kws) == crate::annotate::hang_from(at, k1));
    assert(crate::annotate::hang_from(li, k5) == 15);
    assert(crate::annotate::hang_from(li, k4) == crate::annotate::hang_from(li, k5));
    assert(crate::annotate::hang_from(li, k3) == crate::annotate::hang_from(li, k4));
    assert(crate::annotate::hang_from(li, k2) == crate::annotate::hang_from(li, k3));
    assert(crate::annotate::hang_from(li, k1) == crate::annotate::hang_from(li, k2));
    assert(crate::annotate::hang_from(li, kws) == crate::annotate::hang_from(li, k1));
}

/// A comment's surrounding whitespace does not decide whether it is formatted: when its
/// trimmed text is one `/*@ ... */` comment, or one `//@` line, the result is the formatting
/// of the trimmed text; any other text comes back unchanged.
pub proof fn law_comment_ignores_surrounding_space(s: Seq<char>)
    ensures
        "/*@"@.is_prefix_of(trim(s)) && "*/"@.is_suffix_of(trim(s)) ==> single_text(s) == file_text(
            trim(s),
        ),
        "//@"@.is_prefix_of(trim(s)) && !trim(s).contains('\n') ==> single_text(s) == file_text(
            trim(s),
        ),
        !("/*@"@.is_prefix_of(trim(s)) && "*/"@.is_suffix_of(trim(s))) && !("//@"@.is_prefix_of(
            trim(s),
        ) && !trim(s).contains('\n')) ==> single_text(s) == s,
{
}

proof fn lemma_greedy_later(ws: Seq<Seq<char>>, all: Seq<Seq<char>>, cur: Seq<char>, limit: nat, later: nat)
    requires
        forall|i: int| 0 <= i < ws.len() ==> all.contains(#[trigger] ws[i]),
        cur.len() <= limit || all.contains(cur),
    ensures
        forall|i: int|
            0 < i < greedy(ws, cur, limit, later).len() ==> (#[trigger] greedy(ws, cur, limit, later)[i]).len()
                <= later || all.contains(greedy(ws, cur, limit, later)[i]),
        greedy(ws, cur, limit, later).len() > 0 ==> greedy(ws, cur, limit, later)[0].len() <= limit
            || all.contains(greedy(ws, cur, limit, later)[0]),
    decreases ws.len(),
{
    if ws.len() == 0 {
        assert(greedy(ws, cur, limit, later) == pending(cur));
    } else {
        let w = ws[0];
        let rest = ws.drop_first();
        assert(all.contains(ws[0]));
        assert forall|i: int| 0 <= i < rest.len() implies all.contains(#[trigger] rest[i]) by {
            assert(rest[i] == ws[i + 1]);
        }
        if cur.len() == 0 {
            lemma_greedy_later(rest, all, w, limit, later);
            assert(greedy(ws, cur, limit, later) == greedy(rest, w, limit, later));
        } else if cur.len() + 1 + w.len() > limit {
            lemma_greedy_later(rest, all, w, later, later);
            let g = greedy(rest, w, later, later);
            let r = seq![cur] + g;
            assert(greedy(ws, cur, limit, later) == r);
            assert forall|i: int| 0 < i < r.len() implies (#[trigger] r[i]).len() <= later || all.contains(r[i]) by {
                assert(r[i] == g[i - 1]);
            }
            assert(r[0] == cur);
        } else {
            lemma_greedy_later(rest, all, cur + seq![' '] + w, limit, later);
            assert(greedy(ws, cur, limit, later) == greedy(rest, cur + seq![' '] + w, limit, later));
        }
    }
}

/// Wrapping leaves room for the hanging indentation: the first line fits in `max_len`
/// characters and every continuation line, with the `hang` spaces put before it, fits in
/// `max_len` too, unless the line is a single word that is longer.
pub proof fn law_wrapped_continuations_fit(line: Seq<char>, max_len: nat, hang: nat)
    requires
        hang <= max_len,
    ensures
        wrap_hang(line, max_len, hang).len() > 0 ==> wrap_hang(line, max_len, hang)[0].len() <= max_len
            || words(trim(line)).contains(wrap_hang(line, max_len, hang)[0]),
        forall|i: int|
            0 < i < wrap_hang(line, max_len, hang).len() ==> hang + (#[trigger] wrap_hang(
                line,
                max_len,
                hang,
            )[i]).len() <= max_len || words(trim(line)).contains(wrap_hang(line, max_len, hang)[i]),
{
    let t = trim(line);
    if t.len() > max_len {
        let ws = words(t);
        assert forall|i: int| 0 <= i < ws.len() implies ws.contains(#[trigger] ws[i]) by {}
        lemma_greedy_later(ws, ws, Seq::empty(), max_len, sat_sub(max_len, hang));
    }
}

/// A line that starts with none of the clause keywords does not hang.
pub proof fn law_no_keyword_no_hang(line: Seq<char>)
    requires
        !"requires "@.is_prefix_of(line),
        !"ensures "@.is_prefix_of(line),
        !"assumes "@.is_prefix_of(line),
        !"assigns "@.is_prefix_of(line),
        !"assert "@.is_prefix_of(line),
        !"loop invariant "@.is_prefix_of(line),
    ensures
        hang_of(line) == 0,
{
    reveal_strlit("requires ");
    reveal_strlit("ensures ");
    reveal_strlit("assumes ");
    reveal_strlit("assigns ");
    reveal_strlit("assert ");
    reveal_strlit("loop invariant ");
    let kws = crate::annotate::hang_keywords();
    let k1 = kws.drop_first();
    let k2 = k1.drop_first();
    let k3 = k2.drop_first();
    let k4 = k3.drop_first();
    let k5 = k4.drop_first();
    let k6 = k5.drop_first();
    assert(kws[0] == "requires "@);
    assert(k1[0] == "ensures "@);
    assert(k2[0] == "assumes "@);
    assert(k3[0] == "assigns "@);
    assert(k4[0] == "assert "@);
    assert(k5[0] == "loop invariant "@);
    assert(k6.len() == 0);
    assert(crate::annotate::hang_from(line, k6) == 0);
    assert(crate::annotate::hang_from(line, k5) == crate::annotate::hang_from(line, k6));
    assert(crate::annotate::hang_from(line, k4) == crate::annotate::hang_from(line, k5));
    assert(crate::annotate::hang_from(line, k3) == crate::annotate::hang_from(line, k4));
    assert(crate::annotate::hang_from(line, k2) == crate::annotate::hang_from(line, k3));
    assert(crate::annotate::hang_from(line, k1) == crate::annotate::hang_from(line, k2));
    assert(crate::annotate::hang_from(line, kws) == crate::annotate::hang_from(line, k1));
}

} // verus!