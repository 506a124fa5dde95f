use vstd::prelude::*;
use crate::ascii::{ascii, lemma_annotation_ascii, lemma_ascii_join};
use crate::format::{format_expr, format_spec};
use crate::parser::{parse_annotation_list, parse_annotation_text, ClauseKind, SpecClause, clause_views};
use crate::ast::{lemma_view_exprs, view_exprs, Expr, SpecExpr};
use crate::text::{pending, words_from, contains, is_ws, join, join_chars, matches_at, occurs_at, push_all, push_spaces, push_str, replace_fix, replace_until_gone, spaces, split_chars, split_on, split_words, str_chars, chars_string, trim, trim_chars, views, words};

verus! {

/// The replacements that remove spaces around member access and indexing, in the order they
/// are applied.
pub open spec fn space_rules() -> Seq<(Seq<char>, Seq<char>)> {
    seq![
        (" -> "@, "->"@),
        ("-> "@, "->"@),
        (" ->"@, "->"@),
        (" . "@, "."@),
        (". "@, "."@),
        (" ."@, "."@),
        (" ["@, "["@),
        ("[ "@, "["@),
        (" ]"@, "]"@),
    ]
}

/// Each rule in turn, each repeated until its pattern is gone.
pub open spec fn apply_rules(s: Seq<char>, rules: Seq<(Seq<char>, Seq<char>)>) -> Seq<char>
    decreases rules.len(),
{
    if rules.len() == 0 {
        s
    } else {
        apply_rules(replace_fix(s, rules[0].0, rules[0].1), rules.drop_first())
    }
}

/// The text with the spaces around `->`, `.`, `[` and `]` removed.
pub open spec fn normalize_spaces(s: Seq<char>) -> Seq<char> {
    apply_rules(s, space_rules())
}

fn rule(from: &str, to: &str) -> (r: (Vec<char>, Vec<char>))
    ensures
        r.0@ == from@,
        r.1@ == to@,
{
    (str_chars(from), str_chars(to))
}

fn normalize_redundant_spaces(input: &Vec<char>) -> (r: Vec<char>)
    ensures
        r@ == normalize_spaces(input@),
{
    let replacements = vec![
        rule(" -> ", "->"),
        rule("-> ", "->"),
        rule(" ->", "->"),
        rule(" . ", "."),
        rule(". ", "."),
        rule(" .", "."),
        rule(" [", "["),
        rule("[ ", "["),
        rule(" ]", "]"),
    ];
    proof {
        reveal_strlit(" -> ");
        reveal_strlit("-> ");
        reveal_strlit(" ->");
        reveal_strlit("->");
        reveal_strlit(" . ");
        reveal_strlit(". ");
        reveal_strlit(" .");
        reveal_strlit(".");
        reveal_strlit(" [");
        reveal_strlit("[ ");
        reveal_strlit("[");
        reveal_strlit(" ]");
        reveal_strlit("]");
    }
    let mut s: Vec<char> = Vec::new();
    push_all(&mut s, input);
    let mut k: usize = 0;
    assert(space_rules().skip(0) =~= space_rules());
    while k < replacements.len()
        invariant
            k <= replacements.len() == space_rules().len(),
            forall|j: int|
                0 <= j < replacements.len() ==> (#[trigger] replacements@[j]).0@ == space_rules()[j].0
                    && replacements@[j].1@ == space_rules()[j].1,
            forall|j: int|
                0 <= j < space_rules().len() ==> (#[trigger] space_rules()[j]).0.len() > 0
                    && space_rules()[j].1.len() < space_rules()[j].0.len(),
            apply_rules(s@, space_rules().skip(k as int)) == normalize_spaces(input@),
        decreases replacements.len() - k,
    {
        let ghost rest = space_rules().skip(k as int);
        assert(rest[0] == space_rules()[k as int]);
        assert(rest.drop_first() =~= space_rules().skip(k + 1));
        s = replace_until_gone(s, &replacements[k].0, &replacements[k].1);
        k += 1;
    }
    s
}

/// The clause keywords whose continuation lines hang under the clause text.
pub open spec fn hang_keywords() -> Seq<Seq<char>> {
    seq![
        "requires "@,
        "ensures "@,
        "assumes "@,
        "assigns "@,
        "assert "@,
        "loop invariant "@,
    ]
}

/// The index of the first occurrence of `p` in `s` at or after `i`.
pub open spec fn find_from(s: Seq<char>, p: Seq<char>, i: nat) -> Option<nat>
    decreases s.len() + 1 - i,
{
    if i + p.len() > s.len() {
        None
    } else if occurs_at(s, p, i as int) {
        Some(i)
    } else {
        find_from(s, p, i + 1)
    }
}

/// How far continuation lines of a clause are indented: under the text after the keyword, or
/// for an `ensures` clause that holds `== `, under the text after the first `== `.
pub open spec fn hang_of(line: Seq<char>) -> nat {
    hang_from(line, hang_keywords())
}

pub open spec fn hang_from(line: Seq<char>, kws: Seq<Seq<char>>) -> nat
    decreases kws.len(),
{
    if kws.len() == 0 {
        0
    } else if kws[0].is_prefix_of(line) {
        if kws[0] == "ensures "@ && find_from(line, "== "@, 0) is Some {
            find_from(line, "== "@, 0)->0 + 3
        } else {
            kws[0].len()
        }
    } else {
        hang_from(line, kws.drop_first())
    }
}

/// A found occurrence is an occurrence.
proof fn lemma_find_bound(s: Seq<char>, p: Seq<char>, i: nat)
    ensures
        find_from(s, p, i) matches Some(j) ==> occurs_at(s, p, j as int) && i <= j,
    decreases s.len() + 1 - i,
{
    if i + p.len() <= s.len() && !occurs_at(s, p, i as int) {
        lemma_find_bound(s, p, i + 1);
    }
}

/// Does `s` begin with `p`?
fn starts_with(s: &Vec<char>, p: &str) -> (b: bool)
    ensures
        b == p@.is_prefix_of(s@),
{
    let pv = str_chars(p);
    let b = matches_at(s, 0, &pv);
    proof {
        if b {
            assert(s@.subrange(0, pv@.len() as int) == pv@);
            assert forall|i: int| 0 <= i < pv@.len() implies pv@[i] == s@[i] by {
                assert(s@.subrange(0, pv@.len() as int)[i] == s@[i]);
            }
        } else if p@.is_prefix_of(s@) {
            assert(s@.subrange(0, pv@.len() as int) =~= pv@);
        }
    }
    b
}

/// The index of the first occurrence of `p` in `s`.
fn find_chars(s: &Vec<char>, p: &Vec<char>) -> (r: Option<usize>)
    ensures
        r is None <==> find_from(s@, p@, 0) is None,
        r matches Some(i) ==> find_from(s@, p@, 0) == Some(i as nat),
{
    if p.len() > s.len() {
        return None;
    }
    let lim = s.len() - p.len();
    let mut i: usize = 0;
    loop
        invariant
            p.len() <= s.len(),
            lim == s.len() - p.len(),
            i <= lim,
            find_from(s@, p@, i as nat) == find_from(s@, p@, 0),
        decreases lim - i,
    {
        if matches_at(s, i, p) {
            return Some(i);
        }
        if i == lim {
            assert(find_from(s@, p@, (i + 1) as nat) is None);
            return None;
        }
        i += 1;
    }
}

/// The hanging indentation of a clause line. Its text is ASCII, so the position counted in
/// characters is the position in bytes.
fn hanging_indent(line: &Vec<char>) -> (r: usize)
    requires
        ascii(line@),
    ensures
        r as nat == hang_of(line@),
{
    let keywords = ["requires ", "ensures ", "assumes ", "assigns ", "assert ", "loop invariant "];
    let mut k: usize = 0;
    assert(hang_keywords().skip(0) =~= hang_keywords());
    while k < 6
        invariant
            k <= 6,
            hang_keywords().len() == 6,
            forall|j: int| 0 <= j < 6 ==> (#[trigger] keywords@[j])@ == hang_keywords()[j],
            hang_from(line@, hang_keywords().skip(k as int)) == hang_of(line@),
        decreases 6 - k,
    {
        let kw = keywords[k];
        let ghost rest = hang_keywords().skip(k as int);
        assert(rest[0] == hang_keywords()[k as int]);
        assert(rest.drop_first() =~= hang_keywords().skip(k + 1));
        if starts_with(line, kw) {
            let kwv = str_chars(kw);
            let ens = str_chars("ensures ");
            if crate::lexer::same_chars(&kwv, &ens) {
                let pat = str_chars("== ");
                proof {
                    reveal_strlit("== ");
                }
                match find_chars(line, &pat) {
                    Some(idx) => {
                        proof {
                            lemma_find_bound(line@, pat@, 0);
                            assert(pat@.len() == 3);
                            assert(occurs_at(line@, pat@, idx as int));
                        }
                        let n = line.len();
                        assert(idx + 3 <= n);
                        return idx + 3;
                    },
                    None => {},
                }
            }
            return kwv.len();
        }
        k += 1;
    }
    0
}


/// Words laid out greedily after the line `cur`: a word goes on the current line when the
/// line stays within `limit` characters, else it starts a new line, whose limit is `later`.
pub open spec fn greedy(ws: Seq<Seq<char>>, cur: Seq<char>, limit: nat, later: nat) -> Seq<Seq<char>>
    decreases ws.len(),
{
    if ws.len() == 0 {
        pending(cur)
    } else if cur.len() == 0 {
        greedy(ws.drop_first(), ws[0], limit, later)
    } else if cur.len() + 1 + ws[0].len() > limit {
        seq![cur] + greedy(ws.drop_first(), ws[0], later, later)
    } else {
        greedy(ws.drop_first(), cur + seq![' '] + ws[0], limit, later)
    }
}

/// `a - b`, or zero where `b` is larger.
pub open spec fn sat_sub(a: nat, b: nat) -> nat {
    if a >= b {
        (a - b) as nat
    } else {
        0
    }
}

/// The trimmed line, or where it is longer than `max_len`, its words laid out in lines of at
/// most `max_len` characters, continuation lines `hang` characters shorter (a single longer
/// word takes a line of its own).
pub open spec fn wrap_hang(line: Seq<char>, max_len: nat, hang: nat) -> Seq<Seq<char>> {
    let t = trim(line);
    if t.len() <= max_len {
        seq![t]
    } else {
        greedy(words(t), Seq::empty(), max_len, sat_sub(max_len, hang))
    }
}

/// The line wrapped at `max_len` characters, every line with the same limit.
pub open spec fn wrap_plain(line: Seq<char>, max_len: nat) -> Seq<Seq<char>> {
    wrap_hang(line, max_len, 0)
}

/// The line wrapped with hanging indentation. Its text is ASCII, so the widths counted in
/// characters are widths in bytes.
fn wrap_with_hang(line: &Vec<char>, max_len: usize, hang: usize) -> (r: Vec<Vec<char>>)
    requires
        ascii(line@),
    ensures
        views(r@) == wrap_hang(line@, max_len as nat, hang as nat),
{
    let trimmed = trim_chars(line);
    if trimmed.len() <= max_len {
        let mut r: Vec<Vec<char>> = Vec::new();
        r.push(trimmed);
        assert(views(r@) =~= seq![trim(line@)]);
        return r;
    }
    let ws = split_words(&trimmed);
    let later: usize = if max_len >= hang {
        max_len - hang
    } else {
        0
    };
    let mut out: Vec<Vec<char>> = Vec::new();
    let mut current: Vec<char> = Vec::new();
    let mut limit = max_len;
    let mut i: usize = 0;
    proof {
        assert(views(ws@).skip(0) =~= views(ws@));
        assert(views(out@) =~= Seq::<Seq<char>>::empty());
    }
    while i < ws.len()
        invariant
            i <= ws.len(),
            later as nat == sat_sub(max_len as nat, hang as nat),
            views(out@) + greedy(views(ws@).skip(i as int), current@, limit as nat, later as nat)
                == greedy(views(ws@), Seq::empty(), max_len as nat, later as nat),
        decreases ws.len() - i,
    {
        let ghost rest = views(ws@).skip(i as int);
        assert(rest[0] == ws@[i as int]@);
        assert(rest.drop_first() =~= views(ws@).skip(i + 1));
        let ghost o = views(out@);
        let w = &ws[i];
        if current.len() == 0 {
            push_all(&mut current, w);
            assert(current@ =~= w@);
        } else {
            let fits = current.len() < limit && w.len() <= limit - current.len() - 1;
            if !fits {
                let ghost c = current@;
                out.push(current);
                assert(views(out@) =~= o + seq![c]);
                current = Vec::new();
                push_all(&mut current, w);
                limit = later;
                assert(views(out@) + greedy(rest.drop_first(), current@, limit as nat, later as nat)
                    =~= o + (seq![c] + greedy(rest.drop_first(), w@, later as nat, later as nat)));
            } else {
                let ghost c = current@;
                current.push(' ');
                push_all(&mut current, w);
                assert(current@ =~= c + seq![' '] + w@);
            }
        }
        i += 1;
    }
    let ghost o = views(out@);
    if current.len() > 0 {
        out.push(current);
        assert(views(out@) =~= o + pending(current@));
    } else {
        assert(views(out@) =~= o + pending(current@));
    }
    assert(views(ws@).skip(i as int).len() == 0);
    out
}

fn wrap_line(line: &Vec<char>, max_len: usize) -> (r: Vec<Vec<char>>)
    requires
        ascii(line@),
    ensures
        views(r@) == wrap_plain(line@, max_len as nat),
{
    wrap_with_hang(line, max_len, 0)
}

/// The lines with `;` after the last one.
pub open spec fn with_semicolon(ls: Seq<Seq<char>>) -> Seq<Seq<char>> {
    if ls.len() == 0 {
        ls
    } else {
        ls.update(ls.len() - 1, ls.last().push(';'))
    }
}

/// The first line after `first`, each other line after `rest`.
pub open spec fn indent_lines(ls: Seq<Seq<char>>, first: Seq<char>, rest: Seq<char>) -> Seq<Seq<char>> {
    Seq::new(ls.len(), |i: int| if i == 0 { first + ls[i] } else { rest + ls[i] })
}

/// The indentation of a clause: two spaces, four inside a behavior.
pub open spec fn clause_indent(in_behavior: bool) -> Seq<char> {
    if in_behavior {
        "    "@
    } else {
        "  "@
    }
}

/// The lines of one clause in a block annotation: wrapped at 78 columns with hanging
/// indentation, `;` at the end.
pub open spec fn clause_lines(part: Seq<char>, in_behavior: bool) -> Seq<Seq<char>> {
    let hang = hang_of(part);
    indent_lines(
        with_semicolon(wrap_hang(part, 78, hang)),
        clause_indent(in_behavior),
        clause_indent(in_behavior) + spaces(hang),
    )
}

/// The lines of a block annotation, from the clause texts `parts`.
pub open spec fn block_lines_from(parts: Seq<Seq<char>>, in_behavior: bool) -> Seq<Seq<char>>
    decreases parts.len(),
{
    if parts.len() == 0 {
        Seq::empty()
    } else if "behavior "@.is_prefix_of(parts[0]) {
        seq!["  "@ + parts[0]] + block_lines_from(parts.drop_first(), true)
    } else {
        clause_lines(parts[0], in_behavior) + block_lines_from(parts.drop_first(), in_behavior)
    }
}

/// A block annotation's body: one clause per line, behavior clauses indented under their
/// `behavior` line.
pub open spec fn block_text(parts: Seq<Seq<char>>) -> Seq<char> {
    join(block_lines_from(parts, false), "\n"@)
}

/// A line annotation's body: the clauses joined by `; ` and wrapped at 76 columns.
pub open spec fn line_text(parts: Seq<Seq<char>>) -> Seq<char> {
    join(wrap_plain(join(parts, "; "@), 76), "\n"@)
}

/// Appends the lines of `ls` to `lines`, the first after `first`, the others after `rest`.
fn push_indented(lines: &mut Vec<Vec<char>>, ls: &Vec<Vec<char>>, first: &Vec<char>, rest: &Vec<char>)
    ensures
        views(final(lines)@) == views(old(lines)@) + indent_lines(views(ls@), first@, rest@),
{
    let ghost l0 = views(lines@);
    let mut i: usize = 0;
    while i < ls.len()
        invariant
            i <= ls.len(),
            views(lines@) == l0 + indent_lines(views(ls@), first@, rest@).take(i as int),
        decreases ls.len() - i,
    {
        let mut line: Vec<char> = Vec::new();
        if i == 0 {
            push_all(&mut line, first);
        } else {
            push_all(&mut line, rest);
        }
        push_all(&mut line, &ls[i]);
        let ghost before = views(lines@);
        lines.push(line);
        assert(views(lines@) =~= before.push(line@));
        i += 1;
        assert(views(lines@) =~= l0 + indent_lines(views(ls@), first@, rest@).take(i as int));
    }
    assert(indent_lines(views(ls@), first@, rest@).take(i as int) =~= indent_lines(
        views(ls@),
        first@,
        rest@,
    ));
}

fn format_block_lines(parts: &Vec<Vec<char>>) -> (r: Vec<char>)
    requires
        forall|i: int| 0 <= i < parts.len() ==> ascii(#[trigger] parts@[i]@),
    ensures
        r@ == block_text(views(parts@)),
{
    let mut lines: Vec<Vec<char>> = Vec::new();
    let mut in_behavior = false;
    let mut k: usize = 0;
    proof {
        assert(views(parts@).skip(0) =~= views(parts@));
        assert(views(lines@) =~= Seq::<Seq<char>>::empty());
    }
    while k < parts.len()
        invariant
            k <= parts.len(),
            forall|i: int| 0 <= i < parts.len() ==> ascii(#[trigger] parts@[i]@),
            views(lines@) + block_lines_from(views(parts@).skip(k as int), in_behavior)
                == block_lines_from(views(parts@), false),
        decreases parts.len() - k,
    {
        let ghost rest = views(parts@).skip(k as int);
        assert(rest[0] == parts@[k as int]@);
        assert(rest.drop_first() =~= views(parts@).skip(k + 1));
        let ghost l0 = views(lines@);
        let part = &parts[k];
        if starts_with(part, "behavior ") {
            let mut line: Vec<char> = Vec::new();
            push_str(&mut line, "  ");
            push_all(&mut line, part);
            lines.push(line);
            in_behavior = true;
            assert(views(lines@) =~= l0 + seq!["  "@ + part@]);
        } else {
            let hang = hanging_indent(part);
            let mut wrapped = wrap_with_hang(part, 78, hang);
            let ghost w0 = views(wrapped@);
            if wrapped.len() > 0 {
                let last = wrapped.len() - 1;
                let mut l = wrapped[last].clone();
                l.push(';');
                wrapped.set(last, l);
                assert(views(wrapped@) =~= with_semicolon(w0));
            } else {
                assert(views(wrapped@) =~= with_semicolon(w0));
            }
            let first = str_chars(if in_behavior {
                "    "
            } else {
                "  "
            });
            let mut cont = first.clone();
            push_spaces(&mut cont, hang);
            push_indented(&mut lines, &wrapped, &first, &cont);
            assert(views(lines@) =~= l0 + clause_lines(part@, in_behavior));
        }
        k += 1;
    }
    assert(views(parts@).skip(k as int).len() == 0);
    assert(views(lines@) + block_lines_from(views(parts@).skip(k as int), in_behavior) =~= views(
        lines@,
    ));
    let nl = str_chars("\n");
    join_chars(&lines, &nl)
}

fn format_line_text(parts: &Vec<Vec<char>>) -> (r: Vec<char>)
    requires
        forall|i: int| 0 <= i < parts.len() ==> ascii(#[trigger] parts@[i]@),
    ensures
        r@ == line_text(views(parts@)),
{
    let sep = str_chars("; ");
    let joined = join_chars(parts, &sep);
    proof {
        reveal_strlit("; ");
        let ps = views(parts@);
        assert forall|i: int| 0 <= i < ps.len() implies ascii(#[trigger] ps[i]) by {
            assert(ps[i] == parts@[i]@);
        }
        lemma_ascii_join(ps, "; "@);
    }
    let wrapped = wrap_line(&joined, 76);
    let nl = str_chars("\n");
    join_chars(&wrapped, &nl)
}


/// How an annotation's clauses are laid out.
#[derive(Debug, Clone, Copy, PartialEq, Eq, Structural)]
pub enum FormatStyle {
    /// One clause per line, each ended by `;`, as inside `/*@ ... */`.
    Block,
    /// All clauses on one line, separated by `; `, as after `//@`.
    Line,
}

/// The text of one expression inside a clause.
pub open spec fn expr_text(e: SpecExpr) -> Seq<char> {
    normalize_spaces(format_spec(e))
}

/// The texts of the expressions of an `assigns` clause.
pub open spec fn item_texts(items: Seq<SpecExpr>) -> Seq<Seq<char>> {
    items.map_values(|e: SpecExpr| expr_text(e))
}

/// The text of one clause.
pub open spec fn clause_text(c: SpecClause) -> Seq<char> {
    match c {
        SpecClause::Expr(e) => expr_text(e),
        SpecClause::Assert(e) => "assert "@ + expr_text(e),
        SpecClause::LoopInvariant(e) => "loop invariant "@ + expr_text(e),
        SpecClause::Requires(e) => "requires "@ + expr_text(e),
        SpecClause::Ensures(e) => "ensures "@ + expr_text(e),
        SpecClause::Assumes(e) => "assumes "@ + expr_text(e),
        SpecClause::Assigns(items) => "assigns "@ + join(item_texts(items), ", "@),
        SpecClause::Behavior(name) => "behavior "@ + name + ":"@,
    }
}

/// The formatted content of an annotation: empty for blank content, the trimmed content
/// unchanged when it does not parse, else its clauses laid out in `style`.
pub open spec fn annotation_text(content: Seq<char>, style: FormatStyle) -> Seq<char> {
    let t = trim(content);
    if t.len() == 0 {
        Seq::empty()
    } else {
        match parse_annotation_text(t) {
            Err(_) => t,
            Ok(cs) => {
                let parts = cs.map_values(|c: SpecClause| clause_text(c));
                if parts.len() == 0 {
                    Seq::empty()
                } else {
                    match style {
                        FormatStyle::Block => block_text(parts),
                        FormatStyle::Line => line_text(parts),
                    }
                }
            },
        }
    }
}

/// The text of one expression inside a clause.
fn expr_chars(e: &Expr) -> (r: Vec<char>)
    ensures
        r@ == expr_text(e@),
{
    let s = format_expr(e);
    let v = str_chars(s.as_str());
    normalize_redundant_spaces(&v)
}

/// A keyword followed by the text of an expression.
fn keyword_expr(kw: &str, e: &Expr) -> (r: Vec<char>)
    ensures
        r@ == kw@ + expr_text(e@),
{
    let mut r = str_chars(kw);
    let t = expr_chars(e);
    push_all(&mut r, &t);
    r
}

fn clause_chars(c: &ClauseKind) -> (r: Vec<char>)
    ensures
        r@ == clause_text(c@),
{
    match c {
        ClauseKind::Expr(e) => expr_chars(e),
        ClauseKind::Assert(e) => keyword_expr("assert ", e),
        ClauseKind::LoopInvariant(e) => keyword_expr("loop invariant ", e),
        ClauseKind::Requires(e) => keyword_expr("requires ", e),
        ClauseKind::Ensures(e) => keyword_expr("ensures ", e),
        ClauseKind::Assumes(e) => keyword_expr("assumes ", e),
        ClauseKind::Assigns(items) => {
            let mut texts: Vec<Vec<char>> = Vec::new();
            let mut i: usize = 0;
            proof {
                lemma_view_exprs(items@);
            }
            while i < items.len()
                invariant
                    i <= items.len(),
                    view_exprs(items@).len() == items@.len(),
                    forall|j: int| 0 <= j < items@.len() ==> #[trigger] view_exprs(items@)[j] == items@[j]@,
                    texts@.len() == i,
                    forall|j: int| 0 <= j < i ==> #[trigger] texts@[j]@ == expr_text(items@[j]@),
                decreases items.len() - i,
            {
                texts.push(expr_chars(&items[i]));
                i += 1;
            }
            assert(views(texts@) =~= item_texts(view_exprs(items@)));
            let mut r = str_chars("assigns ");
            let sep = str_chars(", ");
            let list = join_chars(&texts, &sep);
            push_all(&mut r, &list);
            r
        },
        ClauseKind::Behavior(name) => {
            let mut r = str_chars("behavior ");
            push_str(&mut r, name.as_str());
            push_str(&mut r, ":");
            r
        },
    }
}

/// Formats the content of one annotation, without its comment delimiters.
pub fn format_annotation_content(content: &str, style: FormatStyle) -> (s: String)
    ensures
        s@ == annotation_text(content@, style),
{
    let chars = str_chars(content);
    let trimmed = trim_chars(&chars);
    if trimmed.len() == 0 {
        return String::new();
    }
    let text = chars_string(&trimmed);
    match parse_annotation_list(text.as_str()) {
        Ok(clauses) => {
            let mut parts: Vec<Vec<char>> = Vec::new();
            let mut i: usize = 0;
            while i < clauses.len()
                invariant
                    i <= clauses.len(),
                    parts@.len() == i,
                    forall|j: int| 0 <= j < i ==> #[trigger] parts@[j]@ == clause_text(clauses@[j]@),
                decreases clauses.len() - i,
            {
                parts.push(clause_chars(&clauses[i]));
                i += 1;
            }
            let ghost cs = clause_views(clauses@);
            assert(views(parts@) =~= cs.map_values(|c: SpecClause| clause_text(c)));
            proof {
                lemma_annotation_ascii(text@);
                assert forall|i: int| 0 <= i < parts.len() implies ascii(#[trigger] parts@[i]@) by {
                    assert(cs[i] == clauses@[i]@);
                }
            }
            if parts.len() == 0 {
                return String::new();
            }
            let out = match style {
                FormatStyle::Block => format_block_lines(&parts),
                FormatStyle::Line => format_line_text(&parts),
            };
            chars_string(&out)
        },
        Err(_) => text,
    }
}


/// The index of the `*` of the first `*/` at or after `j`, or, where there is none, the
/// index of the last character.
pub open spec fn block_end(s: Seq<char>, j: nat) -> nat
    decreases s.len() - j,
{
    if j + 1 < s.len() && !(s[j as int] == '*' && s[j + 1int] == '/') {
        block_end(s, j + 1)
    } else {
        j
    }
}

/// The index of the first line break at or after `j`, or the length where there is none.
pub open spec fn line_end(s: Seq<char>, j: nat) -> nat
    decreases s.len() - j,
{
    if j < s.len() && s[j as int] != '\n' {
        line_end(s, j + 1)
    } else {
        j
    }
}

pub proof fn lemma_block_end_bounds(s: Seq<char>, j: nat)
    ensures
        j <= block_end(s, j),
        j <= s.len() ==> block_end(s, j) <= s.len(),
        block_end(s, j) + 1 < s.len() ==> s[block_end(s, j) as int] == '*' && s[block_end(s, j) + 1int] == '/',
    decreases s.len() - j,
{
    if j + 1 < s.len() && !(s[j as int] == '*' && s[j + 1int] == '/') {
        lemma_block_end_bounds(s, j + 1);
    }
}

pub proof fn lemma_line_end_bounds(s: Seq<char>, j: nat)
    ensures
        j <= line_end(s, j),
        j <= s.len() ==> line_end(s, j) <= s.len(),
        line_end(s, j) < s.len() ==> s[line_end(s, j) as int] == '\n',
    decreases s.len() - j,
{
    if j < s.len() && s[j as int] != '\n' {
        lemma_line_end_bounds(s, j + 1);
    }
}

/// A block annotation `/*@` opens at `i`.
pub open spec fn block_opens_at(s: Seq<char>, i: nat) -> bool {
    s[i as int] == '/' && i + 2 < s.len() && s[i + 1int] == '*' && s[i + 2int] == '@'
}

/// A line annotation `//@` opens at `i`.
pub open spec fn line_opens_at(s: Seq<char>, i: nat) -> bool {
    s[i as int] == '/' && i + 2 < s.len() && s[i + 1int] == '/' && s[i + 2int] == '@'
}

/// The content of an annotation that is not blank and does not read as clauses.
pub open spec fn unreadable(content: Seq<char>) -> bool {
    trim(content).len() > 0 && parse_annotation_text(trim(content)) is Err
}

/// What stands between `/*@` and `*/` once the content is formatted: content that does not
/// read as clauses stays as it is.
pub open spec fn block_piece(content: Seq<char>) -> Seq<char> {
    let f = annotation_text(content, FormatStyle::Block);
    if unreadable(content) {
        content
    } else if f.len() > 0 {
        "\n"@ + f + "\n"@
    } else {
        Seq::empty()
    }
}

/// What follows `//@` once the content is formatted: each further line of the formatted
/// content becomes a `//@` line of its own. Content that does not read as clauses stays as
/// it is.
pub open spec fn line_piece(content: Seq<char>) -> Seq<char> {
    let f = annotation_text(content, FormatStyle::Line);
    if unreadable(content) {
        content
    } else if f.len() > 0 {
        " "@ + join(split_on(f, '\n'), "\n//@ "@)
    } else {
        Seq::empty()
    }
}

/// The text from index `i` on, with every annotation comment formatted and everything else
/// kept. A `/*@` without a closing `*/` is kept to the end of the text as it is.
pub open spec fn scan(s: Seq<char>, i: nat) -> Seq<char>
    decreases s.len() - i,
{
    if i >= s.len() {
        Seq::empty()
    } else if block_opens_at(s, i) {
        proof {
            lemma_block_end_bounds(s, i + 3);
        }
        let j = block_end(s, i + 3);
        let content = s.subrange(i + 3int, j as int);
        if j + 1 < s.len() {
            "/*@"@ + block_piece(content) + "*/"@ + scan(s, j + 2)
        } else {
            s.subrange(i as int, s.len() as int)
        }
    } else if line_opens_at(s, i) {
        proof {
            lemma_line_end_bounds(s, i + 3);
        }
        let j = line_end(s, i + 3);
        let content = s.subrange(i + 3int, j as int);
        if j < s.len() {
            "//@"@ + line_piece(content) + "\n"@ + scan(s, j + 1)
        } else {
            "//@"@ + line_piece(content)
        }
    } else {
        seq![s[i as int]] + scan(s, i + 1)
    }
}

/// A C source text with every ACSL annotation comment formatted.
pub open spec fn file_text(s: Seq<char>) -> Seq<char> {
    scan(s, 0)
}

/// The characters of `s` in `[lo, hi)`.
fn sub_chars(s: &Vec<char>, lo: usize, hi: usize) -> (r: Vec<char>)
    requires
        lo <= hi <= s.len(),
    ensures
        r@ == s@.subrange(lo as int, hi as int),
{
    let mut r: Vec<char> = Vec::new();
    let mut k = lo;
    while k < hi
        invariant
            lo <= k <= hi <= s.len(),
            r@ == s@.subrange(lo as int, k as int),
        decreases hi - k,
    {
        r.push(s[k]);
        k += 1;
        assert(r@ =~= s@.subrange(lo as int, k as int));
    }
    r
}

/// Is the content not blank, and does it not read as clauses?
fn is_unreadable(content: &Vec<char>) -> (b: bool)
    ensures
        b == unreadable(content@),
{
    let trimmed = trim_chars(content);
    if trimmed.len() == 0 {
        return false;
    }
    let text = chars_string(&trimmed);
    match parse_annotation_list(text.as_str()) {
        Ok(_) => false,
        Err(_) => true,
    }
}

/// A copy of the characters.
fn copy_chars(s: &Vec<char>) -> (r: Vec<char>)
    ensures
        r@ == s@,
{
    let mut r: Vec<char> = Vec::new();
    push_all(&mut r, s);
    r
}

fn block_piece_chars(content: &Vec<char>) -> (r: Vec<char>)
    ensures
        r@ == block_piece(content@),
{
    if is_unreadable(content) {
        return copy_chars(content);
    }
    let text = chars_string(content);
    let formatted = format_annotation_content(text.as_str(), FormatStyle::Block);
    let f = str_chars(formatted.as_str());
    let mut r: Vec<char> = Vec::new();
    if f.len() > 0 {
        push_str(&mut r, "\n");
        push_all(&mut r, &f);
        push_str(&mut r, "\n");
    }
    r
}

fn line_piece_chars(content: &Vec<char>) -> (r: Vec<char>)
    ensures
        r@ == line_piece(content@),
{
    if is_unreadable(content) {
        return copy_chars(content);
    }
    let text = chars_string(content);
    let formatted = format_annotation_content(text.as_str(), FormatStyle::Line);
    let f = str_chars(formatted.as_str());
    let mut r: Vec<char> = Vec::new();
    if f.len() > 0 {
        push_str(&mut r, " ");
        let lines = split_chars(&f, '\n');
        let sep = str_chars("\n//@ ");
        let joined = join_chars(&lines, &sep);
        push_all(&mut r, &joined);
    }
    r
}

/// Formats every ACSL annotation comment of a C source text and keeps everything else.
#[verifier::rlimit(50)]
pub fn format_acsl_annotations(input: &str) -> (out: String)
    ensures
        out@ == file_text(input@),
{
    let chars = str_chars(input);
    let n = chars.len();
    let mut out: Vec<char> = Vec::new();
    let mut i: usize = 0;
    while i < n
        invariant_except_break
            out@ + scan(chars@, i as nat) == scan(chars@, 0),
        invariant
            n == chars.len(),
            i <= n,
        ensures
            out@ == scan(chars@, 0),
        decreases n - i,
    {
        let ghost o = out@;
        let ghost i0 = i;
        if chars[i] == '/' && n - i > 2 && chars[i + 1] == '*' && chars[i + 2] == '@' {
            proof {
                lemma_block_end_bounds(chars@, (i + 3) as nat);
            }
            push_str(&mut out, "/*@");
            i += 3;
            let start = i;
            while i < n && n - i > 1 && !(chars[i] == '*' && chars[i + 1] == '/')
                invariant
                    n == chars.len(),
                    start <= i <= n,
                    block_end(chars@, i as nat) == block_end(chars@, start as nat),
                decreases n - i,
            {
                i += 1;
            }
            let content = sub_chars(&chars, start, i);
            if i < n && n - i > 1 {
                let piece = block_piece_chars(&content);
                push_all(&mut out, &piece);
                push_str(&mut out, "*/");
                i += 2;
            } else {
                let rest = sub_chars(&chars, start, n);
                push_all(&mut out, &rest);
                proof {
                    reveal_strlit("/*@");
                    assert(block_end(chars@, start as nat) == i);
                    assert(chars@.subrange(i0 as int, n as int) =~= "/*@"@ + rest@);
                }
                assert(out@ =~= o + scan(chars@, i0 as nat));
                break;
            }
        } else if chars[i] == '/' && n - i > 2 && chars[i + 1] == '/' && chars[i + 2] == '@' {
            proof {
                lemma_line_end_bounds(chars@, (i + 3) as nat);
            }
            push_str(&mut out, "//@");
            i += 3;
            let start = i;
            while i < n && chars[i] != '\n'
                invariant
                    n == chars.len(),
                    start <= i <= n,
                    line_end(chars@, i as nat) == line_end(chars@, start as nat),
                decreases n - i,
            {
                i += 1;
            }
            let content = sub_chars(&chars, start, i);
            let piece = line_piece_chars(&content);
            push_all(&mut out, &piece);
            if i < n && chars[i] == '\n' {
                push_str(&mut out, "\n");
                i += 1;
            }
        } else {
            out.push(chars[i]);
            i += 1;
        }
        assert(out@ + scan(chars@, i as nat) =~= o + scan(chars@, i0 as nat));
    }
    chars_string(&out)
}


/// A single annotation comment formatted: the trimmed text when it is one `/*@ ... */` or
/// one `//@` line, else the input unchanged.
pub open spec fn single_text(s: Seq<char>) -> Seq<char> {
    let t = trim(s);
    if "/*@"@.is_prefix_of(t) && "*/"@.is_suffix_of(t) {
        file_text(t)
    } else if "//@"@.is_prefix_of(t) && !t.contains('\n') {
        file_text(t)
    } else {
        s
    }
}

/// Does `s` end with `p`?
fn ends_with(s: &Vec<char>, p: &str) -> (b: bool)
    ensures
        b == p@.is_suffix_of(s@),
{
    let pv = str_chars(p);
    if pv.len() > s.len() {
        return false;
    }
    let start = s.len() - pv.len();
    let b = matches_at(s, start, &pv);
    proof {
        if b {
            assert forall|i: int| 0 <= i < pv@.len() implies pv@[i] == s@[s@.len() - pv@.len() + i] by {
                assert(s@.subrange(start as int, start + pv@.len())[i] == s@[start + i]);
            }
        } else if p@.is_suffix_of(s@) {
            assert(s@.subrange(start as int, start + pv@.len()) =~= pv@);
        }
    }
    b
}

/// Does `s` hold the character `c`?
fn has_char(s: &Vec<char>, c: char) -> (b: bool)
    ensures
        b == s@.contains(c),
{
    let mut i: usize = 0;
    while i < s.len()
        invariant
            i <= s.len(),
            forall|j: int| 0 <= j < i ==> s@[j] != c,
        decreases s.len() - i,
    {
        if s[i] == c {
            assert(s@[i as int] == c);
            return true;
        }
        i += 1;
    }
    false
}

/// Formats one annotation comment given with its delimiters.
pub fn format_single_annotation(input: &str) -> (out: String)
    ensures
        out@ == single_text(input@),
{
    let chars = str_chars(input);
    let trimmed = trim_chars(&chars);
    let text = chars_string(&trimmed);
    if starts_with(&trimmed, "/*@") && ends_with(&trimmed, "*/") {
        return format_acsl_annotations(text.as_str());
    }
    if starts_with(&trimmed, "//@") && !has_char(&trimmed, '\n') {
        return format_acsl_annotations(text.as_str());
    }
    String::from_str(input)
}

} // verus!