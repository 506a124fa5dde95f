use vstd::prelude::*;
use crate::lexer::{digits_end, exists_text, first_op, forall_text, ident_continue, ident_end, ident_start, lemma_first_op_occurs, lemma_lex_step_advances, lex_step, operator_spellings, punct_kind, skip_ws_from, word_kind, SpecToken, SpecTokenKind};
use crate::parser::{lex_from, lex_stream};
use crate::text::{is_digit, is_ws, occurs_at};

verus! {

/// The source text that a token kind stands for.
pub open spec fn spell(k: SpecTokenKind) -> Seq<char> {
    match k {
        SpecTokenKind::Ident(n) => n,
        SpecTokenKind::Number(n) => n,
        SpecTokenKind::Op(n) => n,
        SpecTokenKind::LParen => seq!['('],
        SpecTokenKind::RParen => seq![')'],
        SpecTokenKind::LBracket => seq!['['],
        SpecTokenKind::RBracket => seq![']'],
        SpecTokenKind::Comma => seq![','],
        SpecTokenKind::Semicolon => seq![';'],
        SpecTokenKind::Question => seq!['?'],
        SpecTokenKind::Colon => seq![':'],
        SpecTokenKind::KwForall => forall_text(),
        SpecTokenKind::KwExists => exists_text(),
        SpecTokenKind::End => Seq::empty(),
    }
}

/// The source texts of a list of tokens, one after another.
pub open spec fn spell_all(toks: Seq<SpecToken>) -> Seq<char>
    decreases toks.len(),
{
    if toks.len() == 0 {
        Seq::empty()
    } else {
        spell(toks[0].kind) + spell_all(toks.drop_first())
    }
}

/// The text with every whitespace character left out.
pub open spec fn without_ws(s: Seq<char>) -> Seq<char>
    decreases s.len(),
{
    if s.len() == 0 {
        Seq::empty()
    } else if is_ws(s[0]) {
        without_ws(s.drop_first())
    } else {
        seq![s[0]] + without_ws(s.drop_first())
    }
}

proof fn lemma_without_ws_add(a: Seq<char>, b: Seq<char>)
    ensures
        without_ws(a + b) == without_ws(a) + without_ws(b),
    decreases a.len(),
{
    if a.len() == 0 {
        assert(a + b =~= b);
    } else {
        assert((a + b).drop_first() =~= a.drop_first() + b);
        assert((a + b)[0] == a[0]);
        lemma_without_ws_add(a.drop_first(), b);
        if !is_ws(a[0]) {
            assert(seq![a[0]] + (without_ws(a.drop_first()) + without_ws(b)) =~= seq![a[0]]
                + without_ws(a.drop_first()) + without_ws(b));
        }
    }
}

proof fn lemma_without_ws_none(s: Seq<char>)
    requires
        forall|j: int| 0 <= j < s.len() ==> !is_ws(#[trigger] s[j]),
    ensures
        without_ws(s) == s,
    decreases s.len(),
{
    if s.len() > 0 {
        assert(!is_ws(s[0]));
        lemma_without_ws_none(s.drop_first());
        assert(s =~= seq![s[0]] + s.drop_first());
    }
}

proof fn lemma_without_ws_all(s: Seq<char>)
    requires
        forall|j: int| 0 <= j < s.len() ==> is_ws(#[trigger] s[j]),
    ensures
        without_ws(s) == Seq::<char>::empty(),
    decreases s.len(),
{
    if s.len() > 0 {
        assert(is_ws(s[0]));
        lemma_without_ws_all(s.drop_first());
    }
}

proof fn lemma_skip_ws_all(s: Seq<char>, i: nat)
    requires
        i <= s.len(),
    ensures
        forall|j: int| i <= j < skip_ws_from(s, i) ==> is_ws(#[trigger] s[j]),
    decreases s.len() - i,
{
    if i < s.len() && is_ws(s[i as int]) {
        lemma_skip_ws_all(s, i + 1);
    }
}

proof fn lemma_ident_run(s: Seq<char>, i: nat)
    requires
        i <= s.len(),
    ensures
        i <= ident_end(s, i) <= s.len(),
        forall|j: int| i <= j < ident_end(s, i) ==> ident_continue(#[trigger] s[j]),
    decreases s.len() - i,
{
    if i < s.len() && ident_continue(s[i as int]) {
        lemma_ident_run(s, i + 1);
    }
}

proof fn lemma_digit_run(s: Seq<char>, i: nat)
    requires
        i <= s.len(),
    ensures
        i <= digits_end(s, i) <= s.len(),
        forall|j: int| i <= j < digits_end(s, i) ==> is_digit(#[trigger] s[j]),
    decreases s.len() - i,
{
    if i < s.len() && is_digit(s[i as int]) {
        lemma_digit_run(s, i + 1);
    }
}

/// No operator spelling holds whitespace.
proof fn lemma_ops_no_ws()
    ensures
        forall|k: int, j: int|
            0 <= k < 18 && 0 <= j < operator_spellings()[k].len() ==> !is_ws(
                #[trigger] operator_spellings()[k][j],
            ),
        operator_spellings().len() == 18,
{
    let ops = operator_spellings();
    assert(ops[0] == seq!['<', '=', '=', '>']);
    assert(ops[1] == seq!['=', '=', '>']);
    assert(ops[2] == seq!['&', '&']);
    assert(ops[3] == seq!['|', '|']);
    assert(ops[4] == seq!['=', '=']);
    assert(ops[5] == seq!['!', '=']);
    assert(ops[6] == seq!['<', '=']);
    assert(ops[7] == seq!['>', '=']);
    assert(ops[8] == seq!['-', '>']);
    assert(ops[9] == seq!['<']);
    assert(ops[10] == seq!['>']);
    assert(ops[11] == seq!['+']);
    assert(ops[12] == seq!['-']);
    assert(ops[13] == seq!['*']);
    assert(ops[14] == seq!['/']);
    assert(ops[15] == seq!['%']);
    assert(ops[16] == seq!['!']);
    assert(ops[17] == seq!['.']);
}

/// One step of reading: what it skips is whitespace, and the token it reads is spelled by the
/// characters it reads, none of them whitespace.
proof fn lemma_step_spells(s: Seq<char>, i: nat)
    requires
        i <= s.len(),
        lex_step(s, i) is Ok,
    ensures
        ({
            let (t, j) = lex_step(s, i)->Ok_0;
            &&& i <= t.pos <= j <= s.len()
            &&& forall|k: int| i <= k < t.pos ==> is_ws(#[trigger] s[k])
            &&& s.subrange(t.pos as int, j as int) == spell(t.kind)
            &&& without_ws(spell(t.kind)) == spell(t.kind)
            &&& (t.kind is End <==> t.pos == s.len())
            &&& (!(t.kind is End) ==> t.pos < j)
        }),
{
    lemma_lex_step_advances(s, i);
    lemma_skip_ws_all(s, i);
    let p = skip_ws_from(s, i);
    let (t, j) = lex_step(s, i)->Ok_0;
    if p < s.len() {
        if ident_start(s[p as int]) {
            lemma_ident_run(s, p + 1);
            let n = s.subrange(p as int, j as int);
            assert forall|k: int| 0 <= k < n.len() implies !is_ws(#[trigger] n[k]) by {
                assert(n[k] == s[p + k]);
            }
            lemma_without_ws_none(n);
            assert(spell(word_kind(n)) == n);
        } else if is_digit(s[p as int]) {
            lemma_digit_run(s, p + 1);
            let n = s.subrange(p as int, j as int);
            assert forall|k: int| 0 <= k < n.len() implies !is_ws(#[trigger] n[k]) by {
                assert(n[k] == s[p + k]);
            }
            lemma_without_ws_none(n);
        } else if punct_kind(s[p as int]) is Some {
            let n = s.subrange(p as int, j as int);
            assert(n =~= seq![s[p as int]]);
            assert(spell(t.kind) == n);
            lemma_without_ws_none(n);
        } else {
            lemma_first_op_occurs(s, p, operator_spellings());
            lemma_ops_no_ws();
            let op = first_op(s, p, operator_spellings())->0;
            let k = choose|k: int| 0 <= k < operator_spellings().len() && operator_spellings()[k] == op;
            assert forall|m: int| 0 <= m < op.len() implies !is_ws(#[trigger] op[m]) by {
                assert(!is_ws(operator_spellings()[k][m]));
            }
            lemma_without_ws_none(op);
        }
    } else {
        assert(s.subrange(t.pos as int, j as int) =~= Seq::<char>::empty());
    }
}

/// Read from index `i` without error, the tokens spell the rest of the text with its
/// whitespace left out, each stands where its spelling stands, and they come at increasing
/// positions, all at or after `i`.
proof fn lemma_tokens_spell(s: Seq<char>, i: nat)
    requires
        i <= s.len(),
        lex_from(s, i).err is None,
    ensures
        spell_all(lex_from(s, i).toks) == without_ws(s.subrange(i as int, s.len() as int)),
        forall|k: int|
            0 <= k < lex_from(s, i).toks.len() ==> i <= (#[trigger] lex_from(s, i).toks[k]).pos
                && occurs_at(s, spell(lex_from(s, i).toks[k].kind), lex_from(s, i).toks[k].pos as int),
        forall|a: int, b: int|
            0 <= a < b < lex_from(s, i).toks.len() ==> (#[trigger] lex_from(s, i).toks[a]).pos
                < (#[trigger] lex_from(s, i).toks[b]).pos,
    decreases s.len() + 1 - i,
{
    let (t, j) = lex_step(s, i)->Ok_0;
    lemma_step_spells(s, i);
    let ts = lex_from(s, i);
    let pre = s.subrange(i as int, t.pos as int);
    let mid = s.subrange(t.pos as int, j as int);
    let post = s.subrange(j as int, s.len() as int);
    lemma_without_ws_all(pre);
    assert(s.subrange(i as int, s.len() as int) =~= pre + mid + post);
    lemma_without_ws_add(pre + mid, post);
    lemma_without_ws_add(pre, mid);
    assert(occurs_at(s, spell(t.kind), t.pos as int));
    if t.kind is End {
        assert(post =~= Seq::<char>::empty());
        assert(ts.toks =~= seq![t]);
        assert(spell_all(ts.toks.drop_first()) == Seq::<char>::empty());
    } else {
        lemma_tokens_spell(s, j);
        let rest = lex_from(s, j);
        assert(ts.toks == seq![t] + rest.toks);
        assert(ts.toks.drop_first() =~= rest.toks);
        assert forall|k: int| 0 <= k < ts.toks.len() implies i <= (#[trigger] ts.toks[k]).pos
            && occurs_at(s, spell(ts.toks[k].kind), ts.toks[k].pos as int) by {
            if k > 0 {
                assert(ts.toks[k] == rest.toks[k - 1]);
            }
        }
        assert forall|a: int, b: int| 0 <= a < b < ts.toks.len() implies (#[trigger] ts.toks[a]).pos
            < (#[trigger] ts.toks[b]).pos by {
            assert(ts.toks[b] == rest.toks[b - 1]);
            if a > 0 {
                assert(ts.toks[a] == rest.toks[a - 1]);
            }
        }
    }
}

/// The tokens of a text that reads without error spell the text with its whitespace left out,
/// each token stands where its spelling stands, and the tokens come at increasing positions,
/// the end marker last at the text's length.
pub proof fn law_tokens_spell_the_text(s: Seq<char>)
    requires
        lex_stream(s).err is None,
    ensures
        spell_all(lex_stream(s).toks) == without_ws(s),
        forall|k: int|
            0 <= k < lex_stream(s).toks.len() ==> occurs_at(
                s,
                spell((#[trigger] lex_stream(s).toks[k]).kind),
                lex_stream(s).toks[k].pos as int,
            ),
        forall|a: int, b: int|
            0 <= a < b < lex_stream(s).toks.len() ==> (#[trigger] lex_stream(s).toks[a]).pos
                < (#[trigger] lex_stream(s).toks[b]).pos,
{
    lemma_tokens_spell(s, 0);
    assert(s.subrange(0, s.len() as int) =~= s);
}

} // verus!
