use vstd::prelude::*;
use crate::error::{decimal, decimal_chars, Error, SpecError};
use crate::text::{chars_string, is_alpha, is_ascii_alphabetic, is_ascii_digit, is_digit, is_whitespace, is_ws, matches_at, occurs_at, push_all, push_str, str_chars};

verus! {

/// The kinds of token of the expression language.
#[derive(Debug, Clone, PartialEq, Eq)]
pub enum TokenKind {
    Ident(String),
    Number(String),
    Op(String),
    LParen,
    RParen,
    LBracket,
    RBracket,
    Comma,
    Semicolon,
    Question,
    Colon,
    KwForall,
    KwExists,
    End,
}

/// The model of a [`TokenKind`]: texts are character sequences.
pub enum SpecTokenKind {
    Ident(Seq<char>),
    Number(Seq<char>),
    Op(Seq<char>),
    LParen,
    RParen,
    LBracket,
    RBracket,
    Comma,
    Semicolon,
    Question,
    Colon,
    KwForall,
    KwExists,
    End,
}

impl View for TokenKind {
    type V = SpecTokenKind;

    open spec fn view(&self) -> SpecTokenKind {
        match self {
            TokenKind::Ident(s) => SpecTokenKind::Ident(s@),
            TokenKind::Number(s) => SpecTokenKind::Number(s@),
            TokenKind::Op(s) => SpecTokenKind::Op(s@),
            TokenKind::LParen => SpecTokenKind::LParen,
            TokenKind::RParen => SpecTokenKind::RParen,
            TokenKind::LBracket => SpecTokenKind::LBracket,
            TokenKind::RBracket => SpecTokenKind::RBracket,
            TokenKind::Comma => SpecTokenKind::Comma,
            TokenKind::Semicolon => SpecTokenKind::Semicolon,
            TokenKind::Question => SpecTokenKind::Question,
            TokenKind::Colon => SpecTokenKind::Colon,
            TokenKind::KwForall => SpecTokenKind::KwForall,
            TokenKind::KwExists => SpecTokenKind::KwExists,
            TokenKind::End => SpecTokenKind::End,
        }
    }
}

/// A token and the index of its first character.
#[derive(Debug, Clone)]
pub struct Token {
    pub kind: TokenKind,
    pub pos: usize,
}

/// The model of a [`Token`].
pub struct SpecToken {
    pub kind: SpecTokenKind,
    pub pos: nat,
}

impl View for Token {
    type V = SpecToken;

    open spec fn view(&self) -> SpecToken {
        SpecToken { kind: self.kind@, pos: self.pos as nat }
    }
}

/// Reads tokens from a text, one at a time.
pub struct Lexer {
    chars: Vec<char>,
    idx: usize,
}

impl View for Lexer {
    type V = (Seq<char>, nat);

    /// The text and the index of the first character not yet read.
    closed spec fn view(&self) -> (Seq<char>, nat) {
        (self.chars@, self.idx as nat)
    }
}

/// Characters that may begin a name.
pub open spec fn ident_start(c: char) -> bool {
    is_alpha(c) || c == '_' || c == '\\'
}

/// Characters that may continue a name.
pub open spec fn ident_continue(c: char) -> bool {
    is_alpha(c) || is_digit(c) || c == '_' || c == '\\'
}

/// The first index at or after `i` that does not hold whitespace.
pub open spec fn skip_ws_from(s: Seq<char>, i: nat) -> nat
    decreases s.len() - i,
{
    if i < s.len() && is_ws(s[i as int]) {
        skip_ws_from(s, i + 1)
    } else {
        i
    }
}

/// The first index at or after `i` that does not continue a name.
pub open spec fn ident_end(s: Seq<char>, i: nat) -> nat
    decreases s.len() - i,
{
    if i < s.len() && ident_continue(s[i as int]) {
        ident_end(s, i + 1)
    } else {
        i
    }
}

/// The first index at or after `i` that does not hold a decimal digit.
pub open spec fn digits_end(s: Seq<char>, i: nat) -> nat
    decreases s.len() - i,
{
    if i < s.len() && is_digit(s[i as int]) {
        digits_end(s, i + 1)
    } else {
        i
    }
}

/// The operator spellings, longest alternatives first, in the order they are tried.
pub open spec fn operator_spellings() -> Seq<Seq<char>> {
    seq![
        seq!['<', '=', '=', '>'],
        seq!['=', '=', '>'],
        seq!['&', '&'],
        seq!['|', '|'],
        seq!['=', '='],
        seq!['!', '='],
        seq!['<', '='],
        seq!['>', '='],
        seq!['-', '>'],
        seq!['<'],
        seq!['>'],
        seq!['+'],
        seq!['-'],
        seq!['*'],
        seq!['/'],
        seq!['%'],
        seq!['!'],
        seq!['.'],
    ]
}

/// The first spelling of `ops` that occurs in `s` at `i`.
pub open spec fn first_op(s: Seq<char>, i: nat, ops: Seq<Seq<char>>) -> Option<Seq<char>>
    decreases ops.len(),
{
    if ops.len() == 0 {
        None
    } else if occurs_at(s, ops[0], i as int) {
        Some(ops[0])
    } else {
        first_op(s, i, ops.drop_first())
    }
}

/// The token that a single punctuation character stands for.
pub open spec fn punct_kind(c: char) -> Option<SpecTokenKind> {
    if c == '(' {
        Some(SpecTokenKind::LParen)
    } else if c == ')' {
        Some(SpecTokenKind::RParen)
    } else if c == '[' {
        Some(SpecTokenKind::LBracket)
    } else if c == ']' {
        Some(SpecTokenKind::RBracket)
    } else if c == ',' {
        Some(SpecTokenKind::Comma)
    } else if c == ';' {
        Some(SpecTokenKind::Semicolon)
    } else if c == '?' {
        Some(SpecTokenKind::Question)
    } else if c == ':' {
        Some(SpecTokenKind::Colon)
    } else {
        None
    }
}

/// A name, or the quantifier keyword it spells.
pub open spec fn word_kind(text: Seq<char>) -> SpecTokenKind {
    if text == forall_text() {
        SpecTokenKind::KwForall
    } else if text == exists_text() {
        SpecTokenKind::KwExists
    } else {
        SpecTokenKind::Ident(text)
    }
}

/// The spelling of the `\\forall` keyword.
pub open spec fn forall_text() -> Seq<char> {
    seq!['\\', 'f', 'o', 'r', 'a', 'l', 'l']
}

/// The spelling of the `\\exists` keyword.
pub open spec fn exists_text() -> Seq<char> {
    seq!['\\', 'e', 'x', 'i', 's', 't', 's']
}

/// The message for a character that starts no token.
pub open spec fn unexpected_char_message(c: char, at: nat) -> Seq<char> {
    "unexpected character '"@ + seq![c] + "' at "@ + decimal(at)
}

/// Reading one token of `s` from index `i`: the token and the index after it, or why there is none.
pub open spec fn lex_step(s: Seq<char>, i: nat) -> Result<(SpecToken, nat), SpecError> {
    let p = skip_ws_from(s, i);
    if p >= s.len() {
        Ok((SpecToken { kind: SpecTokenKind::End, pos: p }, p))
    } else if ident_start(s[p as int]) {
        let e = ident_end(s, p + 1);
        Ok((SpecToken { kind: word_kind(s.subrange(p as int, e as int)), pos: p }, e))
    } else if is_digit(s[p as int]) {
        let e = digits_end(s, p + 1);
        Ok((SpecToken { kind: SpecTokenKind::Number(s.subrange(p as int, e as int)), pos: p }, e))
    } else if punct_kind(s[p as int]) is Some {
        Ok((SpecToken { kind: punct_kind(s[p as int])->0, pos: p }, p + 1))
    } else {
        match first_op(s, p, operator_spellings()) {
            Some(op) => Ok((SpecToken { kind: SpecTokenKind::Op(op), pos: p }, p + op.len())),
            None => Err(SpecError::Lex(unexpected_char_message(s[p as int], p))),
        }
    }
}

/// `skip_ws_from` stays within the text and does not go back.
pub proof fn lemma_skip_ws_bounds(s: Seq<char>, i: nat)
    requires
        i <= s.len(),
    ensures
        i <= skip_ws_from(s, i) <= s.len(),
        skip_ws_from(s, i) < s.len() ==> !is_ws(s[skip_ws_from(s, i) as int]),
    decreases s.len() - i,
{
    if i < s.len() && is_ws(s[i as int]) {
        lemma_skip_ws_bounds(s, i + 1);
    }
}

proof fn lemma_ident_end_bounds(s: Seq<char>, i: nat)
    requires
        i <= s.len(),
    ensures
        i <= ident_end(s, i) <= s.len(),
    decreases s.len() - i,
{
    if i < s.len() && ident_continue(s[i as int]) {
        lemma_ident_end_bounds(s, i + 1);
    }
}

proof fn lemma_digits_end_bounds(s: Seq<char>, i: nat)
    requires
        i <= s.len(),
    ensures
        i <= digits_end(s, i) <= s.len(),
    decreases s.len() - i,
{
    if i < s.len() && is_digit(s[i as int]) {
        lemma_digits_end_bounds(s, i + 1);
    }
}

pub proof fn lemma_first_op_occurs(s: Seq<char>, i: nat, ops: Seq<Seq<char>>)
    ensures
        first_op(s, i, ops) matches Some(op) ==> occurs_at(s, op, i as int) && ops.contains(op),
    decreases ops.len(),
{
    if ops.len() > 0 && !occurs_at(s, ops[0], i as int) {
        lemma_first_op_occurs(s, i, ops.drop_first());
        if first_op(s, i, ops.drop_first()) is Some {
            let op = first_op(s, i, ops.drop_first())->0;
            let k = choose|k: int| 0 <= k < ops.drop_first().len() && ops.drop_first()[k] == op;
            assert(ops[k + 1] == op);
        }
    } else if ops.len() > 0 {
        assert(ops[0] == ops[0]);
    }
}

/// A successful step reads at least one character unless it reports the end, and stays in the text.
pub proof fn lemma_lex_step_advances(s: Seq<char>, i: nat)
    requires
        i <= s.len(),
    ensures
        lex_step(s, i) matches Ok((tok, j)) ==> {
            &&& tok.pos == skip_ws_from(s, i)
            &&& i <= tok.pos <= j <= s.len()
            &&& (tok.kind is End <==> tok.pos == s.len())
            &&& (!(tok.kind is End) ==> tok.pos < j)
        },
        lex_step(s, i) is Err ==> skip_ws_from(s, i) < s.len(),
{
    lemma_skip_ws_bounds(s, i);
    let p = skip_ws_from(s, i);
    if p < s.len() {
        lemma_ident_end_bounds(s, p + 1);
        lemma_digits_end_bounds(s, p + 1);
        lemma_first_op_occurs(s, p, operator_spellings());
        if first_op(s, p, operator_spellings()) is Some {
            let op = first_op(s, p, operator_spellings())->0;
            assert(op.len() > 0) by {
                let k = choose|k: int|
                    0 <= k < operator_spellings().len() && operator_spellings()[k] == op;
            }
        }
    }
}

/// A step that reads a token other than the end moves forward and stays in the text.
pub proof fn lemma_lex_step_progress(s: Seq<char>, i: nat)
    ensures
        lex_step(s, i) matches Ok((tok, j)) ==> (!(tok.kind is End) ==> i < j <= s.len()),
{
    if i <= s.len() {
        lemma_lex_step_advances(s, i);
    }
}

/// The operator spellings, in the order they are tried.
fn operators() -> (v: Vec<Vec<char>>)
    ensures
        v@.len() == operator_spellings().len(),
        forall|k: int| 0 <= k < v@.len() ==> #[trigger] v@[k]@ == operator_spellings()[k],
{
    let v = vec![
        vec!['<', '=', '=', '>'],
        vec!['=', '=', '>'],
        vec!['&', '&'],
        vec!['|', '|'],
        vec!['=', '='],
        vec!['!', '='],
        vec!['<', '='],
        vec!['>', '='],
        vec!['-', '>'],
        vec!['<'],
        vec!['>'],
        vec!['+'],
        vec!['-'],
        vec!['*'],
        vec!['/'],
        vec!['%'],
        vec!['!'],
        vec!['.'],
    ];
    assert forall|k: int| 0 <= k < v@.len() implies #[trigger] v@[k]@ == operator_spellings()[k] by {
        assert(v@[k]@ =~= operator_spellings()[k]);
    }
    v
}

pub fn is_ident_start(ch: char) -> (b: bool)
    ensures
        b == ident_start(ch),
{
    is_ascii_alphabetic(ch) || ch == '_' || ch == '\\'
}

pub fn is_ident_continue(ch: char) -> (b: bool)
    ensures
        b == ident_continue(ch),
{
    is_ascii_alphabetic(ch) || is_ascii_digit(ch) || ch == '_' || ch == '\\'
}

/// Are the two character vectors equal?
pub fn same_chars(a: &Vec<char>, b: &Vec<char>) -> (r: bool)
    ensures
        r == (a@ == b@),
{
    if a.len() != b.len() {
        return false;
    }
    let mut i: usize = 0;
    while i < a.len()
        invariant
            a.len() == b.len(),
            i <= a.len(),
            forall|j: int| 0 <= j < i ==> a@[j] == b@[j],
        decreases a.len() - i,
    {
        if a[i] != b[i] {
            return false;
        }
        i += 1;
    }
    assert(a@ =~= b@);
    true
}

impl Lexer {
    /// The cursor stays within the text.
    #[verifier::type_invariant]
    closed spec fn cursor_in_text(self) -> bool {
        self.idx <= self.chars.len()
    }

    pub fn new(input: &str) -> (l: Lexer)
        ensures
            l@ == (input@, 0nat),
    {
        Lexer { chars: str_chars(input), idx: 0 }
    }

    /// The characters in `[start, end)`.
    fn slice(&self, start: usize, end: usize) -> (v: Vec<char>)
        requires
            start <= end <= self@.0.len(),
        ensures
            v@ == self@.0.subrange(start as int, end as int),
    {
        let mut v: Vec<char> = Vec::new();
        let mut k = start;
        while k < end
            invariant
                start <= k <= end <= self.chars.len(),
                v@ == self.chars@.subrange(start as int, k as int),
            decreases end - k,
        {
            v.push(self.chars[k]);
            k += 1;
            assert(v@ =~= self.chars@.subrange(start as int, k as int));
        }
        v
    }

    fn skip_ws(&mut self)
        ensures
            final(self)@.0 == old(self)@.0,
            final(self)@.1 == skip_ws_from(old(self)@.0, old(self)@.1),
    {
        proof {
            use_type_invariant(&*self);
        }
        while self.idx < self.chars.len() && is_whitespace(self.chars[self.idx])
            invariant
                self.idx <= self.chars.len(),
                skip_ws_from(self.chars@, self.idx as nat) == skip_ws_from(
                    old(self).chars@,
                    old(self).idx as nat,
                ),
                self.chars@ == old(self).chars@,
            decreases self.chars.len() - self.idx,
        {
            self.idx += 1;
        }
    }

    /// Reads `s` if the text continues with it at the cursor.
    fn match_str(&mut self, s: &Vec<char>) -> (b: bool)
        ensures
            final(self)@.0 == old(self)@.0,
            b == occurs_at(old(self)@.0, s@, old(self)@.1 as int),
            final(self)@.1 == if b {
                old(self)@.1 + s@.len()
            } else {
                old(self)@.1
            },
    {
        proof {
            use_type_invariant(&*self);
        }
        if matches_at(&self.chars, self.idx, s) {
            let n = self.chars.len();
            assert(self.idx + s.len() <= n);
            self.idx = self.idx + s.len();
            true
        } else {
            false
        }
    }

    fn lex_operator_or_error(&mut self, pos: usize) -> (r: Result<Token, Error>)
        requires
            old(self)@.1 == pos < old(self)@.0.len(),
        ensures
            final(self)@.0 == old(self)@.0,
            match first_op(old(self)@.0, pos as nat, operator_spellings()) {
                Some(op) => r matches Ok(t) && t@ == (SpecToken {
                    kind: SpecTokenKind::Op(op),
                    pos: pos as nat,
                }) && final(self)@.1 == pos + op.len(),
                None => r matches Err(e) && e@ == SpecError::Lex(
                    unexpected_char_message(old(self)@.0[pos as int], pos as nat),
                ) && final(self)@.1 == pos,
            },
    {
        let ops = operators();
        let mut k: usize = 0;
        assert(operator_spellings().skip(0) =~= operator_spellings());
        while k < ops.len()
            invariant
                k <= ops.len() == operator_spellings().len(),
                forall|j: int| 0 <= j < ops@.len() ==> #[trigger] ops@[j]@ == operator_spellings()[j],
                self.chars@ == old(self).chars@,
                self.idx == pos < self.chars.len(),
                first_op(self.chars@, pos as nat, operator_spellings()) == first_op(
                    self.chars@,
                    pos as nat,
                    operator_spellings().skip(k as int),
                ),
            decreases ops.len() - k,
        {
            let ghost rest = operator_spellings().skip(k as int);
            assert(rest[0] == ops@[k as int]@);
            assert(rest.drop_first() =~= operator_spellings().skip(k + 1));
            if self.match_str(&ops[k]) {
                let mut text: Vec<char> = Vec::new();
                push_all(&mut text, &ops[k]);
                return Ok(Token { kind: TokenKind::Op(chars_string(&text)), pos });
            }
            k += 1;
        }
        assert(operator_spellings().skip(k as int).len() == 0);
        let c = self.chars[self.idx];
        let mut msg: Vec<char> = Vec::new();
        push_str(&mut msg, "unexpected character '");
        msg.push(c);
        push_str(&mut msg, "' at ");
        let digits = decimal_chars(self.idx);
        push_all(&mut msg, &digits);
        proof {
            assert(msg@ =~= unexpected_char_message(c, pos as nat));
        }
        Err(Error::Lex(chars_string(&msg)))
    }

    /// Reads the next token.
    pub fn next_token(&mut self) -> (r: Result<Token, Error>)
        ensures
            final(self)@.0 == old(self)@.0,
            final(self)@.1 <= final(self)@.0.len(),
            match lex_step(old(self)@.0, old(self)@.1) {
                Ok((tok, j)) => r matches Ok(t) && t@ == tok && final(self)@.1 == j,
                Err(e) => r matches Err(er) && er@ == e && final(self)@.1 == skip_ws_from(
                    old(self)@.0,
                    old(self)@.1,
                ),
            },
    {
        proof {
            use_type_invariant(&*self);
            lemma_lex_step_advances(self.chars@, self.idx as nat);
        }
        self.skip_ws();
        let pos = self.idx;
        proof {
            lemma_skip_ws_bounds(self.chars@, old(self).idx as nat);
        }
        if self.idx >= self.chars.len() {
            return Ok(Token { kind: TokenKind::End, pos });
        }
        let ch = self.chars[self.idx];
        if is_ident_start(ch) {
            let start = self.idx;
            self.idx += 1;
            while self.idx < self.chars.len() && is_ident_continue(self.chars[self.idx])
                invariant
                    start < self.idx <= self.chars.len(),
                    self.chars@ == old(self).chars@,
                    ident_end(self.chars@, self.idx as nat) == ident_end(
                        self.chars@,
                        start as nat + 1,
                    ),
                decreases self.chars.len() - self.idx,
            {
                self.idx += 1;
            }
            let text = self.slice(start, self.idx);
            let fa = vec!['\\', 'f', 'o', 'r', 'a', 'l', 'l'];
            let ex = vec!['\\', 'e', 'x', 'i', 's', 't', 's'];
            assert(fa@ =~= forall_text());
            assert(ex@ =~= exists_text());
            let kind = if same_chars(&text, &fa) {
                TokenKind::KwForall
            } else if same_chars(&text, &ex) {
                TokenKind::KwExists
            } else {
                TokenKind::Ident(chars_string(&text))
            };
            return Ok(Token { kind, pos });
        }
        if is_ascii_digit(ch) {
            let start = self.idx;
            self.idx += 1;
            while self.idx < self.chars.len() && is_ascii_digit(self.chars[self.idx])
                invariant
                    start < self.idx <= self.chars.len(),
                    self.chars@ == old(self).chars@,
                    digits_end(self.chars@, self.idx as nat) == digits_end(
                        self.chars@,
                        start as nat + 1,
                    ),
                decreases self.chars.len() - self.idx,
            {
                self.idx += 1;
            }
            let text = self.slice(start, self.idx);
            return Ok(Token { kind: TokenKind::Number(chars_string(&text)), pos });
        }
        let kind = if ch == '(' {
            TokenKind::LParen
        } else if ch == ')' {
            TokenKind::RParen
        } else if ch == '[' {
            TokenKind::LBracket
        } else if ch == ']' {
            TokenKind::RBracket
        } else if ch == ',' {
            TokenKind::Comma
        } else if ch == ';' {
            TokenKind::Semicolon
        } else if ch == '?' {
            TokenKind::Question
        } else if ch == ':' {
            TokenKind::Colon
        } else {
            return self.lex_operator_or_error(pos);
        };
        self.idx += 1;
        Ok(Token { kind, pos })
    }
}

} // verus!
