use vstd::prelude::*;

verus! {

/// `String::push` appends one character.
pub assume_specification[ String::push ](s: &mut String, ch: char)
    ensures
        final(s)@ == old(s)@.push(ch),
;

/// Unicode `White_Space`, the set that `char::is_whitespace` and `str::trim` use.
pub open spec fn is_ws(c: char) -> bool {
    ||| ('\u{9}' <= c && c <= '\u{d}')
    ||| c == ' '
    ||| c == '\u{85}'
    ||| c == '\u{a0}'
    ||| c == '\u{1680}'
    ||| ('\u{2000}' <= c && c <= '\u{200a}')
    ||| c == '\u{2028}'
    ||| c == '\u{2029}'
    ||| c == '\u{202f}'
    ||| c == '\u{205f}'
    ||| c == '\u{3000}'
}

pub fn is_whitespace(c: char) -> (b: bool)
    ensures
        b == is_ws(c),
{
    ('\u{9}' <= c && c <= '\u{d}') || c == ' ' || c == '\u{85}' || c == '\u{a0}' || c == '\u{1680}'
        || ('\u{2000}' <= c && c <= '\u{200a}') || c == '\u{2028}' || c == '\u{2029}' || c
        == '\u{202f}' || c == '\u{205f}' || c == '\u{3000}'
}

pub open spec fn is_digit(c: char) -> bool {
    '0' <= c && c <= '9'
}

pub open spec fn is_alpha(c: char) -> bool {
    ('a' <= c && c <= 'z') || ('A' <= c && c <= 'Z')
}

pub fn is_ascii_digit(c: char) -> (b: bool)
    ensures
        b == is_digit(c),
{
    '0' <= c && c <= '9'
}

pub fn is_ascii_alphabetic(c: char) -> (b: bool)
    ensures
        b == is_alpha(c),
{
    ('a' <= c && c <= 'z') || ('A' <= c && c <= 'Z')
}

/// The characters of a string slice, in order.
pub fn str_chars(s: &str) -> (v: Vec<char>)
    ensures
        v@ == s@,
{
    let mut v: Vec<char> = Vec::new();
    broadcast use vstd::string::group_string_axioms;
    for c in it: s.chars()
        invariant
            v.len() == it.index(),
            forall|j: int| 0 <= j < v.len() ==> v@[j] == it.seq()[j],
    {
        v.push(c);
    }
    assert(v@ =~= s@);
    v
}

/// A string made of the given characters.
pub fn chars_string(v: &Vec<char>) -> (s: String)
    ensures
        s@ == v@,
{
    let mut s = String::new();
    let mut i: usize = 0;
    while i < v.len()
        invariant
            i <= v.len(),
            s@ == v@.subrange(0, i as int),
        decreases v.len() - i,
    {
        s.push(v[i]);
        i += 1;
        assert(s@ =~= v@.subrange(0, i as int));
    }
    assert(v@.subrange(0, v.len() as int) =~= v@);
    s
}


/// Whitespace removed from the front.
pub open spec fn trim_start(s: Seq<char>) -> Seq<char>
    decreases s.len(),
{
    if s.len() > 0 && is_ws(s[0]) {
        trim_start(s.drop_first())
    } else {
        s
    }
}

/// Whitespace removed from the back.
pub open spec fn trim_end(s: Seq<char>) -> Seq<char>
    decreases s.len(),
{
    if s.len() > 0 && is_ws(s.last()) {
        trim_end(s.drop_last())
    } else {
        s
    }
}

/// Whitespace removed from both ends, as `str::trim` does.
pub open spec fn trim(s: Seq<char>) -> Seq<char> {
    trim_end(trim_start(s))
}

/// `p` occurs in `s` at position `i`.
pub open spec fn occurs_at(s: Seq<char>, p: Seq<char>, i: int) -> bool {
    0 <= i && i + p.len() <= s.len() && s.subrange(i, i + p.len()) == p
}

/// `p` occurs somewhere in `s`.
pub open spec fn contains(s: Seq<char>, p: Seq<char>) -> bool {
    exists|i: int| occurs_at(s, p, i)
}

/// Every occurrence of `from`, taken from left to right without overlap, replaced by `to`,
/// as `str::replace` does for a nonempty pattern.
pub open spec fn replace_all(s: Seq<char>, from: Seq<char>, to: Seq<char>) -> Seq<char>
    decreases s.len(),
{
    if from.len() == 0 || s.len() < from.len() {
        s
    } else if s.take(from.len() as int) == from {
        to + replace_all(s.skip(from.len() as int), from, to)
    } else {
        seq![s[0]] + replace_all(s.drop_first(), from, to)
    }
}

/// `s` is whitespace at every position in `[lo, hi)`.
pub open spec fn all_ws(s: Seq<char>, lo: int, hi: int) -> bool {
    forall|j: int| lo <= j < hi ==> is_ws(#[trigger] s[j])
}

proof fn lemma_trim_start_skip(s: Seq<char>, i: int)
    requires
        0 <= i <= s.len(),
        all_ws(s, 0, i),
    ensures
        trim_start(s) == trim_start(s.subrange(i, s.len() as int)),
    decreases i,
{
    if i > 0 {
        lemma_trim_start_skip(s.drop_first(), i - 1);
        assert(s.drop_first().subrange(i - 1, s.len() - 1) =~= s.subrange(i, s.len() as int));
    } else {
        assert(s.subrange(0, s.len() as int) =~= s);
    }
}

proof fn lemma_trim_end_cut(s: Seq<char>, e: int)
    requires
        0 <= e <= s.len(),
        all_ws(s, e, s.len() as int),
    ensures
        trim_end(s) == trim_end(s.subrange(0, e)),
    decreases s.len() - e,
{
    if e < s.len() {
        lemma_trim_end_cut(s.drop_last(), e);
        assert(s.drop_last().subrange(0, e) =~= s.subrange(0, e));
    } else {
        assert(s.subrange(0, e) =~= s);
    }
}

/// The characters of `v` with whitespace removed from both ends.
pub fn trim_chars(v: &Vec<char>) -> (r: Vec<char>)
    ensures
        r@ == trim(v@),
{
    let n = v.len();
    let mut start: usize = 0;
    while start < n && is_whitespace(v[start])
        invariant
            start <= n == v.len(),
            all_ws(v@, 0, start as int),
        decreases n - start,
    {
        start += 1;
    }
    let ghost mid = v@.subrange(start as int, n as int);
    proof {
        lemma_trim_start_skip(v@, start as int);
    }
    assert(trim_start(mid) == mid);
    let mut end: usize = n;
    while end > start && is_whitespace(v[end - 1])
        invariant
            start <= end <= n == v.len(),
            all_ws(v@, end as int, n as int),
        decreases end,
    {
        end -= 1;
    }
    proof {
        lemma_trim_end_cut(mid, end - start);
        assert(mid.subrange(0, end - start) =~= v@.subrange(start as int, end as int));
        let t = v@.subrange(start as int, end as int);
        assert(t.len() == 0 || !is_ws(t.last()));
    }
    let mut r: Vec<char> = Vec::new();
    let mut k: usize = start;
    while k < end
        invariant
            start <= k <= end <= n == v.len(),
            r@ == v@.subrange(start as int, k as int),
        decreases end - k,
    {
        r.push(v[k]);
        k += 1;
        assert(r@ =~= v@.subrange(start as int, k as int));
    }
    r
}

/// Does `p` occur in `s` at position `i`?
pub fn matches_at(s: &Vec<char>, i: usize, p: &Vec<char>) -> (b: bool)
    ensures
        b == occurs_at(s@, p@, i as int),
{
    if i > s.len() || p.len() > s.len() - i {
        return false;
    }
    let mut k: usize = 0;
    while k < p.len()
        invariant
            i + p.len() <= s.len(),
            k <= p.len(),
            s@.subrange(i as int, i + k) == p@.subrange(0, k as int),
        decreases p.len() - k,
    {
        if s[i + k] != p[k] {
            assert(s@.subrange(i as int, i + p.len())[k as int] != p@[k as int]);
            return false;
        }
        k += 1;
        assert(s@.subrange(i as int, i + k) =~= p@.subrange(0, k as int));
    }
    assert(p@.subrange(0, k as int) =~= p@);
    true
}

/// Does `p` occur anywhere in `s`?
pub fn contains_chars(s: &Vec<char>, p: &Vec<char>) -> (b: bool)
    ensures
        b == contains(s@, p@),
{
    if p.len() > s.len() {
        assert forall|i: int| !occurs_at(s@, p@, i) by {}
        return false;
    }
    let lim = s.len() - p.len();
    let mut i: usize = 0;
    loop
        invariant
            p.len() <= s.len(),
            lim == s.len() - p.len(),
            i <= lim,
            forall|j: int| 0 <= j < i ==> !occurs_at(s@, p@, j),
        ensures
            forall|j: int| 0 <= j <= lim ==> !occurs_at(s@, p@, j),
        decreases lim - i,
    {
        if matches_at(s, i, p) {
            return true;
        }
        if i == lim {
            break;
        }
        i += 1;
    }
    assert forall|j: int| !occurs_at(s@, p@, j) by {}
    false
}


/// Appends the characters of `s` to `r`.
pub fn push_all(r: &mut Vec<char>, s: &Vec<char>)
    ensures
        final(r)@ == old(r)@ + s@,
{
    let ghost r0 = r@;
    let mut i: usize = 0;
    while i < s.len()
        invariant
            i <= s.len(),
            r@ == r0 + s@.subrange(0, i as int),
        decreases s.len() - i,
    {
        r.push(s[i]);
        i += 1;
        assert(r@ =~= r0 + s@.subrange(0, i as int));
    }
    assert(s@.subrange(0, i as int) =~= s@);
}

/// Appends the characters of a string slice to `r`.
pub fn push_str(r: &mut Vec<char>, s: &str)
    ensures
        final(r)@ == old(r)@ + s@,
{
    let v = str_chars(s);
    push_all(r, &v);
}

proof fn lemma_skip_facts(s: Seq<char>, i: int, n: int)
    requires
        0 <= i <= s.len(),
        0 <= n,
        i + n <= s.len(),
    ensures
        s.skip(i).take(n) == s.subrange(i, i + n),
        s.skip(i).skip(n) == s.skip(i + n),
        i < s.len() ==> s.skip(i).drop_first() == s.skip(i + 1),
        i < s.len() ==> s.skip(i)[0] == s[i],
{
    assert(s.skip(i).take(n) =~= s.subrange(i, i + n));
    assert(s.skip(i).skip(n) =~= s.skip(i + n));
    if i < s.len() {
        assert(s.skip(i).drop_first() =~= s.skip(i + 1));
    }
}

/// Without an occurrence of the pattern, replacing changes nothing; with one, a shorter
/// replacement makes the text strictly shorter.
pub proof fn lemma_replace_all_len(s: Seq<char>, from: Seq<char>, to: Seq<char>)
    requires
        from.len() > 0,
        to.len() < from.len(),
    ensures
        replace_all(s, from, to).len() <= s.len(),
        contains(s, from) ==> replace_all(s, from, to).len() < s.len(),
        !contains(s, from) ==> replace_all(s, from, to) == s,
    decreases s.len(),
{
    if s.len() < from.len() {
        assert forall|i: int| !occurs_at(s, from, i) by {}
    } else if s.take(from.len() as int) == from {
        lemma_replace_all_len(s.skip(from.len() as int), from, to);
        assert(occurs_at(s, from, 0));
    } else {
        let t = s.drop_first();
        lemma_replace_all_len(t, from, to);
        if contains(s, from) {
            let i = choose|i: int| occurs_at(s, from, i);
            if i == 0 {
                assert(s.take(from.len() as int) =~= s.subrange(0, from.len() as int));
            } else {
                assert(t.subrange(i - 1, i - 1 + from.len()) =~= s.subrange(i, i + from.len()));
                assert(occurs_at(t, from, i - 1));
            }
        } else {
            assert forall|i: int| !occurs_at(t, from, i) by {
                if occurs_at(t, from, i) {
                    assert(t.subrange(i, i + from.len()) =~= s.subrange(i + 1, i + 1 + from.len()));
                    assert(occurs_at(s, from, i + 1));
                }
            }
            assert(seq![s[0]] + t =~= s);
        }
    }
}

/// Every occurrence of `from` replaced by `to`, from left to right without overlap.
pub fn replace_chars(s: &Vec<char>, from: &Vec<char>, to: &Vec<char>) -> (r: Vec<char>)
    requires
        from.len() > 0,
    ensures
        r@ == replace_all(s@, from@, to@),
{
    let mut r: Vec<char> = Vec::new();
    let mut i: usize = 0;
    let n = s.len();
    proof {
        assert(s@.skip(0) =~= s@);
    }
    while i < n
        invariant
            i <= n == s.len(),
            from.len() > 0,
            r@ + replace_all(s@.skip(i as int), from@, to@) == replace_all(s@, from@, to@),
        decreases n - i,
    {
        let ghost rest = s@.skip(i as int);
        if from.len() <= n - i && matches_at(s, i, from) {
            proof {
                lemma_skip_facts(s@, i as int, from.len() as int);
            }
            let ghost r0 = r@;
            push_all(&mut r, to);
            i += from.len();
            assert(r@ + replace_all(s@.skip(i as int), from@, to@) =~= r0 + (to@ + replace_all(
                s@.skip(i as int),
                from@,
                to@,
            )));
        } else {
            proof {
                lemma_skip_facts(s@, i as int, 0);
                if from.len() <= n - i {
                    lemma_skip_facts(s@, i as int, from.len() as int);
                }
            }
            let ghost r0 = r@;
            r.push(s[i]);
            i += 1;
            proof {
                if rest.len() < from.len() {
                    let t = s@.skip(i as int);
                    assert(t.len() < from.len());
                    assert(rest =~= seq![rest[0]] + t);
                }
                assert(r@ + replace_all(s@.skip(i as int), from@, to@) =~= r0 + (seq![rest[0]]
                    + replace_all(s@.skip(i as int), from@, to@)));
            }
        }
    }
    proof {
        assert(s@.skip(n as int).len() == 0);
        assert(r@ + replace_all(s@.skip(n as int), from@, to@) =~= r@);
    }
    r
}

/// `from` replaced by `to` again and again until it no longer occurs.
pub open spec fn replace_fix(s: Seq<char>, from: Seq<char>, to: Seq<char>) -> Seq<char>
    decreases s.len(),
{
    if from.len() > 0 && to.len() < from.len() && contains(s, from) {
        proof {
            lemma_replace_all_len(s, from, to);
        }
        replace_fix(replace_all(s, from, to), from, to)
    } else {
        s
    }
}

/// After `replace_fix`, the pattern no longer occurs.
pub proof fn lemma_replace_fix_clears(s: Seq<char>, from: Seq<char>, to: Seq<char>)
    requires
        from.len() > 0,
        to.len() < from.len(),
    ensures
        !contains(replace_fix(s, from, to), from),
    decreases s.len(),
{
    if contains(s, from) {
        lemma_replace_all_len(s, from, to);
        lemma_replace_fix_clears(replace_all(s, from, to), from, to);
    }
}

/// `from` replaced by `to` until it no longer occurs.
pub fn replace_until_gone(s: Vec<char>, from: &Vec<char>, to: &Vec<char>) -> (r: Vec<char>)
    requires
        from.len() > 0,
        to.len() < from.len(),
    ensures
        r@ == replace_fix(s@, from@, to@),
{
    let mut cur = s;
    while contains_chars(&cur, from)
        invariant
            from.len() > 0,
            to.len() < from.len(),
            replace_fix(cur@, from@, to@) == replace_fix(s@, from@, to@),
        decreases cur.len(),
    {
        proof {
            lemma_replace_all_len(cur@, from@, to@);
        }
        cur = replace_chars(&cur, from, to);
    }
    cur
}


/// The views of a list of character vectors.
pub open spec fn views(v: Seq<Vec<char>>) -> Seq<Seq<char>> {
    v.map_values(|x: Vec<char>| x@)
}

/// The word being read so far, as a list of at most one word.
pub open spec fn pending(cur: Seq<char>) -> Seq<Seq<char>> {
    if cur.len() > 0 {
        seq![cur]
    } else {
        Seq::empty()
    }
}

/// The maximal runs of non-whitespace characters of `s`, read after the partial word `cur`.
pub open spec fn words_from(s: Seq<char>, cur: Seq<char>) -> Seq<Seq<char>>
    decreases s.len(),
{
    if s.len() == 0 {
        pending(cur)
    } else if is_ws(s[0]) {
        pending(cur) + words_from(s.drop_first(), Seq::empty())
    } else {
        words_from(s.drop_first(), cur.push(s[0]))
    }
}

/// The maximal runs of non-whitespace characters, as `str::split_whitespace` gives them.
pub open spec fn words(s: Seq<char>) -> Seq<Seq<char>> {
    words_from(s, Seq::empty())
}

/// The words of `s`.
pub fn split_words(s: &Vec<char>) -> (r: Vec<Vec<char>>)
    ensures
        views(r@) == words(s@),
{
    let mut out: Vec<Vec<char>> = Vec::new();
    let mut cur: Vec<char> = Vec::new();
    let mut i: usize = 0;
    proof {
        assert(s@.skip(0) =~= s@);
        assert(views(out@) =~= Seq::<Seq<char>>::empty());
    }
    while i < s.len()
        invariant
            i <= s.len(),
            views(out@) + words_from(s@.skip(i as int), cur@) == words(s@),
        decreases s.len() - i,
    {
        proof {
            lemma_skip_facts(s@, i as int, 0);
        }
        let c = s[i];
        let ghost o = views(out@);
        let ghost cw = cur@;
        if is_whitespace(c) {
            if cur.len() > 0 {
                out.push(cur);
                cur = Vec::new();
            } else {
                cur = Vec::new();
            }
            assert(views(out@) =~= o + pending(cw));
            i += 1;
            assert(views(out@) + words_from(s@.skip(i as int), cur@) =~= o + (pending(cw)
                + words_from(s@.skip(i as int), Seq::empty())));
        } else {
            cur.push(c);
            i += 1;
        }
    }
    proof {
        assert(s@.skip(i as int).len() == 0);
    }
    if cur.len() > 0 {
        let ghost o = views(out@);
        out.push(cur);
        assert(views(out@) =~= o + pending(cur@));
    } else {
        assert(views(out@) + pending(cur@) =~= views(out@));
    }
    out
}


/// The parts with `sep` between each two neighbours, as `join` on a slice does.
pub open spec fn join(parts: Seq<Seq<char>>, sep: Seq<char>) -> Seq<char>
    decreases parts.len(),
{
    if parts.len() == 0 {
        Seq::empty()
    } else if parts.len() == 1 {
        parts[0]
    } else {
        join(parts.drop_last(), sep) + sep + parts.last()
    }
}

/// The parts joined with `sep` between them.
pub fn join_chars(parts: &Vec<Vec<char>>, sep: &Vec<char>) -> (r: Vec<char>)
    ensures
        r@ == join(views(parts@), sep@),
{
    let mut r: Vec<char> = Vec::new();
    let mut i: usize = 0;
    while i < parts.len()
        invariant
            i <= parts.len(),
            r@ == join(views(parts@.take(i as int)), sep@),
        decreases parts.len() - i,
    {
        let ghost prev = views(parts@.take(i as int));
        assert(views(parts@.take(i + 1)).drop_last() =~= prev);
        if i > 0 {
            push_all(&mut r, sep);
        }
        push_all(&mut r, &parts[i]);
        i += 1;
        assert(views(parts@.take(i as int)).last() == parts@[i - 1]@);
        if i == 1 {
            assert(views(parts@.take(1)) =~= seq![parts@[0]@]);
        }
    }
    assert(parts@.take(i as int) =~= parts@);
    r
}

/// The pieces of `s` between occurrences of `c`, read after the partial piece `cur`.
pub open spec fn split_from(s: Seq<char>, c: char, cur: Seq<char>) -> Seq<Seq<char>>
    decreases s.len(),
{
    if s.len() == 0 {
        seq![cur]
    } else if s[0] == c {
        seq![cur] + split_from(s.drop_first(), c, Seq::empty())
    } else {
        split_from(s.drop_first(), c, cur.push(s[0]))
    }
}

/// The pieces of `s` between occurrences of `c`, as `str::split` with a character gives them.
pub open spec fn split_on(s: Seq<char>, c: char) -> Seq<Seq<char>> {
    split_from(s, c, Seq::empty())
}

/// The pieces of `s` between occurrences of `c`.
pub fn split_chars(s: &Vec<char>, c: char) -> (r: Vec<Vec<char>>)
    ensures
        views(r@) == split_on(s@, c),
{
    let mut out: Vec<Vec<char>> = Vec::new();
    let mut cur: Vec<char> = Vec::new();
    let mut i: usize = 0;
    proof {
        assert(s@.skip(0) =~= s@);
        assert(views(out@) =~= Seq::<Seq<char>>::empty());
    }
    while i < s.len()
        invariant
            i <= s.len(),
            views(out@) + split_from(s@.skip(i as int), c, cur@) == split_on(s@, c),
        decreases s.len() - i,
    {
        proof {
            lemma_skip_facts(s@, i as int, 0);
        }
        let d = s[i];
        let ghost o = views(out@);
        let ghost cw = cur@;
        if d == c {
            out.push(cur);
            cur = Vec::new();
            assert(views(out@) =~= o + seq![cw]);
            i += 1;
            assert(views(out@) + split_from(s@.skip(i as int), c, cur@) =~= o + (seq![cw]
                + split_from(s@.skip(i as int), c, Seq::empty())));
        } else {
            cur.push(d);
            i += 1;
        }
    }
    proof {
        assert(s@.skip(i as int).len() == 0);
    }
    let ghost o = views(out@);
    out.push(cur);
    assert(views(out@) =~= o + seq![cur@]);
    out
}

/// `n` spaces.
pub open spec fn spaces(n: nat) -> Seq<char> {
    Seq::new(n, |i: int| ' ')
}

/// Appends `n` spaces to `r`.
pub fn push_spaces(r: &mut Vec<char>, n: usize)
    ensures
        final(r)@ == old(r)@ + spaces(n as nat),
{
    let ghost r0 = r@;
    let mut i: usize = 0;
    while i < n
        invariant
            i <= n,
            r@ == r0 + spaces(i as nat),
        decreases n - i,
    {
        r.push(' ');
        i += 1;
        assert(r@ =~= r0 + spaces(i as nat));
    }
}


/// Do the string and the string slice hold the same characters?
pub fn text_eq(s: &String, lit: &str) -> (b: bool)
    ensures
        b == (s@ == lit@),
{
    let a = str_chars(s.as_str());
    let c = str_chars(lit);
    if a.len() != c.len() {
        return false;
    }
    let mut i: usize = 0;
    while i < a.len()
        invariant
            a.len() == c.len(),
            a@ == s@,
            c@ == lit@,
            i <= a.len(),
            forall|j: int| 0 <= j < i ==> a@[j] == c@[j],
        decreases a.len() - i,
    {
        if a[i] != c[i] {
            assert(a@[i as int] != c@[i as int]);
            return false;
        }
        i += 1;
    }
    assert(a@ =~= c@);
    true
}

} // verus!
