use vstd::prelude::*;

verus! {

/// The mathematical model of a compiled token.
pub enum Token {
    /// Literal text that must appear verbatim.
    Raw(Seq<char>),
    /// Alternatives, tried in order; the first one that fits is taken.
    OneOf(Seq<Seq<char>>),
    /// Any single character.
    Wild,
}

/// A compiled token; its text borrows from the pattern.
#[derive(Debug, PartialEq, Eq)]
pub enum MatcherToken<'a> {
    /// This is just text without anything special.
    RawText(&'a str),
    /// Text that could be any one of multiple strings, written
    /// `(one|two|three)` in a pattern.
    OneOfText(Vec<&'a str>),
    /// Any single character, written `.` in a pattern.
    WildCard,
}

/// The character views of a sequence of string slices.
pub open spec fn strs_view(v: Seq<&str>) -> Seq<Seq<char>> {
    v.map_values(|s: &str| s@)
}

impl<'a> View for MatcherToken<'a> {
    type V = Token;

    open spec fn view(&self) -> Token {
        match self {
            MatcherToken::RawText(s) => Token::Raw(s@),
            MatcherToken::OneOfText(v) => Token::OneOf(strs_view(v@)),
            MatcherToken::WildCard => Token::Wild,
        }
    }
}

/// The models of a sequence of tokens.
pub open spec fn tokens_view(v: Seq<MatcherToken>) -> Seq<Token> {
    v.map_values(|t: MatcherToken| t@)
}

/// Characters that end a run of literal text.
pub open spec fn is_special(c: char) -> bool {
    c == '.' || c == '('
}

/// Distance from `i` to the first `c` at or after `i`, or to the end of `s`.
pub open spec fn find_off(s: Seq<char>, c: char, i: int) -> nat
    decreases s.len() - i,
{
    if i >= s.len() || s[i] == c {
        0
    } else {
        1 + find_off(s, c, i + 1)
    }
}

/// Distance from `i` to the first special character at or after `i`, or to
/// the end of `s`.
pub open spec fn run_off(s: Seq<char>, i: int) -> nat
    decreases s.len() - i,
{
    if i >= s.len() || is_special(s[i]) {
        0
    } else {
        1 + run_off(s, i + 1)
    }
}

/// The pieces of `s` between `|` separators, where the current piece began
/// at `start` and the scan has reached `i`.
pub open spec fn pieces(s: Seq<char>, start: int, i: int) -> Seq<Seq<char>>
    decreases s.len() - i,
{
    if i >= s.len() {
        seq![s.subrange(start, s.len() as int)]
    } else if s[i] == '|' {
        seq![s.subrange(start, i)] + pieces(s, i + 1, i + 1)
    } else {
        pieces(s, start, i + 1)
    }
}

/// `s` split on every `|`; empty pieces are kept, so the result is never empty.
pub open spec fn split_bars(s: Seq<char>) -> Seq<Seq<char>> {
    pieces(s, 0, 0)
}

/// The tokens of the pattern `p` from position `i` on, or `None` when a `(`
/// that starts a token there has no `)` after it.
pub open spec fn compile_from(p: Seq<char>, i: int) -> Option<Seq<Token>>
    decreases (if i < p.len() {
        p.len() - i
    } else {
        0
    }),
{
    if i >= p.len() {
        Some(seq![])
    } else if p[i] == '.' {
        prepend(Token::Wild, compile_from(p, i + 1))
    } else if p[i] == '(' {
        let j = i + 1 + find_off(p, ')', i + 1);
        if j >= p.len() {
            None
        } else {
            prepend(Token::OneOf(split_bars(p.subrange(i + 1, j))), compile_from(p, j + 1))
        }
    } else {
        let e = i + 1 + run_off(p, i + 1);
        prepend(Token::Raw(p.subrange(i, e)), compile_from(p, e))
    }
}

/// `t` put in front of the tokens in `rest`, if there are any.
pub open spec fn prepend(t: Token, rest: Option<Seq<Token>>) -> Option<Seq<Token>> {
    match rest {
        Some(r) => Some(seq![t] + r),
        None => None,
    }
}

/// The tokens of the whole pattern `p`, or `None` for an unterminated group.
pub open spec fn compile(p: Seq<char>) -> Option<Seq<Token>> {
    compile_from(p, 0)
}

/// The search for `c` stops within `s`, on a `c` if it stops before the end,
/// and passes over no `c`.
pub proof fn lemma_find_off(s: Seq<char>, c: char, i: int)
    requires
        0 <= i <= s.len(),
    ensures
        i + find_off(s, c, i) <= s.len(),
        i + find_off(s, c, i) < s.len() ==> s[i + find_off(s, c, i)] == c,
        forall|k: int| i <= k < i + find_off(s, c, i) ==> s[k] != c,
    decreases s.len() - i,
{
    if i < s.len() && s[i] != c {
        lemma_find_off(s, c, i + 1);
    }
}

/// A run of literal text from `i` ends within `s`.
pub proof fn lemma_run_off(s: Seq<char>, i: int)
    requires
        0 <= i <= s.len(),
    ensures
        i + run_off(s, i) <= s.len(),
    decreases s.len() - i,
{
    if i < s.len() && !is_special(s[i]) {
        lemma_run_off(s, i + 1);
    }
}

/// `|`-separated alternatives written out again.
pub open spec fn join_bars(a: Seq<Seq<char>>) -> Seq<char>
    decreases a.len(),
{
    if a.len() == 0 {
        seq![]
    } else if a.len() == 1 {
        a[0]
    } else {
        a[0] + seq!['|'] + join_bars(a.drop_first())
    }
}

/// The text of the pattern that a token was compiled from.
pub open spec fn source_span(t: Token) -> Seq<char> {
    match t {
        Token::Raw(lit) => lit,
        Token::OneOf(alts) => seq!['('] + join_bars(alts) + seq![')'],
        Token::Wild => seq!['.'],
    }
}

/// The source texts of the tokens `ts`, concatenated.
pub open spec fn spans(ts: Seq<Token>) -> Seq<char>
    decreases ts.len(),
{
    if ts.len() == 0 {
        seq![]
    } else {
        source_span(ts[0]) + spans(ts.drop_first())
    }
}

proof fn lemma_pieces_join(s: Seq<char>, start: int, i: int)
    requires
        0 <= start <= i <= s.len(),
    ensures
        pieces(s, start, i).len() >= 1,
        join_bars(pieces(s, start, i)) == s.subrange(start, s.len() as int),
    decreases s.len() - i,
{
    if i < s.len() {
        if s[i] == '|' {
            lemma_pieces_join(s, i + 1, i + 1);
            let rest = pieces(s, i + 1, i + 1);
            let all = seq![s.subrange(start, i)] + rest;
            assert(all.drop_first() =~= rest);
            assert(s.subrange(start, i) + seq!['|'] + s.subrange(i + 1, s.len() as int)
                =~= s.subrange(start, s.len() as int));
        } else {
            lemma_pieces_join(s, start, i + 1);
        }
    }
}

proof fn lemma_spans_prepend(t: Token, r: Seq<Token>)
    ensures
        spans(seq![t] + r) == source_span(t) + spans(r),
{
    assert((seq![t] + r).drop_first() =~= r);
}

proof fn lemma_compile_from_spans(p: Seq<char>, i: int)
    requires
        0 <= i <= p.len(),
    ensures
        compile_from(p, i) matches Some(ts) ==> spans(ts) == p.subrange(i, p.len() as int),
    decreases p.len() - i,
{
    if i == p.len() {
        assert(spans(seq![]) =~= p.subrange(i, p.len() as int));
    } else if p[i] == '.' {
        lemma_compile_from_spans(p, i + 1);
        if let Some(r) = compile_from(p, i + 1) {
            lemma_spans_prepend(Token::Wild, r);
            assert(seq!['.'] + p.subrange(i + 1, p.len() as int) =~= p.subrange(i, p.len() as int));
        }
    } else if p[i] == '(' {
        let j = i + 1 + find_off(p, ')', i + 1);
        lemma_find_off(p, ')', i + 1);
        if j < p.len() {
            lemma_compile_from_spans(p, j + 1);
            let inner = p.subrange(i + 1, j);
            lemma_pieces_join(inner, 0, 0);
            assert(inner.subrange(0, inner.len() as int) =~= inner);
            if let Some(r) = compile_from(p, j + 1) {
                lemma_spans_prepend(Token::OneOf(split_bars(inner)), r);
                assert(seq!['('] + inner + seq![')'] + p.subrange(j + 1, p.len() as int)
                    =~= p.subrange(i, p.len() as int));
            }
        }
    } else {
        let e = i + 1 + run_off(p, i + 1);
        lemma_run_off(p, i + 1);
        lemma_compile_from_spans(p, e);
        if let Some(r) = compile_from(p, e) {
            lemma_spans_prepend(Token::Raw(p.subrange(i, e)), r);
            assert(p.subrange(i, e) + p.subrange(e, p.len() as int) =~= p.subrange(i, p.len() as int));
        }
    }
}

/// Compiling loses nothing: whenever a pattern compiles, the source texts of
/// its tokens, concatenated in order, give back the pattern.
pub proof fn lemma_compile_round_trip(p: Seq<char>)
    ensures
        compile(p) matches Some(ts) ==> spans(ts) == p,
{
    lemma_compile_from_spans(p, 0);
    assert(p.subrange(0, p.len() as int) =~= p);
}

/// The characters of `s`, in order.
pub(crate) fn chars_of(s: &str) -> (v: Vec<char>)
    ensures
        v@ == s@,
{
    let mut v: Vec<char> = Vec::new();
    for c in it: s.chars()
        invariant
            v@ == it.seq().take(it.index() as int),
            it.seq() == s@,
    {
        v.push(c);
    }
    v
}

/// Index of the first `c` in `s` at or after `i`, or the length of `s`.
pub(crate) fn find_char(s: &Vec<char>, c: char, i: usize) -> (j: usize)
    requires
        i <= s@.len(),
    ensures
        j == i + find_off(s@, c, i as int),
{
    let n = s.len();
    let mut k: usize = i;
    while k < n && s[k] != c
        invariant
            i <= k <= n,
            n == s@.len(),
            find_off(s@, c, i as int) == (k - i) + find_off(s@, c, k as int),
        decreases n - k,
    {
        k = k + 1;
    }
    k
}

/// Index of the first special character in `s` at or after `i`, or the
/// length of `s`.
pub(crate) fn find_special(s: &Vec<char>, i: usize) -> (j: usize)
    requires
        i <= s@.len(),
    ensures
        j == i + run_off(s@, i as int),
{
    let n = s.len();
    let mut k: usize = i;
    while k < n && !(s[k] == '.' || s[k] == '(')
        invariant
            i <= k <= n,
            n == s@.len(),
            run_off(s@, i as int) == (k - i) + run_off(s@, k as int),
        decreases n - k,
    {
        k = k + 1;
    }
    k
}

/// The pieces of `s` between `|` separators, each a slice of `s`.
pub(crate) fn split_alternatives<'a>(s: &'a str) -> (v: Vec<&'a str>)
    ensures
        strs_view(v@) == split_bars(s@),
{
    let cs = chars_of(s);
    let n = cs.len();
    let mut v: Vec<&'a str> = Vec::new();
    let mut start: usize = 0;
    let mut i: usize = 0;
    while i < n
        invariant
            start <= i <= n,
            n == s@.len(),
            cs@ == s@,
            split_bars(s@) == strs_view(v@) + pieces(s@, start as int, i as int),
        decreases n - i,
    {
        if cs[i] == '|' {
            let piece = s.substring_char(start, i);
            proof {
                assert(strs_view(v@.push(piece)) =~= strs_view(v@).push(piece@));
                assert(strs_view(v@) + pieces(s@, start as int, i as int) =~= strs_view(
                    v@.push(piece),
                ) + pieces(s@, (i + 1) as int, (i + 1) as int));
            }
            v.push(piece);
            start = i + 1;
        }
        i = i + 1;
    }
    let last = s.substring_char(start, n);
    proof {
        assert(strs_view(v@.push(last)) =~= strs_view(v@).push(last@));
        assert(strs_view(v@) + pieces(s@, start as int, i as int) =~= strs_view(v@.push(last)));
    }
    v.push(last);
    v
}

} // verus!
