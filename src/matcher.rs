use vstd::prelude::*;
use vstd::math::max;
use crate::token::{
    chars_of, compile, compile_from, find_char, find_special, lemma_find_off, lemma_run_off, prepend,
    split_alternatives, strs_view, tokens_view, MatcherToken, Token,
};

verus! {

/// A compiled pattern, with the largest number of tokens that any call of
/// `match_string` has matched so far.
#[derive(Debug, PartialEq, Eq)]
pub struct Matcher<'a> {
    /// This is the actual text of the matcher
    pub text: &'a str,
    /// This is a vector of the tokens inside the expression.
    pub tokens: Vec<MatcherToken<'a>>,
    /// This keeps track of the most tokens that this matcher has matched.
    pub most_tokens_matched: usize,
}

impl<'a> Matcher<'a> {
    /// The tokens are exactly those that `text` compiles to.
    pub open spec fn wf(&self) -> bool {
        compile(self.text@) == Some(tokens_view(self.tokens@))
    }

    /// Compiles `text`; `None` when a group opened by `(` is never closed.
    pub fn new(text: &'a str) -> (r: Option<Matcher<'a>>)
        ensures
            r is Some <==> compile(text@) is Some,
            r matches Some(m) ==> m.text == text && m.wf() && m.most_tokens_matched == 0,
    {
        let cs = chars_of(text);
        let n = cs.len();
        let mut tokens: Vec<MatcherToken<'a>> = Vec::new();
        let mut pos: usize = 0;
        while pos < n
            invariant
                pos <= n,
                n == text@.len(),
                cs@ == text@,
                compile(text@) == opt_concat(tokens_view(tokens@), compile_from(text@, pos as int)),
            decreases n - pos,
        {
            let c = cs[pos];
            let ghost old_view = tokens_view(tokens@);
            let next: usize;
            if c == '.' {
                tokens.push(MatcherToken::WildCard);
                next = pos + 1;
            } else if c == '(' {
                let right = find_char(&cs, ')', pos + 1);
                proof {
                    lemma_find_off(text@, ')', pos + 1);
                }
                if right >= n {
                    proof {
                        assert(compile_from(text@, pos as int) is None);
                    }
                    return None;
                }
                let inner = text.substring_char(pos + 1, right);
                tokens.push(MatcherToken::OneOfText(split_alternatives(inner)));
                next = right + 1;
            } else {
                let right = find_special(&cs, pos + 1);
                proof {
                    lemma_run_off(text@, pos + 1);
                }
                tokens.push(MatcherToken::RawText(text.substring_char(pos, right)));
                next = right;
            }
            proof {
                let t = tokens@.last()@;
                assert(tokens_view(tokens@) =~= old_view.push(t));
                assert(compile_from(text@, pos as int) == prepend(t, compile_from(text@, next as int)));
                lemma_opt_concat_prepend(old_view, t, compile_from(text@, next as int));
            }
            pos = next;
        }
        proof {
            assert(tokens_view(tokens@) + seq![] =~= tokens_view(tokens@));
        }
        Some(Matcher { text, tokens, most_tokens_matched: 0 })
    }

    /// The largest number of tokens that any call of `match_string` on this
    /// matcher has matched.
    pub fn most_tokens_matched(&self) -> (r: usize)
        ensures
            r == self.most_tokens_matched,
    {
        self.most_tokens_matched
    }

    /// Matches `string` against the tokens, from the left, stopping at the
    /// first token that does not fit or when `string` runs out. Each pair
    /// holds a token and the part of `string` that it matched.
    pub fn match_string<'b>(&'b mut self, string: &'b str) -> (r: Vec<(&'b MatcherToken<'a>, &'b str)>)
        ensures
            r@.len() == matched(tokens_view(old(self).tokens@), string@).len(),
            forall|i: int|
                0 <= i < r@.len() ==> *r@[i].0 == old(self).tokens@[i] && r@[i].1@ == matched(
                    tokens_view(old(self).tokens@),
                    string@,
                )[i],
            final(self).text == old(self).text,
            final(self).tokens == old(self).tokens,
            final(self).most_tokens_matched == max(old(self).most_tokens_matched as int, r@.len() as int),
    {
        let tokens: &'b Vec<MatcherToken<'a>> = &self.tokens;
        let ghost ts = tokens_view(tokens@);
        let cs = chars_of(string);
        let n = cs.len();
        let mut r: Vec<(&'b MatcherToken<'a>, &'b str)> = Vec::new();
        let mut pos: usize = 0;
        let mut k: usize = 0;
        let mut done = false;
        while !done && k < tokens.len()
            invariant
                pos <= n,
                n == string@.len(),
                cs@ == string@,
                k <= tokens@.len(),
                ts == tokens_view(tokens@),
                r@.len() == k,
                forall|i: int| 0 <= i < k ==> *r@[i].0 == tokens@[i],
                matched(ts, string@) == pieces_of(r@) + matched_from(ts, string@, k as int, pos as int),
                done ==> matched_from(ts, string@, k as int, pos as int) == Seq::<Seq<char>>::empty(),
            decreases tokens@.len() - k + if done { 0int } else { 1int },
        {
            let t: &'b MatcherToken<'a> = &tokens[k];
            let rest = Ghost(string@.subrange(pos as int, n as int));
            let mut len: Option<usize> = None;
            if pos < n {
                match t {
                    MatcherToken::RawText(lit) => {
                        if prefix_at(&cs, pos, lit) {
                            len = Some(lit.unicode_len());
                        }
                    },
                    MatcherToken::OneOfText(alts) => {
                        len = first_alternative(&cs, pos, alts);
                    },
                    MatcherToken::WildCard => {
                        len = Some(1);
                    },
                }
            }
            proof {
                assert(ts[k as int] == t@);
                if let Token::OneOf(alts) = t@ {
                    lemma_first_fit(alts, rest@, 0);
                }
                assert(consumed(t@, rest@) == match len {
                    Some(m) => Some(m as nat),
                    None => None::<nat>,
                });
            }
            match len {
                None => {
                    done = true;
                },
                Some(m) => {
                    let piece = string.substring_char(pos, pos + m);
                    proof {
                        assert(pieces_of(r@.push((t, piece))) =~= pieces_of(r@).push(piece@));
                        assert(pieces_of(r@) + matched_from(ts, string@, k as int, pos as int)
                            =~= pieces_of(r@.push((t, piece))) + matched_from(ts, string@, k + 1, pos + m));
                    }
                    r.push((t, piece));
                    pos = pos + m;
                    k = k + 1;
                },
            }
        }
        proof {
            assert(pieces_of(r@) + matched_from(ts, string@, k as int, pos as int) =~= pieces_of(r@));
        }
        if r.len() > self.most_tokens_matched {
            self.most_tokens_matched = r.len();
        }
        r
    }
}

/// `lit` is a prefix of `rest`.
pub open spec fn is_prefix(lit: Seq<char>, rest: Seq<char>) -> bool {
    lit.len() <= rest.len() && rest.subrange(0, lit.len() as int) == lit
}

/// The length of the first alternative from index `k` on that is a prefix of
/// `rest`.
pub open spec fn first_fit(alts: Seq<Seq<char>>, rest: Seq<char>, k: int) -> Option<nat>
    decreases alts.len() - k,
{
    if k < 0 || k >= alts.len() {
        None
    } else if is_prefix(alts[k], rest) {
        Some(alts[k].len())
    } else {
        first_fit(alts, rest, k + 1)
    }
}

/// How many characters of `rest` the token `t` takes, or `None` where the
/// walk stops: `rest` is empty, or `t` does not fit.
pub open spec fn consumed(t: Token, rest: Seq<char>) -> Option<nat> {
    if rest.len() == 0 {
        None
    } else {
        match t {
            Token::Raw(lit) => if is_prefix(lit, rest) {
                Some(lit.len())
            } else {
                None
            },
            Token::OneOf(alts) => first_fit(alts, rest, 0),
            Token::Wild => Some(1),
        }
    }
}

/// The parts of `s` matched by the tokens from index `k` on, the first of
/// them starting at position `pos`.
pub open spec fn matched_from(ts: Seq<Token>, s: Seq<char>, k: int, pos: int) -> Seq<Seq<char>>
    decreases ts.len() - k,
{
    if k < 0 || k >= ts.len() {
        seq![]
    } else {
        match consumed(ts[k], s.subrange(pos, s.len() as int)) {
            None => seq![],
            Some(m) => seq![s.subrange(pos, pos + m)] + matched_from(ts, s, k + 1, pos + m),
        }
    }
}

/// The parts of `s` matched, in order, by the tokens `ts`.
pub open spec fn matched(ts: Seq<Token>, s: Seq<char>) -> Seq<Seq<char>> {
    matched_from(ts, s, 0, 0)
}

/// The matched parts of a list of pairs.
pub open spec fn pieces_of(r: Seq<(&MatcherToken, &str)>) -> Seq<Seq<char>> {
    r.map_values(|p: (&MatcherToken, &str)| p.1@)
}

proof fn lemma_first_fit(alts: Seq<Seq<char>>, rest: Seq<char>, k: int)
    ensures
        first_fit(alts, rest, k) matches Some(m) ==> m <= rest.len(),
    decreases alts.len() - k,
{
    if 0 <= k < alts.len() && !is_prefix(alts[k], rest) {
        lemma_first_fit(alts, rest, k + 1);
    }
}

/// The largest of `lens`, or 0 when `lens` is empty.
pub open spec fn seq_max(lens: Seq<int>) -> int
    decreases lens.len(),
{
    if lens.len() == 0 {
        0
    } else {
        max(seq_max(lens.drop_last()), lens.last())
    }
}

proof fn lemma_running_max_at(stats: Seq<int>, lens: Seq<int>, k: int)
    requires
        stats.len() == lens.len() + 1,
        stats[0] == 0,
        forall|i: int| 0 <= i < lens.len() ==> stats[i + 1] == max(stats[i], lens[i]),
        0 <= k <= lens.len(),
    ensures
        stats[k] == seq_max(lens.take(k)),
    decreases k,
{
    if k > 0 {
        lemma_running_max_at(stats, lens, k - 1);
        assert(lens.take(k).drop_last() =~= lens.take(k - 1));
    }
}

/// The statistic of a matcher, read before and after each of a run of
/// `match_string` calls that returned `lens[i]` pairs, starting from a new
/// matcher: it never decreases, and after `k` calls it is the largest result
/// length of those calls.
pub proof fn lemma_statistic_is_running_max(stats: Seq<int>, lens: Seq<int>)
    requires
        stats.len() == lens.len() + 1,
        stats[0] == 0,
        forall|i: int| 0 <= i < lens.len() ==> stats[i + 1] == max(stats[i], lens[i]),
    ensures
        forall|i: int| 0 <= i < lens.len() ==> #[trigger] stats[i] <= stats[i + 1],
        forall|k: int| 0 <= k <= lens.len() ==> stats[k] == seq_max(#[trigger] lens.take(k)),
{
    assert forall|k: int| 0 <= k <= lens.len() implies stats[k] == seq_max(#[trigger] lens.take(k)) by {
        lemma_running_max_at(stats, lens, k);
    }
    assert forall|i: int| 0 <= i < lens.len() implies #[trigger] stats[i] <= stats[i + 1] by {
        assert(stats[i + 1] == max(stats[i], lens[i]));
    }
}

/// The empty pattern compiles to no tokens, and no tokens match nothing.
pub proof fn lemma_empty_pattern(s: Seq<char>)
    ensures
        compile(seq![]) == Some(Seq::<Token>::empty()),
        matched(seq![], s) == Seq::<Seq<char>>::empty(),
{
}

proof fn lemma_matched_from_within(ts: Seq<Token>, s: Seq<char>, k: int, pos: int)
    requires
        0 <= pos <= s.len(),
    ensures
        pos + matched_from(ts, s, k, pos).flatten().len() <= s.len(),
        matched_from(ts, s, k, pos).flatten() == s.subrange(pos, pos + matched_from(ts, s, k, pos).flatten().len()),
        pos == s.len() ==> matched_from(ts, s, k, pos) == Seq::<Seq<char>>::empty(),
    decreases ts.len() - k,
{
    let m = matched_from(ts, s, k, pos);
    if 0 <= k < ts.len() {
        let rest = s.subrange(pos, s.len() as int);
        if let Token::OneOf(alts) = ts[k] {
            lemma_first_fit(alts, rest, 0);
        }
        if let Some(c) = consumed(ts[k], rest) {
            lemma_matched_from_within(ts, s, k + 1, pos + c);
            let tail = matched_from(ts, s, k + 1, pos + c);
            assert(m.drop_first() =~= tail);
            assert(s.subrange(pos, pos + c) + tail.flatten() =~= s.subrange(pos, pos + m.flatten().len()));
        } else {
            assert(m.flatten() =~= s.subrange(pos, pos));
        }
    } else {
        assert(m.flatten() =~= s.subrange(pos, pos));
    }
}

/// The matched parts, in order, make up a prefix of the candidate, and once
/// the candidate is used up no token yields any more.
pub proof fn lemma_match_within_candidate(ts: Seq<Token>, s: Seq<char>)
    ensures
        is_prefix(matched(ts, s).flatten(), s),
        forall|k: int| #[trigger] matched_from(ts, s, k, s.len() as int) == Seq::<Seq<char>>::empty(),
{
    lemma_matched_from_within(ts, s, 0, 0);
    assert forall|k: int| #[trigger] matched_from(ts, s, k, s.len() as int) == Seq::<Seq<char>>::empty() by {
        lemma_matched_from_within(ts, s, k, s.len() as int);
    }
}

/// Whether `lit` occurs in `s` at position `pos`.
fn prefix_at(s: &Vec<char>, pos: usize, lit: &str) -> (r: bool)
    requires
        pos <= s@.len(),
    ensures
        r == is_prefix(lit@, s@.subrange(pos as int, s@.len() as int)),
{
    let n = s.len();
    let ls = chars_of(lit);
    let m = ls.len();
    if m > n - pos {
        return false;
    }
    let mut j: usize = 0;
    while j < m
        invariant
            j <= m,
            m == lit@.len(),
            ls@ == lit@,
            pos + m <= n,
            n == s@.len(),
            forall|i: int| 0 <= i < j ==> s@[pos + i] == lit@[i],
        decreases m - j,
    {
        if s[pos + j] != ls[j] {
            proof {
                let rest = s@.subrange(pos as int, n as int);
                assert(rest.subrange(0, m as int)[j as int] != lit@[j as int]);
            }
            return false;
        }
        j = j + 1;
    }
    proof {
        assert(s@.subrange(pos as int, n as int).subrange(0, m as int) =~= lit@);
    }
    true
}

/// The length of the first alternative that occurs in `s` at position `pos`.
fn first_alternative(s: &Vec<char>, pos: usize, alts: &Vec<&str>) -> (r: Option<usize>)
    requires
        pos <= s@.len(),
    ensures
        r matches Some(m) ==> first_fit(strs_view(alts@), s@.subrange(pos as int, s@.len() as int), 0) == Some(m as nat),
        r is None ==> first_fit(strs_view(alts@), s@.subrange(pos as int, s@.len() as int), 0) is None,
{
    let n = s.len();
    let ghost rest = s@.subrange(pos as int, n as int);
    let ghost av = strs_view(alts@);
    let mut k: usize = 0;
    while k < alts.len()
        invariant
            k <= alts@.len(),
            n == s@.len(),
            pos <= n,
            rest == s@.subrange(pos as int, n as int),
            av == strs_view(alts@),
            first_fit(av, rest, 0) == first_fit(av, rest, k as int),
        decreases alts@.len() - k,
    {
        let alt: &str = alts[k];
        if prefix_at(s, pos, alt) {
            return Some(alt.unicode_len());
        }
        k = k + 1;
    }
    None
}

/// `a` put in front of the tokens in `rest`, if there are any.
pub open spec fn opt_concat(a: Seq<Token>, rest: Option<Seq<Token>>) -> Option<Seq<Token>> {
    match rest {
        Some(r) => Some(a + r),
        None => None,
    }
}

proof fn lemma_opt_concat_prepend(a: Seq<Token>, t: Token, rest: Option<Seq<Token>>)
    ensures
        opt_concat(a, prepend(t, rest)) == opt_concat(a.push(t), rest),
{
    if let Some(r) = rest {
        assert(a + (seq![t] + r) =~= a.push(t) + r);
    }
}

} // verus!
