use vstd::prelude::*;

verus! {

/// A lexical rule: the tokens of one kind.
#[derive(Debug, Clone, PartialEq, Eq)]
pub enum TokenRule {
    /// Exactly these bytes (a keyword or punctuation).
    Literal(Vec<u8>),
    /// One or more ASCII digits.
    Digits,
}

/// A token: its kind (an index into the rule list), its byte range, and whether
/// it is a byte that no rule accepts.
#[derive(Debug, Clone, Copy, PartialEq, Eq)]
pub struct Token {
    pub kind: usize,
    pub start: usize,
    pub end: usize,
    pub is_error: bool,
}

pub open spec fn is_digit(c: u8) -> bool {
    48 <= c <= 57
}

/// The number of ASCII digits in a row from `pos`.
pub open spec fn digit_run(t: Seq<u8>, pos: int) -> nat
    decreases t.len() - pos,
{
    if 0 <= pos < t.len() && is_digit(t[pos]) {
        1 + digit_run(t, pos + 1)
    } else {
        0
    }
}

pub open spec fn literal_at(lit: Seq<u8>, t: Seq<u8>, pos: int) -> bool {
    lit.len() > 0 && 0 <= pos && pos + lit.len() <= t.len() && t.subrange(pos, pos + lit.len())
        == lit
}

/// How many bytes `rule` accepts from `pos`; zero when it accepts none.
pub open spec fn match_len(rule: TokenRule, t: Seq<u8>, pos: int) -> nat {
    match rule {
        TokenRule::Literal(lit) => if literal_at(lit@, t, pos) {
            lit@.len()
        } else {
            0
        },
        TokenRule::Digits => digit_run(t, pos),
    }
}

/// Rule `i` wins at `pos` with `len` bytes: the longest match, and among the
/// longest the earliest declared rule.
pub open spec fn is_longest_match(
    rules: Seq<TokenRule>,
    t: Seq<u8>,
    pos: int,
    i: int,
    len: int,
) -> bool {
    &&& 0 <= i < rules.len()
    &&& len > 0
    &&& match_len(rules[i], t, pos) == len
    &&& forall|j: int| 0 <= j < rules.len() ==> match_len(#[trigger] rules[j], t, pos) <= len
    &&& forall|j: int| 0 <= j < i ==> match_len(#[trigger] rules[j], t, pos) < len
}

pub open spec fn no_rule_matches(rules: Seq<TokenRule>, t: Seq<u8>, pos: int) -> bool {
    forall|j: int| 0 <= j < rules.len() ==> match_len(#[trigger] rules[j], t, pos) == 0
}

/// A token is what the rules give at its start: the winning rule, or a
/// one-byte error token when no rule matches.
pub open spec fn token_ok(rules: Seq<TokenRule>, t: Seq<u8>, tok: Token) -> bool {
    if tok.is_error {
        tok.end == tok.start + 1 && tok.kind == rules.len() && no_rule_matches(
            rules,
            t,
            tok.start as int,
        )
    } else {
        is_longest_match(rules, t, tok.start as int, tok.kind as int, tok.end - tok.start)
    }
}

/// The tokens are non-empty and cover `[0, n)` one after another.
pub open spec fn tiles(toks: Seq<Token>, n: int) -> bool {
    &&& toks.len() == 0 ==> n == 0
    &&& toks.len() > 0 ==> toks[0].start == 0 && toks.last().end == n
    &&& forall|k: int| 0 <= k < toks.len() - 1 ==> (#[trigger] toks[k]).end == toks[k + 1].start
    &&& forall|k: int| 0 <= k < toks.len() ==> (#[trigger] toks[k]).start < toks[k].end
}

proof fn lemma_digit_run_bound(t: Seq<u8>, pos: int)
    requires
        0 <= pos <= t.len(),
    ensures
        digit_run(t, pos) <= t.len() - pos,
    decreases t.len() - pos,
{
    if pos < t.len() {
        lemma_digit_run_bound(t, pos + 1);
    }
}

/// A rule never accepts more bytes than remain.
pub proof fn lemma_match_len_bound(rule: TokenRule, t: Seq<u8>, pos: int)
    requires
        0 <= pos <= t.len(),
    ensures
        match_len(rule, t, pos) <= t.len() - pos,
{
    if rule is Digits {
        lemma_digit_run_bound(t, pos);
    }
}

/// Every token of a tiling ends within the text.
pub proof fn lemma_tiles_within(toks: Seq<Token>, n: int, k: int)
    requires
        tiles(toks, n),
        0 <= k < toks.len(),
    ensures
        toks[k].start < toks[k].end <= n,
    decreases toks.len() - k,
{
    if k < toks.len() - 1 {
        lemma_tiles_within(toks, n, k + 1);
    }
}

proof fn lemma_tiles_starts(toks: Seq<Token>, n: int, k: int)
    requires
        tiles(toks, n),
        0 <= k < toks.len(),
    ensures
        toks[k].start >= k,
    decreases k,
{
    if k > 0 {
        lemma_tiles_starts(toks, n, k - 1);
        assert(toks[k - 1].end == toks[k].start);
    }
}

/// A text of `n` bytes has at most `n` tokens.
pub proof fn lemma_tiles_count(toks: Seq<Token>, n: int)
    requires
        tiles(toks, n),
    ensures
        toks.len() <= n,
{
    if toks.len() > 0 {
        let k = toks.len() - 1;
        lemma_tiles_starts(toks, n, k);
        lemma_tiles_within(toks, n, k);
    }
}

/// The rules accept a text's bytes in exactly one way.
pub open spec fn lexes(rules: Seq<TokenRule>, t: Seq<u8>, toks: Seq<Token>) -> bool {
    &&& tiles(toks, t.len() as int)
    &&& forall|k: int| 0 <= k < toks.len() ==> token_ok(rules, t, #[trigger] toks[k])
}

proof fn lemma_token_unique(rules: Seq<TokenRule>, t: Seq<u8>, a: Token, b: Token)
    requires
        token_ok(rules, t, a),
        token_ok(rules, t, b),
        a.start == b.start,
    ensures
        a == b,
{
    let p = a.start as int;
    if !a.is_error && !b.is_error {
        let la = a.end - a.start;
        let lb = b.end - b.start;
        assert(match_len(rules[b.kind as int], t, p) <= la);
        assert(match_len(rules[a.kind as int], t, p) <= lb);
        if a.kind < b.kind {
            assert(match_len(rules[a.kind as int], t, p) < lb);
        }
        if b.kind < a.kind {
            assert(match_len(rules[b.kind as int], t, p) < la);
        }
    } else if a.is_error && !b.is_error {
        assert(match_len(rules[b.kind as int], t, p) == 0);
    } else if !a.is_error && b.is_error {
        assert(match_len(rules[a.kind as int], t, p) == 0);
    }
}

/// Lexing is a function of the rules and the text: two token sequences that
/// both lex the same text are the same.
pub proof fn lemma_lexing_unique(rules: Seq<TokenRule>, t: Seq<u8>, a: Seq<Token>, b: Seq<Token>)
    requires
        lexes(rules, t, a),
        lexes(rules, t, b),
    ensures
        a == b,
{
    let n = t.len() as int;
    let m: int = if a.len() < b.len() {
        a.len() as int
    } else {
        b.len() as int
    };
    assert forall|k: int| 0 <= k < m implies a[k] == b[k] by {
        lemma_prefix_equal(rules, t, a, b, k);
    }
    if a.len() < b.len() {
        if a.len() == 0 {
            lemma_tiles_within(b, n, 0);
        } else {
            assert(a[m - 1] == b[m - 1]);
            lemma_tiles_within(b, n, m);
        }
    } else if b.len() < a.len() {
        if b.len() == 0 {
            lemma_tiles_within(a, n, 0);
        } else {
            assert(a[m - 1] == b[m - 1]);
            lemma_tiles_within(a, n, m);
        }
    }
    assert(a =~= b);
}

/// The tokens of `t`.
pub open spec fn lexed(rules: Seq<TokenRule>, t: Seq<u8>) -> Seq<Token> {
    choose|toks: Seq<Token>| lexes(rules, t, toks)
}

/// Tokens that lex a text are its tokens.
pub proof fn lemma_lexed(rules: Seq<TokenRule>, t: Seq<u8>, toks: Seq<Token>)
    requires
        lexes(rules, t, toks),
    ensures
        toks == lexed(rules, t),
{
    let other = lexed(rules, t);
    assert(lexes(rules, t, other));
    lemma_lexing_unique(rules, t, toks, other);
}

proof fn lemma_prefix_equal(rules: Seq<TokenRule>, t: Seq<u8>, a: Seq<Token>, b: Seq<Token>, k: int)
    requires
        lexes(rules, t, a),
        lexes(rules, t, b),
        0 <= k < a.len(),
        k < b.len(),
    ensures
        a[k] == b[k],
    decreases k,
{
    if k > 0 {
        lemma_prefix_equal(rules, t, a, b, k - 1);
        assert(a[k - 1].end == a[k].start);
        assert(b[k - 1].end == b[k].start);
    }
    lemma_token_unique(rules, t, a[k], b[k]);
}

/// How many bytes `rule` accepts from `pos`.
pub fn rule_match_len(rule: &TokenRule, t: &Vec<u8>, pos: usize) -> (r: usize)
    requires
        pos <= t.len(),
    ensures
        r == match_len(*rule, t@, pos as int),
{
    match rule {
        TokenRule::Literal(lit) => {
            let n = lit.len();
            if n == 0 || n > t.len() - pos {
                return 0;
            }
            let mut k: usize = 0;
            while k < n
                invariant
                    0 <= k <= n,
                    n == lit@.len(),
                    *rule == TokenRule::Literal(*lit),
                    pos + n <= t.len(),
                    forall|m: int| 0 <= m < k ==> t@[pos + m] == lit@[m],
                decreases n - k,
            {
                if t[pos + k] != lit[k] {
                    assert(t@.subrange(pos as int, pos + n)[k as int] == t@[pos + k]);
                    assert(t@.subrange(pos as int, pos + n) != lit@);
                    assert(!literal_at(lit@, t@, pos as int));
                    return 0;
                }
                k = k + 1;
            }
            assert(t@.subrange(pos as int, pos + n) =~= lit@);
            n
        },
        TokenRule::Digits => {
            let mut i = pos;
            while i < t.len() && 48 <= t[i] && t[i] <= 57
                invariant
                    pos <= i <= t@.len(),
                    digit_run(t@, pos as int) == (i - pos) + digit_run(t@, i as int),
                decreases t@.len() - i,
            {
                i = i + 1;
            }
            i - pos
        },
    }
}

/// The rule that wins at `pos` and the length of its token, or `None` when no
/// rule matches there.
pub fn next_token(rules: &Vec<TokenRule>, t: &Vec<u8>, pos: usize) -> (r: Option<(usize, usize)>)
    requires
        pos <= t.len(),
    ensures
        r is None <==> no_rule_matches(rules@, t@, pos as int),
        r matches Some(p) ==> is_longest_match(rules@, t@, pos as int, p.0 as int, p.1 as int),
        r matches Some(p) ==> pos + p.1 <= t@.len(),
{
    let mut best: usize = 0;
    let mut best_len: usize = 0;
    let mut j: usize = 0;
    while j < rules.len()
        invariant
            0 <= j <= rules@.len(),
            pos <= t.len(),
            best_len == 0 ==> forall|m: int| 0 <= m < j ==> match_len(#[trigger] rules@[m], t@, pos as int) == 0,
            best_len > 0 ==> best < j && is_longest_match(rules@.subrange(0, j as int), t@, pos as int, best as int, best_len as int),
        decreases rules@.len() - j,
    {
        let len = rule_match_len(&rules[j], t, pos);
        if len > best_len {
            best = j;
            best_len = len;
        }
        j = j + 1;
        assert(forall|m: int| 0 <= m < j ==> rules@.subrange(0, j as int)[m] == rules@[m]);
    }
    assert(rules@.subrange(0, j as int) =~= rules@);
    if best_len == 0 {
        None
    } else {
        proof {
            lemma_match_len_bound(rules@[best as int], t@, pos as int);
        }
        Some((best, best_len))
    }
}

/// Lexes `t` from `pos` on, after the tokens already in `toks`, which cover `[0, pos)`.
pub(crate) fn lex_from(rules: &Vec<TokenRule>, t: &Vec<u8>, toks: &mut Vec<Token>, pos: usize)
    requires
        pos <= t@.len(),
        tiles(old(toks)@, pos as int),
        forall|k: int| 0 <= k < old(toks)@.len() ==> token_ok(rules@, t@, #[trigger] old(toks)@[k]),
    ensures
        lexes(rules@, t@, final(toks)@),
{
    let mut pos = pos;
    while pos < t.len()
        invariant
            pos <= t@.len(),
            tiles(toks@, pos as int),
            forall|k: int| 0 <= k < toks@.len() ==> token_ok(rules@, t@, #[trigger] toks@[k]),
        decreases t@.len() - pos,
    {
        let tok = match next_token(rules, t, pos) {
            Some((kind, len)) => Token { kind, start: pos, end: pos + len, is_error: false },
            None => Token { kind: rules.len(), start: pos, end: pos + 1, is_error: true },
        };
        toks.push(tok);
        pos = tok.end;
    }
}

/// Splits `t` into tokens: at each position the winning rule's token, or a
/// one-byte error token where no rule matches.
pub fn tokenize(rules: &Vec<TokenRule>, t: &Vec<u8>) -> (r: Vec<Token>)
    ensures
        lexes(rules@, t@, r@),
        r@ == lexed(rules@, t@),
{
    let mut toks: Vec<Token> = Vec::new();
    lex_from(rules, t, &mut toks, 0);
    proof {
        lemma_lexed(rules@, t@, toks@);
    }
    toks
}

/// How many bytes a literal rule reads; a digit rule has no fixed length.
pub open spec fn literal_len(rule: TokenRule) -> nat {
    match rule {
        TokenRule::Literal(lit) => lit@.len(),
        TokenRule::Digits => 0,
    }
}

/// The length of the longest literal rule; zero when there is none.
pub fn longest_literal(rules: &Vec<TokenRule>) -> (r: usize)
    ensures
        forall|j: int| 0 <= j < rules@.len() ==> literal_len(#[trigger] rules@[j]) <= r,
        r == 0 || exists|j: int| 0 <= j < rules@.len() && literal_len(#[trigger] rules@[j]) == r,
{
    let mut best: usize = 0;
    let mut j: usize = 0;
    while j < rules.len()
        invariant
            j <= rules@.len(),
            forall|i: int| 0 <= i < j ==> literal_len(#[trigger] rules@[i]) <= best,
            best == 0 || exists|i: int| 0 <= i < j && literal_len(#[trigger] rules@[i]) == best,
        decreases rules@.len() - j,
    {
        match &rules[j] {
            TokenRule::Literal(lit) => {
                if lit.len() > best {
                    best = lit.len();
                    assert(literal_len(rules@[j as int]) == best);
                }
            },
            TokenRule::Digits => {},
        }
        j = j + 1;
    }
    best
}

proof fn lemma_digit_run_frame(t1: Seq<u8>, t2: Seq<u8>, p: int, b: int)
    requires
        0 <= p,
        b <= t1.len(),
        b <= t2.len(),
        t1.subrange(0, b) == t2.subrange(0, b),
        p + digit_run(t1, p) < b,
    ensures
        digit_run(t1, p) == digit_run(t2, p),
    decreases t1.len() - p,
{
    assert(t1[p] == t1.subrange(0, b)[p]);
    assert(t2[p] == t2.subrange(0, b)[p]);
    if p < t1.len() && is_digit(t1[p]) {
        lemma_digit_run_frame(t1, t2, p + 1, b);
    }
}

/// What a rule accepts at `p` depends only on the bytes it reads: when two
/// texts agree below `b` and the rule reads nothing from `b` on, it accepts
/// the same in both.
pub proof fn lemma_match_len_frame(rule: TokenRule, t1: Seq<u8>, t2: Seq<u8>, p: int, b: int)
    requires
        0 <= p,
        b <= t1.len(),
        b <= t2.len(),
        t1.subrange(0, b) == t2.subrange(0, b),
        p + literal_len(rule) <= b,
        rule is Digits ==> p + digit_run(t1, p) < b,
    ensures
        match_len(rule, t1, p) == match_len(rule, t2, p),
{
    match rule {
        TokenRule::Literal(lit) => {
            let n = lit@.len() as int;
            assert(t1.subrange(p, p + n) =~= t1.subrange(0, b).subrange(p, p + n));
            assert(t2.subrange(p, p + n) =~= t2.subrange(0, b).subrange(p, p + n));
        },
        TokenRule::Digits => {
            lemma_digit_run_frame(t1, t2, p, b);
        },
    }
}

} // verus!
