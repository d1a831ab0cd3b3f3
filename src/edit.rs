use vstd::prelude::*;
use crate::lexer::{
    lemma_lexing_unique, lemma_match_len_frame, lex_from, lexes, literal_len, longest_literal,
    match_len, tiles, token_ok, Token, TokenRule,
};
use crate::tree::{covers, node_wf, nodes_wf, Node, Tree};

verus! {

/// A text edit: the bytes `[start_byte, old_end_byte)` were replaced by bytes
/// that now occupy `[start_byte, new_end_byte)`.
#[derive(Debug, Clone, Copy, PartialEq, Eq)]
pub struct InputEdit {
    pub start_byte: usize,
    pub old_end_byte: usize,
    pub new_end_byte: usize,
}

impl InputEdit {
    pub open spec fn wf(&self) -> bool {
        self.start_byte <= self.old_end_byte && self.start_byte <= self.new_end_byte
    }
}

/// Where a position of the old text lies in the new one: before the edit it
/// stays, after the removed bytes it moves by the change in length, and
/// inside them it moves to the start of the edit.
pub open spec fn shift_spec(p: int, e: InputEdit) -> int {
    if p < e.start_byte {
        p
    } else if p >= e.old_end_byte {
        p - e.old_end_byte + e.new_end_byte
    } else {
        e.start_byte as int
    }
}

/// Whether the range `[start, end]` touches the removed bytes.
pub open spec fn touches(start: int, end: int, e: InputEdit) -> bool {
    start <= e.old_end_byte && e.start_byte <= end
}

/// The text after the edit: `inserted` in place of the removed bytes.
pub open spec fn apply_spec(text: Seq<u8>, e: InputEdit, inserted: Seq<u8>) -> Seq<u8> {
    text.subrange(0, e.start_byte as int) + inserted + text.subrange(
        e.old_end_byte as int,
        text.len() as int,
    )
}

/// Shifting keeps positions in order.
pub proof fn lemma_shift_monotone(p: int, q: int, e: InputEdit)
    requires
        e.wf(),
        p <= q,
    ensures
        shift_spec(p, e) <= shift_spec(q, e),
{
}

/// Where position `p` of the old text lies in the new one.
pub fn shift_position(p: usize, e: &InputEdit) -> (r: usize)
    requires
        e.wf(),
        shift_spec(p as int, *e) <= usize::MAX,
    ensures
        r == shift_spec(p as int, *e),
{
    if p < e.start_byte {
        p
    } else if p >= e.old_end_byte {
        p - e.old_end_byte + e.new_end_byte
    } else {
        e.start_byte
    }
}

/// Applies an edit to a text.
pub fn apply_edit(text: &Vec<u8>, e: &InputEdit, inserted: &Vec<u8>) -> (r: Vec<u8>)
    requires
        e.wf(),
        e.old_end_byte <= text@.len(),
        e.new_end_byte == e.start_byte + inserted@.len(),
    ensures
        r@ == apply_spec(text@, *e, inserted@),
{
    let mut out: Vec<u8> = Vec::new();
    let mut i: usize = 0;
    while i < e.start_byte
        invariant
            i <= e.start_byte <= e.old_end_byte <= text@.len(),
            out@ == text@.subrange(0, i as int),
        decreases e.start_byte - i,
    {
        out.push(text[i]);
        i = i + 1;
        assert(out@ =~= text@.subrange(0, i as int));
    }
    let mut j: usize = 0;
    while j < inserted.len()
        invariant
            j <= inserted@.len(),
            out@ == text@.subrange(0, e.start_byte as int) + inserted@.subrange(0, j as int),
        decreases inserted@.len() - j,
    {
        out.push(inserted[j]);
        j = j + 1;
        assert(out@ =~= text@.subrange(0, e.start_byte as int) + inserted@.subrange(0, j as int));
    }
    assert(inserted@.subrange(0, j as int) =~= inserted@);
    let mut k: usize = e.old_end_byte;
    while k < text.len()
        invariant
            e.old_end_byte <= k <= text@.len(),
            out@ == text@.subrange(0, e.start_byte as int) + inserted@ + text@.subrange(
                e.old_end_byte as int,
                k as int,
            ),
        decreases text@.len() - k,
    {
        out.push(text[k]);
        k = k + 1;
        assert(out@ =~= text@.subrange(0, e.start_byte as int) + inserted@ + text@.subrange(
            e.old_end_byte as int,
            k as int,
        ));
    }
    out
}

/// `m` is node `n` after the edit: its range shifted, marked damaged if the
/// edit touches it, and otherwise the same.
pub open spec fn edited(m: Node, n: Node, e: InputEdit) -> bool {
    &&& m.symbol == n.symbol
    &&& m.children@ == n.children@
    &&& m.start == shift_spec(n.start as int, e)
    &&& m.end == shift_spec(n.end as int, e)
    &&& m.is_error == n.is_error
    &&& m.is_missing == n.is_missing
    &&& m.damaged == (n.damaged || touches(n.start as int, n.end as int, e))
}

/// Every shifted position of the tree's nodes fits in a `usize`.
pub open spec fn edit_fits(t: Tree, e: InputEdit) -> bool {
    forall|i: int| 0 <= i < t.nodes@.len() ==> shift_spec((#[trigger] t.nodes@[i]).end as int, e) <= usize::MAX
}

/// Shifting a covering sequence's nodes keeps it covering the shifted range.
proof fn lemma_covers_edited(old: Seq<Node>, new: Seq<Node>, s: Seq<usize>, from: int, to: int, e: InputEdit)
    requires
        covers(old, s, from, to),
        new.len() == old.len(),
        forall|i: int| 0 <= i < old.len() ==> edited(new[i], #[trigger] old[i], e),
        forall|i: int| 0 <= i < old.len() ==> shift_spec((#[trigger] old[i]).end as int, e) <= usize::MAX,
        forall|i: int| 0 <= i < old.len() ==> (#[trigger] old[i]).start <= old[i].end,
        e.wf(),
    ensures
        covers(new, s, shift_spec(from, e), shift_spec(to, e)),
{
    assert forall|k: int| 0 <= k < s.len() - 1 implies new[(#[trigger] s[k]) as int].end
        == new[s[k + 1] as int].start by {
        let a = s[k] as int;
        let b = s[k + 1] as int;
        assert(edited(new[a], old[a], e));
        assert(edited(new[b], old[b], e));
        lemma_shift_monotone(old[b].start as int, old[b].end as int, e);
        lemma_shift_monotone(0, old[b].start as int, e);
    }
    if s.len() > 0 {
        let a = s[0] as int;
        let b = s.last() as int;
        assert(edited(new[a], old[a], e));
        assert(edited(new[b], old[b], e));
        lemma_shift_monotone(old[a].start as int, old[a].end as int, e);
        lemma_shift_monotone(0, old[a].start as int, e);
    }
}

/// The tree with every node's range moved by the edit and the nodes the edit
/// touches marked damaged; the shape is unchanged.
pub fn edit_tree(t: &Tree, e: &InputEdit) -> (r: Tree)
    requires
        t.wf(),
        e.wf(),
        edit_fits(*t, *e),
    ensures
        r.wf(),
        r.root == t.root,
        r.steps == t.steps,
        r.nodes@.len() == t.nodes@.len(),
        forall|i: int| 0 <= i < t.nodes@.len() ==> edited(r.nodes@[i], #[trigger] t.nodes@[i], *e),
{
    let mut nodes: Vec<Node> = Vec::new();
    let mut i: usize = 0;
    while i < t.nodes.len()
        invariant
            t.wf(),
            e.wf(),
            edit_fits(*t, *e),
            i <= t.nodes@.len(),
            nodes@.len() == i,
            forall|j: int| 0 <= j < i ==> edited(nodes@[j], #[trigger] t.nodes@[j], *e),
        decreases t.nodes@.len() - i,
    {
        let n = &t.nodes[i];
        proof {
            assert(node_wf(t.nodes@, i as int));
            lemma_shift_monotone(n.start as int, n.end as int, *e);
            lemma_shift_monotone(0, n.start as int, *e);
        }
        let mut children: Vec<usize> = Vec::new();
        let mut k: usize = 0;
        while k < n.children.len()
            invariant
                k <= n.children@.len(),
                children@ == n.children@.subrange(0, k as int),
            decreases n.children@.len() - k,
        {
            children.push(n.children[k]);
            k = k + 1;
            assert(children@ =~= n.children@.subrange(0, k as int));
        }
        assert(children@ =~= n.children@);
        let m = Node {
            symbol: n.symbol,
            start: shift_position(n.start, e),
            end: shift_position(n.end, e),
            children,
            is_error: n.is_error,
            is_missing: n.is_missing,
            damaged: n.damaged || (n.start <= e.old_end_byte && e.start_byte <= n.end),
        };
        assert(edited(m, t.nodes@[i as int], *e));
        nodes.push(m);
        i = i + 1;
    }
    proof {
        assert forall|i: int| 0 <= i < t.nodes@.len() implies (#[trigger] t.nodes@[i]).start <= t.nodes@[i].end by {
            assert(node_wf(t.nodes@, i));
        }
        assert forall|i: int| 0 <= i < nodes@.len() implies #[trigger] node_wf(nodes@, i) by {
            let o = t.nodes@[i];
            assert(node_wf(t.nodes@, i));
            assert(edited(nodes@[i], o, *e));
            lemma_shift_monotone(o.start as int, o.end as int, *e);
            if o.children@.len() > 0 {
                lemma_covers_edited(t.nodes@, nodes@, o.children@, o.start as int, o.end as int, *e);
            }
        }
    }
    Tree { nodes, root: t.root, steps: t.steps }
}

/// An old token that ends before the edit, and whose every rule reads only
/// bytes before it, is still what the rules give on the new text.
proof fn lemma_token_kept(
    rules: Seq<TokenRule>,
    old_text: Seq<u8>,
    new_text: Seq<u8>,
    tok: Token,
    b: int,
    reach: int,
)
    requires
        token_ok(rules, old_text, tok),
        b <= old_text.len(),
        b <= new_text.len(),
        old_text.subrange(0, b) == new_text.subrange(0, b),
        tok.end < b,
        tok.start + reach <= b,
        forall|j: int| 0 <= j < rules.len() ==> literal_len(#[trigger] rules[j]) <= reach,
    ensures
        token_ok(rules, new_text, tok),
{
    let p = tok.start as int;
    assert forall|j: int| 0 <= j < rules.len() implies match_len(#[trigger] rules[j], new_text, p)
        == match_len(rules[j], old_text, p) by {
        assert(match_len(rules[j], old_text, p) <= tok.end - tok.start);
        assert(literal_len(rules[j]) <= reach);
        lemma_match_len_frame(rules[j], old_text, new_text, p, b);
    }
}

/// The tokens of `new_text` after an edit that left the bytes before
/// `start_byte` as they were. Old tokens that the edit cannot have changed
/// are kept; lexing resumes after the last of them.
pub fn relex(
    rules: &Vec<TokenRule>,
    old_text: &Vec<u8>,
    old_toks: &Vec<Token>,
    e: &InputEdit,
    new_text: &Vec<u8>,
) -> (r: Vec<Token>)
    requires
        lexes(rules@, old_text@, old_toks@),
        e.wf(),
        e.start_byte <= old_text@.len(),
        e.start_byte <= new_text@.len(),
        old_text@.subrange(0, e.start_byte as int) == new_text@.subrange(0, e.start_byte as int),
    ensures
        lexes(rules@, new_text@, r@),
{
    let reach = longest_literal(rules);
    let b = e.start_byte;
    let mut toks: Vec<Token> = Vec::new();
    let mut k: usize = 0;
    let mut pos: usize = 0;
    while k < old_toks.len() && old_toks[k].end < b && reach <= b - old_toks[k].start
        invariant
            lexes(rules@, old_text@, old_toks@),
            b <= old_text@.len(),
            b <= new_text@.len(),
            old_text@.subrange(0, b as int) == new_text@.subrange(0, b as int),
            forall|j: int| 0 <= j < rules@.len() ==> literal_len(#[trigger] rules@[j]) <= reach,
            k <= old_toks@.len(),
            pos <= b,
            k < old_toks@.len() ==> old_toks@[k as int].start == pos,
            tiles(toks@, pos as int),
            forall|j: int| 0 <= j < toks@.len() ==> token_ok(rules@, new_text@, #[trigger] toks@[j]),
        decreases old_toks@.len() - k,
    {
        let tok = old_toks[k];
        proof {
            lemma_token_kept(rules@, old_text@, new_text@, tok, b as int, reach as int);
            if k + 1 < old_toks@.len() {
                assert(old_toks@[k as int].end == old_toks@[k + 1].start);
            }
        }
        toks.push(tok);
        pos = tok.end;
        k = k + 1;
    }
    lex_from(rules, new_text, &mut toks, pos);
    toks
}

/// Re-lexing after an edit gives exactly the tokens that lexing the new text
/// from scratch gives.
pub proof fn lemma_relex_matches_fresh(
    rules: Seq<TokenRule>,
    new_text: Seq<u8>,
    incremental: Seq<Token>,
    fresh: Seq<Token>,
)
    requires
        lexes(rules, new_text, incremental),
        lexes(rules, new_text, fresh),
    ensures
        incremental == fresh,
{
    lemma_lexing_unique(rules, new_text, incremental, fresh);
}

} // verus!
