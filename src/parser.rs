use vstd::prelude::*;
use crate::edit::{relex, InputEdit};
use crate::lexer::{
    lemma_lexed, lemma_tiles_count, lemma_tiles_within, lexed, lexes, tiles, tokenize, Token, TokenRule,
};
use crate::tree::{
    covers, lemma_covers_extend, lemma_covers_ordered, lemma_covers_push_arena, lemma_covers_split, lemma_push_keeps_wf,
    node_wf, nodes_wf, Node, Tree,
};

verus! {

/// One entry of the parse table.
#[derive(Debug, Clone, Copy, PartialEq, Eq)]
pub enum Action {
    /// Push the lookahead (or, in a nonterminal's column, the reduced node) and go to the state.
    Shift(usize),
    /// Pop `count` nodes, with the skipped tokens among them, and make them the
    /// children of a new `symbol` node.
    Reduce { symbol: usize, count: usize },
    Accept,
    Error,
}

/// A compiled language: its lexical rules and its state table.
///
/// Symbols `0..eof` are terminals (token kinds), `eof` marks the end of input,
/// and the symbols above it up to `symbol_count` are nonterminals.
#[derive(Debug, Clone, PartialEq, Eq)]
pub struct ParseTable {
    pub rules: Vec<TokenRule>,
    pub eof: usize,
    pub symbol_count: usize,
    /// `actions[state][symbol]`; state 0 is the start state.
    pub actions: Vec<Vec<Action>>,
    /// Parser steps allowed per token (and once more for the end of input).
    pub step_cap: usize,
}

impl ParseTable {
    /// Every row has a column per symbol, and every shift names a state of the table.
    pub open spec fn wf(&self) -> bool {
        &&& self.actions@.len() > 0
        &&& self.eof < self.symbol_count
        &&& forall|s: int| 0 <= s < self.actions@.len() ==> (#[trigger] self.actions@[s])@.len()
            == self.symbol_count
        &&& forall|s: int, y: int|
            0 <= s < self.actions@.len() && 0 <= y < self.symbol_count ==> match (
            #[trigger] self.actions@[s]@[y]) {
                Action::Shift(t) => t < self.actions@.len(),
                _ => true,
            }
    }

    /// The action of `state` on the symbol `y`; `Error` outside the table.
    pub open spec fn action_spec(&self, state: int, y: int) -> Action {
        if 0 <= state < self.actions@.len() && 0 <= y < self.actions@[state]@.len() {
            self.actions@[state]@[y]
        } else {
            Action::Error
        }
    }

    /// The symbol a token stands for as lookahead; none for an error token or
    /// a kind that is not a terminal.
    pub open spec fn lookahead_spec(&self, toks: Seq<Token>, ti: int) -> int {
        if ti >= toks.len() {
            self.eof as int
        } else if toks[ti].is_error || toks[ti].kind >= self.eof {
            self.symbol_count as int
        } else {
            toks[ti].kind as int
        }
    }

    /// Inserting a missing terminal `t` in `state` leads on to a state that
    /// accepts the lookahead `y`.
    pub open spec fn repairs(&self, state: int, y: int, t: int) -> bool {
        &&& 0 <= t < self.eof
        &&& self.action_spec(state, t) matches Action::Shift(s2) && !(self.action_spec(s2 as int, y) is Error)
    }

    /// Whether the table is well formed, so that it may be parsed with.
    pub fn is_valid(&self) -> (r: bool)
        ensures
            r == self.wf(),
    {
        if self.actions.len() == 0 || self.eof >= self.symbol_count {
            return false;
        }
        let mut s: usize = 0;
        while s < self.actions.len()
            invariant
                s <= self.actions@.len(),
                forall|i: int| 0 <= i < s ==> (#[trigger] self.actions@[i])@.len() == self.symbol_count,
                forall|i: int, y: int|
                    0 <= i < s && 0 <= y < self.symbol_count ==> match (
                    #[trigger] self.actions@[i]@[y]) {
                        Action::Shift(t) => t < self.actions@.len(),
                        _ => true,
                    },
            decreases self.actions@.len() - s,
        {
            let row = &self.actions[s];
            if row.len() != self.symbol_count {
                assert(!self.wf());
                return false;
            }
            let mut y: usize = 0;
            while y < row.len()
                invariant
                    s < self.actions@.len(),
                    row == self.actions@[s as int],
                    y <= row@.len(),
                    forall|j: int| 0 <= j < y ==> match (#[trigger] row@[j]) {
                        Action::Shift(t) => t < self.actions@.len(),
                        _ => true,
                    },
                decreases row@.len() - y,
            {
                match row[y] {
                    Action::Shift(t) => {
                        if t >= self.actions.len() {
                            assert(row@[y as int] == self.actions@[s as int]@[y as int]);
                            return false;
                        }
                    },
                    _ => {},
                }
                y = y + 1;
            }
            s = s + 1;
        }
        true
    }

    /// The first terminal from `t` on whose insertion repairs `state` for the
    /// lookahead `y`, with the state it leads to.
    pub open spec fn first_repair(&self, state: int, y: int, t: int) -> Option<(usize, usize)>
        decreases self.eof - t,
    {
        if t < 0 || t >= self.eof {
            None
        } else if self.repairs(state, y, t) {
            match self.action_spec(state, t) {
                Action::Shift(s2) => Some((t as usize, s2)),
                _ => None,
            }
        } else {
            self.first_repair(state, y, t + 1)
        }
    }

    /// The action of `state` on the symbol `y`.
    pub fn action(&self, state: usize, y: usize) -> (r: Action)
        ensures
            r == self.action_spec(state as int, y as int),
    {
        if state < self.actions.len() && y < self.actions[state].len() {
            self.actions[state][y]
        } else {
            Action::Error
        }
    }

    /// The lookahead symbol at token `ti`.
    pub fn lookahead(&self, toks: &Vec<Token>, ti: usize) -> (r: usize)
        ensures
            r == self.lookahead_spec(toks@, ti as int),
    {
        if ti >= toks.len() {
            self.eof
        } else if toks[ti].is_error || toks[ti].kind >= self.eof {
            self.symbol_count
        } else {
            toks[ti].kind
        }
    }

    /// The first terminal whose insertion in `state` lets the lookahead `y` be
    /// read, with the state that inserting it leads to.
    pub fn find_missing(&self, state: usize, y: usize) -> (r: Option<(usize, usize)>)
        requires
            self.wf(),
            state < self.actions@.len(),
        ensures
            r is None <==> forall|t: int| 0 <= t < self.eof ==> !#[trigger] self.repairs(
                state as int,
                y as int,
                t,
            ),
            r matches Some(p) ==> {
                &&& self.repairs(state as int, y as int, p.0 as int)
                &&& self.action_spec(state as int, p.0 as int) == Action::Shift(p.1)
                &&& p.1 < self.actions@.len()
                &&& forall|t: int| 0 <= t < p.0 ==> !#[trigger] self.repairs(state as int, y as int, t)
            },
            r == self.first_repair(state as int, y as int, 0),
    {
        let mut t: usize = 0;
        while t < self.eof
            invariant
                self.wf(),
                state < self.actions@.len(),
                t <= self.eof,
                forall|u: int| 0 <= u < t ==> !#[trigger] self.repairs(state as int, y as int, u),
                self.first_repair(state as int, y as int, 0) == self.first_repair(
                    state as int,
                    y as int,
                    t as int,
                ),
            decreases self.eof - t,
        {
            match self.action(state, t) {
                Action::Shift(s2) => {
                    match self.action(s2, y) {
                        Action::Error => {},
                        _ => {
                            assert(self.repairs(state as int, y as int, t as int));
                            return Some((t, s2));
                        },
                    }
                },
                _ => {},
            }
            assert(!self.repairs(state as int, y as int, t as int));
            t = t + 1;
        }
        None
    }
}

/// Where token `ti` starts; the end of the text once all tokens are read.
pub open spec fn token_pos(toks: Seq<Token>, text_len: int, ti: int) -> int {
    if ti < toks.len() {
        toks[ti].start as int
    } else {
        text_len
    }
}

/// The most steps a parse of `n` tokens may take.
pub open spec fn step_bound(table: ParseTable, n: int) -> int {
    table.step_cap * (n + 1)
}

/// What a node holds, with its children as a sequence.
pub struct NodeModel {
    pub symbol: usize,
    pub start: usize,
    pub end: usize,
    pub children: Seq<usize>,
    pub is_error: bool,
    pub is_missing: bool,
    pub damaged: bool,
}

pub open spec fn node_model(n: Node) -> NodeModel {
    NodeModel {
        symbol: n.symbol,
        start: n.start,
        end: n.end,
        children: n.children@,
        is_error: n.is_error,
        is_missing: n.is_missing,
        damaged: n.damaged,
    }
}

pub open spec fn models(nodes: Seq<Node>) -> Seq<NodeModel> {
    Seq::new(nodes.len(), |i: int| node_model(nodes[i]))
}

/// A tree as its node models, its root and the steps taken to build it.
pub struct TreeModel {
    pub nodes: Seq<NodeModel>,
    pub root: usize,
    pub steps: nat,
}

pub open spec fn tree_model(t: Tree) -> TreeModel {
    TreeModel { nodes: models(t.nodes@), root: t.root, steps: t.steps as nat }
}

/// The engine between two steps: the node arena, the stack of node indices,
/// the stack of states (one deeper), the next token, and whether it stopped.
pub struct ParseState {
    pub nodes: Seq<NodeModel>,
    pub stack: Seq<usize>,
    pub states: Seq<usize>,
    pub ti: int,
    pub done: bool,
    pub accepted: bool,
    pub steps: nat,
}

pub open spec fn initial_state() -> ParseState {
    ParseState {
        nodes: seq![],
        stack: seq![],
        states: seq![0usize],
        ti: 0,
        done: false,
        accepted: false,
        steps: 0,
    }
}

pub open spec fn flat_node(symbol: usize, start: int, end: int, is_error: bool, is_missing: bool) -> NodeModel {
    NodeModel {
        symbol,
        start: start as usize,
        end: end as usize,
        children: seq![],
        is_error,
        is_missing,
        damaged: false,
    }
}

/// Appends `n` to the arena and pushes it, entering `state`.
pub open spec fn push_model(st: ParseState, n: NodeModel, state: usize) -> ParseState {
    ParseState {
        nodes: st.nodes.push(n),
        stack: st.stack.push(st.nodes.len() as usize),
        states: st.states.push(state),
        ..st
    }
}

/// Where a reduction of `count` nodes begins, scanning the stack down from
/// index `k`: skipped tokens (error nodes) are carried along uncounted, and
/// nothing below the last counted node is taken. `-1` when too few nodes.
pub open spec fn split_point(nodes: Seq<NodeModel>, stack: Seq<usize>, count: nat, k: int) -> int
    decreases k,
{
    if count == 0 {
        k
    } else if k <= 0 {
        -1
    } else if nodes[stack[k - 1] as int].is_error {
        split_point(nodes, stack, count, k - 1)
    } else {
        split_point(nodes, stack, (count - 1) as nat, k - 1)
    }
}

proof fn lemma_split_point_range(nodes: Seq<NodeModel>, stack: Seq<usize>, count: nat, k: int)
    requires
        k >= 0,
    ensures
        -1 <= split_point(nodes, stack, count, k) <= k,
        count > 0 && split_point(nodes, stack, count, k) >= 0 ==> split_point(nodes, stack, count, k) < k,
    decreases k,
{
    if count > 0 && k > 0 {
        if nodes[stack[k - 1] as int].is_error {
            lemma_split_point_range(nodes, stack, count, k - 1);
        } else {
            lemma_split_point_range(nodes, stack, (count - 1) as nat, k - 1);
        }
    }
}

/// Replaces the stack nodes from index `m` up by a `symbol` node over them, entering `state`.
pub open spec fn reduce_model(st: ParseState, symbol: usize, m: int, state: usize, pos: int) -> ParseState {
    let start = if m == st.stack.len() {
        pos
    } else {
        st.nodes[st.stack[m] as int].start as int
    };
    let node = NodeModel {
        symbol,
        start: start as usize,
        end: pos as usize,
        children: st.stack.subrange(m, st.stack.len() as int),
        is_error: false,
        is_missing: false,
        damaged: false,
    };
    push_model(
        ParseState { stack: st.stack.subrange(0, m), states: st.states.subrange(0, m + 1), ..st },
        node,
        state,
    )
}

/// Skipping token `ti` as extraneous lets `state` read the token after it.
pub open spec fn skip_recovers(table: ParseTable, toks: Seq<Token>, ti: int, state: usize) -> bool {
    ti < toks.len() && !(table.action_spec(state as int, table.lookahead_spec(toks, ti + 1)) is Error)
}

/// One step of the engine. Where the table has no action, recovery first
/// tries to insert a missing terminal, which lets the current token be read
/// (no token used up); failing that, to skip the current token as an error
/// node, which lets the next one be read (one token used up); failing both,
/// it wraps the rest of the input in one error node and stops.
pub open spec fn step(table: ParseTable, toks: Seq<Token>, text_len: int, st: ParseState) -> ParseState {
    let pos = token_pos(toks, text_len, st.ti);
    let state = st.states.last();
    let y = table.lookahead_spec(toks, st.ti);
    let next: Option<ParseState> = match table.action_spec(state as int, y) {
        Action::Shift(s) => if st.ti < toks.len() {
            let tok = toks[st.ti];
            Some(
                ParseState {
                    ti: st.ti + 1,
                    ..push_model(st, flat_node(tok.kind, tok.start as int, tok.end as int, false, false), s)
                },
            )
        } else {
            None
        },
        Action::Reduce { symbol, count } => {
            let m = split_point(st.nodes, st.stack, count as nat, st.stack.len() as int);
            if m >= 0 {
                match table.action_spec(st.states[m] as int, symbol as int) {
                    Action::Shift(g) => Some(reduce_model(st, symbol, m, g, pos)),
                    _ => None,
                }
            } else {
                None
            }
        },
        Action::Accept => if st.ti == toks.len() {
            Some(ParseState { done: true, accepted: true, ..st })
        } else {
            None
        },
        Action::Error => None,
    };
    let after = match next {
        Some(n) => n,
        None => match table.first_repair(state as int, y, 0) {
            Some((t, s2)) => push_model(st, flat_node(t, pos, pos, false, true), s2),
            None => if skip_recovers(table, toks, st.ti, state) {
                let tok = toks[st.ti];
                ParseState {
                    ti: st.ti + 1,
                    ..push_model(
                        st,
                        flat_node(table.symbol_count, tok.start as int, tok.end as int, true, false),
                        state,
                    )
                }
            } else {
                ParseState {
                    ti: toks.len() as int,
                    done: true,
                    ..push_model(st, flat_node(table.symbol_count, pos, text_len, true, false), state)
                }
            },
        },
    };
    ParseState { steps: after.steps + 1, ..after }
}

/// The engine after at most `fuel` steps, stopping early when it is done.
pub open spec fn run(table: ParseTable, toks: Seq<Token>, text_len: int, st: ParseState, fuel: nat) -> ParseState
    decreases fuel,
{
    if fuel == 0 || st.done {
        st
    } else {
        run(table, toks, text_len, step(table, toks, text_len, st), (fuel - 1) as nat)
    }
}

/// The tree that a stopped engine yields: the single accepted node, or an
/// error node over everything on the stack (after wrapping unread input).
pub open spec fn finish(table: ParseTable, toks: Seq<Token>, text_len: int, st: ParseState) -> TreeModel {
    let st2 = if st.done {
        st
    } else {
        push_model(
            st,
            flat_node(table.symbol_count, token_pos(toks, text_len, st.ti), text_len, true, false),
            0,
        )
    };
    if st2.accepted && st2.stack.len() == 1 {
        TreeModel { nodes: st2.nodes, root: st2.stack[0], steps: st.steps }
    } else {
        TreeModel {
            nodes: st2.nodes.push(
                NodeModel {
                    symbol: table.symbol_count,
                    start: 0,
                    end: text_len as usize,
                    children: st2.stack,
                    is_error: true,
                    is_missing: false,
                    damaged: false,
                },
            ),
            root: st2.nodes.len() as usize,
            steps: st.steps,
        }
    }
}

/// The step limit: `step_cap * (n + 1)`, or the largest `usize` when that is larger.
pub open spec fn step_limit(table: ParseTable, n: int) -> nat {
    if step_bound(table, n) <= usize::MAX {
        step_bound(table, n) as nat
    } else {
        usize::MAX as nat
    }
}

/// The tree the engine builds from `toks`.
pub open spec fn parse_model(table: ParseTable, toks: Seq<Token>, text_len: int) -> TreeModel {
    finish(table, toks, text_len, run(table, toks, text_len, initial_state(), step_limit(table, toks.len() as int)))
}

/// The engine state that the executable variables stand for.
pub open spec fn state_of(
    nodes: Seq<Node>,
    stack: Seq<usize>,
    states: Seq<usize>,
    ti: int,
    done: bool,
    accepted: bool,
    steps: nat,
) -> ParseState {
    ParseState { nodes: models(nodes), stack, states, ti, done, accepted, steps }
}

proof fn lemma_run_step(table: ParseTable, toks: Seq<Token>, text_len: int, st: ParseState, n: nat)
    requires
        !run(table, toks, text_len, st, n).done,
    ensures
        run(table, toks, text_len, st, n + 1) == step(table, toks, text_len, run(table, toks, text_len, st, n)),
    decreases n,
{
    let nx = step(table, toks, text_len, st);
    assert(!st.done);
    assert(run(table, toks, text_len, st, n + 1) == run(table, toks, text_len, nx, n));
    if n > 0 {
        assert(run(table, toks, text_len, st, n) == run(table, toks, text_len, nx, (n - 1) as nat));
        lemma_run_step(table, toks, text_len, nx, (n - 1) as nat);
        assert((n - 1 + 1) as nat == n);
    } else {
        assert(run(table, toks, text_len, nx, 0) == nx);
    }
}

proof fn lemma_run_stays(table: ParseTable, toks: Seq<Token>, text_len: int, st: ParseState, n: nat, m: nat)
    requires
        run(table, toks, text_len, st, n).done,
        n <= m,
    ensures
        run(table, toks, text_len, st, m) == run(table, toks, text_len, st, n),
    decreases n,
{
    if !st.done {
        lemma_run_stays(table, toks, text_len, step(table, toks, text_len, st), (n - 1) as nat, (m - 1) as nat);
    }
}

proof fn lemma_models_push(nodes: Seq<Node>, x: Node)
    ensures
        models(nodes.push(x)) == models(nodes).push(node_model(x)),
{
    assert(models(nodes.push(x)) =~= models(nodes).push(node_model(x)));
}

/// Appends `node` to the arena and pushes it, entering `state`, on the stack.
fn push_node(nodes: &mut Vec<Node>, stack: &mut Vec<usize>, states: &mut Vec<usize>, node: Node, state: usize)
    requires
        nodes_wf(old(nodes)@),
        node_wf(old(nodes)@.push(node), old(nodes)@.len() as int),
        covers(old(nodes)@, old(stack)@, 0, node.start as int),
    ensures
        nodes_wf(final(nodes)@),
        covers(final(nodes)@, final(stack)@, 0, node.end as int),
        final(stack)@.len() == old(stack)@.len() + 1,
        final(states)@ == old(states)@.push(state),
        final(stack)@ == old(stack)@.push(old(nodes)@.len() as usize),
        models(final(nodes)@) == models(old(nodes)@).push(node_model(node)),
{
    proof {
        lemma_models_push(nodes@, node);
        lemma_push_keeps_wf(nodes@, node);
        lemma_covers_push_arena(nodes@, stack@, 0, node.start as int, node);
    }
    let id = nodes.len();
    nodes.push(node);
    proof {
        lemma_covers_extend(nodes@, stack@, 0, node.start as int, id);
    }
    stack.push(id);
    states.push(state);
}

/// The node made by reducing the stack nodes from `m` on is well formed, and
/// the nodes below them cover up to its start.
proof fn lemma_reduced(nodes: Seq<Node>, stack: Seq<usize>, pos: int, m: int, node: Node)
    requires
        nodes_wf(nodes),
        covers(nodes, stack, 0, pos),
        0 <= m <= stack.len(),
        node.children@ == stack.subrange(m, stack.len() as int),
        node.end == pos,
        node.start == (if m == stack.len() {
            pos
        } else {
            nodes[stack[m] as int].start as int
        }),
    ensures
        node_wf(nodes.push(node), nodes.len() as int),
        covers(nodes, stack.subrange(0, m), 0, node.start as int),
{
    let p = nodes.push(node);
    assert(p[nodes.len() as int] == node);
    if m < stack.len() {
        lemma_covers_split(nodes, stack, 0, pos, m);
        lemma_covers_ordered(nodes, node.children@, node.start as int, pos);
        lemma_covers_push_arena(nodes, node.children@, node.start as int, pos, node);
    } else {
        assert(stack.subrange(0, m) =~= stack);
    }
}

/// Where a reduction of `count` nodes begins on the stack, or `None` when the
/// stack holds too few nodes that count.
fn find_split(nodes: &Vec<Node>, stack: &Vec<usize>, count: usize) -> (r: Option<usize>)
    requires
        forall|k: int| 0 <= k < stack@.len() ==> (#[trigger] stack@[k]) < nodes@.len(),
    ensures
        r is None <==> split_point(models(nodes@), stack@, count as nat, stack@.len() as int) < 0,
        r matches Some(m) ==> m == split_point(models(nodes@), stack@, count as nat, stack@.len() as int),
{
    let mut k = stack.len();
    let mut c = count;
    while c > 0 && k > 0
        invariant
            k <= stack@.len(),
            forall|j: int| 0 <= j < stack@.len() ==> (#[trigger] stack@[j]) < nodes@.len(),
            split_point(models(nodes@), stack@, count as nat, stack@.len() as int) == split_point(
                models(nodes@),
                stack@,
                c as nat,
                k as int,
            ),
        decreases k,
    {
        assert(models(nodes@)[stack@[k - 1] as int] == node_model(nodes@[stack@[k - 1] as int]));
        if !nodes[stack[k - 1]].is_error {
            c = c - 1;
        }
        k = k - 1;
    }
    if c == 0 {
        Some(k)
    } else {
        None
    }
}

/// Replaces the stack nodes from index `m` up by a `symbol` node over them, entering `state`.
fn reduce(
    nodes: &mut Vec<Node>,
    stack: &mut Vec<usize>,
    states: &mut Vec<usize>,
    symbol: usize,
    m: usize,
    state: usize,
    pos: usize,
)
    requires
        nodes_wf(old(nodes)@),
        covers(old(nodes)@, old(stack)@, 0, pos as int),
        m <= old(stack)@.len(),
        old(states)@.len() == old(stack)@.len() + 1,
    ensures
        nodes_wf(final(nodes)@),
        covers(final(nodes)@, final(stack)@, 0, pos as int),
        final(stack)@.len() == m + 1,
        final(states)@ == old(states)@.subrange(0, m + 1).push(state),
        ({
            let r = reduce_model(
                state_of(old(nodes)@, old(stack)@, old(states)@, 0, false, false, 0),
                symbol,
                m as int,
                state,
                pos as int,
            );
            models(final(nodes)@) == r.nodes && final(stack)@ == r.stack && final(states)@ == r.states
        }),
{
    let keep = states.len() - (stack.len() - m);
    let start = if m == stack.len() {
        pos
    } else {
        nodes[stack[m]].start
    };
    let ghost whole = stack@;
    let children = stack.split_off(m);
    states.truncate(keep);
    let node = Node { symbol, start, end: pos, children, is_error: false, is_missing: false, damaged: false };
    proof {
        lemma_reduced(nodes@, whole, pos as int, m as int, node);
        if m < whole.len() {
            assert(models(nodes@)[whole[m as int] as int] == node_model(nodes@[whole[m as int] as int]));
        }
    }
    push_node(nodes, stack, states, node, state);
}

/// Builds a syntax tree from the tokens of a text of `text_len` bytes.
///
/// The engine never fails: where the table has no action it inserts the first
/// missing terminal that lets the lookahead be read; failing that it skips the
/// lookahead as an error node if the token after it can be read; failing both
/// it wraps the rest of the input in one error node. It stops after at most
/// `step_cap * (tokens + 1)` steps.
pub fn parse_tokens(table: &ParseTable, toks: &Vec<Token>, text_len: usize) -> (r: Tree)
    requires
        table.wf(),
        tiles(toks@, text_len as int),
    ensures
        r.wf(),
        r.range() == (0int, text_len as int),
        r.steps <= step_bound(*table, toks@.len() as int),
        tree_model(r) == parse_model(*table, toks@, text_len as int),
{
    let limit: usize = match toks.len().checked_add(1) {
        Some(n1) => match table.step_cap.checked_mul(n1) {
            Some(v) => v,
            None => usize::MAX,
        },
        None => {
            if table.step_cap == 0 {
                0
            } else {
                proof {
                    let n1 = toks@.len() + 1;
                    assert(table.step_cap * n1 >= n1) by (nonlinear_arith)
                        requires
                            table.step_cap >= 1,
                            n1 >= 0,
                    ;
                }
                usize::MAX
            }
        },
    };
    assert(limit == step_limit(*table, toks@.len() as int));
    let mut nodes: Vec<Node> = Vec::new();
    let mut stack: Vec<usize> = Vec::new();
    let mut states: Vec<usize> = vec![0];
    let mut ti: usize = 0;
    let mut steps: usize = 0;
    let mut done = false;
    let mut accepted = false;
    proof {
        assert(models(nodes@) =~= seq![]);
        assert(states@ =~= seq![0usize]);
    }
    while steps < limit && !done
        invariant
            state_of(nodes@, stack@, states@, ti as int, done, accepted, steps as nat) == run(
                *table,
                toks@,
                text_len as int,
                initial_state(),
                steps as nat,
            ),
            limit == step_limit(*table, toks@.len() as int),
            table.wf(),
            tiles(toks@, text_len as int),
            limit <= step_bound(*table, toks@.len() as int),
            steps <= limit,
            ti <= toks@.len(),
            states@.len() == stack@.len() + 1,
            forall|k: int| 0 <= k < states@.len() ==> (#[trigger] states@[k]) < table.actions@.len(),
            nodes_wf(nodes@),
            covers(nodes@, stack@, 0, token_pos(toks@, text_len as int, ti as int)),
            done ==> ti == toks@.len(),
        decreases limit - steps,
    {
        proof {
            if ti < toks@.len() {
                lemma_tiles_within(toks@, text_len as int, ti as int);
                if ti + 1 < toks@.len() {
                    assert(toks@[ti as int].end == toks@[ti + 1].start);
                }
            }
        }
        let ghost old_states = states@;
        let ghost cur = state_of(nodes@, stack@, states@, ti as int, done, accepted, steps as nat);
        let pos = if ti < toks.len() {
            toks[ti].start
        } else {
            text_len
        };
        let state = states[states.len() - 1];
        let y = table.lookahead(toks, ti);
        let mut progressed = false;
        match table.action(state, y) {
            Action::Shift(s) => {
                if ti < toks.len() {
                    let tok = toks[ti];
                    let leaf = Node {
                        symbol: tok.kind,
                        start: tok.start,
                        end: tok.end,
                        children: Vec::new(),
                        is_error: false,
                        is_missing: false,
                        damaged: false,
                    };
                    assert(node_model(leaf) == flat_node(tok.kind, tok.start as int, tok.end as int, false, false));
                    push_node(&mut nodes, &mut stack, &mut states, leaf, s);
                    ti = ti + 1;
                    progressed = true;
                }
            },
            Action::Reduce { symbol, count } => {
                proof {
                    lemma_split_point_range(models(nodes@), stack@, count as nat, stack@.len() as int);
                }
                match find_split(&nodes, &stack, count) {
                    Some(m) => {
                        match table.action(states[m], symbol) {
                            Action::Shift(g) => {
                                reduce(&mut nodes, &mut stack, &mut states, symbol, m, g, pos);
                                progressed = true;
                            },
                            _ => {},
                        }
                    },
                    None => {},
                }
            },
            Action::Accept => {
                if ti == toks.len() {
                    done = true;
                    accepted = true;
                    progressed = true;
                }
            },
            Action::Error => {},
        }
        if !progressed {
            match table.find_missing(state, y) {
                Some((t, s2)) => {
                    let missing = Node {
                        symbol: t,
                        start: pos,
                        end: pos,
                        children: Vec::new(),
                        is_error: false,
                        is_missing: true,
                        damaged: false,
                    };
                    assert(node_model(missing) == flat_node(t, pos as int, pos as int, false, true));
                    push_node(&mut nodes, &mut stack, &mut states, missing, s2);
                },
                None => {
                    let skip = if ti < toks.len() {
                        match table.action(state, table.lookahead(toks, ti + 1)) {
                            Action::Error => false,
                            _ => true,
                        }
                    } else {
                        false
                    };
                    if skip {
                        let tok = toks[ti];
                        let stray = Node {
                            symbol: table.symbol_count,
                            start: tok.start,
                            end: tok.end,
                            children: Vec::new(),
                            is_error: true,
                            is_missing: false,
                            damaged: false,
                        };
                        assert(node_model(stray) == flat_node(
                            table.symbol_count,
                            tok.start as int,
                            tok.end as int,
                            true,
                            false,
                        ));
                        push_node(&mut nodes, &mut stack, &mut states, stray, state);
                        ti = ti + 1;
                    } else {
                        let rest = error_rest(pos, text_len, table.symbol_count);
                        push_node(&mut nodes, &mut stack, &mut states, rest, state);
                        ti = toks.len();
                        done = true;
                    }
                },
            }
        }
        proof {
            assert forall|k: int| 0 <= k < states@.len() implies (#[trigger] states@[k]) < table.actions@.len() by {
                if k < states@.len() - 1 {
                    assert(states@[k] == old_states[k]);
                }
            }
        }
        proof {
            lemma_run_step(*table, toks@, text_len as int, initial_state(), steps as nat);
            assert(state_of(nodes@, stack@, states@, ti as int, done, accepted, (steps + 1) as nat) == step(
                *table,
                toks@,
                text_len as int,
                cur,
            ));
        }
        steps = steps + 1;
    }
    proof {
        if done {
            lemma_run_stays(*table, toks@, text_len as int, initial_state(), steps as nat, limit as nat);
        }
    }
    let ghost fin = state_of(nodes@, stack@, states@, ti as int, done, accepted, steps as nat);
    if !done {
        proof {
            if ti < toks@.len() {
                lemma_tiles_within(toks@, text_len as int, ti as int);
            }
        }
        let pos = if ti < toks.len() {
            toks[ti].start
        } else {
            text_len
        };
        let rest = error_rest(pos, text_len, table.symbol_count);
        push_node(&mut nodes, &mut stack, &mut states, rest, 0);
    }
    let root = if accepted && stack.len() == 1 {
        stack[0]
    } else {
        let top = Node {
            symbol: table.symbol_count,
            start: 0,
            end: text_len,
            children: stack,
            is_error: true,
            is_missing: false,
            damaged: false,
        };
        proof {
            assert(node_wf(nodes@.push(top), nodes@.len() as int)) by {
                lemma_covers_push_arena(nodes@, top.children@, 0, text_len as int, top);
            }
            lemma_push_keeps_wf(nodes@, top);
            lemma_models_push(nodes@, top);
        }
        let id = nodes.len();
        nodes.push(top);
        id
    };
    let r = Tree { nodes, root, steps };
    assert(tree_model(r) == finish(*table, toks@, text_len as int, fin));
    r
}

/// An error node over `[pos, text_len]`, the input not yet read.
fn error_rest(pos: usize, text_len: usize, symbol: usize) -> (r: Node)
    requires
        pos <= text_len,
    ensures
        r.start == pos,
        r.end == text_len,
        node_model(r) == flat_node(symbol, pos as int, text_len as int, true, false),
        r.children@.len() == 0,
        r.is_error,
{
    Node { symbol, start: pos, end: text_len, children: Vec::new(), is_error: true, is_missing: false, damaged: false }
}

/// The tree the engine builds for `text`.
pub open spec fn parse_text_model(table: ParseTable, text: Seq<u8>) -> TreeModel {
    parse_model(table, lexed(table.rules@, text), text.len() as int)
}

/// Parses `text` with `table`: a tree that always covers the whole text,
/// reached within `step_cap * (text length + 1)` steps.
pub fn parse(table: &ParseTable, text: &Vec<u8>) -> (r: Tree)
    requires
        table.wf(),
    ensures
        r.wf(),
        r.range() == (0int, text@.len() as int),
        r.steps <= step_bound(*table, text@.len() as int),
        tree_model(r) == parse_text_model(*table, text@),
{
    let toks = tokenize(&table.rules, text);
    let r = parse_tokens(table, &toks, text.len());
    proof {
        lemma_tiles_count(toks@, text@.len() as int);
        let a = toks@.len() + 1;
        let b = text@.len() + 1;
        let c = table.step_cap as int;
        assert(c * a <= c * b) by (nonlinear_arith)
            requires
                a <= b,
                c >= 0,
        ;
    }
    r
}

/// Parses `new_text` after an edit, given the old text and its tokens: the
/// tokens before the edit are reused, the rest are lexed anew, and the new
/// tokens are returned with the tree for the next edit.
pub fn reparse(
    table: &ParseTable,
    old_text: &Vec<u8>,
    old_toks: &Vec<Token>,
    e: &InputEdit,
    new_text: &Vec<u8>,
) -> (r: (Tree, Vec<Token>))
    requires
        table.wf(),
        lexes(table.rules@, old_text@, old_toks@),
        e.wf(),
        e.start_byte <= old_text@.len(),
        e.start_byte <= new_text@.len(),
        old_text@.subrange(0, e.start_byte as int) == new_text@.subrange(0, e.start_byte as int),
    ensures
        lexes(table.rules@, new_text@, r.1@),
        r.0.wf(),
        r.0.range() == (0int, new_text@.len() as int),
        r.0.steps <= step_bound(*table, r.1@.len() as int),
        tree_model(r.0) == parse_model(*table, r.1@, new_text@.len() as int),
{
    let toks = relex(&table.rules, old_text, old_toks, e, new_text);
    let tree = parse_tokens(table, &toks, new_text.len());
    (tree, toks)
}

/// Re-parsing after an edit gives, node for node, the tree that parsing the
/// new text from scratch gives: whatever tokens lex the new text, as the
/// reused and re-lexed tokens do, the engine builds the same tree from them.
pub proof fn lemma_incremental_matches_fresh(table: ParseTable, new_text: Seq<u8>, toks: Seq<Token>)
    requires
        lexes(table.rules@, new_text, toks),
    ensures
        parse_model(table, toks, new_text.len() as int) == parse_text_model(table, new_text),
{
    lemma_lexed(table.rules@, new_text, toks);
}

/// Parsing the same text twice gives structurally identical trees.
pub proof fn lemma_parse_idempotent(table: ParseTable, text: Seq<u8>, first: Tree, second: Tree)
    requires
        tree_model(first) == parse_text_model(table, text),
        tree_model(second) == parse_text_model(table, text),
    ensures
        tree_model(first) == tree_model(second),
{
}

} // verus!
