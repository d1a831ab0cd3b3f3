use vstd::prelude::*;

verus! {

/// A syntax node. Nodes live in the arena of their [`Tree`]; `children` holds
/// arena indices, each smaller than the node's own.
#[derive(Debug, Clone, PartialEq, Eq)]
pub struct Node {
    pub symbol: usize,
    pub start: usize,
    pub end: usize,
    pub children: Vec<usize>,
    pub is_error: bool,
    pub is_missing: bool,
    /// Set by an edit whose range touches the node's range.
    pub damaged: bool,
}

/// A syntax tree: an arena of nodes and the index of its root.
#[derive(Debug, Clone, PartialEq, Eq)]
pub struct Tree {
    pub nodes: Vec<Node>,
    pub root: usize,
    /// Parser steps that building the tree took.
    pub steps: usize,
}

/// The nodes `s` lie one after another and together span `[from, to]`.
pub open spec fn covers(nodes: Seq<Node>, s: Seq<usize>, from: int, to: int) -> bool {
    &&& forall|k: int| 0 <= k < s.len() ==> (#[trigger] s[k]) < nodes.len()
    &&& s.len() == 0 ==> from == to
    &&& s.len() > 0 ==> nodes[s[0] as int].start == from && nodes[s.last() as int].end == to
    &&& forall|k: int|
        0 <= k < s.len() - 1 ==> nodes[(#[trigger] s[k]) as int].end == nodes[s[k + 1] as int].start
}

/// Node `i` has an ordered range, and its children come before it in the arena
/// and tile its range exactly.
pub open spec fn node_wf(nodes: Seq<Node>, i: int) -> bool {
    let n = nodes[i];
    &&& n.start <= n.end
    &&& forall|k: int| 0 <= k < n.children@.len() ==> (#[trigger] n.children@[k]) < i
    &&& n.children@.len() > 0 ==> covers(nodes, n.children@, n.start as int, n.end as int)
}

pub open spec fn nodes_wf(nodes: Seq<Node>) -> bool {
    forall|i: int| 0 <= i < nodes.len() ==> #[trigger] node_wf(nodes, i)
}

impl Tree {
    pub open spec fn wf(&self) -> bool {
        &&& nodes_wf(self.nodes@)
        &&& self.root < self.nodes@.len()
    }

    /// The byte range that the whole tree covers.
    pub open spec fn range(&self) -> (int, int) {
        (self.nodes@[self.root as int].start as int, self.nodes@[self.root as int].end as int)
    }
}

/// Appending a node leaves the earlier nodes well formed.
pub proof fn lemma_push_keeps_wf(nodes: Seq<Node>, x: Node)
    requires
        nodes_wf(nodes),
        node_wf(nodes.push(x), nodes.len() as int),
    ensures
        nodes_wf(nodes.push(x)),
{
    let p = nodes.push(x);
    assert forall|i: int| 0 <= i < p.len() implies #[trigger] node_wf(p, i) by {
        if i < nodes.len() {
            assert(node_wf(nodes, i));
            let ch = nodes[i].children@;
            assert(p[i] == nodes[i]);
            assert forall|k: int| 0 <= k < ch.len() implies p[ch[k] as int] == nodes[ch[k] as int] by {
                assert(ch[k] < i);
            }
        }
    }
}

/// Covering is kept when the arena grows.
pub proof fn lemma_covers_push_arena(nodes: Seq<Node>, s: Seq<usize>, from: int, to: int, x: Node)
    requires
        covers(nodes, s, from, to),
    ensures
        covers(nodes.push(x), s, from, to),
{
    let p = nodes.push(x);
    assert forall|k: int| 0 <= k < s.len() implies p[s[k] as int] == nodes[s[k] as int] by {
        assert(s[k] < nodes.len());
    }
}

/// A covering sequence extended by a node that starts where it ends.
pub proof fn lemma_covers_extend(nodes: Seq<Node>, s: Seq<usize>, from: int, to: int, i: usize)
    requires
        covers(nodes, s, from, to),
        i < nodes.len(),
        nodes[i as int].start == to,
    ensures
        covers(nodes, s.push(i), from, nodes[i as int].end as int),
{
    let q = s.push(i);
    assert(q.last() == i);
    assert forall|k: int| 0 <= k < q.len() - 1 implies nodes[(#[trigger] q[k]) as int].end
        == nodes[q[k + 1] as int].start by {
        assert(q[k] == s[k]);
        if k < s.len() - 1 {
            assert(q[k + 1] == s[k + 1]);
        }
    }
    assert forall|k: int| 0 <= k < q.len() implies (#[trigger] q[k]) < nodes.len() by {
        if k < s.len() {
            assert(q[k] == s[k]);
        }
    }
}

/// A covering sequence cut in two: both parts cover, meeting where the second begins.
pub proof fn lemma_covers_split(nodes: Seq<Node>, s: Seq<usize>, from: int, to: int, m: int)
    requires
        covers(nodes, s, from, to),
        0 <= m < s.len(),
    ensures
        covers(nodes, s.subrange(0, m), from, nodes[s[m] as int].start as int),
        covers(nodes, s.subrange(m, s.len() as int), nodes[s[m] as int].start as int, to),
{
    let a = s.subrange(0, m);
    let b = s.subrange(m, s.len() as int);
    assert forall|k: int| 0 <= k < a.len() implies (#[trigger] a[k]) < nodes.len() by {
        assert(a[k] == s[k]);
    }
    assert forall|k: int| 0 <= k < a.len() - 1 implies nodes[(#[trigger] a[k]) as int].end
        == nodes[a[k + 1] as int].start by {
        assert(a[k] == s[k]);
        assert(a[k + 1] == s[k + 1]);
    }
    if m > 0 {
        assert(a.last() == s[m - 1]);
        assert(nodes[s[m - 1] as int].end == nodes[s[m] as int].start);
    }
    assert forall|k: int| 0 <= k < b.len() implies (#[trigger] b[k]) < nodes.len() by {
        assert(b[k] == s[m + k]);
    }
    assert forall|k: int| 0 <= k < b.len() - 1 implies nodes[(#[trigger] b[k]) as int].end
        == nodes[b[k + 1] as int].start by {
        assert(b[k] == s[m + k]);
        assert(b[k + 1] == s[m + k + 1]);
    }
    assert(b.last() == s.last());
}

/// A covering sequence of well-formed nodes spans an ordered range.
pub proof fn lemma_covers_ordered(nodes: Seq<Node>, s: Seq<usize>, from: int, to: int)
    requires
        nodes_wf(nodes),
        covers(nodes, s, from, to),
    ensures
        from <= to,
    decreases s.len(),
{
    if s.len() > 0 {
        let m = s.len() - 1;
        lemma_covers_split(nodes, s, from, to, m);
        lemma_covers_ordered(nodes, s.subrange(0, m), from, nodes[s[m] as int].start as int);
        assert(node_wf(nodes, s[m] as int));
    }
}

} // verus!
