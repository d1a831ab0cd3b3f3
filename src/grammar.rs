use vstd::prelude::*;

verus! {

/// A symbol on the right-hand side of a production.
#[derive(Debug, Clone, Copy, PartialEq, Eq)]
pub enum GrammarSymbol {
    /// A token kind.
    Terminal(usize),
    /// A reference to a named rule, by index.
    Rule(usize),
}

/// One alternative of a rule: `lhs := rhs`.
#[derive(Debug, Clone, PartialEq, Eq)]
pub struct Production {
    pub lhs: usize,
    pub rhs: Vec<GrammarSymbol>,
    /// Precedence of the alternative; larger binds tighter.
    pub precedence: u32,
}

/// A grammar in flattened form: every combinator already expanded into alternatives.
#[derive(Debug, Clone, PartialEq, Eq)]
pub struct Grammar {
    pub rule_count: usize,
    pub productions: Vec<Production>,
}

/// Why a grammar could not be compiled.
#[derive(Debug, Clone, Copy, PartialEq, Eq)]
pub enum CompileError {
    /// A rule is referenced but has no alternative.
    UndefinedRule(usize),
    /// A rule cannot be reached from the start rule.
    UnreachableRule(usize),
    /// A rule derives itself without consuming anything.
    UnboundedRecursion(usize),
    /// A state would need more simultaneous parse paths than allowed.
    TooAmbiguous { state: usize, paths: usize },
}

/// How operators of equal precedence group.
#[derive(Debug, Clone, Copy, PartialEq, Eq)]
pub enum Assoc {
    Left,
    Right,
    NonAssoc,
}

/// The outcome of a shift/reduce conflict.
#[derive(Debug, Clone, Copy, PartialEq, Eq)]
pub enum Resolution {
    Shift,
    Reduce,
    /// Neither precedence nor associativity settles the conflict: the grammar is
    /// ambiguous at this point, and both actions remain candidates.
    Unresolved,
}

/// Rule `r` has at least one alternative.
pub open spec fn defines(g: Grammar, r: usize) -> bool {
    exists|p: int| 0 <= p < g.productions@.len() && (#[trigger] g.productions@[p]).lhs == r
}

/// Rule `r` is referenced on the right-hand side of some alternative.
pub open spec fn references(g: Grammar, r: usize) -> bool {
    exists|p: int, k: int|
        0 <= p < g.productions@.len() && 0 <= k < g.productions@[p].rhs@.len()
            && (#[trigger] g.productions@[p].rhs@[k]) == GrammarSymbol::Rule(r)
}

pub open spec fn resolve_spec(shift_prec: u32, reduce_prec: u32, assoc: Assoc) -> Resolution {
    if shift_prec > reduce_prec {
        Resolution::Shift
    } else if shift_prec < reduce_prec {
        Resolution::Reduce
    } else {
        match assoc {
            Assoc::Left => Resolution::Reduce,
            Assoc::Right => Resolution::Shift,
            Assoc::NonAssoc => Resolution::Unresolved,
        }
    }
}

/// Settles a shift/reduce conflict by precedence: the tighter side wins; at
/// equal precedence a left-associative operator reduces, a right-associative
/// one shifts, and a non-associative one stays unresolved.
pub fn resolve_shift_reduce(shift_prec: u32, reduce_prec: u32, assoc: Assoc) -> (r: Resolution)
    ensures
        r == resolve_spec(shift_prec, reduce_prec, assoc),
{
    if shift_prec > reduce_prec {
        Resolution::Shift
    } else if shift_prec < reduce_prec {
        Resolution::Reduce
    } else {
        match assoc {
            Assoc::Left => Resolution::Reduce,
            Assoc::Right => Resolution::Shift,
            Assoc::NonAssoc => Resolution::Unresolved,
        }
    }
}

/// Whether some alternative has `r` on its left-hand side.
pub fn is_defined(g: &Grammar, r: usize) -> (b: bool)
    ensures
        b == defines(*g, r),
{
    let mut p: usize = 0;
    while p < g.productions.len()
        invariant
            p <= g.productions@.len(),
            forall|q: int| 0 <= q < p ==> (#[trigger] g.productions@[q]).lhs != r,
        decreases g.productions@.len() - p,
    {
        if g.productions[p].lhs == r {
            return true;
        }
        p = p + 1;
    }
    false
}

/// Checks that every referenced rule is defined; otherwise names one that is not.
pub fn check_references(g: &Grammar) -> (r: Result<(), CompileError>)
    ensures
        r is Ok <==> forall|x: usize| references(*g, x) ==> defines(*g, x),
        r matches Err(e) ==> e matches CompileError::UndefinedRule(x) && references(*g, x)
            && !defines(*g, x),
{
    let mut p: usize = 0;
    while p < g.productions.len()
        invariant
            p <= g.productions@.len(),
            forall|q: int, k: int|
                0 <= q < p && 0 <= k < g.productions@[q].rhs@.len() ==> match (
                #[trigger] g.productions@[q].rhs@[k]) {
                    GrammarSymbol::Rule(x) => defines(*g, x),
                    GrammarSymbol::Terminal(_) => true,
                },
        decreases g.productions@.len() - p,
    {
        let rhs = &g.productions[p].rhs;
        let mut k: usize = 0;
        while k < rhs.len()
            invariant
                p < g.productions@.len(),
                rhs == g.productions@[p as int].rhs,
                k <= rhs@.len(),
                forall|j: int| 0 <= j < k ==> match (#[trigger] rhs@[j]) {
                    GrammarSymbol::Rule(x) => defines(*g, x),
                    GrammarSymbol::Terminal(_) => true,
                },
            decreases rhs@.len() - k,
        {
            match rhs[k] {
                GrammarSymbol::Rule(x) => {
                    if !is_defined(g, x) {
                        assert(references(*g, x)) by {
                            assert(g.productions@[p as int].rhs@[k as int] == GrammarSymbol::Rule(x));
                        }
                        return Err(CompileError::UndefinedRule(x));
                    }
                },
                GrammarSymbol::Terminal(_) => {},
            }
            k = k + 1;
        }
        p = p + 1;
    }
    assert forall|x: usize| references(*g, x) implies defines(*g, x) by {
        let (q, k) = choose|q: int, k: int|
            0 <= q < g.productions@.len() && 0 <= k < g.productions@[q].rhs@.len()
                && (#[trigger] g.productions@[q].rhs@[k]) == GrammarSymbol::Rule(x);
        assert(g.productions@[q].rhs@[k] == GrammarSymbol::Rule(x));
    }
    Ok(())
}

/// Rule `x` is referenced at an occurrence before position `k` of alternative
/// `p`, counting all of the alternatives before `p`.
pub open spec fn referenced_before(g: Grammar, x: usize, p: int, k: int) -> bool {
    exists|q: int, j: int|
        0 <= q <= p && q < g.productions@.len() && 0 <= j < g.productions@[q].rhs@.len() && (q < p
            || j < k) && (#[trigger] g.productions@[q].rhs@[j]) == GrammarSymbol::Rule(x)
}

/// Every rule that is referenced but has no alternative, each listed once.
pub fn undefined_rules(g: &Grammar) -> (r: Vec<usize>)
    ensures
        forall|x: usize| r@.contains(x) <==> references(*g, x) && !defines(*g, x),
        r@.no_duplicates(),
{
    let mut out: Vec<usize> = Vec::new();
    let mut p: usize = 0;
    while p < g.productions.len()
        invariant
            p <= g.productions@.len(),
            out@.no_duplicates(),
            forall|x: usize| #![trigger out@.contains(x)] #![trigger referenced_before(*g, x, p as int, 0)] out@.contains(x) <==> referenced_before(*g, x, p as int, 0) && !defines(*g, x),
        decreases g.productions@.len() - p,
    {
        let rhs = &g.productions[p].rhs;
        let mut k: usize = 0;
        while k < rhs.len()
            invariant
                p < g.productions@.len(),
                rhs == g.productions@[p as int].rhs,
                k <= rhs@.len(),
                out@.no_duplicates(),
                forall|x: usize| #![trigger out@.contains(x)] #![trigger referenced_before(*g, x, p as int, k as int)] out@.contains(x) <==> referenced_before(*g, x, p as int, k as int) && !defines(*g, x),
            decreases rhs@.len() - k,
        {
            let ghost before = out@;
            let ghost old_k = k as int;
            let ghost mut pushed: Option<usize> = None;
            match rhs[k] {
                GrammarSymbol::Rule(x) => {
                    if !is_defined(g, x) && !contains(&out, x) {
                        out.push(x);
                        proof {
                            pushed = Some(x);
                        }
                    }
                },
                GrammarSymbol::Terminal(_) => {},
            }
            assert(pushed is None ==> out@ == before);
            assert(pushed matches Some(y) ==> out@ == before.push(y) && rhs@[old_k] == GrammarSymbol::Rule(y)
                && !defines(*g, y) && !before.contains(y));
            k = k + 1;
            assert forall|x: usize|
                #![trigger out@.contains(x)]
                #![trigger referenced_before(*g, x, p as int, k as int)]
                out@.contains(x) <==> referenced_before(*g, x, p as int, k as int) && !defines(*g, x) by {
                assert(before.contains(x) <==> referenced_before(*g, x, p as int, old_k) && !defines(*g, x));
                if referenced_before(*g, x, p as int, k as int) && !referenced_before(*g, x, p as int, old_k) {
                    let (q, j) = choose|q: int, j: int|
                        0 <= q <= p && q < g.productions@.len() && 0 <= j < g.productions@[q].rhs@.len() && (q < p
                            || j < k) && (#[trigger] g.productions@[q].rhs@[j]) == GrammarSymbol::Rule(x);
                    if q < p || j < old_k {
                        assert(referenced_before(*g, x, p as int, old_k));
                    }
                    assert(rhs@[old_k] == GrammarSymbol::Rule(x));
                }
                if referenced_before(*g, x, p as int, old_k) {
                    let (q, j) = choose|q: int, j: int|
                        0 <= q <= p && q < g.productions@.len() && 0 <= j < g.productions@[q].rhs@.len() && (q < p
                            || j < old_k) && (#[trigger] g.productions@[q].rhs@[j]) == GrammarSymbol::Rule(x);
                    assert(referenced_before(*g, x, p as int, k as int));
                }
                if rhs@[old_k] == GrammarSymbol::Rule(x) {
                    assert(g.productions@[p as int].rhs@[old_k] == GrammarSymbol::Rule(x));
                    assert(referenced_before(*g, x, p as int, k as int));
                }
                if out@.contains(x) && !before.contains(x) {
                    let i = choose|i: int| 0 <= i < out@.len() && out@[i] == x;
                    if i < before.len() {
                        assert(before[i] == x);
                    }
                }
                if before.contains(x) {
                    let i = choose|i: int| 0 <= i < before.len() && before[i] == x;
                    assert(out@[i] == x);
                }
                if pushed == Some(x) {
                    assert(out@[before.len() as int] == x);
                }
            }
        }
        assert forall|x: usize| referenced_before(*g, x, p as int, k as int) == referenced_before(*g, x, p + 1, 0) by {
            if referenced_before(*g, x, p + 1, 0) {
                let (q, j) = choose|q: int, j: int|
                    0 <= q <= p + 1 && q < g.productions@.len() && 0 <= j < g.productions@[q].rhs@.len() && (q < p + 1
                        || j < 0) && (#[trigger] g.productions@[q].rhs@[j]) == GrammarSymbol::Rule(x);
                assert(referenced_before(*g, x, p as int, k as int));
            }
            if referenced_before(*g, x, p as int, k as int) {
                let (q, j) = choose|q: int, j: int|
                    0 <= q <= p && q < g.productions@.len() && 0 <= j < g.productions@[q].rhs@.len() && (q < p
                        || j < k) && (#[trigger] g.productions@[q].rhs@[j]) == GrammarSymbol::Rule(x);
                assert(referenced_before(*g, x, p + 1, 0));
            }
        }
        p = p + 1;
    }
    assert forall|x: usize| referenced_before(*g, x, p as int, 0) == references(*g, x) by {
        if references(*g, x) {
            let (q, j) = choose|q: int, j: int|
                0 <= q < g.productions@.len() && 0 <= j < g.productions@[q].rhs@.len()
                    && (#[trigger] g.productions@[q].rhs@[j]) == GrammarSymbol::Rule(x);
            assert(referenced_before(*g, x, p as int, 0));
        }
    }
    out
}

/// Whether `v` holds `x`.
fn contains(v: &Vec<usize>, x: usize) -> (r: bool)
    ensures
        r == v@.contains(x),
{
    let mut i: usize = 0;
    while i < v.len()
        invariant
            i <= v@.len(),
            forall|j: int| 0 <= j < i ==> v@[j] != x,
        decreases v@.len() - i,
    {
        if v[i] == x {
            return true;
        }
        i = i + 1;
    }
    false
}

/// Checks that no state needs more than `cap` parse paths at once; otherwise
/// names the first state that does.
pub fn check_ambiguity(paths: &Vec<usize>, cap: usize) -> (r: Result<(), CompileError>)
    ensures
        r is Ok <==> forall|s: int| 0 <= s < paths@.len() ==> #[trigger] paths@[s] <= cap,
        r matches Err(e) ==> e matches CompileError::TooAmbiguous { state, paths: n } && state
            < paths@.len() && n == paths@[state as int] && n > cap && forall|s: int|
            0 <= s < state ==> #[trigger] paths@[s] <= cap,
{
    let mut s: usize = 0;
    while s < paths.len()
        invariant
            s <= paths@.len(),
            forall|i: int| 0 <= i < s ==> #[trigger] paths@[i] <= cap,
        decreases paths@.len() - s,
    {
        if paths[s] > cap {
            return Err(CompileError::TooAmbiguous { state: s, paths: paths[s] });
        }
        s = s + 1;
    }
    Ok(())
}

/// Rule `b` appears in an alternative of rule `a`; both are rules of the grammar.
/// With `unit`, only alternatives that consist of that one rule count.
pub open spec fn derives_step(g: Grammar, unit: bool, a: usize, b: usize) -> bool {
    &&& a < g.rule_count
    &&& b < g.rule_count
    &&& exists|p: int, k: int|
        0 <= p < g.productions@.len() && g.productions@[p].lhs == a && 0 <= k
            < g.productions@[p].rhs@.len() && (#[trigger] g.productions@[p].rhs@[k])
            == GrammarSymbol::Rule(b) && (unit ==> g.productions@[p].rhs@.len() == 1)
}

/// `path` runs from `start`, each rule having the next in one of its alternatives.
pub open spec fn is_path(g: Grammar, unit: bool, start: usize, path: Seq<usize>) -> bool {
    &&& path.len() > 0
    &&& path[0] == start
    &&& forall|i: int| 0 <= i < path.len() - 1 ==> derives_step(g, unit, #[trigger] path[i], path[i + 1])
}

/// Rule `x` can be reached from `start`.
pub open spec fn reachable(g: Grammar, unit: bool, start: usize, x: usize) -> bool {
    exists|path: Seq<usize>| #[trigger] is_path(g, unit, start, path) && path.last() == x
}

/// `marks` holds the start rule and is closed under the alternatives of the rules it holds.
pub open spec fn closed(g: Grammar, unit: bool, start: usize, marks: Seq<bool>) -> bool {
    &&& marks.len() == g.rule_count
    &&& start < g.rule_count ==> marks[start as int]
    &&& forall|a: usize, b: usize| #[trigger] derives_step(g, unit, a, b) && marks[a as int] ==> marks[b as int]
}

pub open spec fn count_true(s: Seq<bool>) -> nat
    decreases s.len(),
{
    if s.len() == 0 {
        0
    } else {
        count_true(s.drop_last()) + if s.last() {
            1nat
        } else {
            0
        }
    }
}

proof fn lemma_count_bound(s: Seq<bool>)
    ensures
        count_true(s) <= s.len(),
    decreases s.len(),
{
    if s.len() > 0 {
        lemma_count_bound(s.drop_last());
    }
}

proof fn lemma_count_mark(s: Seq<bool>, i: int)
    requires
        0 <= i < s.len(),
        !s[i],
    ensures
        count_true(s.update(i, true)) == count_true(s) + 1,
    decreases s.len(),
{
    let u = s.update(i, true);
    if i == s.len() - 1 {
        assert(u.drop_last() =~= s.drop_last());
    } else {
        assert(u.drop_last() =~= s.drop_last().update(i, true));
        lemma_count_mark(s.drop_last(), i);
    }
}

/// Every rule on a path from `start` lies in any closed set.
pub proof fn lemma_closed_holds_path(g: Grammar, unit: bool, start: usize, marks: Seq<bool>, path: Seq<usize>, i: int)
    requires
        closed(g, unit, start, marks),
        start < g.rule_count,
        is_path(g, unit, start, path),
        0 <= i < path.len(),
    ensures
        path[i] < g.rule_count,
        marks[path[i] as int],
    decreases i,
{
    if i > 0 {
        lemma_closed_holds_path(g, unit, start, marks, path, i - 1);
        assert(derives_step(g, unit, path[i - 1], path[i]));
    }
}

/// Marks the rules reachable from `start`: entry `i` is set exactly when rule
/// `i` can be reached through the alternatives of the grammar.
pub fn reachable_rules(g: &Grammar, start: usize) -> (r: Vec<bool>)
    requires
        start < g.rule_count,
    ensures
        r@.len() == g.rule_count,
        forall|i: int| 0 <= i < g.rule_count ==> r@[i] == reachable(*g, false, start, i as usize),
{
    mark_reachable(g, start, false)
}

/// Marks the rules reachable from `start`, through any alternatives, or with
/// `unit` only through alternatives that are a single rule.
fn mark_reachable(g: &Grammar, start: usize, unit: bool) -> (r: Vec<bool>)
    requires
        start < g.rule_count,
    ensures
        r@.len() == g.rule_count,
        forall|i: int| 0 <= i < g.rule_count ==> r@[i] == reachable(*g, unit, start, i as usize),
{
    let n = g.rule_count;
    let mut marks: Vec<bool> = Vec::new();
    let mut i: usize = 0;
    while i < n
        invariant
            i <= n,
            marks@.len() == i,
            forall|j: int| 0 <= j < i ==> !marks@[j],
        decreases n - i,
    {
        marks.push(false);
        i = i + 1;
    }
    proof {
        lemma_count_mark(marks@, start as int);
        assert(is_path(*g, unit, start, seq![start]));
    }
    marks.set(start, true);
    proof {
        lemma_count_bound(marks@);
    }
    let mut changed = true;
    while changed
        invariant
            n == g.rule_count,
            start < n,
            marks@.len() == n,
            marks@[start as int],
            forall|j: int| 0 <= j < n && #[trigger] marks@[j] ==> reachable(*g, unit, start, j as usize),
            !changed ==> closed(*g, unit, start, marks@),
            count_true(marks@) <= n,
        decreases n - count_true(marks@) + if changed { 1int } else { 0 },
    {
        changed = false;
        let ghost round_start = count_true(marks@);
        let mut p: usize = 0;
        while p < g.productions.len()
            invariant
                n == g.rule_count,
                start < n,
                marks@.len() == n,
                marks@[start as int],
                forall|j: int| 0 <= j < n && #[trigger] marks@[j] ==> reachable(*g, unit, start, j as usize),
                p <= g.productions@.len(),
                count_true(marks@) <= n,
                changed ==> count_true(marks@) > round_start,
                !changed ==> count_true(marks@) == round_start,
                !changed ==> forall|q: int, k: int|
                    0 <= q < p && 0 <= k < g.productions@[q].rhs@.len() && g.productions@[q].lhs < n
                        && marks@[g.productions@[q].lhs as int] && (!unit || g.productions@[q].rhs@.len() == 1)
                        ==> match (
                    #[trigger] g.productions@[q].rhs@[k]) {
                        GrammarSymbol::Rule(b) => b < n ==> marks@[b as int],
                        GrammarSymbol::Terminal(_) => true,
                    },
            decreases g.productions@.len() - p,
        {
            let lhs = g.productions[p].lhs;
            if lhs < n && marks[lhs] && (!unit || g.productions[p].rhs.len() == 1) {
                let rhs = &g.productions[p].rhs;
                let ghost before = marks@;
                let ghost was_changed = changed;
                let mut k: usize = 0;
                while k < rhs.len()
                    invariant
                        n == g.rule_count,
                        start < n,
                        p < g.productions@.len(),
                        rhs == g.productions@[p as int].rhs,
                        lhs == g.productions@[p as int].lhs,
                        lhs < n,
                        !unit || rhs@.len() == 1,
                        marks@.len() == n,
                        marks@[lhs as int],
                        marks@[start as int],
                        forall|j: int| 0 <= j < n && #[trigger] marks@[j] ==> reachable(*g, unit, start, j as usize),
                        before.len() == n,
                        forall|j: int| 0 <= j < n && #[trigger] before[j] ==> marks@[j],
                        k <= rhs@.len(),
                        count_true(marks@) <= n,
                        changed ==> count_true(marks@) > round_start,
                        !changed ==> count_true(marks@) == round_start && marks@ == before,
                        was_changed ==> changed,
                        forall|j: int| 0 <= j < k ==> match (#[trigger] rhs@[j]) {
                            GrammarSymbol::Rule(b) => b < n ==> marks@[b as int],
                            GrammarSymbol::Terminal(_) => true,
                        },
                    decreases rhs@.len() - k,
                {
                    match rhs[k] {
                        GrammarSymbol::Rule(b) => {
                            if b < n && !marks[b] {
                                proof {
                                    let path = choose|path: Seq<usize>| #[trigger] is_path(*g, unit, start, path) && path.last() == lhs;
                                    assert(derives_step(*g, unit, lhs, b)) by {
                                        assert(g.productions@[p as int].rhs@[k as int] == GrammarSymbol::Rule(b));
                                    }
                                    let longer = path.push(b);
                                    assert(forall|i: int| 0 <= i < path.len() ==> longer[i] == path[i]);
                                    assert(is_path(*g, unit, start, longer));
                                    assert(reachable(*g, unit, start, b));
                                    lemma_count_mark(marks@, b as int);
                                    lemma_count_bound(marks@.update(b as int, true));
                                }
                                marks.set(b, true);
                                changed = true;
                            }
                        },
                        GrammarSymbol::Terminal(_) => {},
                    }
                    k = k + 1;
                }
            }
            p = p + 1;
        }
        proof {
            if !changed {
                assert forall|a: usize, b: usize| #[trigger] derives_step(*g, unit, a, b) && marks@[a as int] implies marks@[b as int] by {
                    let (q, k) = choose|q: int, k: int|
                        0 <= q < g.productions@.len() && g.productions@[q].lhs == a && 0 <= k
                            < g.productions@[q].rhs@.len() && (#[trigger] g.productions@[q].rhs@[k])
                            == GrammarSymbol::Rule(b) && (unit ==> g.productions@[q].rhs@.len() == 1);
                    assert(g.productions@[q].rhs@[k] == GrammarSymbol::Rule(b));
                }
            }
        }
    }
    proof {
        assert forall|i: int| 0 <= i < g.rule_count implies marks@[i] == reachable(*g, unit, start, i as usize) by {
            if reachable(*g, unit, start, i as usize) {
                let path = choose|path: Seq<usize>| #[trigger] is_path(*g, unit, start, path) && path.last() == i as usize;
                lemma_closed_holds_path(*g, unit, start, marks@, path, path.len() - 1);
            }
        }
    }
    marks
}

/// Rule `x` derives itself while consuming nothing: it lies on a cycle of
/// alternatives that each consist of a single rule.
pub open spec fn unit_cyclic(g: Grammar, x: usize) -> bool {
    exists|y: usize| #[trigger] derives_step(g, true, x, y) && reachable(g, true, y, x)
}

/// Checks that no rule derives itself while consuming nothing; otherwise
/// names the first rule that does.
pub fn check_unit_cycles(g: &Grammar) -> (r: Result<(), CompileError>)
    ensures
        r is Ok <==> forall|x: usize| x < g.rule_count ==> !unit_cyclic(*g, x),
        r matches Err(e) ==> e matches CompileError::UnboundedRecursion(x) && x < g.rule_count
            && unit_cyclic(*g, x) && forall|i: usize| i < x ==> !unit_cyclic(*g, i),
{
    let n = g.rule_count;
    let mut x: usize = 0;
    while x < n
        invariant
            n == g.rule_count,
            x <= n,
            forall|i: usize| i < x ==> !unit_cyclic(*g, i),
        decreases n - x,
    {
        let mut p: usize = 0;
        while p < g.productions.len()
            invariant
                n == g.rule_count,
                x < n,
                p <= g.productions@.len(),
                forall|i: usize| i < x ==> !unit_cyclic(*g, i),
                forall|q: int|
                    0 <= q < p && g.productions@[q].lhs == x && g.productions@[q].rhs@.len() == 1
                        ==> match #[trigger] g.productions@[q].rhs@[0] {
                        GrammarSymbol::Rule(y) => y < n ==> !reachable(*g, true, y, x),
                        GrammarSymbol::Terminal(_) => true,
                    },
            decreases g.productions@.len() - p,
        {
            let prod = &g.productions[p];
            if prod.lhs == x && prod.rhs.len() == 1 {
                match prod.rhs[0] {
                    GrammarSymbol::Rule(y) => {
                        if y < n {
                            let marks = mark_reachable(g, y, true);
                            if marks[x] {
                                proof {
                                    assert(g.productions@[p as int].rhs@[0] == GrammarSymbol::Rule(y));
                                    assert(derives_step(*g, true, x, y));
                                    assert(reachable(*g, true, y, x as usize));
                                    assert(unit_cyclic(*g, x));
                                }
                                return Err(CompileError::UnboundedRecursion(x));
                            }
                        }
                    },
                    GrammarSymbol::Terminal(_) => {},
                }
            }
            p = p + 1;
        }
        assert(!unit_cyclic(*g, x)) by {
            if unit_cyclic(*g, x) {
                let y = choose|y: usize| #[trigger] derives_step(*g, true, x, y) && reachable(*g, true, y, x);
                let (q, k) = choose|q: int, k: int|
                    0 <= q < g.productions@.len() && g.productions@[q].lhs == x && 0 <= k
                        < g.productions@[q].rhs@.len() && (#[trigger] g.productions@[q].rhs@[k])
                        == GrammarSymbol::Rule(y) && (true ==> g.productions@[q].rhs@.len() == 1);
                assert(k == 0);
                assert(g.productions@[q].rhs@[0] == GrammarSymbol::Rule(y));
            }
        }
        x = x + 1;
    }
    Ok(())
}

/// Checks that every rule can be reached from `start`; otherwise names the
/// first one that cannot.
pub fn check_reachable(g: &Grammar, start: usize) -> (r: Result<(), CompileError>)
    requires
        start < g.rule_count,
    ensures
        r is Ok <==> forall|i: usize| i < g.rule_count ==> reachable(*g, false, start, i),
        r matches Err(e) ==> e matches CompileError::UnreachableRule(x) && x < g.rule_count
            && !reachable(*g, false, start, x) && forall|i: usize| i < x ==> reachable(*g, false, start, i),
{
    let marks = reachable_rules(g, start);
    let mut i: usize = 0;
    while i < g.rule_count
        invariant
            i <= g.rule_count,
            marks@.len() == g.rule_count,
            forall|j: int| 0 <= j < g.rule_count ==> marks@[j] == reachable(*g, false, start, j as usize),
            forall|j: usize| j < i ==> reachable(*g, false, start, j),
        decreases g.rule_count - i,
    {
        if !marks[i] {
            return Err(CompileError::UnreachableRule(i));
        }
        i = i + 1;
    }
    Ok(())
}

} // verus!
