//! Post-order topological sort of an autograd graph. Node `u`'s operands are
//! `inputs[u]`; the walk uses an explicit stack of (node, next operand), so
//! graphs deeper than the native stack cannot overflow it.
use vstd::prelude::*;

verus! {

/// Every operand names a node of the graph.
pub open spec fn graph_wf(inputs: Seq<Vec<usize>>) -> bool {
    forall|u: int, j: int| 0 <= u < inputs.len() && 0 <= j < inputs[u]@.len() ==> #[trigger] inputs[u]@[j] < inputs.len()
}

/// `rank` orders the graph: every operand ranks strictly below the node
/// that uses it.
pub open spec fn ranks_operands(inputs: Seq<Vec<usize>>, rank: Seq<nat>) -> bool {
    &&& rank.len() == inputs.len()
    &&& forall|u: int, j: int|
        0 <= u < inputs.len() && 0 <= j < inputs[u]@.len() ==> #[trigger] rank[inputs[u]@[j] as int] < rank[u]
}

/// The graph has no cycle: some ranking orders every operand below its
/// user (as creation order does for tensors, whose operands always exist
/// before the op's output).
pub open spec fn acyclic(inputs: Seq<Vec<usize>>) -> bool {
    exists|rank: Seq<nat>| ranks_operands(inputs, rank)
}

/// `v` occurs in `s` before position `a`.
pub open spec fn occurs_before(s: Seq<usize>, v: usize, a: int) -> bool {
    exists|b: int| 0 <= b < a && s[b] == v
}

/// No node occurs twice.
pub open spec fn no_repeats(s: Seq<usize>) -> bool {
    forall|a: int, b: int| 0 <= a < s.len() && 0 <= b < s.len() && a != b ==> s[a] != s[b]
}

/// Every operand of every listed node is listed before that node.
pub open spec fn operands_first(inputs: Seq<Vec<usize>>, s: Seq<usize>) -> bool {
    forall|a: int, j: int|
        0 <= a < s.len() && 0 <= j < inputs[s[a] as int]@.len() ==> occurs_before(s, #[trigger] inputs[s[a] as int]@[j], a)
}

/// Every listed node other than `root` is an operand of a node listed after
/// it: nothing unreachable from the root is listed.
pub open spec fn used_later(inputs: Seq<Vec<usize>>, s: Seq<usize>, root: usize) -> bool {
    forall|a: int|
        0 <= a < s.len() && s[a] != root ==> exists|b: int| a < b < s.len() && #[trigger] inputs[s[b] as int]@.contains(s[a])
}

/// A post-order of the nodes reachable from `root`: each exactly once,
/// operands before users, the root last.
pub open spec fn is_post_order(inputs: Seq<Vec<usize>>, s: Seq<usize>, root: usize) -> bool {
    &&& s.len() >= 1
    &&& s.last() == root
    &&& forall|a: int| 0 <= a < s.len() ==> #[trigger] s[a] < inputs.len()
    &&& no_repeats(s)
    &&& operands_first(inputs, s)
    &&& used_later(inputs, s, root)
}

/// `v` is on the walk's stack.
pub open spec fn on_stack(st: Seq<(usize, usize)>, v: usize) -> bool {
    exists|p: int| 0 <= p < st.len() && #[trigger] st[p].0 == v
}

/// How many nodes the walk has not reached yet.
pub open spec fn count_unseen(seen: Seq<bool>) -> nat
    decreases seen.len(),
{
    if seen.len() == 0 {
        0
    } else {
        count_unseen(seen.drop_last()) + if seen.last() { 0nat } else { 1nat }
    }
}

proof fn lemma_mark_seen(seen: Seq<bool>, c: int)
    requires
        0 <= c < seen.len(),
        !seen[c],
    ensures
        count_unseen(seen.update(c, true)) + 1 == count_unseen(seen),
    decreases seen.len(),
{
    let t = seen.update(c, true);
    if c == seen.len() - 1 {
        assert(t.drop_last() =~= seen.drop_last());
    } else {
        assert(t.drop_last() =~= seen.drop_last().update(c, true));
        lemma_mark_seen(seen.drop_last(), c);
    }
}

/// Operands of stack entries still to be visited.
pub open spec fn pending(inputs: Seq<Vec<usize>>, st: Seq<(usize, usize)>) -> int
    decreases st.len(),
{
    if st.len() == 0 {
        0
    } else {
        pending(inputs, st.drop_last()) + (inputs[st.last().0 as int]@.len() - st.last().1)
    }
}

proof fn lemma_pending_nonneg(inputs: Seq<Vec<usize>>, st: Seq<(usize, usize)>)
    requires
        forall|p: int| 0 <= p < st.len() ==> #[trigger] st[p].1 <= inputs[st[p].0 as int]@.len(),
    ensures
        pending(inputs, st) >= 0,
    decreases st.len(),
{
    if st.len() > 0 {
        assert forall|p: int| 0 <= p < st.drop_last().len() implies #[trigger] st.drop_last()[p].1 <= inputs[st.drop_last()[p].0 as int]@.len() by {
            assert(st.drop_last()[p] == st[p]);
        }
        lemma_pending_nonneg(inputs, st.drop_last());
        assert(st[st.len() - 1].1 <= inputs[st[st.len() - 1].0 as int]@.len());
    }
}

/// A ranking of an acyclic graph (see [`acyclic`]); it bounds the
/// depth-first walk below, whose result does not depend on which ranking
/// is taken.
pub open spec fn some_ranking(g: Seq<Vec<usize>>) -> Seq<nat> {
    choose|rank: Seq<nat>| ranks_operands(g, rank)
}

/// Depth-first visit of `u` when the nodes in `seen` are already reached:
/// `u` is marked, its operands are visited in order (skipping reached
/// ones), then `u` itself is listed. Returns the nodes listed and the
/// nodes reached afterwards.
pub open spec fn dfs_visit(g: Seq<Vec<usize>>, rank: Seq<nat>, u: usize, seen: Set<usize>) -> (Seq<usize>, Set<usize>)
    decreases rank[u as int], 1int, 0int,
{
    let r = dfs_operands(g, rank, u, 0, seen.insert(u));
    (r.0.push(u), r.1)
}

/// Depth-first visits of the operands of `u` from the `j`-th on, in order,
/// each one not yet reached when its turn comes.
pub open spec fn dfs_operands(g: Seq<Vec<usize>>, rank: Seq<nat>, u: usize, j: int, seen: Set<usize>) -> (
    Seq<usize>,
    Set<usize>,
)
    decreases rank[u as int], 0int, g[u as int]@.len() - j,
{
    if u >= g.len() || j < 0 || j >= g[u as int]@.len() {
        (Seq::empty(), seen)
    } else {
        let c = g[u as int]@[j];
        if c >= g.len() || rank[c as int] >= rank[u as int] {
            (Seq::empty(), seen)
        } else if seen.contains(c) {
            dfs_operands(g, rank, u, j + 1, seen)
        } else {
            let first = dfs_visit(g, rank, c, seen);
            let rest = dfs_operands(g, rank, u, j + 1, first.1);
            (first.0 + rest.0, rest.1)
        }
    }
}

/// The depth-first post-order from `root`: operands visited left to right,
/// each node listed once, when its last operand is done.
pub open spec fn depth_first_post_order(g: Seq<Vec<usize>>, root: usize) -> Seq<usize> {
    dfs_visit(g, some_ranking(g), root, Set::empty()).0
}

/// What the walk still lists from stack `st` (top last; each entry a node
/// and its next operand) when the nodes in `seen` are reached.
pub open spec fn dfs_resume(g: Seq<Vec<usize>>, rank: Seq<nat>, st: Seq<(usize, usize)>, seen: Set<usize>) -> Seq<usize>
    decreases st.len(),
{
    if st.len() == 0 {
        Seq::empty()
    } else {
        let r = dfs_operands(g, rank, st.last().0, st.last().1 as int, seen);
        r.0.push(st.last().0) + dfs_resume(g, rank, st.drop_last(), r.1)
    }
}

/// The nodes reachable from `root`, in post-order: every operand before the
/// node that uses it, each node once, the root last; precisely the
/// depth-first post-order that visits each node's operands left to right.
pub fn build_topo(inputs: &Vec<Vec<usize>>, root: usize) -> (topo: Vec<usize>)
    requires
        root < inputs@.len(),
        graph_wf(inputs@),
        acyclic(inputs@),
    ensures
        is_post_order(inputs@, topo@, root),
        topo@ == depth_first_post_order(inputs@, root),
{
    let ghost g = inputs@;
    let ghost rank = some_ranking(g);
    let ghost mut reached: Set<usize> = Set::empty().insert(root);
    let n = inputs.len();
    let mut seen: Vec<bool> = vec![false; n];
    let mut topo: Vec<usize> = Vec::new();
    let mut stack: Vec<(usize, usize)> = Vec::new();
    seen.set(root, true);
    stack.push((root, 0));
    proof {
        lemma_mark_seen(Seq::new(n as nat, |i: int| false), root as int);
        assert(seen@ =~= Seq::new(n as nat, |i: int| false).update(root as int, true));
        assert(stack@[0].0 == root);
        let st = stack@;
        assert(st.drop_last() =~= Seq::<(usize, usize)>::empty());
        assert(st.last() == (root, 0usize));
        let r = dfs_operands(g, rank, root, 0, reached);
        assert(dfs_resume(g, rank, st.drop_last(), r.1) == Seq::<usize>::empty());
        assert(dfs_resume(g, rank, st, reached) == r.0.push(root) + dfs_resume(g, rank, st.drop_last(), r.1));
        assert(depth_first_post_order(g, root) == r.0.push(root));
        assert(topo@ + dfs_resume(g, rank, st, reached) =~= depth_first_post_order(g, root));
    }
    while stack.len() > 0
        invariant
            forall|v: usize| v < n ==> (#[trigger] seen@[v as int] <==> reached.contains(v)),
            topo@ + dfs_resume(g, rank, stack@, reached) == depth_first_post_order(g, root),
            g == inputs@,
            n == g.len(),
            root < n,
            graph_wf(g),
            ranks_operands(g, rank),
            seen@.len() == n,
            // seen = listed or on the stack
            forall|v: usize| v < n ==> (#[trigger] seen@[v as int] <==> (topo@.contains(v) || on_stack(stack@, v))),
            forall|a: int| 0 <= a < topo@.len() ==> #[trigger] topo@[a] < n,
            forall|p: int| 0 <= p < stack@.len() ==> #[trigger] stack@[p].0 < n,
            no_repeats(topo@),
            forall|p: int, q: int| 0 <= p < stack@.len() && 0 <= q < stack@.len() && p != q ==> stack@[p].0 != stack@[q].0,
            forall|p: int| 0 <= p < stack@.len() ==> !topo@.contains(#[trigger] stack@[p].0),
            operands_first(g, topo@),
            // stack shape
            stack@.len() > 0 ==> stack@[0].0 == root,
            stack@.len() == 0 ==> topo@.len() >= 1 && topo@.last() == root,
            forall|p: int| 0 <= p < stack@.len() ==> #[trigger] stack@[p].1 <= g[stack@[p].0 as int]@.len(),
            forall|p: int| 0 <= p < stack@.len() - 1 ==> #[trigger] stack@[p].1 >= 1 && stack@[p + 1].0 == g[stack@[p].0 as int]@[stack@[p].1 - 1],
            forall|p: int, q: int| 0 <= p < q < stack@.len() ==> rank[#[trigger] stack@[q].0 as int] < rank[#[trigger] stack@[p].0 as int],
            // visited operands are listed
            forall|p: int, j: int|
                0 <= p < stack@.len() && 0 <= j < stack@[p].1 && (p == stack@.len() - 1 || j < stack@[p].1 - 1)
                    ==> topo@.contains(#[trigger] g[stack@[p].0 as int]@[j]),
            // nothing unreachable is listed
            forall|a: int|
                0 <= a < topo@.len() && topo@[a] != root ==> exists|u: usize|
                    (on_stack(stack@, u) || exists|b: int| a < b < topo@.len() && topo@[b] == u) && #[trigger] g[u as int]@.contains(topo@[a]),
        decreases count_unseen(seen@), pending(g, stack@) + stack@.len(),
    {
        let ghost st0 = stack@;
        let ghost tp0 = topo@;
        let ghost sn0 = seen@;
        let ghost rs0 = reached;
        let last = stack.len() - 1;
        let (t, i) = stack[last];
        stack.pop();
        let ghost st1 = stack@;
        assert(st1 =~= st0.drop_last());
        if i < inputs[t].len() {
            let child = inputs[t][i];
            stack.push((t, i + 1));
            let ghost st2 = stack@;
            assert(st2 =~= st1.push((t, (i + 1) as usize)));
            assert forall|p: int| 0 <= p < st2.len() implies #[trigger] st2[p].0 == st0[p].0 by {}
            assert forall|v: usize| on_stack(st2, v) == on_stack(st0, v) by {
                if on_stack(st0, v) {
                    let p = choose|p: int| 0 <= p < st0.len() && #[trigger] st0[p].0 == v;
                    assert(st2[p].0 == v);
                }
                if on_stack(st2, v) {
                    let p = choose|p: int| 0 <= p < st2.len() && #[trigger] st2[p].0 == v;
                    assert(st0[p].0 == v);
                }
            }
            assert(child < n);
            assert(rank[child as int] < rank[t as int]);
            if !seen[child] {
                seen.set(child, true);
                stack.push((child, 0));
                proof {
                    reached = rs0.insert(child);
                    lemma_mark_seen(sn0, child as int);
                    let st3 = stack@;
                    assert(st3 =~= st2.push((child, 0usize)));
                    assert(!tp0.contains(child));
                    assert(!on_stack(st0, child));
                    assert forall|v: usize| on_stack(st3, v) == (on_stack(st0, v) || v == child) by {
                        if on_stack(st2, v) {
                            let p = choose|p: int| 0 <= p < st2.len() && #[trigger] st2[p].0 == v;
                            assert(st3[p].0 == v);
                        }
                        if v == child {
                            assert(st3[st3.len() - 1].0 == v);
                        }
                        if on_stack(st3, v) {
                            let p = choose|p: int| 0 <= p < st3.len() && #[trigger] st3[p].0 == v;
                            if p < st2.len() {
                                assert(st2[p].0 == v);
                            }
                        }
                    }
                    assert forall|p: int, q: int| 0 <= p < q < st3.len() implies rank[#[trigger] st3[q].0 as int] < rank[#[trigger] st3[p].0 as int] by {
                        if q == st3.len() - 1 && p < st3.len() - 2 {
                            assert(rank[st0[last as int].0 as int] < rank[st0[p].0 as int]);
                        }
                    }
                    assert forall|p: int, q: int| 0 <= p < st3.len() && 0 <= q < st3.len() && p != q implies st3[p].0 != st3[q].0 by {
                        if p == st3.len() - 1 || q == st3.len() - 1 {
                            assert(rank[child as int] < rank[t as int]);
                        }
                    }
                    assert forall|pp: int, j: int|
                        0 <= pp < st3.len() && 0 <= j < st3[pp].1 && (pp == st3.len() - 1 || j < st3[pp].1 - 1)
                            implies tp0.contains(#[trigger] g[st3[pp].0 as int]@[j]) by {
                        if pp < st3.len() - 2 {
                            assert(st0[pp] == st3[pp]);
                        } else if pp == st3.len() - 2 {
                            assert(st0[pp].0 == t && st0[pp].1 == i);
                        }
                    }
                    assert forall|a: int|
                        0 <= a < tp0.len() && tp0[a] != root implies exists|u: usize|
                            (on_stack(st3, u) || exists|b: int| a < b < tp0.len() && tp0[b] == u) && #[trigger] g[u as int]@.contains(tp0[a]) by {
                        let u = choose|u: usize| (on_stack(st0, u) || exists|b: int| a < b < tp0.len() && tp0[b] == u) && #[trigger] g[u as int]@.contains(tp0[a]);
                        assert(on_stack(st3, u) || exists|b: int| a < b < tp0.len() && tp0[b] == u);
                    }
                    assert(count_unseen(seen@) < count_unseen(sn0));
                    // the walk enters `child`: the listing still to come is unchanged
                    assert(!rs0.contains(child));
                    let v = dfs_visit(g, rank, child, rs0);
                    let w = dfs_operands(g, rank, child, 0, rs0.insert(child));
                    assert(v.0 == w.0.push(child) && v.1 == w.1);
                    let o2 = dfs_operands(g, rank, t, i + 1, v.1);
                    assert(dfs_operands(g, rank, t, i as int, rs0) == (v.0 + o2.0, o2.1));
                    assert(st3.drop_last() =~= st2);
                    assert(st3.last() == (child, 0usize));
                    assert(dfs_resume(g, rank, st3, reached) == w.0.push(child) + dfs_resume(g, rank, st2, w.1));
                    assert(st2.drop_last() =~= st1);
                    assert(st2.last() == (t, (i + 1) as usize));
                    assert(dfs_resume(g, rank, st2, w.1) == o2.0.push(t) + dfs_resume(g, rank, st1, o2.1));
                    assert(st0.last() == (t, i));
                    assert(dfs_resume(g, rank, st0, rs0) == (v.0 + o2.0).push(t) + dfs_resume(g, rank, st1, o2.1));
                    assert(topo@ + dfs_resume(g, rank, st3, reached) =~= tp0 + dfs_resume(g, rank, st0, rs0));
                }
            } else {
                proof {
                    assert(seen@[child as int]);
                    if on_stack(st0, child) {
                        let p = choose|p: int| 0 <= p < st0.len() && #[trigger] st0[p].0 == child;
                        if p < last {
                            assert(rank[st0[last as int].0 as int] < rank[st0[p].0 as int]);
                        }
                    }
                    assert(tp0.contains(child));
                    assert forall|p: int, q: int| 0 <= p < q < st2.len() implies rank[#[trigger] st2[q].0 as int] < rank[#[trigger] st2[p].0 as int] by {
                        assert(st2[q].0 == st0[q].0 && st2[p].0 == st0[p].0);
                    }
                    assert forall|pp: int, j: int|
                        0 <= pp < st2.len() && 0 <= j < st2[pp].1 && (pp == st2.len() - 1 || j < st2[pp].1 - 1)
                            implies tp0.contains(#[trigger] g[st2[pp].0 as int]@[j]) by {
                        if pp < st2.len() - 1 {
                            assert(st0[pp] == st2[pp]);
                        } else if j < i {
                            assert(st0[pp].0 == t && st0[pp].1 == i);
                        }
                    }
                    assert forall|a: int|
                        0 <= a < tp0.len() && tp0[a] != root implies exists|u: usize|
                            (on_stack(st2, u) || exists|b: int| a < b < tp0.len() && tp0[b] == u) && #[trigger] g[u as int]@.contains(tp0[a]) by {
                        let u = choose|u: usize| (on_stack(st0, u) || exists|b: int| a < b < tp0.len() && tp0[b] == u) && #[trigger] g[u as int]@.contains(tp0[a]);
                        assert(on_stack(st2, u) || exists|b: int| a < b < tp0.len() && tp0[b] == u);
                    }
                    assert(st1 == st2.drop_last());
                    assert(pending(g, st2) == pending(g, st1) + (g[t as int]@.len() - (i + 1)));
                    assert(pending(g, st0) == pending(g, st1) + (g[t as int]@.len() - i));
                    assert(pending(g, st2) + st2.len() < pending(g, st0) + st0.len());
                    assert forall|p: int| 0 <= p < st2.len() implies #[trigger] st2[p].1 <= g[st2[p].0 as int]@.len() by {
                        if p < st2.len() - 1 {
                            assert(st2[p] == st0[p]);
                        }
                    }
                    lemma_pending_nonneg(g, st2);
                    // an operand already reached is skipped
                    assert(rs0.contains(child));
                    assert(dfs_operands(g, rank, t, i as int, rs0) == dfs_operands(g, rank, t, i + 1, rs0));
                    let o2 = dfs_operands(g, rank, t, i + 1, rs0);
                    assert(st2.last() == (t, (i + 1) as usize));
                    assert(dfs_resume(g, rank, st2, rs0) == o2.0.push(t) + dfs_resume(g, rank, st1, o2.1));
                    assert(st0.last() == (t, i));
                    assert(dfs_resume(g, rank, st0, rs0) == o2.0.push(t) + dfs_resume(g, rank, st1, o2.1));
                }
            }
        } else {
            topo.push(t);
            proof {
                let tp1 = topo@;
                assert(tp1 =~= tp0.push(t));
                assert(i == g[t as int]@.len());
                assert forall|v: usize| on_stack(st0, v) == (on_stack(st1, v) || v == t) by {
                    if on_stack(st1, v) {
                        let p = choose|p: int| 0 <= p < st1.len() && #[trigger] st1[p].0 == v;
                        assert(st0[p].0 == v);
                    }
                    if v == t {
                        assert(st0[last as int].0 == v);
                    }
                    if on_stack(st0, v) {
                        let p = choose|p: int| 0 <= p < st0.len() && #[trigger] st0[p].0 == v;
                        if p < last {
                            assert(st1[p].0 == v);
                        }
                    }
                }
                assert forall|v: usize| tp1.contains(v) == (tp0.contains(v) || v == t) by {
                    if tp1.contains(v) {
                        let a = choose|a: int| 0 <= a < tp1.len() && tp1[a] == v;
                        if a < tp0.len() {
                            assert(tp0[a] == v);
                        }
                    }
                    if tp0.contains(v) {
                        let a = choose|a: int| 0 <= a < tp0.len() && tp0[a] == v;
                        assert(tp1[a] == v);
                    }
                    if v == t {
                        assert(tp1[tp0.len() as int] == v);
                    }
                }
                assert(!tp0.contains(t));
                assert forall|a: int, b: int| 0 <= a < tp1.len() && 0 <= b < tp1.len() && a != b implies tp1[a] != tp1[b] by {
                    if a == tp0.len() {
                        assert(tp1[b] == tp0[b]);
                        if tp0[b] == t {
                            assert(tp0.contains(t));
                        }
                    } else if b == tp0.len() {
                        assert(tp0[a] == tp1[a]);
                    }
                }
                assert forall|a: int, j: int|
                    0 <= a < tp1.len() && 0 <= j < g[tp1[a] as int]@.len() implies occurs_before(tp1, #[trigger] g[tp1[a] as int]@[j], a) by {
                    if a < tp0.len() {
                        assert(occurs_before(tp0, g[tp0[a] as int]@[j], a));
                        let b = choose|b: int| 0 <= b < a && tp0[b] == g[tp0[a] as int]@[j];
                        assert(tp1[b] == tp0[b]);
                    } else {
                        assert(tp0.contains(g[t as int]@[j]));
                        let b = choose|b: int| 0 <= b < tp0.len() && tp0[b] == g[t as int]@[j];
                        assert(tp1[b] == tp0[b]);
                    }
                }
                assert forall|p: int| 0 <= p < st1.len() implies !tp1.contains(#[trigger] st1[p].0) by {
                    assert(st1[p] == st0[p]);
                    assert(st0[p].0 != st0[last as int].0);
                }
                assert forall|pp: int, j: int|
                    0 <= pp < st1.len() && 0 <= j < st1[pp].1 && (pp == st1.len() - 1 || j < st1[pp].1 - 1)
                        implies tp1.contains(#[trigger] g[st1[pp].0 as int]@[j]) by {
                    assert(st1[pp] == st0[pp]);
                    if pp == st1.len() - 1 && j == st1[pp].1 - 1 {
                        assert(st0[pp + 1].0 == g[st0[pp].0 as int]@[st0[pp].1 - 1]);
                    } else {
                        assert(tp0.contains(g[st0[pp].0 as int]@[j]));
                    }
                }
                assert forall|a: int|
                    0 <= a < tp1.len() && tp1[a] != root implies exists|u: usize|
                        (on_stack(st1, u) || exists|b: int| a < b < tp1.len() && tp1[b] == u) && #[trigger] g[u as int]@.contains(tp1[a]) by {
                    if a < tp0.len() {
                        let u = choose|u: usize| (on_stack(st0, u) || exists|b: int| a < b < tp0.len() && tp0[b] == u) && #[trigger] g[u as int]@.contains(tp0[a]);
                        if u == t {
                            assert(tp1[tp0.len() as int] == u);
                        } else if on_stack(st0, u) {
                            assert(on_stack(st1, u));
                        } else {
                            let b = choose|b: int| a < b < tp0.len() && tp0[b] == u;
                            assert(tp1[b] == u);
                        }
                        assert(tp1[a] == tp0[a]);
                    } else {
                        assert(last > 0);
                        let pu = st0[last - 1];
                        assert(st0[last as int].0 == g[pu.0 as int]@[pu.1 - 1]);
                        assert(g[pu.0 as int]@.contains(t));
                        assert(st1[last - 1].0 == pu.0);
                        assert(on_stack(st1, pu.0));
                    }
                }
                assert(st0.drop_last() == st1);
                assert(pending(g, st0) == pending(g, st1) + (g[t as int]@.len() - i));
                assert(pending(g, st1) + st1.len() < pending(g, st0) + st0.len());
                assert forall|p: int| 0 <= p < st1.len() implies #[trigger] st1[p].1 <= g[st1[p].0 as int]@.len() by {
                    assert(st1[p] == st0[p]);
                }
                lemma_pending_nonneg(g, st1);
                // every operand of `t` is done: `t` is listed next
                assert(dfs_operands(g, rank, t, i as int, rs0) == (Seq::<usize>::empty(), rs0));
                assert(st0.last() == (t, i));
                assert(dfs_resume(g, rank, st0, rs0) == Seq::<usize>::empty().push(t) + dfs_resume(g, rank, st1, rs0));
                assert(tp1 + dfs_resume(g, rank, st1, rs0) =~= tp0 + dfs_resume(g, rank, st0, rs0));
            }
        }
    }
    proof {
        assert(dfs_resume(g, rank, stack@, reached) == Seq::<usize>::empty());
        assert(topo@ =~= topo@ + Seq::<usize>::empty());
    }
    topo
}

} // verus!
