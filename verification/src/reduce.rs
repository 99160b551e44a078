//! Index plans of reductions over one dim, and of reducing a broadcast
//! gradient back to its operand's shape.
use vstd::prelude::*;
use vstd::slice::slice_to_vec;
use crate::kernels::{in_bounds, source_coord};
use crate::layout::{
    broadcast_view_strides, lemma_broadcast_gather_reads_source, lemma_row_major_index_bound, lemma_row_major_index_split,
    row_major_index,
    strided_elems,
};
use crate::shape::{
    broadcasts_to, lemma_prefix_prod_take, lemma_prod_split, lemma_suffix_prod_agree, lemma_suffix_prod_mono,
    lemma_suffix_prod_nonneg, lemma_suffix_prod_skip, prefix_prod, prefixes_fit, prod_after, prod_before,
    row_major_strides, shape_numel, sizes_fit, suffix_prod,
};

verus! {

/// The shape of a sum over `dim`: that dim kept with size 1 (`keepdim`), or
/// removed.
pub open spec fn reduced_shape_of(shape: Seq<usize>, dim: int, keepdim: bool) -> Seq<usize> {
    if keepdim { shape.update(dim, 1usize) } else { shape.remove(dim) }
}

/// The shape of a sum of `shape` over `dim`, PyTorch's keepdim semantics.
pub fn reduced_shape(shape: &[usize], dim: usize, keepdim: bool) -> (out: Vec<usize>)
    requires
        dim < shape@.len(),
    ensures
        out@ == reduced_shape_of(shape@, dim as int, keepdim),
{
    let mut out = slice_to_vec(shape);
    if keepdim {
        out.set(dim, 1);
    } else {
        out.remove(dim);
    }
    out
}

/// `targets` sends each input element `(a, k, b)` of a sum over `dim` of a
/// `shape` tensor (with `a` indexing the dims before `dim`, `k` along it and
/// `b` the dims after it) to output element `(a, b)` of the keepdim layout,
/// and every target lies inside that output.
pub open spec fn is_sum_dim_plan(shape: Seq<usize>, dim: int, targets: Seq<usize>) -> bool {
    let outer = prefix_prod(shape, dim);
    let n = shape[dim] as int;
    let inner = suffix_prod(shape, dim + 1);
    &&& targets.len() == shape_numel(shape)
    &&& forall|i: int| 0 <= i < targets.len() ==> #[trigger] targets[i] < outer * inner
    &&& forall|a: int, k: int, b: int|
        0 <= a < outer && 0 <= k < n && 0 <= b < inner ==> #[trigger] targets[(a * n + k) * inner + b] == a * inner + b
}

/// Where each input element of a sum over `dim` is added.
pub fn sum_dim_targets(shape: &[usize], dim: usize) -> (targets: Vec<usize>)
    requires
        dim < shape@.len(),
        sizes_fit(shape@),
        prefixes_fit(shape@, shape@.len() as int),
    ensures
        is_sum_dim_plan(shape@, dim as int, targets@),
{
    let outer = prod_before(shape, dim);
    let n = shape[dim];
    let inner = prod_after(shape, dim);
    proof {
        lemma_prod_split(shape@, dim as int);
        lemma_suffix_prod_nonneg(shape@, dim + 1);
        assert(outer * (n * inner) == shape_numel(shape@));
        assert(shape_numel(shape@) <= usize::MAX);
    }
    let mut targets: Vec<usize> = Vec::new();
    let mut a: usize = 0;
    while a < outer
        invariant
            a <= outer,
            outer * (n * inner) <= usize::MAX,
            targets@.len() == a * (n * inner),
            forall|i: int| 0 <= i < targets@.len() ==> #[trigger] targets@[i] < outer * inner,
            forall|a2: int, k: int, b: int|
                0 <= a2 < a && 0 <= k < n && 0 <= b < inner ==> #[trigger] targets@[(a2 * n + k) * inner + b]
                    == a2 * inner + b,
        decreases outer - a,
    {
        proof {
            assert(a * (n * inner) == (a * n + 0) * inner) by (nonlinear_arith);
        }
        let mut k: usize = 0;
        while k < n
            invariant
                a < outer,
                k <= n,
                outer * (n * inner) <= usize::MAX,
                targets@.len() == (a * n + k) * inner,
                forall|i: int| 0 <= i < targets@.len() ==> #[trigger] targets@[i] < outer * inner,
                forall|a2: int, k2: int, b: int|
                    0 <= b < inner && ((0 <= a2 < a && 0 <= k2 < n) || (a2 == a && 0 <= k2 < k))
                        ==> #[trigger] targets@[(a2 * n + k2) * inner + b] == a2 * inner + b,
            decreases n - k,
        {
            let mut b: usize = 0;
            while b < inner
                invariant
                    a < outer,
                    k < n,
                    b <= inner,
                    outer * (n * inner) <= usize::MAX,
                    targets@.len() == (a * n + k) * inner + b,
                    forall|i: int| 0 <= i < targets@.len() ==> #[trigger] targets@[i] < outer * inner,
                    forall|a2: int, k2: int, b2: int|
                        0 <= b2 < inner && ((0 <= a2 < a && 0 <= k2 < n) || (a2 == a && 0 <= k2 < k) || (a2 == a && k2 == k && b2 < b))
                            ==> #[trigger] targets@[(a2 * n + k2) * inner + b2] == a2 * inner + b2,
                decreases inner - b,
            {
                proof {
                    assert(a * inner + b < outer * inner) by (nonlinear_arith)
                        requires a < outer, b < inner;
                    assert(outer * inner <= outer * (n * inner)) by (nonlinear_arith)
                        requires n >= 1, inner >= 0, outer >= 0;
                }
                let ghost before = targets@;
                targets.push(a * inner + b);
                proof {
                    assert forall|a2: int, k2: int, b2: int|
                        0 <= b2 < inner && ((0 <= a2 < a && 0 <= k2 < n) || (a2 == a && 0 <= k2 < k) || (a2 == a && k2 == k && b2 < b + 1))
                            implies #[trigger] targets@[(a2 * n + k2) * inner + b2] == a2 * inner + b2 by {
                        if a2 == a && k2 == k && b2 == b {
                        } else {
                            assert((a2 * n + k2) * inner + b2 < (a * n + k) * inner + b) by (nonlinear_arith)
                                requires
                                    0 <= b2 < inner,
                                    n >= 1,
                                    (0 <= a2 < a && 0 <= k2 < n) || (a2 == a && 0 <= k2 < k) || (a2 == a && k2 == k && b2 < b),
                                    0 <= b,
                                    0 <= k;
                            assert(targets@[(a2 * n + k2) * inner + b2] == before[(a2 * n + k2) * inner + b2]);
                        }
                    }
                }
                b = b + 1;
            }
            proof {
                assert((a * n + k) * inner + inner == (a * n + k + 1) * inner) by (nonlinear_arith);
            }
            k = k + 1;
        }
        proof {
            assert((a * n + n) * inner == (a + 1) * (n * inner)) by (nonlinear_arith);
            assert(a * (n * inner) + n * inner == (a + 1) * (n * inner)) by (nonlinear_arith);
        }
        a = a + 1;
    }
    targets
}

/// The shape after applying a list of `(dim, keepdim)` sums in order.
pub open spec fn apply_sums(shape: Seq<usize>, plan: Seq<(usize, bool)>) -> Seq<usize>
    decreases plan.len(),
{
    if plan.len() == 0 {
        shape
    } else {
        reduced_shape_of(apply_sums(shape, plan.drop_last()), plan.last().0 as int, plan.last().1)
    }
}

/// How many leading dims of a gradient of shape `grad` the broadcast to it
/// added in front of `target`'s (none when the gradient has fewer dims).
pub open spec fn unbroadcast_lead(grad: Seq<usize>, target: Seq<usize>) -> int {
    if grad.len() >= target.len() { (grad.len() - target.len()) as int } else { 0 }
}

/// Dim `d` of `target` has size 1 while the gradient's dim aligned with it
/// (in `kept`, the gradient past its leading dims) does not.
pub open spec fn expanded_dim(kept: Seq<usize>, target: Seq<usize>, d: int) -> bool {
    &&& 0 <= d < target.len()
    &&& d < kept.len()
    &&& target[d] == 1
    &&& kept[d] != 1
}

/// `plan` reduces a gradient of shape `grad` towards `target`: it drops the
/// leading dims the broadcast added, then sums (keeping the dim) over each
/// size-1 dim of `target` that the gradient expanded, in increasing order,
/// and nothing else.
pub open spec fn is_unbroadcast_plan(grad: Seq<usize>, target: Seq<usize>, plan: Seq<(usize, bool)>) -> bool {
    let lead = unbroadcast_lead(grad, target);
    let kept = grad.subrange(lead, grad.len() as int);
    &&& plan.len() >= lead
    &&& forall|q: int| 0 <= q < lead ==> #[trigger] plan[q] == (0usize, false)
    &&& forall|q: int| lead <= q < plan.len() ==> {
        let d = (#[trigger] plan[q]).0 as int;
        &&& plan[q].1
        &&& expanded_dim(kept, target, d)
    }
    &&& forall|q: int, q2: int| lead <= q < q2 < plan.len() ==> (#[trigger] plan[q]).0 < (#[trigger] plan[q2]).0
    &&& forall|d: int| expanded_dim(kept, target, d) ==> exists|q: int| lead <= q < plan.len() && (#[trigger] plan[q]).0 == d
}

/// The sums that reduce a gradient of shape `grad` back to an operand of
/// shape `target` that was broadcast in the forward op: first the leading
/// dims the broadcast added (dim 0, dropped), then every size-1 dim of
/// `target` that the gradient expanded (kept with size 1).
pub fn unbroadcast_plan(grad: &[usize], target: &[usize]) -> (plan: Vec<(usize, bool)>)
    requires
        forall|d: int| grad@.len() <= d < target@.len() ==> #[trigger] target@[d] != 1,
    ensures
        is_unbroadcast_plan(grad@, target@, plan@),
{
    let mut plan: Vec<(usize, bool)> = Vec::new();
    let g = grad.len();
    let t = target.len();
    let lead = if g >= t { g - t } else { 0 };
    let mut q: usize = 0;
    while q < lead
        invariant
            q <= lead,
            plan@.len() == q,
            forall|q2: int| 0 <= q2 < q ==> #[trigger] plan@[q2] == (0usize, false),
        decreases lead - q,
    {
        plan.push((0, false));
        q = q + 1;
    }
    let ghost kept = grad@.subrange(lead as int, g as int);
    let mut d: usize = 0;
    while d < t
        invariant
            g == grad@.len(),
            t == target@.len(),
            lead == unbroadcast_lead(grad@, target@),
            kept == grad@.subrange(lead as int, g as int),
            forall|e: int| grad@.len() <= e < target@.len() ==> #[trigger] target@[e] != 1,
            d <= t,
            plan@.len() >= lead,
            forall|q2: int| 0 <= q2 < lead ==> #[trigger] plan@[q2] == (0usize, false),
            forall|q2: int| lead <= q2 < plan@.len() ==> {
                let e = (#[trigger] plan@[q2]).0 as int;
                &&& plan@[q2].1
                &&& e < d
                &&& expanded_dim(kept, target@, e)
            },
            forall|q: int, q2: int| lead <= q < q2 < plan@.len() ==> (#[trigger] plan@[q]).0 < (#[trigger] plan@[q2]).0,
            forall|e: int| 0 <= e < d && expanded_dim(kept, target@, e) ==> exists|q: int| lead <= q < plan@.len() && (#[trigger] plan@[q]).0 == e,
        decreases t - d,
    {
        if target[d] == 1 && grad[lead + d] != 1 {
            let ghost before = plan@;
            plan.push((d, true));
            proof {
                assert(expanded_dim(kept, target@, d as int));
                assert(plan@[plan@.len() - 1].0 == d);
                assert forall|e: int| 0 <= e < d + 1 && expanded_dim(kept, target@, e) implies exists|q: int| lead <= q < plan@.len() && (#[trigger] plan@[q]).0 == e by {
                    if e < d {
                        let q = choose|q: int| lead <= q < before.len() && (#[trigger] before[q]).0 == e;
                        assert(plan@[q] == before[q]);
                    } else {
                        assert(plan@[plan@.len() - 1].0 == e);
                    }
                }
            }
        } else {
            assert(!expanded_dim(kept, target@, d as int));
        }
        d = d + 1;
    }
    proof {
        assert forall|e: int| expanded_dim(kept, target@, e) implies exists|q: int| lead <= q < plan@.len() && (#[trigger] plan@[q]).0 == e by {
            assert(0 <= e < d);
        }
    }
    plan
}

proof fn lemma_apply_sums_keepdim(shape: Seq<usize>, plan: Seq<(usize, bool)>)
    requires
        forall|q: int| 0 <= q < plan.len() ==> (#[trigger] plan[q]).1 && plan[q].0 < shape.len(),
    ensures
        apply_sums(shape, plan).len() == shape.len(),
        forall|d: int| 0 <= d < shape.len() ==> #[trigger] apply_sums(shape, plan)[d] == (
            if exists|q: int| 0 <= q < plan.len() && (#[trigger] plan[q]).0 == d { 1usize } else { shape[d] }),
    decreases plan.len(),
{
    if plan.len() > 0 {
        let init = plan.drop_last();
        assert forall|q: int| 0 <= q < init.len() implies (#[trigger] init[q]).1 && init[q].0 < shape.len() by {
            assert(init[q] == plan[q]);
        }
        lemma_apply_sums_keepdim(shape, init);
        assert forall|d: int| 0 <= d < shape.len() implies #[trigger] apply_sums(shape, plan)[d] == (
            if exists|q: int| 0 <= q < plan.len() && (#[trigger] plan[q]).0 == d { 1usize } else { shape[d] }) by {
            if exists|q: int| 0 <= q < init.len() && (#[trigger] init[q]).0 == d {
                let q = choose|q: int| 0 <= q < init.len() && (#[trigger] init[q]).0 == d;
                assert(plan[q].0 == d);
            }
            if exists|q: int| 0 <= q < plan.len() && (#[trigger] plan[q]).0 == d {
                let q = choose|q: int| 0 <= q < plan.len() && (#[trigger] plan[q]).0 == d;
                if q < init.len() {
                    assert(init[q].0 == d);
                }
            }
        }
    }
}

proof fn lemma_apply_leading_drops(shape: Seq<usize>, plan: Seq<(usize, bool)>, m: int)
    requires
        0 <= m <= plan.len(),
        m <= shape.len(),
        forall|q: int| 0 <= q < m ==> #[trigger] plan[q] == (0usize, false),
    ensures
        apply_sums(shape, plan.subrange(0, m)) == shape.subrange(m, shape.len() as int),
    decreases m,
{
    if m > 0 {
        lemma_apply_leading_drops(shape, plan, m - 1);
        assert(plan.subrange(0, m).drop_last() =~= plan.subrange(0, m - 1));
        assert(shape.subrange(m - 1, shape.len() as int).remove(0) =~= shape.subrange(m, shape.len() as int));
    } else {
        assert(shape.subrange(0, shape.len() as int) =~= shape);
    }
}

proof fn lemma_apply_sums_append(shape: Seq<usize>, p1: Seq<(usize, bool)>, p2: Seq<(usize, bool)>)
    ensures
        apply_sums(shape, p1 + p2) == apply_sums(apply_sums(shape, p1), p2),
    decreases p2.len(),
{
    if p2.len() == 0 {
        assert(p1 + p2 =~= p1);
    } else {
        lemma_apply_sums_append(shape, p1, p2.drop_last());
        assert((p1 + p2).drop_last() =~= p1 + p2.drop_last());
    }
}

/// Reducing a broadcast gradient with [`unbroadcast_plan`] gives back
/// exactly the operand's shape, whenever the operand broadcasts to the
/// gradient's shape: the gradient each input of a broadcasting op receives
/// has that input's shape.
pub proof fn lemma_unbroadcast_restores_shape(grad: Seq<usize>, target: Seq<usize>, plan: Seq<(usize, bool)>)
    requires
        broadcasts_to(target, grad),
        is_unbroadcast_plan(grad, target, plan),
    ensures
        apply_sums(grad, plan) == target,
{
    let lead = (grad.len() - target.len()) as int;
    assert(lead == unbroadcast_lead(grad, target));
    let kept = grad.subrange(lead, grad.len() as int);
    let p1 = plan.subrange(0, lead);
    let p2 = plan.subrange(lead, plan.len() as int);
    assert(plan =~= p1 + p2);
    lemma_apply_sums_append(grad, p1, p2);
    lemma_apply_leading_drops(grad, plan, lead);
    assert forall|q: int| 0 <= q < p2.len() implies (#[trigger] p2[q]).1 && p2[q].0 < kept.len() by {
        assert(p2[q] == plan[lead + q]);
    }
    lemma_apply_sums_keepdim(kept, p2);
    let out = apply_sums(grad, plan);
    assert forall|d: int| 0 <= d < target.len() implies out[d] == target[d] by {
        assert(kept[d] == grad[lead + d]);
        if exists|q: int| 0 <= q < p2.len() && (#[trigger] p2[q]).0 == d {
            let q = choose|q: int| 0 <= q < p2.len() && (#[trigger] p2[q]).0 == d;
            assert(plan[lead + q] == p2[q]);
        }
        if target[d] == 1 && kept[d] != 1 {
            assert(expanded_dim(kept, target, d));
            let q = choose|q: int| lead <= q < plan.len() && (#[trigger] plan[q]).0 == d;
            assert(p2[q - lead] == plan[q]);
        }
    }
    assert(out =~= target);
}

/// The gradient of a sum over `dim` is the output gradient broadcast back
/// over that dim: at every input coordinate `c`, the keepdim gradient `g`,
/// viewed row-major and broadcast to the input's shape, holds the element
/// `targets[i]` of `g`, the very output element that the input element `i`
/// at `c` was added into.
pub proof fn lemma_sum_dim_gradient_broadcasts<T>(g: Seq<T>, shape: Seq<usize>, dim: int, targets: Seq<usize>, c: Seq<int>)
    requires
        0 <= dim < shape.len(),
        sizes_fit(shape),
        is_sum_dim_plan(shape, dim, targets),
        in_bounds(c, shape),
    ensures
        ({
            let keep = reduced_shape_of(shape, dim, true);
            let view = strided_elems(g, shape, broadcast_view_strides(keep, row_major_strides(keep), shape), 0);
            let i = row_major_index(shape, c);
            &&& 0 <= i < targets.len()
            &&& view[i] == g[targets[i] as int]
        }),
{
    let keep = shape.update(dim, 1usize);
    let n = shape[dim] as int;
    let inner = suffix_prod(shape, dim + 1);
    let outer = prefix_prod(shape, dim);
    // No dim is empty, since `c` lies inside the shape; so keeping `dim`
    // with size 1 only shrinks it.
    assert forall|k: int| 0 <= k < shape.len() implies keep[k] <= shape[k] by {
        assert(0 <= c[k] < shape[k]);
    }
    assert(sizes_fit(keep)) by {
        assert forall|d: int| 0 <= d <= keep.len() implies #[trigger] suffix_prod(keep, d) <= usize::MAX by {
            lemma_suffix_prod_mono(shape, keep, d);
        }
    }
    assert(broadcasts_to(keep, shape));
    lemma_broadcast_gather_reads_source(g, keep, shape, c);
    let ck = c.update(dim, 0);
    assert(source_coord(keep, c) =~= ck) by {
        assert forall|d: int| 0 <= d < keep.len() implies source_coord(keep, c)[d] == ck[d] by {
            if d != dim && shape[d] == 1 {
                assert(0 <= c[d] < 1);
            }
        }
    }
    // Split the input position at `dim`: (a * n + c[dim]) * inner + b.
    lemma_row_major_index_split(shape, c, dim);
    let a = row_major_index(shape.take(dim), c.take(dim));
    let tail = shape.skip(dim);
    let ctail = c.skip(dim);
    assert(tail.drop_first() =~= shape.skip(dim + 1));
    assert(ctail.drop_first() =~= c.skip(dim + 1));
    let b = row_major_index(shape.skip(dim + 1), c.skip(dim + 1));
    lemma_suffix_prod_skip(shape, dim, dim + 1);
    assert(row_major_index(tail, ctail) == c[dim] * inner + b);
    assert(suffix_prod(shape, dim) == n * inner);
    // Bounds of the two parts.
    assert(in_bounds(c.take(dim), shape.take(dim)));
    lemma_row_major_index_bound(shape.take(dim), c.take(dim));
    lemma_prefix_prod_take(shape, dim);
    assert(in_bounds(c.skip(dim + 1), shape.skip(dim + 1)));
    lemma_row_major_index_bound(shape.skip(dim + 1), c.skip(dim + 1));
    lemma_suffix_prod_skip(shape, dim + 1, dim + 1);
    assert(0 <= a < outer && 0 <= b < inner);
    assert(row_major_index(shape, c) == (a * n + c[dim]) * inner + b) by (nonlinear_arith)
        requires row_major_index(shape, c) == a * (n * inner) + (c[dim] * inner + b);
    assert(targets[(a * n + c[dim]) * inner + b] == a * inner + b);
    // The keepdim position of `ck` splits the same way: a * inner + b.
    lemma_row_major_index_split(keep, ck, dim);
    assert(keep.take(dim) =~= shape.take(dim));
    assert(ck.take(dim) =~= c.take(dim));
    assert(keep.skip(dim).drop_first() =~= shape.skip(dim + 1));
    assert(ck.skip(dim).drop_first() =~= c.skip(dim + 1));
    lemma_suffix_prod_agree(keep, shape, dim + 1);
    lemma_suffix_prod_skip(keep, dim, dim + 1);
    assert(ck.skip(dim)[0] == 0);
    assert(keep.skip(dim).len() > 0 && ck.skip(dim).len() > 0);
    assert(row_major_index(keep.skip(dim), ck.skip(dim)) == 0 * suffix_prod(keep.skip(dim), 1) + b);
    assert(row_major_index(keep.skip(dim), ck.skip(dim)) == b);
    assert(suffix_prod(keep, dim) == inner);
}

} // verus!
