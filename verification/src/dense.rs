//! Operations that only move elements: concatenation, row selection and
//! one-hot encoding over dense row-major buffers of any element type.
use vstd::prelude::*;
use vstd::slice::slice_to_vec;
use vstd::string::*;
use crate::dtype::DType;
use crate::error::{dim_out_of_range, dim_range_msg, Error};
use crate::text::{decimal, push_decimal, push_i64, push_sizes, signed_decimal, sizes_text};
use crate::shape::{
    lemma_prefix_prod_agree, lemma_prefix_prod_nonneg, lemma_prod_split, lemma_suffix_prod_agree,
    lemma_suffix_prod_nonneg, prefix_prod, prefixes_fit, prod_after, prod_before, shape_numel,
    sizes_fit, suffix_prod,
};

verus! {

/// A dense row-major tensor value: its shape and its elements.
#[derive(Clone, Debug)]
pub struct Dense<T> {
    pub shape: Vec<usize>,
    pub data: Vec<T>,
}

impl<T> Dense<T> {
    /// The data holds exactly `numel(shape)` elements, and the products of
    /// the shape's dims fit in a `usize`.
    pub open spec fn wf(&self) -> bool {
        &&& sizes_fit(self.shape@)
        &&& prefixes_fit(self.shape@, self.shape@.len() as int)
        &&& self.data@.len() == shape_numel(self.shape@)
    }
}

/// Appends `src[lo..hi]` to `out`.
fn push_range<T: Copy>(out: &mut Vec<T>, src: &[T], lo: usize, hi: usize)
    requires
        lo <= hi <= src@.len(),
    ensures
        final(out)@ == old(out)@ + src@.subrange(lo as int, hi as int),
{
    let mut k = lo;
    while k < hi
        invariant
            lo <= k <= hi,
            hi <= src@.len(),
            out@ == old(out)@ + src@.subrange(lo as int, k as int),
        decreases hi - k,
    {
        out.push(src[k]);
        assert(src@.subrange(lo as int, k + 1) =~= src@.subrange(lo as int, k as int).push(src@[k as int]));
        k = k + 1;
    }
}

// ---------------------------------------------------------------------------
// cat

/// `s` can be concatenated with `base` along `dim`: same rank, and every
/// other dim equal.
pub open spec fn cat_compatible(base: Seq<usize>, s: Seq<usize>, dim: int) -> bool {
    &&& s.len() == base.len()
    &&& forall|d: int| 0 <= d < s.len() && d != dim ==> #[trigger] s[d] == base[d]
}

/// Sum of the first `t` parts' sizes along `dim`.
pub open spec fn cat_extent<T>(parts: Seq<Dense<T>>, dim: int, t: int) -> int
    decreases t,
{
    if t <= 0 {
        0
    } else {
        cat_extent(parts, dim, t - 1) + parts[t - 1].shape@[dim]
    }
}

/// Row `o` of the concatenation, from the first `t` parts: each part
/// contributes its contiguous block of `shape[dim] * inner` elements.
pub open spec fn cat_row<T>(parts: Seq<Dense<T>>, dim: int, inner: int, o: int, t: int) -> Seq<T>
    decreases t,
{
    if t <= 0 {
        Seq::empty()
    } else {
        let b = parts[t - 1].shape@[dim] * inner;
        cat_row(parts, dim, inner, o, t - 1) + parts[t - 1].data@.subrange(o * b, (o + 1) * b)
    }
}

/// The first `o` rows of the concatenation.
pub open spec fn cat_rows<T>(parts: Seq<Dense<T>>, dim: int, inner: int, o: int) -> Seq<T>
    decreases o,
{
    if o <= 0 {
        Seq::empty()
    } else {
        cat_rows(parts, dim, inner, o - 1) + cat_row(parts, dim, inner, o - 1, parts.len() as int)
    }
}

/// Index of the first part (after the first) that cannot be concatenated
/// with the first, if any.
pub open spec fn first_misfit<T>(parts: Seq<Dense<T>>, dim: int, t: int) -> bool {
    &&& 1 <= t < parts.len()
    &&& !cat_compatible(parts[0].shape@, parts[t].shape@, dim)
    &&& forall|u: int| 1 <= u < t ==> cat_compatible(parts[0].shape@, #[trigger] parts[u].shape@, dim)
}

/// Total number of elements over all parts.
pub open spec fn total_len<T>(parts: Seq<Dense<T>>, t: int) -> int
    decreases t,
{
    if t <= 0 { 0 } else { total_len(parts, t - 1) + parts[t - 1].data@.len() }
}

/// Concatenate `parts` along `dim`. For each index of the dims before
/// `dim`, each part contributes its contiguous block in order.
pub fn cat<T: Copy>(parts: &[Dense<T>], dim: usize) -> (r: Result<Dense<T>, Error>)
    requires
        forall|t: int| 0 <= t < parts@.len() ==> (#[trigger] parts@[t]).wf(),
        parts@.len() > 0 && dim < parts@[0].shape@.len() && !(exists|t: int| first_misfit(parts@, dim as int, t))
            ==> cat_extent(parts@, dim as int, parts@.len() as int) <= usize::MAX,
    ensures
        parts@.len() == 0 ==> (r matches Err(Error::InvalidShape { op, msg }) && op@ == "cat"@
            && msg@ == "expected a non-empty list of tensors"@),
        parts@.len() > 0 && dim >= parts@[0].shape@.len() ==> (r matches Err(Error::InvalidShape { op, msg })
            && op@ == "cat"@ && msg@ == dim_range_msg(dim, parts@[0].shape@.len() as usize)),
        parts@.len() > 0 && dim < parts@[0].shape@.len() && (exists|t: int| first_misfit(parts@, dim as int, t)) ==> (
            r matches Err(Error::ShapeMismatch { op, lhs, rhs }) && op@ == "cat"@ && lhs@ == parts@[0].shape@
            && exists|t: int| #[trigger] first_misfit(parts@, dim as int, t) && rhs@ == parts@[t].shape@),
        parts@.len() > 0 && dim < parts@[0].shape@.len() && !(exists|t: int| first_misfit(parts@, dim as int, t)) ==> (
            r matches Ok(out)
            && out.shape@ == parts@[0].shape@.update(dim as int, cat_extent(parts@, dim as int, parts@.len() as int) as usize)
            && out.data@.len() == shape_numel(out.shape@)
            && out.data@ == cat_rows(parts@, dim as int, suffix_prod(parts@[0].shape@, dim + 1),
                prefix_prod(parts@[0].shape@, dim as int))),
{
    if parts.len() == 0 {
        return Err(Error::InvalidShape { op: "cat", msg: String::from_str("expected a non-empty list of tensors") });
    }
    let base = &parts[0].shape;
    if dim >= base.len() {
        return Err(dim_out_of_range("cat", dim, base.len()));
    }
    let m = parts.len();
    let mut t: usize = 1;
    while t < m
        invariant
            1 <= t <= m,
            m == parts@.len(),
            base@ == parts@[0].shape@,
            dim < base@.len(),
            forall|u: int| 1 <= u < t ==> cat_compatible(base@, #[trigger] parts@[u].shape@, dim as int),
        decreases m - t,
    {
        let s = &parts[t].shape;
        let mut ok = s.len() == base.len();
        let mut d: usize = 0;
        while ok && d < s.len()
            invariant
                d <= s@.len(),
                ok ==> s@.len() == base@.len(),
                ok ==> forall|e: int| 0 <= e < d && e != dim ==> #[trigger] s@[e] == base@[e],
                !ok ==> !cat_compatible(base@, s@, dim as int),
            decreases s@.len() - d,
        {
            if d != dim && s[d] != base[d] {
                ok = false;
            }
            d = d + 1;
        }
        if !ok {
            assert(first_misfit(parts@, dim as int, t as int));
            return Err(Error::ShapeMismatch { op: "cat", lhs: base.clone(), rhs: s.clone() });
        }
        t = t + 1;
    }
    assert forall|t: int| !first_misfit(parts@, dim as int, t) by {}
    let outer = prod_before(base.as_slice(), dim);
    let inner = prod_after(base.as_slice(), dim);
    let mut cat_size: usize = 0;
    let mut t: usize = 0;
    while t < m
        invariant
            t <= m,
            m == parts@.len(),
            forall|t: int| 0 <= t < parts@.len() ==> (#[trigger] parts@[t]).wf(),
            base@ == parts@[0].shape@,
            dim < base@.len(),
            cat_extent(parts@, dim as int, m as int) <= usize::MAX,
            forall|u: int| 1 <= u < m ==> cat_compatible(base@, #[trigger] parts@[u].shape@, dim as int),
            cat_size as int == cat_extent(parts@, dim as int, t as int),
        decreases m - t,
    {
        proof {
            lemma_cat_extent_mono(parts@, dim as int, t + 1, m as int);
        }
        cat_size = cat_size + parts[t].shape[dim];
        t = t + 1;
    }
    let mut data: Vec<T> = Vec::new();
    let mut o: usize = 0;
    while o < outer
        invariant
            o <= outer,
            m == parts@.len(),
            forall|t: int| 0 <= t < parts@.len() ==> (#[trigger] parts@[t]).wf(),
            base@ == parts@[0].shape@,
            dim < base@.len(),
            outer as int == prefix_prod(base@, dim as int),
            inner as int == suffix_prod(base@, dim + 1),
            forall|u: int| 1 <= u < m ==> cat_compatible(base@, #[trigger] parts@[u].shape@, dim as int),
            data@ == cat_rows(parts@, dim as int, inner as int, o as int),
        decreases outer - o,
    {
        let ghost row_start = data@;
        let mut t: usize = 0;
        while t < m
            invariant
                t <= m,
                o < outer,
                m == parts@.len(),
                forall|t: int| 0 <= t < parts@.len() ==> (#[trigger] parts@[t]).wf(),
                base@ == parts@[0].shape@,
                dim < base@.len(),
                outer as int == prefix_prod(base@, dim as int),
                inner as int == suffix_prod(base@, dim + 1),
                forall|u: int| 1 <= u < m ==> cat_compatible(base@, #[trigger] parts@[u].shape@, dim as int),
                data@ == row_start + cat_row(parts@, dim as int, inner as int, o as int, t as int),
            decreases m - t,
        {
            let part = &parts[t];
            let ghost s = part.shape@;
            proof {
                if t > 0 {
                    assert(cat_compatible(base@, parts@[t as int].shape@, dim as int));
                }
                assert(s.len() == base@.len());
                lemma_prefix_prod_agree(s, base@, dim as int);
                lemma_suffix_prod_agree(s, base@, dim + 1);
                lemma_prod_split(s, dim as int);
                lemma_suffix_prod_nonneg(s, dim + 1);
                lemma_prefix_prod_nonneg(s, dim as int);
                let b = s[dim as int] * suffix_prod(s, dim + 1);
                assert(suffix_prod(s, dim as int) == b);
                assert(outer * b == part.data@.len());
                assert(b >= 0) by (nonlinear_arith) requires b == s[dim as int] * suffix_prod(s, dim + 1), suffix_prod(s, dim + 1) >= 0;
                assert(b <= outer * b) by (nonlinear_arith) requires outer >= 1, b >= 0;
                assert((o + 1) * b <= outer * b) by (nonlinear_arith) requires o + 1 <= outer, b >= 0;
                assert(o * b + b == (o + 1) * b) by (nonlinear_arith);
                assert(0 <= o * b) by (nonlinear_arith) requires o >= 0, b >= 0;
            }
            let b = part.shape[dim] * inner;
            push_range(&mut data, part.data.as_slice(), o * b, o * b + b);
            proof {
                assert((o + 1) * b == o * b + b) by (nonlinear_arith);
            }
            t = t + 1;
        }
        o = o + 1;
    }
    let mut shape = base.clone();
    shape.set(dim, cat_size);
    proof {
        let s0 = base@;
        let out = shape@;
        assert(cat_ready(parts@, dim as int)) by {
            assert forall|t: int| 0 <= t < parts@.len() implies cat_compatible(parts@[0].shape@, #[trigger] parts@[t].shape@, dim as int) by {
                if t == 0 {
                    assert(cat_compatible(s0, s0, dim as int));
                }
            }
        }
        lemma_cat_rows_len(parts@, dim as int, outer as int);
        lemma_prod_split(out, dim as int);
        lemma_prefix_prod_agree(out, s0, dim as int);
        lemma_suffix_prod_agree(out, s0, dim + 1);
        assert(suffix_prod(out, dim as int) == cat_size * suffix_prod(out, dim + 1));
    }
    Ok(Dense { shape, data })
}

proof fn lemma_cat_extent_mono<T>(parts: Seq<Dense<T>>, dim: int, t: int, m: int)
    requires
        0 <= t <= m,
    ensures
        cat_extent(parts, dim, t) <= cat_extent(parts, dim, m),
    decreases m - t,
{
    if t < m {
        lemma_cat_extent_mono(parts, dim, t + 1, m);
    }
}

// ---------------------------------------------------------------------------
// index_select

/// Row `o` of a selection: for each of the first `k` indices, the
/// contiguous block of `inner` elements that index picks.
pub open spec fn select_row<T>(data: Seq<T>, n: int, inner: int, idx: Seq<usize>, o: int, k: int) -> Seq<T>
    decreases k,
{
    if k <= 0 {
        Seq::empty()
    } else {
        let start = (o * n + idx[k - 1]) * inner;
        select_row(data, n, inner, idx, o, k - 1) + data.subrange(start, start + inner)
    }
}

/// The first `o` rows of a selection.
pub open spec fn select_rows<T>(data: Seq<T>, n: int, inner: int, idx: Seq<usize>, o: int) -> Seq<T>
    decreases o,
{
    if o <= 0 {
        Seq::empty()
    } else {
        select_rows(data, n, inner, idx, o - 1) + select_row(data, n, inner, idx, o - 1, idx.len() as int)
    }
}

/// Message of a selection index past the size of its dim.
pub open spec fn index_range_msg(index: int, dim: usize, size: usize) -> Seq<char> {
    "index "@ + signed_decimal(index) + " out of range for dim "@ + decimal(dim as nat) + " with size "@
        + decimal(size as nat)
}

/// The first index not below `size`, if any.
pub open spec fn first_bad_index(idx: Seq<usize>, size: usize, k: int) -> bool {
    &&& 0 <= k < idx.len()
    &&& idx[k] >= size
    &&& forall|j: int| 0 <= j < k ==> #[trigger] idx[j] < size
}

/// Pick entries along `dim` by an explicit index list; an index may repeat.
/// Each pick copies, for every index of the dims before `dim`, the
/// contiguous block of the dims after it.
pub fn index_select<T: Copy>(x: &Dense<T>, dim: usize, indices: &[usize]) -> (r: Result<Dense<T>, Error>)
    requires
        x.wf(),
        dim < x.shape@.len() && !(exists|k: int| first_bad_index(indices@, x.shape@[dim as int], k))
            ==> prefix_prod(x.shape@, dim as int) * indices@.len() * suffix_prod(x.shape@, dim + 1) <= usize::MAX,
    ensures
        dim >= x.shape@.len() ==> (r matches Err(Error::InvalidShape { op, msg }) && op@ == "index_select"@
            && msg@ == dim_range_msg(dim, x.shape@.len() as usize)),
        dim < x.shape@.len() && (exists|k: int| first_bad_index(indices@, x.shape@[dim as int], k)) ==> (
            r matches Err(Error::InvalidShape { op, msg }) && op@ == "index_select"@
            && exists|k: int| #[trigger] first_bad_index(indices@, x.shape@[dim as int], k)
                && msg@ == index_range_msg(indices@[k] as int, dim, x.shape@[dim as int])),
        dim < x.shape@.len() && !(exists|k: int| first_bad_index(indices@, x.shape@[dim as int], k)) ==> (
            r matches Ok(out) && out.shape@ == x.shape@.update(dim as int, indices@.len() as usize)
            && out.data@ == select_rows(x.data@, x.shape@[dim as int] as int, suffix_prod(x.shape@, dim + 1),
                indices@, prefix_prod(x.shape@, dim as int))
            && out.data@.len() == shape_numel(out.shape@)),
{
    let ndim = x.shape.len();
    if dim >= ndim {
        return Err(dim_out_of_range("index_select", dim, ndim));
    }
    let n = x.shape[dim];
    let mut k: usize = 0;
    while k < indices.len()
        invariant
            k <= indices@.len(),
            dim < x.shape@.len(),
            n == x.shape@[dim as int],
            forall|j: int| 0 <= j < k ==> #[trigger] indices@[j] < n,
        decreases indices@.len() - k,
    {
        if indices[k] >= n {
            assert(first_bad_index(indices@, n, k as int));
            let mut msg = String::from_str("index ");
            push_decimal(&mut msg, indices[k]);
            msg.append(" out of range for dim ");
            push_decimal(&mut msg, dim);
            msg.append(" with size ");
            push_decimal(&mut msg, n);
            assert(msg@ =~= index_range_msg(indices@[k as int] as int, dim, n));
            return Err(Error::InvalidShape { op: "index_select", msg });
        }
        k = k + 1;
    }
    assert forall|k: int| !first_bad_index(indices@, n, k) by {}
    Ok(select_checked(x, dim, indices))
}

fn select_checked<T: Copy>(x: &Dense<T>, dim: usize, indices: &[usize]) -> (out: Dense<T>)
    requires
        x.wf(),
        dim < x.shape@.len(),
        forall|j: int| 0 <= j < indices@.len() ==> #[trigger] indices@[j] < x.shape@[dim as int],
        prefix_prod(x.shape@, dim as int) * indices@.len() * suffix_prod(x.shape@, dim + 1) <= usize::MAX,
    ensures
        out.shape@ == x.shape@.update(dim as int, indices@.len() as usize),
        out.data@ == select_rows(x.data@, x.shape@[dim as int] as int, suffix_prod(x.shape@, dim + 1),
            indices@, prefix_prod(x.shape@, dim as int)),
        out.data@.len() == shape_numel(out.shape@),
{
    let n = x.shape[dim];
    let inner = prod_after(x.shape.as_slice(), dim);
    let outer = prod_before(x.shape.as_slice(), dim);
    proof {
        lemma_prod_split(x.shape@, dim as int);
        lemma_suffix_prod_nonneg(x.shape@, dim + 1);
        assert(outer * (n * inner) == x.data@.len());
        assert(prefix_prod(x.shape@, dim + 1) == outer * n);
        assert(prefix_prod(x.shape@, dim + 1) <= usize::MAX);
    }
    let mut data: Vec<T> = Vec::new();
    let mut o: usize = 0;
    while o < outer
        invariant
            o <= outer,
            x.wf(),
            dim < x.shape@.len(),
            n == x.shape@[dim as int],
            inner as int == suffix_prod(x.shape@, dim + 1),
            outer as int == prefix_prod(x.shape@, dim as int),
            outer * (n * inner) == x.data@.len(),
            outer * n <= usize::MAX,
            forall|j: int| 0 <= j < indices@.len() ==> #[trigger] indices@[j] < n,
            data@ == select_rows(x.data@, n as int, inner as int, indices@, o as int),
        decreases outer - o,
    {
        let ghost row_start = data@;
        let mut k: usize = 0;
        while k < indices.len()
            invariant
                k <= indices@.len(),
                o < outer,
                x.wf(),
                n == x.shape@[dim as int],
                inner as int == suffix_prod(x.shape@, dim + 1),
                outer * (n * inner) == x.data@.len(),
                outer * n <= usize::MAX,
                forall|j: int| 0 <= j < indices@.len() ==> #[trigger] indices@[j] < n,
                data@ == row_start + select_row(x.data@, n as int, inner as int, indices@, o as int, k as int),
            decreases indices@.len() - k,
        {
            let idx = indices[k];
            proof {
                assert(o * n + idx + 1 <= outer * n) by (nonlinear_arith)
                    requires o + 1 <= outer, idx + 1 <= n;
                assert((o * n + idx + 1) * inner <= (outer * n) * inner) by (nonlinear_arith)
                    requires o * n + idx + 1 <= outer * n, inner >= 0;
                assert((outer * n) * inner == outer * (n * inner)) by (nonlinear_arith);
                assert((o * n + idx + 1) * inner == (o * n + idx) * inner + inner) by (nonlinear_arith);
                assert(0 <= o * n) by (nonlinear_arith) requires o >= 0, n >= 0;
                assert(0 <= (o * n + idx) * inner) by (nonlinear_arith) requires o * n + idx >= 0, inner >= 0;
            }
            let start = (o * n + idx) * inner;
            push_range(&mut data, x.data.as_slice(), start, start + inner);
            k = k + 1;
        }
        o = o + 1;
    }
    let mut shape = x.shape.clone();
    shape.set(dim, indices.len());
    proof {
        let out = shape@;
        assert(outer * n * inner == outer * (n * inner)) by (nonlinear_arith);
        lemma_select_rows_at(x.data@, n as int, inner as int, indices@, outer as int);
        lemma_prod_split(out, dim as int);
        lemma_prefix_prod_agree(out, x.shape@, dim as int);
        lemma_suffix_prod_agree(out, x.shape@, dim + 1);
        assert(suffix_prod(out, dim as int) == indices@.len() * inner);
        assert(outer * (indices@.len() * inner) == outer * indices@.len() * inner) by (nonlinear_arith);
    }
    Dense { shape, data }
}

/// `targets` sends each element `(a, q, b)` of a selection along `dim` of a
/// `shape` tensor by `indices` (with `a` indexing the dims before `dim`, `q`
/// the pick and `b` the dims after it) to input element `(a, indices[q], b)`,
/// and every target lies inside the input.
pub open spec fn is_select_plan(shape: Seq<usize>, dim: int, indices: Seq<usize>, targets: Seq<usize>) -> bool {
    let outer = prefix_prod(shape, dim);
    let n = shape[dim] as int;
    let m = indices.len() as int;
    let inner = suffix_prod(shape, dim + 1);
    &&& targets.len() == outer * m * inner
    &&& forall|s: int| 0 <= s < targets.len() ==> #[trigger] targets[s] < shape_numel(shape)
    &&& forall|a: int, q: int, b: int|
        0 <= a < outer && 0 <= q < m && 0 <= b < inner ==> #[trigger] targets[(a * m + q) * inner + b]
            == (a * n + indices[q]) * inner + b
}

/// Where each element of a selection's gradient is added back into the
/// input's gradient: to the input element the selection read it from. A
/// repeated index gets several targets, so its gradients add up.
pub fn select_targets(shape: &[usize], dim: usize, indices: &[usize]) -> (targets: Vec<usize>)
    requires
        dim < shape@.len(),
        sizes_fit(shape@),
        prefixes_fit(shape@, shape@.len() as int),
        forall|q: int| 0 <= q < indices@.len() ==> #[trigger] indices@[q] < shape@[dim as int],
        prefix_prod(shape@, dim as int) * indices@.len() * suffix_prod(shape@, dim + 1) <= usize::MAX,
    ensures
        is_select_plan(shape@, dim as int, indices@, targets@),
{
    let outer = prod_before(shape, dim);
    let n = shape[dim];
    let inner = prod_after(shape, dim);
    let m = indices.len();
    proof {
        lemma_prod_split(shape@, dim as int);
        lemma_suffix_prod_nonneg(shape@, dim + 1);
        assert(outer * (n * inner) == shape_numel(shape@));
        assert(shape_numel(shape@) <= usize::MAX);
        assert(outer * m * inner == outer * (m * inner)) by (nonlinear_arith);
    }
    let mut targets: Vec<usize> = Vec::new();
    let mut a: usize = 0;
    while a < outer
        invariant
            a <= outer,
            n == shape@[dim as int],
            m == indices@.len(),
            forall|q: int| 0 <= q < m ==> #[trigger] indices@[q] < n,
            outer * (n * inner) <= usize::MAX,
            outer * (m * inner) <= usize::MAX,
            targets@.len() == a * (m * inner),
            forall|s: int| 0 <= s < targets@.len() ==> #[trigger] targets@[s] < outer * (n * inner),
            forall|a2: int, q: int, b: int|
                0 <= a2 < a && 0 <= q < m && 0 <= b < inner ==> #[trigger] targets@[(a2 * m + q) * inner + b]
                    == (a2 * n + indices@[q]) * inner + b,
        decreases outer - a,
    {
        proof {
            assert(a * (m * inner) == (a * m + 0) * inner) by (nonlinear_arith);
        }
        let mut q: usize = 0;
        while q < m
            invariant
                a < outer,
                q <= m,
                n == shape@[dim as int],
                m == indices@.len(),
                forall|q2: int| 0 <= q2 < m ==> #[trigger] indices@[q2] < n,
                outer * (n * inner) <= usize::MAX,
                outer * (m * inner) <= usize::MAX,
                targets@.len() == (a * m + q) * inner,
                forall|s: int| 0 <= s < targets@.len() ==> #[trigger] targets@[s] < outer * (n * inner),
                forall|a2: int, q2: int, b: int|
                    0 <= b < inner && ((0 <= a2 < a && 0 <= q2 < m) || (a2 == a && 0 <= q2 < q))
                        ==> #[trigger] targets@[(a2 * m + q2) * inner + b] == (a2 * n + indices@[q2]) * inner + b,
            decreases m - q,
        {
            let idx = indices[q];
            let mut b: usize = 0;
            while b < inner
                invariant
                    a < outer,
                    q < m,
                    b <= inner,
                    idx == indices@[q as int],
                    idx < n,
                    m == indices@.len(),
                    outer * (n * inner) <= usize::MAX,
                    outer * (m * inner) <= usize::MAX,
                    targets@.len() == (a * m + q) * inner + b,
                    forall|s: int| 0 <= s < targets@.len() ==> #[trigger] targets@[s] < outer * (n * inner),
                    forall|a2: int, q2: int, b2: int|
                        0 <= b2 < inner && ((0 <= a2 < a && 0 <= q2 < m) || (a2 == a && 0 <= q2 < q) || (a2 == a && q2 == q && b2 < b))
                            ==> #[trigger] targets@[(a2 * m + q2) * inner + b2] == (a2 * n + indices@[q2]) * inner + b2,
                decreases inner - b,
            {
                proof {
                    assert((a * n + idx) * inner + b < outer * (n * inner)) by (nonlinear_arith)
                        requires a < outer, idx < n, b < inner;
                    assert(a * n + idx < outer * n) by (nonlinear_arith)
                        requires a < outer, idx < n;
                    assert(outer * n <= outer * (n * inner)) by (nonlinear_arith)
                        requires inner >= 1, n >= 0, outer >= 0;
                    assert(0 <= (a * n + idx) * inner) by (nonlinear_arith)
                        requires a * n + idx >= 0, inner >= 0;
                    assert((a * m + q) * inner + b < outer * (m * inner)) by (nonlinear_arith)
                        requires a < outer, q < m, b < inner;
                }
                let ghost before = targets@;
                targets.push((a * n + idx) * inner + b);
                proof {
                    assert forall|a2: int, q2: int, b2: int|
                        0 <= b2 < inner && ((0 <= a2 < a && 0 <= q2 < m) || (a2 == a && 0 <= q2 < q) || (a2 == a && q2 == q && b2 < b + 1))
                            implies #[trigger] targets@[(a2 * m + q2) * inner + b2] == (a2 * n + indices@[q2]) * inner + b2 by {
                        if a2 == a && q2 == q && b2 == b {
                        } else {
                            assert((a2 * m + q2) * inner + b2 < (a * m + q) * inner + b) by (nonlinear_arith)
                                requires
                                    0 <= b2 < inner,
                                    (0 <= a2 < a && 0 <= q2 < m) || (a2 == a && 0 <= q2 < q) || (a2 == a && q2 == q && b2 < b),
                                    0 <= b,
                                    0 <= q;
                            assert(targets@[(a2 * m + q2) * inner + b2] == before[(a2 * m + q2) * inner + b2]);
                        }
                    }
                }
                b = b + 1;
            }
            proof {
                assert((a * m + q) * inner + inner == (a * m + q + 1) * inner) by (nonlinear_arith);
            }
            q = q + 1;
        }
        proof {
            assert((a * m + m) * inner == (a + 1) * (m * inner)) by (nonlinear_arith);
        }
        a = a + 1;
    }
    proof {
        assert(outer * (m * inner) == outer * m * inner) by (nonlinear_arith);
    }
    targets
}

proof fn lemma_select_row_at<T>(data: Seq<T>, n: int, inner: int, idx: Seq<usize>, o: int, k: int)
    requires
        0 <= k <= idx.len(),
        0 <= o,
        0 <= inner,
        forall|q: int| 0 <= q < idx.len() ==> #[trigger] idx[q] < n,
        (o * n + n) * inner <= data.len(),
    ensures
        select_row(data, n, inner, idx, o, k).len() == k * inner,
        forall|q: int, b: int|
            0 <= q < k && 0 <= b < inner ==> #[trigger] select_row(data, n, inner, idx, o, k)[q * inner + b]
                == data[(o * n + idx[q]) * inner + b],
    decreases k,
{
    if k == 0 {
        assert(0 * inner == 0) by (nonlinear_arith);
    } else {
        lemma_select_row_at(data, n, inner, idx, o, k - 1);
        let i = idx[k - 1] as int;
        let start = (o * n + i) * inner;
        assert(0 <= start && start + inner <= (o * n + n) * inner) by (nonlinear_arith)
            requires 0 <= i < n, 0 <= o, 0 <= inner, start == (o * n + i) * inner;
        assert((k - 1) * inner + inner == k * inner) by (nonlinear_arith);
        let prev = select_row(data, n, inner, idx, o, k - 1);
        let row = select_row(data, n, inner, idx, o, k);
        assert(row == prev + data.subrange(start, start + inner));
        assert forall|q: int, b: int| 0 <= q < k && 0 <= b < inner implies #[trigger] row[q * inner + b]
            == data[(o * n + idx[q]) * inner + b] by {
            if q < k - 1 {
                assert(q * inner + b < (k - 1) * inner) by (nonlinear_arith) requires 0 <= q < k - 1, 0 <= b < inner;
                assert(0 <= q * inner) by (nonlinear_arith) requires 0 <= q, 0 <= inner;
                assert(row[q * inner + b] == prev[q * inner + b]);
            } else {
                assert(q * inner + b == (k - 1) * inner + b);
            }
        }
    }
}

proof fn lemma_select_rows_at<T>(data: Seq<T>, n: int, inner: int, idx: Seq<usize>, o: int)
    requires
        0 <= o,
        0 <= inner,
        0 <= n,
        forall|q: int| 0 <= q < idx.len() ==> #[trigger] idx[q] < n,
        o * n * inner <= data.len(),
    ensures
        select_rows(data, n, inner, idx, o).len() == o * idx.len() * inner,
        forall|a: int, q: int, b: int|
            0 <= a < o && 0 <= q < idx.len() && 0 <= b < inner ==> #[trigger] select_rows(data, n, inner, idx, o)[(a
                * idx.len() + q) * inner + b] == data[(a * n + idx[q]) * inner + b],
    decreases o,
{
    let m = idx.len() as int;
    if o == 0 {
        assert(0 * m * inner == 0) by (nonlinear_arith);
    } else {
        assert((o - 1) * n * inner <= o * n * inner) by (nonlinear_arith) requires 1 <= o, 0 <= n, 0 <= inner;
        lemma_select_rows_at(data, n, inner, idx, o - 1);
        assert(((o - 1) * n + n) * inner == o * n * inner) by (nonlinear_arith);
        lemma_select_row_at(data, n, inner, idx, o - 1, m);
        let prev = select_rows(data, n, inner, idx, o - 1);
        let row = select_row(data, n, inner, idx, o - 1, m);
        let rows = select_rows(data, n, inner, idx, o);
        assert(rows == prev + row);
        assert((o - 1) * m * inner + m * inner == o * m * inner) by (nonlinear_arith);
        assert forall|a: int, q: int, b: int| 0 <= a < o && 0 <= q < m && 0 <= b < inner implies #[trigger] rows[(a
            * m + q) * inner + b] == data[(a * n + idx[q]) * inner + b] by {
            if a < o - 1 {
                assert((a * m + q) * inner + b < (o - 1) * m * inner) by (nonlinear_arith)
                    requires 0 <= a < o - 1, 0 <= q < m, 0 <= b < inner;
                assert(0 <= (a * m + q) * inner + b) by (nonlinear_arith) requires 0 <= a, 0 <= q, 0 <= b, 0 <= inner, 0 <= m;
                assert(rows[(a * m + q) * inner + b] == prev[(a * m + q) * inner + b]);
            } else {
                assert((a * m + q) * inner + b == (o - 1) * m * inner + (q * inner + b)) by (nonlinear_arith)
                    requires a == o - 1;
                assert(0 <= q * inner + b && q * inner + b < m * inner) by (nonlinear_arith)
                    requires 0 <= q < m, 0 <= b < inner;
                assert(rows[(a * m + q) * inner + b] == row[q * inner + b]);
            }
        }
    }
}

/// Where [`index_select`]'s picks come from: viewing the input as
/// `[outer, size along dim, inner]` and the output as `[outer, picks,
/// inner]`, output element `(o, k, i)` is input element `(o, indices[k], i)`.
pub proof fn lemma_index_select_element<T>(x: Dense<T>, dim: int, indices: Seq<usize>, o: int, k: int, i: int)
    requires
        x.wf(),
        0 <= dim < x.shape@.len(),
        forall|q: int| 0 <= q < indices.len() ==> #[trigger] indices[q] < x.shape@[dim],
        0 <= o < prefix_prod(x.shape@, dim),
        0 <= k < indices.len(),
        0 <= i < suffix_prod(x.shape@, dim + 1),
    ensures
        ({
            let n = x.shape@[dim] as int;
            let inner = suffix_prod(x.shape@, dim + 1);
            select_rows(x.data@, n, inner, indices, prefix_prod(x.shape@, dim))[(o * indices.len() + k) * inner + i]
                == x.data@[(o * n + indices[k]) * inner + i]
        }),
{
    let shape = x.shape@;
    let outer = prefix_prod(shape, dim);
    let n = shape[dim] as int;
    let inner = suffix_prod(shape, dim + 1);
    lemma_prefix_prod_nonneg(shape, dim);
    lemma_suffix_prod_nonneg(shape, dim + 1);
    lemma_prod_split(shape, dim);
    assert(suffix_prod(shape, dim) == n * inner);
    assert(outer * n * inner == outer * (n * inner)) by (nonlinear_arith);
    lemma_select_rows_at(x.data@, n, inner, indices, outer);
}

/// The gradient of a selection flows back to exactly the elements the
/// selection read: element `s` of `index_select`'s output is element
/// `targets[s]` of the input, for the targets that `select_targets` lists.
pub proof fn lemma_select_targets_match_reads<T>(x: Dense<T>, dim: int, indices: Seq<usize>, targets: Seq<usize>)
    requires
        x.wf(),
        0 <= dim < x.shape@.len(),
        forall|q: int| 0 <= q < indices.len() ==> #[trigger] indices[q] < x.shape@[dim],
        is_select_plan(x.shape@, dim, indices, targets),
    ensures
        ({
            let out = select_rows(x.data@, x.shape@[dim] as int, suffix_prod(x.shape@, dim + 1), indices,
                prefix_prod(x.shape@, dim));
            &&& out.len() == targets.len()
            &&& forall|s: int| 0 <= s < targets.len() ==> targets[s] < x.data@.len() && #[trigger] out[s]
                == x.data@[targets[s] as int]
        }),
{
    let shape = x.shape@;
    let outer = prefix_prod(shape, dim);
    let n = shape[dim] as int;
    let m = indices.len() as int;
    let inner = suffix_prod(shape, dim + 1);
    lemma_prefix_prod_nonneg(shape, dim);
    lemma_suffix_prod_nonneg(shape, dim + 1);
    lemma_prod_split(shape, dim);
    assert(suffix_prod(shape, dim) == n * inner);
    assert(outer * (n * inner) == shape_numel(shape));
    assert(outer * n * inner == outer * (n * inner)) by (nonlinear_arith);
    lemma_select_rows_at(x.data@, n, inner, indices, outer);
    let out = select_rows(x.data@, n, inner, indices, outer);
    assert forall|s: int| 0 <= s < targets.len() implies targets[s] < x.data@.len() && #[trigger] out[s]
        == x.data@[targets[s] as int] by {
        let mi = m * inner;
        assert(mi > 0) by (nonlinear_arith) requires 0 <= s < outer * m * inner, mi == m * inner, outer >= 0;
        let a = s / mi;
        let r = s % mi;
        vstd::arithmetic::div_mod::lemma_fundamental_div_mod(s, mi);
        vstd::arithmetic::div_mod::lemma_mod_pos_bound(s, mi);
        assert(inner > 0) by (nonlinear_arith) requires mi == m * inner, mi > 0, m >= 0, inner >= 0;
        let q = r / inner;
        let b = r % inner;
        vstd::arithmetic::div_mod::lemma_fundamental_div_mod(r, inner);
        vstd::arithmetic::div_mod::lemma_mod_pos_bound(r, inner);
        assert(outer * m * inner == outer * mi) by (nonlinear_arith) requires mi == m * inner;
        assert(0 <= a < outer && 0 <= q < m) by (nonlinear_arith)
            requires s == mi * a + r, 0 <= r < mi, 0 <= s < outer * m * inner, mi == m * inner, r == inner * q + b,
                0 <= b < inner, inner > 0, outer * m * inner == outer * mi;
        assert(s == (a * m + q) * inner + b) by (nonlinear_arith)
            requires s == mi * a + r, mi == m * inner, r == inner * q + b;
        assert(targets[(a * m + q) * inner + b] == (a * n + indices[q]) * inner + b);
        assert(out[(a * m + q) * inner + b] == x.data@[(a * n + indices[q]) * inner + b]);
    }
}

// ---------------------------------------------------------------------------
// Selection by an I64 id tensor

/// Message of an id tensor that is not 1-D.
pub open spec fn ids_rank_msg(shape: Seq<usize>) -> Seq<char> {
    "ids must be 1-D, got shape "@ + sizes_text(shape)
}

/// The first id outside `[0, size)`, if any.
pub open spec fn first_bad_id(ids: Seq<i64>, size: usize, k: int) -> bool {
    &&& 0 <= k < ids.len()
    &&& (ids[k] < 0 || ids[k] >= size)
    &&& forall|j: int| 0 <= j < k ==> 0 <= #[trigger] ids[j] < size
}

/// The ids as indices.
pub open spec fn ids_as_indices(ids: Seq<i64>) -> Seq<usize> {
    Seq::new(ids.len(), |k: int| ids[k] as usize)
}

/// What `index_select_t` gives: `DtypeMismatch` for non-I64 ids,
/// `InvalidShape` for ids that are not 1-D, for `dim` past the rank, and for
/// the first id outside the dim; else the selection of those rows.
pub open spec fn selects_by_ids<T>(x: Dense<T>, dim: usize, ids_dtype: DType, ids_shape: Seq<usize>, ids: Seq<i64>, r: Result<Dense<T>, Error>) -> bool {
    &&& ids_dtype != DType::I64 ==> (r matches Err(Error::DtypeMismatch { op, expected, got }) && op@ == "index_select_t"@
        && expected == DType::I64 && got == ids_dtype)
    &&& ids_dtype == DType::I64 && ids_shape.len() != 1 ==> (r matches Err(Error::InvalidShape { op, msg })
        && op@ == "index_select_t"@ && msg@ == ids_rank_msg(ids_shape))
    &&& ids_dtype == DType::I64 && ids_shape.len() == 1 && dim >= x.shape@.len() ==> (r matches Err(Error::InvalidShape { op, msg })
        && op@ == "index_select_t"@ && msg@ == dim_range_msg(dim, x.shape@.len() as usize))
    &&& ids_dtype == DType::I64 && ids_shape.len() == 1 && dim < x.shape@.len()
        && (exists|k: int| first_bad_id(ids, x.shape@[dim as int], k)) ==> (
        r matches Err(Error::InvalidShape { op, msg }) && op@ == "index_select_t"@
        && exists|k: int| #[trigger] first_bad_id(ids, x.shape@[dim as int], k)
            && msg@ == index_range_msg(ids[k] as int, dim, x.shape@[dim as int]))
    &&& ids_dtype == DType::I64 && ids_shape.len() == 1 && dim < x.shape@.len()
        && !(exists|k: int| first_bad_id(ids, x.shape@[dim as int], k)) ==> (
        r matches Ok(out) && out.shape@ == x.shape@.update(dim as int, ids.len() as usize)
        && out.data@ == select_rows(x.data@, x.shape@[dim as int] as int, suffix_prod(x.shape@, dim + 1),
            ids_as_indices(ids), prefix_prod(x.shape@, dim as int))
        && out.data@.len() == shape_numel(out.shape@))
}

/// `InvalidShape` naming `op` for an id tensor that is not 1-D.
fn ids_rank_error(op: &'static str, shape: &[usize]) -> (e: Error)
    ensures
        e matches Error::InvalidShape { op: o, msg } && o == op && msg@ == ids_rank_msg(shape@),
{
    let mut msg = String::from_str("ids must be 1-D, got shape ");
    push_sizes(&mut msg, shape);
    Error::InvalidShape { op, msg }
}

/// Pick entries along `dim` by a 1-D I64 id tensor (given by its dtype,
/// shape and elements): `DtypeMismatch` for non-I64 ids, `InvalidShape` for
/// ids that are not 1-D, for `dim` past the rank, and for the first id
/// outside the dim; else the selection, as `index_select` makes it.
pub fn index_select_t<T: Copy>(x: &Dense<T>, dim: usize, ids_dtype: DType, ids_shape: &[usize], ids: &[i64]) -> (r: Result<Dense<T>, Error>)
    requires
        x.wf(),
        ids_shape@.len() == 1 ==> ids@.len() == ids_shape@[0],
        ids_dtype == DType::I64 && ids_shape@.len() == 1 && dim < x.shape@.len()
            && !(exists|k: int| first_bad_id(ids@, x.shape@[dim as int], k))
            ==> prefix_prod(x.shape@, dim as int) * ids@.len() * suffix_prod(x.shape@, dim + 1) <= usize::MAX,
    ensures
        selects_by_ids(*x, dim, ids_dtype, ids_shape@, ids@, r),
{
    if ids_dtype != DType::I64 {
        return Err(Error::DtypeMismatch { op: "index_select_t", expected: DType::I64, got: ids_dtype });
    }
    if ids_shape.len() != 1 {
        return Err(ids_rank_error("index_select_t", ids_shape));
    }
    let ndim = x.shape.len();
    if dim >= ndim {
        return Err(dim_out_of_range("index_select_t", dim, ndim));
    }
    let n = x.shape[dim];
    let mut indices: Vec<usize> = Vec::new();
    let mut k: usize = 0;
    while k < ids.len()
        invariant
            k <= ids@.len(),
            ids_dtype == DType::I64,
            ids_shape@.len() == 1,
            dim < x.shape@.len(),
            n == x.shape@[dim as int],
            forall|j: int| 0 <= j < k ==> 0 <= #[trigger] ids@[j] < n,
            indices@ == ids_as_indices(ids@).subrange(0, k as int),
        decreases ids@.len() - k,
    {
        let id = ids[k];
        if id < 0 || id as u64 >= n as u64 {
            assert(first_bad_id(ids@, n, k as int));
            let mut msg = String::from_str("index ");
            push_i64(&mut msg, id);
            msg.append(" out of range for dim ");
            push_decimal(&mut msg, dim);
            msg.append(" with size ");
            push_decimal(&mut msg, n);
            assert(msg@ =~= index_range_msg(ids@[k as int] as int, dim, n));
            return Err(Error::InvalidShape { op: "index_select_t", msg });
        }
        indices.push(id as usize);
        assert(indices@ =~= ids_as_indices(ids@).subrange(0, k + 1));
        k = k + 1;
    }
    assert forall|k: int| !first_bad_id(ids@, n, k) by {}
    assert(indices@ =~= ids_as_indices(ids@));
    Ok(select_checked(x, dim, indices.as_slice()))
}

/// Message of an embedding weight that is not 2-D.
pub open spec fn weight_rank_msg(shape: Seq<usize>) -> Seq<char> {
    "weight must be 2-D [num_embeddings, dim], got "@ + sizes_text(shape)
}

/// Row lookup into a `[num_embeddings, dim]` weight by a 1-D I64 id tensor,
/// returning `[n, dim]`: `InvalidShape` for a weight that is not 2-D, else
/// `index_select_t` along dim 0.
pub fn embedding<T: Copy>(weight: &Dense<T>, ids_dtype: DType, ids_shape: &[usize], ids: &[i64]) -> (r: Result<Dense<T>, Error>)
    requires
        weight.wf(),
        ids_shape@.len() == 1 ==> ids@.len() == ids_shape@[0],
        weight.shape@.len() == 2 && ids_dtype == DType::I64 && ids_shape@.len() == 1
            && !(exists|k: int| first_bad_id(ids@, weight.shape@[0], k)) ==> ids@.len() * weight.shape@[1] <= usize::MAX,
    ensures
        weight.shape@.len() != 2 ==> (r matches Err(Error::InvalidShape { op, msg }) && op@ == "embedding"@
            && msg@ == weight_rank_msg(weight.shape@)),
        weight.shape@.len() == 2 ==> selects_by_ids(*weight, 0, ids_dtype, ids_shape@, ids@, r),
{
    if weight.shape.len() != 2 {
        let mut msg = String::from_str("weight must be 2-D [num_embeddings, dim], got ");
        push_sizes(&mut msg, weight.shape.as_slice());
        return Err(Error::InvalidShape { op: "embedding", msg });
    }
    proof {
        assert(prefix_prod(weight.shape@, 0) == 1);
        assert(suffix_prod(weight.shape@, 1) == weight.shape@[1] * suffix_prod(weight.shape@, 2));
        assert(1 * ids@.len() * suffix_prod(weight.shape@, 1) == ids@.len() * weight.shape@[1]);
    }
    index_select_t(weight, 0, ids_dtype, ids_shape, ids)
}

// ---------------------------------------------------------------------------
// one_hot, arange

/// The one-hot row of class `id` among `classes`.
pub open spec fn one_hot_row<T>(id: int, classes: nat, zero: T, one: T) -> Seq<T> {
    Seq::new(classes, |c: int| if c == id { one } else { zero })
}

/// The one-hot rows of the first `r` ids.
pub open spec fn one_hot_rows<T>(ids: Seq<i64>, classes: nat, zero: T, one: T, r: int) -> Seq<T>
    decreases r,
{
    if r <= 0 {
        Seq::empty()
    } else {
        one_hot_rows(ids, classes, zero, one, r - 1) + one_hot_row(ids[r - 1] as int, classes, zero, one)
    }
}

/// The first id outside `[0, classes)`, if any.
pub open spec fn first_bad_class(ids: Seq<i64>, classes: usize, k: int) -> bool {
    &&& 0 <= k < ids.len()
    &&& (ids[k] < 0 || ids[k] >= classes)
    &&& forall|j: int| 0 <= j < k ==> 0 <= #[trigger] ids[j] < classes
}

/// Message of a class id outside the class count.
pub open spec fn class_range_msg(id: int, classes: usize) -> Seq<char> {
    "id "@ + signed_decimal(id) + " out of range for "@ + decimal(classes as nat) + " classes"@
}

/// One-hot encode 1-D I64 class ids `[n]` (given by dtype, shape and
/// elements) into an `[n, classes]` tensor whose entries are `one` at each
/// row's class and `zero` elsewhere.
pub fn one_hot<T: Copy>(ids_dtype: DType, ids_shape: &[usize], ids: &[i64], classes: usize, zero: T, one: T) -> (r: Result<Dense<T>, Error>)
    requires
        ids_shape@.len() == 1 ==> ids@.len() == ids_shape@[0],
        ids_dtype == DType::I64 && ids_shape@.len() == 1 ==> ids@.len() * classes <= usize::MAX,
    ensures
        ids_dtype != DType::I64 ==> (r matches Err(Error::DtypeMismatch { op, expected, got }) && op@ == "one_hot"@
            && expected == DType::I64 && got == ids_dtype),
        ids_dtype == DType::I64 && ids_shape@.len() != 1 ==> (r matches Err(Error::InvalidShape { op, msg })
            && op@ == "one_hot"@ && msg@ == ids_rank_msg(ids_shape@)),
        ids_dtype == DType::I64 && ids_shape@.len() == 1 && (exists|k: int| first_bad_class(ids@, classes, k)) ==> (
            r matches Err(Error::InvalidShape { op, msg }) && op@ == "one_hot"@
            && exists|k: int| #[trigger] first_bad_class(ids@, classes, k) && msg@ == class_range_msg(ids@[k] as int, classes)),
        ids_dtype == DType::I64 && ids_shape@.len() == 1 && !(exists|k: int| first_bad_class(ids@, classes, k)) ==> (
            r matches Ok(out) && out.shape@ == seq![ids@.len() as usize, classes]
            && out.data@ == one_hot_rows(ids@, classes as nat, zero, one, ids@.len() as int)
            && out.data@.len() == shape_numel(out.shape@)),
{
    if ids_dtype != DType::I64 {
        return Err(Error::DtypeMismatch { op: "one_hot", expected: DType::I64, got: ids_dtype });
    }
    if ids_shape.len() != 1 {
        return Err(ids_rank_error("one_hot", ids_shape));
    }
    let n = ids.len();
    let mut data: Vec<T> = Vec::new();
    let mut row: usize = 0;
    while row < n
        invariant
            row <= n,
            n == ids@.len(),
            ids_dtype == DType::I64,
            ids_shape@.len() == 1,
            forall|j: int| 0 <= j < row ==> 0 <= #[trigger] ids@[j] < classes,
            data@ == one_hot_rows(ids@, classes as nat, zero, one, row as int),
            data@.len() == row * classes,
        decreases n - row,
    {
        let id = ids[row];
        if id < 0 || id as u64 >= classes as u64 {
            assert(first_bad_class(ids@, classes, row as int));
            let mut msg = String::from_str("id ");
            push_i64(&mut msg, id);
            msg.append(" out of range for ");
            push_decimal(&mut msg, classes);
            msg.append(" classes");
            assert(msg@ =~= class_range_msg(ids@[row as int] as int, classes));
            return Err(Error::InvalidShape { op: "one_hot", msg });
        }
        let ghost before = data@;
        let mut c: usize = 0;
        while c < classes
            invariant
                c <= classes,
                0 <= id < classes,
                data@ == before + one_hot_row(id as int, classes as nat, zero, one).subrange(0, c as int),
            decreases classes - c,
        {
            data.push(if c as u64 == id as u64 { one } else { zero });
            assert(one_hot_row(id as int, classes as nat, zero, one).subrange(0, c + 1)
                =~= one_hot_row(id as int, classes as nat, zero, one).subrange(0, c as int).push(
                    if c == id { one } else { zero }));
            c = c + 1;
        }
        assert(one_hot_row(id as int, classes as nat, zero, one).subrange(0, classes as int)
            =~= one_hot_row(id as int, classes as nat, zero, one));
        assert(row * classes + classes == (row + 1) * classes) by (nonlinear_arith);
        row = row + 1;
    }
    assert forall|k: int| !first_bad_class(ids@, classes, k) by {}
    let mut shape: Vec<usize> = Vec::new();
    shape.push(n);
    shape.push(classes);
    assert(shape@ =~= seq![n, classes]);
    assert(suffix_prod(shape@, 2) == 1);
    assert(suffix_prod(shape@, 1) == classes * 1);
    assert(shape_numel(shape@) == n * (classes * 1));
    Ok(Dense { shape, data })
}

/// `[0, end)` as I64 values (empty when `end <= 0`).
pub fn arange(end: i64) -> (v: Vec<i64>)
    ensures
        v@.len() == (if end > 0 { end as int } else { 0 }),
        forall|k: int| 0 <= k < v@.len() ==> #[trigger] v@[k] == k,
{
    let mut v: Vec<i64> = Vec::new();
    let mut k: i64 = 0;
    while k < end
        invariant
            0 <= k,
            end > 0 ==> k <= end,
            end <= 0 ==> k == 0,
            v@.len() == k,
            forall|j: int| 0 <= j < v@.len() ==> #[trigger] v@[j] == j,
        decreases end - k,
    {
        v.push(k);
        k = k + 1;
    }
    v
}

/// The class count of `[batch, classes]` logits, for cross-entropy against
/// integer class ids; `InvalidShape` for logits that are not 2-D.
pub fn logits_classes(logits_shape: &[usize]) -> (r: Result<usize, Error>)
    ensures
        logits_shape@.len() == 2 ==> r == Ok::<usize, Error>(logits_shape@[1]),
        logits_shape@.len() != 2 ==> (r matches Err(Error::InvalidShape { op, msg }) && op@ == "cross_entropy_indices"@
            && msg@ == "logits must be 2-D [batch, classes], got "@ + sizes_text(logits_shape@)),
{
    if logits_shape.len() != 2 {
        let mut msg = String::from_str("logits must be 2-D [batch, classes], got ");
        push_sizes(&mut msg, logits_shape);
        return Err(Error::InvalidShape { op: "cross_entropy_indices", msg });
    }
    Ok(logits_shape[1])
}

// ---------------------------------------------------------------------------
// Splitting a concatenation (the gradient of cat)

/// The first `o` blocks of `b` elements that start `start` elements into
/// each row of length `row` of `g`: one input's share of a concatenation.
pub open spec fn split_blocks<T>(g: Seq<T>, row: int, start: int, b: int, o: int) -> Seq<T>
    decreases o,
{
    if o <= 0 {
        Seq::empty()
    } else {
        let at = (o - 1) * row + start;
        split_blocks(g, row, start, b, o - 1) + g.subrange(at, at + b)
    }
}

/// `parts` can be concatenated along `dim`: there is a first part, `dim`
/// is within its rank, and every part matches it off `dim`.
pub open spec fn cat_ready<T>(parts: Seq<Dense<T>>, dim: int) -> bool {
    &&& parts.len() > 0
    &&& forall|t: int| 0 <= t < parts.len() ==> (#[trigger] parts[t]).wf()
    &&& 0 <= dim < parts[0].shape@.len()
    &&& forall|t: int| 0 <= t < parts.len() ==> cat_compatible(parts[0].shape@, #[trigger] parts[t].shape@, dim)
}

/// Cut a gradient of the concatenation of inputs with shapes `shapes`
/// along `dim` back into one gradient per input: for each index of the dims
/// before `dim`, input `t` takes its block of `shapes[t][dim] * inner`
/// elements, starting after the blocks of the inputs before it.
pub fn cat_split<T: Copy>(grad: &[T], shapes: &[Vec<usize>], dim: usize, outer: usize, inner: usize) -> (parts: Vec<Vec<T>>)
    requires
        forall|t: int| 0 <= t < shapes@.len() ==> dim < (#[trigger] shapes@[t])@.len(),
        ({
            let c = split_extent(shapes@, dim as int, shapes@.len() as int);
            &&& c * inner <= usize::MAX
            &&& grad@.len() == outer * (c * inner)
        }),
    ensures
        parts@.len() == shapes@.len(),
        forall|t: int| 0 <= t < shapes@.len() ==> (#[trigger] parts@[t])@ == split_blocks(
            grad@,
            split_extent(shapes@, dim as int, shapes@.len() as int) * inner,
            split_extent(shapes@, dim as int, t) * inner,
            shapes@[t]@[dim as int] * inner,
            outer as int,
        ),
{
    let m = shapes.len();
    let mut cat_size: usize = 0;
    let mut t: usize = 0;
    while t < m
        invariant
            t <= m,
            m == shapes@.len(),
            forall|t: int| 0 <= t < shapes@.len() ==> dim < (#[trigger] shapes@[t])@.len(),
            split_extent(shapes@, dim as int, m as int) * inner <= usize::MAX,
            cat_size as int == split_extent(shapes@, dim as int, t as int),
        decreases m - t,
    {
        proof {
            lemma_split_extent_mono(shapes@, dim as int, t + 1, m as int);
            assert(split_extent(shapes@, dim as int, t + 1) <= split_extent(shapes@, dim as int, m as int));
            assert(inner == 0 || split_extent(shapes@, dim as int, m as int) <= usize::MAX) by (nonlinear_arith)
                requires split_extent(shapes@, dim as int, m as int) * inner <= usize::MAX, inner >= 0,
                    split_extent(shapes@, dim as int, m as int) >= 0;
        }
        if inner == 0 {
            return cat_split_empty_rows(grad, shapes, dim, outer);
        }
        cat_size = cat_size + shapes[t][dim];
        t = t + 1;
    }
    let row = cat_size * inner;
    let mut parts: Vec<Vec<T>> = Vec::new();
    let mut offset: usize = 0;
    let mut t: usize = 0;
    while t < m
        invariant
            t <= m,
            m == shapes@.len(),
            forall|t: int| 0 <= t < shapes@.len() ==> dim < (#[trigger] shapes@[t])@.len(),
            cat_size as int == split_extent(shapes@, dim as int, m as int),
            row == cat_size * inner,
            grad@.len() == outer * row,
            offset as int == split_extent(shapes@, dim as int, t as int),
            parts@.len() == t,
            forall|u: int| 0 <= u < t ==> (#[trigger] parts@[u])@ == split_blocks(grad@, row as int,
                split_extent(shapes@, dim as int, u) * inner, shapes@[u]@[dim as int] * inner, outer as int),
        decreases m - t,
    {
        let d = shapes[t][dim];
        proof {
            lemma_split_extent_mono(shapes@, dim as int, t + 1, m as int);
            assert((offset + d) * inner <= cat_size * inner) by (nonlinear_arith)
                requires offset + d <= cat_size, inner >= 0;
            assert((offset + d) * inner == offset * inner + d * inner) by (nonlinear_arith);
            assert(0 <= offset * inner && 0 <= d * inner) by (nonlinear_arith) requires offset >= 0, d >= 0, inner >= 0;
        }
        let start = offset * inner;
        let block = d * inner;
        let glen = grad.len();
        let mut gi: Vec<T> = Vec::new();
        let mut o: usize = 0;
        while o < outer
            invariant
                o <= outer,
                grad@.len() == outer * row,
                glen == grad@.len(),
                start + block <= row,
                gi@ == split_blocks(grad@, row as int, start as int, block as int, o as int),
            decreases outer - o,
        {
            proof {
                assert(o * row + row <= outer * row) by (nonlinear_arith) requires o + 1 <= outer, row >= 0;
                assert(o * row >= 0) by (nonlinear_arith) requires o >= 0, row >= 0;
            }
            let at = o * row + start;
            push_range(&mut gi, grad, at, at + block);
            o = o + 1;
        }
        parts.push(gi);
        offset = offset + d;
        t = t + 1;
    }
    parts
}

fn cat_split_empty_rows<T: Copy>(grad: &[T], shapes: &[Vec<usize>], dim: usize, outer: usize) -> (parts: Vec<Vec<T>>)
    requires
        forall|t: int| 0 <= t < shapes@.len() ==> dim < (#[trigger] shapes@[t])@.len(),
    ensures
        parts@.len() == shapes@.len(),
        forall|t: int| 0 <= t < shapes@.len() ==> (#[trigger] parts@[t])@ == split_blocks(
            grad@,
            split_extent(shapes@, dim as int, shapes@.len() as int) * 0,
            split_extent(shapes@, dim as int, t) * 0,
            shapes@[t]@[dim as int] * 0,
            outer as int,
        ),
{
    let mut parts: Vec<Vec<T>> = Vec::new();
    let mut t: usize = 0;
    while t < shapes.len()
        invariant
            t <= shapes@.len(),
            parts@.len() == t,
            forall|u: int| 0 <= u < t ==> (#[trigger] parts@[u])@ == split_blocks(grad@,
                split_extent(shapes@, dim as int, shapes@.len() as int) * 0,
                split_extent(shapes@, dim as int, u) * 0, shapes@[u]@[dim as int] * 0, outer as int),
        decreases shapes@.len() - t,
    {
        proof {
            let c = split_extent(shapes@, dim as int, shapes@.len() as int);
            let e = split_extent(shapes@, dim as int, t as int);
            assert(c * 0 == 0 && e * 0 == 0 && shapes@[t as int]@[dim as int] * 0 == 0) by (nonlinear_arith);
            lemma_split_blocks_empty(grad@, c * 0, e * 0, outer as int);
        }
        parts.push(Vec::new());
        t = t + 1;
    }
    parts
}

proof fn lemma_split_blocks_empty<T>(g: Seq<T>, row: int, start: int, o: int)
    requires
        row == 0,
        start == 0,
    ensures
        split_blocks(g, row, start, 0, o) =~= Seq::<T>::empty(),
    decreases o,
{
    if o > 0 {
        lemma_split_blocks_empty(g, row, start, o - 1);
        assert((o - 1) * row == 0) by (nonlinear_arith) requires row == 0;
        assert(g.subrange(0, 0) =~= Seq::<T>::empty());
    }
}

/// Sum of the first `t` shapes' sizes along `dim`.
pub open spec fn split_extent(shapes: Seq<Vec<usize>>, dim: int, t: int) -> int
    decreases t,
{
    if t <= 0 {
        0
    } else {
        split_extent(shapes, dim, t - 1) + shapes[t - 1]@[dim]
    }
}

proof fn lemma_split_extent_mono(shapes: Seq<Vec<usize>>, dim: int, t: int, m: int)
    requires
        0 <= t <= m,
    ensures
        0 <= split_extent(shapes, dim, t) <= split_extent(shapes, dim, m),
    decreases m - t,
{
    if t < m {
        lemma_split_extent_mono(shapes, dim, t + 1, m);
    }
    lemma_split_extent_nonneg(shapes, dim, t);
}

proof fn lemma_split_extent_nonneg(shapes: Seq<Vec<usize>>, dim: int, t: int)
    ensures
        0 <= split_extent(shapes, dim, t),
    decreases t,
{
    if t > 0 {
        lemma_split_extent_nonneg(shapes, dim, t - 1);
    }
}

proof fn lemma_part_geometry<T>(parts: Seq<Dense<T>>, dim: int, u: int)
    requires
        cat_ready(parts, dim),
        0 <= u < parts.len(),
    ensures
        ({
            let base = parts[0].shape@;
            let outer = prefix_prod(base, dim);
            let inner = suffix_prod(base, dim + 1);
            let b = parts[u].shape@[dim] * inner;
            &&& outer >= 0 && inner >= 0 && b >= 0
            &&& parts[u].data@.len() == outer * b
        }),
{
    let base = parts[0].shape@;
    let s = parts[u].shape@;
    assert(cat_compatible(base, s, dim));
    lemma_prefix_prod_agree(s, base, dim);
    lemma_suffix_prod_agree(s, base, dim + 1);
    lemma_prod_split(s, dim);
    lemma_suffix_prod_nonneg(s, dim + 1);
    lemma_prefix_prod_nonneg(s, dim);
    let inner = suffix_prod(base, dim + 1);
    assert(s[dim] * inner >= 0) by (nonlinear_arith) requires inner >= 0;
}

proof fn lemma_cat_nonneg<T>(parts: Seq<Dense<T>>, dim: int)
    ensures
        prefix_prod(parts[0].shape@, dim) >= 0,
        suffix_prod(parts[0].shape@, dim + 1) >= 0,
        cat_extent(parts, dim, parts.len() as int) * suffix_prod(parts[0].shape@, dim + 1) >= 0,
{
    lemma_prefix_prod_nonneg(parts[0].shape@, dim);
    lemma_suffix_prod_nonneg(parts[0].shape@, dim + 1);
    lemma_extent_nonneg(parts, dim, parts.len() as int);
    let c = cat_extent(parts, dim, parts.len() as int);
    let i = suffix_prod(parts[0].shape@, dim + 1);
    assert(c * i >= 0) by (nonlinear_arith) requires c >= 0, i >= 0;
}

proof fn lemma_cat_row_len<T>(parts: Seq<Dense<T>>, dim: int, o: int, t: int)
    requires
        cat_ready(parts, dim),
        0 <= o < prefix_prod(parts[0].shape@, dim),
        0 <= t <= parts.len(),
    ensures
        cat_row(parts, dim, suffix_prod(parts[0].shape@, dim + 1), o, t).len()
            == cat_extent(parts, dim, t) * suffix_prod(parts[0].shape@, dim + 1),
    decreases t,
{
    let inner = suffix_prod(parts[0].shape@, dim + 1);
    let outer = prefix_prod(parts[0].shape@, dim);
    if t > 0 {
        lemma_cat_row_len(parts, dim, o, t - 1);
        lemma_part_geometry(parts, dim, t - 1);
        let b = parts[t - 1].shape@[dim] * inner;
        assert((o + 1) * b <= outer * b) by (nonlinear_arith) requires o + 1 <= outer, b >= 0;
        assert(o * b >= 0) by (nonlinear_arith) requires o >= 0, b >= 0;
        assert((o + 1) * b - o * b == b) by (nonlinear_arith);
        assert(cat_extent(parts, dim, t - 1) * inner + b == cat_extent(parts, dim, t) * inner) by (nonlinear_arith)
            requires b == parts[t - 1].shape@[dim] * inner, cat_extent(parts, dim, t) == cat_extent(parts, dim, t - 1) + parts[t - 1].shape@[dim];
    }
}

proof fn lemma_cat_row_prefix<T>(parts: Seq<Dense<T>>, dim: int, o: int, t: int, t2: int)
    requires
        cat_ready(parts, dim),
        0 <= o < prefix_prod(parts[0].shape@, dim),
        0 <= t <= t2 <= parts.len(),
    ensures
        cat_row(parts, dim, suffix_prod(parts[0].shape@, dim + 1), o, t2).subrange(
            0,
            cat_extent(parts, dim, t) * suffix_prod(parts[0].shape@, dim + 1),
        ) == cat_row(parts, dim, suffix_prod(parts[0].shape@, dim + 1), o, t),
    decreases t2 - t,
{
    lemma_cat_nonneg(parts, dim);
    let inner = suffix_prod(parts[0].shape@, dim + 1);
    lemma_cat_row_len(parts, dim, o, t);
    lemma_cat_row_len(parts, dim, o, t2);
    if t < t2 {
        lemma_cat_row_prefix(parts, dim, o, t, t2 - 1);
        lemma_cat_row_len(parts, dim, o, t2 - 1);
        let a = cat_row(parts, dim, inner, o, t2 - 1);
        let whole = cat_row(parts, dim, inner, o, t2);
        let n = cat_extent(parts, dim, t) * inner;
        assert(n <= a.len()) by {
            lemma_cat_extent_mono(parts, dim, t, t2 - 1);
            assert(cat_extent(parts, dim, t) * inner <= cat_extent(parts, dim, t2 - 1) * inner) by (nonlinear_arith)
                requires cat_extent(parts, dim, t) <= cat_extent(parts, dim, t2 - 1), inner >= 0;
        }
        lemma_extent_nonneg(parts, dim, t);
        assert(n >= 0) by (nonlinear_arith) requires cat_extent(parts, dim, t) >= 0, inner >= 0, n == cat_extent(parts, dim, t) * inner;
        assert(whole.subrange(0, n) =~= a.subrange(0, n));
    } else {
        assert(cat_row(parts, dim, inner, o, t2).subrange(0, cat_extent(parts, dim, t) * inner) =~= cat_row(parts, dim, inner, o, t));
    }
}

proof fn lemma_extent_nonneg<T>(parts: Seq<Dense<T>>, dim: int, t: int)
    ensures
        cat_extent(parts, dim, t) >= 0,
    decreases t,
{
    if t > 0 {
        lemma_extent_nonneg(parts, dim, t - 1);
    }
}

proof fn lemma_cat_rows_len<T>(parts: Seq<Dense<T>>, dim: int, o: int)
    requires
        cat_ready(parts, dim),
        0 <= o <= prefix_prod(parts[0].shape@, dim),
    ensures
        cat_rows(parts, dim, suffix_prod(parts[0].shape@, dim + 1), o).len()
            == o * (cat_extent(parts, dim, parts.len() as int) * suffix_prod(parts[0].shape@, dim + 1)),
    decreases o,
{
    lemma_cat_nonneg(parts, dim);
    let inner = suffix_prod(parts[0].shape@, dim + 1);
    let r = cat_extent(parts, dim, parts.len() as int) * inner;
    if o > 0 {
        lemma_cat_rows_len(parts, dim, o - 1);
        lemma_cat_row_len(parts, dim, o - 1, parts.len() as int);
        assert((o - 1) * r + r == o * r) by (nonlinear_arith);
    } else {
        assert(0 * r == 0) by (nonlinear_arith);
    }
}

proof fn lemma_cat_rows_prefix<T>(parts: Seq<Dense<T>>, dim: int, o: int, o2: int)
    requires
        cat_ready(parts, dim),
        0 <= o <= o2 <= prefix_prod(parts[0].shape@, dim),
    ensures
        cat_rows(parts, dim, suffix_prod(parts[0].shape@, dim + 1), o2).subrange(
            0,
            o * (cat_extent(parts, dim, parts.len() as int) * suffix_prod(parts[0].shape@, dim + 1)),
        ) == cat_rows(parts, dim, suffix_prod(parts[0].shape@, dim + 1), o),
    decreases o2 - o,
{
    lemma_cat_nonneg(parts, dim);
    let inner = suffix_prod(parts[0].shape@, dim + 1);
    let r = cat_extent(parts, dim, parts.len() as int) * inner;
    lemma_cat_rows_len(parts, dim, o);
    lemma_cat_rows_len(parts, dim, o2);
    if o < o2 {
        lemma_cat_rows_prefix(parts, dim, o, o2 - 1);
        lemma_cat_rows_len(parts, dim, o2 - 1);
        let a = cat_rows(parts, dim, inner, o2 - 1);
        let whole = cat_rows(parts, dim, inner, o2);
        assert(o * r <= (o2 - 1) * r) by (nonlinear_arith) requires o <= o2 - 1, r >= 0;
        assert(0 <= o * r) by (nonlinear_arith) requires o >= 0, r >= 0;
        assert(whole.subrange(0, o * r) =~= a.subrange(0, o * r));
    } else {
        assert(cat_rows(parts, dim, inner, o2).subrange(0, o * r) =~= cat_rows(parts, dim, inner, o));
    }
}

proof fn lemma_cat_block<T>(parts: Seq<Dense<T>>, dim: int, o: int, t: int)
    requires
        cat_ready(parts, dim),
        0 <= o < prefix_prod(parts[0].shape@, dim),
        0 <= t < parts.len(),
    ensures
        ({
            let inner = suffix_prod(parts[0].shape@, dim + 1);
            let outer = prefix_prod(parts[0].shape@, dim);
            let r = cat_extent(parts, dim, parts.len() as int) * inner;
            let at = o * r + cat_extent(parts, dim, t) * inner;
            let b = parts[t].shape@[dim] * inner;
            cat_rows(parts, dim, inner, outer).subrange(at, at + b) == parts[t].data@.subrange(o * b, (o + 1) * b)
        }),
{
    lemma_cat_nonneg(parts, dim);
    let inner = suffix_prod(parts[0].shape@, dim + 1);
    let outer = prefix_prod(parts[0].shape@, dim);
    let m = parts.len() as int;
    let r = cat_extent(parts, dim, m) * inner;
    let e = cat_extent(parts, dim, t) * inner;
    let b = parts[t].shape@[dim] * inner;
    let whole = cat_rows(parts, dim, inner, outer);
    let upto = cat_rows(parts, dim, inner, o + 1);
    let before = cat_rows(parts, dim, inner, o);
    let row = cat_row(parts, dim, inner, o, m);
    lemma_part_geometry(parts, dim, t);
    lemma_cat_rows_prefix(parts, dim, o + 1, outer);
    lemma_cat_rows_len(parts, dim, o);
    lemma_cat_rows_len(parts, dim, outer);
    lemma_cat_row_len(parts, dim, o, m);
    lemma_cat_row_len(parts, dim, o, t);
    lemma_cat_row_len(parts, dim, o, t + 1);
    lemma_cat_row_prefix(parts, dim, o, t + 1, m);
    lemma_extent_nonneg(parts, dim, t);
    lemma_cat_extent_mono(parts, dim, t + 1, m);
    assert(e + b == cat_extent(parts, dim, t + 1) * inner) by (nonlinear_arith)
        requires e == cat_extent(parts, dim, t) * inner, b == parts[t].shape@[dim] * inner,
            cat_extent(parts, dim, t + 1) == cat_extent(parts, dim, t) + parts[t].shape@[dim];
    assert(cat_extent(parts, dim, t + 1) * inner <= r) by (nonlinear_arith)
        requires cat_extent(parts, dim, t + 1) <= cat_extent(parts, dim, m), inner >= 0, r == cat_extent(parts, dim, m) * inner;
    assert(0 <= e) by (nonlinear_arith) requires cat_extent(parts, dim, t) >= 0, inner >= 0, e == cat_extent(parts, dim, t) * inner;
    assert((o + 1) * r == o * r + r) by (nonlinear_arith);
    assert(0 <= o * r) by (nonlinear_arith) requires o >= 0, r >= 0;
    assert(upto == before + row);
    assert((o + 1) * r <= outer * r) by (nonlinear_arith) requires o + 1 <= outer, r >= 0;
    assert((o + 1) * b <= outer * b) by (nonlinear_arith) requires o + 1 <= outer, b >= 0;
    assert(0 <= o * b) by (nonlinear_arith) requires o >= 0, b >= 0;
    assert((o + 1) * b == o * b + b) by (nonlinear_arith);
    assert(whole.subrange(0, (o + 1) * r) == upto);
    // The block sits inside row `o`, past the blocks of the parts before t.
    assert(whole.subrange(o * r + e, o * r + e + b) =~= whole.subrange(0, (o + 1) * r).subrange(o * r + e, o * r + e + b));
    assert(upto.subrange(o * r + e, o * r + e + b) =~= row.subrange(e, e + b));
    let pre = cat_row(parts, dim, inner, o, t + 1);
    assert(row.subrange(e, e + b) =~= pre.subrange(e, e + b));
    assert(pre == cat_row(parts, dim, inner, o, t) + parts[t].data@.subrange(o * b, (o + 1) * b));
    assert(pre.subrange(e, e + b) =~= parts[t].data@.subrange(o * b, (o + 1) * b));
}

proof fn lemma_split_prefix<T>(parts: Seq<Dense<T>>, dim: int, t: int, o: int)
    requires
        cat_ready(parts, dim),
        0 <= t < parts.len(),
        0 <= o <= prefix_prod(parts[0].shape@, dim),
    ensures
        ({
            let inner = suffix_prod(parts[0].shape@, dim + 1);
            let outer = prefix_prod(parts[0].shape@, dim);
            let r = cat_extent(parts, dim, parts.len() as int) * inner;
            let b = parts[t].shape@[dim] * inner;
            split_blocks(cat_rows(parts, dim, inner, outer), r, cat_extent(parts, dim, t) * inner, b, o)
                == parts[t].data@.subrange(0, o * b)
        }),
    decreases o,
{
    lemma_cat_nonneg(parts, dim);
    let inner = suffix_prod(parts[0].shape@, dim + 1);
    let outer = prefix_prod(parts[0].shape@, dim);
    let b = parts[t].shape@[dim] * inner;
    lemma_part_geometry(parts, dim, t);
    if o > 0 {
        lemma_split_prefix(parts, dim, t, o - 1);
        lemma_cat_block(parts, dim, o - 1, t);
        assert((o - 1) * b + b == o * b) by (nonlinear_arith);
        assert(o * b <= outer * b) by (nonlinear_arith) requires o <= outer, b >= 0;
        assert(0 <= (o - 1) * b) by (nonlinear_arith) requires o >= 1, b >= 0;
        assert(parts[t].data@.subrange(0, o * b) =~= parts[t].data@.subrange(0, (o - 1) * b)
            + parts[t].data@.subrange((o - 1) * b, o * b));
    } else {
        assert(parts[t].data@.subrange(0, 0 * b) =~= Seq::<T>::empty());
    }
}

/// Splitting a concatenation gives back each input: cutting the output of
/// [`cat`] with [`cat_split`] at the inputs' shapes returns every input's
/// elements unchanged. So the gradient cat's backward hands each input is
/// exactly that input's share of the output gradient.
pub proof fn lemma_split_undoes_cat<T>(parts: Seq<Dense<T>>, shapes: Seq<Vec<usize>>, dim: int, t: int)
    requires
        cat_ready(parts, dim),
        shapes.len() == parts.len(),
        forall|u: int| 0 <= u < parts.len() ==> (#[trigger] shapes[u])@ == parts[u].shape@,
        0 <= t < parts.len(),
    ensures
        ({
            let inner = suffix_prod(parts[0].shape@, dim + 1);
            let outer = prefix_prod(parts[0].shape@, dim);
            split_blocks(
                cat_rows(parts, dim, inner, outer),
                split_extent(shapes, dim, shapes.len() as int) * inner,
                split_extent(shapes, dim, t) * inner,
                shapes[t]@[dim] * inner,
                outer,
            ) == parts[t].data@
        }),
{
    lemma_cat_nonneg(parts, dim);
    lemma_extents_agree(parts, shapes, dim, parts.len() as int);
    lemma_extents_agree(parts, shapes, dim, t);
    let inner = suffix_prod(parts[0].shape@, dim + 1);
    let outer = prefix_prod(parts[0].shape@, dim);
    lemma_split_prefix(parts, dim, t, outer);
    lemma_part_geometry(parts, dim, t);
    assert(parts[t].data@.subrange(0, outer * (parts[t].shape@[dim] * inner)) =~= parts[t].data@);
}

/// Where each input lands in a concatenation: viewing every tensor as
/// `[outer, size along dim, inner]`, element `(o, k, i)` of input `t` is
/// element `(o, e + k, i)` of [`cat`]'s output, where `e` is the summed
/// size along `dim` of the inputs before `t`.
pub proof fn lemma_cat_element<T>(parts: Seq<Dense<T>>, dim: int, t: int, o: int, k: int, i: int)
    requires
        cat_ready(parts, dim),
        0 <= t < parts.len(),
        0 <= o < prefix_prod(parts[0].shape@, dim),
        0 <= k < parts[t].shape@[dim],
        0 <= i < suffix_prod(parts[0].shape@, dim + 1),
    ensures
        ({
            let inner = suffix_prod(parts[0].shape@, dim + 1);
            let outer = prefix_prod(parts[0].shape@, dim);
            let total = cat_extent(parts, dim, parts.len() as int);
            cat_rows(parts, dim, inner, outer)[(o * total + cat_extent(parts, dim, t) + k) * inner + i]
                == parts[t].data@[(o * parts[t].shape@[dim] + k) * inner + i]
        }),
{
    lemma_cat_nonneg(parts, dim);
    let inner = suffix_prod(parts[0].shape@, dim + 1);
    let outer = prefix_prod(parts[0].shape@, dim);
    let m = parts.len() as int;
    let total = cat_extent(parts, dim, m);
    let ext = cat_extent(parts, dim, t);
    let size = parts[t].shape@[dim] as int;
    let r = total * inner;
    let e = ext * inner;
    let b = size * inner;
    let at = o * r + e;
    let whole = cat_rows(parts, dim, inner, outer);
    let data = parts[t].data@;
    lemma_cat_block(parts, dim, o, t);
    lemma_part_geometry(parts, dim, t);
    lemma_cat_rows_len(parts, dim, outer);
    lemma_extent_nonneg(parts, dim, t);
    lemma_cat_extent_mono(parts, dim, t + 1, m);
    let j = k * inner + i;
    assert(k * inner + inner <= size * inner) by (nonlinear_arith) requires k + 1 <= size, inner >= 0;
    assert(0 <= k * inner) by (nonlinear_arith) requires 0 <= k, 0 <= inner;
    assert(0 <= j < b);
    assert(0 <= e) by (nonlinear_arith) requires ext >= 0, inner >= 0, e == ext * inner;
    assert(e + b <= r) by (nonlinear_arith)
        requires ext + size == cat_extent(parts, dim, t + 1), cat_extent(parts, dim, t + 1) <= total, inner >= 0,
            e == ext * inner, b == size * inner, r == total * inner;
    assert(0 <= o * r && (o + 1) * r <= outer * r) by (nonlinear_arith) requires 0 <= o < outer, r >= 0;
    assert(0 <= o * b && (o + 1) * b <= outer * b) by (nonlinear_arith) requires 0 <= o < outer, b >= 0;
    assert((o + 1) * r == o * r + r && (o + 1) * b == o * b + b) by (nonlinear_arith);
    assert(whole.subrange(at, at + b)[j] == whole[at + j]);
    assert(data.subrange(o * b, (o + 1) * b)[j] == data[o * b + j]);
    assert(at + j == (o * total + ext + k) * inner + i) by (nonlinear_arith)
        requires at == o * r + e, r == total * inner, e == ext * inner, j == k * inner + i;
    assert(o * b + j == (o * size + k) * inner + i) by (nonlinear_arith)
        requires b == size * inner, j == k * inner + i;
}

/// What a split hands each part: element `j` of block `o` of
/// `split_blocks(g, row, start, b, n)` is element `o * row + start + j` of
/// `g`, for blocks inside `g`.
pub proof fn lemma_split_element<T>(g: Seq<T>, row: int, start: int, b: int, n: int, o: int, j: int)
    requires
        0 <= start,
        0 <= b,
        start + b <= row,
        n * row <= g.len(),
        0 <= o < n,
        0 <= j < b,
    ensures
        split_blocks(g, row, start, b, n).len() == n * b,
        split_blocks(g, row, start, b, n)[o * b + j] == g[o * row + start + j],
    decreases n,
{
    let prev = split_blocks(g, row, start, b, n - 1);
    let at = (n - 1) * row + start;
    assert(0 <= (n - 1) * row) by (nonlinear_arith) requires n >= 1, row >= 0;
    assert((n - 1) * row + row == n * row) by (nonlinear_arith);
    assert((n - 1) * b + b == n * b) by (nonlinear_arith);
    if n == 1 {
        assert(prev =~= Seq::<T>::empty());
    } else {
        if o < n - 1 {
            lemma_split_element(g, row, start, b, n - 1, o, j);
        } else {
            lemma_split_element(g, row, start, b, n - 1, 0, 0);
        }
    }
    assert(prev.len() == (n - 1) * b);
    if o < n - 1 {
        assert(o * b + j < (n - 1) * b) by (nonlinear_arith) requires 0 <= o < n - 1, 0 <= j < b;
        assert(0 <= o * b) by (nonlinear_arith) requires 0 <= o, 0 <= b;
    } else {
        assert(o * b + j == (n - 1) * b + j);
        assert(o * row + start + j == at + j);
    }
}

proof fn lemma_extents_agree<T>(parts: Seq<Dense<T>>, shapes: Seq<Vec<usize>>, dim: int, t: int)
    requires
        shapes.len() == parts.len(),
        forall|u: int| 0 <= u < parts.len() ==> (#[trigger] shapes[u])@ == parts[u].shape@,
        0 <= t <= parts.len(),
    ensures
        split_extent(shapes, dim, t) == cat_extent(parts, dim, t),
    decreases t,
{
    if t > 0 {
        lemma_extents_agree(parts, shapes, dim, t - 1);
        assert(shapes[t - 1]@ == parts[t - 1].shape@);
    }
}

} // verus!
