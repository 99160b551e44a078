//! Shapes: element counts, row-major strides, and numpy-style broadcasting.
use vstd::prelude::*;
use vstd::slice::slice_to_vec;
use crate::error::Error;

verus! {

/// Product of `s[d..]`: the number of elements one step along dim `d - 1`
/// spans in row-major order (1 past the last dim).
pub open spec fn suffix_prod(s: Seq<usize>, d: int) -> int
    decreases s.len() - d,
{
    if d >= s.len() {
        1
    } else {
        s[d] as int * suffix_prod(s, d + 1)
    }
}

/// Number of elements of a tensor of shape `s` (1 for rank 0).
pub open spec fn shape_numel(s: Seq<usize>) -> int {
    suffix_prod(s, 0)
}

/// Every trailing product of `s` fits in a `usize`: the machine limit under
/// which element counts and strides of shape `s` can be computed.
pub open spec fn sizes_fit(s: Seq<usize>) -> bool {
    forall|d: int| 0 <= d <= s.len() ==> #[trigger] suffix_prod(s, d) <= usize::MAX
}

/// Row-major strides of shape `s`: the stride of dim `i` is the product of
/// the dims after it.
pub open spec fn row_major_strides(s: Seq<usize>) -> Seq<usize> {
    Seq::new(s.len(), |i: int| suffix_prod(s, i + 1) as usize)
}

/// Products of dims are never negative.
pub proof fn lemma_suffix_prod_nonneg(s: Seq<usize>, d: int)
    ensures
        suffix_prod(s, d) >= 0,
    decreases s.len() - d,
{
    if d < s.len() {
        lemma_suffix_prod_nonneg(s, d + 1);
        let a = s[d] as int;
        let b = suffix_prod(s, d + 1);
        assert(a * b >= 0) by (nonlinear_arith)
            requires
                a >= 0,
                b >= 0,
        ;
    }
}

/// Number of elements of `shape`.
pub fn numel(shape: &[usize]) -> (n: usize)
    requires
        sizes_fit(shape@),
    ensures
        n == shape_numel(shape@),
{
    let mut acc: usize = 1;
    let mut d: usize = shape.len();
    while d > 0
        invariant
            d <= shape.len(),
            sizes_fit(shape@),
            acc as int == suffix_prod(shape@, d as int),
        decreases d,
    {
        d = d - 1;
        assert(suffix_prod(shape@, d as int) <= usize::MAX);
        acc = shape[d] * acc;
    }
    acc
}

/// Row-major (C-contiguous) strides for `shape`.
pub fn default_strides(shape: &[usize]) -> (strides: Vec<usize>)
    requires
        sizes_fit(shape@),
    ensures
        strides@ == row_major_strides(shape@),
{
    let n = shape.len();
    let mut strides: Vec<usize> = vec![0usize; n];
    let mut acc: usize = 1;
    let mut d: usize = n;
    while d > 0
        invariant
            n == shape.len(),
            d <= n,
            sizes_fit(shape@),
            acc as int == suffix_prod(shape@, d as int),
            strides@.len() == n,
            forall|j: int| d <= j < n ==> strides@[j] == row_major_strides(shape@)[j],
        decreases d,
    {
        d = d - 1;
        strides.set(d, acc);
        assert(suffix_prod(shape@, d as int) <= usize::MAX);
        acc = shape[d] * acc;
    }
    assert(strides@ =~= row_major_strides(shape@));
    strides
}

// ---------------------------------------------------------------------------
// Broadcasting

/// Dim `j` of `s` right-aligned to rank `n`: missing leading dims are 1.
pub open spec fn aligned_dim(s: Seq<usize>, n: int, j: int) -> usize {
    if j < n - s.len() { 1 } else { s[j - (n - s.len())] }
}

/// Two aligned dims broadcast together when equal or when either is 1.
pub open spec fn dims_compatible(x: usize, y: usize) -> bool {
    x == y || x == 1 || y == 1
}

/// The rank of the broadcast of two shapes: the larger of the two ranks.
pub open spec fn broadcast_rank(a: Seq<usize>, b: Seq<usize>) -> int {
    if a.len() >= b.len() { a.len() as int } else { b.len() as int }
}

/// The broadcast shape of `a` and `b` under numpy's right-aligned rules, or
/// `None` when some aligned pair of dims differs and neither is 1.
pub open spec fn broadcast_shape(a: Seq<usize>, b: Seq<usize>) -> Option<Seq<usize>> {
    let n = broadcast_rank(a, b);
    if forall|j: int| 0 <= j < n ==> dims_compatible(#[trigger] aligned_dim(a, n, j), aligned_dim(b, n, j)) {
        Some(Seq::new(n as nat, |j: int| if aligned_dim(a, n, j) == 1 { aligned_dim(b, n, j) } else { aligned_dim(a, n, j) }))
    } else {
        None
    }
}

/// `in_shape` broadcasts to `out_shape` under numpy's right-aligned rules:
/// every dim of `in_shape` equals the aligned output dim or is 1.
pub open spec fn broadcasts_to(in_shape: Seq<usize>, out_shape: Seq<usize>) -> bool {
    &&& in_shape.len() <= out_shape.len()
    &&& forall|d: int|
        0 <= d < in_shape.len() ==> #[trigger] in_shape[d] == out_shape[out_shape.len() - in_shape.len() + d]
            || in_shape[d] == 1
}

/// The broadcast shape of `a` and `b`; `ShapeMismatch` naming `op` and both
/// shapes when they do not broadcast.
pub fn broadcast_shapes(op: &'static str, a: &[usize], b: &[usize]) -> (r: Result<Vec<usize>, Error>)
    ensures
        match broadcast_shape(a@, b@) {
            Some(s) => r matches Ok(v) && v@ == s,
            None => r matches Err(Error::ShapeMismatch { op: o, lhs, rhs }) && o == op && lhs@ == a@ && rhs@ == b@,
        },
{
    let n = if a.len() >= b.len() { a.len() } else { b.len() };
    let ghost ni = broadcast_rank(a@, b@);
    let mut out: Vec<usize> = Vec::new();
    let mut j: usize = 0;
    while j < n
        invariant
            j <= n,
            ni == n,
            n == (if a.len() >= b.len() { a.len() } else { b.len() }),
            out@.len() == j,
            forall|k: int| 0 <= k < j ==> dims_compatible(#[trigger] aligned_dim(a@, ni, k), aligned_dim(b@, ni, k)),
            forall|k: int| 0 <= k < j ==> #[trigger] out@[k] == (if aligned_dim(a@, ni, k) == 1 { aligned_dim(b@, ni, k) } else { aligned_dim(a@, ni, k) }),
        decreases n - j,
    {
        let x = if j < n - a.len() { 1 } else { a[j - (n - a.len())] };
        let y = if j < n - b.len() { 1 } else { b[j - (n - b.len())] };
        assert(x == aligned_dim(a@, ni, j as int));
        assert(y == aligned_dim(b@, ni, j as int));
        if x == y || x == 1 || y == 1 {
            out.push(if x == 1 { y } else { x });
        } else {
            assert(!dims_compatible(aligned_dim(a@, ni, j as int), aligned_dim(b@, ni, j as int)));
            assert(broadcast_shape(a@, b@) is None);
            return Err(Error::ShapeMismatch { op, lhs: slice_to_vec(a), rhs: slice_to_vec(b) });
        }
        j = j + 1;
    }
    proof {
        let s = Seq::new(n as nat, |k: int| if aligned_dim(a@, ni, k) == 1 { aligned_dim(b@, ni, k) } else { aligned_dim(a@, ni, k) });
        assert(out@ =~= s);
    }
    Ok(out)
}

/// Broadcasting is symmetric: `a` with `b` gives the same shape as `b` with
/// `a`, and neither order succeeds without the other.
pub proof fn lemma_broadcast_symmetric(a: Seq<usize>, b: Seq<usize>)
    ensures
        broadcast_shape(a, b) == broadcast_shape(b, a),
{
    let n = broadcast_rank(a, b);
    assert(broadcast_rank(b, a) == n);
    let ab = forall|j: int| 0 <= j < n ==> dims_compatible(#[trigger] aligned_dim(a, n, j), aligned_dim(b, n, j));
    let ba = forall|j: int| 0 <= j < n ==> dims_compatible(#[trigger] aligned_dim(b, n, j), aligned_dim(a, n, j));
    assert(ab == ba) by {
        if ab {
            assert forall|j: int| 0 <= j < n implies dims_compatible(#[trigger] aligned_dim(b, n, j), aligned_dim(a, n, j)) by {
                assert(dims_compatible(aligned_dim(a, n, j), aligned_dim(b, n, j)));
            }
        }
        if ba {
            assert forall|j: int| 0 <= j < n implies dims_compatible(#[trigger] aligned_dim(a, n, j), aligned_dim(b, n, j)) by {
                assert(dims_compatible(aligned_dim(b, n, j), aligned_dim(a, n, j)));
            }
        }
    }
    if ab {
        let s1 = Seq::new(n as nat, |j: int| if aligned_dim(a, n, j) == 1 { aligned_dim(b, n, j) } else { aligned_dim(a, n, j) });
        let s2 = Seq::new(n as nat, |j: int| if aligned_dim(b, n, j) == 1 { aligned_dim(a, n, j) } else { aligned_dim(b, n, j) });
        assert forall|j: int| 0 <= j < n implies s1[j] == s2[j] by {
            assert(dims_compatible(aligned_dim(a, n, j), aligned_dim(b, n, j)));
        }
        assert(s1 =~= s2);
        assert(broadcast_shape(a, b) == Some(s1));
        assert(broadcast_shape(b, a) == Some(s2));
    } else {
        assert(broadcast_shape(a, b) is None);
        assert(broadcast_shape(b, a) is None);
    }
}

/// Each operand broadcasts to the broadcast shape: once `broadcast_shape`
/// succeeds, expanding either operand to the result cannot fail.
pub proof fn lemma_operands_broadcast_to_result(a: Seq<usize>, b: Seq<usize>)
    requires
        broadcast_shape(a, b) is Some,
    ensures
        broadcasts_to(a, broadcast_shape(a, b)->0),
        broadcasts_to(b, broadcast_shape(a, b)->0),
{
    let n = broadcast_rank(a, b);
    let s = broadcast_shape(a, b)->0;
    assert forall|d: int| 0 <= d < a.len() implies #[trigger] a[d] == s[s.len() - a.len() + d] || a[d] == 1 by {
        let j = n - a.len() + d;
        assert(aligned_dim(a, n, j) == a[d]);
        assert(dims_compatible(aligned_dim(a, n, j), aligned_dim(b, n, j)));
    }
    assert forall|d: int| 0 <= d < b.len() implies #[trigger] b[d] == s[s.len() - b.len() + d] || b[d] == 1 by {
        let j = n - b.len() + d;
        assert(aligned_dim(b, n, j) == b[d]);
        assert(dims_compatible(aligned_dim(a, n, j), aligned_dim(b, n, j)));
    }
}

/// `suffix_prod` of a shape without its first dim is the same product,
/// shifted by one.
pub proof fn lemma_suffix_prod_drop_first(s: Seq<usize>, i: int)
    requires
        s.len() > 0,
        0 <= i,
    ensures
        suffix_prod(s.drop_first(), i) == suffix_prod(s, i + 1),
    decreases s.len() - i,
{
    if i + 1 < s.len() {
        lemma_suffix_prod_drop_first(s, i + 1);
    }
}

/// Product of `s[..d]`: how many slices along dim `d` the dims before it
/// make.
pub open spec fn prefix_prod(s: Seq<usize>, d: int) -> int
    decreases d,
{
    if d <= 0 {
        1
    } else {
        prefix_prod(s, d - 1) * s[d - 1] as int
    }
}

/// Every leading product of `s[..d]` for `d <= upto` fits in a `usize`.
pub open spec fn prefixes_fit(s: Seq<usize>, upto: int) -> bool {
    forall|d: int| 0 <= d <= upto ==> #[trigger] prefix_prod(s, d) <= usize::MAX
}

/// Whether every trailing and every leading product of the dims fits in a
/// `usize`: the machine limit under which a tensor of this shape can be
/// laid out, summed over and sliced.
pub fn shape_fits(shape: &[usize]) -> (b: bool)
    ensures
        b == (sizes_fit(shape@) && prefixes_fit(shape@, shape@.len() as int)),
{
    let mut acc: usize = 1;
    let mut d: usize = shape.len();
    while d > 0
        invariant
            d <= shape@.len(),
            acc as int == suffix_prod(shape@, d as int),
            forall|e: int| d <= e <= shape@.len() ==> #[trigger] suffix_prod(shape@, e) <= usize::MAX,
        decreases d,
    {
        d = d - 1;
        match shape[d].checked_mul(acc) {
            Some(p) => {
                acc = p;
            },
            None => {
                assert(!(suffix_prod(shape@, d as int) <= usize::MAX));
                return false;
            },
        }
    }
    let mut acc: usize = 1;
    let mut d: usize = 0;
    while d < shape.len()
        invariant
            d <= shape@.len(),
            sizes_fit(shape@),
            acc as int == prefix_prod(shape@, d as int),
            forall|e: int| 0 <= e <= d ==> #[trigger] prefix_prod(shape@, e) <= usize::MAX,
        decreases shape@.len() - d,
    {
        match acc.checked_mul(shape[d]) {
            Some(p) => {
                acc = p;
            },
            None => {
                assert(!(prefix_prod(shape@, d + 1) <= usize::MAX));
                return false;
            },
        }
        d = d + 1;
    }
    true
}

/// Product of the dims before `dim`.
pub fn prod_before(shape: &[usize], dim: usize) -> (p: usize)
    requires
        dim <= shape.len(),
        prefixes_fit(shape@, dim as int),
    ensures
        p == prefix_prod(shape@, dim as int),
{
    let mut acc: usize = 1;
    let mut d: usize = 0;
    while d < dim
        invariant
            d <= dim,
            dim <= shape.len(),
            prefixes_fit(shape@, dim as int),
            acc as int == prefix_prod(shape@, d as int),
        decreases dim - d,
    {
        assert(prefix_prod(shape@, d + 1) <= usize::MAX);
        acc = acc * shape[d];
        d = d + 1;
    }
    acc
}

/// Product of the dims after `dim`.
pub fn prod_after(shape: &[usize], dim: usize) -> (p: usize)
    requires
        dim < shape.len(),
        sizes_fit(shape@),
    ensures
        p == suffix_prod(shape@, dim + 1),
{
    let mut acc: usize = 1;
    let mut d: usize = shape.len();
    while d > dim + 1
        invariant
            dim + 1 <= d <= shape.len(),
            sizes_fit(shape@),
            acc as int == suffix_prod(shape@, d as int),
        decreases d,
    {
        d = d - 1;
        assert(suffix_prod(shape@, d as int) <= usize::MAX);
        acc = shape[d] * acc;
    }
    acc
}

/// Strides for iterating 1-D slices along `dim`: `(outer, size, stride)`,
/// with `outer` slices in the leading block, `size` steps along `dim`, and
/// `stride` contiguous elements in the trailing block.
pub fn slice_dims(shape: &[usize], dim: usize) -> (r: (usize, usize, usize))
    requires
        dim < shape.len(),
        sizes_fit(shape@),
        prefixes_fit(shape@, dim as int),
    ensures
        r.0 == prefix_prod(shape@, dim as int),
        r.1 == shape@[dim as int],
        r.2 == suffix_prod(shape@, dim + 1),
{
    let size = shape[dim];
    let stride = prod_after(shape, dim);
    let outer = prod_before(shape, dim);
    (outer, size, stride)
}

/// The flat positions of one slice along a dim of a contiguous tensor seen
/// as `[outer, size, inner]`: entry `k` is the position of element
/// `(o, k, i)`, and every position lies inside the tensor.
pub fn slice_offsets(outer: usize, size: usize, inner: usize, o: usize, i: usize) -> (v: Vec<usize>)
    requires
        o < outer,
        i < inner,
        outer * size * inner <= usize::MAX,
    ensures
        v@.len() == size,
        forall|k: int| 0 <= k < size ==> #[trigger] v@[k] == (o * size + k) * inner + i,
        forall|k: int| 0 <= k < size ==> #[trigger] v@[k] < outer * size * inner,
{
    let mut v: Vec<usize> = Vec::new();
    let mut k: usize = 0;
    while k < size
        invariant
            k <= size,
            o < outer,
            i < inner,
            outer * size * inner <= usize::MAX,
            v@.len() == k,
            forall|j: int| 0 <= j < k ==> #[trigger] v@[j] == (o * size + j) * inner + i,
            forall|j: int| 0 <= j < k ==> #[trigger] v@[j] < outer * size * inner,
        decreases size - k,
    {
        proof {
            assert(o * size + k < outer * size) by (nonlinear_arith)
                requires o < outer, k < size;
            assert((o * size + k) * inner + i < outer * size * inner) by (nonlinear_arith)
                requires o * size + k < outer * size, i < inner;
            assert(0 <= o * size) by (nonlinear_arith) requires 0 <= o, 0 <= size;
            assert(0 <= (o * size + k) * inner) by (nonlinear_arith) requires 0 <= o * size + k, 0 <= inner;
            assert(outer * size <= outer * size * inner) by (nonlinear_arith)
                requires 0 <= outer * size, 1 <= inner;
            assert((o * size + k) * inner <= (o * size + k) * inner + i);
        }
        let os = o * size;
        proof {
            assert(os + k <= usize::MAX);
        }
        let p = (os + k) * inner + i;
        v.push(p);
        k = k + 1;
    }
    v
}

/// Splitting a shape at any dim splits its element count:
/// `prod(s[..d]) * prod(s[d..]) == numel(s)`.
pub proof fn lemma_prod_split(s: Seq<usize>, d: int)
    requires
        0 <= d <= s.len(),
    ensures
        prefix_prod(s, d) * suffix_prod(s, d) == shape_numel(s),
    decreases d,
{
    if d > 0 {
        lemma_prod_split(s, d - 1);
        let a = prefix_prod(s, d - 1);
        let b = s[d - 1] as int;
        let c = suffix_prod(s, d);
        assert(a * (b * c) == (a * b) * c) by (nonlinear_arith);
    }
}

/// Shapes that agree before `d` have the same leading product.
pub proof fn lemma_prefix_prod_agree(s: Seq<usize>, t: Seq<usize>, d: int)
    requires
        0 <= d <= s.len(),
        d <= t.len(),
        forall|k: int| 0 <= k < d ==> s[k] == t[k],
    ensures
        prefix_prod(s, d) == prefix_prod(t, d),
    decreases d,
{
    if d > 0 {
        lemma_prefix_prod_agree(s, t, d - 1);
    }
}

/// Shapes of equal rank that agree from `d` on have the same trailing
/// product.
pub proof fn lemma_suffix_prod_agree(s: Seq<usize>, t: Seq<usize>, d: int)
    requires
        0 <= d,
        s.len() == t.len(),
        forall|k: int| d <= k < s.len() ==> s[k] == t[k],
    ensures
        suffix_prod(s, d) == suffix_prod(t, d),
    decreases s.len() - d,
{
    if d < s.len() {
        lemma_suffix_prod_agree(s, t, d + 1);
    }
}

/// Products of leading dims are never negative.
pub proof fn lemma_prefix_prod_nonneg(s: Seq<usize>, d: int)
    ensures
        prefix_prod(s, d) >= 0,
    decreases d,
{
    if d > 0 {
        lemma_prefix_prod_nonneg(s, d - 1);
        let a = prefix_prod(s, d - 1);
        let b = s[d - 1] as int;
        assert(a * b >= 0) by (nonlinear_arith) requires a >= 0, b >= 0;
    }
}

/// The product of the dims from `i` splits at any later `d`: the product of
/// `s[i..d]` times the product from `d` on.
pub proof fn lemma_suffix_prod_take(s: Seq<usize>, i: int, d: int)
    requires
        0 <= i <= d <= s.len(),
    ensures
        suffix_prod(s, i) == suffix_prod(s.take(d), i) * suffix_prod(s, d),
    decreases d - i,
{
    if i < d {
        lemma_suffix_prod_take(s, i + 1, d);
        let t = s.take(d);
        assert(t[i] == s[i]);
        let a = s[i] as int;
        let x = suffix_prod(t, i + 1);
        let y = suffix_prod(s, d);
        assert(a * (x * y) == (a * x) * y) by (nonlinear_arith);
    }
}

/// The product of the dims from `d` on is the element count of the shape
/// those dims form.
pub proof fn lemma_suffix_prod_skip(s: Seq<usize>, d: int, i: int)
    requires
        0 <= d <= i <= s.len(),
    ensures
        suffix_prod(s, i) == suffix_prod(s.skip(d), i - d),
    decreases s.len() - i,
{
    if i < s.len() {
        lemma_suffix_prod_skip(s, d, i + 1);
    }
}

/// The product of the dims before `d` is the element count of the shape
/// those dims form.
pub proof fn lemma_prefix_prod_take(s: Seq<usize>, d: int)
    requires
        0 <= d <= s.len(),
    ensures
        prefix_prod(s, d) == shape_numel(s.take(d)),
    decreases d,
{
    if d > 0 {
        lemma_prefix_prod_take(s, d - 1);
        let t = s.take(d);
        lemma_suffix_prod_take(t, 0, d - 1);
        assert(t.take(d - 1) =~= s.take(d - 1));
        assert(suffix_prod(t, d) == 1);
        assert(suffix_prod(t, d - 1) == t[d - 1] * 1);
        assert(t[d - 1] == s[d - 1]);
    }
}

/// Shrinking dims never grows their products.
pub proof fn lemma_suffix_prod_mono(s: Seq<usize>, t: Seq<usize>, d: int)
    requires
        0 <= d,
        s.len() == t.len(),
        forall|k: int| 0 <= k < s.len() ==> t[k] <= s[k],
    ensures
        suffix_prod(t, d) <= suffix_prod(s, d),
    decreases s.len() - d,
{
    if d < s.len() {
        lemma_suffix_prod_mono(s, t, d + 1);
        lemma_suffix_prod_nonneg(t, d + 1);
        let a = t[d] as int;
        let b = s[d] as int;
        let x = suffix_prod(t, d + 1);
        let y = suffix_prod(s, d + 1);
        assert(a * x <= b * y) by (nonlinear_arith) requires 0 <= a <= b, 0 <= x <= y;
    }
}

} // verus!
