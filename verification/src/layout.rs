//! Strided views over flat storage: a tensor's shape, per-dim element
//! strides and starting offset. Broadcasting, transposing and reshaping only
//! build a new layout over the same storage; `gather` materializes a layout
//! into row-major order.
use vstd::prelude::*;
use vstd::slice::{slice_subrange, slice_to_vec};
use vstd::string::*;
use crate::error::Error;
use crate::kernels::{
    broadcast_strides_of, dot_from, in_bounds, launch_shape, lemma_broadcast_offset, row_major_from, source_coord,
    suffix_prod32,
};
use crate::shape::{
    broadcasts_to, default_strides, lemma_suffix_prod_drop_first, lemma_suffix_prod_nonneg, lemma_suffix_prod_skip,
    lemma_suffix_prod_take, lemma_prefix_prod_take, numel, prefix_prod, prefixes_fit, row_major_strides, shape_numel,
    sizes_fit, suffix_prod,
};
use crate::text::{decimal, push_decimal, push_sizes, sizes_text};

verus! {

/// A strided view: element `(i_0, ..., i_{n-1})` lives at
/// `offset + sum_d i_d * stride[d]` of the underlying storage.
#[derive(Clone, Debug)]
pub struct Layout {
    pub shape: Vec<usize>,
    pub stride: Vec<usize>,
    pub offset: usize,
}

/// The elements a strided view reads, in row-major order: the first `k`
/// blocks along the leading dim (every element, for rank 0).
pub open spec fn strided_prefix<T>(
    data: Seq<T>,
    shape: Seq<usize>,
    stride: Seq<usize>,
    offset: int,
    k: nat,
) -> Seq<T>
    decreases shape.len(), k,
{
    if shape.len() == 0 {
        seq![data[offset]]
    } else if k == 0 {
        Seq::empty()
    } else {
        let sub = shape.drop_first();
        strided_prefix(data, shape, stride, offset, (k - 1) as nat) + strided_prefix(
            data,
            sub,
            stride.drop_first(),
            offset + (k - 1) * stride[0],
            if sub.len() == 0 { 0 } else { sub[0] as nat },
        )
    }
}

/// All elements a strided view reads, in row-major order.
pub open spec fn strided_elems<T>(data: Seq<T>, shape: Seq<usize>, stride: Seq<usize>, offset: int) -> Seq<T> {
    strided_prefix(data, shape, stride, offset, if shape.len() == 0 { 0 } else { shape[0] as nat })
}

/// How far past its first element a view with no empty dim reaches:
/// `sum_d (shape[d] - 1) * stride[d]`.
pub open spec fn extent(shape: Seq<usize>, stride: Seq<usize>) -> int
    decreases shape.len(),
{
    if shape.len() == 0 {
        0
    } else {
        (shape[0] - 1) * stride[0] + extent(shape.drop_first(), stride.drop_first())
    }
}

/// Some dim of the shape is 0: the view has no elements.
pub open spec fn has_zero_dim(shape: Seq<usize>) -> bool {
    exists|d: int| 0 <= d < shape.len() && shape[d] == 0
}

proof fn lemma_zero_dim_empty<T>(data: Seq<T>, shape: Seq<usize>, stride: Seq<usize>, offset: int, k: nat)
    requires
        has_zero_dim(shape),
        shape.len() > 0,
        k <= shape[0],
    ensures
        strided_prefix(data, shape, stride, offset, k) =~= Seq::<T>::empty(),
    decreases shape.len(), k,
{
    if k > 0 {
        lemma_zero_dim_empty(data, shape, stride, offset, (k - 1) as nat);
        let sub = shape.drop_first();
        let d = choose|d: int| 0 <= d < shape.len() && shape[d] == 0;
        assert(d != 0);
        assert(sub[d - 1] == 0);
        lemma_zero_dim_empty(data, sub, stride.drop_first(), offset + (k - 1) * stride[0], sub[0] as nat);
    }
}

proof fn lemma_extent_nonneg(shape: Seq<usize>, stride: Seq<usize>)
    requires
        !has_zero_dim(shape),
        shape.len() == stride.len(),
    ensures
        extent(shape, stride) >= 0,
    decreases shape.len(),
{
    if shape.len() > 0 {
        assert(shape[0] != 0);
        let sub = shape.drop_first();
        assert(!has_zero_dim(sub)) by {
            if has_zero_dim(sub) {
                let d = choose|d: int| 0 <= d < sub.len() && sub[d] == 0;
                assert(shape[d + 1] == 0);
            }
        }
        lemma_extent_nonneg(sub, stride.drop_first());
        let a = shape[0] - 1;
        let b = stride[0] as int;
        assert(a * b >= 0) by (nonlinear_arith) requires a >= 0, b >= 0;
    }
}

fn gather_from<T: Copy>(data: &[T], shape: &[usize], stride: &[usize], dim: usize, offset: usize, out: &mut Vec<T>)
    requires
        shape.len() == stride.len(),
        dim <= shape.len(),
        !has_zero_dim(shape@),
        offset + extent(shape@.subrange(dim as int, shape.len() as int), stride@.subrange(dim as int, stride.len() as int)) < data@.len(),
    ensures
        final(out)@ == old(out)@ + strided_elems(data@, shape@.subrange(dim as int, shape.len() as int), stride@.subrange(dim as int, stride.len() as int), offset as int),
    decreases shape.len() - dim,
{
    let ghost sh = shape@.subrange(dim as int, shape.len() as int);
    let ghost st = stride@.subrange(dim as int, stride.len() as int);
    if dim == shape.len() {
        assert(sh.len() == 0);
        out.push(data[offset]);
        return;
    }
    let ghost sub = sh.drop_first();
    let ghost subst = st.drop_first();
    assert(sub =~= shape@.subrange(dim + 1, shape.len() as int));
    assert(subst =~= stride@.subrange(dim + 1, stride.len() as int));
    assert(!has_zero_dim(sub)) by {
        if has_zero_dim(sub) {
            let d = choose|d: int| 0 <= d < sub.len() && sub[d] == 0;
            assert(shape@[dim + 1 + d] == 0);
        }
    }
    let n = shape[dim];
    let step = stride[dim];
    let data_len = data.len();
    let mut k: usize = 0;
    while k < n
        invariant
            shape.len() == stride.len(),
            dim < shape.len(),
            !has_zero_dim(shape@),
            !has_zero_dim(sub),
            sh == shape@.subrange(dim as int, shape.len() as int),
            st == stride@.subrange(dim as int, stride.len() as int),
            sub == shape@.subrange(dim + 1, shape.len() as int),
            subst == stride@.subrange(dim + 1, stride.len() as int),
            sub == sh.drop_first(),
            subst == st.drop_first(),
            n == sh[0],
            step == st[0],
            k <= n,
            offset + extent(sh, st) < data@.len(),
            data_len == data@.len(),
            out@ == old(out)@ + strided_prefix(data@, sh, st, offset as int, k as nat),
        decreases n - k,
    {
        let ghost off = offset + k * step;
        proof {
            lemma_extent_nonneg(sub, subst);
            assert(k * step <= (n - 1) * step) by (nonlinear_arith) requires k <= n - 1, step >= 0;
            assert(k * step >= 0) by (nonlinear_arith) requires k >= 0, step >= 0;
            assert(extent(sh, st) == (n - 1) * step + extent(sub, subst));
        }
        let o = offset + k * step;
        gather_from(data, shape, stride, dim + 1, o, out);
        proof {
            assert(strided_prefix(data@, sh, st, offset as int, (k + 1) as nat) == strided_prefix(data@, sh, st, offset as int, k as nat)
                + strided_elems(data@, sub, subst, off));
        }
        k = k + 1;
    }
}

impl Layout {
    /// Shape and strides have one entry per dim.
    pub open spec fn wf(&self) -> bool {
        self.shape@.len() == self.stride@.len()
    }

    /// The elements this view reads from `data`, in row-major order.
    pub open spec fn elems<T>(&self, data: Seq<T>) -> Seq<T> {
        strided_elems(data, self.shape@, self.stride@, self.offset as int)
    }

    /// Every element of this view lies inside storage of length `len`.
    pub open spec fn reads_within(&self, len: int) -> bool {
        has_zero_dim(self.shape@) || self.offset + extent(self.shape@, self.stride@) < len
    }

    /// Materialize the (possibly strided or broadcast) view of `data` as a
    /// row-major `Vec`: the strided odometer that every dtype shares.
    pub fn gather<T: Copy>(&self, data: &[T]) -> (out: Vec<T>)
        requires
            self.wf(),
            sizes_fit(self.shape@),
            self.reads_within(data@.len() as int),
        ensures
            out@ == self.elems(data@),
            out@.len() == shape_numel(self.shape@),
    {
        proof {
            lemma_elems_len(data@, self.shape@, self.stride@, self.offset as int);
        }
        let mut out: Vec<T> = Vec::new();
        let mut d: usize = 0;
        while d < self.shape.len()
            invariant
                d <= self.shape@.len(),
                out@ == Seq::<T>::empty(),
                forall|j: int| 0 <= j < d ==> self.shape@[j] != 0,
            decreases self.shape.len() - d,
        {
            if self.shape[d] == 0 {
                proof {
                    assert(self.shape@[d as int] == 0);
                    lemma_zero_dim_empty(data@, self.shape@, self.stride@, self.offset as int, self.shape@[0] as nat);
                    lemma_elems_len(data@, self.shape@, self.stride@, self.offset as int);
                }
                return out;
            }
            d = d + 1;
        }
        assert(!has_zero_dim(self.shape@));
        let data_len = data.len();
        if self.is_contiguous() {
            let n = numel(self.shape.as_slice());
            proof {
                lemma_contiguous_extent(self.shape@, self.stride@);
                lemma_contiguous_elems(data@, self.shape@, self.stride@, self.offset as int);
            }
            return slice_to_vec(slice_subrange(data, self.offset, self.offset + n));
        }
        assert(self.shape@.subrange(0, self.shape@.len() as int) =~= self.shape@);
        assert(self.stride@.subrange(0, self.stride@.len() as int) =~= self.stride@);
        gather_from(data, self.shape.as_slice(), self.stride.as_slice(), 0, self.offset, &mut out);
        assert(out@ =~= self.elems(data@));
        out
    }
}

/// Row-major contiguity: every dim other than a size-1 dim (which
/// contributes no offset, whatever its stride) has the stride of a dense
/// row-major layout.
pub open spec fn contiguous(shape: Seq<usize>, stride: Seq<usize>) -> bool {
    forall|i: int| 0 <= i < shape.len() && shape[i] != 1 ==> #[trigger] stride[i] == suffix_prod(shape, i + 1)
}

/// The strides of `shape`'s view broadcast to `target`: leading padded dims
/// and expanded size-1 dims get stride 0, matching dims keep theirs.
pub open spec fn broadcast_view_strides(shape: Seq<usize>, stride: Seq<usize>, target: Seq<usize>) -> Seq<usize> {
    let pad = target.len() - shape.len();
    Seq::new(
        target.len(),
        |i: int| if i < pad { 0usize } else if shape[i - pad] == target[i] { stride[i - pad] } else { 0usize },
    )
}

/// Shape or strides of a view with dims `d0` and `d1` swapped.
pub open spec fn swapped(s: Seq<usize>, d0: int, d1: int) -> Seq<usize> {
    s.update(d0, s[d1]).update(d1, s[d0])
}

/// Message of a transpose whose dims are out of range.
pub open spec fn transpose_range_msg(d0: usize, d1: usize, ndim: usize) -> Seq<char> {
    "dims ("@ + decimal(d0 as nat) + ","@ + decimal(d1 as nat) + ") out of range for rank "@ + decimal(
        ndim as nat,
    )
}

/// Message of a reshape between shapes of different element counts.
pub open spec fn reshape_msg(from: Seq<usize>, to: Seq<usize>) -> Seq<char> {
    "cannot reshape "@ + sizes_text(from) + " into "@ + sizes_text(to)
}

/// Message of data whose length does not match its shape.
pub open spec fn length_msg(len: usize, shape: Seq<usize>) -> Seq<char> {
    decimal(len as nat) + " elements do not fit shape "@ + sizes_text(shape)
}

impl Layout {
    /// The dense row-major layout of `shape`, starting at offset 0.
    pub fn row_major(shape: &[usize]) -> (l: Layout)
        requires
            sizes_fit(shape@),
        ensures
            l.shape@ == shape@,
            l.stride@ == row_major_strides(shape@),
            l.offset == 0,
            l.wf(),
            l.reads_within(shape_numel(shape@)),
    {
        proof {
            lemma_row_major_within(shape@);
        }
        Layout { shape: slice_to_vec(shape), stride: default_strides(shape), offset: 0 }
    }

    /// The row-major layout for `len` elements of data viewed with `shape`;
    /// `InvalidShape` naming `op` when the counts differ.
    pub fn for_data(op: &'static str, len: usize, shape: &[usize]) -> (r: Result<Layout, Error>)
        requires
            sizes_fit(shape@),
        ensures
            len == shape_numel(shape@) ==> (r matches Ok(l) && l.shape@ == shape@ && l.stride@ == row_major_strides(shape@) && l.offset == 0
                && l.reads_within(len as int)),
            len != shape_numel(shape@) ==> (r matches Err(Error::InvalidShape { op: o, msg }) && o == op && msg@ == length_msg(len, shape@)),
    {
        if len != numel(shape) {
            let mut msg = String::new();
            push_decimal(&mut msg, len);
            msg.append(" elements do not fit shape ");
            push_sizes(&mut msg, shape);
            assert(msg@ =~= length_msg(len, shape@));
            return Err(Error::InvalidShape { op, msg });
        }
        Ok(Layout::row_major(shape))
    }

    /// Row-major contiguity check, without allocating.
    pub fn is_contiguous(&self) -> (b: bool)
        requires
            self.wf(),
            sizes_fit(self.shape@),
        ensures
            b == contiguous(self.shape@, self.stride@),
    {
        let mut acc: usize = 1;
        let mut i: usize = self.shape.len();
        while i > 0
            invariant
                i <= self.shape@.len(),
                self.wf(),
                sizes_fit(self.shape@),
                acc as int == suffix_prod(self.shape@, i as int),
                forall|j: int| i <= j < self.shape@.len() && self.shape@[j] != 1 ==> #[trigger] self.stride@[j] == suffix_prod(self.shape@, j + 1),
            decreases i,
        {
            i = i - 1;
            let dim = self.shape[i];
            if dim != 1 {
                if self.stride[i] != acc {
                    assert(self.stride@[i as int] != suffix_prod(self.shape@, i + 1));
                    return false;
                }
                assert(suffix_prod(self.shape@, i as int) <= usize::MAX);
                acc = dim * acc;
            }
        }
        true
    }

    /// Broadcast to `target` without copying, by inserting zero strides;
    /// `ShapeMismatch` when the shape does not broadcast to `target`.
    pub fn broadcast_to(&self, target: &[usize]) -> (r: Result<Layout, Error>)
        requires
            self.wf(),
        ensures
            broadcasts_to(self.shape@, target@) ==> (r matches Ok(l) && l.shape@ == target@ && l.stride@
                == broadcast_view_strides(self.shape@, self.stride@, target@) && l.offset == self.offset
                && forall|len: int| self.reads_within(len) ==> #[trigger] l.reads_within(len)),
            !broadcasts_to(self.shape@, target@) ==> (r matches Err(Error::ShapeMismatch { op, lhs, rhs })
                && op@ == "broadcast_to"@ && lhs@ == self.shape@ && rhs@ == target@),
    {
        let cur = &self.shape;
        if target.len() < cur.len() {
            return Err(Error::ShapeMismatch { op: "broadcast_to", lhs: cur.clone(), rhs: slice_to_vec(target) });
        }
        let pad = target.len() - cur.len();
        let mut new_stride: Vec<usize> = Vec::new();
        let mut i: usize = 0;
        while i < target.len()
            invariant
                self.wf(),
                cur == &self.shape,
                cur@.len() <= target@.len(),
                pad == target@.len() - cur@.len(),
                i <= target@.len(),
                new_stride@ =~= broadcast_view_strides(self.shape@, self.stride@, target@).subrange(0, i as int),
                forall|d: int| 0 <= d < i - pad ==> #[trigger] cur@[d] == target@[pad + d] || cur@[d] == 1,
            decreases target.len() - i,
        {
            if i < pad {
                new_stride.push(0);
            } else {
                let ci = i - pad;
                if cur[ci] == target[i] {
                    new_stride.push(self.stride[ci]);
                } else if cur[ci] == 1 {
                    new_stride.push(0);
                } else {
                    assert(!(cur@[ci as int] == target@[target@.len() - cur@.len() + ci] || cur@[ci as int] == 1));
                    return Err(Error::ShapeMismatch { op: "broadcast_to", lhs: cur.clone(), rhs: slice_to_vec(target) });
                }
            }
            i = i + 1;
        }
        assert(broadcasts_to(self.shape@, target@));
        let l = Layout { shape: slice_to_vec(target), stride: new_stride, offset: self.offset };
        proof {
            assert(l.stride@ =~= broadcast_view_strides(self.shape@, self.stride@, target@));
            lemma_broadcast_extent(self.shape@, self.stride@, target@);
            assert forall|len: int| self.reads_within(len) implies #[trigger] l.reads_within(len) by {}
        }
        Ok(l)
    }

    /// The view with dims `d0` and `d1` swapped (shape and stride), sharing
    /// storage; `InvalidShape` when either dim is out of range.
    pub fn transpose_view(&self, d0: usize, d1: usize) -> (r: Result<Layout, Error>)
        requires
            self.wf(),
        ensures
            d0 < self.shape@.len() && d1 < self.shape@.len() ==> (r matches Ok(l) && l.shape@ == swapped(self.shape@, d0 as int, d1 as int)
                && l.stride@ == swapped(self.stride@, d0 as int, d1 as int) && l.offset == self.offset
                && forall|len: int| self.reads_within(len) ==> #[trigger] l.reads_within(len)),
            !(d0 < self.shape@.len() && d1 < self.shape@.len()) ==> (r matches Err(Error::InvalidShape { op, msg })
                && op@ == "transpose"@ && msg@ == transpose_range_msg(d0, d1, self.shape@.len() as usize)),
    {
        let ndim = self.shape.len();
        if d0 >= ndim || d1 >= ndim {
            let mut msg = String::from_str("dims (");
            push_decimal(&mut msg, d0);
            msg.append(",");
            push_decimal(&mut msg, d1);
            msg.append(") out of range for rank ");
            push_decimal(&mut msg, ndim);
            assert(msg@ =~= transpose_range_msg(d0, d1, ndim));
            return Err(Error::InvalidShape { op: "transpose", msg });
        }
        let mut shape = self.shape.clone();
        let mut stride = self.stride.clone();
        let (a, b) = (shape[d0], shape[d1]);
        shape.set(d0, b);
        shape.set(d1, a);
        let (c, e) = (stride[d0], stride[d1]);
        stride.set(d0, e);
        stride.set(d1, c);
        assert(shape@ =~= swapped(self.shape@, d0 as int, d1 as int));
        assert(stride@ =~= swapped(self.stride@, d0 as int, d1 as int));
        proof {
            lemma_transpose_extent(self.shape@, self.stride@, d0 as int, d1 as int);
        }
        Ok(Layout { shape, stride, offset: self.offset })
    }

    /// The view of the same elements with shape `target`. A contiguous view
    /// keeps its storage and offset; any other view must first be gathered
    /// into fresh row-major storage, which the result then starts at (offset
    /// 0). `InvalidShape` when the element counts differ.
    pub fn reshape(&self, target: &[usize]) -> (r: Result<Layout, Error>)
        requires
            self.wf(),
            sizes_fit(self.shape@),
            sizes_fit(target@),
        ensures
            shape_numel(target@) == shape_numel(self.shape@) ==> (r matches Ok(l) && l.shape@ == target@
                && l.stride@ == row_major_strides(target@)
                && l.offset == (if contiguous(self.shape@, self.stride@) { self.offset } else { 0 })
                && (contiguous(self.shape@, self.stride@) ==> forall|len: int| self.reads_within(len) ==> #[trigger] l.reads_within(len))
                && (!contiguous(self.shape@, self.stride@) ==> l.reads_within(shape_numel(self.shape@)))),
            shape_numel(target@) != shape_numel(self.shape@) ==> (r matches Err(Error::InvalidShape { op, msg })
                && op@ == "reshape"@ && msg@ == reshape_msg(self.shape@, target@)),
    {
        if numel(target) != numel(self.shape.as_slice()) {
            let mut msg = String::from_str("cannot reshape ");
            push_sizes(&mut msg, self.shape.as_slice());
            msg.append(" into ");
            push_sizes(&mut msg, target);
            assert(msg@ =~= reshape_msg(self.shape@, target@));
            return Err(Error::InvalidShape { op: "reshape", msg });
        }
        let offset = if self.is_contiguous() { self.offset } else { 0 };
        proof {
            lemma_row_major_within(target@);
            if contiguous(self.shape@, self.stride@) {
                lemma_reshape_extent(self.shape@, self.stride@, target@);
            }
        }
        Ok(Layout { shape: slice_to_vec(target), stride: default_strides(target), offset })
    }
}

/// Transposing the same two dims twice gives back the original view.
pub proof fn lemma_transpose_involution(shape: Seq<usize>, stride: Seq<usize>, d0: int, d1: int)
    requires
        0 <= d0 < shape.len(),
        0 <= d1 < shape.len(),
        shape.len() == stride.len(),
    ensures
        swapped(swapped(shape, d0, d1), d0, d1) == shape,
        swapped(swapped(stride, d0, d1), d0, d1) == stride,
{
    assert(swapped(swapped(shape, d0, d1), d0, d1) =~= shape);
    assert(swapped(swapped(stride, d0, d1), d0, d1) =~= stride);
}

proof fn lemma_contiguous_sub(shape: Seq<usize>, stride: Seq<usize>)
    requires
        shape.len() > 0,
        shape.len() == stride.len(),
        contiguous(shape, stride),
    ensures
        contiguous(shape.drop_first(), stride.drop_first()),
{
    let sub = shape.drop_first();
    assert forall|i: int| 0 <= i < sub.len() && sub[i] != 1 implies #[trigger] stride.drop_first()[i] == suffix_prod(sub, i + 1) by {
        lemma_suffix_prod_drop_first(shape, i + 1);
        assert(shape[i + 1] != 1);
    }
}

proof fn lemma_contiguous_prefix<T>(data: Seq<T>, shape: Seq<usize>, stride: Seq<usize>, offset: int, k: nat)
    requires
        shape.len() == stride.len(),
        contiguous(shape, stride),
        0 <= offset,
        shape.len() == 0 ==> offset + 1 <= data.len(),
        shape.len() > 0 ==> k <= shape[0] && offset + k * suffix_prod(shape, 1) <= data.len(),
    ensures
        shape.len() == 0 ==> strided_prefix(data, shape, stride, offset, k) == data.subrange(offset, offset + 1),
        shape.len() > 0 ==> strided_prefix(data, shape, stride, offset, k) == data.subrange(offset, offset + k * suffix_prod(shape, 1)),
    decreases shape.len(), k,
{
    if shape.len() == 0 {
        assert(strided_prefix(data, shape, stride, offset, k) =~= data.subrange(offset, offset + 1));
    } else if k == 0 {
        assert(strided_prefix(data, shape, stride, offset, k) =~= data.subrange(offset, offset + 0 * suffix_prod(shape, 1)));
    } else {
        let p = suffix_prod(shape, 1);
        let sub = shape.drop_first();
        let subst = stride.drop_first();
        lemma_suffix_prod_nonneg(shape, 1);
        assert((k - 1) * p <= k * p) by (nonlinear_arith) requires p >= 0, k >= 1;
        assert((k - 1) * p + p == k * p) by (nonlinear_arith);
        assert((k - 1) * p >= 0) by (nonlinear_arith) requires p >= 0, k >= 1;
        lemma_contiguous_prefix(data, shape, stride, offset, (k - 1) as nat);
        let off = offset + (k - 1) * stride[0];
        assert(off == offset + (k - 1) * p) by {
            if shape[0] != 1 {
                assert(stride[0] == suffix_prod(shape, 1));
                assert(stride[0] as int == p);
            } else {
                assert(k - 1 == 0);
                let st0 = stride[0] as int;
                assert((k - 1) * st0 == 0 && (k - 1) * p == 0) by (nonlinear_arith) requires k - 1 == 0;
            }
        }
        lemma_contiguous_sub(shape, stride);
        let kk: nat = if sub.len() == 0 { 0 } else { sub[0] as nat };
        if sub.len() > 0 {
            lemma_suffix_prod_drop_first(shape, 1);
            assert(suffix_prod(shape, 1) == sub[0] * suffix_prod(sub, 1));
        }
        lemma_contiguous_prefix(data, sub, subst, off, kk);
        assert(strided_prefix(data, shape, stride, offset, k) =~= data.subrange(offset, offset + k * p));
    }
}

proof fn lemma_contiguous_extent(shape: Seq<usize>, stride: Seq<usize>)
    requires
        shape.len() == stride.len(),
        contiguous(shape, stride),
        !has_zero_dim(shape),
    ensures
        extent(shape, stride) == shape_numel(shape) - 1,
    decreases shape.len(),
{
    if shape.len() > 0 {
        let sub = shape.drop_first();
        assert(!has_zero_dim(sub)) by {
            if has_zero_dim(sub) {
                let d = choose|d: int| 0 <= d < sub.len() && sub[d] == 0;
                assert(shape[d + 1] == 0);
            }
        }
        lemma_contiguous_sub(shape, stride);
        lemma_contiguous_extent(sub, stride.drop_first());
        let p = suffix_prod(shape, 1);
        if sub.len() > 0 {
            lemma_suffix_prod_drop_first(shape, 1);
        }
        assert(shape_numel(sub) == p);
        let n0 = shape[0] as int;
        let st0 = stride[0] as int;
        if shape[0] != 1 {
            assert(st0 == p);
        } else {
            assert((n0 - 1) * st0 == 0) by (nonlinear_arith) requires n0 == 1;
        }
        assert((n0 - 1) * p + p == n0 * p) by (nonlinear_arith);
    }
}

/// A contiguous view reads exactly the `numel` consecutive elements of its
/// storage starting at its offset: gathering it is a plain copy of that
/// range.
pub proof fn lemma_contiguous_elems<T>(data: Seq<T>, shape: Seq<usize>, stride: Seq<usize>, offset: int)
    requires
        shape.len() == stride.len(),
        contiguous(shape, stride),
        0 <= offset,
        offset + shape_numel(shape) <= data.len(),
    ensures
        strided_elems(data, shape, stride, offset) == data.subrange(offset, offset + shape_numel(shape)),
{
    if shape.len() == 0 {
        lemma_contiguous_prefix(data, shape, stride, offset, 0);
    } else {
        lemma_contiguous_prefix(data, shape, stride, offset, shape[0] as nat);
    }
}

proof fn lemma_strided_len<T>(data: Seq<T>, shape: Seq<usize>, stride: Seq<usize>, offset: int, k: nat)
    ensures
        shape.len() == 0 ==> strided_prefix(data, shape, stride, offset, k).len() == 1,
        shape.len() > 0 ==> strided_prefix(data, shape, stride, offset, k).len() == k * suffix_prod(shape, 1),
    decreases shape.len(), k,
{
    if shape.len() > 0 && k > 0 {
        let sub = shape.drop_first();
        lemma_strided_len(data, shape, stride, offset, (k - 1) as nat);
        let kk: nat = if sub.len() == 0 { 0 } else { sub[0] as nat };
        lemma_strided_len(data, sub, stride.drop_first(), offset + (k - 1) * stride[0], kk);
        if sub.len() > 0 {
            lemma_suffix_prod_drop_first(shape, 1);
        }
        assert((k - 1) * suffix_prod(shape, 1) + suffix_prod(shape, 1) == k * suffix_prod(shape, 1)) by (nonlinear_arith);
    } else if shape.len() > 0 {
        assert(0 * suffix_prod(shape, 1) == 0) by (nonlinear_arith);
    }
}

/// The elements of any view number `numel(shape)`.
pub proof fn lemma_elems_len<T>(data: Seq<T>, shape: Seq<usize>, stride: Seq<usize>, offset: int)
    ensures
        strided_elems(data, shape, stride, offset).len() == shape_numel(shape),
{
    if shape.len() == 0 {
        lemma_strided_len(data, shape, stride, offset, 0);
    } else {
        lemma_strided_len(data, shape, stride, offset, shape[0] as nat);
    }
}

proof fn lemma_numel_zero(shape: Seq<usize>, d: int)
    requires
        0 <= d <= shape.len(),
    ensures
        suffix_prod(shape, d) == 0 <==> exists|e: int| d <= e < shape.len() && shape[e] == 0,
    decreases shape.len() - d,
{
    if d < shape.len() {
        lemma_numel_zero(shape, d + 1);
        lemma_suffix_prod_nonneg(shape, d + 1);
        let a = shape[d] as int;
        let b = suffix_prod(shape, d + 1);
        assert(a * b == 0 <==> (a == 0 || b == 0)) by (nonlinear_arith) requires a >= 0, b >= 0;
        if exists|e: int| d <= e < shape.len() && shape[e] == 0 {
            let e = choose|e: int| d <= e < shape.len() && shape[e] == 0;
            if e > d {
                assert(exists|e2: int| d + 1 <= e2 < shape.len() && shape[e2] == 0);
            }
        }
        if b == 0 {
            let e = choose|e: int| d + 1 <= e < shape.len() && shape[e] == 0;
            assert(d <= e < shape.len() && shape[e] == 0);
        }
    }
}

proof fn lemma_row_major_contiguous(shape: Seq<usize>)
    requires
        sizes_fit(shape),
    ensures
        contiguous(shape, row_major_strides(shape)),
{
    assert forall|i: int| 0 <= i < shape.len() && shape[i] != 1 implies #[trigger] row_major_strides(shape)[i] == suffix_prod(shape, i + 1) by {
        lemma_suffix_prod_nonneg(shape, i + 1);
        assert(suffix_prod(shape, i + 1) <= usize::MAX);
    }
}

/// Reshaping keeps the elements in row-major order. A contiguous view keeps
/// its storage: the reshaped view over the same storage and offset reads
/// the same elements. Any other view is first gathered: the reshaped view
/// over the gathered elements (from offset 0) reads them all, in order.
pub proof fn lemma_reshape_keeps_elements<T>(data: Seq<T>, shape: Seq<usize>, stride: Seq<usize>, offset: int, target: Seq<usize>)
    requires
        shape.len() == stride.len(),
        sizes_fit(shape),
        sizes_fit(target),
        shape_numel(target) == shape_numel(shape),
        0 <= offset <= data.len(),
        has_zero_dim(shape) || offset + extent(shape, stride) < data.len(),
    ensures
        contiguous(shape, stride) ==> strided_elems(data, target, row_major_strides(target), offset)
            == strided_elems(data, shape, stride, offset),
        !contiguous(shape, stride) ==> ({
            let gathered = strided_elems(data, shape, stride, offset);
            strided_elems(gathered, target, row_major_strides(target), 0) == gathered
        }),
{
    let rm = row_major_strides(target);
    lemma_row_major_contiguous(target);
    lemma_numel_zero(shape, 0);
    lemma_numel_zero(target, 0);
    lemma_suffix_prod_nonneg(shape, 0);
    if contiguous(shape, stride) {
        if has_zero_dim(shape) {
            assert(shape_numel(target) == 0);
            assert(has_zero_dim(target));
            lemma_zero_dim_empty(data, shape, stride, offset, shape[0] as nat);
            lemma_zero_dim_empty(data, target, rm, offset, target[0] as nat);
        } else {
            lemma_contiguous_extent(shape, stride);
            lemma_contiguous_elems(data, shape, stride, offset);
            lemma_contiguous_elems(data, target, rm, offset);
        }
    } else {
        let g = strided_elems(data, shape, stride, offset);
        lemma_elems_len(data, shape, stride, offset);
        lemma_contiguous_elems(g, target, rm, 0);
        assert(g.subrange(0, shape_numel(target)) =~= g);
    }
}


// ---------------------------------------------------------------------------
// Views stay inside their storage

/// `sum_{d >= i} (shape[d] - 1) * stride[d]`: the reach of the dims from `i`.
pub open spec fn extent_from(shape: Seq<usize>, stride: Seq<usize>, i: int) -> int
    decreases shape.len() - i,
{
    if i < 0 || i >= shape.len() {
        0
    } else {
        (shape[i] - 1) * stride[i] + extent_from(shape, stride, i + 1)
    }
}

proof fn lemma_extent_from_shift(shape: Seq<usize>, stride: Seq<usize>, i: int)
    requires
        shape.len() == stride.len(),
        1 <= i <= shape.len(),
    ensures
        extent_from(shape, stride, i) == extent_from(shape.drop_first(), stride.drop_first(), i - 1),
    decreases shape.len() - i,
{
    if i < shape.len() {
        lemma_extent_from_shift(shape, stride, i + 1);
    }
}

proof fn lemma_extent_as_sum(shape: Seq<usize>, stride: Seq<usize>)
    requires
        shape.len() == stride.len(),
    ensures
        extent(shape, stride) == extent_from(shape, stride, 0),
    decreases shape.len(),
{
    if shape.len() > 0 {
        lemma_extent_as_sum(shape.drop_first(), stride.drop_first());
        lemma_extent_from_shift(shape, stride, 1);
    }
}

proof fn lemma_extent_from_swap(shape: Seq<usize>, stride: Seq<usize>, d0: int, d1: int, i: int)
    requires
        shape.len() == stride.len(),
        0 <= d0 < d1 < shape.len(),
        0 <= i <= shape.len(),
    ensures
        ({
            let t0 = (shape[d0] - 1) * stride[d0];
            let t1 = (shape[d1] - 1) * stride[d1];
            let e = extent_from(swapped(shape, d0, d1), swapped(stride, d0, d1), i);
            &&& (i > d1 || i <= d0) ==> e == extent_from(shape, stride, i)
            &&& (d0 < i <= d1) ==> e == extent_from(shape, stride, i) - t1 + t0
        }),
    decreases shape.len() - i,
{
    if i < shape.len() {
        lemma_extent_from_swap(shape, stride, d0, d1, i + 1);
        let ss = swapped(shape, d0, d1);
        let st = swapped(stride, d0, d1);
        if i == d0 {
            assert(ss[i] == shape[d1] && st[i] == stride[d1]);
        } else if i == d1 {
            assert(ss[i] == shape[d0] && st[i] == stride[d0]);
        } else {
            assert(ss[i] == shape[i] && st[i] == stride[i]);
        }
    }
}

/// A transposed view reaches exactly as far into its storage as the
/// original, and is empty exactly when the original is.
pub proof fn lemma_transpose_extent(shape: Seq<usize>, stride: Seq<usize>, d0: int, d1: int)
    requires
        shape.len() == stride.len(),
        0 <= d0 < shape.len(),
        0 <= d1 < shape.len(),
    ensures
        extent(swapped(shape, d0, d1), swapped(stride, d0, d1)) == extent(shape, stride),
        has_zero_dim(swapped(shape, d0, d1)) == has_zero_dim(shape),
{
    let ss = swapped(shape, d0, d1);
    let st = swapped(stride, d0, d1);
    lemma_extent_as_sum(shape, stride);
    lemma_extent_as_sum(ss, st);
    if d0 < d1 {
        lemma_extent_from_swap(shape, stride, d0, d1, 0);
    } else if d1 < d0 {
        assert(ss =~= swapped(shape, d1, d0));
        assert(st =~= swapped(stride, d1, d0));
        lemma_extent_from_swap(shape, stride, d1, d0, 0);
    } else {
        assert(ss =~= shape);
        assert(st =~= stride);
    }
    if has_zero_dim(shape) {
        let d = choose|d: int| 0 <= d < shape.len() && shape[d] == 0;
        let e = if d == d0 { d1 } else if d == d1 { d0 } else { d };
        assert(ss[e] == 0);
    }
    if has_zero_dim(ss) {
        let d = choose|d: int| 0 <= d < ss.len() && ss[d] == 0;
        let e = if d == d0 { d1 } else if d == d1 { d0 } else { d };
        assert(shape[e] == 0);
    }
}

proof fn lemma_extent_from_broadcast(shape: Seq<usize>, stride: Seq<usize>, target: Seq<usize>, i: int)
    requires
        shape.len() == stride.len(),
        broadcasts_to(shape, target),
        0 <= i <= target.len(),
    ensures
        ({
            let pad = target.len() - shape.len();
            extent_from(target, broadcast_view_strides(shape, stride, target), i) == extent_from(
                shape,
                stride,
                if i < pad { 0 } else { i - pad },
            )
        }),
    decreases target.len() - i,
{
    if i < target.len() {
        lemma_extent_from_broadcast(shape, stride, target, i + 1);
        let pad = target.len() - shape.len();
        let bs = broadcast_view_strides(shape, stride, target);
        assert(extent_from(target, bs, i) == (target[i] - 1) * bs[i] + extent_from(target, bs, i + 1));
        if i < pad {
            assert(bs[i] == 0);
        } else {
            let d = i - pad;
            assert(extent_from(shape, stride, d) == (shape[d] - 1) * stride[d] + extent_from(shape, stride, d + 1));
            if shape[d] == target[i] {
                assert(bs[i] == stride[d]);
            } else {
                assert(shape[d] == 1);
                assert(bs[i] == 0);
                let st = stride[d] as int;
                assert((shape[d] - 1) * st == 0) by (nonlinear_arith) requires shape[d] == 1;
            }
        }
    }
}

/// A broadcast view reaches exactly as far into its storage as the view it
/// broadcasts (padded and expanded dims have stride 0), and an empty view
/// broadcasts only to an empty one.
pub proof fn lemma_broadcast_extent(shape: Seq<usize>, stride: Seq<usize>, target: Seq<usize>)
    requires
        shape.len() == stride.len(),
        broadcasts_to(shape, target),
    ensures
        extent(target, broadcast_view_strides(shape, stride, target)) == extent(shape, stride),
        has_zero_dim(shape) ==> has_zero_dim(target),
{
    let bs = broadcast_view_strides(shape, stride, target);
    lemma_extent_as_sum(shape, stride);
    lemma_extent_as_sum(target, bs);
    lemma_extent_from_broadcast(shape, stride, target, 0);
    if has_zero_dim(shape) {
        let pad = target.len() - shape.len();
        let d = choose|d: int| 0 <= d < shape.len() && shape[d] == 0;
        assert(target[pad + d] == 0);
    }
}

/// A row-major view of a shape reads inside storage holding exactly its
/// elements.
pub proof fn lemma_row_major_within(shape: Seq<usize>)
    requires
        sizes_fit(shape),
    ensures
        has_zero_dim(shape) || extent(shape, row_major_strides(shape)) < shape_numel(shape),
{
    lemma_row_major_contiguous(shape);
    if !has_zero_dim(shape) {
        lemma_contiguous_extent(shape, row_major_strides(shape));
    }
}

/// Reshaping a contiguous view reaches exactly as far into the same
/// storage, and is empty exactly when the original is.
proof fn lemma_reshape_extent(shape: Seq<usize>, stride: Seq<usize>, target: Seq<usize>)
    requires
        shape.len() == stride.len(),
        contiguous(shape, stride),
        sizes_fit(target),
        shape_numel(target) == shape_numel(shape),
    ensures
        has_zero_dim(target) == has_zero_dim(shape),
        !has_zero_dim(shape) ==> extent(target, row_major_strides(target)) == extent(shape, stride),
{
    lemma_numel_zero(shape, 0);
    lemma_numel_zero(target, 0);
    lemma_row_major_contiguous(target);
    if !has_zero_dim(shape) {
        lemma_contiguous_extent(shape, stride);
        lemma_contiguous_extent(target, row_major_strides(target));
    }
}

// ---------------------------------------------------------------------------
// What a view reads at each coordinate

/// Row-major position of coordinate `c` in `shape`:
/// `sum_d c[d] * prod(shape[d+1..])`.
pub open spec fn row_major_index(shape: Seq<usize>, c: Seq<int>) -> int
    decreases shape.len(),
{
    if shape.len() == 0 || c.len() == 0 {
        0
    } else {
        c[0] * suffix_prod(shape, 1) + row_major_index(shape.drop_first(), c.drop_first())
    }
}

/// How far past its offset a view with strides `stride` reads coordinate
/// `c`: `sum_d c[d] * stride[d]`.
pub open spec fn stride_dot(c: Seq<int>, stride: Seq<usize>) -> int
    decreases c.len(),
{
    if c.len() == 0 || stride.len() == 0 {
        0
    } else {
        c[0] * stride[0] + stride_dot(c.drop_first(), stride.drop_first())
    }
}

proof fn lemma_in_bounds_sub(c: Seq<int>, shape: Seq<usize>)
    requires
        in_bounds(c, shape),
        shape.len() > 0,
    ensures
        in_bounds(c.drop_first(), shape.drop_first()),
        0 <= c[0] < shape[0],
{
    assert forall|j: int| 0 <= j < c.drop_first().len() implies 0 <= #[trigger] c.drop_first()[j] < shape.drop_first()[j] by {
        assert(c.drop_first()[j] == c[j + 1]);
    }
}

/// A coordinate inside a shape has a row-major position inside it.
pub proof fn lemma_row_major_index_bound(shape: Seq<usize>, c: Seq<int>)
    requires
        in_bounds(c, shape),
    ensures
        0 <= row_major_index(shape, c) < shape_numel(shape),
    decreases shape.len(),
{
    if shape.len() > 0 {
        let sub = shape.drop_first();
        lemma_in_bounds_sub(c, shape);
        lemma_row_major_index_bound(sub, c.drop_first());
        lemma_suffix_prod_drop_first(shape, 0);
        let p = suffix_prod(shape, 1);
        let r = row_major_index(sub, c.drop_first());
        assert(shape_numel(sub) == p);
        assert(0 <= c[0] * p + r < shape[0] * p) by (nonlinear_arith)
            requires 0 <= c[0] < shape[0], 0 <= r < p;
    }
}

proof fn lemma_prefix_block_at<T>(data: Seq<T>, shape: Seq<usize>, stride: Seq<usize>, offset: int, k: nat, j: int, r: int)
    requires
        shape.len() > 0,
        shape.len() == stride.len(),
        0 <= j < k,
        0 <= r < suffix_prod(shape, 1),
    ensures
        strided_prefix(data, shape, stride, offset, k)[j * suffix_prod(shape, 1) + r] == strided_elems(
            data,
            shape.drop_first(),
            stride.drop_first(),
            offset + j * stride[0],
        )[r],
    decreases k,
{
    let p = suffix_prod(shape, 1);
    let sub = shape.drop_first();
    let kk: nat = if sub.len() == 0 { 0 } else { sub[0] as nat };
    lemma_strided_len(data, shape, stride, offset, (k - 1) as nat);
    let blk_off = offset + (k - 1) * stride[0];
    lemma_strided_len(data, sub, stride.drop_first(), blk_off, kk);
    if sub.len() > 0 {
        lemma_suffix_prod_drop_first(shape, 1);
    }
    let prev = strided_prefix(data, shape, stride, offset, (k - 1) as nat);
    let blk = strided_prefix(data, sub, stride.drop_first(), blk_off, kk);
    assert(blk.len() == p);
    assert(strided_prefix(data, shape, stride, offset, k) == prev + blk);
    if j < k - 1 {
        lemma_prefix_block_at(data, shape, stride, offset, (k - 1) as nat, j, r);
        assert(j * p + r < (k - 1) * p) by (nonlinear_arith) requires 0 <= j < k - 1, 0 <= r < p;
        assert(0 <= j * p) by (nonlinear_arith) requires 0 <= j, 0 <= p;
    } else {
        assert(j * p + r == (k - 1) * p + r);
    }
}

/// A strided view reads coordinate `c` from storage position
/// `offset + sum_d c[d] * stride[d]`, and gathering puts it at `c`'s
/// row-major position.
pub proof fn lemma_elems_at<T>(data: Seq<T>, shape: Seq<usize>, stride: Seq<usize>, offset: int, c: Seq<int>)
    requires
        shape.len() == stride.len(),
        in_bounds(c, shape),
    ensures
        strided_elems(data, shape, stride, offset)[row_major_index(shape, c)] == data[offset + stride_dot(c, stride)],
    decreases shape.len(),
{
    if shape.len() > 0 {
        let sub = shape.drop_first();
        let c0 = c[0];
        lemma_in_bounds_sub(c, shape);
        lemma_row_major_index_bound(sub, c.drop_first());
        lemma_suffix_prod_drop_first(shape, 0);
        let r = row_major_index(sub, c.drop_first());
        lemma_prefix_block_at(data, shape, stride, offset, shape[0] as nat, c0, r);
        lemma_elems_at(data, sub, stride.drop_first(), offset + c0 * stride[0], c.drop_first());
    }
}

proof fn lemma_broadcast_dot(in_shape: Seq<usize>, target: Seq<usize>, c: Seq<int>)
    requires
        sizes_fit(in_shape),
        broadcasts_to(in_shape, target),
        in_bounds(c, target),
    ensures
        stride_dot(c, broadcast_view_strides(in_shape, row_major_strides(in_shape), target)) == row_major_index(
            in_shape,
            source_coord(in_shape, c),
        ),
    decreases target.len(),
{
    let bs = broadcast_view_strides(in_shape, row_major_strides(in_shape), target);
    if target.len() > 0 {
        let tsub = target.drop_first();
        lemma_in_bounds_sub(c, target);
        if target.len() > in_shape.len() {
            assert(bs.drop_first() =~= broadcast_view_strides(in_shape, row_major_strides(in_shape), tsub));
            assert(source_coord(in_shape, c) =~= source_coord(in_shape, c.drop_first()));
            lemma_broadcast_dot(in_shape, tsub, c.drop_first());
            assert(bs[0] == 0);
        } else {
            let isub = in_shape.drop_first();
            assert(sizes_fit(isub)) by {
                assert forall|d: int| 0 <= d <= isub.len() implies #[trigger] suffix_prod(isub, d) <= usize::MAX by {
                    lemma_suffix_prod_drop_first(in_shape, d);
                }
            }
            assert(row_major_strides(in_shape).drop_first() =~= row_major_strides(isub)) by {
                assert forall|d: int| 0 <= d < isub.len() implies row_major_strides(in_shape).drop_first()[d]
                    == row_major_strides(isub)[d] by {
                    lemma_suffix_prod_drop_first(in_shape, d + 1);
                }
            }
            assert(bs.drop_first() =~= broadcast_view_strides(isub, row_major_strides(isub), tsub));
            assert(source_coord(in_shape, c).drop_first() =~= source_coord(isub, c.drop_first()));
            assert(broadcasts_to(isub, tsub)) by {
                assert forall|d: int| 0 <= d < isub.len() implies #[trigger] isub[d] == tsub[tsub.len() - isub.len() + d]
                    || isub[d] == 1 by {
                    assert(in_shape[d + 1] == target[d + 1] || in_shape[d + 1] == 1);
                }
            }
            lemma_broadcast_dot(isub, tsub, c.drop_first());
            lemma_suffix_prod_nonneg(in_shape, 1);
            let p = suffix_prod(in_shape, 1);
            assert(p <= usize::MAX);
            let x0 = source_coord(in_shape, c)[0];
            if in_shape[0] == target[0] {
                assert(bs[0] as int == p);
                if in_shape[0] == 1 {
                    assert(c[0] == 0);
                    assert(x0 == 0);
                } else {
                    assert(x0 == c[0]);
                }
            } else {
                assert(in_shape[0] == 1);
                assert(bs[0] == 0);
                assert(x0 == 0);
                assert(x0 * p == 0) by (nonlinear_arith) requires x0 == 0;
            }
        }
    }
}

/// Broadcasting reads what numpy reads: at every coordinate `c` of the
/// target shape, the gathered broadcast view of a row-major operand holds
/// the operand's element at `source_coord(c)` (aligned right, 0 along each
/// size-1 dim), and both positions lie inside their buffers.
pub proof fn lemma_broadcast_gather_reads_source<T>(data: Seq<T>, in_shape: Seq<usize>, target: Seq<usize>, c: Seq<int>)
    requires
        sizes_fit(in_shape),
        broadcasts_to(in_shape, target),
        in_bounds(c, target),
    ensures
        ({
            let view = strided_elems(data, target, broadcast_view_strides(in_shape, row_major_strides(in_shape), target), 0);
            let src = row_major_index(in_shape, source_coord(in_shape, c));
            &&& 0 <= row_major_index(target, c) < shape_numel(target)
            &&& 0 <= src < shape_numel(in_shape)
            &&& view[row_major_index(target, c)] == data[src]
        }),
{
    let bs = broadcast_view_strides(in_shape, row_major_strides(in_shape), target);
    lemma_row_major_index_bound(target, c);
    lemma_elems_at(data, target, bs, 0, c);
    lemma_broadcast_dot(in_shape, target, c);
    let pad = c.len() - in_shape.len();
    let x = source_coord(in_shape, c);
    assert forall|k: int| 0 <= k < in_shape.len() implies 0 <= #[trigger] x[k] < in_shape[k] by {
        if in_shape[k] != 1 {
            assert(in_shape[k] == target[pad + k]);
        }
    }
    lemma_row_major_index_bound(in_shape, x);
}

/// `sum_{d >= i} c[d] * stride[d]`.
pub open spec fn stride_dot_from(c: Seq<int>, stride: Seq<usize>, i: int) -> int
    decreases c.len() - i,
{
    if i < 0 || i >= c.len() {
        0
    } else {
        c[i] * stride[i] + stride_dot_from(c, stride, i + 1)
    }
}

proof fn lemma_stride_dot_from_shift(c: Seq<int>, stride: Seq<usize>, i: int)
    requires
        c.len() == stride.len(),
        1 <= i <= c.len(),
    ensures
        stride_dot_from(c, stride, i) == stride_dot_from(c.drop_first(), stride.drop_first(), i - 1),
    decreases c.len() - i,
{
    if i < c.len() {
        lemma_stride_dot_from_shift(c, stride, i + 1);
    }
}

proof fn lemma_stride_dot_as_sum(c: Seq<int>, stride: Seq<usize>)
    requires
        c.len() == stride.len(),
    ensures
        stride_dot(c, stride) == stride_dot_from(c, stride, 0),
    decreases c.len(),
{
    if c.len() > 0 {
        lemma_stride_dot_as_sum(c.drop_first(), stride.drop_first());
        lemma_stride_dot_from_shift(c, stride, 1);
    }
}

/// `c` with entries `d0` and `d1` swapped.
pub open spec fn swapped_coord(c: Seq<int>, d0: int, d1: int) -> Seq<int> {
    c.update(d0, c[d1]).update(d1, c[d0])
}

proof fn lemma_stride_dot_from_swap(c: Seq<int>, stride: Seq<usize>, d0: int, d1: int, i: int)
    requires
        c.len() == stride.len(),
        0 <= d0 < d1 < c.len(),
        0 <= i <= c.len(),
    ensures
        ({
            let lhs = stride_dot_from(c, swapped(stride, d0, d1), i);
            let rhs = stride_dot_from(swapped_coord(c, d0, d1), stride, i);
            &&& (i > d1 || i <= d0) ==> lhs == rhs
            &&& (d0 < i <= d1) ==> lhs == rhs - c[d0] * stride[d1] + c[d1] * stride[d0]
        }),
    decreases c.len() - i,
{
    if i < c.len() {
        lemma_stride_dot_from_swap(c, stride, d0, d1, i + 1);
        let st = swapped(stride, d0, d1);
        let cs = swapped_coord(c, d0, d1);
        if i == d0 {
            assert(st[i] == stride[d1] && cs[i] == c[d1]);
        } else if i == d1 {
            assert(st[i] == stride[d0] && cs[i] == c[d0]);
        } else {
            assert(st[i] == stride[i] && cs[i] == c[i]);
        }
    }
}

/// Transposing swaps coordinates: the gathered transposed view holds, at
/// each coordinate `c`, the original view's element at `c` with dims `d0`
/// and `d1` swapped.
pub proof fn lemma_transpose_gather_swaps<T>(
    data: Seq<T>,
    shape: Seq<usize>,
    stride: Seq<usize>,
    offset: int,
    d0: int,
    d1: int,
    c: Seq<int>,
)
    requires
        shape.len() == stride.len(),
        0 <= d0 < shape.len(),
        0 <= d1 < shape.len(),
        in_bounds(c, swapped(shape, d0, d1)),
    ensures
        in_bounds(swapped_coord(c, d0, d1), shape),
        strided_elems(data, swapped(shape, d0, d1), swapped(stride, d0, d1), offset)[row_major_index(
            swapped(shape, d0, d1),
            c,
        )] == strided_elems(data, shape, stride, offset)[row_major_index(shape, swapped_coord(c, d0, d1))],
{
    let ss = swapped(shape, d0, d1);
    let st = swapped(stride, d0, d1);
    let cs = swapped_coord(c, d0, d1);
    assert forall|j: int| 0 <= j < cs.len() implies 0 <= #[trigger] cs[j] < shape[j] by {
        if j == d0 {
            assert(cs[j] == c[d1] && ss[d1] == shape[d0]);
        } else if j == d1 {
            assert(cs[j] == c[d0] && ss[d0] == shape[d1]);
        } else {
            assert(cs[j] == c[j] && ss[j] == shape[j]);
        }
    }
    lemma_elems_at(data, ss, st, offset, c);
    lemma_elems_at(data, shape, stride, offset, cs);
    lemma_stride_dot_as_sum(c, st);
    lemma_stride_dot_as_sum(cs, stride);
    if d0 < d1 {
        lemma_stride_dot_from_swap(c, stride, d0, d1, 0);
    } else if d1 < d0 {
        assert(st =~= swapped(stride, d1, d0));
        assert(cs =~= swapped_coord(c, d1, d0));
        lemma_stride_dot_from_swap(c, stride, d1, d0, 0);
    } else {
        assert(st =~= stride);
        assert(cs =~= c);
    }
}

/// A row-major position splits at any dim `d`: the position of the leading
/// coordinates, scaled by the product of the trailing dims, plus the
/// position of the trailing coordinates.
pub proof fn lemma_row_major_index_split(s: Seq<usize>, c: Seq<int>, d: int)
    requires
        c.len() == s.len(),
        0 <= d <= s.len(),
    ensures
        row_major_index(s, c) == row_major_index(s.take(d), c.take(d)) * suffix_prod(s, d) + row_major_index(
            s.skip(d),
            c.skip(d),
        ),
    decreases d,
{
    if d == 0 {
        assert(s.skip(0) =~= s);
        assert(c.skip(0) =~= c);
    } else {
        let sub = s.drop_first();
        let cs = c.drop_first();
        lemma_row_major_index_split(sub, cs, d - 1);
        assert(sub.skip(d - 1) =~= s.skip(d));
        assert(cs.skip(d - 1) =~= c.skip(d));
        assert(s.take(d).drop_first() =~= sub.take(d - 1));
        assert(c.take(d).drop_first() =~= cs.take(d - 1));
        lemma_suffix_prod_drop_first(s, d - 1);
        lemma_suffix_prod_take(s, 1, d);
        let c0 = c[0];
        let t1 = suffix_prod(s.take(d), 1);
        let sd = suffix_prod(s, d);
        let a = row_major_index(sub.take(d - 1), cs.take(d - 1));
        assert(c0 * (t1 * sd) + a * sd == (c0 * t1 + a) * sd) by (nonlinear_arith);
    }
}

proof fn lemma_suffix_prod32_exact(s: Seq<usize>, d: int)
    requires
        0 <= d,
        forall|k: int| 0 <= k < s.len() ==> #[trigger] s[k] <= u32::MAX,
    ensures
        suffix_prod32(s, d) == suffix_prod(s, d),
    decreases s.len() - d,
{
    if d < s.len() {
        lemma_suffix_prod32_exact(s, d + 1);
        let v = s[d];
        assert(v <= u32::MAX);
        assert((#[verifier::truncate] (v as u32)) as int == v) by (bit_vector) requires v <= 0xffff_ffffusize;
    }
}

proof fn lemma_row_major_from_index(s: Seq<usize>, x: Seq<int>, d: int)
    requires
        0 <= d <= s.len(),
        x.len() == s.len(),
        forall|k: int| 0 <= k < s.len() ==> #[trigger] s[k] <= u32::MAX,
    ensures
        row_major_from(s, x, d) == row_major_index(s.skip(d), x.skip(d)),
    decreases s.len() - d,
{
    if d < s.len() {
        lemma_row_major_from_index(s, x, d + 1);
        assert(s.skip(d).drop_first() =~= s.skip(d + 1));
        assert(x.skip(d).drop_first() =~= x.skip(d + 1));
        assert(s.skip(d)[0] == s[d] && x.skip(d)[0] == x[d]);
        lemma_suffix_prod_skip(s, d, d + 1);
        lemma_suffix_prod32_exact(s, d + 1);
    }
}

/// The broadcasting kernel and the host path read the same operand
/// element: for every output coordinate, the offset a kernel thread
/// accumulates from [`broadcast_strides`](crate::kernels::broadcast_strides)
/// is the position that the host's gathered broadcast view reads, so a
/// broadcasting binary op gives the same result on a device as on the host.
pub proof fn lemma_device_broadcast_matches_host<T>(data: Seq<T>, in_shape: Seq<usize>, out_shape: Seq<usize>, c: Seq<int>)
    requires
        out_shape.len() >= 1,
        sizes_fit(in_shape),
        broadcasts_to(in_shape, out_shape),
        in_bounds(c, out_shape),
        forall|d: int| 0 <= d < in_shape.len() ==> #[trigger] in_shape[d] <= u32::MAX,
        forall|d: int| 0 <= d <= in_shape.len() ==> suffix_prod32(in_shape, d) <= u32::MAX,
    ensures
        dot_from(c, broadcast_strides_of(in_shape, out_shape.len() as nat), 0) == row_major_index(
            in_shape,
            source_coord(in_shape, c),
        ),
        strided_elems(data, out_shape, broadcast_view_strides(in_shape, row_major_strides(in_shape), out_shape), 0)[row_major_index(
            out_shape,
            c,
        )] == data[dot_from(c, broadcast_strides_of(in_shape, out_shape.len() as nat), 0)],
{
    assert(launch_shape(out_shape) == out_shape);
    lemma_broadcast_offset(in_shape, out_shape, c);
    lemma_row_major_from_index(in_shape, source_coord(in_shape, c), 0);
    assert(in_shape.skip(0) =~= in_shape);
    assert(source_coord(in_shape, c).skip(0) =~= source_coord(in_shape, c));
    lemma_broadcast_gather_reads_source(data, in_shape, out_shape, c);
}

/// The coordinates `c` as integers.
pub open spec fn coords(c: Seq<usize>) -> Seq<int> {
    Seq::new(c.len(), |i: int| c[i] as int)
}

/// Row-major position of coordinate `c` in `shape` (the flat index of an
/// element of a contiguous tensor); it lies inside the shape.
pub fn flat_index(shape: &[usize], c: &[usize]) -> (i: usize)
    requires
        in_bounds(coords(c@), shape@),
        prefixes_fit(shape@, shape@.len() as int),
    ensures
        i == row_major_index(shape@, coords(c@)),
        i < shape_numel(shape@),
{
    let ghost cs = coords(c@);
    let mut acc: usize = 0;
    let mut d: usize = 0;
    while d < shape.len()
        invariant
            d <= shape@.len(),
            cs == coords(c@),
            in_bounds(cs, shape@),
            prefixes_fit(shape@, shape@.len() as int),
            acc == row_major_index(shape@.take(d as int), cs.take(d as int)),
            acc < prefix_prod(shape@, d as int),
        decreases shape@.len() - d,
    {
        let ghost prev = acc as int;
        let n = shape[d];
        let x = c[d];
        proof {
            assert(cs[d as int] == x);
            let pd = prefix_prod(shape@, d as int);
            assert(prefix_prod(shape@, d + 1) == pd * n);
            assert(prefix_prod(shape@, d + 1) <= usize::MAX);
            assert(prev * n + x < pd * n) by (nonlinear_arith) requires 0 <= prev < pd, 0 <= x < n;
            assert(0 <= prev * n) by (nonlinear_arith) requires 0 <= prev, 0 <= n;
            let t = shape@.take(d + 1);
            let ct = cs.take(d + 1);
            lemma_row_major_index_split(t, ct, d as int);
            assert(t.take(d as int) =~= shape@.take(d as int));
            assert(ct.take(d as int) =~= cs.take(d as int));
            assert(suffix_prod(t, d + 1) == 1);
            assert(suffix_prod(t, d as int) == n * 1);
            let ts = t.skip(d as int);
            let cts = ct.skip(d as int);
            assert(ts.len() == 1 && cts.len() == 1 && ts[0] == n && cts[0] == x);
            assert(suffix_prod(ts, 1) == 1);
            assert(row_major_index(ts.drop_first(), cts.drop_first()) == 0);
            assert(row_major_index(ts, cts) == x * 1 + 0);
        }
        acc = acc * n + x;
        d = d + 1;
    }
    proof {
        assert(shape@.take(d as int) =~= shape@);
        assert(cs.take(d as int) =~= cs);
        lemma_prefix_prod_take(shape@, d as int);
    }
    acc
}

} // verus!
