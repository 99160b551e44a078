//! Operand checks and output geometry of the shape-changing tensor ops:
//! matmul, bmm, conv2d, max_pool2d, squeeze/unsqueeze and broadcasting
//! binaries. The numeric loops run over the geometry these return.
use vstd::prelude::*;
use vstd::slice::slice_to_vec;
use vstd::string::*;
use crate::device::{device_text, Device};
use crate::dtype::DType;
use crate::error::{check_f32, dim_out_of_range, dim_range_msg, Error};
use crate::layout::row_major_index;
use crate::shape::{broadcast_shape, broadcast_shapes, suffix_prod};
use crate::text::{decimal, push_decimal, push_sizes, sizes_text};

verus! {

/// `DeviceMismatch` naming `op` unless both operands share a device.
pub fn check_same_device(op: &'static str, lhs: Device, rhs: Device) -> (r: Result<(), Error>)
    ensures
        lhs == rhs ==> r is Ok,
        lhs != rhs ==> (r matches Err(Error::DeviceMismatch { op: o, lhs: l, rhs: rr }) && o == op && l == lhs && rr == rhs),
{
    if lhs != rhs {
        return Err(Error::DeviceMismatch { op, lhs, rhs });
    }
    Ok(())
}

/// Error of a device with no registered backend.
pub fn backend_missing(device: Device) -> (e: Error)
    ensures
        e matches Error::Unsupported { op, msg } && op@ == "backend_for"@
            && msg@ == "no backend registered for device "@ + device_text(device),
{
    let mut msg = String::from_str("no backend registered for device ");
    device.push_label(&mut msg);
    Error::Unsupported { op: "backend_for", msg }
}

// ---------------------------------------------------------------------------
// Elementwise binaries

/// Operand checks of an elementwise binary, in order: both operands f32,
/// on one device, with broadcastable shapes. Gives the output shape.
pub fn binary_shape(
    op: &'static str,
    a_dtype: DType,
    b_dtype: DType,
    a_device: Device,
    b_device: Device,
    a_shape: &[usize],
    b_shape: &[usize],
) -> (r: Result<Vec<usize>, Error>)
    ensures
        a_dtype != DType::F32 ==> (r matches Err(Error::DtypeMismatch { op: o, expected, got }) && o == op
            && expected == DType::F32 && got == a_dtype),
        a_dtype == DType::F32 && b_dtype != DType::F32 ==> (r matches Err(Error::DtypeMismatch { op: o, expected, got })
            && o == op && expected == DType::F32 && got == b_dtype),
        a_dtype == DType::F32 && b_dtype == DType::F32 && a_device != b_device ==> (
            r matches Err(Error::DeviceMismatch { op: o, lhs, rhs }) && o == op && lhs == a_device && rhs == b_device),
        a_dtype == DType::F32 && b_dtype == DType::F32 && a_device == b_device ==> match broadcast_shape(a_shape@, b_shape@) {
            Some(s) => r matches Ok(v) && v@ == s,
            None => r matches Err(Error::ShapeMismatch { op: o, lhs, rhs }) && o == op && lhs@ == a_shape@ && rhs@ == b_shape@,
        },
{
    check_f32(op, a_dtype)?;
    check_f32(op, b_dtype)?;
    check_same_device(op, a_device, b_device)?;
    broadcast_shapes(op, a_shape, b_shape)
}

// ---------------------------------------------------------------------------
// matmul, bmm

/// Operand checks of a 2-D matmul `(m,k) @ (k,n)`, in order: both f32, one
/// device, both rank 2, inner dims equal. Gives `(m, k, n)`.
pub fn matmul_dims(
    a_dtype: DType,
    b_dtype: DType,
    a_device: Device,
    b_device: Device,
    a_shape: &[usize],
    b_shape: &[usize],
) -> (r: Result<(usize, usize, usize), Error>)
    ensures
        a_dtype != DType::F32 ==> (r matches Err(Error::DtypeMismatch { op, expected, got }) && op@ == "matmul"@
            && expected == DType::F32 && got == a_dtype),
        a_dtype == DType::F32 && b_dtype != DType::F32 ==> (r matches Err(Error::DtypeMismatch { op, expected, got })
            && op@ == "matmul"@ && expected == DType::F32 && got == b_dtype),
        a_dtype == DType::F32 && b_dtype == DType::F32 && a_device != b_device ==> (
            r matches Err(Error::DeviceMismatch { op, lhs, rhs }) && op@ == "matmul"@ && lhs == a_device && rhs == b_device),
        a_dtype == DType::F32 && b_dtype == DType::F32 && a_device == b_device && (a_shape@.len() != 2 || b_shape@.len() != 2) ==> (
            r matches Err(Error::Unsupported { op, msg }) && op@ == "matmul"@
            && msg@ == "only 2-D supported in MVP, got "@ + sizes_text(a_shape@) + " and "@ + sizes_text(b_shape@)),
        a_dtype == DType::F32 && b_dtype == DType::F32 && a_device == b_device && a_shape@.len() == 2 && b_shape@.len() == 2
            && a_shape@[1] != b_shape@[0] ==> (r matches Err(Error::ShapeMismatch { op, lhs, rhs }) && op@ == "matmul"@
            && lhs@ == a_shape@ && rhs@ == b_shape@),
        a_dtype == DType::F32 && b_dtype == DType::F32 && a_device == b_device && a_shape@.len() == 2 && b_shape@.len() == 2
            && a_shape@[1] == b_shape@[0] ==> r == Ok::<(usize, usize, usize), Error>((a_shape@[0], a_shape@[1], b_shape@[1])),
{
    check_f32("matmul", a_dtype)?;
    check_f32("matmul", b_dtype)?;
    check_same_device("matmul", a_device, b_device)?;
    if a_shape.len() != 2 || b_shape.len() != 2 {
        let mut msg = String::from_str("only 2-D supported in MVP, got ");
        push_sizes(&mut msg, a_shape);
        msg.append(" and ");
        push_sizes(&mut msg, b_shape);
        return Err(Error::Unsupported { op: "matmul", msg });
    }
    if a_shape[1] != b_shape[0] {
        return Err(Error::ShapeMismatch { op: "matmul", lhs: slice_to_vec(a_shape), rhs: slice_to_vec(b_shape) });
    }
    Ok((a_shape[0], a_shape[1], b_shape[1]))
}

/// Operand checks of a batched matmul `(b,m,k) @ (b,k,n)`, in order: one
/// device, both rank 3, batch and inner dims equal. Gives
/// `(batch, m, k, n)`.
pub fn bmm_dims(a_device: Device, b_device: Device, a_shape: &[usize], b_shape: &[usize]) -> (r: Result<(usize, usize, usize, usize), Error>)
    ensures
        a_device != b_device ==> (r matches Err(Error::DeviceMismatch { op, lhs, rhs }) && op@ == "bmm"@ && lhs == a_device
            && rhs == b_device),
        a_device == b_device && (a_shape@.len() != 3 || b_shape@.len() != 3) ==> (r matches Err(Error::Unsupported { op, msg })
            && op@ == "bmm"@ && msg@ == "inputs must be rank 3"@),
        a_device == b_device && a_shape@.len() == 3 && b_shape@.len() == 3 && (b_shape@[0] != a_shape@[0] || b_shape@[1] != a_shape@[2]) ==> (
            r matches Err(Error::ShapeMismatch { op, lhs, rhs }) && op@ == "bmm"@ && lhs@ == a_shape@ && rhs@ == b_shape@),
        a_device == b_device && a_shape@.len() == 3 && b_shape@.len() == 3 && b_shape@[0] == a_shape@[0] && b_shape@[1] == a_shape@[2] ==>
            r == Ok::<(usize, usize, usize, usize), Error>((a_shape@[0], a_shape@[1], a_shape@[2], b_shape@[2])),
{
    check_same_device("bmm", a_device, b_device)?;
    if a_shape.len() != 3 || b_shape.len() != 3 {
        return Err(Error::Unsupported { op: "bmm", msg: String::from_str("inputs must be rank 3") });
    }
    if b_shape[0] != a_shape[0] || b_shape[1] != a_shape[2] {
        return Err(Error::ShapeMismatch { op: "bmm", lhs: slice_to_vec(a_shape), rhs: slice_to_vec(b_shape) });
    }
    Ok((a_shape[0], a_shape[1], a_shape[2], b_shape[2]))
}

// ---------------------------------------------------------------------------
// conv2d

/// Sizes of a direct 2-D convolution of an `(n, c_in, h, w)` input with a
/// `(c_out, c_in, kh, kw)` weight.
#[derive(Clone, Copy, Debug)]
pub struct Conv2dGeometry {
    pub n: usize,
    pub c_in: usize,
    pub h: usize,
    pub w: usize,
    pub c_out: usize,
    pub kh: usize,
    pub kw: usize,
    pub out_h: usize,
    pub out_w: usize,
}

/// Number of positions a window of `k` taps takes over `size` with the
/// given stride.
pub open spec fn windows(size: int, k: int, stride: int) -> int {
    (size - k) / stride + 1
}

/// Message of a kernel that does not fit the padded input.
pub open spec fn kernel_fit_msg(kh: usize, kw: usize, ph: int, pw: int) -> Seq<char> {
    "kernel ("@ + decimal(kh as nat) + ","@ + decimal(kw as nat) + ") does not fit padded input ("@ + decimal(ph as nat)
        + ","@ + decimal(pw as nat) + ")"@
}

/// Operand checks and output size of `conv2d` (zero padding, no bias,
/// dilation or groups), in order: one device; both operands rank 4;
/// `stride >= 1`; the weight's input channels equal the input's; the kernel
/// non-empty and within the padded input.
pub fn conv2d_geometry(
    x_device: Device,
    w_device: Device,
    x_shape: &[usize],
    w_shape: &[usize],
    stride: usize,
    padding: usize,
) -> (r: Result<Conv2dGeometry, Error>)
    requires
        x_device == w_device && x_shape@.len() == 4 && w_shape@.len() == 4 && stride >= 1 && w_shape@[1] == x_shape@[1]
            ==> x_shape@[2] + 2 * padding <= usize::MAX && x_shape@[3] + 2 * padding <= usize::MAX,
    ensures
        x_device != w_device ==> (r matches Err(Error::DeviceMismatch { op, lhs, rhs }) && op@ == "conv2d"@
            && lhs == x_device && rhs == w_device),
        x_device == w_device && (x_shape@.len() != 4 || w_shape@.len() != 4) ==> (r matches Err(Error::Unsupported { op, msg })
            && op@ == "conv2d"@ && msg@ == "input and weight must be rank 4 (NCHW / OIHW)"@),
        x_device == w_device && x_shape@.len() == 4 && w_shape@.len() == 4 && stride < 1 ==> (
            r matches Err(Error::Unsupported { op, msg }) && op@ == "conv2d"@ && msg@ == "stride must be >= 1"@),
        x_device == w_device && x_shape@.len() == 4 && w_shape@.len() == 4 && stride >= 1 && w_shape@[1] != x_shape@[1] ==> (
            r matches Err(Error::ShapeMismatch { op, lhs, rhs }) && op@ == "conv2d"@ && lhs@ == x_shape@ && rhs@ == w_shape@),
        x_device == w_device && x_shape@.len() == 4 && w_shape@.len() == 4 && stride >= 1 && w_shape@[1] == x_shape@[1] ==> ({
            let ph = x_shape@[2] + 2 * padding;
            let pw = x_shape@[3] + 2 * padding;
            let (kh, kw) = (w_shape@[2], w_shape@[3]);
            &&& (kh == 0 || kw == 0 || kh > ph || kw > pw) ==> (r matches Err(Error::InvalidShape { op, msg })
                && op@ == "conv2d"@ && msg@ == kernel_fit_msg(kh, kw, ph, pw))
            &&& !(kh == 0 || kw == 0 || kh > ph || kw > pw) ==> (r matches Ok(g)
                && g.n == x_shape@[0] && g.c_in == x_shape@[1] && g.h == x_shape@[2] && g.w == x_shape@[3]
                && g.c_out == w_shape@[0] && g.kh == kh && g.kw == kw
                && g.out_h == windows(ph, kh as int, stride as int) && g.out_w == windows(pw, kw as int, stride as int))
        }),
{
    check_same_device("conv2d", x_device, w_device)?;
    if x_shape.len() != 4 || w_shape.len() != 4 {
        return Err(Error::Unsupported { op: "conv2d", msg: String::from_str("input and weight must be rank 4 (NCHW / OIHW)") });
    }
    if stride < 1 {
        return Err(Error::Unsupported { op: "conv2d", msg: String::from_str("stride must be >= 1") });
    }
    let (n, c_in, h, w) = (x_shape[0], x_shape[1], x_shape[2], x_shape[3]);
    let (c_out, kh, kw) = (w_shape[0], w_shape[2], w_shape[3]);
    if w_shape[1] != c_in {
        return Err(Error::ShapeMismatch { op: "conv2d", lhs: slice_to_vec(x_shape), rhs: slice_to_vec(w_shape) });
    }
    let ph = h + 2 * padding;
    let pw = w + 2 * padding;
    if kh == 0 || kw == 0 || kh > ph || kw > pw {
        let mut msg = String::from_str("kernel (");
        push_decimal(&mut msg, kh);
        msg.append(",");
        push_decimal(&mut msg, kw);
        msg.append(") does not fit padded input (");
        push_decimal(&mut msg, ph);
        msg.append(",");
        push_decimal(&mut msg, pw);
        msg.append(")");
        assert(msg@ =~= kernel_fit_msg(kh, kw, ph as int, pw as int));
        return Err(Error::InvalidShape { op: "conv2d", msg });
    }
    let out_h = (ph - kh) / stride + 1;
    let out_w = (pw - kw) / stride + 1;
    Ok(Conv2dGeometry { n, c_in, h, w, c_out, kh, kw, out_h, out_w })
}

/// The input row (or column) that output position `o` reads at kernel tap
/// `k`: `o*stride + k - padding`, or `None` where that falls in the zero
/// padding on either side.
pub fn conv2d_tap(o: usize, k: usize, stride: usize, padding: usize, size: usize) -> (r: Option<usize>)
    requires
        o * stride + k <= usize::MAX,
    ensures
        r == (if o * stride + k >= padding && o * stride + k - padding < size {
            Some((o * stride + k - padding) as usize)
        } else {
            None::<usize>
        }),
{
    proof {
        assert(0 <= o * stride) by (nonlinear_arith);
    }
    let t = o * stride + k;
    if t < padding || t - padding >= size {
        None
    } else {
        Some(t - padding)
    }
}

/// Every tap of every output position of a convolution lies inside the
/// padded input: `o*stride + k < size + 2*padding` for `o < out` and
/// `k < kernel`. So a tap is either a real input element or zero padding.
pub proof fn lemma_conv_taps_in_padded(size: int, kernel: int, stride: int, padding: int, o: int, k: int)
    requires
        stride >= 1,
        padding >= 0,
        1 <= kernel <= size + 2 * padding,
        0 <= o < windows(size + 2 * padding, kernel, stride),
        0 <= k < kernel,
    ensures
        0 <= o * stride + k < size + 2 * padding,
{
    let p = size + 2 * padding;
    let q = (p - kernel) / stride;
    assert(o <= q);
    assert(q * stride <= p - kernel) by (nonlinear_arith)
        requires q == (p - kernel) / stride, stride >= 1, p - kernel >= 0;
    assert(o * stride <= q * stride) by (nonlinear_arith) requires o <= q, stride >= 1;
    assert(0 <= o * stride) by (nonlinear_arith) requires o >= 0, stride >= 1;
}

/// The operand pair that kernel tap `(ci, r, c)` of output element
/// `at = (ni, co, oh, ow)` multiplies, as flat indices into the input and
/// the weight, or nothing where the tap falls in the zero padding.
pub open spec fn conv_pair(g: Conv2dGeometry, stride: int, padding: int, at: (usize, usize, usize, usize), ci: int, r: int, c: int) -> Seq<(usize, usize)> {
    let (ni, co, oh, ow) = at;
    let th = oh * stride + r;
    let tw = ow * stride + c;
    if padding <= th < padding + g.h && padding <= tw < padding + g.w {
        seq![(
            (((ni * g.c_in + ci) * g.h + (th - padding)) * g.w + (tw - padding)) as usize,
            (((co * g.c_in + ci) * g.kh + r) * g.kw + c) as usize,
        )]
    } else {
        Seq::empty()
    }
}

/// The pairs of kernel row `r` of input channel `ci`, columns below `c`.
pub open spec fn conv_row_pairs(g: Conv2dGeometry, stride: int, padding: int, at: (usize, usize, usize, usize), ci: int, r: int, c: int) -> Seq<(usize, usize)>
    decreases c,
{
    if c <= 0 {
        Seq::empty()
    } else {
        conv_row_pairs(g, stride, padding, at, ci, r, c - 1) + conv_pair(g, stride, padding, at, ci, r, c - 1)
    }
}

/// The pairs of input channel `ci`, kernel rows below `r`.
pub open spec fn conv_chan_pairs(g: Conv2dGeometry, stride: int, padding: int, at: (usize, usize, usize, usize), ci: int, r: int) -> Seq<(usize, usize)>
    decreases r,
{
    if r <= 0 {
        Seq::empty()
    } else {
        conv_chan_pairs(g, stride, padding, at, ci, r - 1) + conv_row_pairs(g, stride, padding, at, ci, r - 1, g.kw as int)
    }
}

/// The pairs of input channels below `ci`, channel by channel, then kernel
/// row, then column.
pub open spec fn conv_pairs(g: Conv2dGeometry, stride: int, padding: int, at: (usize, usize, usize, usize), ci: int) -> Seq<(usize, usize)>
    decreases ci,
{
    if ci <= 0 {
        Seq::empty()
    } else {
        conv_pairs(g, stride, padding, at, ci - 1) + conv_chan_pairs(g, stride, padding, at, ci - 1, g.kh as int)
    }
}

/// `0 <= ((a * d1 + b) * d2 + c) * d3 + e < d0 * d1 * d2 * d3` for a
/// coordinate inside a `(d0, d1, d2, d3)` box, with the partial sums below
/// their bounds too.
proof fn lemma_box4(a: int, b: int, c: int, e: int, d0: int, d1: int, d2: int, d3: int)
    requires
        0 <= a < d0,
        0 <= b < d1,
        0 <= c < d2,
        0 <= e < d3,
    ensures
        0 <= a * d1 + b < d0 * d1,
        0 <= (a * d1 + b) * d2 + c < d0 * d1 * d2,
        0 <= ((a * d1 + b) * d2 + c) * d3 + e < d0 * d1 * d2 * d3,
        d0 * d1 * d2 <= d0 * d1 * d2 * d3,
        d0 * d1 <= d0 * d1 * d2,
{
    assert(0 <= a * d1 + b < d0 * d1) by (nonlinear_arith) requires 0 <= a < d0, 0 <= b < d1;
    let t1 = a * d1 + b;
    assert(0 <= t1 * d2 + c < (d0 * d1) * d2) by (nonlinear_arith) requires 0 <= t1 < d0 * d1, 0 <= c < d2;
    let t2 = t1 * d2 + c;
    assert(0 <= t2 * d3 + e < (d0 * d1 * d2) * d3) by (nonlinear_arith) requires 0 <= t2 < d0 * d1 * d2, 0 <= e < d3;
    assert(d0 * d1 <= d0 * d1 * d2) by (nonlinear_arith) requires 0 <= d0 * d1, 1 <= d2;
    assert(d0 * d1 * d2 <= d0 * d1 * d2 * d3) by (nonlinear_arith) requires 0 <= d0 * d1 * d2, 1 <= d3;
}

/// A geometry that [`conv2d_geometry`] gave for this stride and padding
/// (the padded size fitting a `usize`), both tensors' element counts
/// fitting a `usize`, and `(ni, co, oh, ow)` an output element.
pub open spec fn conv_taps_ready(g: Conv2dGeometry, stride: usize, padding: usize, ni: usize, co: usize, oh: usize, ow: usize) -> bool {
    &&& stride >= 1
    &&& g.h + 2 * padding <= usize::MAX
    &&& g.w + 2 * padding <= usize::MAX
    &&& 1 <= g.kh <= g.h + 2 * padding
    &&& 1 <= g.kw <= g.w + 2 * padding
    &&& g.out_h == windows(g.h + 2 * padding, g.kh as int, stride as int)
    &&& g.out_w == windows(g.w + 2 * padding, g.kw as int, stride as int)
    &&& g.n * g.c_in * g.h * g.w <= usize::MAX
    &&& g.c_out * g.c_in * g.kh * g.kw <= usize::MAX
    &&& ni < g.n
    &&& co < g.c_out
    &&& oh < g.out_h
    &&& ow < g.out_w
}

/// The input and weight elements that output element `(ni, co, oh, ow)` of
/// a convolution sums, as flat-index pairs in the order the sum runs:
/// input channel, then kernel row, then column, skipping taps that fall in
/// the zero padding. Every index lies inside its tensor.
pub fn conv2d_taps(g: &Conv2dGeometry, stride: usize, padding: usize, ni: usize, co: usize, oh: usize, ow: usize) -> (v: Vec<(usize, usize)>)
    requires
        conv_taps_ready(*g, stride, padding, ni, co, oh, ow),
    ensures
        v@ == conv_pairs(*g, stride as int, padding as int, (ni, co, oh, ow), g.c_in as int),
        lists_conv_taps(v@, *g, stride as int, padding as int, (ni, co, oh, ow), 0, g.c_in * g.kh * g.kw),
        forall|q: int| 0 <= q < v@.len() ==> #[trigger] v@[q].0 < g.n * g.c_in * g.h * g.w
            && v@[q].1 < g.c_out * g.c_in * g.kh * g.kw,
{
    let ghost gg = *g;
    let ghost at = (ni, co, oh, ow);
    let ghost st = stride as int;
    let ghost pd = padding as int;
    let ghost xn = g.n * g.c_in * g.h * g.w;
    let ghost wn = g.c_out * g.c_in * g.kh * g.kw;
    let mut v: Vec<(usize, usize)> = Vec::new();
    let mut ci: usize = 0;
    while ci < g.c_in
        invariant
            gg == *g,
            conv_taps_ready(gg, stride, padding, ni, co, oh, ow),
            st == stride as int,
            pd == padding as int,
            at == (ni, co, oh, ow),
            xn == g.n * g.c_in * g.h * g.w,
            wn == g.c_out * g.c_in * g.kh * g.kw,
            ci <= g.c_in,
            v@ == conv_pairs(gg, st, pd, at, ci as int),
            forall|q: int| 0 <= q < v@.len() ==> #[trigger] v@[q].0 < xn && v@[q].1 < wn,
        decreases g.c_in - ci,
    {
        let mut r: usize = 0;
        while r < g.kh
            invariant
                gg == *g,
                conv_taps_ready(gg, stride, padding, ni, co, oh, ow),
                st == stride as int,
                pd == padding as int,
                at == (ni, co, oh, ow),
                xn == g.n * g.c_in * g.h * g.w,
                wn == g.c_out * g.c_in * g.kh * g.kw,
                ci < g.c_in,
                r <= g.kh,
                v@ == conv_pairs(gg, st, pd, at, ci as int) + conv_chan_pairs(gg, st, pd, at, ci as int, r as int),
                forall|q: int| 0 <= q < v@.len() ==> #[trigger] v@[q].0 < xn && v@[q].1 < wn,
            decreases g.kh - r,
        {
            proof {
                lemma_conv_taps_in_padded(g.h as int, g.kh as int, st, pd, oh as int, r as int);
            }
            let ih = conv2d_tap(oh, r, stride, padding, g.h);
            let mut c: usize = 0;
            while c < g.kw
                invariant
                    gg == *g,
                    conv_taps_ready(gg, stride, padding, ni, co, oh, ow),
                    st == stride as int,
                    pd == padding as int,
                    at == (ni, co, oh, ow),
                    xn == g.n * g.c_in * g.h * g.w,
                    wn == g.c_out * g.c_in * g.kh * g.kw,
                    ci < g.c_in,
                    r < g.kh,
                    c <= g.kw,
                    ih == (if oh * stride + r >= padding && oh * stride + r - padding < g.h {
                        Some((oh * stride + r - padding) as usize)
                    } else {
                        None::<usize>
                    }),
                    v@ == conv_pairs(gg, st, pd, at, ci as int) + conv_chan_pairs(gg, st, pd, at, ci as int, r as int)
                        + conv_row_pairs(gg, st, pd, at, ci as int, r as int, c as int),
                    forall|q: int| 0 <= q < v@.len() ==> #[trigger] v@[q].0 < xn && v@[q].1 < wn,
                decreases g.kw - c,
            {
                let ghost before = v@;
                proof {
                    lemma_conv_taps_in_padded(g.w as int, g.kw as int, st, pd, ow as int, c as int);
                }
                let iw = conv2d_tap(ow, c, stride, padding, g.w);
                match (ih, iw) {
                    (Some(y), Some(x)) => {
                        proof {
                            lemma_box4(ni as int, ci as int, y as int, x as int, g.n as int, g.c_in as int, g.h as int, g.w as int);
                            lemma_box4(co as int, ci as int, r as int, c as int, g.c_out as int, g.c_in as int, g.kh as int, g.kw as int);
                        }
                        let xi = ((ni * g.c_in + ci) * g.h + y) * g.w + x;
                        let wi = ((co * g.c_in + ci) * g.kh + r) * g.kw + c;
                        v.push((xi, wi));
                        proof {
                            assert(conv_pair(gg, st, pd, at, ci as int, r as int, c as int) =~= seq![(xi, wi)]);
                        }
                    },
                    _ => {
                        proof {
                            assert(conv_pair(gg, st, pd, at, ci as int, r as int, c as int) =~= Seq::<(usize, usize)>::empty());
                        }
                    },
                }
                proof {
                    assert(conv_row_pairs(gg, st, pd, at, ci as int, r as int, c + 1)
                        == conv_row_pairs(gg, st, pd, at, ci as int, r as int, c as int) + conv_pair(gg, st, pd, at, ci as int, r as int, c as int));
                    assert(v@ =~= conv_pairs(gg, st, pd, at, ci as int) + conv_chan_pairs(gg, st, pd, at, ci as int, r as int)
                        + conv_row_pairs(gg, st, pd, at, ci as int, r as int, c + 1));
                }
                c = c + 1;
            }
            proof {
                assert(conv_chan_pairs(gg, st, pd, at, ci as int, r + 1) == conv_chan_pairs(gg, st, pd, at, ci as int, r as int)
                    + conv_row_pairs(gg, st, pd, at, ci as int, r as int, gg.kw as int));
                assert(v@ =~= conv_pairs(gg, st, pd, at, ci as int) + conv_chan_pairs(gg, st, pd, at, ci as int, r + 1));
            }
            r = r + 1;
        }
        proof {
            assert(conv_pairs(gg, st, pd, at, ci + 1) == conv_pairs(gg, st, pd, at, ci as int)
                + conv_chan_pairs(gg, st, pd, at, ci as int, gg.kh as int));
        }
        ci = ci + 1;
    }
    proof {
        lemma_conv2d_taps_read(gg, stride, padding, ni, co, oh, ow);
    }
    v
}

/// Shape `(n, c_in, h, w)` of a convolution's input.
pub open spec fn conv_input_shape(g: Conv2dGeometry) -> Seq<usize> {
    seq![g.n, g.c_in, g.h, g.w]
}

/// Shape `(c_out, c_in, kh, kw)` of a convolution's weight.
pub open spec fn conv_weight_shape(g: Conv2dGeometry) -> Seq<usize> {
    seq![g.c_out, g.c_in, g.kh, g.kw]
}

/// Kernel tap `(ci, r, c)` of output element `at = (ni, co, oh, ow)` is a
/// tap of the kernel that reads a real input element, not zero padding.
pub open spec fn conv_tap_kept(g: Conv2dGeometry, stride: int, padding: int, at: (usize, usize, usize, usize), ci: int, r: int, c: int) -> bool {
    &&& 0 <= ci < g.c_in
    &&& 0 <= r < g.kh
    &&& 0 <= c < g.kw
    &&& padding <= at.2 * stride + r < padding + g.h
    &&& padding <= at.3 * stride + c < padding + g.w
}

/// What tap `(ci, r, c)` of output element `(ni, co, oh, ow)` multiplies:
/// the row-major positions of input element
/// `(ni, ci, oh*stride + r - padding, ow*stride + c - padding)` and of
/// weight element `(co, ci, r, c)`.
pub open spec fn conv_tap_positions(g: Conv2dGeometry, stride: int, padding: int, at: (usize, usize, usize, usize), ci: int, r: int, c: int) -> (int, int) {
    (
        row_major_index(conv_input_shape(g), seq![at.0 as int, ci, at.2 * stride + r - padding, at.3 * stride + c - padding]),
        row_major_index(conv_weight_shape(g), seq![at.1 as int, ci, r, c]),
    )
}

/// Position of tap `(ci, r, c)` in channel-major, then row, then column
/// order.
pub open spec fn conv_tap_order(g: Conv2dGeometry, ci: int, r: int, c: int) -> int {
    (ci * g.kh + r) * g.kw + c
}

/// A pair of flat indices as integers.
pub open spec fn index_pair(p: (usize, usize)) -> (int, int) {
    (p.0 as int, p.1 as int)
}

/// Entry `q` of `s` is the positions of a kept tap whose order lies in
/// `[lo, hi)`.
pub open spec fn entry_is_kept_tap(s: Seq<(usize, usize)>, q: int, g: Conv2dGeometry, stride: int, padding: int, at: (usize, usize, usize, usize), lo: int, hi: int) -> bool {
    exists|ci: int, r: int, c: int|
        conv_tap_kept(g, stride, padding, at, ci, r, c) && lo <= conv_tap_order(g, ci, r, c) < hi
            && index_pair(s[q]) == #[trigger] conv_tap_positions(g, stride, padding, at, ci, r, c)
}

/// Every entry of `s` is the positions of a kept tap whose order lies in
/// `[lo, hi)`.
pub open spec fn listed_taps_kept(s: Seq<(usize, usize)>, g: Conv2dGeometry, stride: int, padding: int, at: (usize, usize, usize, usize), lo: int, hi: int) -> bool {
    forall|q: int| 0 <= q < s.len() ==> #[trigger] entry_is_kept_tap(s, q, g, stride, padding, at, lo, hi)
}

/// The weight positions along `s` strictly increase.
pub open spec fn weight_positions_increase(s: Seq<(usize, usize)>) -> bool {
    forall|q1: int, q2: int| 0 <= q1 < q2 < s.len() ==> #[trigger] s[q1].1 < #[trigger] s[q2].1
}

/// Every kept tap whose order lies in `[lo, hi)` has its positions in `s`.
pub open spec fn kept_taps_listed(s: Seq<(usize, usize)>, g: Conv2dGeometry, stride: int, padding: int, at: (usize, usize, usize, usize), lo: int, hi: int) -> bool {
    forall|ci: int, r: int, c: int|
        conv_tap_kept(g, stride, padding, at, ci, r, c) && lo <= conv_tap_order(g, ci, r, c) < hi ==> exists|q: int|
            0 <= q < s.len() && index_pair(#[trigger] s[q]) == conv_tap_positions(g, stride, padding, at, ci, r, c)
}

/// `s` lists exactly the kept taps whose order lies in `[lo, hi)`, each as
/// its input and weight positions, in increasing tap order (so with
/// strictly increasing weight positions).
pub open spec fn lists_conv_taps(s: Seq<(usize, usize)>, g: Conv2dGeometry, stride: int, padding: int, at: (usize, usize, usize, usize), lo: int, hi: int) -> bool {
    &&& listed_taps_kept(s, g, stride, padding, at, lo, hi)
    &&& weight_positions_increase(s)
    &&& kept_taps_listed(s, g, stride, padding, at, lo, hi)
}

/// The row-major position of `(x0, x1, x2, x3)` in shape `(d0, d1, d2, d3)`.
proof fn lemma_row_major4(d0: usize, d1: usize, d2: usize, d3: usize, x0: int, x1: int, x2: int, x3: int)
    ensures
        row_major_index(seq![d0, d1, d2, d3], seq![x0, x1, x2, x3]) == ((x0 * d1 + x1) * d2 + x2) * d3 + x3,
{
    let s4 = seq![d0, d1, d2, d3];
    let s3 = seq![d1, d2, d3];
    let s2 = seq![d2, d3];
    let s1 = seq![d3];
    let c4 = seq![x0, x1, x2, x3];
    let c3 = seq![x1, x2, x3];
    let c2 = seq![x2, x3];
    let c1 = seq![x3];
    assert(s4.drop_first() =~= s3 && c4.drop_first() =~= c3);
    assert(s3.drop_first() =~= s2 && c3.drop_first() =~= c2);
    assert(s2.drop_first() =~= s1 && c2.drop_first() =~= c1);
    assert(s1.drop_first() =~= Seq::<usize>::empty());
    assert(row_major_index(s1.drop_first(), c1.drop_first()) == 0);
    assert(suffix_prod(s1, 1) == 1);
    assert(row_major_index(s1, c1) == x3);
    assert(suffix_prod(s2, 2) == 1);
    assert(suffix_prod(s2, 1) == d3);
    assert(row_major_index(s2, c2) == x2 * d3 + x3);
    assert(suffix_prod(s3, 3) == 1);
    assert(suffix_prod(s3, 2) == d3);
    assert(suffix_prod(s3, 1) == d2 * d3);
    assert(row_major_index(s3, c3) == x1 * (d2 * d3) + x2 * d3 + x3);
    assert(suffix_prod(s4, 4) == 1);
    assert(suffix_prod(s4, 3) == d3);
    assert(suffix_prod(s4, 2) == d2 * d3);
    assert(suffix_prod(s4, 1) == d1 * (d2 * d3));
    assert(row_major_index(s4, c4) == x0 * (d1 * (d2 * d3)) + x1 * (d2 * d3) + x2 * d3 + x3);
    assert(x0 * (d1 * (d2 * d3)) + x1 * (d2 * d3) + x2 * d3 + x3 == ((x0 * d1 + x1) * d2 + x2) * d3 + x3) by (nonlinear_arith);
}

/// The weight position of a tap is its tap order offset by the output
/// channel's filter: `co * (c_in*kh*kw) + order`.
proof fn lemma_conv_weight_position(g: Conv2dGeometry, stride: int, padding: int, at: (usize, usize, usize, usize), ci: int, r: int, c: int)
    ensures
        conv_tap_positions(g, stride, padding, at, ci, r, c).1
            == at.1 * (g.c_in * g.kh * g.kw) + conv_tap_order(g, ci, r, c),
{
    lemma_row_major4(g.c_out, g.c_in, g.kh, g.kw, at.1 as int, ci, r, c);
    let co = at.1 as int;
    assert(((co * g.c_in + ci) * g.kh + r) * g.kw + c == co * (g.c_in * g.kh * g.kw) + (ci * g.kh + r) * g.kw + c)
        by (nonlinear_arith);
}

/// Tap order is one-to-one on the kernel's taps.
proof fn lemma_conv_tap_order_injective(g: Conv2dGeometry, ci: int, r: int, c: int, ci2: int, r2: int, c2: int)
    requires
        0 <= r < g.kh,
        0 <= c < g.kw,
        0 <= r2 < g.kh,
        0 <= c2 < g.kw,
        conv_tap_order(g, ci, r, c) == conv_tap_order(g, ci2, r2, c2),
    ensures
        ci == ci2 && r == r2 && c == c2,
{
    let k = conv_tap_order(g, ci, r, c);
    vstd::arithmetic::div_mod::lemma_fundamental_div_mod_converse(k, g.kw as int, ci * g.kh + r, c);
    vstd::arithmetic::div_mod::lemma_fundamental_div_mod_converse(k, g.kw as int, ci2 * g.kh + r2, c2);
    let q = ci * g.kh + r;
    vstd::arithmetic::div_mod::lemma_fundamental_div_mod_converse(q, g.kh as int, ci, r);
    vstd::arithmetic::div_mod::lemma_fundamental_div_mod_converse(q, g.kh as int, ci2, r2);
}

proof fn lemma_lists_empty(g: Conv2dGeometry, stride: int, padding: int, at: (usize, usize, usize, usize), lo: int)
    ensures
        lists_conv_taps(Seq::empty(), g, stride, padding, at, lo, lo),
{
}

proof fn lemma_kept_concat(s1: Seq<(usize, usize)>, s2: Seq<(usize, usize)>, g: Conv2dGeometry, stride: int, padding: int, at: (usize, usize, usize, usize), lo: int, mid: int, hi: int)
    requires
        lo <= mid <= hi,
        listed_taps_kept(s1, g, stride, padding, at, lo, mid),
        listed_taps_kept(s2, g, stride, padding, at, mid, hi),
    ensures
        listed_taps_kept(s1 + s2, g, stride, padding, at, lo, hi),
{
    let s = s1 + s2;
    let n1 = s1.len() as int;
    assert forall|q: int| 0 <= q < s.len() implies #[trigger] entry_is_kept_tap(s, q, g, stride, padding, at, lo, hi) by {
        if q < n1 {
            assert(entry_is_kept_tap(s1, q, g, stride, padding, at, lo, mid));
            assert(s[q] == s1[q]);
            let (ci, r, c) = choose|ci: int, r: int, c: int|
                conv_tap_kept(g, stride, padding, at, ci, r, c) && lo <= conv_tap_order(g, ci, r, c) < mid
                    && index_pair(s1[q]) == #[trigger] conv_tap_positions(g, stride, padding, at, ci, r, c);
            assert(index_pair(s[q]) == conv_tap_positions(g, stride, padding, at, ci, r, c));
        } else {
            assert(entry_is_kept_tap(s2, q - n1, g, stride, padding, at, mid, hi));
            assert(s[q] == s2[q - n1]);
            let (ci, r, c) = choose|ci: int, r: int, c: int|
                conv_tap_kept(g, stride, padding, at, ci, r, c) && mid <= conv_tap_order(g, ci, r, c) < hi
                    && index_pair(s2[q - n1]) == #[trigger] conv_tap_positions(g, stride, padding, at, ci, r, c);
            assert(index_pair(s[q]) == conv_tap_positions(g, stride, padding, at, ci, r, c));
        }
    }
}

proof fn lemma_order_concat(s1: Seq<(usize, usize)>, s2: Seq<(usize, usize)>, g: Conv2dGeometry, stride: int, padding: int, at: (usize, usize, usize, usize), lo: int, mid: int, hi: int)
    requires
        listed_taps_kept(s1, g, stride, padding, at, lo, mid),
        listed_taps_kept(s2, g, stride, padding, at, mid, hi),
        weight_positions_increase(s1),
        weight_positions_increase(s2),
    ensures
        weight_positions_increase(s1 + s2),
{
    let s = s1 + s2;
    let n1 = s1.len() as int;
    assert forall|q1: int, q2: int| 0 <= q1 < q2 < s.len() implies #[trigger] s[q1].1 < #[trigger] s[q2].1 by {
        if q2 < n1 {
            assert(s[q1] == s1[q1] && s[q2] == s1[q2]);
        } else if q1 >= n1 {
            assert(s[q1] == s2[q1 - n1] && s[q2] == s2[q2 - n1]);
        } else {
            assert(s[q1] == s1[q1] && s[q2] == s2[q2 - n1]);
            assert(entry_is_kept_tap(s1, q1, g, stride, padding, at, lo, mid));
            assert(entry_is_kept_tap(s2, q2 - n1, g, stride, padding, at, mid, hi));
            let t1 = s1[q1];
            let t2 = s2[q2 - n1];
            let (ci, r, c) = choose|ci: int, r: int, c: int|
                conv_tap_kept(g, stride, padding, at, ci, r, c) && lo <= conv_tap_order(g, ci, r, c) < mid
                    && index_pair(t1) == #[trigger] conv_tap_positions(g, stride, padding, at, ci, r, c);
            let (ci2, r2, c2) = choose|ci: int, r: int, c: int|
                conv_tap_kept(g, stride, padding, at, ci, r, c) && mid <= conv_tap_order(g, ci, r, c) < hi
                    && index_pair(t2) == #[trigger] conv_tap_positions(g, stride, padding, at, ci, r, c);
            lemma_conv_weight_position(g, stride, padding, at, ci, r, c);
            lemma_conv_weight_position(g, stride, padding, at, ci2, r2, c2);
        }
    }
}

proof fn lemma_listed_concat(s1: Seq<(usize, usize)>, s2: Seq<(usize, usize)>, g: Conv2dGeometry, stride: int, padding: int, at: (usize, usize, usize, usize), lo: int, mid: int, hi: int)
    requires
        kept_taps_listed(s1, g, stride, padding, at, lo, mid),
        kept_taps_listed(s2, g, stride, padding, at, mid, hi),
    ensures
        kept_taps_listed(s1 + s2, g, stride, padding, at, lo, hi),
{
    let s = s1 + s2;
    let n1 = s1.len() as int;
    assert forall|ci: int, r: int, c: int|
        conv_tap_kept(g, stride, padding, at, ci, r, c) && lo <= conv_tap_order(g, ci, r, c) < hi implies exists|q: int|
            0 <= q < s.len() && index_pair(#[trigger] s[q]) == conv_tap_positions(g, stride, padding, at, ci, r, c) by {
        if conv_tap_order(g, ci, r, c) < mid {
            let q = choose|q: int| 0 <= q < s1.len() && index_pair(#[trigger] s1[q]) == conv_tap_positions(g, stride, padding, at, ci, r, c);
            assert(s[q] == s1[q]);
        } else {
            let q = choose|q: int| 0 <= q < s2.len() && index_pair(#[trigger] s2[q]) == conv_tap_positions(g, stride, padding, at, ci, r, c);
            assert(s[q + n1] == s2[q]);
        }
    }
}

proof fn lemma_lists_concat(s1: Seq<(usize, usize)>, s2: Seq<(usize, usize)>, g: Conv2dGeometry, stride: int, padding: int, at: (usize, usize, usize, usize), lo: int, mid: int, hi: int)
    requires
        lo <= mid <= hi,
        lists_conv_taps(s1, g, stride, padding, at, lo, mid),
        lists_conv_taps(s2, g, stride, padding, at, mid, hi),
    ensures
        lists_conv_taps(s1 + s2, g, stride, padding, at, lo, hi),
{
    lemma_kept_concat(s1, s2, g, stride, padding, at, lo, mid, hi);
    lemma_order_concat(s1, s2, g, stride, padding, at, lo, mid, hi);
    lemma_listed_concat(s1, s2, g, stride, padding, at, lo, mid, hi);
}

/// One tap's contribution lists that tap alone (or nothing, in padding).
proof fn lemma_lists_pair(g: Conv2dGeometry, stride: usize, padding: usize, at: (usize, usize, usize, usize), ci: int, r: int, c: int)
    requires
        conv_taps_ready(g, stride, padding, at.0, at.1, at.2, at.3),
        0 <= ci < g.c_in,
        0 <= r < g.kh,
        0 <= c < g.kw,
    ensures
        lists_conv_taps(conv_pair(g, stride as int, padding as int, at, ci, r, c), g, stride as int, padding as int, at,
            conv_tap_order(g, ci, r, c), conv_tap_order(g, ci, r, c) + 1),
{
    let st = stride as int;
    let pd = padding as int;
    let k = conv_tap_order(g, ci, r, c);
    let s = conv_pair(g, st, pd, at, ci, r, c);
    let (ni, co, oh, ow) = at;
    assert forall|ci2: int, r2: int, c2: int| conv_tap_kept(g, st, pd, at, ci2, r2, c2) && k <= conv_tap_order(g, ci2, r2, c2) < k + 1
        implies ci2 == ci && r2 == r && c2 == c by {
        lemma_conv_tap_order_injective(g, ci, r, c, ci2, r2, c2);
    }
    if conv_tap_kept(g, st, pd, at, ci, r, c) {
        let y = oh * st + r - pd;
        let x = ow * st + c - pd;
        lemma_box4(ni as int, ci, y, x, g.n as int, g.c_in as int, g.h as int, g.w as int);
        lemma_box4(co as int, ci, r, c, g.c_out as int, g.c_in as int, g.kh as int, g.kw as int);
        lemma_row_major4(g.n, g.c_in, g.h, g.w, ni as int, ci, y, x);
        lemma_row_major4(g.c_out, g.c_in, g.kh, g.kw, co as int, ci, r, c);
        let xi = ((ni * g.c_in + ci) * g.h + y) * g.w + x;
        let wi = ((co * g.c_in + ci) * g.kh + r) * g.kw + c;
        assert(s == seq![(xi as usize, wi as usize)]);
        assert(index_pair(s[0]) == conv_tap_positions(g, st, pd, at, ci, r, c));
    } else {
        assert(s =~= Seq::<(usize, usize)>::empty());
    }
}

proof fn lemma_lists_row(g: Conv2dGeometry, stride: usize, padding: usize, at: (usize, usize, usize, usize), ci: int, r: int, c: int)
    requires
        conv_taps_ready(g, stride, padding, at.0, at.1, at.2, at.3),
        0 <= ci < g.c_in,
        0 <= r < g.kh,
        0 <= c <= g.kw,
    ensures
        lists_conv_taps(conv_row_pairs(g, stride as int, padding as int, at, ci, r, c), g, stride as int, padding as int, at,
            conv_tap_order(g, ci, r, 0), conv_tap_order(g, ci, r, c)),
    decreases c,
{
    if c == 0 {
        lemma_lists_empty(g, stride as int, padding as int, at, conv_tap_order(g, ci, r, 0));
    } else {
        lemma_lists_row(g, stride, padding, at, ci, r, c - 1);
        lemma_lists_pair(g, stride, padding, at, ci, r, c - 1);
        lemma_lists_concat(conv_row_pairs(g, stride as int, padding as int, at, ci, r, c - 1),
            conv_pair(g, stride as int, padding as int, at, ci, r, c - 1), g, stride as int, padding as int, at,
            conv_tap_order(g, ci, r, 0), conv_tap_order(g, ci, r, c - 1), conv_tap_order(g, ci, r, c));
    }
}

proof fn lemma_lists_chan(g: Conv2dGeometry, stride: usize, padding: usize, at: (usize, usize, usize, usize), ci: int, r: int)
    requires
        conv_taps_ready(g, stride, padding, at.0, at.1, at.2, at.3),
        0 <= ci < g.c_in,
        0 <= r <= g.kh,
    ensures
        lists_conv_taps(conv_chan_pairs(g, stride as int, padding as int, at, ci, r), g, stride as int, padding as int, at,
            conv_tap_order(g, ci, 0, 0), conv_tap_order(g, ci, r, 0)),
    decreases r,
{
    if r == 0 {
        lemma_lists_empty(g, stride as int, padding as int, at, conv_tap_order(g, ci, 0, 0));
    } else {
        lemma_lists_chan(g, stride, padding, at, ci, r - 1);
        lemma_lists_row(g, stride, padding, at, ci, r - 1, g.kw as int);
        assert(conv_tap_order(g, ci, r - 1, g.kw as int) == conv_tap_order(g, ci, r, 0)) by (nonlinear_arith);
        assert(conv_tap_order(g, ci, 0, 0) <= conv_tap_order(g, ci, r - 1, 0) <= conv_tap_order(g, ci, r, 0)) by (nonlinear_arith)
            requires 1 <= r, 0 <= g.kw;
        lemma_lists_concat(conv_chan_pairs(g, stride as int, padding as int, at, ci, r - 1),
            conv_row_pairs(g, stride as int, padding as int, at, ci, r - 1, g.kw as int), g, stride as int, padding as int, at,
            conv_tap_order(g, ci, 0, 0), conv_tap_order(g, ci, r - 1, 0), conv_tap_order(g, ci, r, 0));
    }
}

proof fn lemma_lists_pairs(g: Conv2dGeometry, stride: usize, padding: usize, at: (usize, usize, usize, usize), ci: int)
    requires
        conv_taps_ready(g, stride, padding, at.0, at.1, at.2, at.3),
        0 <= ci <= g.c_in,
    ensures
        lists_conv_taps(conv_pairs(g, stride as int, padding as int, at, ci), g, stride as int, padding as int, at,
            0, conv_tap_order(g, ci, 0, 0)),
    decreases ci,
{
    if ci == 0 {
        assert(conv_tap_order(g, 0, 0, 0) == 0) by (nonlinear_arith);
        lemma_lists_empty(g, stride as int, padding as int, at, 0);
    } else {
        lemma_lists_pairs(g, stride, padding, at, ci - 1);
        lemma_lists_chan(g, stride, padding, at, ci - 1, g.kh as int);
        assert(conv_tap_order(g, ci - 1, g.kh as int, 0) == conv_tap_order(g, ci, 0, 0)) by (nonlinear_arith);
        assert(0 <= conv_tap_order(g, ci - 1, 0, 0) <= conv_tap_order(g, ci, 0, 0)) by (nonlinear_arith)
            requires 1 <= ci, 0 <= g.kh, 0 <= g.kw;
        lemma_lists_concat(conv_pairs(g, stride as int, padding as int, at, ci - 1),
            conv_chan_pairs(g, stride as int, padding as int, at, ci - 1, g.kh as int), g, stride as int, padding as int, at,
            0, conv_tap_order(g, ci - 1, 0, 0), conv_tap_order(g, ci, 0, 0));
    }
}

/// What a convolution output sums: the taps [`conv2d_taps`] lists for
/// output element `(ni, co, oh, ow)` are exactly the kernel taps
/// `(ci, r, c)` that land on the input rather than in the padding, each
/// exactly once, in channel, then row, then column order; each as the
/// row-major position of input element
/// `(ni, ci, oh*stride + r - padding, ow*stride + c - padding)` in the
/// `(n, c_in, h, w)` input and of weight element `(co, ci, r, c)` in the
/// `(c_out, c_in, kh, kw)` weight.
pub proof fn lemma_conv2d_taps_read(g: Conv2dGeometry, stride: usize, padding: usize, ni: usize, co: usize, oh: usize, ow: usize)
    requires
        conv_taps_ready(g, stride, padding, ni, co, oh, ow),
    ensures
        lists_conv_taps(conv_pairs(g, stride as int, padding as int, (ni, co, oh, ow), g.c_in as int), g, stride as int,
            padding as int, (ni, co, oh, ow), 0, g.c_in * g.kh * g.kw),
{
    lemma_lists_pairs(g, stride, padding, (ni, co, oh, ow), g.c_in as int);
    assert(conv_tap_order(g, g.c_in as int, 0, 0) == g.c_in * g.kh * g.kw) by (nonlinear_arith);
}

// ---------------------------------------------------------------------------
// max_pool2d

/// Sizes of a square-window max pool over an `(n, c, h, w)` input.
#[derive(Clone, Copy, Debug)]
pub struct Pool2dGeometry {
    pub n: usize,
    pub c: usize,
    pub h: usize,
    pub w: usize,
    pub out_h: usize,
    pub out_w: usize,
}

/// Operand checks and output size of `max_pool2d` (no padding), in order:
/// rank 4; kernel and stride at least 1; the kernel within the input.
pub fn max_pool2d_geometry(shape: &[usize], kernel: usize, stride: usize) -> (r: Result<Pool2dGeometry, Error>)
    ensures
        shape@.len() != 4 ==> (r matches Err(Error::InvalidShape { op, msg }) && op@ == "max_pool2d"@
            && msg@ == "expected NCHW rank-4 input, got rank "@ + decimal(shape@.len())),
        shape@.len() == 4 && (kernel < 1 || stride < 1) ==> (r matches Err(Error::InvalidShape { op, msg }) && op@ == "max_pool2d"@
            && msg@ == "kernel ("@ + decimal(kernel as nat) + ") and stride ("@ + decimal(stride as nat) + ") must be >= 1"@),
        shape@.len() == 4 && kernel >= 1 && stride >= 1 && (shape@[2] < kernel || shape@[3] < kernel) ==> (
            r matches Err(Error::InvalidShape { op, msg }) && op@ == "max_pool2d"@
            && msg@ == "kernel "@ + decimal(kernel as nat) + " too large for input "@ + decimal(shape@[2] as nat) + "x"@
                + decimal(shape@[3] as nat)),
        shape@.len() == 4 && kernel >= 1 && stride >= 1 && shape@[2] >= kernel && shape@[3] >= kernel ==> (r matches Ok(g)
            && g.n == shape@[0] && g.c == shape@[1] && g.h == shape@[2] && g.w == shape@[3]
            && g.out_h == windows(shape@[2] as int, kernel as int, stride as int)
            && g.out_w == windows(shape@[3] as int, kernel as int, stride as int)),
{
    if shape.len() != 4 {
        let mut msg = String::from_str("expected NCHW rank-4 input, got rank ");
        push_decimal(&mut msg, shape.len());
        return Err(Error::InvalidShape { op: "max_pool2d", msg });
    }
    if kernel < 1 || stride < 1 {
        let mut msg = String::from_str("kernel (");
        push_decimal(&mut msg, kernel);
        msg.append(") and stride (");
        push_decimal(&mut msg, stride);
        msg.append(") must be >= 1");
        assert(msg@ =~= "kernel ("@ + decimal(kernel as nat) + ") and stride ("@ + decimal(stride as nat) + ") must be >= 1"@);
        return Err(Error::InvalidShape { op: "max_pool2d", msg });
    }
    let (n, c, h, w) = (shape[0], shape[1], shape[2], shape[3]);
    if h < kernel || w < kernel {
        let mut msg = String::from_str("kernel ");
        push_decimal(&mut msg, kernel);
        msg.append(" too large for input ");
        push_decimal(&mut msg, h);
        msg.append("x");
        push_decimal(&mut msg, w);
        assert(msg@ =~= "kernel "@ + decimal(kernel as nat) + " too large for input "@ + decimal(h as nat) + "x"@ + decimal(w as nat));
        return Err(Error::InvalidShape { op: "max_pool2d", msg });
    }
    Ok(Pool2dGeometry { n, c, h, w, out_h: (h - kernel) / stride + 1, out_w: (w - kernel) / stride + 1 })
}

/// Flat index, in an `(n, c, h, w)` input, of tap `(kh, kw)` of the window
/// of output cell `(oh, ow)` in plane `plane` (one of the `n * c` planes);
/// every tap of every window lies inside the input.
pub fn pool_tap(g: &Pool2dGeometry, kernel: usize, stride: usize, plane: usize, oh: usize, ow: usize, kh: usize, kw: usize) -> (i: usize)
    requires
        1 <= kernel <= g.h,
        kernel <= g.w,
        stride >= 1,
        g.out_h == windows(g.h as int, kernel as int, stride as int),
        g.out_w == windows(g.w as int, kernel as int, stride as int),
        g.n * g.c * g.h * g.w <= usize::MAX,
        plane < g.n * g.c,
        oh < g.out_h,
        ow < g.out_w,
        kh < kernel,
        kw < kernel,
    ensures
        i == plane * (g.h * g.w) + (oh * stride + kh) * g.w + ow * stride + kw,
        i < g.n * g.c * g.h * g.w,
{
    let (h, w) = (g.h, g.w);
    let ghost nc = g.n * g.c;
    proof {
        lemma_conv_taps_in_padded(h as int, kernel as int, stride as int, 0, oh as int, kh as int);
        lemma_conv_taps_in_padded(w as int, kernel as int, stride as int, 0, ow as int, kw as int);
        let r = oh * stride + kh;
        let col = ow * stride + kw;
        assert(h * w <= nc * (h * w)) by (nonlinear_arith) requires 1 <= nc, 0 <= h, 0 <= w;
        assert(nc * (h * w) == g.n * g.c * g.h * g.w) by (nonlinear_arith) requires nc == g.n * g.c, h == g.h, w == g.w;
        assert(r * w + col < h * w) by (nonlinear_arith) requires 0 <= r < h, 0 <= col < w;
        assert(0 <= r * w) by (nonlinear_arith) requires 0 <= r, 0 <= w;
        assert(plane * (h * w) + h * w <= nc * (h * w)) by (nonlinear_arith) requires plane + 1 <= nc, 0 <= h * w;
        assert(0 <= plane * (h * w)) by (nonlinear_arith) requires 0 <= plane, 0 <= h * w;
    }
    let r = oh * stride + kh;
    let col = ow * stride + kw;
    plane * (h * w) + r * w + col
}

/// The flat indices of every tap of the window of output cell `(oh, ow)`
/// in plane `plane`, row by row: entry `a * kernel + b` is
/// [`pool_tap`]`(.., a, b)`.
pub fn pool_window(g: &Pool2dGeometry, kernel: usize, stride: usize, plane: usize, oh: usize, ow: usize) -> (v: Vec<usize>)
    requires
        1 <= kernel <= g.h,
        kernel <= g.w,
        stride >= 1,
        g.out_h == windows(g.h as int, kernel as int, stride as int),
        g.out_w == windows(g.w as int, kernel as int, stride as int),
        g.n * g.c * g.h * g.w <= usize::MAX,
        plane < g.n * g.c,
        oh < g.out_h,
        ow < g.out_w,
    ensures
        v@.len() == kernel * kernel,
        forall|a: int, b: int| 0 <= a < kernel && 0 <= b < kernel ==> #[trigger] v@[a * kernel + b]
            == plane * (g.h * g.w) + (oh * stride + a) * g.w + ow * stride + b,
        forall|q: int| 0 <= q < v@.len() ==> #[trigger] v@[q] < g.n * g.c * g.h * g.w,
        forall|a: int, b: int| 0 <= a < kernel && 0 <= b < kernel ==> #[trigger] v@[a * kernel + b]
            == row_major_index(seq![(g.n * g.c) as usize, g.h, g.w], seq![plane as int, oh * stride + a, ow * stride + b]),
{
    let mut v: Vec<usize> = Vec::new();
    let mut a: usize = 0;
    while a < kernel
        invariant
            a <= kernel,
            1 <= kernel <= g.h,
            kernel <= g.w,
            stride >= 1,
            g.out_h == windows(g.h as int, kernel as int, stride as int),
            g.out_w == windows(g.w as int, kernel as int, stride as int),
            g.n * g.c * g.h * g.w <= usize::MAX,
            plane < g.n * g.c,
            oh < g.out_h,
            ow < g.out_w,
            v@.len() == a * kernel,
            forall|a2: int, b2: int| 0 <= a2 < a && 0 <= b2 < kernel ==> #[trigger] v@[a2 * kernel + b2]
                == plane * (g.h * g.w) + (oh * stride + a2) * g.w + ow * stride + b2,
            forall|q: int| 0 <= q < v@.len() ==> #[trigger] v@[q] < g.n * g.c * g.h * g.w,
        decreases kernel - a,
    {
        let mut b: usize = 0;
        while b < kernel
            invariant
                a < kernel,
                b <= kernel,
                1 <= kernel <= g.h,
                kernel <= g.w,
                stride >= 1,
                g.out_h == windows(g.h as int, kernel as int, stride as int),
                g.out_w == windows(g.w as int, kernel as int, stride as int),
                g.n * g.c * g.h * g.w <= usize::MAX,
                plane < g.n * g.c,
                oh < g.out_h,
                ow < g.out_w,
                v@.len() == a * kernel + b,
                forall|a2: int, b2: int| 0 <= a2 < kernel && 0 <= b2 < kernel && (a2 < a || (a2 == a && b2 < b))
                    ==> #[trigger] v@[a2 * kernel + b2] == plane * (g.h * g.w) + (oh * stride + a2) * g.w + ow * stride + b2,
                forall|q: int| 0 <= q < v@.len() ==> #[trigger] v@[q] < g.n * g.c * g.h * g.w,
            decreases kernel - b,
        {
            let ghost before = v@;
            let t = pool_tap(g, kernel, stride, plane, oh, ow, a, b);
            v.push(t);
            proof {
                assert forall|a2: int, b2: int| 0 <= a2 < kernel && 0 <= b2 < kernel && (a2 < a || (a2 == a && b2 < b + 1))
                    implies #[trigger] v@[a2 * kernel + b2] == plane * (g.h * g.w) + (oh * stride + a2) * g.w + ow * stride + b2 by {
                    if a2 == a && b2 == b {
                        assert(a2 * kernel + b2 == before.len());
                    } else {
                        assert(a2 * kernel + b2 < a * kernel + b) by (nonlinear_arith)
                            requires 0 <= b2 < kernel, (0 <= a2 < a) || (a2 == a && b2 < b), 0 <= b;
                        assert(0 <= a2 * kernel) by (nonlinear_arith) requires 0 <= a2, 0 <= kernel;
                        assert(v@[a2 * kernel + b2] == before[a2 * kernel + b2]);
                    }
                }
            }
            b = b + 1;
        }
        proof {
            assert(a * kernel + kernel == (a + 1) * kernel) by (nonlinear_arith);
        }
        a = a + 1;
    }
    proof {
        assert forall|a: int, b: int| 0 <= a < kernel && 0 <= b < kernel implies #[trigger] v@[a * kernel + b]
            == row_major_index(seq![(g.n * g.c) as usize, g.h, g.w], seq![plane as int, oh * stride + a, ow * stride + b]) by {
            lemma_row_major3((g.n * g.c) as usize, g.h, g.w, plane as int, oh * stride + a, ow * stride + b);
            assert((plane * g.h + (oh * stride + a)) * g.w + (ow * stride + b)
                == plane * (g.h * g.w) + (oh * stride + a) * g.w + ow * stride + b) by (nonlinear_arith);
        }
    }
    v
}

// ---------------------------------------------------------------------------
// bmm

/// The row-major position of `(x0, x1, x2)` in shape `(d0, d1, d2)`.
proof fn lemma_row_major3(d0: usize, d1: usize, d2: usize, x0: int, x1: int, x2: int)
    ensures
        row_major_index(seq![d0, d1, d2], seq![x0, x1, x2]) == (x0 * d1 + x1) * d2 + x2,
{
    let s3 = seq![d0, d1, d2];
    let s2 = seq![d1, d2];
    let s1 = seq![d2];
    let c3 = seq![x0, x1, x2];
    let c2 = seq![x1, x2];
    let c1 = seq![x2];
    assert(s3.drop_first() =~= s2 && c3.drop_first() =~= c2);
    assert(s2.drop_first() =~= s1 && c2.drop_first() =~= c1);
    assert(s1.drop_first() =~= Seq::<usize>::empty());
    assert(row_major_index(s1.drop_first(), c1.drop_first()) == 0);
    assert(suffix_prod(s1, 1) == 1);
    assert(row_major_index(s1, c1) == x2);
    assert(suffix_prod(s2, 2) == 1);
    assert(suffix_prod(s2, 1) == d2);
    assert(row_major_index(s2, c2) == x1 * d2 + x2);
    assert(suffix_prod(s3, 3) == 1);
    assert(suffix_prod(s3, 2) == d2);
    assert(suffix_prod(s3, 1) == d1 * d2);
    assert(row_major_index(s3, c3) == x0 * (d1 * d2) + x1 * d2 + x2);
    assert(x0 * (d1 * d2) + x1 * d2 + x2 == (x0 * d1 + x1) * d2 + x2) by (nonlinear_arith);
}

/// `0 <= (i * m + j) * n + k < l * m * n` for coordinates `(i, j, k)` in an
/// `(l, m, n)` box, with the partial sums below their bounds too.
proof fn lemma_box3(i: int, j: int, k: int, l: int, m: int, n: int)
    requires
        0 <= i < l,
        0 <= j < m,
        0 <= k < n,
    ensures
        0 <= i * m + j < l * m,
        0 <= (i * m + j) * n + k < l * m * n,
        l * m <= l * m * n,
{
    assert(0 <= i * m + j < l * m) by (nonlinear_arith) requires 0 <= i < l, 0 <= j < m;
    let t = i * m + j;
    assert(0 <= t * n + k < (l * m) * n) by (nonlinear_arith) requires 0 <= t < l * m, 0 <= k < n;
    assert(l * m <= l * m * n) by (nonlinear_arith) requires 0 <= l * m, 1 <= n;
}

/// The operand pairs that output element `(bi, i, j)` of a batched matmul
/// `(batch, m, k) @ (batch, k, n)` sums, in order of `p`: entry `p` is the
/// flat index of `a[bi, i, p]` and of `b[bi, p, j]`.
pub fn bmm_taps(batch: usize, m: usize, k: usize, n: usize, bi: usize, i: usize, j: usize) -> (v: Vec<(usize, usize)>)
    requires
        bi < batch,
        i < m,
        j < n,
        batch * m * k <= usize::MAX,
        batch * k * n <= usize::MAX,
    ensures
        v@.len() == k,
        forall|p: int| 0 <= p < k ==> #[trigger] v@[p] == (((bi * m + i) * k + p) as usize, ((bi * k + p) * n + j) as usize),
        forall|p: int| 0 <= p < k ==> #[trigger] v@[p].0 < batch * m * k && v@[p].1 < batch * k * n,
        forall|p: int| 0 <= p < k ==> #[trigger] index_pair(v@[p]) == (
            row_major_index(seq![batch, m, k], seq![bi as int, i as int, p]),
            row_major_index(seq![batch, k, n], seq![bi as int, p, j as int]),
        ),
{
    let mut v: Vec<(usize, usize)> = Vec::new();
    let mut p: usize = 0;
    while p < k
        invariant
            bi < batch,
            i < m,
            j < n,
            p <= k,
            batch * m * k <= usize::MAX,
            batch * k * n <= usize::MAX,
            v@.len() == p,
            forall|q: int| 0 <= q < p ==> #[trigger] v@[q] == (((bi * m + i) * k + q) as usize, ((bi * k + q) * n + j) as usize),
            forall|q: int| 0 <= q < p ==> #[trigger] v@[q].0 < batch * m * k && v@[q].1 < batch * k * n,
        decreases k - p,
    {
        proof {
            lemma_box3(bi as int, i as int, p as int, batch as int, m as int, k as int);
            lemma_box3(bi as int, p as int, j as int, batch as int, k as int, n as int);
        }
        let ai = (bi * m + i) * k + p;
        let bj = (bi * k + p) * n + j;
        v.push((ai, bj));
        p = p + 1;
    }
    proof {
        assert forall|p: int| 0 <= p < k implies #[trigger] index_pair(v@[p]) == (
            row_major_index(seq![batch, m, k], seq![bi as int, i as int, p]),
            row_major_index(seq![batch, k, n], seq![bi as int, p, j as int]),
        ) by {
            lemma_row_major3(batch, m, k, bi as int, i as int, p);
            lemma_row_major3(batch, k, n, bi as int, p, j as int);
            lemma_box3(bi as int, i as int, p, batch as int, m as int, k as int);
            lemma_box3(bi as int, p, j as int, batch as int, k as int, n as int);
        }
    }
    v
}

// ---------------------------------------------------------------------------
// squeeze, unsqueeze

/// The shape with a size-1 dim inserted at `dim` (`dim <= rank`).
pub fn unsqueeze_shape(shape: &[usize], dim: usize) -> (r: Result<Vec<usize>, Error>)
    ensures
        dim <= shape@.len() ==> (r matches Ok(s) && s@ == shape@.insert(dim as int, 1usize)),
        dim > shape@.len() ==> (r matches Err(Error::InvalidShape { op, msg }) && op@ == "unsqueeze"@
            && msg@ == dim_range_msg(dim, shape@.len() as usize)),
{
    let ndim = shape.len();
    if dim > ndim {
        return Err(dim_out_of_range("unsqueeze", dim, ndim));
    }
    let mut s = slice_to_vec(shape);
    s.insert(dim, 1);
    Ok(s)
}

/// The shape with the size-1 dim `dim` removed.
pub fn squeeze_shape(shape: &[usize], dim: usize) -> (r: Result<Vec<usize>, Error>)
    ensures
        dim >= shape@.len() ==> (r matches Err(Error::InvalidShape { op, msg }) && op@ == "squeeze"@
            && msg@ == dim_range_msg(dim, shape@.len() as usize)),
        dim < shape@.len() && shape@[dim as int] != 1 ==> (r matches Err(Error::InvalidShape { op, msg })
            && op@ == "squeeze"@ && msg@ == "dim "@ + decimal(dim as nat) + " has size "@ + decimal(shape@[dim as int] as nat)
            + " != 1"@),
        dim < shape@.len() && shape@[dim as int] == 1 ==> (r matches Ok(s) && s@ == shape@.remove(dim as int)),
{
    let ndim = shape.len();
    if dim >= ndim {
        return Err(dim_out_of_range("squeeze", dim, ndim));
    }
    if shape[dim] != 1 {
        let mut msg = String::from_str("dim ");
        push_decimal(&mut msg, dim);
        msg.append(" has size ");
        push_decimal(&mut msg, shape[dim]);
        msg.append(" != 1");
        assert(msg@ =~= "dim "@ + decimal(dim as nat) + " has size "@ + decimal(shape@[dim as int] as nat) + " != 1"@);
        return Err(Error::InvalidShape { op: "squeeze", msg });
    }
    let mut s = slice_to_vec(shape);
    s.remove(dim);
    Ok(s)
}

/// Squeezing the dim that `unsqueeze` inserted gives back the shape, and
/// unsqueezing the dim that `squeeze` removed gives back the shape.
pub proof fn lemma_squeeze_unsqueeze_inverse(shape: Seq<usize>, dim: int)
    ensures
        0 <= dim <= shape.len() ==> shape.insert(dim, 1usize).remove(dim) == shape
            && shape.insert(dim, 1usize)[dim] == 1,
        0 <= dim < shape.len() && shape[dim] == 1 ==> shape.remove(dim).insert(dim, 1usize) == shape,
{
    if 0 <= dim <= shape.len() {
        assert(shape.insert(dim, 1usize).remove(dim) =~= shape);
    }
    if 0 <= dim < shape.len() && shape[dim] == 1 {
        assert(shape.remove(dim).insert(dim, 1usize) =~= shape);
    }
}

// ---------------------------------------------------------------------------
// Device transfer

/// Whether moving a tensor of `dtype` from `from` to `to` copies: `Ok(false)`
/// when it is already there (the tensor itself is returned),
/// `DtypeMismatch` for a non-f32 tensor (only f32 data moves off the host),
/// else `Ok(true)`.
pub fn transfer_needed(from: Device, to: Device, dtype: DType) -> (r: Result<bool, Error>)
    ensures
        from == to ==> r == Ok::<bool, Error>(false),
        from != to && dtype != DType::F32 ==> (r matches Err(Error::DtypeMismatch { op, expected, got })
            && op@ == "to_device"@ && expected == DType::F32 && got == dtype),
        from != to && dtype == DType::F32 ==> r == Ok::<bool, Error>(true),
{
    if from == to {
        return Ok(false);
    }
    check_f32("to_device", dtype)?;
    Ok(true)
}

} // verus!
