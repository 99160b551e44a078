//! Generation of the CUDA C source of the elementwise, broadcasting,
//! reduction and fill kernels, and the host-side strides that the
//! broadcasting kernel reads its operands with. Pure string and index work,
//! so it holds on a machine without a GPU.
use vstd::prelude::*;
use vstd::string::*;
use crate::dispatch::{BinaryKind, ReduceKind};
use crate::shape::broadcasts_to;
use crate::text::{decimal, lemma_decimal_round_trip, push_decimal};

verus! {

/// Every generated module exports exactly one kernel under this name; the
/// function cache is keyed by source text, so the name never collides.
pub const KERNEL_NAME: &'static str = "ferro_kernel";

/// Opens every kernel declaration, up to the kernel's name.
pub const HEAD: &'static str = "extern \"C\" __global__ void ";
/// Each thread's flat element index.
pub const THREAD_INDEX: &'static str = "    unsigned int i = blockIdx.x * blockDim.x + threadIdx.x;\n";
/// Parameter list of an elementwise unary kernel.
pub const UNARY_PARAMS: &'static str = "(const float* x, float* out, unsigned int n) {\n";
/// Loads the input element `v`, up to the expression stored in `out[i]`.
pub const UNARY_BODY: &'static str = "    if (i < n) { float v = x[i]; out[i] = ";
/// Parameter list of an elementwise binary kernel over equal-length buffers.
pub const BINARY_PARAMS: &'static str = "(const float* a, const float* b, float* out, unsigned int n) {\n";
/// Loads `x` and `y`, up to the expression stored in `out[i]`.
pub const BINARY_BODY: &'static str = "    if (i < n) { float x = a[i]; float y = b[i]; out[i] = ";
/// Closes the bounds check and the kernel.
pub const BODY_END: &'static str = "; }\n}\n";
/// Leading parameters of the broadcasting binary kernel (dims and strides follow).
pub const BC_PARAMS: &'static str = "(const float* a, const float* b, float* out, unsigned int n";
/// Opens the broadcasting kernel: bounds check and the offset accumulators.
pub const BC_PRELUDE: &'static str = ") {\n    unsigned int i = blockIdx.x * blockDim.x + threadIdx.x;\n    if (i >= n) return;\n    unsigned int rem = i;\n    unsigned int ia = 0;\n    unsigned int ib = 0;\n    unsigned int c;\n";
/// Loads both operands at their offsets, up to the combined expression.
pub const BC_LOADS: &'static str = "    float x = a[ia]; float y = b[ib];\n    out[i] = ";
/// Closes the final statement and the kernel.
pub const STMT_END: &'static str = ";\n}\n";
/// Single-threaded full reduction, up to the value stored in `out[0]`.
pub const REDUCE_BODY: &'static str = "    float acc = 0.0f;\n    for (unsigned int i = 0; i < n; ++i) acc += x[i];\n    out[0] = ";
/// Parameters and body of the per-dim sum kernel.
pub const SUM_DIM_REST: &'static str = "(const float* x, float* out, unsigned int n, unsigned int red, unsigned int inner) {\n    unsigned int i = blockIdx.x * blockDim.x + threadIdx.x;\n    if (i >= n) return;\n    unsigned int o = i / inner;\n    unsigned int r = i % inner;\n    float acc = 0.0f;\n    for (unsigned int k = 0; k < red; ++k) acc += x[(o * red + k) * inner + r];\n    out[i] = acc;\n}\n";
/// Parameters and body of the fill kernel.
pub const FILL_REST: &'static str = "(float* out, unsigned int n, float value) {\n    unsigned int i = blockIdx.x * blockDim.x + threadIdx.x;\n    if (i < n) out[i] = value;\n}\n";

/// The start of every generated module, up to the kernel's parameter list.
pub open spec fn kernel_head() -> Seq<char> {
    HEAD@ + KERNEL_NAME@
}

// ---------------------------------------------------------------------------
// Elementwise expressions

/// An elementwise unary kernel, with the scalars of the parametrized kinds
/// given as CUDA C literals (as the host spells an `f32`, e.g. `2.5f`).
#[derive(Clone, Debug)]
pub enum UnaryOp {
    Neg,
    Relu,
    Exp,
    Sigmoid,
    Tanh,
    Sqrt,
    Abs,
    Log,
    /// `x^p`, with the literal of `p`.
    Powf(String),
    /// `min(max(x, min), max)`, with the literals of both bounds.
    Clamp { min: String, max: String },
    /// The relu gradient mask: 1 where the input is positive, else 0.
    Gtz,
}

/// CUDA C expression computing `op` of the input element `v`.
pub open spec fn unary_expr_text(op: UnaryOp) -> Seq<char> {
    match op {
        UnaryOp::Neg => "-v"@,
        UnaryOp::Relu => "((v > 0.0f || isnan(v)) ? v : 0.0f)"@,
        UnaryOp::Exp => "expf(v)"@,
        UnaryOp::Sigmoid => "1.0f / (1.0f + expf(-v))"@,
        UnaryOp::Tanh => "tanhf(v)"@,
        UnaryOp::Sqrt => "sqrtf(v)"@,
        UnaryOp::Abs => "fabsf(v)"@,
        UnaryOp::Log => "logf(v)"@,
        UnaryOp::Powf(p) => "powf(v, "@ + p@ + ")"@,
        UnaryOp::Clamp { min, max } => "(isnan(v) ? v : fminf(fmaxf(v, "@ + min@ + "), "@ + max@
            + "))"@,
        UnaryOp::Gtz => "(v > 0.0f) ? 1.0f : 0.0f"@,
    }
}

/// CUDA C expression computing `op` of the input element `v`. Relu is not
/// `fmaxf`, which drops NaN; Clamp passes NaN through explicitly and, as a
/// max-then-min chain, yields `max` everywhere when `min > max`.
pub fn unary_expr(op: &UnaryOp) -> (s: String)
    ensures
        s@ == unary_expr_text(*op),
{
    match op {
        UnaryOp::Neg => String::from_str("-v"),
        UnaryOp::Relu => String::from_str("((v > 0.0f || isnan(v)) ? v : 0.0f)"),
        UnaryOp::Exp => String::from_str("expf(v)"),
        UnaryOp::Sigmoid => String::from_str("1.0f / (1.0f + expf(-v))"),
        UnaryOp::Tanh => String::from_str("tanhf(v)"),
        UnaryOp::Sqrt => String::from_str("sqrtf(v)"),
        UnaryOp::Abs => String::from_str("fabsf(v)"),
        UnaryOp::Log => String::from_str("logf(v)"),
        UnaryOp::Powf(p) => {
            let mut s = String::from_str("powf(v, ");
            s.append(p.as_str());
            s.append(")");
            s
        },
        UnaryOp::Clamp { min, max } => {
            let mut s = String::from_str("(isnan(v) ? v : fminf(fmaxf(v, ");
            s.append(min.as_str());
            s.append("), ");
            s.append(max.as_str());
            s.append("))");
            s
        },
        UnaryOp::Gtz => String::from_str("(v > 0.0f) ? 1.0f : 0.0f"),
    }
}

/// CUDA C expression combining elements `x` (from a) and `y` (from b).
pub open spec fn binary_expr_text(kind: BinaryKind) -> Seq<char> {
    match kind {
        BinaryKind::Add => "x + y"@,
        BinaryKind::Sub => "x - y"@,
        BinaryKind::Mul => "x * y"@,
        BinaryKind::Div => "x / y"@,
    }
}

/// CUDA C expression combining elements `x` (from a) and `y` (from b).
pub fn binary_expr(kind: BinaryKind) -> (s: &'static str)
    ensures
        s@ == binary_expr_text(kind),
{
    match kind {
        BinaryKind::Add => "x + y",
        BinaryKind::Sub => "x - y",
        BinaryKind::Mul => "x * y",
        BinaryKind::Div => "x / y",
    }
}

// ---------------------------------------------------------------------------
// Whole modules

/// Source of the one-thread-per-element unary kernel.
pub open spec fn unary_source_text(op: UnaryOp) -> Seq<char> {
    kernel_head() + UNARY_PARAMS@ + THREAD_INDEX@ + UNARY_BODY@ + unary_expr_text(op) + BODY_END@
}

/// Source of the one-thread-per-element unary kernel for `op`.
pub fn unary_source(op: &UnaryOp) -> (s: String)
    ensures
        s@ == unary_source_text(*op),
{
    let mut s = String::from_str(HEAD);
    s.append(KERNEL_NAME);
    s.append(UNARY_PARAMS);
    s.append(THREAD_INDEX);
    s.append(UNARY_BODY);
    let e = unary_expr(op);
    s.append(e.as_str());
    s.append(BODY_END);
    s
}

proof fn lemma_cancel_frame(pre: Seq<char>, x: Seq<char>, y: Seq<char>, post: Seq<char>)
    requires
        pre + x + post == pre + y + post,
    ensures
        x == y,
{
    let l = pre + x + post;
    let r = pre + y + post;
    assert(l.len() == r.len());
    assert(x =~= l.subrange(pre.len() as int, (pre.len() + x.len()) as int));
    assert(y =~= r.subrange(pre.len() as int, (pre.len() + y.len()) as int));
}

/// Kernels are cached by their source text, so a source must determine the
/// exponent of a `Powf` kernel: equal sources mean equal exponents.
pub proof fn lemma_powf_source_determines_exponent(p: String, q: String)
    requires
        unary_source_text(UnaryOp::Powf(p)) == unary_source_text(UnaryOp::Powf(q)),
    ensures
        p@ == q@,
{
    let pre = kernel_head() + UNARY_PARAMS@ + THREAD_INDEX@ + UNARY_BODY@;
    lemma_cancel_frame(pre, unary_expr_text(UnaryOp::Powf(p)), unary_expr_text(UnaryOp::Powf(q)), BODY_END@);
    lemma_cancel_frame("powf(v, "@, p@, q@, ")"@);
}

/// No `)` occurs in `s` (true of every literal the host spells for an f32).
pub open spec fn paren_free(s: Seq<char>) -> bool {
    forall|i: int| 0 <= i < s.len() ==> s[i] != ')'
}

/// Kernels are cached by their source text, so a source must determine the
/// bounds of a `Clamp` kernel: equal sources mean equal bounds, for bounds
/// spelled without `)`.
pub proof fn lemma_clamp_source_determines_bounds(min1: String, max1: String, min2: String, max2: String)
    requires
        paren_free(min1@),
        paren_free(min2@),
        unary_source_text(UnaryOp::Clamp { min: min1, max: max1 }) == unary_source_text(
            UnaryOp::Clamp { min: min2, max: max2 },
        ),
    ensures
        min1@ == min2@,
        max1@ == max2@,
{
    let pre = kernel_head() + UNARY_PARAMS@ + THREAD_INDEX@ + UNARY_BODY@;
    let e1 = unary_expr_text(UnaryOp::Clamp { min: min1, max: max1 });
    let e2 = unary_expr_text(UnaryOp::Clamp { min: min2, max: max2 });
    lemma_cancel_frame(pre, e1, e2, BODY_END@);
    let a = "(isnan(v) ? v : fminf(fmaxf(v, "@;
    let b = "), "@;
    let c = "))"@;
    reveal_strlit("(isnan(v) ? v : fminf(fmaxf(v, ");
    reveal_strlit("), ");
    reveal_strlit("))");
    assert(e1 == a + min1@ + b + max1@ + c);
    assert(e2 == a + min2@ + b + max2@ + c);
    if min1@.len() < min2@.len() {
        let k = (a.len() + min1@.len()) as int;
        assert(e1[k] == ')');
        assert(e2[k] == min2@[min1@.len() as int]);
        assert(false);
    }
    if min2@.len() < min1@.len() {
        let k = (a.len() + min2@.len()) as int;
        assert(e2[k] == ')');
        assert(e1[k] == min1@[min2@.len() as int]);
        assert(false);
    }
    assert(min1@ =~= e1.subrange(a.len() as int, (a.len() + min1@.len()) as int));
    assert(min2@ =~= e2.subrange(a.len() as int, (a.len() + min2@.len()) as int));
    lemma_cancel_frame(a + min1@ + b, max1@, max2@, c);
}

/// Source of the one-thread-per-element binary kernel over equal-length
/// operands.
pub open spec fn binary_source_text(kind: BinaryKind) -> Seq<char> {
    kernel_head() + BINARY_PARAMS@ + THREAD_INDEX@ + BINARY_BODY@ + binary_expr_text(kind)
        + BODY_END@
}

/// Source of the one-thread-per-element binary kernel for `kind`.
pub fn binary_source(kind: BinaryKind) -> (s: String)
    ensures
        s@ == binary_source_text(kind),
{
    let mut s = String::from_str(HEAD);
    s.append(KERNEL_NAME);
    s.append(BINARY_PARAMS);
    s.append(THREAD_INDEX);
    s.append(BINARY_BODY);
    s.append(binary_expr(kind));
    s.append(BODY_END);
    s
}

/// `", unsigned int <prefix>0, ..., , unsigned int <prefix>(m-1)"`.
pub open spec fn dim_params(prefix: Seq<char>, m: nat) -> Seq<char>
    decreases m,
{
    if m == 0 {
        Seq::empty()
    } else {
        dim_params(prefix, (m - 1) as nat) + ", unsigned int "@ + prefix + decimal((m - 1) as nat)
    }
}

/// The divmod step of the broadcasting kernel for output dim `d`.
pub open spec fn divmod_line(d: nat) -> Seq<char> {
    "    c = rem % d"@ + decimal(d) + "; rem /= d"@ + decimal(d) + "; ia += c * sa"@ + decimal(d)
        + "; ib += c * sb"@ + decimal(d) + ";\n"@
}

/// The first `m` divmod steps of a rank-`rank` kernel: dims `rank-1` down to
/// `rank-m`, innermost first.
pub open spec fn divmod_lines(rank: nat, m: nat) -> Seq<char>
    decreases m,
{
    if m == 0 {
        Seq::empty()
    } else {
        divmod_lines(rank, (m - 1) as nat) + divmod_line((rank - m) as nat)
    }
}

/// Source of the broadcasting binary kernel of the given rank: the output
/// shape and both operands' strides are kernel parameters, and each thread
/// peels its flat index into coordinates innermost dim first.
pub open spec fn binary_bc_source_text(kind: BinaryKind, rank: nat) -> Seq<char> {
    kernel_head() + BC_PARAMS@ + dim_params("d"@, rank) + dim_params("sa"@, rank) + dim_params(
        "sb"@,
        rank,
    ) + BC_PRELUDE@ + divmod_lines(rank, rank) + BC_LOADS@ + binary_expr_text(kind) + STMT_END@
}

proof fn lemma_decimal_len_mono(a: nat, b: nat)
    requires
        a <= b,
    ensures
        decimal(a).len() <= decimal(b).len(),
    decreases b,
{
    if b >= 10 {
        if a >= 10 {
            lemma_decimal_len_mono(a / 10, b / 10);
        } else {
            lemma_decimal_round_trip(b / 10);
        }
    }
}

proof fn lemma_divmod_lines_len_mono(rank: nat, m: nat)
    requires
        m <= rank,
    ensures
        divmod_lines(rank, m).len() <= divmod_lines(rank + 1, m).len(),
    decreases m,
{
    if m > 0 {
        lemma_divmod_lines_len_mono(rank, (m - 1) as nat);
        lemma_decimal_len_mono((rank - m) as nat, (rank + 1 - m) as nat);
    }
}

proof fn lemma_bc_source_len_same_kind(k1: BinaryKind, k2: BinaryKind, rank: nat)
    ensures
        binary_bc_source_text(k1, rank).len() == binary_bc_source_text(k2, rank).len(),
{
    reveal_strlit("x + y");
    reveal_strlit("x - y");
    reveal_strlit("x * y");
    reveal_strlit("x / y");
    assert(binary_expr_text(k1).len() == 5 && binary_expr_text(k2).len() == 5);
}

proof fn lemma_bc_source_len_grows(kind: BinaryKind, r1: nat, r2: nat)
    requires
        r1 < r2,
    ensures
        binary_bc_source_text(kind, r1).len() < binary_bc_source_text(kind, r2).len(),
    decreases r2,
{
    let r = (r2 - 1) as nat;
    if r1 < r {
        lemma_bc_source_len_grows(kind, r1, r);
    }
    reveal_strlit(", unsigned int ");
    assert(dim_params("d"@, r).len() < dim_params("d"@, r2).len());
    assert(dim_params("sa"@, r).len() < dim_params("sa"@, r2).len());
    assert(dim_params("sb"@, r).len() < dim_params("sb"@, r2).len());
    lemma_divmod_lines_len_mono(r, r);
    assert(divmod_lines(r2, r2) == divmod_lines(r2, r) + divmod_line(0));
    assert(divmod_lines(r, r).len() <= divmod_lines(r2, r2).len());
}

/// Kernels are cached by their source text, so the broadcasting kernel's
/// source must determine both its binary kind and its rank: equal sources
/// mean the same kind and the same rank.
pub proof fn lemma_bc_source_determines_kind_and_rank(k1: BinaryKind, r1: nat, k2: BinaryKind, r2: nat)
    requires
        binary_bc_source_text(k1, r1) == binary_bc_source_text(k2, r2),
    ensures
        k1 == k2,
        r1 == r2,
{
    lemma_bc_source_len_same_kind(k1, k2, r1);
    lemma_bc_source_len_same_kind(k1, k2, r2);
    if r1 < r2 {
        lemma_bc_source_len_grows(k2, r1, r2);
    } else if r2 < r1 {
        lemma_bc_source_len_grows(k2, r2, r1);
    }
    assert(r1 == r2);
    let pre = kernel_head() + BC_PARAMS@ + dim_params("d"@, r1) + dim_params("sa"@, r1) + dim_params("sb"@, r1)
        + BC_PRELUDE@ + divmod_lines(r1, r1) + BC_LOADS@;
    assert(binary_bc_source_text(k1, r1) == pre + binary_expr_text(k1) + STMT_END@);
    assert(binary_bc_source_text(k2, r1) == pre + binary_expr_text(k2) + STMT_END@);
    lemma_cancel_frame(pre, binary_expr_text(k1), binary_expr_text(k2), STMT_END@);
    reveal_strlit("x + y");
    reveal_strlit("x - y");
    reveal_strlit("x * y");
    reveal_strlit("x / y");
    let e1 = binary_expr_text(k1);
    let e2 = binary_expr_text(k2);
    assert(e1[2] == e2[2]);
    match k1 {
        BinaryKind::Add => { assert(k2 is Add); },
        BinaryKind::Sub => { assert(k2 is Sub); },
        BinaryKind::Mul => { assert(k2 is Mul); },
        BinaryKind::Div => { assert(k2 is Div); },
    }
}

fn push_dim_params(s: &mut String, prefix: &str, rank: usize)
    ensures
        final(s)@ == old(s)@ + dim_params(prefix@, rank as nat),
{
    let mut d: usize = 0;
    while d < rank
        invariant
            d <= rank,
            s@ == old(s)@ + dim_params(prefix@, d as nat),
        decreases rank - d,
    {
        s.append(", unsigned int ");
        s.append(prefix);
        push_decimal(s, d);
        assert(s@ =~= old(s)@ + dim_params(prefix@, (d + 1) as nat));
        d = d + 1;
    }
}

/// Broadcasting binary kernel for `kind`, generated per rank: one compiled
/// function serves every output shape of that rank.
pub fn binary_bc_source(kind: BinaryKind, rank: usize) -> (s: String)
    requires
        rank >= 1,
    ensures
        s@ == binary_bc_source_text(kind, rank as nat),
{
    let mut s = String::from_str(HEAD);
    s.append(KERNEL_NAME);
    s.append(BC_PARAMS);
    push_dim_params(&mut s, "d", rank);
    push_dim_params(&mut s, "sa", rank);
    push_dim_params(&mut s, "sb", rank);
    s.append(BC_PRELUDE);
    let ghost before_divmod = s@;
    let mut m: usize = 0;
    while m < rank
        invariant
            m <= rank,
            s@ == before_divmod + divmod_lines(rank as nat, m as nat),
        decreases rank - m,
    {
        let d = rank - 1 - m;
        s.append("    c = rem % d");
        push_decimal(&mut s, d);
        s.append("; rem /= d");
        push_decimal(&mut s, d);
        s.append("; ia += c * sa");
        push_decimal(&mut s, d);
        s.append("; ib += c * sb");
        push_decimal(&mut s, d);
        s.append(";\n");
        assert(s@ =~= before_divmod + divmod_lines(rank as nat, (m + 1) as nat));
        m = m + 1;
    }
    s.append(BC_LOADS);
    s.append(binary_expr(kind));
    s.append(STMT_END);
    assert(s@ =~= binary_bc_source_text(kind, rank as nat));
    s
}

/// The value a full reduction writes: the sum, or the sum over `n` (so an
/// empty mean is 0/0 = NaN, as on the CPU).
pub open spec fn reduce_finish_text(kind: ReduceKind) -> Seq<char> {
    match kind {
        ReduceKind::Sum => "acc"@,
        ReduceKind::Mean => "acc / (float)n"@,
    }
}

/// Source of the single-threaded full reduction kernel.
pub open spec fn reduce_source_text(kind: ReduceKind) -> Seq<char> {
    kernel_head() + UNARY_PARAMS@ + REDUCE_BODY@ + reduce_finish_text(kind) + STMT_END@
}

/// Full-tensor reduction to a single element. One thread loops the whole
/// buffer: correct but serial.
pub fn reduce_source(kind: ReduceKind) -> (s: String)
    ensures
        s@ == reduce_source_text(kind),
{
    let mut s = String::from_str(HEAD);
    s.append(KERNEL_NAME);
    s.append(UNARY_PARAMS);
    s.append(REDUCE_BODY);
    match kind {
        ReduceKind::Sum => s.append("acc"),
        ReduceKind::Mean => s.append("acc / (float)n"),
    }
    s.append(STMT_END);
    s
}

/// Source of the per-dim sum kernel: one thread per keepdim-layout output
/// element (o, r), summing `x[(o*red + k)*inner + r]` over k.
pub open spec fn sum_dim_source_text() -> Seq<char> {
    kernel_head() + SUM_DIM_REST@
}

/// Sum over one dim via the outer/inner decomposition.
pub fn sum_dim_source() -> (s: String)
    ensures
        s@ == sum_dim_source_text(),
{
    let mut s = String::from_str(HEAD);
    s.append(KERNEL_NAME);
    s.append(SUM_DIM_REST);
    s
}

/// Source of the constant-fill kernel; the value is a kernel parameter.
pub open spec fn fill_source_text() -> Seq<char> {
    kernel_head() + FILL_REST@
}

/// Constant fill; the value is a kernel parameter so one compiled function
/// serves every fill.
pub fn fill_source() -> (s: String)
    ensures
        s@ == fill_source_text(),
{
    let mut s = String::from_str(HEAD);
    s.append(KERNEL_NAME);
    s.append(FILL_REST);
    s
}

// ---------------------------------------------------------------------------
// Broadcast strides

/// Product of `s[d..]`, each dim taken as the `u32` the kernel sees.
pub open spec fn suffix_prod32(s: Seq<usize>, d: int) -> int
    decreases s.len() - d,
{
    if d >= s.len() {
        1
    } else {
        (#[verifier::truncate] (s[d] as u32)) as int * suffix_prod32(s, d + 1)
    }
}

/// The rank the broadcasting kernel runs at for an output of rank
/// `out_rank`: rank-0 outputs run as a single rank-1 element.
pub open spec fn launch_rank(out_rank: nat) -> nat {
    if out_rank >= 1 { out_rank } else { 1 }
}

/// Element strides for reading a contiguous buffer of shape `in_shape` as if
/// broadcast (numpy right-aligned rules) to an output of rank `out_rank`:
/// padded dims and size-1 dims get stride 0, every other dim its row-major
/// stride.
pub open spec fn broadcast_strides_of(in_shape: Seq<usize>, out_rank: nat) -> Seq<u32> {
    let rank = launch_rank(out_rank);
    let pad = rank - in_shape.len();
    Seq::new(
        rank,
        |j: int|
            if j < pad || in_shape[j - pad] == 1 {
                0u32
            } else {
                suffix_prod32(in_shape, j - pad + 1) as u32
            },
    )
}

/// Host-side companion of [`binary_bc_source`]: the strides of `in_shape`
/// broadcast to `out_shape`, `max(out_shape.len(), 1)` of them.
pub fn broadcast_strides(in_shape: &[usize], out_shape: &[usize]) -> (strides: Vec<u32>)
    requires
        in_shape.len() <= launch_rank(out_shape.len() as nat),
        forall|d: int| 0 <= d <= in_shape.len() ==> suffix_prod32(in_shape@, d) <= u32::MAX,
    ensures
        strides@ == broadcast_strides_of(in_shape@, out_shape.len() as nat),
{
    let rank = if out_shape.len() > 1 { out_shape.len() } else { 1 };
    let mut strides: Vec<u32> = vec![0u32; rank];
    let pad = rank - in_shape.len();
    let mut stride: u32 = 1;
    let mut d: usize = in_shape.len();
    let ghost spec = broadcast_strides_of(in_shape@, out_shape.len() as nat);
    while d > 0
        invariant
            d <= in_shape.len(),
            rank == launch_rank(out_shape.len() as nat),
            pad == rank - in_shape.len(),
            spec == broadcast_strides_of(in_shape@, out_shape.len() as nat),
            stride as int == suffix_prod32(in_shape@, d as int),
            forall|e: int| 0 <= e <= in_shape.len() ==> suffix_prod32(in_shape@, e) <= u32::MAX,
            strides@.len() == rank,
            forall|j: int| 0 <= j < rank ==> #[trigger] strides@[j] == (if j < pad + d { 0u32 } else { spec[j] }),
        decreases d,
    {
        d = d - 1;
        if in_shape[d] != 1 {
            strides.set(pad + d, stride);
        }
        let dim = #[verifier::truncate] (in_shape[d] as u32);
        assert(suffix_prod32(in_shape@, d as int) == dim as int * suffix_prod32(in_shape@, d + 1));
        stride = dim * stride;
    }
    assert(strides@ =~= spec);
    strides
}

/// Every trailing product of `s`, each dim taken as the `u32` the kernel
/// sees, fits in a `u32`: the kernel's strides of `s` can be computed.
pub open spec fn strides_fit_u32(s: Seq<usize>) -> bool {
    forall|d: int| 0 <= d <= s.len() ==> #[trigger] suffix_prod32(s, d) <= u32::MAX
}

/// Whether the broadcasting kernel's strides of `shape` fit in a `u32`.
pub fn strides_fit(shape: &[usize]) -> (b: bool)
    ensures
        b == strides_fit_u32(shape@),
{
    let mut acc: u64 = 1;
    let mut d: usize = shape.len();
    while d > 0
        invariant
            d <= shape@.len(),
            acc as int == suffix_prod32(shape@, d as int),
            acc <= u32::MAX,
            forall|e: int| d <= e <= shape@.len() ==> #[trigger] suffix_prod32(shape@, e) <= u32::MAX,
        decreases d,
    {
        d = d - 1;
        let dim = #[verifier::truncate] (shape[d] as u32);
        assert(suffix_prod32(shape@, d as int) == dim as int * suffix_prod32(shape@, d + 1));
        assert(dim as int * acc <= u32::MAX as int * u32::MAX as int) by (nonlinear_arith)
            requires dim <= u32::MAX, acc <= u32::MAX, 0 <= dim, 0 <= acc;
        let p = (dim as u64) * acc;
        if p > 0xffff_ffffu64 {
            assert(!(suffix_prod32(shape@, d as int) <= u32::MAX));
            return false;
        }
        acc = p;
    }
    true
}

/// The shape the broadcasting kernel is launched over: the output shape, or
/// a single element for a rank-0 output.
pub open spec fn launch_shape(out_shape: Seq<usize>) -> Seq<usize> {
    if out_shape.len() == 0 { seq![1usize] } else { out_shape }
}

/// `c` is a coordinate inside `shape`.
pub open spec fn in_bounds(c: Seq<int>, shape: Seq<usize>) -> bool {
    &&& c.len() == shape.len()
    &&& forall|j: int| 0 <= j < c.len() ==> 0 <= #[trigger] c[j] < shape[j]
}

/// `sum_{k >= j} c[k] * st[k]`: the offset a kernel thread accumulates.
pub open spec fn dot_from(c: Seq<int>, st: Seq<u32>, j: int) -> int
    decreases c.len() - j,
{
    if j < 0 || j >= c.len() {
        0
    } else {
        c[j] * st[j] + dot_from(c, st, j + 1)
    }
}

/// The coordinate in `in_shape` that output coordinate `c` reads under
/// broadcasting: aligned right, and 0 along every size-1 input dim.
pub open spec fn source_coord(in_shape: Seq<usize>, c: Seq<int>) -> Seq<int> {
    let pad = c.len() - in_shape.len();
    Seq::new(in_shape.len(), |d: int| if in_shape[d] == 1 { 0 } else { c[pad + d] })
}

/// Row-major offset of coordinate `x` in `shape`, summed from dim `d` on.
pub open spec fn row_major_from(shape: Seq<usize>, x: Seq<int>, d: int) -> int
    decreases shape.len() - d,
{
    if d < 0 || d >= shape.len() {
        0
    } else {
        x[d] * suffix_prod32(shape, d + 1) + row_major_from(shape, x, d + 1)
    }
}

proof fn lemma_suffix_prod32_nonneg(s: Seq<usize>, d: int)
    ensures
        suffix_prod32(s, d) >= 0,
    decreases s.len() - d,
{
    if d < s.len() {
        lemma_suffix_prod32_nonneg(s, d + 1);
        let a = (#[verifier::truncate] (s[d] as u32)) as int;
        let b = suffix_prod32(s, d + 1);
        assert(a * b >= 0) by (nonlinear_arith)
            requires
                a >= 0,
                b >= 0,
        ;
    }
}

proof fn lemma_row_major_bound(shape: Seq<usize>, x: Seq<int>, d: int)
    requires
        0 <= d <= shape.len(),
        x.len() == shape.len(),
        forall|k: int| 0 <= k < shape.len() ==> 0 <= #[trigger] x[k] < shape[k],
        forall|k: int| 0 <= k < shape.len() ==> #[trigger] shape[k] <= u32::MAX,
    ensures
        0 <= row_major_from(shape, x, d) < suffix_prod32(shape, d),
    decreases shape.len() - d,
{
    if d < shape.len() {
        lemma_row_major_bound(shape, x, d + 1);
        lemma_suffix_prod32_nonneg(shape, d + 1);
        let p = suffix_prod32(shape, d + 1);
        let n = shape[d] as int;
        assert((#[verifier::truncate] (shape[d] as u32)) as int == n);
        assert(x[d] * p <= (n - 1) * p) by (nonlinear_arith)
            requires
                0 <= x[d] <= n - 1,
                p >= 0,
        ;
        assert(x[d] * p >= 0) by (nonlinear_arith)
            requires
                0 <= x[d],
                p >= 0,
        ;
        assert((n - 1) * p + p == n * p) by (nonlinear_arith);
    }
}

proof fn lemma_dot_matches_source(in_shape: Seq<usize>, out_shape: Seq<usize>, c: Seq<int>, j: int)
    requires
        broadcasts_to(in_shape, launch_shape(out_shape)),
        in_bounds(c, launch_shape(out_shape)),
        0 <= j <= c.len(),
        forall|d: int| 0 <= d <= in_shape.len() ==> suffix_prod32(in_shape, d) <= u32::MAX,
    ensures
        ({
            let pad = c.len() - in_shape.len();
            let st = broadcast_strides_of(in_shape, out_shape.len() as nat);
            dot_from(c, st, j) == row_major_from(
                in_shape,
                source_coord(in_shape, c),
                if j < pad { 0 } else { j - pad },
            )
        }),
    decreases c.len() - j,
{
    let pad = c.len() - in_shape.len();
    let st = broadcast_strides_of(in_shape, out_shape.len() as nat);
    if j < c.len() {
        lemma_dot_matches_source(in_shape, out_shape, c, j + 1);
        if j < pad {
            assert(st[j] == 0);
            assert(c[j] * 0 == 0);
        } else {
            let d = j - pad;
            let x = source_coord(in_shape, c);
            if in_shape[d] == 1 {
                assert(st[j] == 0);
                assert(c[j] * 0 == 0);
                assert(x[d] == 0);
            } else {
                lemma_suffix_prod32_nonneg(in_shape, d + 1);
                assert(st[j] as int == suffix_prod32(in_shape, d + 1));
                assert(x[d] == c[j]);
            }
        }
    }
}

/// The broadcasting kernel reads the right element: for every output
/// coordinate `c`, the offset a thread accumulates from the strides of
/// [`broadcast_strides`] is the row-major offset, in the contiguous input
/// buffer, of the coordinate numpy broadcasting reads (right-aligned, 0
/// along size-1 dims), and so it lies inside that buffer.
pub proof fn lemma_broadcast_offset(in_shape: Seq<usize>, out_shape: Seq<usize>, c: Seq<int>)
    requires
        broadcasts_to(in_shape, launch_shape(out_shape)),
        in_bounds(c, launch_shape(out_shape)),
        forall|d: int| 0 <= d < in_shape.len() ==> #[trigger] in_shape[d] <= u32::MAX,
        forall|d: int| 0 <= d <= in_shape.len() ==> suffix_prod32(in_shape, d) <= u32::MAX,
    ensures
        dot_from(c, broadcast_strides_of(in_shape, out_shape.len() as nat), 0) == row_major_from(
            in_shape,
            source_coord(in_shape, c),
            0,
        ),
        0 <= row_major_from(in_shape, source_coord(in_shape, c), 0) < suffix_prod32(in_shape, 0),
{
    lemma_dot_matches_source(in_shape, out_shape, c, 0);
    let pad = c.len() - in_shape.len();
    let x = source_coord(in_shape, c);
    assert forall|k: int| 0 <= k < in_shape.len() implies 0 <= #[trigger] x[k] < in_shape[k] by {
        if in_shape[k] != 1 {
            assert(in_shape[k] == launch_shape(out_shape)[pad + k]);
        }
    }
    lemma_row_major_bound(in_shape, x, 0);
}

/// What every generated module starts with: the declaration of the one
/// kernel it exports, under [`KERNEL_NAME`], up to its parameter list.
pub open spec fn kernel_decl() -> Seq<char> {
    kernel_head() + "("@
}

/// Every generated module declares its kernel under [`KERNEL_NAME`], so the
/// backend can load that one name from whichever module it compiled.
pub proof fn lemma_sources_declare_the_kernel(op: UnaryOp, kind: BinaryKind, rank: nat, rk: ReduceKind)
    ensures
        unary_source_text(op).subrange(0, kernel_decl().len() as int) == kernel_decl(),
        binary_source_text(kind).subrange(0, kernel_decl().len() as int) == kernel_decl(),
        binary_bc_source_text(kind, rank).subrange(0, kernel_decl().len() as int) == kernel_decl(),
        reduce_source_text(rk).subrange(0, kernel_decl().len() as int) == kernel_decl(),
        sum_dim_source_text().subrange(0, kernel_decl().len() as int) == kernel_decl(),
        fill_source_text().subrange(0, kernel_decl().len() as int) == kernel_decl(),
{
    reveal_strlit("(");
    reveal_strlit("(const float* x, float* out, unsigned int n) {\n");
    reveal_strlit("(const float* a, const float* b, float* out, unsigned int n) {\n");
    reveal_strlit("(const float* a, const float* b, float* out, unsigned int n");
    reveal_strlit("(const float* x, float* out, unsigned int n, unsigned int red, unsigned int inner) {\n    unsigned int i = blockIdx.x * blockDim.x + threadIdx.x;\n    if (i >= n) return;\n    unsigned int o = i / inner;\n    unsigned int r = i % inner;\n    float acc = 0.0f;\n    for (unsigned int k = 0; k < red; ++k) acc += x[(o * red + k) * inner + r];\n    out[i] = acc;\n}\n");
    reveal_strlit("(float* out, unsigned int n, float value) {\n    unsigned int i = blockIdx.x * blockDim.x + threadIdx.x;\n    if (i < n) out[i] = value;\n}\n");
    let d = kernel_decl();
    assert(unary_source_text(op).subrange(0, d.len() as int) =~= d);
    assert(binary_source_text(kind).subrange(0, d.len() as int) =~= d);
    assert(binary_bc_source_text(kind, rank).subrange(0, d.len() as int) =~= d);
    assert(reduce_source_text(rk).subrange(0, d.len() as int) =~= d);
    assert(sum_dim_source_text().subrange(0, d.len() as int) =~= d);
    assert(fill_source_text().subrange(0, d.len() as int) =~= d);
}

} // verus!
