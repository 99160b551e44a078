//! Host-side decisions of the CUDA backend: which runtime library is
//! missing, how driver errors and foreign buffers are reported, the launch
//! parameters of the broadcasting kernel, and the cuBLAS gemm parameters
//! that compute a row-major product.
use vstd::prelude::*;
use vstd::string::*;
use crate::device::{device_text, Device};
use crate::error::Error;
use crate::kernels::{broadcast_strides, broadcast_strides_of, launch_rank, launch_shape, strides_fit_u32};
use crate::shape::{numel, shape_numel, sizes_fit};

verus! {

/// Report of a CUDA driver failure `detail` during `op`.
pub fn cuda_err(op: &'static str, detail: &str) -> (e: Error)
    ensures
        e matches Error::Unsupported { op: o, msg } && o == op && msg@ == "CUDA error: "@ + detail@,
{
    let mut msg = String::from_str("CUDA error: ");
    msg.append(detail);
    Error::Unsupported { op, msg }
}

/// Report of a missing CUDA driver library.
pub const NO_DRIVER: &'static str = "CUDA driver library (libcuda) not found; no GPU driver installed";
/// Report of a missing NVRTC library.
pub const NO_NVRTC: &'static str = "NVRTC library (libnvrtc) not found; install the CUDA toolkit runtime";
/// Report of a missing cuBLAS library.
pub const NO_CUBLAS: &'static str = "cuBLAS library (libcublas) not found; install the CUDA toolkit runtime";

/// Whether a backend can be created given which runtime libraries load:
/// the first missing one, in the order driver, NVRTC, cuBLAS, is reported.
pub fn check_cuda_libraries(driver: bool, nvrtc: bool, cublas: bool) -> (r: Result<(), String>)
    ensures
        !driver ==> (r matches Err(m) && m@ == NO_DRIVER@),
        driver && !nvrtc ==> (r matches Err(m) && m@ == NO_NVRTC@),
        driver && nvrtc && !cublas ==> (r matches Err(m) && m@ == NO_CUBLAS@),
        driver && nvrtc && cublas ==> r is Ok,
{
    if !driver {
        return Err(String::from_str(NO_DRIVER));
    }
    if !nvrtc {
        return Err(String::from_str(NO_NVRTC));
    }
    if !cublas {
        return Err(String::from_str(NO_CUBLAS));
    }
    Ok(())
}

/// Error for a device buffer another backend allocated.
pub fn foreign_buffer(op: &'static str) -> (e: Error)
    ensures
        e matches Error::Unsupported { op: o, msg } && o == op
            && msg@ == "device buffer was not allocated by the CUDA backend"@,
{
    Error::Unsupported { op, msg: String::from_str("device buffer was not allocated by the CUDA backend") }
}

/// A buffer can only be used by the backend of the device it lives on.
pub fn check_resident(op: &'static str, buffer: Device, serves: Device) -> (r: Result<(), Error>)
    ensures
        buffer == serves ==> r is Ok,
        buffer != serves ==> (r matches Err(Error::Unsupported { op: o, msg }) && o == op
            && msg@ == "buffer lives on "@ + device_text(buffer) + " but this backend serves "@ + device_text(serves)),
{
    if buffer != serves {
        let mut msg = String::from_str("buffer lives on ");
        buffer.push_label(&mut msg);
        msg.append(" but this backend serves ");
        serves.push_label(&mut msg);
        return Err(Error::Unsupported { op, msg });
    }
    Ok(())
}

// ---------------------------------------------------------------------------
// Broadcasting kernel launch

/// Launch parameters of the broadcasting binary kernel.
#[derive(Clone, Debug)]
pub struct BroadcastLaunch {
    /// Output dims as kernel parameters (a single 1 for a rank-0 output).
    pub dims: Vec<u32>,
    /// Strides of the first operand's buffer.
    pub stra: Vec<u32>,
    /// Strides of the second operand's buffer.
    pub strb: Vec<u32>,
    /// Number of output elements, one thread each.
    pub n: usize,
}

/// The kernel parameters for `a` (shape `sa`) op `b` (shape `sb`) broadcast
/// to `out_shape`.
pub fn broadcast_launch(sa: &[usize], sb: &[usize], out_shape: &[usize]) -> (l: BroadcastLaunch)
    requires
        sa@.len() <= launch_rank(out_shape@.len() as nat),
        sb@.len() <= launch_rank(out_shape@.len() as nat),
        strides_fit_u32(sa@),
        strides_fit_u32(sb@),
        sizes_fit(out_shape@),
    ensures
        l.dims@.len() == launch_shape(out_shape@).len(),
        forall|j: int| 0 <= j < l.dims@.len() ==> #[trigger] l.dims@[j] == (#[verifier::truncate] (launch_shape(out_shape@)[j] as u32)),
        l.stra@ == broadcast_strides_of(sa@, out_shape@.len() as nat),
        l.strb@ == broadcast_strides_of(sb@, out_shape@.len() as nat),
        l.n == shape_numel(out_shape@),
{
    let mut dims: Vec<u32> = Vec::new();
    let mut j: usize = 0;
    while j < out_shape.len()
        invariant
            j <= out_shape@.len(),
            dims@.len() == j,
            forall|i: int| 0 <= i < j ==> #[trigger] dims@[i] == (#[verifier::truncate] (out_shape@[i] as u32)),
        decreases out_shape@.len() - j,
    {
        dims.push(#[verifier::truncate] (out_shape[j] as u32));
        j = j + 1;
    }
    if dims.len() == 0 {
        dims.push(1);
    }
    let stra = broadcast_strides(sa, out_shape);
    let strb = broadcast_strides(sb, out_shape);
    let n = numel(out_shape);
    BroadcastLaunch { dims, stra, strb, n }
}

// ---------------------------------------------------------------------------
// cuBLAS gemm on row-major buffers

/// cuBLAS gemm parameters (alpha 1, beta 0): whether each operand is
/// transposed, the column-major sizes and the leading dims.
#[derive(Clone, Copy, Debug, PartialEq, Eq, Structural)]
pub struct SgemmConfig {
    pub transa: bool,
    pub transb: bool,
    pub m: i32,
    pub n: i32,
    pub k: i32,
    pub lda: i32,
    pub ldb: i32,
    pub ldc: i32,
}

/// The gemm parameters computing the row-major product `C(m,n) =
/// op(A)(m,k) * op(B)(k,n)`, where `ta`/`tb` mean that buffer stores the
/// transpose. cuBLAS is column-major, so it computes `C^T = op(B)^T op(A)^T`
/// with the operands swapped (B's buffer as its "A") and m/n swapped: the
/// column-major `C^T` it writes is row-major `C`.
pub open spec fn sgemm_config_of(m: usize, k: usize, n: usize, ta: bool, tb: bool) -> SgemmConfig {
    SgemmConfig {
        transa: tb,
        transb: ta,
        m: #[verifier::truncate] (n as i32),
        n: #[verifier::truncate] (m as i32),
        k: #[verifier::truncate] (k as i32),
        lda: #[verifier::truncate] ((if tb { k } else { n }) as i32),
        ldb: #[verifier::truncate] ((if ta { m } else { k }) as i32),
        ldc: #[verifier::truncate] (n as i32),
    }
}

/// cuBLAS gemm parameters for a row-major `(m,k) @ (k,n)` product.
pub fn row_major_sgemm_cfg(m: usize, k: usize, n: usize, ta: bool, tb: bool) -> (c: SgemmConfig)
    ensures
        c == sgemm_config_of(m, k, n, ta, tb),
{
    SgemmConfig {
        transa: tb,
        transb: ta,
        m: #[verifier::truncate] (n as i32),
        n: #[verifier::truncate] (m as i32),
        k: #[verifier::truncate] (k as i32),
        lda: #[verifier::truncate] ((if tb { k } else { n }) as i32),
        ldb: #[verifier::truncate] ((if ta { m } else { k }) as i32),
        ldc: #[verifier::truncate] (n as i32),
    }
}

/// Where cuBLAS reads element `(row, col)` of `op(X)` for a column-major
/// `X` with leading dim `ld`.
pub open spec fn colmajor_at(trans: bool, row: int, col: int, ld: int) -> int {
    if trans { col + row * ld } else { row + col * ld }
}

/// The swapped-operand gemm computes the row-major product: for output
/// element `C[i][j]` and every `p < k`, cuBLAS reads `B[p][j]` and `A[i][p]`
/// from where the row-major buffers hold them (each possibly stored
/// transposed), and writes its result where row-major `C[i][j]` lives.
pub proof fn lemma_sgemm_row_major(m: usize, k: usize, n: usize, ta: bool, tb: bool, i: int, j: int, p: int)
    requires
        m <= i32::MAX,
        k <= i32::MAX,
        n <= i32::MAX,
        0 <= i < m,
        0 <= j < n,
        0 <= p < k,
    ensures
        ({
            let c = sgemm_config_of(m, k, n, ta, tb);
            &&& c.m == n && c.n == m && c.k == k
            &&& colmajor_at(c.transa, j, p, c.lda as int) == (if tb { j * k + p } else { p * n + j })
            &&& colmajor_at(c.transb, p, i, c.ldb as int) == (if ta { p * m + i } else { i * k + p })
            &&& j + i * c.ldc == i * n + j
        }),
{
    let c = sgemm_config_of(m, k, n, ta, tb);
    assert(c.m == n && c.n == m && c.k == k);
    assert(c.lda == (if tb { k } else { n }));
    assert(c.ldb == (if ta { m } else { k }));
    assert(c.ldc == n);
    assert(j * k == k * j) by (nonlinear_arith);
    assert(p * n == n * p) by (nonlinear_arith);
    assert(i * k == k * i) by (nonlinear_arith);
    assert(p * m == m * p) by (nonlinear_arith);
}

} // verus!
