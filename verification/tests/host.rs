use ferro::cuda::{
    broadcast_launch, check_cuda_libraries, check_resident, cuda_err, foreign_buffer, row_major_sgemm_cfg, SgemmConfig,
    NO_CUBLAS, NO_DRIVER, NO_NVRTC,
};
use ferro::device::Device;
use ferro::rng::Rng;

// ---------------------------------------------------------------------------
// Rng

fn splitmix_reference(seed: u64) -> (u64, u64) {
    let mut z = seed.wrapping_add(0x9E37_79B9_7F4A_7C15);
    let mut split = || {
        z = z.wrapping_add(0x9E37_79B9_7F4A_7C15);
        let mut x = z;
        x = (x ^ (x >> 30)).wrapping_mul(0xBF58_476D_1CE4_E5B9);
        x = (x ^ (x >> 27)).wrapping_mul(0x94D0_49BB_1331_11EB);
        x ^ (x >> 31)
    };
    let a = split() | 1;
    let b = split() | 1;
    (a, b)
}

fn xorshift_reference(s: &mut (u64, u64)) -> u64 {
    let mut x = s.0;
    let y = s.1;
    s.0 = y;
    x ^= x << 23;
    x ^= x >> 17;
    x ^= y ^ (y >> 26);
    s.1 = x;
    x.wrapping_add(y)
}

#[test]
fn rng_is_deterministic_given_a_seed() {
    let mut a = Rng::new(42);
    let mut b = Rng::new(42);
    let xs: Vec<u64> = (0..16).map(|_| a.next_u64()).collect();
    let ys: Vec<u64> = (0..16).map(|_| b.next_u64()).collect();
    assert_eq!(xs, ys);
    let mut c = Rng::new(43);
    let zs: Vec<u64> = (0..16).map(|_| c.next_u64()).collect();
    assert_ne!(xs, zs);
}

#[test]
fn rng_matches_splitmix_seeded_xorshift128_plus() {
    for seed in [0u64, 1, 42, u64::MAX] {
        let mut r = Rng::new(seed);
        let mut s = splitmix_reference(seed);
        for _ in 0..32 {
            assert_eq!(r.next_u64(), xorshift_reference(&mut s));
        }
    }
}

#[test]
fn rng_first_output_for_seed_zero() {
    // splitmix64 from seed 0: second and third outputs, forced odd.
    let (s0, s1) = splitmix_reference(0);
    assert_eq!(s0 & 1, 1);
    assert_eq!(s1 & 1, 1);
    let mut r = Rng::new(0);
    let mut s = (s0, s1);
    let expected = xorshift_reference(&mut s);
    assert_eq!(r.next_u64(), expected);
}

#[test]
fn rng_never_gets_stuck_at_zero() {
    let mut r = Rng::new(u64::MAX - 0x9E37_79B9_7F4A_7C15);
    let outs: Vec<u64> = (0..1000).map(|_| r.next_u64()).collect();
    assert!(outs.iter().any(|&v| v != 0));
    let distinct: std::collections::HashSet<u64> = outs.iter().copied().collect();
    assert!(distinct.len() > 990);
}

// ---------------------------------------------------------------------------
// CUDA host-side decisions

#[test]
fn install_reports_the_first_missing_library() {
    assert_eq!(check_cuda_libraries(false, true, true).unwrap_err(), NO_DRIVER);
    assert!(check_cuda_libraries(false, false, false).unwrap_err().contains("libcuda"));
    assert_eq!(check_cuda_libraries(true, false, false).unwrap_err(), NO_NVRTC);
    assert_eq!(check_cuda_libraries(true, true, false).unwrap_err(), NO_CUBLAS);
    assert!(check_cuda_libraries(true, true, true).is_ok());
}

#[test]
fn cuda_errors_carry_the_driver_detail() {
    assert_eq!(cuda_err("matmul", "out of memory").message(), "matmul: unsupported: CUDA error: out of memory");
    assert_eq!(
        foreign_buffer("unary_dev").message(),
        "unary_dev: unsupported: device buffer was not allocated by the CUDA backend"
    );
    assert!(check_resident("binary_dev", Device::Cuda(0), Device::Cuda(0)).is_ok());
    assert_eq!(
        check_resident("binary_dev", Device::Cuda(1), Device::Cuda(0)).unwrap_err().message(),
        "binary_dev: unsupported: buffer lives on cuda:1 but this backend serves cuda:0"
    );
}

#[test]
fn broadcast_launch_parameters() {
    let l = broadcast_launch(&[2, 1, 3], &[4, 1], &[2, 4, 3]);
    assert_eq!(l.dims, vec![2, 4, 3]);
    assert_eq!(l.stra, vec![3, 0, 1]);
    assert_eq!(l.strb, vec![0, 1, 0]);
    assert_eq!(l.n, 24);

    // A rank-0 output still launches at rank 1.
    let s = broadcast_launch(&[], &[], &[]);
    assert_eq!(s.dims, vec![1]);
    assert_eq!(s.stra, vec![0]);
    assert_eq!(s.strb, vec![0]);
    assert_eq!(s.n, 1);
}

fn naive_matmul(a: &[f32], b: &[f32], m: usize, k: usize, n: usize) -> Vec<f32> {
    let mut out = vec![0.0f32; m * n];
    for i in 0..m {
        for j in 0..n {
            let mut acc = 0.0f32;
            for p in 0..k {
                acc += a[i * k + p] * b[p * n + j];
            }
            out[i * n + j] = acc;
        }
    }
    out
}

// Pure host reference for cublasSgemm column-major semantics with op() and
// alpha 1, beta 0: C[i + j*ldc] = sum_p op(A)(i,p) * op(B)(p,j), where
// op(X)(i,p) reads X[i + p*ld] untransposed and X[p + i*ld] transposed.
fn colmajor_sgemm(cfg: &SgemmConfig, a: &[f32], b: &[f32], c: &mut [f32]) {
    let (ta, tb) = (cfg.transa, cfg.transb);
    let (m, n, k) = (cfg.m as usize, cfg.n as usize, cfg.k as usize);
    let (lda, ldb, ldc) = (cfg.lda as usize, cfg.ldb as usize, cfg.ldc as usize);
    for j in 0..n {
        for i in 0..m {
            let mut acc = 0.0;
            for p in 0..k {
                let av = if ta { a[p + i * lda] } else { a[i + p * lda] };
                let bv = if tb { b[j + p * ldb] } else { b[p + j * ldb] };
                acc += av * bv;
            }
            c[i + j * ldc] = acc;
        }
    }
}

#[test]
fn sgemm_mapping_matches_row_major_matmul() {
    for &(m, k, n) in &[(1usize, 1usize, 1usize), (2, 3, 4), (5, 2, 3), (1, 4, 2)] {
        let a: Vec<f32> = (0..m * k).map(|i| i as f32 * 0.5 - 1.0).collect();
        let b: Vec<f32> = (0..k * n).map(|i| 2.0 - i as f32 * 0.25).collect();
        let expected = naive_matmul(&a, &b, m, k, n);
        let cfg = row_major_sgemm_cfg(m, k, n, false, false);
        let mut c = vec![0.0f32; m * n];
        // Operand swap mirrors the gemm call: b is cuBLAS "A", a is "B".
        colmajor_sgemm(&cfg, &b, &a, &mut c);
        assert_eq!(c, expected, "mapping broken for ({m},{k},{n})");
    }
}

// Store a row-major (rows, cols) matrix as its (cols, rows) transpose.
fn transpose(v: &[f32], rows: usize, cols: usize) -> Vec<f32> {
    let mut out = vec![0f32; v.len()];
    for i in 0..rows {
        for j in 0..cols {
            out[j * rows + i] = v[i * cols + j];
        }
    }
    out
}

#[test]
fn sgemm_transpose_flags_match_row_major_matmul() {
    for &(m, k, n) in &[(2usize, 3usize, 4usize), (5, 2, 3)] {
        let a: Vec<f32> = (0..m * k).map(|i| i as f32 * 0.5 - 1.0).collect();
        let b: Vec<f32> = (0..k * n).map(|i| 2.0 - i as f32 * 0.25).collect();
        let expected = naive_matmul(&a, &b, m, k, n);
        for &(ta, tb) in &[(false, false), (false, true), (true, false), (true, true)] {
            let sa = if ta { transpose(&a, m, k) } else { a.clone() };
            let sb = if tb { transpose(&b, k, n) } else { b.clone() };
            let cfg = row_major_sgemm_cfg(m, k, n, ta, tb);
            let mut c = vec![0.0f32; m * n];
            colmajor_sgemm(&cfg, &sb, &sa, &mut c);
            assert_eq!(c, expected, "mapping broken for ({m},{k},{n}) ta={ta} tb={tb}");
        }
    }
}

#[test]
fn sgemm_config_swaps_operands_and_sizes() {
    let c = row_major_sgemm_cfg(2, 3, 4, false, true);
    assert_eq!(
        c,
        SgemmConfig { transa: true, transb: false, m: 4, n: 2, k: 3, lda: 3, ldb: 3, ldc: 4 }
    );
}
