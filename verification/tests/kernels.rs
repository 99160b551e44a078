use ferro::dispatch::{BinaryKind, ReduceKind};
use ferro::kernels::{
    binary_bc_source, binary_expr, binary_source, broadcast_strides, fill_source, reduce_source,
    strides_fit, sum_dim_source, unary_expr, unary_source, UnaryOp, KERNEL_NAME,
};

fn lit(s: &str) -> String {
    s.to_string()
}

#[test]
fn unary_exprs_cover_every_kind() {
    assert_eq!(unary_expr(&UnaryOp::Neg), "-v");
    assert_eq!(unary_expr(&UnaryOp::Relu), "((v > 0.0f || isnan(v)) ? v : 0.0f)");
    assert_eq!(unary_expr(&UnaryOp::Exp), "expf(v)");
    assert_eq!(unary_expr(&UnaryOp::Sigmoid), "1.0f / (1.0f + expf(-v))");
    assert_eq!(unary_expr(&UnaryOp::Tanh), "tanhf(v)");
    assert_eq!(unary_expr(&UnaryOp::Sqrt), "sqrtf(v)");
    assert_eq!(unary_expr(&UnaryOp::Abs), "fabsf(v)");
    assert_eq!(unary_expr(&UnaryOp::Log), "logf(v)");
    assert_eq!(unary_expr(&UnaryOp::Powf(lit("2.5f"))), "powf(v, 2.5f)");
    let clamp = UnaryOp::Clamp { min: lit("-1.0f"), max: lit("2.0f") };
    assert_eq!(unary_expr(&clamp), "(isnan(v) ? v : fminf(fmaxf(v, -1.0f), 2.0f))");
    assert_eq!(unary_expr(&UnaryOp::Gtz), "(v > 0.0f) ? 1.0f : 0.0f");
}

#[test]
fn binary_exprs_cover_every_kind() {
    assert_eq!(binary_expr(BinaryKind::Add), "x + y");
    assert_eq!(binary_expr(BinaryKind::Sub), "x - y");
    assert_eq!(binary_expr(BinaryKind::Mul), "x * y");
    assert_eq!(binary_expr(BinaryKind::Div), "x / y");
}

#[test]
fn sources_declare_the_exported_kernel() {
    let src = unary_source(&UnaryOp::Relu);
    assert!(src.contains(r#"extern "C" __global__ void ferro_kernel(const float* x, float* out, unsigned int n)"#));
    assert!(src.contains("out[i] = ((v > 0.0f || isnan(v)) ? v : 0.0f);"));
    let src = binary_source(BinaryKind::Div);
    assert!(src.contains(r#"extern "C" __global__ void ferro_kernel(const float* a, const float* b, float* out, unsigned int n)"#));
    assert!(src.contains("out[i] = x / y;"));
}

#[test]
fn gtz_source_is_the_relu_gradient_mask() {
    let src = unary_source(&UnaryOp::Gtz);
    assert!(src.contains("out[i] = (v > 0.0f) ? 1.0f : 0.0f;"));
}

#[test]
fn broadcast_binary_source_decomposes_flat_index() {
    let src = binary_bc_source(BinaryKind::Add, 2);
    assert!(src.contains(r#"extern "C" __global__ void ferro_kernel(const float* a, const float* b, float* out, unsigned int n, unsigned int d0, unsigned int d1, unsigned int sa0, unsigned int sa1, unsigned int sb0, unsigned int sb1)"#));
    // Innermost dim is peeled first.
    let d1 = src.find("c = rem % d1").unwrap();
    let d0 = src.find("c = rem % d0").unwrap();
    assert!(d1 < d0);
    assert!(src.contains("ia += c * sa1; ib += c * sb1;"));
    assert!(src.contains("out[i] = x + y;"));
    // Rank (not shape) is baked into the source, so the cache keys on it.
    assert_ne!(binary_bc_source(BinaryKind::Add, 1), src);
    assert_ne!(binary_bc_source(BinaryKind::Mul, 2), src);
}

#[test]
fn reduce_sources_cover_sum_and_mean() {
    let sum = reduce_source(ReduceKind::Sum);
    assert!(sum.contains("for (unsigned int i = 0; i < n; ++i) acc += x[i];"));
    assert!(sum.contains("out[0] = acc;"));
    let mean = reduce_source(ReduceKind::Mean);
    assert!(mean.contains("out[0] = acc / (float)n;"));
}

#[test]
fn sum_dim_source_uses_outer_inner_decomposition() {
    let src = sum_dim_source();
    assert!(src.contains(r#"extern "C" __global__ void ferro_kernel(const float* x, float* out, unsigned int n, unsigned int red, unsigned int inner)"#));
    assert!(src.contains("acc += x[(o * red + k) * inner + r];"));
}

#[test]
fn fill_source_writes_the_parameter_value() {
    let src = fill_source();
    assert!(src.contains(r#"extern "C" __global__ void ferro_kernel(float* out, unsigned int n, float value)"#));
    assert!(src.contains("out[i] = value;"));
}

#[test]
fn broadcast_strides_follow_numpy_rules() {
    assert_eq!(broadcast_strides(&[2, 3], &[2, 3]), vec![3, 1]);
    assert_eq!(broadcast_strides(&[3], &[2, 3]), vec![0, 1]);
    assert_eq!(broadcast_strides(&[2, 1], &[2, 3]), vec![1, 0]);
    assert_eq!(broadcast_strides(&[], &[2, 3]), vec![0, 0]);
    assert_eq!(broadcast_strides(&[1, 3], &[4, 2, 3]), vec![0, 0, 1]);
    // Rank-0 output is padded to a single rank-1 element.
    assert_eq!(broadcast_strides(&[], &[]), vec![0]);
}

// Host simulation of the generated kernel's index arithmetic: divmod over
// the output shape with padded strides must reproduce numpy broadcasting.
#[test]
fn broadcast_index_math_matches_reference() {
    let (sa, sb, out) = (vec![2usize, 1], vec![3usize], vec![2usize, 3]);
    let a = [10.0f32, 20.0];
    let b = [1.0f32, 2.0, 3.0];
    let stra = broadcast_strides(&sa, &out);
    let strb = broadcast_strides(&sb, &out);
    let n: usize = out.iter().product();
    let mut got = Vec::new();
    for i in 0..n {
        let (mut rem, mut ia, mut ib) = (i as u32, 0u32, 0u32);
        for d in (0..out.len()).rev() {
            let c = rem % out[d] as u32;
            rem /= out[d] as u32;
            ia += c * stra[d];
            ib += c * strb[d];
        }
        got.push(a[ia as usize] + b[ib as usize]);
    }
    assert_eq!(got, vec![11.0, 12.0, 13.0, 21.0, 22.0, 23.0]);
}

#[test]
fn parametrized_kinds_generate_distinct_sources() {
    assert_ne!(unary_source(&UnaryOp::Powf(lit("2.0f"))), unary_source(&UnaryOp::Powf(lit("3.0f"))));
    let a = UnaryOp::Clamp { min: lit("0.0f"), max: lit("1.0f") };
    let b = UnaryOp::Clamp { min: lit("0.0f"), max: lit("2.0f") };
    assert_ne!(unary_source(&a), unary_source(&b));
}

#[test]
fn every_source_starts_with_the_exported_name() {
    let head = format!("extern \"C\" __global__ void {KERNEL_NAME}(");
    assert!(fill_source().starts_with(&head));
    assert!(sum_dim_source().starts_with(&head));
    assert!(reduce_source(ReduceKind::Sum).starts_with(&head));
    assert!(binary_bc_source(BinaryKind::Sub, 3).starts_with(&head));
    assert_eq!(
        binary_bc_source(BinaryKind::Sub, 1),
        "extern \"C\" __global__ void ferro_kernel(const float* a, const float* b, float* out, unsigned int n, unsigned int d0, unsigned int sa0, unsigned int sb0) {\n    unsigned int i = blockIdx.x * blockDim.x + threadIdx.x;\n    if (i >= n) return;\n    unsigned int rem = i;\n    unsigned int ia = 0;\n    unsigned int ib = 0;\n    unsigned int c;\n    c = rem % d0; rem /= d0; ia += c * sa0; ib += c * sb0;\n    float x = a[ia]; float y = b[ib];\n    out[i] = x - y;\n}\n"
    );
    assert_eq!(
        fill_source(),
        "extern \"C\" __global__ void ferro_kernel(float* out, unsigned int n, float value) {\n    unsigned int i = blockIdx.x * blockDim.x + threadIdx.x;\n    if (i < n) out[i] = value;\n}\n"
    );
}

#[test]
fn u32_strides_fit_check() {
    assert!(strides_fit(&[2, 3, 4]));
    assert!(strides_fit(&[]));
    assert!(strides_fit(&[65536, 65535]));
    assert!(!strides_fit(&[65536, 65536]));
    // Trailing products that overflow anywhere fail, even when a zero dim
    // in front brings the full product back to 0.
    assert!(!strides_fit(&[0, 65536, 65536]));
}

#[test]
fn broadcast_sources_differ_by_kind_and_rank() {
    let kinds = [BinaryKind::Add, BinaryKind::Sub, BinaryKind::Mul, BinaryKind::Div];
    let mut seen: Vec<String> = Vec::new();
    for kind in kinds {
        for rank in 1..=12 {
            let src = binary_bc_source(kind, rank);
            assert!(!seen.contains(&src), "{kind:?} at rank {rank} repeats a source");
            seen.push(src);
        }
    }
}
