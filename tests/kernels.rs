use reuse_trace::polybench::{
    _2mm, _3mm, cholesky, ludcmp, nussinov, convolution_2d, gemm, gemver, gesummv, gramschmidt_trace, heat_3d, jacobi_1d, jacobi_2d, lu,
    lu_affine, mvt, seidel_2d, stencil, symm, syr2d, syrk, trisolv, trmm_trace,
};
use reuse_trace::trace::tracing_ri;

#[test]
fn trmm_trace_test() {
    assert_eq!(trmm_trace(1024, 1024).unwrap().node_count(), 8);
}

#[test]
fn test_mvt() {
    assert_eq!(mvt(1024).unwrap().node_count(), 13);
}

#[test]
fn test_trisolv() {
    assert_eq!(trisolv(1024).unwrap().node_count(), 11);
}

#[test]
fn test_syrk() {
    assert_eq!(syrk(256, 256).unwrap().node_count(), 12);
}

#[test]
fn test_syr2d() {
    assert_eq!(syr2d(1024, 1024).unwrap().node_count(), 12);
}

#[test]
fn _2mm_test() {
    assert_eq!(_2mm(1024, 1024, 1024, 1024).unwrap().node_count(), 15);
}

#[test]
fn lu_test() {
    let mm = lu(100).unwrap();
    assert_eq!(mm.node_count(), 16);
}

#[test]
fn lu_affine_shape() {
    assert_eq!(lu_affine(100).unwrap().node_count(), 16);
}

#[test]
fn test_cholesky() {
    assert_eq!(cholesky(1024).unwrap().node_count(), 17);
}

#[test]
fn gram_schmidt_test() {
    assert_eq!(gramschmidt_trace(1024, 1024).unwrap().node_count(), 21);
}

#[test]
fn heat_3d_test() {
    let mm = heat_3d(5, 100).unwrap();
    assert_eq!(mm.node_count(), 29);
}

#[test]
fn test_symm() {
    assert_eq!(symm(1024, 1024).unwrap().node_count(), 13);
}

#[test]
fn test_stencil() {
    assert_eq!(stencil(1024).unwrap().node_count(), 8);
}

#[test]
fn test_seidel_2d() {
    assert_eq!(seidel_2d(10, 1024).unwrap().node_count(), 13);
}

#[test]
fn test_jacobi_1d() {
    assert_eq!(jacobi_1d(10, 1024).unwrap().node_count(), 11)
}

#[test]
fn test_jacobi_2d() {
    assert_eq!(jacobi_2d(10, 1024).unwrap().node_count(), 17)
}

#[test]
fn test_gesummv() {
    assert_eq!(gesummv(1024).unwrap().node_count(), 15)
}

#[test]
fn test_gemver() {
    assert_eq!(gemver(1024).unwrap().node_count(), 25)
}

#[test]
fn gemm_and_convolution_shapes() {
    assert_eq!(gemm(16).unwrap().node_count(), 9);
    assert_eq!(convolution_2d(16, 16).unwrap().node_count(), 5);
}

#[test]
fn test_test_poly() {
    let mut tri = mvt(1024).unwrap();
    assert_eq!(tri.node_count(), 13);
    let h = tracing_ri(&mut tri, 8, 8).unwrap();
    // two nests of 100 iterations, four accesses each
    let total: usize = h.to_vec().iter().map(|b| b.1).sum();
    assert_eq!(total, 800);
}

#[test]
fn gemm_traces() {
    let mut g = gemm(8).unwrap();
    let h = tracing_ri(&mut g, 8, 64).unwrap();
    let total: usize = h.to_vec().iter().map(|b| b.1).sum();
    // 64 (i,j) pairs with 2 accesses, 512 (i,j,k) triples with 4
    assert_eq!(total, 64 * 2 + 512 * 4);
}

#[test]
fn three_matrix_multiplies() {
    assert_eq!(_3mm(8, 8, 8, 8, 8).unwrap().node_count(), 22);
    let h = reuse_trace::polybench::trace_polybench("3mm", 4, 8, &[4, 4, 4, 4]).unwrap();
    // three nests: 16 (i,j) pairs with 1 access and 64 triples with 3
    assert_eq!(h.to_vec().iter().map(|b| b.1).sum::<usize>(), 3 * (16 + 64 * 3));
}

#[test]
fn test_ludcmp() {
    assert_eq!(ludcmp(1024).unwrap().node_count(), 28);
}

#[test]
fn test_nussinov() {
    assert_eq!(nussinov(1024).unwrap().node_count(), 29)
}
