use ferreus::config::{
    get_default_fmm_interpolation_order, get_min_drift, Drift, DriftBasis, FmmCompressionType,
    M2LCompressionType, RBFKernelType, Solvers,
};
use ferreus::kdtree::DistanceMetric;

#[test]
fn minimum_drifts() {
    assert_eq!(get_min_drift(RBFKernelType::Linear), Drift::Constant);
    assert_eq!(get_min_drift(RBFKernelType::ThinPlateSpline), Drift::Linear);
    assert_eq!(get_min_drift(RBFKernelType::Cubic), Drift::Linear);
    assert_eq!(get_min_drift(RBFKernelType::Spheroidal), Drift::NoDrift);
}

#[test]
fn default_interpolation_orders() {
    assert_eq!(get_default_fmm_interpolation_order(RBFKernelType::Linear), 7);
    assert_eq!(get_default_fmm_interpolation_order(RBFKernelType::ThinPlateSpline), 9);
    assert_eq!(get_default_fmm_interpolation_order(RBFKernelType::Cubic), 11);
    assert_eq!(get_default_fmm_interpolation_order(RBFKernelType::Spheroidal), 7);
}

#[test]
fn compression_conversion_and_default_solver() {
    assert_eq!(M2LCompressionType::from(FmmCompressionType::ACA), M2LCompressionType::ACA);
    assert_eq!(M2LCompressionType::from(FmmCompressionType::SVD), M2LCompressionType::SVD);
    assert_eq!(
        M2LCompressionType::from(FmmCompressionType::NoCompression),
        M2LCompressionType::NoCompression
    );
    assert_eq!(
        Solvers::default(),
        Solvers::FGMRES { max_outer_iterations: 20, max_inner_iterations: 5 }
    );
    assert_ne!(DistanceMetric::Euclidean, DistanceMetric::InfinityNorm);
}

#[test]
fn basis_sizes_by_drift_and_dimension() {
    let mut b = DriftBasis::new(RBFKernelType::Linear, Drift::Quadratic);
    b.set_basis_size(&3);
    assert_eq!((b.basis_size, b.polynomial_degree), (10, 2));
    b.set_basis_size(&2);
    assert_eq!((b.basis_size, b.polynomial_degree), (6, 2));
    b.set_basis_size(&1);
    assert_eq!((b.basis_size, b.polynomial_degree), (3, 2));

    let mut c = DriftBasis::new(RBFKernelType::Cubic, Drift::Linear);
    c.set_basis_size(&3);
    assert_eq!((c.basis_size, c.polynomial_degree), (4, 1));
    c.set_basis_size(&2);
    assert_eq!(c.basis_size, 3);

    let mut s = DriftBasis::new(RBFKernelType::Spheroidal, Drift::NoDrift);
    s.set_basis_size(&3);
    assert_eq!((s.basis_size, s.polynomial_degree), (0, -1));

    let mut k = DriftBasis::new(RBFKernelType::Linear, Drift::Constant);
    k.set_basis_size(&2);
    assert_eq!((k.basis_size, k.polynomial_degree), (1, 0));
    // Four dimensions leave the basis size as it was.
    k.set_basis_size(&4);
    assert_eq!((k.basis_size, k.polynomial_degree), (1, 0));
}

#[test]
fn minimum_drift_sizes_a_basis() {
    for kernel in [
        RBFKernelType::Linear,
        RBFKernelType::ThinPlateSpline,
        RBFKernelType::Cubic,
        RBFKernelType::Spheroidal,
    ] {
        let mut b = DriftBasis::new(kernel, get_min_drift(kernel));
        b.set_basis_size(&3);
        let expected = match kernel {
            RBFKernelType::Linear => 1,
            RBFKernelType::ThinPlateSpline | RBFKernelType::Cubic => 4,
            RBFKernelType::Spheroidal => 0,
        };
        assert_eq!(b.basis_size, expected);
    }
}
