//! Kernel, drift, solver and compression options of the interpolation and fast
//! multipole configuration.
use vstd::prelude::*;

verus! {

/// The implemented orders for the spheroidal kernel.
#[derive(Debug, Clone, Copy, PartialEq, Eq, Structural)]
pub enum SpheroidalOrder {
    Three,
    Five,
    Seven,
    Nine,
}

/// Polynomial drift added to an interpolant.
#[derive(Debug, Clone, Copy, PartialEq, Eq, Structural)]
pub enum Drift {
    NoDrift,
    Constant,
    Linear,
    Quadratic,
}

/// Radial basis function kernels.
#[derive(Debug, Clone, Copy, PartialEq, Eq, Structural)]
pub enum RBFKernelType {
    Linear,
    ThinPlateSpline,
    Cubic,
    Spheroidal,
}

/// The minimum drift each kernel needs for a well-posed system.
pub open spec fn min_drift(kernel: RBFKernelType) -> Drift {
    match kernel {
        RBFKernelType::Linear => Drift::Constant,
        RBFKernelType::ThinPlateSpline => Drift::Linear,
        RBFKernelType::Cubic => Drift::Linear,
        RBFKernelType::Spheroidal => Drift::NoDrift,
    }
}

/// Returns the minimum required [`Drift`] for the provided [`RBFKernelType`]: constant
/// for linear, linear for thin plate spline and cubic, none for spheroidal.
pub fn get_min_drift(kernel: RBFKernelType) -> (drift: Drift)
    ensures
        drift == min_drift(kernel),
{
    match kernel {
        RBFKernelType::Linear => Drift::Constant,
        RBFKernelType::ThinPlateSpline => Drift::Linear,
        RBFKernelType::Cubic => Drift::Linear,
        RBFKernelType::Spheroidal => Drift::NoDrift,
    }
}

/// Degree of the polynomial that a drift adds; `-1` for no drift.
pub open spec fn drift_degree(drift: Drift) -> int {
    match drift {
        Drift::NoDrift => -1,
        Drift::Constant => 0,
        Drift::Linear => 1,
        Drift::Quadratic => 2,
    }
}

/// The lowest polynomial degree each kernel needs; the spheroidal kernel is strictly
/// positive definite and needs none (`-1`).
pub open spec fn kernel_min_degree(kernel: RBFKernelType) -> int {
    match kernel {
        RBFKernelType::Linear => 0,
        RBFKernelType::ThinPlateSpline => 1,
        RBFKernelType::Cubic => 1,
        RBFKernelType::Spheroidal => -1,
    }
}

/// Number of polynomial basis columns for a drift of the given degree in one, two or
/// three dimensions; `previous` is kept for any other dimension count.
pub open spec fn basis_size_for(degree: int, dimensions: int, previous: int) -> int {
    let k = degree + 1;
    if degree < 0 {
        0
    } else if dimensions == 1 {
        k
    } else if dimensions == 2 {
        k * (k + 1) / 2
    } else if dimensions == 3 {
        k * (k + 1) * (k + 2) / 6
    } else {
        previous
    }
}

/// Binomial coefficient by Pascal's rule.
pub open spec fn binomial(n: nat, r: nat) -> nat
    decreases n,
{
    if r == 0 {
        1
    } else if n == 0 {
        0
    } else {
        binomial((n - 1) as nat, (r - 1) as nat) + binomial((n - 1) as nat, r)
    }
}

/// The part of the interpolant settings that decides the polynomial drift block of the
/// RBF system: the kernel, the drift, and the basis size and degree derived from them.
#[derive(Debug, Clone, Copy, PartialEq, Eq, Structural)]
pub struct DriftBasis {
    /// The RBF kernel.
    pub kernel_type: RBFKernelType,
    /// The polynomial drift term added to the RBF system.
    pub drift: Drift,
    /// Number of additional polynomial basis columns of the RBF system.
    pub basis_size: usize,
    /// Degree of the polynomial drift of the RBF system.
    pub polynomial_degree: i32,
}

impl DriftBasis {
    /// Settings for a kernel and drift before the basis is sized: no columns, degree `-1`.
    pub fn new(kernel_type: RBFKernelType, drift: Drift) -> (s: DriftBasis)
        ensures
            s == (DriftBasis { kernel_type, drift, basis_size: 0, polynomial_degree: -1i32 }),
    {
        DriftBasis { kernel_type, drift, basis_size: 0, polynomial_degree: -1 }
    }

    /// Sets the basis size and polynomial degree from the drift and the dimension count.
    /// The drift must reach the kernel's minimum degree (the caller is refused
    /// otherwise); for a dimension count other than one, two or three the basis size is
    /// left as it was.
    pub fn set_basis_size(&mut self, dimensions: &usize)
        requires
            drift_degree(old(self).drift) >= kernel_min_degree(old(self).kernel_type),
        ensures
            final(self).kernel_type == old(self).kernel_type,
            final(self).drift == old(self).drift,
            final(self).polynomial_degree == drift_degree(old(self).drift),
            final(self).basis_size == basis_size_for(
                drift_degree(old(self).drift),
                *dimensions as int,
                old(self).basis_size as int,
            ),
    {
        let poly_degree: i32 = match self.drift {
            Drift::NoDrift => -1,
            Drift::Constant => 0,
            Drift::Linear => 1,
            Drift::Quadratic => 2,
        };
        let k: i32 = poly_degree + 1;
        if poly_degree < 0 {
            self.basis_size = 0;
        } else if *dimensions == 1 {
            self.basis_size = k as usize;
        } else if *dimensions == 2 {
            self.basis_size = (k * (k + 1) / 2) as usize;
        } else if *dimensions == 3 {
            self.basis_size = (k * (k + 1) * (k + 2) / 6) as usize;
        }
        self.polynomial_degree = poly_degree;
    }
}

/// The minimum drift of every kernel is accepted when the basis is sized.
pub proof fn lemma_min_drift_is_accepted(kernel: RBFKernelType)
    ensures
        drift_degree(min_drift(kernel)) >= kernel_min_degree(kernel),
{
}

/// In one to three dimensions the basis holds one column per monomial of total degree
/// at most the drift degree, that is `binomial(degree + d, d)` columns.
pub proof fn lemma_basis_size_counts_monomials(drift: Drift, dimensions: int, previous: int)
    requires
        1 <= dimensions <= 3,
        drift != Drift::NoDrift,
    ensures
        basis_size_for(drift_degree(drift), dimensions, previous) == binomial(
            (drift_degree(drift) + dimensions) as nat,
            dimensions as nat,
        ),
{
    assert(binomial(0, 0) == 1);
    assert(binomial(0, 1) == 0);
    assert(binomial(0, 2) == 0);
    assert(binomial(0, 3) == 0);
    assert(binomial(1, 0) == 1);
    assert(binomial(1, 1) == 1);
    assert(binomial(1, 2) == 0);
    assert(binomial(1, 3) == 0);
    assert(binomial(2, 0) == 1);
    assert(binomial(2, 1) == 2);
    assert(binomial(2, 2) == 1);
    assert(binomial(2, 3) == 0);
    assert(binomial(3, 0) == 1);
    assert(binomial(3, 1) == 3);
    assert(binomial(3, 2) == 3);
    assert(binomial(3, 3) == 1);
    assert(binomial(4, 0) == 1);
    assert(binomial(4, 1) == 4);
    assert(binomial(4, 2) == 6);
    assert(binomial(4, 3) == 4);
    assert(binomial(5, 0) == 1);
    assert(binomial(5, 1) == 5);
    assert(binomial(5, 2) == 10);
    assert(binomial(5, 3) == 10);
    let degree = drift_degree(drift);
    if dimensions == 3 {
        assert(degree == 0 || degree == 1 || degree == 2);
        assert(basis_size_for(0, 3, previous) == 1) by (nonlinear_arith);
        assert(basis_size_for(1, 3, previous) == 4) by (nonlinear_arith);
        assert(basis_size_for(2, 3, previous) == 10) by (nonlinear_arith);
    } else if dimensions == 2 {
        assert(basis_size_for(0, 2, previous) == 1) by (nonlinear_arith);
        assert(basis_size_for(1, 2, previous) == 3) by (nonlinear_arith);
        assert(basis_size_for(2, 2, previous) == 6) by (nonlinear_arith);
    }
}

/// Whether the solver's stopping criterion is relative to the initial mismatch or an
/// absolute mismatch.
#[derive(Debug, Clone, Copy, PartialEq, Eq, Structural)]
pub enum FittingAccuracyType {
    Relative,
    Absolute,
}

/// Supported M2L operator compression methods of the interpolation configuration.
#[derive(Debug, Clone, Copy, PartialEq, Eq, Structural)]
pub enum FmmCompressionType {
    /// No compression is applied.
    NoCompression,
    /// A truncated singular value decomposition of the M2L operators.
    SVD,
    /// Adaptive cross approximation followed by SVD recompression.
    ACA,
}

/// Supported M2L operator compression methods of the fast multipole tree.
#[derive(Debug, Clone, Copy, PartialEq, Eq, Structural)]
pub enum M2LCompressionType {
    /// No compression is applied.
    NoCompression,
    /// A truncated singular value decomposition of the M2L operators.
    SVD,
    /// Adaptive cross approximation followed by SVD recompression.
    ACA,
}

/// The tree compression type matching a configuration compression type.
pub open spec fn m2l_compression_of(value: FmmCompressionType) -> M2LCompressionType {
    match value {
        FmmCompressionType::NoCompression => M2LCompressionType::NoCompression,
        FmmCompressionType::SVD => M2LCompressionType::SVD,
        FmmCompressionType::ACA => M2LCompressionType::ACA,
    }
}

impl From<FmmCompressionType> for M2LCompressionType {
    fn from(value: FmmCompressionType) -> (r: M2LCompressionType) {
        match value {
            FmmCompressionType::NoCompression => M2LCompressionType::NoCompression,
            FmmCompressionType::SVD => M2LCompressionType::SVD,
            FmmCompressionType::ACA => M2LCompressionType::ACA,
        }
    }
}

impl vstd::std_specs::convert::FromSpecImpl<FmmCompressionType> for M2LCompressionType {
    open spec fn obeys_from_spec() -> bool {
        true
    }

    open spec fn from_spec(v: FmmCompressionType) -> M2LCompressionType {
        m2l_compression_of(v)
    }
}

/// The available iterative solvers.
#[derive(Debug, Clone, Copy, PartialEq, Eq, Structural)]
pub enum Solvers {
    /// Domain decomposition solver.
    DDM { max_iterations: usize },
    /// Flexible generalised minimal residual method (FGMRES) solver.
    FGMRES { max_outer_iterations: usize, max_inner_iterations: usize },
}

impl Default for Solvers {
    /// FGMRES with 20 outer and 5 inner iterations.
    fn default() -> (s: Solvers)
        ensures
            s == (Solvers::FGMRES { max_outer_iterations: 20, max_inner_iterations: 5 }),
    {
        Solvers::FGMRES { max_outer_iterations: 20, max_inner_iterations: 5 }
    }
}

/// Returns the default FMM interpolation order for the given kernel type: 7 for linear,
/// 9 for thin plate spline, 11 for cubic, 7 otherwise.
pub fn get_default_fmm_interpolation_order(kernel_type: RBFKernelType) -> (order: usize)
    ensures
        order == match kernel_type {
            RBFKernelType::Linear => 7usize,
            RBFKernelType::ThinPlateSpline => 9,
            RBFKernelType::Cubic => 11,
            RBFKernelType::Spheroidal => 7,
        },
{
    match kernel_type {
        RBFKernelType::Linear => 7,
        RBFKernelType::ThinPlateSpline => 9,
        RBFKernelType::Cubic => 11,
        _ => 7,
    }
}

} // verus!
