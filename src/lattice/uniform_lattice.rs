use vstd::prelude::*;
use crate::lattice::utils::{TilingError, valid_code, is_valid_code};

verus! {

/// A uniform tiling given by the polygons met around every vertex, in
/// cyclic order (for instance 3.3.3.3.6).
#[derive(Debug)]
pub struct SemiRegularLattice {
    tiling_code: Vec<usize>,
}

/// A tiling with two kinds of vertices.
pub struct KUniformLattice {}

/// The space-filling of regular tetrahedra and octahedra.
pub struct TetrahedralOctahedral {}

impl SemiRegularLattice {
    pub closed spec fn code(&self) -> Seq<usize> {
        self.tiling_code@
    }

    /// A lattice for the tiling code, or `IncorrectTilingCode` holding the
    /// code unless every polygon has at least three sides and their interior
    /// angles fill a full turn.
    pub fn new(tiling_code: Vec<usize>) -> (r: Result<Self, TilingError>)
        ensures
            valid_code(tiling_code@) ==> r is Ok && r->Ok_0.code() == tiling_code@,
            !valid_code(tiling_code@) ==> r is Err && r->Err_0 is IncorrectTilingCode
                && r->Err_0->IncorrectTilingCode_tiling_code@ == tiling_code@,
    {
        if is_valid_code(&tiling_code) {
            Ok(SemiRegularLattice { tiling_code })
        } else {
            Err(TilingError::IncorrectTilingCode { tiling_code })
        }
    }

    /// The tiling code.
    pub fn tiling_code(&self) -> (r: &Vec<usize>)
        ensures
            r@ == self.code(),
    {
        &self.tiling_code
    }
}

impl KUniformLattice {
    pub fn new() -> Self {
        KUniformLattice {}
    }
}

impl TetrahedralOctahedral {
    pub fn new() -> Self {
        TetrahedralOctahedral {}
    }
}

} // verus!
