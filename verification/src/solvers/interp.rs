//! Interpolation in one dimension: what happens outside the known points.
use crate::double::Double;
use vstd::prelude::*;

verus! {

/// What to give outside the known points.
#[derive(Clone, Copy, Debug)]
pub enum Interp1dFillValue {
    Extrapolate,
    /// The value below the known points and the one above.
    FillValues((Double, Double)),
}

/// How an interpolation goes on outside the known points.
#[derive(Clone, Copy, Debug, PartialEq, Eq, Structural)]
pub enum Interp1dMode {
    Extrapolate,
    /// The same value on both sides.
    Constant(Double),
}

impl Interp1dFillValue {
    /// How the interpolation goes on: of two fill values, the first is given on both sides.
    pub fn mode(self) -> (res: Interp1dMode)
        ensures
            res == match self {
                Interp1dFillValue::Extrapolate => Interp1dMode::Extrapolate,
                Interp1dFillValue::FillValues(values) => Interp1dMode::Constant(values.0),
            },
    {
        match self {
            Interp1dFillValue::Extrapolate => Interp1dMode::Extrapolate,
            Interp1dFillValue::FillValues(values) => Interp1dMode::Constant(values.0),
        }
    }
}

} // verus!
