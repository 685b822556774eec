use vstd::prelude::*;

verus! {

/// Why a multiplication could not be carried out.
///
/// `DimensionMismatch` is reported before any work is dispatched;
/// `VectorLengthMismatch` is a defensive check between a row and a column
/// that correct extraction can never trigger; `ChannelDisconnected` means a
/// reply handle was lost before its result arrived, so the whole operation
/// fails instead of hanging or returning a partial matrix.
#[derive(Clone, Copy, Debug, PartialEq, Eq, Structural)]
pub enum MatrixError {
    DimensionMismatch,
    VectorLengthMismatch,
    ChannelDisconnected,
}

} // verus!
