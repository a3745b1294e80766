//! The position record that the loader carries from one stage to the next.
use vstd::prelude::*;

verus! {

/// Declares `bulletformat::ChessBoard`, one chess position with its score and
/// game result. Nothing in the loader looks inside a position, so the type
/// stays opaque.
#[verifier::external_type_specification]
#[verifier::external_body]
pub struct ExChessBoard(bulletformat::ChessBoard);

} // verus!
