use vstd::prelude::*;

verus! {

/// `std::io::Error`, carried through unopened.
#[verifier::external_type_specification]
#[verifier::external_body]
pub struct ExIoError(std::io::Error);

/// What can go wrong while searching a file.
#[derive(Debug)]
pub enum FileReadError {
    /// The file could not be read.
    ReadError(std::io::Error),
    /// The target was not found.
    NotFound,
    /// The file has too few lines to show context around a selected line.
    ShortSlice,
}

} // verus!
