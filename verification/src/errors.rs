use vstd::prelude::*;

verus! {

/// The failures that the translation and encoding pipeline can surface.
/// Socket binding and transport failures belong to the unverified
/// transport layer and are represented there.
#[derive(Clone, Copy, PartialEq, Eq, Structural, Debug)]
pub enum Error {
    /// The input span sequence holds no root-linked span.
    MissingRoot,
    /// A span's elapsed-end offset lies before its elapsed-start offset.
    InvalidElapsed,
    /// A string or list is too long for the wire's 31-bit length fields.
    Oversize,
}

impl Error {
    /// A short description, in place of a `Display` impl.
    pub fn message(&self) -> (r: &'static str)
        ensures
            r@ == match self {
                Error::MissingRoot => "can not get root span"@,
                Error::InvalidElapsed => "elapsed end lies before elapsed start"@,
                Error::Oversize => "value too long for the wire format"@,
            },
    {
        match self {
            Error::MissingRoot => "can not get root span",
            Error::InvalidElapsed => "elapsed end lies before elapsed start",
            Error::Oversize => "value too long for the wire format",
        }
    }
}

} // verus!
