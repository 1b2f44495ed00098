use vstd::prelude::*;

verus! {

/// Why a conversion was refused.
#[derive(Debug, Clone, Copy, PartialEq, Eq, Structural)]
pub enum ConvertError {
    /// The length of an encoded input does not fit the encoding's block size.
    InvalidInputLength,
    /// The output buffer is shorter than the converted data.
    InvalidOutputLength,
    /// The input holds a character outside the alphabet, or a misplaced `=`.
    InvalidInput,
}

} // verus!

verus! {

/// A conversion into a buffer that held `before`, now holds `after` and returned `r`, did
/// what `outcome` asks: on success it returned the length of the converted data, which
/// now stands at the start of the buffer while the rest is untouched; on failure it
/// returned that error, and it wrote nothing unless the error was found in the content.
pub open spec fn fulfils(
    outcome: Result<Seq<u8>, ConvertError>,
    r: Result<usize, ConvertError>,
    before: Seq<u8>,
    after: Seq<u8>,
) -> bool {
    &&& after.len() == before.len()
    &&& match outcome {
        Ok(d) => {
            &&& r == Ok::<usize, ConvertError>(d.len() as usize)
            &&& d.len() <= before.len()
            &&& after == d + before.skip(d.len() as int)
        },
        Err(e) => {
            &&& r == Err::<usize, ConvertError>(e)
            &&& (e != ConvertError::InvalidInput ==> after == before)
        },
    }
}

} // verus!
