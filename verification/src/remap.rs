use vstd::prelude::*;

verus! {

/// Errors that quantization and remapping report.
#[derive(Debug, Clone, Copy, PartialEq, Eq, Structural)]
pub enum Error {
    /// A setting is outside the range that it accepts.
    ValueOutOfRange,
    /// The output buffer has fewer bytes than the image has pixels.
    BufferTooSmall,
}

/// Checks that an output buffer of `buf_len` bytes can take one palette index
/// for each pixel of a `width` by `height` image.
pub fn check_output_buffer(buf_len: usize, width: usize, height: usize) -> (res: Result<(), Error>)
    requires
        width * height <= usize::MAX,
    ensures
        res is Ok <==> buf_len >= width * height,
        res is Err ==> res == Err::<(), Error>(Error::BufferTooSmall),
{
    if buf_len < width * height {
        return Err(Error::BufferTooSmall);
    }
    Ok(())
}

} // verus!
