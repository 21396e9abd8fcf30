use vstd::prelude::*;

verus! {

/// The pixel that stands in for every fully transparent pixel.
pub const EMPTY_PIX: [u8; 4] = [0, 0, 0, 0];

/// The four zero channels of `EMPTY_PIX`, as a sequence.
pub open spec fn empty_pixel() -> Seq<u8> {
    seq![0u8, 0u8, 0u8, 0u8]
}

/// What a pixel (four channels, alpha last) is treated as when it is remapped:
/// a pixel whose alpha is zero counts as all zeros, any other pixel as itself.
pub open spec fn effective_pixel(pix: Seq<u8>) -> Seq<u8> {
    if pix[3] == 0 {
        empty_pixel()
    } else {
        pix
    }
}

/// A pixel is read as the all-zero pixel exactly when its alpha channel is
/// zero, whatever its colour channels hold; a pixel with any other alpha is
/// read unchanged, channel for channel.
pub proof fn lemma_transparent_pixels_only(pix: Seq<u8>)
    requires
        pix.len() >= 4,
    ensures
        pix[3] == 0 ==> effective_pixel(pix) == seq![0u8, 0u8, 0u8, 0u8],
        pix[3] != 0 ==> effective_pixel(pix) == pix,
        forall|k: int| 0 <= k < 4 ==> #[trigger] effective_pixel(pix)[k] == (if pix[3] == 0 { 0u8 } else { pix[k] }),
{
    if pix[3] == 0 {
        assert(effective_pixel(pix) =~= seq![0u8, 0u8, 0u8, 0u8]);
    }
}

/// Replaces a fully transparent pixel by the all-zero pixel.
pub fn pix_or_empty(pix: &[u8]) -> (res: &[u8])
    requires
        pix@.len() >= 4,
    ensures
        res@ == effective_pixel(pix@),
        pix@[3] == 0 ==> res@ == seq![0u8, 0u8, 0u8, 0u8],
        pix@[3] != 0 ==> res@ == pix@,
{
    if pix[3] == 0 {
        let empty: &[u8] = &EMPTY_PIX;
        assert(empty@ =~= empty_pixel());
        return empty;
    }
    pix
}

/// The pixel with row-major index `point` in RGBA data (four bytes a pixel),
/// with a fully transparent pixel replaced by the all-zero pixel.
pub fn pixel_at(data: &[u8], point: usize) -> (pix: [u8; 4])
    requires
        4 * point + 4 <= data.len(),
    ensures
        pix@ == effective_pixel(data@.subrange(4 * point, 4 * point + 4)),
        data@[4 * point + 3] == 0 ==> pix@ == seq![0u8, 0u8, 0u8, 0u8],
        data@[4 * point + 3] != 0 ==> pix@ == seq![
            data@[4 * point],
            data@[4 * point + 1],
            data@[4 * point + 2],
            data@[4 * point + 3],
        ],
{
    let data_point = point * 4;
    let p = pix_or_empty(&data[data_point..data_point + 4]);
    let pix = [p[0], p[1], p[2], p[3]];
    assert(pix@ =~= p@);
    pix
}

} // verus!
