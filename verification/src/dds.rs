//! DDS textures converted to PNG and JPEG with the `image` crate.
use image::dds::DdsDecoder;
use image::jpeg::JPEGEncoder;
use image::png::PNGEncoder;
use image::ImageDecoder;
use vstd::prelude::*;

verus! {

#[verifier::external_type_specification]
#[verifier::external_body]
pub struct ExImageError(image::ImageError);

/// The PNG file that the `image` crate makes of the DXT texture in the DDS
/// file `bytes` (`None` when it cannot decode or encode it).
pub uninterp spec fn png_of_dds(bytes: Seq<u8>) -> Option<Seq<u8>>;

/// The JPEG file (quality 75) that the `image` crate makes of the DXT
/// texture in the DDS file `bytes` (`None` when it cannot decode or encode it).
pub uninterp spec fn jpeg_of_dds(bytes: Seq<u8>) -> Option<Seq<u8>>;

/// The width field of a DDS header (bytes 16 to 19, little-endian) is zero.
pub open spec fn zero_width(bytes: Seq<u8>) -> bool {
    bytes.len() >= 20 && bytes[16] == 0 && bytes[17] == 0 && bytes[18] == 0 && bytes[19] == 0
}

/// Why a texture could not be converted.
#[derive(Debug)]
pub enum ConvError {
    /// The texture is zero pixels wide; decoding it would panic in the
    /// `image` crate (its DXT reader reads rows in chunks of zero bytes).
    ZeroWidth,
    /// The `image` crate could not decode or encode the texture.
    Image(image::ImageError),
}

/// Decodes the DDS file `bytes` with `image::dds::DdsDecoder` (`new`, then
/// `read_image` into a buffer of `total_bytes`) and encodes the pixels with
/// `image::png::PNGEncoder::encode`. Trusted: the result is
/// `png_of_dds(bytes)`. Both calls return their errors; a decodable texture
/// of width zero panics in `read_image`, so such a header is left out.
#[verifier::external_body]
fn dds_to_png(bytes: &[u8]) -> (r: Result<Vec<u8>, image::ImageError>)
    requires
        !zero_width(bytes@),
    ensures
        match r {
            Ok(v) => png_of_dds(bytes@) == Some(v@),
            Err(_) => png_of_dds(bytes@) is None,
        },
{
    let dec = DdsDecoder::new(bytes)?;
    let (width, height) = dec.dimensions();
    let color = dec.color_type();
    let mut pixels = vec![0; dec.total_bytes() as usize];
    dec.read_image(&mut pixels)?;
    let mut out = Vec::new();
    PNGEncoder::new(&mut out).encode(&pixels, width, height, color)?;
    Ok(out)
}

/// Decodes the DDS file `bytes` as `dds_to_png` does and encodes the pixels
/// with `image::jpeg::JPEGEncoder::encode` (default quality 75). Trusted: the
/// result is `jpeg_of_dds(bytes)`; a decodable texture of width zero panics,
/// so such a header is left out.
#[verifier::external_body]
fn dds_to_jpg(bytes: &[u8]) -> (r: Result<Vec<u8>, image::ImageError>)
    requires
        !zero_width(bytes@),
    ensures
        match r {
            Ok(v) => jpeg_of_dds(bytes@) == Some(v@),
            Err(_) => jpeg_of_dds(bytes@) is None,
        },
{
    let dec = DdsDecoder::new(bytes)?;
    let (width, height) = dec.dimensions();
    let color = dec.color_type();
    let mut pixels = vec![0; dec.total_bytes() as usize];
    dec.read_image(&mut pixels)?;
    let mut out = Vec::new();
    JPEGEncoder::new(&mut out).encode(&pixels, width, height, color)?;
    Ok(out)
}

fn is_zero_width(bytes: &[u8]) -> (r: bool)
    ensures
        r == zero_width(bytes@),
{
    bytes.len() >= 20 && bytes[16] == 0 && bytes[17] == 0 && bytes[18] == 0 && bytes[19] == 0
}

/// The PNG file of the DDS texture `bytes`. A texture of width zero is
/// refused before it is decoded.
pub fn encode_png(bytes: &[u8]) -> (r: Result<Vec<u8>, ConvError>)
    ensures
        zero_width(bytes@) ==> r matches Err(ConvError::ZeroWidth),
        !zero_width(bytes@) ==> match r {
            Ok(v) => png_of_dds(bytes@) == Some(v@),
            Err(e) => e is Image && png_of_dds(bytes@) is None,
        },
{
    if is_zero_width(bytes) {
        return Err(ConvError::ZeroWidth);
    }
    match dds_to_png(bytes) {
        Ok(v) => Ok(v),
        Err(e) => Err(ConvError::Image(e)),
    }
}

/// The JPEG file of the DDS texture `bytes`. A texture of width zero is
/// refused before it is decoded.
pub fn encode_jpg(bytes: &[u8]) -> (r: Result<Vec<u8>, ConvError>)
    ensures
        zero_width(bytes@) ==> r matches Err(ConvError::ZeroWidth),
        !zero_width(bytes@) ==> match r {
            Ok(v) => jpeg_of_dds(bytes@) == Some(v@),
            Err(e) => e is Image && jpeg_of_dds(bytes@) is None,
        },
{
    if is_zero_width(bytes) {
        return Err(ConvError::ZeroWidth);
    }
    match dds_to_jpg(bytes) {
        Ok(v) => Ok(v),
        Err(e) => Err(ConvError::Image(e)),
    }
}

} // verus!
