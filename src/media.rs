use vstd::prelude::*;
use base64::Engine;

verus! {

/// The JPEG re-encoding of the image held in bytes `b`, or `None` where `b`
/// is no decodable image or the image cannot be written as JPEG.
pub uninterp spec fn jpeg_of(b: Seq<u8>) -> Option<Seq<u8>>;

/// The standard, padded base64 text of bytes `b`, as ASCII bytes.
pub uninterp spec fn base64_of(b: Seq<u8>) -> Seq<u8>;

/// Relies on `image::load_from_memory` (format guessed from the bytes) and
/// `image::DynamicImage::write_to` with `ImageFormat::Jpeg`: both depend on
/// the bytes alone.
#[verifier::external_body]
pub(crate) fn reencode_jpeg(b: &Vec<u8>) -> (r: Option<Vec<u8>>)
    ensures
        match r {
            Some(v) => jpeg_of(b@) == Some(v@),
            None => jpeg_of(b@).is_none(),
        },
{
    let img = image::load_from_memory(b).ok()?;
    let mut buf: Vec<u8> = Vec::new();
    img.write_to(&mut std::io::Cursor::new(&mut buf), image::ImageFormat::Jpeg).ok()?;
    Some(buf)
}

/// Relies on `base64::Engine::encode` of `general_purpose::STANDARD`: four
/// characters for every started group of three bytes, padding included. Its
/// length computation panics on overflow, hence the bound.
#[verifier::external_body]
pub(crate) fn encode_base64(b: &Vec<u8>) -> (r: Vec<u8>)
    requires
        b@.len() < usize::MAX / 4,
    ensures
        r@ == base64_of(b@),
        r@.len() == 4 * ((b@.len() + 2) / 3),
{
    base64::engine::general_purpose::STANDARD.encode(b).into_bytes()
}

} // verus!
