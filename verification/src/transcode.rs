//! The image transcoder: exactly one fixed-size rendition per raw item.
//!
//! The rendition is a bounded fit: the decoded image is scaled to fit
//! within 1080 x 1080, preserving its aspect ratio, with the Lanczos3
//! filter, and encoded as JPEG. A payload is renderable when it decodes
//! as a supported raster image and the scaled image encodes; an image
//! that decodes but cannot be re-encoded is reported as a decode failure
//! too.

use vstd::prelude::*;
use crate::Error;

verus! {

/// The rendition's bounding box, both axes.
pub const RENDITION_SIZE: u32 = 1080;

/// Whether a byte payload decodes as a supported raster image whose
/// rendition encodes; a function of the bytes alone.
pub uninterp spec fn renderable(bytes: Seq<u8>) -> bool;

/// The rendition bytes of a renderable payload; a function of the input
/// bytes alone (unconstrained on payloads that are not renderable).
pub uninterp spec fn rendition_of(bytes: Seq<u8>) -> Seq<u8>;

/// Relies on image's load_from_memory (the format guessed from the
/// payload's own leading bytes), DynamicImage::resize (scale to fit the
/// bounds, keeping aspect ratio, Lanczos3) and DynamicImage::write_to
/// with the JPEG format: each step returns its errors rather than
/// panicking, and the pipeline's outcome is a function of the input
/// bytes alone.
#[verifier::external_body]
fn render_pipeline(bytes: &[u8]) -> (r: Result<Vec<u8>, ()>)
    ensures
        r.is_ok() == renderable(bytes@),
        r.is_ok() ==> r.unwrap()@ == rendition_of(bytes@),
{
    let img = match image::load_from_memory(bytes) {
        Ok(img) => img,
        Err(_) => {
            return Err(());
        },
    };
    let resized = img.resize(RENDITION_SIZE, RENDITION_SIZE, image::imageops::FilterType::Lanczos3);
    let mut buf = std::io::Cursor::new(Vec::new());
    match resized.write_to(&mut buf, image::ImageFormat::Jpeg) {
        Ok(()) => Ok(buf.into_inner()),
        Err(_) => Err(()),
    }
}

/// Produces the display rendition of a raw payload: decode, scale to fit
/// the bounding box, encode as JPEG. Succeeds exactly on renderable
/// payloads, with the rendition fixed by the input bytes; everything
/// else fails with [`Error::DecodeError`].
pub fn render(bytes: &[u8]) -> (r: Result<Vec<u8>, Error>)
    ensures
        r.is_ok() <==> renderable(bytes@),
        r matches Ok(rendition) ==> rendition@ == rendition_of(bytes@),
        r.is_err() ==> r == Err::<Vec<u8>, Error>(Error::DecodeError),
{
    match render_pipeline(bytes) {
        Ok(rendition) => Ok(rendition),
        Err(()) => Err(Error::DecodeError),
    }
}

} // verus!
