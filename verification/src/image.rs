//! Images decoded from the bytes of a file.
use vstd::prelude::*;

verus! {

/// The RGBA image that `image::io::Reader` decodes from the bytes, with the
/// format guessed from their first bytes: its width, its height and its
/// pixels, four bytes each, row by row. It depends on the bytes alone.
pub uninterp spec fn decoded_image(bytes: Seq<u8>) -> Option<(u32, u32, Seq<u8>)>;

/// `image::io::Reader::with_guessed_format` and `decode` on the bytes, the
/// result turned into RGBA by `into_rgba8`. The contract names the result;
/// nothing is stated of the formats the crate reads. That decoding returns
/// rather than panics on malformed bytes rests on the `image` crate: its
/// decoders are not read here, and no precondition excludes such bytes.
#[verifier::external_body]
fn decode_rgba(buf: Vec<u8>) -> (r: Option<(u32, u32, Vec<u8>)>)
    ensures
        match r {
            Some((w, h, p)) => decoded_image(buf@) == Some((w, h, p@)),
            None => decoded_image(buf@) is None,
        },
{
    match ::image::io::Reader::new(std::io::Cursor::new(buf)).with_guessed_format() {
        Ok(reader) => match reader.decode() {
            Ok(img) => {
                let rgba = img.into_rgba8();
                let (w, h) = rgba.dimensions();
                Some((w, h, rgba.into_raw()))
            },
            Err(_) => None,
        },
        Err(_) => None,
    }
}

/// The RGBA image that `image` decodes from the bytes of the file at `path`,
/// in the format that `image::ImageFormat::from_path` gives for the path's
/// extension (as `image::open` does): its width, its height and its pixels.
/// `None` where the extension names no format or the bytes do not decode.
/// It depends on the bytes and the path alone.
pub uninterp spec fn decoded_image_as(bytes: Seq<u8>, path: Seq<char>) -> Option<(u32, u32, Seq<u8>)>;

/// `image::ImageFormat::from_path` on the path, then
/// `image::load_from_memory_with_format` on the bytes in that format, the
/// result turned into RGBA by `into_rgba8`. The contract names the result;
/// nothing is stated of the formats the crate reads. As for
/// [`decode_rgba`], not panicking on malformed bytes rests on `image`.
#[verifier::external_body]
fn decode_rgba_for_path(buf: Vec<u8>, path: &str) -> (r: Option<(u32, u32, Vec<u8>)>)
    ensures
        match r {
            Some((w, h, p)) => decoded_image_as(buf@, path@) == Some((w, h, p@)),
            None => decoded_image_as(buf@, path@) is None,
        },
{
    let format = ::image::ImageFormat::from_path(path).ok()?;
    let img = ::image::load_from_memory_with_format(&buf, format).ok()?.into_rgba8();
    let (w, h) = img.dimensions();
    Some((w, h, img.into_raw()))
}

/// An image ready to draw: where it came from, its size and its RGBA pixels.
#[derive(Debug)]
pub struct LoadedImage {
    pub path: String,
    pub width: i32,
    pub height: i32,
    pub pixels: Vec<u8>,
}

/// The bytes do not decode to an image.
#[derive(Debug, PartialEq, Eq)]
pub struct ImageDecodeError;

/// An image of the given size and pixels, from `path`; the sizes are taken as
/// `i32` the way `as` converts them.
pub fn img_to_loaded_image(width: u32, height: u32, pixels: Vec<u8>, path: String) -> (r: LoadedImage)
    ensures
        r.width == width as i32,
        r.height == height as i32,
        r.pixels@ == pixels@,
        r.path@ == path@,
{
    LoadedImage { path, width: width as i32, height: height as i32, pixels }
}

/// The image that the bytes of a file hold, with the path `none`.
pub fn load_image_from_buffer(buf: Vec<u8>) -> (r: Result<LoadedImage, ImageDecodeError>)
    ensures
        r is Ok <==> decoded_image(buf@) is Some,
        r matches Ok(img) ==> decoded_image(buf@) == Some((img.width as u32, img.height as u32, img.pixels@))
            && img.path@ == "none"@,
{
    let ghost bytes = buf@;
    match decode_rgba(buf) {
        Some((w, h, p)) => {
            let img = img_to_loaded_image(w, h, p, "none".to_owned());
            assert((w as i32) as u32 == w) by (bit_vector);
            assert((h as i32) as u32 == h) by (bit_vector);
            Ok(img)
        },
        None => Err(ImageDecodeError),
    }
}

/// The image that the bytes read from the file at `path` hold, decoded in
/// the format that the path's extension names; the image keeps the path.
pub fn load_image_from_file_bytes(bytes: Vec<u8>, path: String) -> (r: Result<LoadedImage, ImageDecodeError>)
    ensures
        r is Ok <==> decoded_image_as(bytes@, path@) is Some,
        r matches Ok(img) ==> decoded_image_as(bytes@, path@) == Some(
            (img.width as u32, img.height as u32, img.pixels@),
        ) && img.path@ == path@,
{
    match decode_rgba_for_path(bytes, path.as_str()) {
        Some((w, h, p)) => {
            let img = img_to_loaded_image(w, h, p, path);
            assert((w as i32) as u32 == w) by (bit_vector);
            assert((h as i32) as u32 == h) by (bit_vector);
            Ok(img)
        },
        None => Err(ImageDecodeError),
    }
}

} // verus!
