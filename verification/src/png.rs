//! PNG export of pixel arrays as base64 text, and the shape checks of heatmap overlays.
use vstd::prelude::*;
use base64::Engine;
use crate::decimal::{decimal, decimal_string};
use crate::error::VisionError;
use crate::grid::PixelArray;

verus! {

/// How the bytes of one pixel are laid out.
#[derive(Clone, Copy, Debug, PartialEq, Eq, Structural)]
pub enum PixelLayout {
    /// Red, green, blue.
    Rgb8,
    /// Red, green, blue, alpha.
    Rgba8,
}

/// The PNG file the `image` crate writes for an 8-bit image of the given
/// size and layout whose row-major pixel bytes are `raw`.
pub uninterp spec fn png_encoding(width: nat, height: nat, layout: PixelLayout, raw: Seq<u8>) -> Seq<u8>;

/// The standard base64 text of `bytes` (RFC 4648, with `=` padding): each
/// group of three bytes becomes four characters of six bits each, and a last
/// group of one or two bytes is padded.
pub open spec fn base64_standard(bytes: Seq<u8>) -> Seq<char>
    decreases bytes.len(),
{
    if bytes.len() == 0 {
        seq![]
    } else if bytes.len() == 1 {
        let a = bytes[0] as int;
        seq![base64_digit(a / 4), base64_digit((a % 4) * 16), '=', '=']
    } else if bytes.len() == 2 {
        let a = bytes[0] as int;
        let b = bytes[1] as int;
        seq![base64_digit(a / 4), base64_digit((a % 4) * 16 + b / 16), base64_digit((b % 16) * 4), '=']
    } else {
        let a = bytes[0] as int;
        let b = bytes[1] as int;
        let c = bytes[2] as int;
        seq![
            base64_digit(a / 4),
            base64_digit((a % 4) * 16 + b / 16),
            base64_digit((b % 16) * 4 + c / 64),
            base64_digit(c % 64),
        ] + base64_standard(bytes.skip(3))
    }
}

/// The character of a six-bit value in the standard base64 alphabet:
/// `A`-`Z`, `a`-`z`, `0`-`9`, `+`, `/`.
pub open spec fn base64_digit(v: int) -> char {
    if v < 26 {
        (65 + v) as char
    } else if v < 52 {
        (97 + v - 26) as char
    } else if v < 62 {
        (48 + v - 52) as char
    } else if v == 62 {
        '+'
    } else {
        '/'
    }
}

/// Length of standard base64 text with padding for `n` bytes.
pub open spec fn base64_len(n: nat) -> nat {
    4 * ((n + 2) / 3)
}

/// `DynamicImage::write_to` with `ImageFormat::Png` on the image that
/// `ImageBuffer::from_raw` makes of `raw`. On success the bytes are
/// `png_encoding` of the arguments and, being a `Vec`, hold at most
/// `isize::MAX` bytes. The PNG encoder refuses a zero width or height, and
/// takes every 8-bit RGB or RGBA image whose sides are at most `i32::MAX`
/// (the PNG limit), writing into memory; of larger sides nothing is claimed.
#[verifier::external_body]
fn encode_png(width: u32, height: u32, layout: PixelLayout, raw: Vec<u8>) -> (r: Result<Vec<u8>, image::ImageError>)
    requires
        raw@.len() == width * height * (if layout == PixelLayout::Rgb8 { 3int } else { 4int }),
    ensures
        r matches Ok(b) ==> b@ == png_encoding(width as nat, height as nat, layout, raw@) && b@.len()
            <= isize::MAX,
        width == 0 || height == 0 ==> r is Err,
        1 <= width <= i32::MAX && 1 <= height <= i32::MAX ==> r is Ok,
{
    let image = match layout {
        PixelLayout::Rgb8 => image::DynamicImage::ImageRgb8(image::RgbImage::from_raw(width, height, raw).unwrap()),
        PixelLayout::Rgba8 => image::DynamicImage::ImageRgba8(image::RgbaImage::from_raw(width, height, raw).unwrap()),
    };
    let mut out = std::io::Cursor::new(Vec::new());
    image.write_to(&mut out, image::ImageFormat::Png)?;
    Ok(out.into_inner())
}

/// `base64::engine::general_purpose::STANDARD.encode`: the text is
/// `base64_standard` of the bytes, of length `base64_len`. The call panics
/// when that length does not fit in `usize`, which `requires` rules out.
#[verifier::external_body]
fn encode_base64(bytes: &[u8]) -> (s: String)
    requires
        base64_len(bytes@.len()) <= usize::MAX,
    ensures
        s@ == base64_standard(bytes@),
        s@.len() == base64_len(bytes@.len()),
{
    base64::engine::general_purpose::STANDARD.encode(bytes)
}

/// The pixel layout for a channel count, if it has one.
pub open spec fn layout_for(channels: nat) -> Option<PixelLayout> {
    if channels == 3 {
        Some(PixelLayout::Rgb8)
    } else if channels == 4 {
        Some(PixelLayout::Rgba8)
    } else {
        None
    }
}

/// Encodes a height x width array of RGB (3 channels) or RGBA (4 channels)
/// pixels as a PNG file and returns it as standard base64 text. Any other
/// channel count is refused as invalid input; an encoder failure is returned
/// as an image error: the encoder refuses an empty image and succeeds on
/// every image whose sides are between 1 and `i32::MAX`.
pub fn array_to_base64_png(array: &PixelArray) -> (r: Result<String, VisionError>)
    requires
        array@.width <= u32::MAX,
        array@.height <= u32::MAX,
    ensures
        layout_for(array@.channels) is None ==> (r matches Err(VisionError::InvalidInput(m)) && m@
            == "Unsupported channel count: "@ + decimal(array@.channels)),
        layout_for(array@.channels) matches Some(layout) ==> match r {
            Ok(s) => s@ == base64_standard(png_encoding(array@.width, array@.height, layout, array@.cells)),
            Err(e) => e is ImageError,
        },
        layout_for(array@.channels) is Some && (array@.width == 0 || array@.height == 0) ==> r is Err,
        layout_for(array@.channels) is Some && 1 <= array@.width <= i32::MAX && 1 <= array@.height <= i32::MAX
            ==> r is Ok,
{
    proof {
        use_type_invariant(array);
        array.lemma_view();
        reveal_strlit("Unsupported channel count: ");
    }
    let layout = if array.channels == 3 {
        PixelLayout::Rgb8
    } else if array.channels == 4 {
        PixelLayout::Rgba8
    } else {
        let mut m = "Unsupported channel count: ".to_owned();
        let digits = decimal_string(array.channels);
        m.append(digits.as_str());
        return Err(VisionError::InvalidInput(m));
    };
    let raw = array.data.clone();
    match encode_png(array.width as u32, array.height as u32, layout, raw) {
        Ok(png) => {
            proof {
                assert(base64_len(png@.len()) <= usize::MAX);
            }
            Ok(encode_base64(png.as_slice()))
        },
        Err(e) => Err(VisionError::ImageError(e)),
    }
}

/// Text of a pair of dimensions, `(a, b)`.
pub open spec fn dims_text(a: nat, b: nat) -> Seq<char> {
    "("@ + decimal(a) + ", "@ + decimal(b) + ")"@
}

fn dims_string(a: usize, b: usize) -> (s: String)
    ensures
        s@ == dims_text(a as nat, b as nat),
{
    proof {
        reveal_strlit("(");
        reveal_strlit(", ");
        reveal_strlit(")");
    }
    let mut s = "(".to_owned();
    let da = decimal_string(a);
    s.append(da.as_str());
    s.append(", ");
    let db = decimal_string(b);
    s.append(db.as_str());
    s.append(")");
    s
}

/// Checks that a heatmap can be laid over an image: the two must have the
/// same height and width (else a shape mismatch naming both), and the image
/// must have three channels (else invalid input).
pub fn check_overlay_shapes(
    image_height: usize,
    image_width: usize,
    image_channels: usize,
    heat_height: usize,
    heat_width: usize,
) -> (r: Result<(), VisionError>)
    ensures
        (image_height != heat_height || image_width != heat_width) ==> (r matches Err(
            VisionError::ShapeMismatch { expected, actual },
        ) && expected@ == dims_text(image_height as nat, image_width as nat) && actual@ == dims_text(
            heat_height as nat,
            heat_width as nat,
        )),
        (image_height == heat_height && image_width == heat_width && image_channels != 3) ==> (r matches Err(
            VisionError::InvalidInput(m),
        ) && m@ == "Image must have 3 channels"@),
        (image_height == heat_height && image_width == heat_width && image_channels == 3) ==> r is Ok,
{
    if image_height != heat_height || image_width != heat_width {
        return Err(
            VisionError::ShapeMismatch {
                expected: dims_string(image_height, image_width),
                actual: dims_string(heat_height, heat_width),
            },
        );
    }
    if image_channels != 3 {
        return Err(VisionError::InvalidInput("Image must have 3 channels".to_owned()));
    }
    Ok(())
}

} // verus!
