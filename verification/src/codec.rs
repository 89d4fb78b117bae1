//! PNG decoding and encoding, which the `png` crate does.

use vstd::prelude::*;

verus! {

/// What the header of a PNG says: width, height, and the format's own codes for
/// the colour type and the bit depth.
pub struct PngInfo {
    pub width: u32,
    pub height: u32,
    pub color: u8,
    pub depth: u8,
}

/// What `png::Decoder::read_info` makes of the bytes: the header, or the
/// decoder's complaint.
pub uninterp spec fn png_info(data: Seq<u8>) -> Result<PngInfo, Seq<char>>;

/// What `png::Reader::next_frame` makes of the bytes with a zeroed buffer of
/// `len` bytes: the buffer's new contents and the palette, empty where there is
/// none, or the decoder's complaint.
pub uninterp spec fn png_frame(data: Seq<u8>, len: usize) -> Result<
    (Seq<u8>, Seq<u8>),
    Seq<char>,
>;

/// What a `png::Encoder` for 8-bit RGB writes for the pixels `data` of an image of
/// that size.
pub uninterp spec fn png_bytes(width: u32, height: u32, data: Seq<u8>) -> Result<
    Seq<u8>,
    Seq<char>,
>;

/// `png::Decoder::new(..).read_info()` and what `info()` then shows. The outcome
/// is a function of the bytes. Where there is a header, neither extent is zero and
/// the codes are those of the format: the decoder refuses anything else.
#[verifier::external_body]
pub(crate) fn read_info(data: &[u8]) -> (r: Result<PngInfo, String>)
    ensures
        match r {
            Ok(i) => {
                &&& png_info(data@) == Ok::<PngInfo, Seq<char>>(i)
                &&& i.width > 0 && i.height > 0
                &&& i.color == 0 || i.color == 2 || i.color == 3 || i.color == 4 || i.color == 6
                &&& i.depth == 1 || i.depth == 2 || i.depth == 4 || i.depth == 8 || i.depth == 16
            },
            Err(e) => png_info(data@) == Err::<PngInfo, Seq<char>>(e@),
        },
{
    let reader = png::Decoder::new(data).read_info().map_err(|e| e.to_string())?;
    let i = reader.info();
    let (color, depth) = (i.color_type as u8, i.bit_depth as u8);
    Ok(PngInfo { width: i.width, height: i.height, color, depth })
}

/// `png::Reader::next_frame` on a zeroed buffer of `len` bytes, and the palette
/// that `info()` then shows. The outcome is a function of the bytes and of `len`;
/// the buffer keeps its length. No buffer is longer than `isize::MAX`.
#[verifier::external_body]
pub(crate) fn next_frame(data: &[u8], len: usize) -> (r: Result<(Vec<u8>, Vec<u8>), String>)
    requires
        len <= isize::MAX,
    ensures
        match r {
            Ok(f) => f.0@.len() == len && png_frame(data@, len) == Ok::<
                (Seq<u8>, Seq<u8>),
                Seq<char>,
            >((f.0@, f.1@)),
            Err(e) => png_frame(data@, len) == Err::<(Seq<u8>, Seq<u8>), Seq<char>>(e@),
        },
{
    let mut reader = png::Decoder::new(data).read_info().map_err(|e| e.to_string())?;
    let mut buf = vec![0u8; len];
    reader.next_frame(&mut buf).map_err(|e| e.to_string())?;
    let palette = reader.info().palette.as_ref().map(|p| p.to_vec()).unwrap_or_default();
    Ok((buf, palette))
}

/// A big-endian 32-bit number.
pub open spec fn be32(b: Seq<u8>, at: int) -> int {
    b[at] * 16777216 + b[at + 1] * 65536 + b[at + 2] * 256 + b[at + 3]
}

/// Whether the bytes begin as an 8-bit RGB PNG of that size does: the signature
/// and the header chunk.
pub open spec fn starts_as_rgb8(b: Seq<u8>, width: u32, height: u32) -> bool {
    &&& b.len() >= 29
    &&& b.take(8) == seq![137u8, 80, 78, 71, 13, 10, 26, 10]
    &&& be32(b, 16) == width
    &&& be32(b, 20) == height
    &&& b[24] == 8
    &&& b[25] == 2
}

/// The longest row, in bytes, that `png::Decoder` buffers by default.
pub const ROW_LIMIT: u32 = 67_108_864;

/// Whether a decoder makes of the bytes `b` the header of an 8-bit RGB image of
/// that size, and of a buffer of the image's size the pixels `data`.
pub open spec fn reads_back(b: Seq<u8>, width: u32, height: u32, data: Seq<u8>) -> bool {
    &&& png_info(b) == Ok::<PngInfo, Seq<char>>(PngInfo { width, height, color: 2, depth: 8 })
    &&& png_frame(b, (width * height * 3) as usize) == Ok::<(Seq<u8>, Seq<u8>), Seq<char>>(
        (data, Seq::empty()),
    )
}

/// A `png::Encoder` over a growing buffer, set to 8-bit RGB: `write_header`,
/// `write_image_data` and `finish`. The outcome is a function of the arguments.
/// It succeeds exactly where neither extent is zero and there are three bytes for
/// each pixel, and then begins with the signature and a header of that size.
/// The encoding is lossless and not interlaced: `png::Decoder` gives the header and
/// the pixels back, and no palette, where a row is not longer than it buffers.
#[verifier::external_body]
pub(crate) fn encode(width: u32, height: u32, data: &[u8]) -> (r: Result<Vec<u8>, String>)
    requires
        width * 3 < usize::MAX,
        width * 3 * height <= usize::MAX,
    ensures
        r is Ok <==> (width > 0 && height > 0 && data@.len() == width * 3 * height),
        match r {
            Ok(b) => png_bytes(width, height, data@) == Ok::<Seq<u8>, Seq<char>>(b@)
                && starts_as_rgb8(b@, width, height) && (width * 3 <= ROW_LIMIT ==> reads_back(
                b@,
                width,
                height,
                data@,
            )),
            Err(e) => png_bytes(width, height, data@) == Err::<Seq<u8>, Seq<char>>(e@),
        },
{
    let mut out = Vec::new();
    let mut encoder = png::Encoder::new(&mut out, width, height);
    encoder.set_color(png::ColorType::Rgb);
    encoder.set_depth(png::BitDepth::Eight);
    let mut writer = encoder.write_header().map_err(|e| e.to_string())?;
    writer.write_image_data(data).map_err(|e| e.to_string())?;
    writer.finish().map_err(|e| e.to_string())?;
    Ok(out)
}

} // verus!
