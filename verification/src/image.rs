//! Images, PNG reading and writing, and the reflection that padding needs.

use vstd::prelude::*;

use crate::codec::{
    encode, next_frame, png_bytes, png_frame, png_info, read_info, starts_as_rgb8, PngInfo,
    ROW_LIMIT,
};
use crate::grid::{cell, lemma_cell, lemma_next_row, lemma_position, lemma_row_start};

verus! {

// ---------------------------------------------------------------------------
// Images
// ---------------------------------------------------------------------------

/// An 8-bit RGB image, row-major, three bytes a pixel.
pub struct Rgb8 {
    pub width: usize,
    pub height: usize,
    pub data: Vec<u8>,
}

/// An 8-bit single-channel image, row-major.
pub struct Gray8 {
    pub width: usize,
    pub height: usize,
    pub data: Vec<u8>,
}

impl Rgb8 {
    /// There are three bytes for each pixel.
    pub open spec fn wf(&self) -> bool {
        self.data@.len() == self.height * self.width * 3
    }

    /// The colour component `c` of the pixel in row `y`, column `x`.
    pub open spec fn at(&self, y: int, x: int, c: int) -> u8 {
        self.data@[cell(self.width as int, y, x) * 3 + c]
    }

    /// A black image.
    pub fn new(width: usize, height: usize) -> (r: Rgb8)
        requires
            height * width * 3 <= isize::MAX,
        ensures
            r.width == width,
            r.height == height,
            r.wf(),
            forall|i: int| 0 <= i < r.data@.len() ==> r.data@[i] == 0,
    {
        assert(width * height == height * width) by (nonlinear_arith);
        let n: usize = width * height * 3;
        Rgb8 { width, height, data: vec![0u8; n] }
    }
}

impl Gray8 {
    /// There is one byte for each pixel.
    pub open spec fn wf(&self) -> bool {
        self.data@.len() == self.height * self.width
    }

    /// The value of the pixel in row `y`, column `x`.
    pub open spec fn at(&self, y: int, x: int) -> u8 {
        self.data@[cell(self.width as int, y, x)]
    }
}

// ---------------------------------------------------------------------------
// Decoded samples
// ---------------------------------------------------------------------------

/// How the samples of a decoded image make up its pixels.
#[derive(Clone, Copy, PartialEq, Eq, Structural, Debug)]
pub enum ColorType {
    Grayscale,
    Rgb,
    Indexed,
    GrayscaleAlpha,
    Rgba,
}

/// The width of a sample.
#[derive(Clone, Copy, PartialEq, Eq, Structural, Debug)]
pub enum BitDepth {
    One,
    Two,
    Four,
    Eight,
    Sixteen,
}

pub open spec fn color_type(code: u8) -> ColorType {
    if code == 2 {
        ColorType::Rgb
    } else if code == 3 {
        ColorType::Indexed
    } else if code == 4 {
        ColorType::GrayscaleAlpha
    } else if code == 6 {
        ColorType::Rgba
    } else {
        ColorType::Grayscale
    }
}

pub open spec fn bit_depth(code: u8) -> BitDepth {
    if code == 1 {
        BitDepth::One
    } else if code == 2 {
        BitDepth::Two
    } else if code == 4 {
        BitDepth::Four
    } else if code == 8 {
        BitDepth::Eight
    } else {
        BitDepth::Sixteen
    }
}

/// The number of samples in a pixel.
pub open spec fn channels(color: ColorType) -> int {
    match color {
        ColorType::Grayscale => 1,
        ColorType::GrayscaleAlpha => 2,
        ColorType::Rgb => 3,
        ColorType::Rgba => 4,
        ColorType::Indexed => 1,
    }
}

/// The number of bits in a sample.
pub open spec fn depth_bits(depth: BitDepth) -> int {
    match depth {
        BitDepth::One => 1,
        BitDepth::Two => 2,
        BitDepth::Four => 4,
        BitDepth::Eight => 8,
        BitDepth::Sixteen => 16,
    }
}

/// The number of bytes in a row: its samples one after the other, filled up to a
/// whole byte.
pub open spec fn row_bytes(width: int, color: ColorType, depth: BitDepth) -> int {
    (width * channels(color) * depth_bits(depth) + 7) / 8
}

/// Two to the power of `s`, for the bits of a byte.
pub open spec fn place(s: int) -> int {
    if s == 0 {
        1
    } else if s == 1 {
        2
    } else if s == 2 {
        4
    } else if s == 3 {
        8
    } else if s == 4 {
        16
    } else if s == 5 {
        32
    } else if s == 6 {
        64
    } else {
        128
    }
}

/// The sample of `bits` bits that begins `at` bits into a byte, from the high end.
pub open spec fn narrow(b: u8, bits: int, at: int) -> int {
    b as int / place(8 - bits - at) % place(bits)
}

/// A value of `depth` at the scale of 8 bits: the greatest becomes 255. Of a
/// wide one, `v` is the high byte.
pub open spec fn at_eight_bits(v: u8, depth: BitDepth) -> int {
    match depth {
        BitDepth::One => v * 255,
        BitDepth::Two => v * 85,
        BitDepth::Four => v * 17,
        BitDepth::Eight => v as int,
        BitDepth::Sixteen => v as int,
    }
}

/// An image as it was decoded: its samples, and the palette of an indexed one.
pub struct Raw {
    pub width: usize,
    pub height: usize,
    pub color: ColorType,
    pub depth: BitDepth,
    pub channels: usize,
    pub buf: Vec<u8>,
    pub palette: Vec<u8>,
}

/// What a `Raw` holds.
pub struct RawView {
    pub width: usize,
    pub height: usize,
    pub color: ColorType,
    pub depth: BitDepth,
    pub buf: Seq<u8>,
    pub palette: Seq<u8>,
}

impl View for Raw {
    type V = RawView;

    open spec fn view(&self) -> RawView {
        RawView {
            width: self.width,
            height: self.height,
            color: self.color,
            depth: self.depth,
            buf: self.buf@,
            palette: self.palette@,
        }
    }
}

impl RawView {
    /// There is a whole row of samples for every row of pixels.
    pub open spec fn wf(self) -> bool {
        &&& self.width <= u32::MAX
        &&& self.buf.len() == self.height * row_bytes(self.width as int, self.color, self.depth)
    }

    /// Channel `c` of the pixel in row `y`, column `x`; the high byte of a wide
    /// sample.
    pub open spec fn sample(self, y: int, x: int, c: int) -> u8 {
        let bits = depth_bits(self.depth);
        let at = (x * channels(self.color) + c) * bits;
        let b = self.buf[cell(row_bytes(self.width as int, self.color, self.depth), y, at / 8)];
        if bits < 8 {
            narrow(b, bits, at % 8) as u8
        } else {
            b
        }
    }

    /// The palette entry that an index stands for: past the end, the last one.
    pub open spec fn entry(self, index: u8) -> int {
        let entries = self.palette.len() as int / 3;
        let last = if entries > 0 {
            entries - 1
        } else {
            0
        };
        if index as int <= last {
            index as int
        } else {
            last
        }
    }

    /// Colour component `c` of the pixel in row `y`, column `x`: grey, at the scale
    /// of 8 bits, stands for all three, an index for its palette entry, and alpha is
    /// left out.
    pub open spec fn component(self, y: int, x: int, c: int) -> u8 {
        match self.color {
            ColorType::Rgb => at_eight_bits(self.sample(y, x, c), self.depth) as u8,
            ColorType::Rgba => at_eight_bits(self.sample(y, x, c), self.depth) as u8,
            ColorType::Grayscale => at_eight_bits(self.sample(y, x, 0), self.depth) as u8,
            ColorType::GrayscaleAlpha => at_eight_bits(self.sample(y, x, 0), self.depth) as u8,
            ColorType::Indexed => {
                let o = self.entry(self.sample(y, x, 0)) * 3;
                if o + 2 < self.palette.len() {
                    self.palette[o + c]
                } else {
                    0
                }
            },
        }
    }

    /// The image as 8-bit RGB.
    pub open spec fn rgb(self) -> Seq<u8> {
        Seq::new(
            (self.height * self.width * 3) as nat,
            |k: int|
                self.component(k / 3 / self.width as int, k / 3 % self.width as int, k % 3),
        )
    }
}

/// The length of the buffer that the samples of an image take.
pub open spec fn frame_len(i: PngInfo) -> int {
    i.height * row_bytes(i.width as int, color_type(i.color), bit_depth(i.depth))
}

/// What decoding the bytes of a PNG comes to.
pub open spec fn decoded(data: Seq<u8>) -> Result<RawView, Seq<char>> {
    match png_info(data) {
        Err(e) => Err(e),
        Ok(i) => match png_frame(data, frame_len(i) as usize) {
            Err(e) => Err(e),
            Ok(f) => Ok(
                RawView {
                    width: i.width as usize,
                    height: i.height as usize,
                    color: color_type(i.color),
                    depth: bit_depth(i.depth),
                    buf: f.0,
                    palette: f.1,
                },
            ),
        },
    }
}

/// Whether the samples of the image fit a buffer: none is longer than `isize::MAX`.
pub open spec fn frame_fits(data: Seq<u8>) -> bool {
    match png_info(data) {
        Err(_) => true,
        Ok(i) => frame_len(i) <= isize::MAX,
    }
}

fn color_of(code: u8) -> (r: ColorType)
    ensures
        r == color_type(code),
{
    match code {
        2 => ColorType::Rgb,
        3 => ColorType::Indexed,
        4 => ColorType::GrayscaleAlpha,
        6 => ColorType::Rgba,
        _ => ColorType::Grayscale,
    }
}

fn depth_of(code: u8) -> (r: BitDepth)
    ensures
        r == bit_depth(code),
{
    match code {
        1 => BitDepth::One,
        2 => BitDepth::Two,
        4 => BitDepth::Four,
        8 => BitDepth::Eight,
        _ => BitDepth::Sixteen,
    }
}

fn bits_of(depth: BitDepth) -> (r: u64)
    ensures
        r == depth_bits(depth),
{
    match depth {
        BitDepth::One => 1,
        BitDepth::Two => 2,
        BitDepth::Four => 4,
        BitDepth::Eight => 8,
        BitDepth::Sixteen => 16,
    }
}

/// The number of bytes in a row.
fn row_of(width: usize, color: ColorType, depth: BitDepth) -> (r: u64)
    requires
        width <= u32::MAX,
    ensures
        r == row_bytes(width as int, color, depth),
        r <= 0x10_0000_0000,
{
    let (w, c, b) = (width as u64, channels_of(color) as u64, bits_of(depth));
    proof {
        lemma_row(w as int, c as int, b as int);
    }
    (w * c * b + 7) / 8
}

/// The bits of a row can be counted.
proof fn lemma_row(w: int, c: int, b: int)
    requires
        0 <= w <= u32::MAX,
        1 <= c <= 4,
        1 <= b <= 16,
    ensures
        0 <= w * c <= w * 4,
        0 <= w * c * b <= w * 64,
        w <= w * c <= w * c * b,
{
    assert(0 <= w * c <= w * 4 && w <= w * c) by (nonlinear_arith)
        requires
            0 <= w,
            1 <= c <= 4,
    ;
    let s = w * c;
    assert(s <= s * b <= s * 16) by (nonlinear_arith)
        requires
            0 <= s,
            1 <= b <= 16,
    ;
}

fn channels_of(color: ColorType) -> (r: usize)
    ensures
        r == channels(color),
{
    match color {
        ColorType::Grayscale => 1,
        ColorType::GrayscaleAlpha => 2,
        ColorType::Rgb => 3,
        ColorType::Rgba => 4,
        ColorType::Indexed => 1,
    }
}

/// Decode the bytes of a PNG.
pub fn decode_raw(data: &[u8]) -> (r: Result<Raw, String>)
    requires
        frame_fits(data@),
    ensures
        match r {
            Ok(raw) => decoded(data@) == Ok::<RawView, Seq<char>>(raw@) && raw@.wf()
                && raw.channels == channels(raw.color) && raw.width > 0 && raw.height > 0,
            Err(e) => decoded(data@) == Err::<RawView, Seq<char>>(e@),
        },
{
    let info = match read_info(data) {
        Ok(info) => info,
        Err(e) => {
            return Err(e);
        },
    };
    let width = info.width as usize;
    let height = info.height as usize;
    let color = color_of(info.color);
    let depth = depth_of(info.depth);
    let row = row_of(width, color, depth);
    proof {
        assert(row <= height * row) by (nonlinear_arith)
            requires
                1 <= height,
                0 <= row,
        ;
    }
    let len: usize = height * row as usize;
    let frame = match next_frame(data, len) {
        Ok(frame) => frame,
        Err(e) => {
            return Err(e);
        },
    };
    let (buf, palette) = frame;
    Ok(Raw { width, height, color, depth, channels: channels_of(color), buf, palette })
}

/// A sample of a pixel of the image lies in its row.
proof fn lemma_sample(raw: RawView, x: int, c: int)
    requires
        raw.wf(),
        0 <= x < raw.width,
        0 <= c < channels(raw.color),
    ensures
        ({
            let bits = depth_bits(raw.depth);
            let k = x * channels(raw.color) + c;
            &&& 0 <= x * channels(raw.color) <= k <= raw.width * 4
            &&& 0 <= k * bits <= raw.width * 64
            &&& k * bits / 8 < row_bytes(raw.width as int, raw.color, raw.depth)
            &&& bits < 8 ==> k * bits % 8 <= 8 - bits
        }),
{
    let (w, ch, bits) = (raw.width as int, channels(raw.color), depth_bits(raw.depth));
    let k = x * ch + c;
    lemma_row(w, ch, bits);
    assert(0 <= x * ch && k + 1 <= w * ch) by (nonlinear_arith)
        requires
            0 <= x < w,
            0 <= c < ch,
            k == x * ch + c,
    ;
    assert(0 <= k * bits && k * bits + bits <= w * ch * bits) by (nonlinear_arith)
        requires
            0 <= k,
            k + 1 <= w * ch,
            1 <= bits,
    ;
    if bits == 2 {
        assert(k * 2 % 8 <= 6);
    } else if bits == 4 {
        assert(k * 4 % 8 <= 4);
    }
}

fn place_of(s: u64) -> (r: u8)
    ensures
        r == place(s as int),
{
    match s {
        0 => 1,
        1 => 2,
        2 => 4,
        3 => 8,
        4 => 16,
        5 => 32,
        6 => 64,
        _ => 128,
    }
}

/// A value of a narrow sample is less than its depth allows.
proof fn lemma_narrow(b: u8, bits: int, at: int)
    requires
        bits == 1 || bits == 2 || bits == 4,
        0 <= at <= 8 - bits,
    ensures
        0 <= narrow(b, bits, at) < place(bits),
{
    vstd::arithmetic::div_mod::lemma_mod_bound(b as int / place(8 - bits - at), place(bits));
}

fn eight_bits_of(v: u8, depth: BitDepth) -> (r: u8)
    requires
        depth_bits(depth) < 8 ==> v < place(depth_bits(depth)),
    ensures
        r == at_eight_bits(v, depth),
{
    match depth {
        BitDepth::One => v * 255,
        BitDepth::Two => v * 85,
        BitDepth::Four => v * 17,
        BitDepth::Eight => v,
        BitDepth::Sixteen => v,
    }
}

impl Raw {
    /// Channel `c` of the pixel in row `y`, column `x`, where a row has `row` bytes.
    fn sample_in(&self, row: usize, y: usize, x: usize, c: usize) -> (r: u8)
        requires
            self@.wf(),
            self.channels == channels(self.color),
            row == row_bytes(self.width as int, self.color, self.depth),
            y < self.height,
            x < self.width,
            c < self.channels,
        ensures
            r == self@.sample(y as int, x as int, c as int),
            depth_bits(self.depth) < 8 ==> r < place(depth_bits(self.depth)),
    {
        let size = self.buf.len();
        let bits = bits_of(self.depth);
        proof {
            lemma_sample(self@, x as int, c as int);
            let at = (x * channels(self.color) + c) * bits / 8;
            lemma_cell(self.height as int, row as int, y as int, at);
        }
        let at: u64 = (x as u64 * self.channels as u64 + c as u64) * bits;
        let b = self.buf[y * row + (at / 8) as usize];
        if bits < 8 {
            proof {
                lemma_narrow(b, bits as int, at as int % 8);
            }
            b / place_of(8 - bits - at % 8) % place_of(bits)
        } else {
            b
        }
    }

    /// Channel `c` of the pixel in row `y`, column `x`: as it is where samples have
    /// 8 bits or fewer, and the high byte of 16-bit samples.
    pub fn sample(&self, y: usize, x: usize, c: usize) -> (r: u8)
        requires
            self@.wf(),
            self.channels == channels(self.color),
            y < self.height,
            x < self.width,
            c < self.channels,
        ensures
            r == self@.sample(y as int, x as int, c as int),
    {
        let row = self.row();
        self.sample_in(row, y, x, c)
    }

    /// The number of bytes in a row.
    fn row(&self) -> (r: usize)
        requires
            self@.wf(),
            self.height > 0,
        ensures
            r == row_bytes(self.width as int, self.color, self.depth),
    {
        let size = self.buf.len();
        let row = row_of(self.width, self.color, self.depth);
        proof {
            assert(row <= self.height * row) by (nonlinear_arith)
                requires
                    1 <= self.height,
                    0 <= row,
            ;
        }
        row as usize
    }

    /// The colour of the pixel in row `y`, column `x`.
    fn pixel(&self, row: usize, y: usize, x: usize) -> (r: (u8, u8, u8))
        requires
            self@.wf(),
            self.channels == channels(self.color),
            row == row_bytes(self.width as int, self.color, self.depth),
            y < self.height,
            x < self.width,
        ensures
            r.0 == self@.component(y as int, x as int, 0),
            r.1 == self@.component(y as int, x as int, 1),
            r.2 == self@.component(y as int, x as int, 2),
    {
        match self.color {
            ColorType::Rgb | ColorType::Rgba => {
                let r = eight_bits_of(self.sample_in(row, y, x, 0), self.depth);
                let g = eight_bits_of(self.sample_in(row, y, x, 1), self.depth);
                let b = eight_bits_of(self.sample_in(row, y, x, 2), self.depth);
                (r, g, b)
            },
            ColorType::Grayscale | ColorType::GrayscaleAlpha => {
                let v = eight_bits_of(self.sample_in(row, y, x, 0), self.depth);
                (v, v, v)
            },
            ColorType::Indexed => {
                let entries = self.palette.len() / 3;
                let last = entries.saturating_sub(1);
                let v = self.sample_in(row, y, x, 0) as usize;
                let i = if v <= last {
                    v
                } else {
                    last
                };
                let size = self.palette.len();
                let o: usize = i * 3;
                if o + 2 < size {
                    (self.palette[o], self.palette[o + 1], self.palette[o + 2])
                } else {
                    (0, 0, 0)
                }
            },
        }
    }

    /// The image as 8-bit RGB, with grey, palette, narrow and 16-bit samples expanded.
    pub fn to_rgb(&self) -> (r: Rgb8)
        requires
            self@.wf(),
            self.channels == channels(self.color),
            self.height * self.width * 3 <= isize::MAX,
        ensures
            r.width == self.width,
            r.height == self.height,
            r.data@ == self@.rgb(),
            r.wf(),
    {
        let ghost full = self@.rgb();
        let ghost (h, w) = (self.height as int, self.width as int);
        let mut data: Vec<u8> = Vec::new();
        let mut y: usize = 0;
        assert(full.take(0) =~= Seq::empty());
        assert(0 * w == 0) by (nonlinear_arith);
        let row = if self.height > 0 {
            self.row()
        } else {
            0
        };
        while y < self.height
            invariant
                y <= self.height,
                self@.wf(),
                self.channels == channels(self.color),
                self.height > 0 ==> row == row_bytes(self.width as int, self.color, self.depth),
                h == self.height,
                w == self.width,
                full == self@.rgb(),
                data@ == full.take(cell(w, y as int, 0) * 3),
                0 <= cell(w, y as int, 0) <= h * w,
            decreases self.height - y,
        {
            let mut x: usize = 0;
            while x < self.width
                invariant
                    y < self.height,
                    x <= self.width,
                    self@.wf(),
                    self.channels == channels(self.color),
                    row == row_bytes(self.width as int, self.color, self.depth),
                    h == self.height,
                    w == self.width,
                    full == self@.rgb(),
                    data@ == full.take(cell(w, y as int, x as int) * 3),
                    0 <= cell(w, y as int, x as int) <= h * w,
                decreases self.width - x,
            {
                let ghost p = cell(w, y as int, x as int);
                proof {
                    lemma_cell(h, w, y as int, x as int);
                }
                let (r, g, b) = self.pixel(row, y, x);
                data.push(r);
                data.push(g);
                data.push(b);
                assert(full[p * 3] == r && full[p * 3 + 1] == g && full[p * 3 + 2] == b);
                assert(data@ =~= full.take((p + 1) * 3));
                x += 1;
            }
            proof {
                lemma_next_row(w, y as int);
                lemma_row_start(h, w, y + 1);
            }
            y += 1;
        }
        assert(full.take(cell(w, h, 0) * 3) =~= full);
        Rgb8 { width: self.width, height: self.height, data }
    }
}

// ---------------------------------------------------------------------------
// Reading and writing
// ---------------------------------------------------------------------------

/// Whether the samples fit a buffer, and the 8-bit RGB image that they decode to
/// fits one too.
pub open spec fn rgb_fits(data: Seq<u8>) -> bool {
    frame_fits(data) && match decoded(data) {
        Ok(raw) => raw.height * raw.width * 3 <= isize::MAX,
        Err(_) => true,
    }
}

/// Whether `img` is what the decoded image `raw` looks like as 8-bit RGB.
pub open spec fn shows_rgb(img: Rgb8, raw: RawView) -> bool {
    &&& img.width == raw.width
    &&& img.height == raw.height
    &&& img.data@ == raw.rgb()
    &&& img.wf()
    &&& img.width > 0
    &&& img.height > 0
}

/// Whether the bytes decode to the image.
pub open spec fn reads_as(data: Seq<u8>, img: Rgb8) -> bool {
    decoded(data) matches Ok(raw) && shows_rgb(img, raw)
}

/// Decode a PNG to 8-bit RGB, expanding grey, palette, narrow and 16-bit samples.
pub fn read_rgb(data: &[u8]) -> (r: Result<Rgb8, String>)
    requires
        rgb_fits(data@),
    ensures
        match r {
            Ok(img) => reads_as(data@, img),
            Err(e) => decoded(data@) == Err::<RawView, Seq<char>>(e@),
        },
{
    match decode_raw(data) {
        Ok(raw) => Ok(raw.to_rgb()),
        Err(e) => Err(e),
    }
}

/// Whether the samples of a PNG and its 8-bit RGB image each fit a buffer.
pub fn image_fits(data: &[u8]) -> (r: bool)
    ensures
        r == rgb_fits(data@),
{
    match read_info(data) {
        Ok(i) => {
            let (w, h) = (i.width as u128, i.height as u128);
            let row = row_of(i.width as usize, color_of(i.color), depth_of(i.depth)) as u128;
            let limit = isize::MAX as u128;
            assert(0 <= h * row <= 0xffff_ffff * 0x10_0000_0000 && 0 <= w * h <= 0xffff_ffff
                * 0xffff_ffff && w * h == h * w) by (nonlinear_arith)
                requires
                    0 <= w <= 0xffff_ffff,
                    0 <= h <= 0xffff_ffff,
                    0 <= row <= 0x10_0000_0000,
            ;
            h * row <= limit && (w * h * 3 <= limit || decode_raw(data).is_err())
        },
        Err(_) => true,
    }
}

/// Decode a PNG to 8-bit RGB, where the image fits: `None` exactly where it does
/// not.
pub fn try_read_rgb(data: &[u8]) -> (r: Option<Result<Rgb8, String>>)
    ensures
        match r {
            Some(Ok(img)) => reads_as(data@, img),
            Some(Err(e)) => decoded(data@) == Err::<RawView, Seq<char>>(e@),
            None => !rgb_fits(data@),
        },
{
    if image_fits(data) {
        Some(read_rgb(data))
    } else {
        None
    }
}

/// The first channel of an RGB image.
pub open spec fn red(data: Seq<u8>) -> Seq<u8> {
    Seq::new((data.len() / 3) as nat, |p: int| data[p * 3])
}

/// Where an RGB image is not black: 255 there, 0 elsewhere.
pub open spec fn non_black(data: Seq<u8>) -> Seq<u8> {
    Seq::new(
        (data.len() / 3) as nat,
        |p: int|
            if data[p * 3] != 0 || data[p * 3 + 1] != 0 || data[p * 3 + 2] != 0 {
                255u8
            } else {
                0u8
            },
    )
}

impl Rgb8 {
    /// The red channel as a grey image.
    pub fn to_gray(&self) -> (r: Gray8)
        requires
            self.wf(),
        ensures
            r.width == self.width,
            r.height == self.height,
            r.data@ == red(self.data@),
            r.wf(),
    {
        let ghost full = red(self.data@);
        let n = self.data.len() / 3;
        let mut out: Vec<u8> = Vec::new();
        let mut p: usize = 0;
        assert(full.take(0) =~= Seq::empty());
        while p < n
            invariant
                p <= n,
                n == self.data@.len() / 3,
                self.data@.len() <= usize::MAX,
                full == red(self.data@),
                out@ == full.take(p as int),
            decreases n - p,
        {
            out.push(self.data[p * 3]);
            assert(out@ =~= full.take(p + 1));
            p += 1;
        }
        assert(full.take(p as int) =~= full);
        Gray8 { width: self.width, height: self.height, data: out }
    }

    /// The holes that the image marks as a mask: its non-black pixels.
    pub fn to_mask(&self) -> (r: Gray8)
        requires
            self.wf(),
        ensures
            r.width == self.width,
            r.height == self.height,
            r.data@ == non_black(self.data@),
            r.wf(),
    {
        let ghost full = non_black(self.data@);
        let n = self.data.len() / 3;
        let mut out: Vec<u8> = Vec::new();
        let mut p: usize = 0;
        assert(full.take(0) =~= Seq::empty());
        while p < n
            invariant
                p <= n,
                n == self.data@.len() / 3,
                self.data@.len() <= usize::MAX,
                full == non_black(self.data@),
                out@ == full.take(p as int),
            decreases n - p,
        {
            let o: usize = p * 3;
            let marked = self.data[o] != 0 || self.data[o + 1] != 0 || self.data[o + 2] != 0;
            out.push(
                if marked {
                    255
                } else {
                    0
                },
            );
            assert(out@ =~= full.take(p + 1));
            p += 1;
        }
        assert(full.take(p as int) =~= full);
        Gray8 { width: self.width, height: self.height, data: out }
    }
}

/// Decode any PNG to 8-bit grey, using the red channel.
pub fn read_gray(data: &[u8]) -> (r: Result<Gray8, String>)
    requires
        rgb_fits(data@),
    ensures
        match r {
            Ok(g) => decoded(data@) matches Ok(raw) && g.width == raw.width && g.height
                == raw.height && g.data@ == red(raw.rgb()) && g.wf() && g.width > 0 && g.height > 0,
            Err(e) => decoded(data@) == Err::<RawView, Seq<char>>(e@),
        },
{
    match read_rgb(data) {
        Ok(rgb) => Ok(rgb.to_gray()),
        Err(e) => Err(e),
    }
}

/// Decode any PNG to 8-bit grey, where the image fits: `None` exactly where it
/// does not.
pub fn try_read_gray(data: &[u8]) -> (r: Option<Result<Gray8, String>>)
    ensures
        match r {
            Some(Ok(g)) => decoded(data@) matches Ok(raw) && g.width == raw.width && g.height
                == raw.height && g.data@ == red(raw.rgb()) && g.wf() && g.width > 0 && g.height > 0,
            Some(Err(e)) => decoded(data@) == Err::<RawView, Seq<char>>(e@),
            None => !rgb_fits(data@),
        },
{
    if image_fits(data) {
        Some(read_gray(data))
    } else {
        None
    }
}

/// Encode an image as an 8-bit RGB PNG. Reading it back gives the image again,
/// where its rows are not longer than the decoder buffers.
pub fn write_rgb(img: &Rgb8) -> (r: Result<Vec<u8>, String>)
    requires
        (img.width as u32) * 3 < usize::MAX,
        (img.width as u32) * 3 * (img.height as u32) <= usize::MAX,
    ensures
        r is Ok <==> (img.width as u32 > 0 && img.height as u32 > 0 && img.data@.len() == (
        img.width as u32) * 3 * (img.height as u32)),
        match r {
            Ok(b) => png_bytes(img.width as u32, img.height as u32, img.data@) == Ok::<
                Seq<u8>,
                Seq<char>,
            >(b@) && starts_as_rgb8(b@, img.width as u32, img.height as u32) && (img.wf()
                && img.width * 3 <= ROW_LIMIT && img.height <= u32::MAX ==> reads_as(b@, *img)) && (
            img.wf() && img.width * 3 <= ROW_LIMIT && img.height <= u32::MAX && img.data@.len()
                <= isize::MAX ==> rgb_fits(b@)),
            Err(e) => png_bytes(img.width as u32, img.height as u32, img.data@) == Err::<
                Seq<u8>,
                Seq<char>,
            >(e@),
        },
{
    let r = encode(img.width as u32, img.height as u32, img.data.as_slice());
    proof {
        if r is Ok && img.wf() && img.width * 3 <= ROW_LIMIT && img.height <= u32::MAX {
            let (w, h) = (img.width as int, img.height as int);
            let b = (r->Ok_0)@;
            assert(w * h == h * w && w * 3 * h == w * h * 3 && h * (w * 3) == w * h * 3)
                by (nonlinear_arith);
            assert(color_type(2) == ColorType::Rgb && bit_depth(8) == BitDepth::Eight);
            assert(row_bytes(w, ColorType::Rgb, BitDepth::Eight) == w * 3);
            assert(decoded(b) is Ok);
            let raw = decoded(b)->Ok_0;
            assert forall|k: int| 0 <= k < h * w * 3 implies raw.rgb()[k] == #[trigger] img.data@[k] by {
                lemma_position(h, w, k / 3);
                let (y, x, c) = (k / 3 / w, k / 3 % w, k % 3);
                assert(cell(w * 3, y, x * 3 + c) == cell(w, y, x) * 3 + c) by {
                    assert(y * (w * 3) == y * w * 3) by (nonlinear_arith);
                }
                assert((x * 3 + c) * 8 / 8 == x * 3 + c);
                assert(raw.component(y, x, c) == raw.sample(y, x, c));
            }
            assert(raw.rgb() =~= img.data@);
        }
    }
    r
}

// ---------------------------------------------------------------------------
// Reflection
// ---------------------------------------------------------------------------

/// `i` brought back into `0..n` by reflection at both ends, without repeating the
/// sample at the edge: the index runs forth and back with period `2 * (n - 1)`.
pub open spec fn reflect(i: int, n: int) -> int {
    if n == 1 {
        0
    } else {
        let period = 2 * (n - 1);
        let m = i % period;
        if m >= n {
            period - m
        } else {
            m
        }
    }
}

/// Map a possibly out-of-range index back inside `0..n` by reflection.
pub fn reflect_index(i: isize, n: usize) -> (r: usize)
    requires
        1 <= n,
        2 * (n - 1) <= isize::MAX,
    ensures
        r == reflect(i as int, n as int),
        r < n,
{
    if n == 1 {
        return 0;
    }
    let size: isize = n as isize;
    let period: isize = 2 * (size - 1);
    proof {
        vstd::arithmetic::div_mod::lemma_mod_bound(i as int, period as int);
    }
    match i.checked_rem_euclid(period) {
        Some(m) => if m >= size {
            (period - m) as usize
        } else {
            m as usize
        },
        None => 0,
    }
}

/// Reflection always lands inside, and leaves an index that is inside alone.
pub proof fn reflect_lands_inside(i: int, n: int)
    requires
        1 <= n,
    ensures
        0 <= reflect(i, n) < n,
        0 <= i < n ==> reflect(i, n) == i,
{
    if n > 1 {
        let period = 2 * (n - 1);
        vstd::arithmetic::div_mod::lemma_mod_bound(i, period);
        if 0 <= i < n {
            vstd::arithmetic::div_mod::lemma_small_mod(i as nat, period as nat);
        }
    }
}

/// Reflection repeats with period `2 * (n - 1)`.
pub proof fn reflect_is_periodic(i: int, n: int)
    requires
        1 <= n,
    ensures
        reflect(i + 2 * (n - 1), n) == reflect(i, n),
{
    if n > 1 {
        vstd::arithmetic::div_mod::lemma_mod_add_multiples_vanish(i, 2 * (n - 1));
    }
}

/// The ends are mirrors: going out past either edge comes back the same way, and
/// the sample at the edge is not repeated.
pub proof fn reflect_is_mirror(i: int, n: int)
    requires
        1 <= n,
    ensures
        reflect(-i, n) == reflect(i, n),
        reflect(n - 1 + i, n) == reflect(n - 1 - i, n),
{
    lemma_mirror_at_zero(i, n);
    if n > 1 {
        lemma_mirror_at_zero(n - 1 + i, n);
        reflect_is_periodic(-(n - 1 + i), n);
        assert(-(n - 1 + i) + 2 * (n - 1) == n - 1 - i);
    }
}

proof fn lemma_mirror_at_zero(i: int, n: int)
    requires
        1 <= n,
    ensures
        reflect(-i, n) == reflect(i, n),
{
    if n > 1 {
        let period = 2 * (n - 1);
        let m = i % period;
        let q = i / period;
        vstd::arithmetic::div_mod::lemma_mod_bound(i, period);
        vstd::arithmetic::div_mod::lemma_fundamental_div_mod(i, period);
        if m == 0 {
            assert(-i == (-q) * period) by (nonlinear_arith)
                requires
                    i == period * q + m,
                    m == 0,
            ;
            vstd::arithmetic::div_mod::lemma_fundamental_div_mod_converse(-i, period, -q, 0);
        } else {
            assert(-i == (-q - 1) * period + (period - m)) by (nonlinear_arith)
                requires
                    i == period * q + m,
            ;
            vstd::arithmetic::div_mod::lemma_fundamental_div_mod_converse(
                -i,
                period,
                -q - 1,
                period - m,
            );
        }
    }
}

/// Two positions along an extent of `n` are mirror images of each other: they lie a
/// multiple of twice the distance between the edges apart, or lie so about an edge.
pub open spec fn mirrors(n: int, a: int, b: int) -> bool {
    n == 1 || (a - b) % (2 * (n - 1)) == 0 || (a + b) % (2 * (n - 1)) == 0
}

/// Reflection brings two positions to the same place exactly where they are mirror
/// images of each other, and every position has a mirror image inside.
pub proof fn reflect_joins_mirrors(a: int, b: int, n: int)
    requires
        1 <= n,
    ensures
        mirrors(n, a, b) <==> reflect(a, n) == reflect(b, n),
        mirrors(n, a, reflect(a, n)),
{
    if n > 1 {
        lemma_joined(a, b, n);
        lemma_joined(a, reflect(a, n), n);
        reflect_lands_inside(a, n);
        reflect_lands_inside(reflect(a, n), n);
    }
}

proof fn lemma_joined(a: int, b: int, n: int)
    requires
        1 < n,
    ensures
        mirrors(n, a, b) <==> reflect(a, n) == reflect(b, n),
{
    let period = 2 * (n - 1);
    vstd::arithmetic::div_mod::lemma_mod_bound(a, period);
    vstd::arithmetic::div_mod::lemma_mod_bound(b, period);
    vstd::arithmetic::div_mod::lemma_mod_equivalence(a, b, period);
    vstd::arithmetic::div_mod::lemma_mod_equivalence(a, -b, period);
    let (x, y, z) = (a % period, b % period, (-b) % period);
    vstd::arithmetic::div_mod::lemma_mod_bound(-b, period);
    assert(z == if y == 0 {
        0
    } else {
        period - y
    }) by {
        vstd::arithmetic::div_mod::lemma_fundamental_div_mod(b, period);
        let q = b / period;
        if y == 0 {
            assert(-b == (-q) * period + 0) by (nonlinear_arith)
                requires
                    b == period * q + y,
                    y == 0,
            ;
            vstd::arithmetic::div_mod::lemma_fundamental_div_mod_converse(-b, period, -q, 0);
        } else {
            assert(-b == (-q - 1) * period + (period - y)) by (nonlinear_arith)
                requires
                    b == period * q + y,
            ;
            vstd::arithmetic::div_mod::lemma_fundamental_div_mod_converse(
                -b,
                period,
                -q - 1,
                period - y,
            );
        }
    }
    assert((a - b) % period == 0 <==> x == y);
    assert((a + b) % period == 0 <==> x == z);
}

// ---------------------------------------------------------------------------
// What pixels show
// ---------------------------------------------------------------------------

/// The greatest sample of a depth, by its high byte.
pub open spec fn greatest(depth: BitDepth) -> int {
    match depth {
        BitDepth::One => 1,
        BitDepth::Two => 3,
        BitDepth::Four => 15,
        _ => 255,
    }
}

/// Samples are brought to 8 bits in proportion: the greatest becomes 255.
pub proof fn samples_scale_in_proportion(v: u8, depth: BitDepth)
    ensures
        at_eight_bits(v, depth) * greatest(depth) == v * 255,
{
}

/// The narrow samples of a byte make it up, the first one at the high end.
pub proof fn narrow_samples_make_up_the_byte(b: u8)
    ensures
        b == 16 * narrow(b, 4, 0) + narrow(b, 4, 4),
        b == 64 * narrow(b, 2, 0) + 16 * narrow(b, 2, 2) + 4 * narrow(b, 2, 4) + narrow(b, 2, 6),
        b == 128 * narrow(b, 1, 0) + 64 * narrow(b, 1, 1) + 32 * narrow(b, 1, 2) + 16 * narrow(
            b,
            1,
            3,
        ) + 8 * narrow(b, 1, 4) + 4 * narrow(b, 1, 5) + 2 * narrow(b, 1, 6) + narrow(b, 1, 7),
{
    assert(b == 16 * (b / 16 % 16) + b / 1 % 16) by (bit_vector);
    assert(b == 64 * (b / 64 % 4) + 16 * (b / 16 % 4) + 4 * (b / 4 % 4) + b / 1 % 4)
        by (bit_vector);
    assert(b == 128 * (b / 128 % 2) + 64 * (b / 64 % 2) + 32 * (b / 32 % 2) + 16 * (b / 16 % 2) + 8
        * (b / 8 % 2) + 4 * (b / 4 % 2) + 2 * (b / 2 % 2) + b / 1 % 2) by (bit_vector);
}

/// Grey shows the same in all three components.
pub proof fn grey_shows_alike(raw: RawView, y: int, x: int, c: int, d: int)
    requires
        raw.color == ColorType::Grayscale || raw.color == ColorType::GrayscaleAlpha,
    ensures
        raw.component(y, x, c) == raw.component(y, x, d),
        raw.component(y, x, c) == at_eight_bits(raw.sample(y, x, 0), raw.depth) as u8,
{
}

/// Alpha does not show: an image with it shows what the one of the same colours without
/// it shows.
pub proof fn alpha_does_not_show(a: RawView, b: RawView, y: int, x: int, c: int)
    requires
        a.depth == b.depth,
        0 <= c < 3,
        a.color == ColorType::Rgba && b.color == ColorType::Rgb || a.color
            == ColorType::GrayscaleAlpha && b.color == ColorType::Grayscale,
        forall|k: int|
            0 <= k < channels(b.color) ==> #[trigger] a.sample(y, x, k) == b.sample(y, x, k),
    ensures
        a.component(y, x, c) == b.component(y, x, c),
{
    assert(a.sample(y, x, 0) == b.sample(y, x, 0));
    if b.color == ColorType::Rgb {
        assert(a.sample(y, x, c) == b.sample(y, x, c));
    }
}

/// Colours show in their order, each its own sample.
pub proof fn colours_show_in_order(raw: RawView, y: int, x: int)
    requires
        raw.color == ColorType::Rgb || raw.color == ColorType::Rgba,
        raw.depth == BitDepth::Eight || raw.depth == BitDepth::Sixteen,
    ensures
        raw.component(y, x, 0) == raw.sample(y, x, 0),
        raw.component(y, x, 1) == raw.sample(y, x, 1),
        raw.component(y, x, 2) == raw.sample(y, x, 2),
{
}

/// An index shows its own entry of the palette, three bytes for each.
pub proof fn indices_show_their_entries(raw: RawView, y: int, x: int, c: int)
    requires
        raw.color == ColorType::Indexed,
        0 <= c < 3,
        3 * raw.sample(y, x, 0) + 2 < raw.palette.len(),
    ensures
        raw.component(y, x, c) == raw.palette[3 * raw.sample(y, x, 0) + c],
{
}

/// The mask that an image makes marks exactly the pixels that are not black, with 255,
/// and its grey image has the red of every pixel.
pub proof fn masks_mark_what_is_not_black(img: Rgb8, y: int, x: int)
    requires
        img.wf(),
        0 <= y < img.height,
        0 <= x < img.width,
    ensures
        ({
            let p = cell(img.width as int, y, x);
            let black = img.at(y, x, 0) == 0 && img.at(y, x, 1) == 0 && img.at(y, x, 2) == 0;
            &&& 0 <= p < non_black(img.data@).len()
            &&& non_black(img.data@)[p] == if black {
                0u8
            } else {
                255u8
            }
            &&& red(img.data@)[p] == img.at(y, x, 0)
        }),
{
    let (h, w) = (img.height as int, img.width as int);
    lemma_cell(h, w, y, x);
    assert(img.data@.len() / 3 == h * w);
}

} // verus!
