//! What happens around the network: padding an image to the sizes that the
//! network takes, the network's input, and putting its output back over the
//! pixels that the mask marks.
//!
//! The network works on floating-point values in `[0, 1]`. Here they are bytes:
//! a byte `b` stands for `b / 255`.

use vstd::prelude::*;

use crate::grid::{cell, lemma_cell, lemma_next_row, lemma_position};
use crate::image::{
    mirrors, reflect, reflect_index, reflect_joins_mirrors, reflect_lands_inside, Gray8, Rgb8,
};
use crate::text::{cat, dec, decimal_usize};

verus! {

/// The generator halves its input three times, so it takes multiples of this.
pub const PAD_MOD: usize = 8;

/// What `n` lacks to the next multiple of `PAD_MOD`.
pub fn padding(n: usize) -> (r: usize)
    ensures
        r == (PAD_MOD - n % PAD_MOD) % PAD_MOD as int,
        r < PAD_MOD,
        (n + r) % PAD_MOD as int == 0,
{
    (PAD_MOD - n % PAD_MOD) % PAD_MOD
}

/// Padding is the least that reaches a multiple: nothing smaller does.
pub proof fn padding_is_least(n: nat, k: nat)
    requires
        (n + k) % PAD_MOD as nat == 0,
    ensures
        (PAD_MOD - n % PAD_MOD as nat) % PAD_MOD as int <= k,
{
}

/// A padded extent can be halved three times and doubled back, and is the least such
/// that is not below the extent.
pub proof fn padded_extents_halve(n: usize, m: nat)
    ensures
        ({
            let e = n + pad_of(n);
            &&& e / 2 / 2 / 2 * 2 * 2 * 2 == e
            &&& n <= m && m / 2 / 2 / 2 * 2 * 2 * 2 == m ==> e <= m
        }),
{
}

/// `w` by `h`, as complaints show a size.
pub open spec fn size_text(w: usize, h: usize) -> Seq<char> {
    dec(w as nat) + "x"@ + dec(h as nat)
}

/// The complaint about a mask that does not have the size of its image.
pub open spec fn size_complaint(img: Rgb8, mask: Gray8) -> Seq<char> {
    "mask is "@ + size_text(mask.width, mask.height) + " but image is "@ + size_text(
        img.width,
        img.height,
    )
}

fn size_string(w: usize, h: usize) -> (r: String)
    ensures
        r@ == size_text(w, h),
{
    let mut out = decimal_usize(w);
    out.append("x");
    out.append(decimal_usize(h).as_str());
    out
}

/// The mask must have the size of the image.
pub fn check_sizes(img: &Rgb8, mask: &Gray8) -> (r: Result<(), String>)
    ensures
        match r {
            Ok(_) => mask.width == img.width && mask.height == img.height,
            Err(e) => !(mask.width == img.width && mask.height == img.height) && e@
                == size_complaint(*img, *mask),
        },
{
    if mask.width != img.width || mask.height != img.height {
        let mut out = cat("mask is ", size_string(mask.width, mask.height).as_str());
        out.append(" but image is ");
        out.append(size_string(img.width, img.height).as_str());
        return Err(out);
    }
    Ok(())
}

/// Image and mask belong together and, padded, can be indexed.
pub open spec fn paired(img: Rgb8, mask: Gray8, pad_h: usize, pad_w: usize) -> bool {
    &&& img.wf()
    &&& mask.wf()
    &&& mask.width == img.width
    &&& mask.height == img.height
    &&& paddable(mask, pad_h, pad_w)
}

/// The padded extents can be counted and, where they leave any position, each of
/// these has one to be reflected to.
pub open spec fn paddable(mask: Gray8, pad_h: usize, pad_w: usize) -> bool {
    &&& mask.height + pad_h <= usize::MAX
    &&& mask.width + pad_w <= usize::MAX
    &&& (mask.height + pad_h) * (mask.width + pad_w) <= usize::MAX
    &&& (mask.height + pad_h) * (mask.width + pad_w) > 0 ==> reflectable(mask, pad_h, pad_w)
}

/// Padded positions can be reflected into the mask.
pub open spec fn reflectable(mask: Gray8, pad_h: usize, pad_w: usize) -> bool {
    &&& 1 <= mask.width
    &&& 1 <= mask.height
    &&& 2 * (mask.width - 1) <= isize::MAX
    &&& 2 * (mask.height - 1) <= isize::MAX
    &&& mask.width + pad_w <= isize::MAX
    &&& mask.height + pad_h <= isize::MAX
}

/// A product is nothing exactly where a factor is.
proof fn lemma_no_positions(a: int, b: int)
    requires
        0 <= a,
        0 <= b,
    ensures
        a * b == 0 <==> a == 0 || b == 0,
        a * b >= 0,
{
    assert(a * b == 0 <==> a == 0 || b == 0) by (nonlinear_arith);
    assert(a * b >= 0) by (nonlinear_arith)
        requires
            0 <= a,
            0 <= b,
    ;
}

/// Where the padded position `(y, x)` comes from.
pub open spec fn source(h: int, w: int, y: int, x: int) -> int {
    cell(w, reflect(y, h), reflect(x, w))
}

// ---------------------------------------------------------------------------
// The network's input
// ---------------------------------------------------------------------------

/// Plane `c` of the input at the padded position `(y, x)`: the colours, black
/// where the mask marks a hole, and then the holes themselves.
pub open spec fn input_value(img: Rgb8, mask: Gray8, c: int, y: int, x: int) -> u8 {
    let s = source(img.height as int, img.width as int, y, x);
    let hole = mask.data@[s] > 0;
    if c < 3 {
        if hole {
            0
        } else {
            img.data@[s * 3 + c]
        }
    } else {
        if hole {
            255
        } else {
            0
        }
    }
}

/// The four planes one after the other, each `oh` by `ow`.
pub open spec fn input_planes(img: Rgb8, mask: Gray8, oh: int, ow: int) -> Seq<u8> {
    Seq::new(
        (4 * (oh * ow)) as nat,
        |k: int|
            input_value(img, mask, k / (oh * ow), (k % (oh * ow)) / ow, (k % (oh * ow)) % ow),
    )
}

/// Build the four-channel input: the padded image with its holes blacked out, then
/// the holes.
pub fn build_input(img: &Rgb8, mask: &Gray8, pad_h: usize, pad_w: usize) -> (r: Vec<u8>)
    requires
        paired(*img, *mask, pad_h, pad_w),
        4 * ((img.height + pad_h) * (img.width + pad_w)) <= usize::MAX,
    ensures
        r@ == input_planes(*img, *mask, img.height + pad_h, img.width + pad_w),
{
    let (h, w) = (img.height, img.width);
    let oh: usize = h + pad_h;
    let ow: usize = w + pad_w;
    if oh == 0 || ow == 0 {
        let out: Vec<u8> = Vec::new();
        proof {
            lemma_no_positions(oh as int, ow as int);
        }
        assert(out@ =~= input_planes(*img, *mask, oh as int, ow as int));
        return out;
    }
    let ghost plane = oh * ow;
    let ghost full = input_planes(*img, *mask, oh as int, ow as int);
    let mut out: Vec<u8> = Vec::new();
    let mut c: usize = 0;
    proof {
        assert(plane >= 1) by (nonlinear_arith)
            requires
                plane == oh * ow,
                oh >= 1,
                ow >= 1,
        ;
        assert(0 * plane == 0) by (nonlinear_arith);
        assert(full.take(0) =~= Seq::empty());
    }
    while c < 4
        invariant
            c <= 4,
            h == img.height,
            w == img.width,
            oh == h + pad_h,
            ow == w + pad_w,
            plane == oh * ow,
            plane >= 1,
            full == input_planes(*img, *mask, oh as int, ow as int),
            paired(*img, *mask, pad_h, pad_w),
            out@ == full.take(cell(plane, c as int, 0)),
        decreases 4 - c,
    {
        let mut y: usize = 0;
        assert(cell(ow as int, 0, 0) == 0) by {
            assert(0 * ow == 0) by (nonlinear_arith);
        }
        while y < oh
            invariant
                c < 4,
                y <= oh,
                h == img.height,
                w == img.width,
                oh == h + pad_h,
                ow == w + pad_w,
                plane == oh * ow,
                plane >= 1,
                full == input_planes(*img, *mask, oh as int, ow as int),
                paired(*img, *mask, pad_h, pad_w),
                out@ == full.take(cell(plane, c as int, cell(ow as int, y as int, 0))),
            decreases oh - y,
        {
            let sy = reflect_index(y as isize, h);
            let mut x: usize = 0;
            while x < ow
                invariant
                    c < 4,
                    y < oh,
                    x <= ow,
                    h == img.height,
                    w == img.width,
                    oh == h + pad_h,
                    ow == w + pad_w,
                    plane == oh * ow,
                    plane >= 1,
                    sy == reflect(y as int, h as int),
                    sy < h,
                    full == input_planes(*img, *mask, oh as int, ow as int),
                    paired(*img, *mask, pad_h, pad_w),
                    out@ == full.take(cell(plane, c as int, cell(ow as int, y as int, x as int))),
                decreases ow - x,
            {
                let sx = reflect_index(x as isize, w);
                let ghost o = cell(ow as int, y as int, x as int);
                let ghost k = cell(plane, c as int, o);
                let size = mask.data.len();
                proof {
                    lemma_cell(h as int, w as int, sy as int, sx as int);
                    lemma_cell(oh as int, ow as int, y as int, x as int);
                    lemma_cell(4, plane, c as int, o);
                    assert(k < 4 * plane);
                }
                let s: usize = sy * w + sx;
                let hole = mask.data[s] > 0;
                let v: u8 = if c < 3 {
                    if hole {
                        0
                    } else {
                        let all = img.data.len();
                        img.data[s * 3 + c]
                    }
                } else {
                    if hole {
                        255
                    } else {
                        0
                    }
                };
                out.push(v);
                assert(full[k] == v);
                assert(out@ =~= full.take(k + 1));
                x += 1;
            }
            proof {
                lemma_next_row(ow as int, y as int);
            }
            y += 1;
        }
        proof {
            lemma_next_row(plane, c as int);
            assert(cell(ow as int, oh as int, 0) == plane);
        }
        c += 1;
    }
    assert(full.take(cell(plane, 4, 0)) =~= full);
    out
}

// ---------------------------------------------------------------------------
// Compositing
// ---------------------------------------------------------------------------

/// The mask, padded by reflection to `oh` by `ow`.
pub open spec fn padded(mask: Gray8, oh: int, ow: int) -> Seq<u8> {
    Seq::new(
        (oh * ow) as nat,
        |k: int| mask.data@[source(mask.height as int, mask.width as int, k / ow, k % ow)],
    )
}

/// Pad the mask by reflection.
pub fn pad_mask(mask: &Gray8, pad_h: usize, pad_w: usize) -> (r: Vec<u8>)
    requires
        mask.wf(),
        paddable(*mask, pad_h, pad_w),
    ensures
        r@ == padded(*mask, mask.height + pad_h, mask.width + pad_w),
{
    let (h, w) = (mask.height, mask.width);
    let oh: usize = h + pad_h;
    let ow: usize = w + pad_w;
    let ghost full = padded(*mask, oh as int, ow as int);
    let mut out: Vec<u8> = Vec::new();
    proof {
        lemma_no_positions(oh as int, ow as int);
    }
    if oh == 0 || ow == 0 {
        assert(out@ =~= full);
        return out;
    }
    let mut y: usize = 0;
    proof {
        assert(0 * ow == 0) by (nonlinear_arith);
        assert(full.take(0) =~= Seq::empty());
    }
    while y < oh
        invariant
            y <= oh,
            h == mask.height,
            w == mask.width,
            oh == h + pad_h,
            ow == w + pad_w,
            mask.wf(),
            reflectable(*mask, pad_h, pad_w),
            full == padded(*mask, oh as int, ow as int),
            out@ == full.take(cell(ow as int, y as int, 0)),
        decreases oh - y,
    {
        let sy = reflect_index(y as isize, h);
        let mut x: usize = 0;
        while x < ow
            invariant
                y < oh,
                x <= ow,
                h == mask.height,
                w == mask.width,
                oh == h + pad_h,
                ow == w + pad_w,
                mask.wf(),
                reflectable(*mask, pad_h, pad_w),
                sy == reflect(y as int, h as int),
                sy < h,
                full == padded(*mask, oh as int, ow as int),
                out@ == full.take(cell(ow as int, y as int, x as int)),
            decreases ow - x,
        {
            let sx = reflect_index(x as isize, w);
            let ghost k = cell(ow as int, y as int, x as int);
            let size = mask.data.len();
            proof {
                lemma_cell(h as int, w as int, sy as int, sx as int);
                lemma_cell(oh as int, ow as int, y as int, x as int);
            }
            out.push(mask.data[sy * w + sx]);
            assert(out@ =~= full.take(k + 1));
            x += 1;
        }
        proof {
            lemma_next_row(ow as int, y as int);
        }
        y += 1;
    }
    assert(full.take(cell(ow as int, oh as int, 0)) =~= full);
    out
}

/// Component `c` of the result at `(y, x)`: the image where the padded mask is
/// zero, and the network's output, planes of `oh` by `ow`, elsewhere.
pub open spec fn composite_value(
    img: Rgb8,
    mask: Gray8,
    network: Seq<u8>,
    oh: int,
    ow: int,
    y: int,
    x: int,
    c: int,
) -> u8 {
    let p = cell(ow, y, x);
    if padded(mask, oh, ow)[p] > 0 {
        network[cell(oh * ow, c, p)]
    } else {
        img.at(y, x, c)
    }
}

/// The pixels of the result.
pub open spec fn composited(
    img: Rgb8,
    mask: Gray8,
    network: Seq<u8>,
    oh: int,
    ow: int,
) -> Seq<u8> {
    let w = img.width as int;
    Seq::new(
        (img.height * img.width * 3) as nat,
        |k: int|
            composite_value(img, mask, network, oh, ow, (k / 3) / w, (k / 3) % w, k % 3),
    )
}

/// The network's output reaches every hole of the image.
pub open spec fn reaches_holes(mask: Gray8, network: Seq<u8>, oh: int, ow: int) -> bool {
    forall|y: int, x: int|
        0 <= y < mask.height && 0 <= x < mask.width && #[trigger] padded(mask, oh, ow)[cell(
            ow,
            y,
            x,
        )] > 0 ==> cell(oh * ow, 2, cell(ow, y, x)) < network.len()
}

/// Keep the image wherever the mask is zero and take the network's output, three
/// padded planes, wherever it is not.
pub fn composite(
    img: &Rgb8,
    mask: &Gray8,
    network: &Vec<u8>,
    pad_h: usize,
    pad_w: usize,
) -> (r: Rgb8)
    requires
        paired(*img, *mask, pad_h, pad_w),
        reaches_holes(*mask, network@, img.height + pad_h, img.width + pad_w),
    ensures
        r.width == img.width,
        r.height == img.height,
        r.wf(),
        r.data@ == composited(*img, *mask, network@, img.height + pad_h, img.width + pad_w),
{
    let (h, w) = (img.height, img.width);
    let holes = pad_mask(mask, pad_h, pad_w);
    let oh: usize = h + pad_h;
    let ow: usize = w + pad_w;
    let plane: usize = oh * ow;
    let ghost full = composited(*img, *mask, network@, oh as int, ow as int);
    let mut out: Vec<u8> = Vec::new();
    let mut y: usize = 0;
    proof {
        assert(0 * w == 0) by (nonlinear_arith);
        assert(full.take(0) =~= Seq::empty());
    }
    while y < h
        invariant
            y <= h,
            h == img.height,
            w == img.width,
            oh == h + pad_h,
            ow == w + pad_w,
            plane == oh * ow,
            paired(*img, *mask, pad_h, pad_w),
            reaches_holes(*mask, network@, oh as int, ow as int),
            holes@ == padded(*mask, oh as int, ow as int),
            full == composited(*img, *mask, network@, oh as int, ow as int),
            out@ == full.take(cell(w as int, y as int, 0) * 3),
        decreases h - y,
    {
        let mut x: usize = 0;
        while x < w
            invariant
                y < h,
                x <= w,
                h == img.height,
                w == img.width,
                oh == h + pad_h,
                ow == w + pad_w,
                plane == oh * ow,
                paired(*img, *mask, pad_h, pad_w),
                reaches_holes(*mask, network@, oh as int, ow as int),
                holes@ == padded(*mask, oh as int, ow as int),
                full == composited(*img, *mask, network@, oh as int, ow as int),
                out@ == full.take(cell(w as int, y as int, x as int) * 3),
            decreases w - x,
        {
            let ghost p = cell(w as int, y as int, x as int);
            let ghost q = cell(ow as int, y as int, x as int);
            let (all, size, reach) = (img.data.len(), holes.len(), network.len());
            proof {
                lemma_cell(h as int, w as int, y as int, x as int);
                lemma_cell(oh as int, ow as int, y as int, x as int);
                assert(0 <= cell(plane as int, 0, q) <= cell(plane as int, 1, q) <= cell(
                    plane as int,
                    2,
                    q,
                )) by {
                    assert(0 * plane == 0 && 1 * plane == plane && 2 * plane == plane + plane)
                        by (nonlinear_arith);
                }
            }
            let pi: usize = y * ow + x;
            let (r, g, b) = if holes[pi] > 0 {
                (network[pi], network[plane + pi], network[2 * plane + pi])
            } else {
                let o: usize = (y * w + x) * 3;
                (img.data[o], img.data[o + 1], img.data[o + 2])
            };
            out.push(r);
            out.push(g);
            out.push(b);
            assert(full[p * 3] == r && full[p * 3 + 1] == g && full[p * 3 + 2] == b);
            assert(out@ =~= full.take((p + 1) * 3));
            x += 1;
        }
        proof {
            lemma_next_row(w as int, y as int);
        }
        y += 1;
    }
    assert(full.take(cell(w as int, h as int, 0) * 3) =~= full);
    Rgb8 { width: w, height: h, data: out }
}

/// The pixels that the mask does not mark come through untouched, and those that
/// it marks are the network's, at their own place in its planes.
pub proof fn composite_follows_mask(
    img: Rgb8,
    mask: Gray8,
    network: Seq<u8>,
    pad_h: usize,
    pad_w: usize,
    y: int,
    x: int,
    c: int,
)
    requires
        paired(img, mask, pad_h, pad_w),
        0 <= y < img.height,
        0 <= x < img.width,
        0 <= c < 3,
    ensures
        ({
            let (oh, ow) = (img.height + pad_h, img.width + pad_w);
            composited(img, mask, network, oh, ow)[cell(img.width as int, y, x) * 3 + c] == if mask.at(
                y,
                x,
            ) > 0 {
                network[cell(oh * ow, c, cell(ow, y, x))]
            } else {
                img.at(y, x, c)
            }
        }),
{
    let (h, w) = (img.height as int, img.width as int);
    let (oh, ow) = (img.height + pad_h, img.width + pad_w);
    let p = cell(w, y, x);
    lemma_cell(h, w, y, x);
    lemma_cell(oh, ow, y, x);
    reflect_lands_inside(y, h);
    reflect_lands_inside(x, w);
    let k = p * 3 + c;
    assert(k / 3 == p && k % 3 == c);
    assert(k < h * w * 3);
    assert(padded(mask, oh, ow)[cell(ow, y, x)] == mask.at(y, x));
}

/// The input shows the image untouched where there is no hole, and marks exactly
/// the holes in its last plane.
pub proof fn input_follows_mask(
    img: Rgb8,
    mask: Gray8,
    pad_h: usize,
    pad_w: usize,
    y: int,
    x: int,
    c: int,
)
    requires
        paired(img, mask, pad_h, pad_w),
        0 <= y < img.height,
        0 <= x < img.width,
        0 <= c < 3,
    ensures
        ({
            let (oh, ow) = (img.height + pad_h, img.width + pad_w);
            let planes = input_planes(img, mask, oh, ow);
            let o = cell(ow, y, x);
            &&& planes[cell(oh * ow, 3, o)] == if mask.at(y, x) > 0 {
                255u8
            } else {
                0u8
            }
            &&& planes[cell(oh * ow, c, o)] == if mask.at(y, x) > 0 {
                0u8
            } else {
                img.at(y, x, c)
            }
        }),
{
    let (h, w) = (img.height as int, img.width as int);
    let (oh, ow) = (img.height + pad_h, img.width + pad_w);
    let o = cell(ow, y, x);
    lemma_cell(h, w, y, x);
    lemma_cell(oh, ow, y, x);
    lemma_cell(4, oh * ow, c, o);
    lemma_cell(4, oh * ow, 3, o);
    reflect_lands_inside(y, h);
    reflect_lands_inside(x, w);
}

/// The padding of the input mirrors it: in each of the four planes any two positions
/// whose rows and whose columns are mirror images of each other hold the same, so that
/// the column `j` behind the last one is the column `j` before it. Every padded
/// position has such a mirror image in the image itself.
pub proof fn input_is_mirrored(
    img: Rgb8,
    mask: Gray8,
    pad_h: usize,
    pad_w: usize,
    c: int,
    a: (int, int),
    b: (int, int),
)
    requires
        paired(img, mask, pad_h, pad_w),
        0 <= c < 4,
        0 <= a.0 < img.height + pad_h,
        0 <= a.1 < img.width + pad_w,
        0 <= b.0 < img.height + pad_h,
        0 <= b.1 < img.width + pad_w,
        mirrors(img.height as int, a.0, b.0),
        mirrors(img.width as int, a.1, b.1),
    ensures
        ({
            let (oh, ow) = (img.height + pad_h, img.width + pad_w);
            let planes = input_planes(img, mask, oh, ow);
            planes[cell(oh * ow, c, cell(ow, a.0, a.1))] == planes[cell(
                oh * ow,
                c,
                cell(ow, b.0, b.1),
            )]
        }),
        exists|y: int, x: int|
            0 <= y < img.height && 0 <= x < img.width && #[trigger] mirrors(
                img.height as int,
                a.0,
                y,
            ) && #[trigger] mirrors(img.width as int, a.1, x),
{
    let (h, w) = (img.height as int, img.width as int);
    let (oh, ow) = (img.height + pad_h, img.width + pad_w);
    lemma_cell(oh, ow, a.0, a.1);
    lemma_cell(oh, ow, b.0, b.1);
    lemma_cell(4, oh * ow, c, cell(ow, a.0, a.1));
    lemma_cell(4, oh * ow, c, cell(ow, b.0, b.1));
    reflect_joins_mirrors(a.0, b.0, h);
    reflect_joins_mirrors(a.1, b.1, w);
    reflect_lands_inside(a.0, h);
    reflect_lands_inside(a.1, w);
}

/// The padding of the mask mirrors it, and inside it is the mask.
pub proof fn padded_mask_is_mirrored(
    mask: Gray8,
    pad_h: usize,
    pad_w: usize,
    a: (int, int),
    b: (int, int),
)
    requires
        mask.wf(),
        paddable(mask, pad_h, pad_w),
        0 <= a.0 < mask.height + pad_h,
        0 <= a.1 < mask.width + pad_w,
        0 <= b.0 < mask.height + pad_h,
        0 <= b.1 < mask.width + pad_w,
        mirrors(mask.height as int, a.0, b.0),
        mirrors(mask.width as int, a.1, b.1),
    ensures
        ({
            let (oh, ow) = (mask.height + pad_h, mask.width + pad_w);
            let holes = padded(mask, oh, ow);
            &&& holes.len() == oh * ow
            &&& holes[cell(ow, a.0, a.1)] == holes[cell(ow, b.0, b.1)]
            &&& a.0 < mask.height && a.1 < mask.width ==> holes[cell(ow, a.0, a.1)] == mask.at(
                a.0,
                a.1,
            )
        }),
{
    let (h, w) = (mask.height as int, mask.width as int);
    let (oh, ow) = (mask.height + pad_h, mask.width + pad_w);
    lemma_cell(oh, ow, a.0, a.1);
    lemma_cell(oh, ow, b.0, b.1);
    reflect_joins_mirrors(a.0, b.0, h);
    reflect_joins_mirrors(a.1, b.1, w);
    reflect_lands_inside(a.0, h);
    reflect_lands_inside(a.1, w);
}

/// Two images agree outside the holes of a mask.
pub open spec fn agree_outside(a: Rgb8, b: Rgb8, mask: Gray8) -> bool {
    forall|y: int, x: int, c: int|
        0 <= y < mask.height && 0 <= x < mask.width && 0 <= c < 3 && mask.at(y, x) == 0
            ==> #[trigger] a.at(y, x, c) == b.at(y, x, c)
}

/// Two masks mark the same pixels.
pub open spec fn same_holes(a: Gray8, b: Gray8) -> bool {
    &&& a.width == b.width
    &&& a.height == b.height
    &&& forall|y: int, x: int|
        0 <= y < a.height && 0 <= x < a.width ==> (#[trigger] a.at(y, x) == 0 <==> b.at(y, x) == 0)
}

/// The input does not depend on what lies under the holes, nor on how a mask marks
/// them: images that agree outside the holes, under masks with the same holes, have
/// one input.
pub proof fn input_ignores_holes(
    a: Rgb8,
    b: Rgb8,
    mask: Gray8,
    other: Gray8,
    pad_h: usize,
    pad_w: usize,
)
    requires
        paired(a, mask, pad_h, pad_w),
        paired(b, other, pad_h, pad_w),
        same_holes(mask, other),
        agree_outside(a, b, mask),
    ensures
        input_planes(a, mask, a.height + pad_h, a.width + pad_w) == input_planes(
            b,
            other,
            b.height + pad_h,
            b.width + pad_w,
        ),
{
    let (h, w) = (a.height as int, a.width as int);
    let (oh, ow) = (a.height + pad_h, a.width + pad_w);
    let plane = oh * ow;
    let (p, q) = (input_planes(a, mask, oh, ow), input_planes(b, other, oh, ow));
    lemma_no_positions(oh, ow);
    assert forall|k: int| 0 <= k < p.len() implies p[k] == q[k] by {
        lemma_position(4, plane, k);
        lemma_position(oh, ow, k % plane);
        let (c, o) = (k / plane, k % plane);
        let (y, x) = (reflect(o / ow, h), reflect(o % ow, w));
        reflect_lands_inside(o / ow, h);
        reflect_lands_inside(o % ow, w);
        assert(mask.at(y, x) == 0 <==> other.at(y, x) == 0);
        if c < 3 && mask.at(y, x) == 0 {
            assert(a.at(y, x, c) == b.at(y, x, c));
        }
    }
    assert(p =~= q);
}

/// Nor does the result: images that agree outside the holes, filled with one
/// network output, come out the same.
pub proof fn composite_ignores_holes(
    a: Rgb8,
    b: Rgb8,
    mask: Gray8,
    other: Gray8,
    network: Seq<u8>,
    pad_h: usize,
    pad_w: usize,
)
    requires
        paired(a, mask, pad_h, pad_w),
        paired(b, other, pad_h, pad_w),
        same_holes(mask, other),
        agree_outside(a, b, mask),
    ensures
        composited(a, mask, network, a.height + pad_h, a.width + pad_w) == composited(
            b,
            other,
            network,
            b.height + pad_h,
            b.width + pad_w,
        ),
{
    let (h, w) = (a.height as int, a.width as int);
    let (oh, ow) = (a.height + pad_h, a.width + pad_w);
    let (p, q) = (composited(a, mask, network, oh, ow), composited(b, other, network, oh, ow));
    assert forall|k: int| 0 <= k < p.len() implies p[k] == q[k] by {
        lemma_position(h, w, k / 3);
        let (y, x, c) = ((k / 3) / w, (k / 3) % w, k % 3);
        composite_follows_mask(a, mask, network, pad_h, pad_w, y, x, c);
        composite_follows_mask(b, other, network, pad_h, pad_w, y, x, c);
        assert(cell(w, y, x) * 3 + c == k);
        assert(mask.at(y, x) == 0 <==> other.at(y, x) == 0);
        if mask.at(y, x) == 0 {
            assert(a.at(y, x, c) == b.at(y, x, c));
        }
    }
    assert(p =~= q);
}

// ---------------------------------------------------------------------------
// From image and mask to image
// ---------------------------------------------------------------------------

/// Whether the padded extents can be indexed and the network's input counted.
pub open spec fn input_fits(img: Rgb8, mask: Gray8) -> bool {
    let (pad_h, pad_w) = (pad_of(img.height), pad_of(img.width));
    &&& paired(img, mask, pad_h, pad_w)
    &&& 4 * ((img.height + pad_h) * (img.width + pad_w)) <= usize::MAX
}

/// What an extent is padded by.
pub open spec fn pad_of(n: usize) -> usize {
    ((PAD_MOD - n % PAD_MOD) % PAD_MOD as int) as usize
}

/// The network's input and its extents.
pub struct Prepared {
    pub input: Vec<u8>,
    pub height: usize,
    pub width: usize,
    pub pad_h: usize,
    pub pad_w: usize,
}

fn can_pad(img: &Rgb8, mask: &Gray8, pad_h: usize, pad_w: usize) -> (r: bool)
    requires
        img.wf(),
        mask.wf(),
        mask.width == img.width,
        mask.height == img.height,
        pad_h < PAD_MOD,
        pad_w < PAD_MOD,
    ensures
        r == (paired(*img, *mask, pad_h, pad_w) && 4 * ((img.height + pad_h) * (img.width
            + pad_w)) <= usize::MAX),
{
    let most = isize::MAX as usize;
    let (h, w) = (img.height, img.width);
    if h == 0 && pad_h == 0 {
        assert(0 * (w + pad_w) == 0) by (nonlinear_arith);
        return w <= usize::MAX - pad_w;
    }
    if w == 0 && pad_w == 0 {
        assert((h + pad_h) * 0 == 0) by (nonlinear_arith);
        return h <= usize::MAX - pad_h;
    }
    proof {
        lemma_no_positions(h + pad_h, w + pad_w);
    }
    if h < 1 || w < 1 || h - 1 > most / 2 || w - 1 > most / 2 {
        return false;
    }
    if w > most - pad_w || h > most - pad_h {
        return false;
    }
    match (h + pad_h).checked_mul(w + pad_w) {
        Some(n) => n <= usize::MAX / 4,
        None => false,
    }
}

/// Pad an image and its mask to what the network takes and build its input. A mask
/// of another size is refused; `None` exactly where the padded extents do not fit.
pub fn prepare(img: &Rgb8, mask: &Gray8) -> (r: Option<Result<Prepared, String>>)
    requires
        img.wf(),
        mask.wf(),
    ensures
        match r {
            Some(Err(e)) => !(mask.width == img.width && mask.height == img.height) && e@
                == size_complaint(*img, *mask),
            Some(Ok(p)) => {
                &&& input_fits(*img, *mask)
                &&& p.pad_h == pad_of(img.height)
                &&& p.pad_w == pad_of(img.width)
                &&& p.height == img.height + p.pad_h
                &&& p.width == img.width + p.pad_w
                &&& p.height % PAD_MOD == 0
                &&& p.width % PAD_MOD == 0
                &&& p.input@ == input_planes(*img, *mask, p.height as int, p.width as int)
            },
            None => mask.width == img.width && mask.height == img.height && !input_fits(
                *img,
                *mask,
            ),
        },
{
    if let Err(e) = check_sizes(img, mask) {
        return Some(Err(e));
    }
    let pad_h = padding(img.height);
    let pad_w = padding(img.width);
    if !can_pad(img, mask, pad_h, pad_w) {
        return None;
    }
    let input = build_input(img, mask, pad_h, pad_w);
    let (height, width) = (img.height + pad_h, img.width + pad_w);
    Some(Ok(Prepared { input, height, width, pad_h, pad_w }))
}

/// Put the network's output over the holes: `None` exactly where it does not reach
/// one of them.
pub fn finish(img: &Rgb8, mask: &Gray8, p: &Prepared, network: &Vec<u8>) -> (r: Option<Rgb8>)
    requires
        paired(*img, *mask, p.pad_h, p.pad_w),
    ensures
        match r {
            Some(out) => {
                let (oh, ow) = (img.height + p.pad_h, img.width + p.pad_w);
                &&& reaches_holes(*mask, network@, oh, ow)
                &&& out.width == img.width
                &&& out.height == img.height
                &&& out.wf()
                &&& out.data@ == composited(*img, *mask, network@, oh, ow)
            },
            None => !reaches_holes(
                *mask,
                network@,
                img.height + p.pad_h,
                img.width + p.pad_w,
            ),
        },
{
    if reaches(mask, network, p.pad_h, p.pad_w) {
        Some(composite(img, mask, network, p.pad_h, p.pad_w))
    } else {
        None
    }
}

fn reaches(mask: &Gray8, network: &Vec<u8>, pad_h: usize, pad_w: usize) -> (r: bool)
    requires
        mask.wf(),
        paddable(*mask, pad_h, pad_w),
    ensures
        r == reaches_holes(*mask, network@, mask.height + pad_h, mask.width + pad_w),
{
    let (h, w) = (mask.height, mask.width);
    let oh: usize = h + pad_h;
    let ow: usize = w + pad_w;
    let plane: usize = oh * ow;
    let holes = pad_mask(mask, pad_h, pad_w);
    let n = network.len();
    let ghost all = padded(*mask, oh as int, ow as int);
    let mut y: usize = 0;
    while y < h
        invariant
            y <= h,
            h == mask.height,
            w == mask.width,
            oh == h + pad_h,
            ow == w + pad_w,
            plane == oh * ow,
            n == network@.len(),
            all == padded(*mask, oh as int, ow as int),
            holes@ == all,
            paddable(*mask, pad_h, pad_w),
            forall|a: int, b: int|
                0 <= a < y && 0 <= b < w && #[trigger] all[cell(ow as int, a, b)] > 0 ==> cell(
                    plane as int,
                    2,
                    cell(ow as int, a, b),
                ) < n,
        decreases h - y,
    {
        let mut x: usize = 0;
        while x < w
            invariant
                y < h,
                x <= w,
                h == mask.height,
                w == mask.width,
                oh == h + pad_h,
                ow == w + pad_w,
                plane == oh * ow,
                n == network@.len(),
                all == padded(*mask, oh as int, ow as int),
                holes@ == all,
                paddable(*mask, pad_h, pad_w),
                forall|a: int, b: int|
                    (0 <= a < y && 0 <= b < w || a == y && 0 <= b < x) && #[trigger] all[cell(
                        ow as int,
                        a,
                        b,
                    )] > 0 ==> cell(plane as int, 2, cell(ow as int, a, b)) < n,
            decreases w - x,
        {
            let ghost q = cell(ow as int, y as int, x as int);
            let size = holes.len();
            proof {
                lemma_cell(oh as int, ow as int, y as int, x as int);
                assert(2 * plane == plane + plane) by (nonlinear_arith);
            }
            let pi: usize = y * ow + x;
            assert(pi == q);
            if holes[pi] > 0 {
                if !(pi < n && plane < n - pi && plane < n - pi - plane) {
                    assert(all[cell(ow as int, y as int, x as int)] > 0);
                    return false;
                }
            }
            x += 1;
        }
        y += 1;
    }
    true
}

// ---------------------------------------------------------------------------
// Engines
// ---------------------------------------------------------------------------

/// The engines that run the network.
#[derive(Clone, Copy, PartialEq, Eq, Structural, Debug)]
pub enum Engine {
    Gpu,
    Cpu,
}

/// The engine to try first: the GPU unless the CPU is asked for.
pub open spec fn engine_first(force_cpu: bool) -> Engine {
    if force_cpu {
        Engine::Cpu
    } else {
        Engine::Gpu
    }
}

pub fn first_engine(force_cpu: bool) -> (r: Engine)
    ensures
        r == engine_first(force_cpu),
{
    if force_cpu {
        Engine::Cpu
    } else {
        Engine::Gpu
    }
}

/// The complaint about a GPU failure where the GPU was insisted on.
pub open spec fn gpu_complaint(e: Seq<char>) -> Seq<char> {
    "gpu inference failed: "@ + e + "\n(--cpu runs the CPU engine instead)"@
}

/// The complaint about a failure of the CPU engine.
pub open spec fn cpu_complaint(e: Seq<char>) -> Seq<char> {
    "cpu inference failed: "@ + e
}

/// What follows a GPU failure: the end, where the GPU was insisted on, and the CPU
/// engine otherwise.
pub fn after_gpu_failure(force_gpu: bool, e: &str) -> (r: Result<Engine, String>)
    ensures
        match r {
            Ok(next) => !force_gpu && next == Engine::Cpu,
            Err(m) => force_gpu && m@ == gpu_complaint(e@),
        },
{
    if force_gpu {
        let mut out = cat("gpu inference failed: ", e);
        out.append("\n(--cpu runs the CPU engine instead)");
        return Err(out);
    }
    Ok(Engine::Cpu)
}

/// Complain about a failure of the CPU engine.
pub fn cpu_failure(e: &str) -> (r: String)
    ensures
        r@ == cpu_complaint(e@),
{
    cat("cpu inference failed: ", e)
}

/// What follows once an engine has run.
pub enum Next {
    /// The network's output.
    Done(Vec<u8>),
    Failed(String),
    /// Another engine is to be tried, for the reason given.
    Try(Engine, String),
}

/// What follows, as a value.
pub ghost enum NextView {
    Done(Seq<u8>),
    Failed(Seq<char>),
    Try(Engine, Seq<char>),
}

impl View for Next {
    type V = NextView;

    open spec fn view(&self) -> NextView {
        match self {
            Next::Done(v) => NextView::Done(v@),
            Next::Failed(e) => NextView::Failed(e@),
            Next::Try(engine, e) => NextView::Try(*engine, e@),
        }
    }
}

/// What an engine came to: the network's output or a complaint.
pub open spec fn result_view(r: Result<Vec<u8>, String>) -> Result<Seq<u8>, Seq<char>> {
    match r {
        Ok(v) => Ok(v@),
        Err(e) => Err(e@),
    }
}

/// What follows the result of an engine.
pub open spec fn next_of(
    force_gpu: bool,
    engine: Engine,
    result: Result<Seq<u8>, Seq<char>>,
) -> NextView {
    match result {
        Ok(out) => NextView::Done(out),
        Err(e) => match engine {
            Engine::Cpu => NextView::Failed(cpu_complaint(e)),
            Engine::Gpu => if force_gpu {
                NextView::Failed(gpu_complaint(e))
            } else {
                NextView::Try(Engine::Cpu, e)
            },
        },
    }
}

/// Decide what follows the result of an engine.
pub fn after_engine(force_gpu: bool, engine: Engine, result: Result<Vec<u8>, String>) -> (r: Next)
    ensures
        r@ == next_of(force_gpu, engine, result_view(result)),
{
    match result {
        Ok(out) => Next::Done(out),
        Err(e) => match engine {
            Engine::Cpu => Next::Failed(cpu_failure(e.as_str())),
            Engine::Gpu => match after_gpu_failure(force_gpu, e.as_str()) {
                Ok(next) => Next::Try(next, e),
                Err(m) => Next::Failed(m),
            },
        },
    }
}

/// What a run comes to whose engine is at `engine`, where the engines, if they are
/// asked, come to `gpu` and `cpu`.
pub open spec fn run_outcome(
    force_gpu: bool,
    engine: Engine,
    gpu: Result<Seq<u8>, Seq<char>>,
    cpu: Result<Seq<u8>, Seq<char>>,
) -> Result<Seq<u8>, Seq<char>>
    decreases (if engine == Engine::Gpu { 1int } else { 0 }),
{
    let result = if engine == Engine::Gpu {
        gpu
    } else {
        cpu
    };
    match next_of(force_gpu, engine, result) {
        NextView::Done(out) => Ok(out),
        NextView::Failed(e) => Err(e),
        NextView::Try(next, _) => run_outcome(force_gpu, next, gpu, cpu),
    }
}

/// The pixels that a run writes: the network's output over the holes, and nothing
/// where there is no output.
pub open spec fn run_pixels(
    img: Rgb8,
    mask: Gray8,
    pad_h: usize,
    pad_w: usize,
    outcome: Result<Seq<u8>, Seq<char>>,
) -> Result<Seq<u8>, Seq<char>> {
    match outcome {
        Ok(out) => Ok(composited(img, mask, out, img.height + pad_h, img.width + pad_w)),
        Err(e) => Err(e),
    }
}

/// A run whose GPU fails ends with that failure where the GPU was insisted on, and
/// writes nothing; otherwise it ends, and writes, as a run on the CPU does.
pub proof fn gpu_failure_ends_as_cpu_run(
    img: Rgb8,
    mask: Gray8,
    pad_h: usize,
    pad_w: usize,
    force_gpu: bool,
    e: Seq<char>,
    cpu: Result<Seq<u8>, Seq<char>>,
)
    ensures
        ({
            let gpu = Err::<Seq<u8>, Seq<char>>(e);
            let tried = run_outcome(force_gpu, engine_first(false), gpu, cpu);
            let plain = run_outcome(force_gpu, engine_first(true), gpu, cpu);
            if force_gpu {
                &&& tried == Err::<Seq<u8>, Seq<char>>(gpu_complaint(e))
                &&& run_pixels(img, mask, pad_h, pad_w, tried) is Err
            } else {
                &&& tried == plain
                &&& run_pixels(img, mask, pad_h, pad_w, tried) == run_pixels(
                    img,
                    mask,
                    pad_h,
                    pad_w,
                    plain,
                )
            }
        }),
{
    reveal_with_fuel(run_outcome, 2);
}

/// A run on the CPU ends as the CPU engine does and takes nothing from the GPU; a run
/// whose GPU succeeds ends with the GPU's output and takes nothing from the CPU; and a
/// run succeeds only with the output of an engine that did.
pub proof fn runs_take_from_their_engine(
    force_gpu: bool,
    gpu: Result<Seq<u8>, Seq<char>>,
    cpu: Result<Seq<u8>, Seq<char>>,
)
    ensures
        ({
            let asked = run_outcome(force_gpu, engine_first(true), gpu, cpu);
            let tried = run_outcome(force_gpu, engine_first(false), gpu, cpu);
            &&& asked is Ok <==> cpu is Ok
            &&& asked is Ok ==> asked == cpu
            &&& gpu is Ok ==> tried == gpu
            &&& tried is Ok ==> tried == gpu || (tried == cpu && gpu is Err && !force_gpu)
        }),
{
    reveal_with_fuel(run_outcome, 2);
}

} // verus!
