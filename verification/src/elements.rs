//! What the values of a block are: every element of a convolution, of an upsampling, of
//! a stack and of a normalisation, in terms of the elements that it is computed from.

use vstd::prelude::*;

use crate::cuda::{DActs, Work};
use crate::dataflow::{
    at_start, conv_older, convolution_computes, convolved, convt_older, int32,
    residual_add_computes, stacking_computes, with_bias,
};
use crate::grid::{cell, lemma_cell};
use crate::image::reflect;
use crate::layout::meets;
use crate::meaning::{older, seen, value, Acts, Val};
use crate::ops::{
    bn_relu_add, concatenated, conv, conv_extent, conv_sizes, up_phases, DBn, DConv, DConvT, Phases,
};
use crate::threads::{conv_small, small};
use crate::upsampling::{phase_value, put_phase, upsampling_computes};

verus! {

/// An element as it is computed.
pub ghost enum Expr {
    /// An element of something that is not looked into.
    Leaf { of: Val, i: int },
    Zero,
    /// A sum of products, in this order.
    Dot { terms: Seq<(Expr, Expr)> },
    Plus { a: Box<Expr>, b: Box<Expr> },
    /// `x * scale + shift`, or zero where that is negative.
    Rectified { x: Box<Expr>, scale: Box<Expr>, shift: Box<Expr> },
}

/// The row of tap `t` of the output pixels with the parities `py` and `px`.
pub open spec fn meeting_row(py: int, px: int, t: int) -> int {
    if py == 0 {
        1
    } else {
        2 * (t / (1 + px))
    }
}

/// The column of tap `t` of the output pixels with the parities `py` and `px`.
pub open spec fn meeting_col(px: int, t: int) -> int {
    if px == 0 {
        1
    } else {
        2 * (t % (1 + px))
    }
}

/// Element `i` of what a block holds.
#[verifier::opaque]
pub open spec fn elem(v: Val, i: int) -> Expr
    decreases v,
{
    match v {
        Val::Later { of, offset } => elem(*of, i + offset as int / 4),
        Val::Followed { first, offset, by } => if i < offset as int / 4 {
            elem(*first, i)
        } else {
            elem(*by, i - offset as int / 4)
        },
        Val::First { x, .. } => elem(*x, i),
        Val::Patches { x, cin, h, w, kh, kw, ph, pw, stride, oh, ow, reflect: mirror } => {
            let (r, j) = (i / (oh * ow), i % (oh * ow));
            let (ci, ky, kx) = (r / kw / kh, r / kw % kh, r % kw);
            let y = j / ow * stride + ky - ph;
            let z = j % ow * stride + kx - pw;
            if mirror {
                elem(*x, cell(w, cell(h, ci, reflect(y, h)), reflect(z, w)))
            } else if 0 <= y < h && 0 <= z < w {
                elem(*x, cell(w, cell(h, ci, y), z))
            } else {
                Expr::Zero
            }
        },
        Val::PhasePatches { x, cin, h, w, py, px, taps, n, oh, ow } => {
            let (r, j) = (i / n, i % n);
            let (ci, t) = (r / taps, r % taps);
            let y = (2 * (j / w) + py + 1 - meeting_row(py, px, t)) / 2;
            let z = (2 * (j % w) + px + 1 - meeting_col(px, t)) / 2;
            if 0 <= y < h && 0 <= z < w {
                elem(*x, cell(w, cell(h, ci, y), z))
            } else {
                Expr::Zero
            }
        },
        Val::Product { a, b, m, n, k } => Expr::Dot {
            terms: Seq::new(
                k as nat,
                |l: int| (elem(*a, i % m + l * m), elem(*b, l + i / m * k)),
            ),
        },
        Val::Biased { x, bias, channels, plane } => Expr::Plus {
            a: Box::new(elem(*x, i)),
            b: Box::new(elem(*bias, i / plane)),
        },
        Val::Normed { x, scale, shift, channels, plane } => Expr::Rectified {
            x: Box::new(elem(*x, i)),
            scale: Box::new(elem(*scale, i / plane)),
            shift: Box::new(elem(*shift, i / plane)),
        },
        Val::Sum { a, b, n } => if i < n {
            Expr::Plus { a: Box::new(elem(*a, i)), b: Box::new(elem(*b, i)) }
        } else {
            elem(*a, i)
        },
        Val::Put { under, x, bias, cout, n, py, px, oh, ow } => {
            let (co, j) = (i / (oh * ow), i % (oh * ow));
            let (y, z) = (j / ow, j % ow);
            if y % 2 == py && z % 2 == px {
                Expr::Plus {
                    a: Box::new(elem(*x, cell(n, co, cell(ow / 2, y / 2, z / 2)))),
                    b: Box::new(elem(*bias, co)),
                }
            } else {
                elem(*under, i)
            }
        },
        Val::Wide { x, weight, cin, cout, h, w, oh, ow } => {
            let (co, j) = (i / (oh * ow), i % (oh * ow));
            Expr::Dot {
                terms: Seq::new(
                    (cin * 49) as nat,
                    |l: int|
                        {
                            let (ci, ky, kx) = (l / 7 / 7, l / 7 % 7, l % 7);
                            (
                                elem(*x, cell(w, cell(h, ci, j / ow + ky), j % ow + kx)),
                                elem(*weight, cell(49, cell(cout, ci, co), 7 * ky + kx)),
                            )
                        },
                ),
            }
        },
        _ => Expr::Leaf { of: v, i },
    }
}

proof fn lemma_product(a: Val, b: Val, m: int, n: int, k: int, i: int)
    requires
        0 <= k,
    ensures
        ({
            let e = elem(Val::Product { a: Box::new(a), b: Box::new(b), m, n, k }, i);
            &&& e is Dot
            &&& e->terms.len() == k
            &&& forall|l: int|
                0 <= l < k ==> #[trigger] e->terms[l] == (
                    elem(a, i % m + l * m),
                    elem(b, l + i / m * k),
                )
        }),
{
    reveal(elem);
}

proof fn lemma_biased(x: Val, bias: Val, channels: int, plane: int, i: int)
    ensures
        elem(Val::Biased { x: Box::new(x), bias: Box::new(bias), channels, plane }, i) == (
        Expr::Plus { a: Box::new(elem(x, i)), b: Box::new(elem(bias, i / plane)) }),
{
    reveal(elem);
}

// ---------------------------------------------------------------------------
// Convolutions
// ---------------------------------------------------------------------------

/// The element of `x` at `(y, z)` of channel `ci`, with what lies outside mirrored or
/// zero.
pub open spec fn sample(x: Acts, ci: int, y: int, z: int, mirror: bool) -> Expr {
    let (h, w) = (x.h as int, x.w as int);
    if mirror {
        elem(x.v, cell(w, cell(h, ci, reflect(y, h)), reflect(z, w)))
    } else if 0 <= y < h && 0 <= z < w {
        elem(x.v, cell(w, cell(h, ci, y), z))
    } else {
        Expr::Zero
    }
}

/// The weight of a convolution for output `co`, input `ci` and the place `(ky, kx)` of
/// its kernel. The 7x7 kernel reads its own order.
pub open spec fn weight(
    p: Work,
    cv: DConv,
    wide: bool,
    co: int,
    ci: int,
    ky: int,
    kx: int,
) -> Expr {
    let (cin, cout, kh, kw) = (cv.cin as int, cv.cout as int, cv.kh as int, cv.kw as int);
    if wide {
        elem(value(p, (cv.w_t->0).addr), cell(49, cell(cout, ci, co), 7 * ky + kx))
    } else {
        elem(value(p, cv.w.addr), cell(kw, cell(kh, cell(cin, co, ci), ky), kx))
    }
}

/// A sum is the one that a convolution asks for at output `co`, row `oy` and column `ox`.
pub open spec fn is_conv_sum(
    p: Work,
    x: Acts,
    cv: DConv,
    pad: int,
    stride: int,
    mirror: bool,
    wide: bool,
    at: (int, int, int),
    e: Expr,
) -> bool {
    let (co, oy, ox) = at;
    let (cin, kh, kw) = (cv.cin as int, cv.kh as int, cv.kw as int);
    &&& e is Dot
    &&& e->terms.len() == cin * kh * kw
    &&& forall|ci: int, ky: int, kx: int|
        0 <= ci < cin && 0 <= ky < kh && 0 <= kx < kw ==> e->terms[#[trigger] cell(
            kw,
            cell(kh, ci, ky),
            kx,
        )] == (
            sample(x, ci, oy * stride + ky - pad, ox * stride + kx - pad, mirror),
            weight(p, cv, wide, co, ci, ky, kx),
        )
}

/// Every output of a convolution is the sum of the products of the weights and the
/// inputs that they lie on: with the kernel at row `oy * stride - pad` and column
/// `ox * stride - pad`, the weight `[co][ci][ky][kx]` meets the input `ky` rows and `kx`
/// columns further on in channel `ci`; and then the bias of that output.
pub proof fn convolution_sums_its_window(
    p: Work,
    cv: DConv,
    src: DActs,
    pad: usize,
    stride: usize,
    reflect: bool,
    at: (int, int, int),
)
    requires
        conv(p, cv, src, pad, stride, reflect).0.going(),
        conv(p, cv, src, pad, stride, reflect).0.cmds.len() <= usize::MAX,
        older(src.buf.addr, p.cmds.len()),
        conv_older(cv, p.cmds.len()),
        conv_small(cv, src, pad, stride),
        small(pad as int),
        0 < stride <= i32::MAX,
        0 < cv.kh,
        0 < cv.kw,
        cv.kh == 1 && cv.kw == 1 && stride == 1 ==> pad == 0 && !reflect,
        cv.kh == 7 && cv.kw == 7 && stride == 1 && pad == 0 && cv.w_t is Some ==> !reflect,
        0 <= at.0 < cv.cout,
        0 <= at.1 < conv_sizes(cv, src, pad, stride).oh,
        0 <= at.2 < conv_sizes(cv, src, pad, stride).ow,
    ensures
        ({
            let (q, out) = conv(p, cv, src, pad, stride, reflect);
            let z = conv_sizes(cv, src, pad, stride);
            let wide = cv.kh == 7 && cv.kw == 7 && stride == 1 && pad == 0 && cv.w_t is Some;
            let e = elem(value(q, out.buf.addr), cell(z.n, at.0, cell(z.ow, at.1, at.2)));
            let x = seen(p, src);
            &&& out.c == cv.cout
            &&& out.h == z.oh
            &&& out.w == z.ow
            &&& match cv.bias {
                Some(b) => {
                    &&& e is Plus
                    &&& is_conv_sum(
                        p,
                        x,
                        cv,
                        pad as int,
                        stride as int,
                        reflect,
                        wide,
                        at,
                        *e->Plus_a,
                    )
                    &&& *e->Plus_b == elem(value(p, b.addr), at.0)
                },
                None => is_conv_sum(
                    p,
                    x,
                    cv,
                    pad as int,
                    stride as int,
                    reflect,
                    wide,
                    at,
                    e,
                ),
            }
        }),
{
    convolution_computes(p, cv, src, pad, stride, reflect);
    let x = seen(p, src);
    let z = conv_sizes(cv, src, pad, stride);
    let i = cell(z.n, at.0, cell(z.ow, at.1, at.2));
    lemma_cell(z.oh, z.ow, at.1, at.2);
    lemma_cell(cv.cout as int, z.n, at.0, cell(z.ow, at.1, at.2));
    assert(convolved(p, x, cv, pad, stride, reflect).v == with_bias(
        p,
        unbiased(p, x, cv, pad, stride, reflect),
        cv,
        z.n,
    )) by {
        if cv.kh == 1 && cv.kw == 1 && stride == 1 {
            lemma_whole(x.h as int, x.w as int);
        }
    }
    if let Some(b) = cv.bias {
        lemma_biased(
            unbiased(p, x, cv, pad, stride, reflect),
            value(p, b.addr),
            int32(cv.cout as int),
            z.n,
            i,
        );
    }
    if cv.kh == 1 && cv.kw == 1 && stride == 1 {
        lemma_whole(x.h as int, x.w as int);
        lemma_pointwise_sum(p, x, cv, at);
    } else if cv.kh == 7 && cv.kw == 7 && stride == 1 && pad == 0 && cv.w_t is Some {
        lemma_wide_sum(p, x, cv, at);
    } else {
        assert(small(cv.cin * cv.kh * cv.kw)) by {
            let k = cv.cin * cv.kh * cv.kw;
            lemma_weights_count(cv.cin as int, cv.kh as int, cv.kw as int);
            assert(k <= k * z.n) by (nonlinear_arith)
                requires
                    0 <= k,
                    1 <= z.n,
            ;
        }
        lemma_patch_sum(p, x, cv, pad, stride, reflect, at);
    }
}

proof fn lemma_weights_count(cin: int, kh: int, kw: int)
    requires
        0 <= cin,
        0 <= kh,
        0 <= kw,
    ensures
        0 <= cin * kh * kw,
{
    assert(0 <= cin * kh * kw) by (nonlinear_arith)
        requires
            0 <= cin,
            0 <= kh,
            0 <= kw,
    ;
}

/// A 1x1 convolution without padding keeps the extents.
proof fn lemma_whole(h: int, w: int)
    ensures
        conv_extent(h, 0, 1, 1) == h,
        conv_extent(w, 0, 1, 1) == w,
{
}

/// A convolution before its bias is added.
spec fn unbiased(p: Work, x: Acts, cv: DConv, pad: usize, stride: usize, mirror: bool) -> Val {
    convolved(p, x, DConv { bias: None, ..cv }, pad, stride, mirror).v
}

proof fn lemma_pointwise_sum(p: Work, x: Acts, cv: DConv, at: (int, int, int))
    requires
        cv.kh == 1 && cv.kw == 1,
        small(x.h * x.w),
        small(cv.cin as int),
        small(cv.cout as int),
        0 <= at.0 < cv.cout,
        0 <= at.1 < x.h,
        0 <= at.2 < x.w,
    ensures
        is_conv_sum(
            p,
            x,
            cv,
            0,
            1,
            false,
            false,
            at,
            elem(
                unbiased(p, x, cv, 0, 1, false),
                cell(x.h * x.w, at.0, cell(x.w as int, at.1, at.2)),
            ),
        ),
{
    let (co, oy, ox) = at;
    let (h, w, n) = (x.h as int, x.w as int, x.h * x.w);
    let (cin, cout) = (cv.cin as int, cv.cout as int);
    lemma_cell(h, w, oy, ox);
    let j = cell(w, oy, ox);
    lemma_cell(cout, n, co, j);
    let i = cell(n, co, j);
    let s = elem(unbiased(p, x, cv, 0, 1, false), i);
    lemma_product(x.v, value(p, cv.w.addr), n, cout, cin, i);
    assert(cin * 1 * 1 == cin);
    assert forall|ci: int, ky: int, kx: int|
        0 <= ci < cin && 0 <= ky < 1 && 0 <= kx < 1 implies s->terms[#[trigger] cell(
        1,
        cell(1, ci, ky),
        kx,
    )] == (
        sample(x, ci, oy * 1 + ky - 0, ox * 1 + kx - 0, false),
        weight(p, cv, false, co, ci, ky, kx),
    ) by {
        let l = cell(1, cell(1, ci, ky), kx);
        assert(l == ci);
        assert(cell(w, cell(h, ci, oy), ox) == j + ci * n) by (nonlinear_arith)
            requires
                j == oy * w + ox,
                n == h * w,
                cell(w, cell(h, ci, oy), ox) == (ci * h + oy) * w + ox,
        ;
        assert(s->terms[ci] == (elem(x.v, j + ci * n), elem(value(p, cv.w.addr), ci + co * cin)));
        assert(cell(1, cell(1, cell(cin, co, ci), 0), 0) == ci + co * cin);
    }
}

proof fn lemma_wide_sum(p: Work, x: Acts, cv: DConv, at: (int, int, int))
    requires
        cv.kh == 7 && cv.kw == 7,
        cv.w_t is Some,
        small(x.h as int),
        small(x.w as int),
        small(cv.cin as int),
        small(cv.cout as int),
        0 <= at.0 < cv.cout,
        0 <= at.1 < x.h - 6,
        0 <= at.2 < x.w - 6,
    ensures
        is_conv_sum(
            p,
            x,
            cv,
            0,
            1,
            false,
            true,
            at,
            elem(
                unbiased(p, x, cv, 0, 1, false),
                cell((x.h - 6) * (x.w - 6), at.0, cell(x.w - 6, at.1, at.2)),
            ),
        ),
{
    let (co, oy, ox) = at;
    let (oh, ow) = (x.h - 6, x.w - 6);
    let cin = cv.cin as int;
    lemma_cell(oh, ow, oy, ox);
    let j = cell(ow, oy, ox);
    lemma_cell(cv.cout as int, oh * ow, co, j);
    let i = cell(oh * ow, co, j);
    let s = elem(unbiased(p, x, cv, 0, 1, false), i);
    let t = value(p, (cv.w_t->0).addr);
    lemma_wide(x.v, t, cin, cv.cout as int, x.h as int, x.w as int, oh, ow, i);
    assert(cin * 7 * 7 == cin * 49);
    assert forall|ci: int, ky: int, kx: int|
        0 <= ci < cin && 0 <= ky < 7 && 0 <= kx < 7 implies s->terms[#[trigger] cell(
        7,
        cell(7, ci, ky),
        kx,
    )] == (
        sample(x, ci, oy * 1 + ky - 0, ox * 1 + kx - 0, false),
        weight(p, cv, true, co, ci, ky, kx),
    ) by {
        let l = cell(7, cell(7, ci, ky), kx);
        lemma_cell(cin, 7, ci, ky);
        lemma_cell(cin * 7, 7, cell(7, ci, ky), kx);
        assert(l / 7 == cell(7, ci, ky) && l % 7 == kx);
        assert(l / 7 / 7 == ci && l / 7 % 7 == ky);
    }
}

proof fn lemma_wide(
    x: Val,
    weight: Val,
    cin: int,
    cout: int,
    h: int,
    w: int,
    oh: int,
    ow: int,
    i: int,
)
    requires
        0 <= cin,
    ensures
        ({
            let v = Val::Wide {
                x: Box::new(x),
                weight: Box::new(weight),
                cin,
                cout,
                h,
                w,
                oh,
                ow,
            };
            let e = elem(v, i);
            let (co, j) = (i / (oh * ow), i % (oh * ow));
            &&& e is Dot
            &&& e->terms.len() == cin * 49
            &&& forall|l: int|
                0 <= l < cin * 49 ==> #[trigger] e->terms[l] == (
                    elem(x, cell(w, cell(h, l / 7 / 7, j / ow + l / 7 % 7), j % ow + l % 7)),
                    elem(weight, cell(49, cell(cout, l / 7 / 7, co), 7 * (l / 7 % 7) + l % 7)),
                )
        }),
{
    reveal(elem);
}

proof fn lemma_patch_sum(
    p: Work,
    x: Acts,
    cv: DConv,
    pad: usize,
    stride: usize,
    mirror: bool,
    at: (int, int, int),
)
    requires
        !(cv.kh == 1 && cv.kw == 1 && stride == 1),
        !(cv.kh == 7 && cv.kw == 7 && stride == 1 && pad == 0 && cv.w_t is Some),
        ({
            let oh = conv_extent(x.h as int, pad as int, cv.kh as int, stride as int);
            let ow = conv_extent(x.w as int, pad as int, cv.kw as int, stride as int);
            &&& small(oh) && small(ow) && small(oh * ow)
            &&& 0 <= at.1 < oh
            &&& 0 <= at.2 < ow
        }),
        small(x.h as int),
        small(x.w as int),
        small(cv.cin as int),
        small(cv.cout as int),
        small(cv.kh as int),
        small(cv.kw as int),
        small(cv.cin * cv.kh * cv.kw),
        small(pad as int),
        small(stride as int),
        0 < cv.kh,
        0 < cv.kw,
        0 <= at.0 < cv.cout,
    ensures
        ({
            let oh = conv_extent(x.h as int, pad as int, cv.kh as int, stride as int);
            let ow = conv_extent(x.w as int, pad as int, cv.kw as int, stride as int);
            is_conv_sum(
                p,
                x,
                cv,
                pad as int,
                stride as int,
                mirror,
                false,
                at,
                elem(
                    unbiased(p, x, cv, pad, stride, mirror),
                    cell(oh * ow, at.0, cell(ow, at.1, at.2)),
                ),
            )
        }),
{
    let (co, oy, ox) = at;
    let (h, w) = (x.h as int, x.w as int);
    let (cin, kh, kw) = (cv.cin as int, cv.kh as int, cv.kw as int);
    let oh = conv_extent(h, pad as int, kh, stride as int);
    let ow = conv_extent(w, pad as int, kw, stride as int);
    let n = oh * ow;
    let k = cin * kh * kw;
    lemma_cell(oh, ow, oy, ox);
    let j = cell(ow, oy, ox);
    lemma_cell(cv.cout as int, n, co, j);
    let i = cell(n, co, j);
    let s = elem(unbiased(p, x, cv, pad, stride, mirror), i);
    let patches = Val::Patches {
        x: Box::new(x.v),
        cin,
        h,
        w,
        kh,
        kw,
        ph: pad as int,
        pw: pad as int,
        stride: stride as int,
        oh,
        ow,
        reflect: mirror,
    };
    lemma_product(patches, value(p, cv.w.addr), n, cv.cout as int, k, i);
    assert forall|ci: int, ky: int, kx: int|
        0 <= ci < cin && 0 <= ky < kh && 0 <= kx < kw implies s->terms[#[trigger] cell(
        kw,
        cell(kh, ci, ky),
        kx,
    )] == (
        sample(x, ci, oy * stride + ky - pad, ox * stride + kx - pad, mirror),
        weight(p, cv, false, co, ci, ky, kx),
    ) by {
        let l = cell(kw, cell(kh, ci, ky), kx);
        lemma_cell(cin, kh, ci, ky);
        lemma_cell(cin * kh, kw, cell(kh, ci, ky), kx);
        assert(0 <= l < k);
        lemma_cell(k, n, l, j);
        assert(j + l * n == cell(n, l, j));
        assert(s->terms[l] == (
            elem(patches, cell(n, l, j)),
            elem(value(p, cv.w.addr), l + co * k),
        ));
        lemma_patch(x, cv, pad, stride, mirror, oh, ow, (ci, ky, kx), (oy, ox));
        assert(cell(kw, cell(kh, cell(cin, co, ci), ky), kx) == l + co * k) by (nonlinear_arith)
            requires
                l == (ci * kh + ky) * kw + kx,
                k == cin * kh * kw,
                cell(kw, cell(kh, cell(cin, co, ci), ky), kx) == ((co * cin + ci) * kh + ky) * kw
                    + kx,
        ;
    }
}

/// A patch matrix has a row for every weight and a column for every output pixel, and
/// holds the input that the weight lies on.
proof fn lemma_patch(
    x: Acts,
    cv: DConv,
    pad: usize,
    stride: usize,
    mirror: bool,
    oh: int,
    ow: int,
    tap: (int, int, int),
    at: (int, int),
)
    requires
        0 <= tap.0 < cv.cin,
        0 <= tap.1 < cv.kh,
        0 <= tap.2 < cv.kw,
        0 <= at.0 < oh,
        0 <= at.1 < ow,
    ensures
        ({
            let v = Val::Patches {
                x: Box::new(x.v),
                cin: cv.cin as int,
                h: x.h as int,
                w: x.w as int,
                kh: cv.kh as int,
                kw: cv.kw as int,
                ph: pad as int,
                pw: pad as int,
                stride: stride as int,
                oh,
                ow,
                reflect: mirror,
            };
            let l = cell(cv.kw as int, cell(cv.kh as int, tap.0, tap.1), tap.2);
            elem(v, cell(oh * ow, l, cell(ow, at.0, at.1))) == sample(
                x,
                tap.0,
                at.0 * stride + tap.1 - pad,
                at.1 * stride + tap.2 - pad,
                mirror,
            )
        }),
{
    let (cin, kh, kw) = (cv.cin as int, cv.kh as int, cv.kw as int);
    let l = cell(kw, cell(kh, tap.0, tap.1), tap.2);
    let j = cell(ow, at.0, at.1);
    lemma_cell(cin, kh, tap.0, tap.1);
    lemma_cell(cin * kh, kw, cell(kh, tap.0, tap.1), tap.2);
    lemma_cell(oh, ow, at.0, at.1);
    lemma_cell(cin * kh * kw, oh * ow, l, j);
    reveal(elem);
}

// ---------------------------------------------------------------------------
// Upsampling
// ---------------------------------------------------------------------------

/// The matrix of a phase.
pub open spec fn phase_weights(p: Work, w: Phases, ph: int) -> Val {
    value(
        p,
        if ph == 0 {
            w.p00.addr
        } else if ph == 1 {
            w.p01.addr
        } else if ph == 2 {
            w.p10.addr
        } else {
            w.p11.addr
        },
    )
}

/// A sum is the one that a transposed convolution of stride 2 and padding 1 asks for at
/// output `co`, row `y` and column `z`: over the inputs that a weight carries there.
pub open spec fn is_phase_sum(
    x: Acts,
    weights: Val,
    cin: int,
    at: (int, int, int),
    e: Expr,
) -> bool {
    let (co, y, z) = at;
    let (py, px) = (y % 2, z % 2);
    let taps = (1 + py) * (1 + px);
    &&& e is Dot
    &&& e->terms.len() == cin * taps
    &&& forall|ci: int, t: int|
        0 <= ci < cin && 0 <= t < taps ==> {
            let (iy, iz) = (
                (y + 1 - meeting_row(py, px, t)) / 2,
                (z + 1 - meeting_col(px, t)) / 2,
            );
            &&& meets(y, meeting_row(py, px, t), iy)
            &&& meets(z, meeting_col(px, t), iz)
            &&& e->terms[#[trigger] cell(taps, ci, t)] == (
                sample(x, ci, iy, iz, false),
                elem(weights, cell(cin * taps, co, cell(taps, ci, t))),
            )
        }
}

/// Every output of an upsampling is the sum, over the weights of the 3x3 kernel that
/// carry an input to that pixel, of the weight and that input, and then the bias: with
/// the matrix of the phase that the pixel's own parities give.
pub proof fn upsampling_sums_what_meets(
    p: Work,
    cv: DConvT,
    src: DActs,
    w: Phases,
    at: (int, int, int),
)
    requires
        cv.phases == Some(w),
        up_phases(p, cv, src, w).0.going(),
        up_phases(p, cv, src, w).0.cmds.len() <= usize::MAX,
        older(src.buf.addr, p.cmds.len()),
        convt_older(cv, p.cmds.len()),
        small(2 * src.h),
        small(2 * src.w),
        small(src.h * src.w),
        small(cv.cin * 4),
        small(cv.cout as int),
        0 <= at.0 < cv.cout,
        0 <= at.1 < 2 * src.h,
        0 <= at.2 < 2 * src.w,
    ensures
        ({
            let (q, out) = up_phases(p, cv, src, w);
            let (co, y, z) = at;
            let e = elem(
                value(q, out.buf.addr),
                cell((2 * src.h) * (2 * src.w), co, cell(2 * src.w, y, z)),
            );
            &&& out.c == cv.cout
            &&& out.h == 2 * src.h
            &&& out.w == 2 * src.w
            &&& e is Plus
            &&& is_phase_sum(
                seen(p, src),
                phase_weights(p, w, 2 * (y % 2) + z % 2),
                cv.cin as int,
                at,
                *e->Plus_a,
            )
            &&& *e->Plus_b == elem(value(p, cv.bias.addr), co)
        }),
{
    upsampling_computes(p, cv, src, w);
    let x = seen(p, src);
    let (co, y, z) = at;
    let ph = (2 * (y % 2) + z % 2) as nat;
    let bias = value(p, cv.bias.addr);
    let v0 = phase_value(x, cv, phase_weights(p, w, 0), 0);
    let v1 = phase_value(x, cv, phase_weights(p, w, 1), 1);
    let v2 = phase_value(x, cv, phase_weights(p, w, 2), 2);
    let v3 = phase_value(x, cv, phase_weights(p, w, 3), 3);
    let o0 = put_phase(Val::Raw, v0, bias, x, cv, 0);
    let o1 = put_phase(o0, v1, bias, x, cv, 1);
    let o2 = put_phase(o1, v2, bias, x, cv, 2);
    lemma_put(o2, v3, bias, x, cv, 3, at);
    lemma_put(o1, v2, bias, x, cv, 2, at);
    lemma_put(o0, v1, bias, x, cv, 1, at);
    lemma_put(Val::Raw, v0, bias, x, cv, 0, at);
    lemma_phase_sum(x, cv, phase_weights(p, w, ph as int), ph, at);
}

/// Putting a phase changes the pixels of its parities and no others.
proof fn lemma_put(under: Val, v: Val, bias: Val, x: Acts, cv: DConvT, ph: nat, at: (int, int, int))
    requires
        ph < 4,
        small(2 * x.h),
        small(2 * x.w),
        small(x.h * x.w),
        0 <= at.0 < cv.cout,
        0 <= at.1 < 2 * x.h,
        0 <= at.2 < 2 * x.w,
    ensures
        ({
            let (co, y, z) = at;
            let i = cell((2 * x.h) * (2 * x.w), co, cell(2 * x.w, y, z));
            elem(put_phase(under, v, bias, x, cv, ph), i) == if y % 2 == ph / 2 && z % 2 == ph % 2 {
                Expr::Plus {
                    a: Box::new(elem(v, cell(x.h * x.w, co, cell(x.w as int, y / 2, z / 2)))),
                    b: Box::new(elem(bias, co)),
                }
            } else {
                elem(under, i)
            }
        }),
{
    let (co, y, z) = at;
    lemma_cell(2 * x.h, 2 * x.w, y, z);
    lemma_cell(cv.cout as int, (2 * x.h) * (2 * x.w), co, cell(2 * x.w, y, z));
    reveal(elem);
}

proof fn lemma_phase_sum(x: Acts, cv: DConvT, weights: Val, ph: nat, at: (int, int, int))
    requires
        ph == 2 * (at.1 % 2) + at.2 % 2,
        small(2 * x.h),
        small(2 * x.w),
        small(x.h * x.w),
        small(cv.cin * 4),
        small(cv.cout as int),
        0 <= at.0 < cv.cout,
        0 <= at.1 < 2 * x.h,
        0 <= at.2 < 2 * x.w,
    ensures
        is_phase_sum(
            x,
            weights,
            cv.cin as int,
            at,
            elem(
                phase_value(x, cv, weights, ph),
                cell(x.h * x.w, at.0, cell(x.w as int, at.1 / 2, at.2 / 2)),
            ),
        ),
{
    let (co, y, z) = at;
    let (h, w, n) = (x.h as int, x.w as int, x.h * x.w);
    let (cin, cout) = (cv.cin as int, cv.cout as int);
    let (py, px) = (y % 2, z % 2);
    assert(ph / 2 == py && ph % 2 == px);
    let taps = (1 + py) * (1 + px);
    assert(taps == 1 || taps == 2 || taps == 4) by {
        assert((1 + py) * (1 + px) == 1 + py + px + py * px) by (nonlinear_arith);
        assert(py == 0 || py == 1);
        assert(px == 0 || px == 1);
    }
    let k = cin * taps;
    assert(0 <= k <= cin * 4) by (nonlinear_arith)
        requires
            0 <= cin,
            k == cin * taps,
            1 <= taps <= 4,
    ;
    let j = cell(w, y / 2, z / 2);
    lemma_cell(h, w, y / 2, z / 2);
    lemma_cell(cout, n, co, j);
    let i = cell(n, co, j);
    let s = elem(phase_value(x, cv, weights, ph), i);
    let patches = Val::PhasePatches {
        x: Box::new(x.v),
        cin,
        h,
        w,
        py,
        px,
        taps,
        n,
        oh: 2 * x.h,
        ow: 2 * x.w,
    };
    lemma_product(patches, weights, n, cout, k, i);
    assert forall|ci: int, t: int| 0 <= ci < cin && 0 <= t < taps implies {
        let (iy, iz) = ((y + 1 - meeting_row(py, px, t)) / 2, (z + 1 - meeting_col(px, t)) / 2);
        &&& meets(y, meeting_row(py, px, t), iy)
        &&& meets(z, meeting_col(px, t), iz)
        &&& s->terms[#[trigger] cell(taps, ci, t)] == (
            sample(x, ci, iy, iz, false),
            elem(weights, cell(k, co, cell(taps, ci, t))),
        )
    } by {
        let l = cell(taps, ci, t);
        lemma_cell(cin, taps, ci, t);
        lemma_cell(k, n, l, j);
        assert(j + l * n == cell(n, l, j));
        assert(s->terms[l] == (elem(patches, cell(n, l, j)), elem(weights, l + co * k)));
        assert(2 * (y / 2) + py == y && 2 * (z / 2) + px == z);
        assert(elem(patches, cell(n, l, j)) == sample(
            x,
            ci,
            (y + 1 - meeting_row(py, px, t)) / 2,
            (z + 1 - meeting_col(px, t)) / 2,
            false,
        )) by {
            reveal(elem);
        }
    }
}

// ---------------------------------------------------------------------------
// Stacks
// ---------------------------------------------------------------------------

/// A stack has every element of the first block in its place, and every element of the
/// second as far behind as the first is long.
pub proof fn stacking_keeps_every_element(p: Work, a: DActs, g: DActs, i: int)
    requires
        concatenated(p, a, g).0.going(),
        concatenated(p, a, g).0.cmds.len() <= usize::MAX,
        older(a.buf.addr, p.cmds.len()),
        older(g.buf.addr, p.cmds.len()),
        4 * a.buf.len <= usize::MAX,
    ensures
        ({
            let (q, out) = concatenated(p, a, g);
            let e = elem(value(q, out.buf.addr), i);
            &&& 0 <= i < a.buf.len ==> e == elem(value(p, a.buf.addr), i)
            &&& a.buf.len <= i < a.buf.len + g.buf.len ==> e == elem(
                value(p, g.buf.addr),
                i - a.buf.len,
            )
        }),
{
    stacking_computes(p, a, g);
    reveal_with_fuel(elem, 3);
}

// ---------------------------------------------------------------------------
// Normalisations
// ---------------------------------------------------------------------------

/// A normalisation with a residual makes every value of a channel the value times the
/// channel's scale plus the channel's shift, or zero where that is negative, and then
/// adds the residual's value at the same place.
pub proof fn normalisation_goes_channel_by_channel(
    p: Work,
    x: DActs,
    bn: DBn,
    skip: DActs,
    at: (int, int, int),
)
    requires
        bn_relu_add(p, x, bn, Some(skip)).going(),
        at_start(x.buf),
        small(bn.channels as int),
        small(x.h * x.w),
        0 <= at.0 < bn.channels,
        0 <= at.1 < x.h,
        0 <= at.2 < x.w,
    ensures
        ({
            let i = cell(x.h * x.w, at.0, cell(x.w as int, at.1, at.2));
            elem(value(bn_relu_add(p, x, bn, Some(skip)), x.buf.addr), i) == (Expr::Plus {
                a: Box::new(
                    Expr::Rectified {
                        x: Box::new(elem(value(p, x.buf.addr), i)),
                        scale: Box::new(elem(value(p, bn.scale.addr), at.0)),
                        shift: Box::new(elem(value(p, bn.shift.addr), at.0)),
                    },
                ),
                b: Box::new(elem(value(p, skip.buf.addr), i)),
            })
        }),
{
    residual_add_computes(p, x, bn, Some(skip));
    lemma_cell(x.h as int, x.w as int, at.1, at.2);
    lemma_cell(bn.channels as int, x.h * x.w, at.0, cell(x.w as int, at.1, at.2));
    reveal_with_fuel(elem, 2);
}

} // verus!
