//! What the device operations compute from their inputs and their weights, whatever
//! blocks they use on the way.

use vstd::prelude::*;

use crate::aliasing::call_writes;
use crate::cuda::{Addr, Base, Call, Cmd, DActs, Dev, Work};
use crate::fft::PlanKey;
use crate::meaning::{
    after_all, holds, makes, older, outcome, performed, seen, starts, untouched, value, Acts,
    Memory, Val,
};
use crate::ops::{
    bn_relu, bn_relu_add, concatenated, conv, conv_extent, copied, direct, inverted, padded,
    patch_conv, pointwise, pooled, sigmoid, spectral, spectrum, sum, up_gather, DBn, DConv, DConvT,
    DSpectral,
};
use crate::safety::{lemma_conv_grows, lemma_inverted_grows, lemma_small_grow, lemma_spectrum_grows};

verus! {

broadcast use {crate::cuda::group_work, crate::meaning::group_meaning};

/// A number in the device's integers.
pub open spec fn int32(n: int) -> int {
    n as i32 as int
}

/// A number in the device's long integers.
pub open spec fn int64(n: int) -> int {
    n as i64 as int
}

// ---------------------------------------------------------------------------
// Convolutions
// ---------------------------------------------------------------------------

/// The weights of a convolution are older than what the commands from `n` on
/// allocate.
pub open spec fn conv_older(cv: DConv, n: nat) -> bool {
    &&& older(cv.w.addr, n)
    &&& (cv.bias matches Some(b) ==> older(b.addr, n))
    &&& (cv.w_t matches Some(t) ==> older(t.addr, n))
}

/// With the bias that a convolution has, if any.
pub open spec fn with_bias(p: Work, v: Val, cv: DConv, plane: int) -> Val {
    match cv.bias {
        Some(b) => Val::Biased {
            x: Box::new(v),
            bias: Box::new(value(p, b.addr)),
            channels: int32(cv.cout as int),
            plane,
        },
        None => v,
    }
}

/// A convolution of activations: a matrix product over the channels where it is 1x1,
/// the 7x7 kernel where the reordered weights are there, and otherwise the product of
/// the patch matrix and the weights; in each case with the bias.
pub open spec fn convolved(
    p: Work,
    x: Acts,
    cv: DConv,
    pad: usize,
    stride: usize,
    reflect: bool,
) -> Acts {
    if cv.kh == 1 && cv.kw == 1 && stride == 1 {
        let n = x.h * x.w;
        let v = Val::Product {
            a: Box::new(x.v),
            b: Box::new(value(p, cv.w.addr)),
            m: int32(n),
            n: int32(cv.cout as int),
            k: int32(cv.cin as int),
        };
        Acts {
            v: with_bias(p, v, cv, int64(n)),
            c: cv.cout,
            h: x.h,
            w: x.w,
            len: (cv.cout * n) as usize,
        }
    } else if cv.kh == 7 && cv.kw == 7 && stride == 1 && pad == 0 && cv.w_t is Some {
        let (oh, ow) = (x.h - 6, x.w - 6);
        let v = Val::Wide {
            x: Box::new(x.v),
            weight: Box::new(value(p, (cv.w_t->0).addr)),
            cin: int32(cv.cin as int),
            cout: int32(cv.cout as int),
            h: int32(x.h as int),
            w: int32(x.w as int),
            oh: int32(oh),
            ow: int32(ow),
        };
        Acts {
            v: with_bias(p, v, cv, int32(oh) * int32(ow)),
            c: cv.cout,
            h: oh as usize,
            w: ow as usize,
            len: (cv.cout * oh * ow) as usize,
        }
    } else {
        let oh = conv_extent(x.h as int, pad as int, cv.kh as int, stride as int);
        let ow = conv_extent(x.w as int, pad as int, cv.kw as int, stride as int);
        let patches = Val::Patches {
            x: Box::new(x.v),
            cin: int32(cv.cin as int),
            h: int32(x.h as int),
            w: int32(x.w as int),
            kh: int32(cv.kh as int),
            kw: int32(cv.kw as int),
            ph: int32(pad as int),
            pw: int32(pad as int),
            stride: int32(stride as int),
            oh: int32(oh),
            ow: int32(ow),
            reflect,
        };
        let v = Val::Product {
            a: Box::new(patches),
            b: Box::new(value(p, cv.w.addr)),
            m: int32(oh * ow),
            n: int32(cv.cout as int),
            k: int32(cv.cin * cv.kh * cv.kw),
        };
        Acts {
            v: with_bias(p, v, cv, int64(oh * ow)),
            c: cv.cout,
            h: oh as usize,
            w: ow as usize,
            len: (cv.cout * (oh * ow)) as usize,
        }
    }
}

proof fn lemma_pointwise(p: Work, cv: DConv, src: DActs)
    requires
        pointwise(p, cv, src).0.going(),
        pointwise(p, cv, src).0.cmds.len() <= usize::MAX,
        older(src.buf.addr, p.cmds.len()),
        conv_older(cv, p.cmds.len()),
        cv.kh == 1 && cv.kw == 1,
    ensures
        ({
            let (q, out) = pointwise(p, cv, src);
            makes(p, q, out, convolved(p, seen(p, src), cv, 0, 1, false))
        }),
{
}

proof fn lemma_direct(p: Work, cv: DConv, src: DActs)
    requires
        cv.w_t is Some,
        direct(p, cv, src, cv.w_t->0).0.going(),
        direct(p, cv, src, cv.w_t->0).0.cmds.len() <= usize::MAX,
        older(src.buf.addr, p.cmds.len()),
        conv_older(cv, p.cmds.len()),
        cv.kh == 7 && cv.kw == 7,
    ensures
        ({
            let (q, out) = direct(p, cv, src, cv.w_t->0);
            makes(p, q, out, convolved(p, seen(p, src), cv, 0, 1, false))
        }),
{
}

proof fn lemma_patches(
    p: Work,
    cv: DConv,
    src: DActs,
    pad: usize,
    stride: usize,
    reflect: bool,
)
    requires
        patch_conv(p, cv, src, pad, stride, reflect).0.going(),
        patch_conv(p, cv, src, pad, stride, reflect).0.cmds.len() <= usize::MAX,
        older(src.buf.addr, p.cmds.len()),
        conv_older(cv, p.cmds.len()),
        !(cv.kh == 1 && cv.kw == 1 && stride == 1),
        !(cv.kh == 7 && cv.kw == 7 && stride == 1 && pad == 0 && cv.w_t is Some),
    ensures
        ({
            let (q, out) = patch_conv(p, cv, src, pad, stride, reflect);
            makes(p, q, out, convolved(p, seen(p, src), cv, pad, stride, reflect))
        }),
{
}

/// A convolution leaves the convolution of what it reads in a block of its own, and
/// touches no other block that was there.
pub proof fn convolution_computes(
    p: Work,
    cv: DConv,
    src: DActs,
    pad: usize,
    stride: usize,
    reflect: bool,
)
    requires
        conv(p, cv, src, pad, stride, reflect).0.going(),
        conv(p, cv, src, pad, stride, reflect).0.cmds.len() <= usize::MAX,
        older(src.buf.addr, p.cmds.len()),
        conv_older(cv, p.cmds.len()),
    ensures
        ({
            let (q, out) = conv(p, cv, src, pad, stride, reflect);
            makes(p, q, out, convolved(p, seen(p, src), cv, pad, stride, reflect))
        }),
{
    reveal(conv);
    if cv.kh == 1 && cv.kw == 1 && stride == 1 {
        lemma_pointwise(p, cv, src);
    } else if cv.kh == 7 && cv.kw == 7 && stride == 1 && pad == 0 && cv.w_t is Some {
        lemma_direct(p, cv, src);
    } else {
        lemma_patches(p, cv, src, pad, stride, reflect);
    }
}

// ---------------------------------------------------------------------------
// In place
// ---------------------------------------------------------------------------

/// From `p` to `q` the block that `d` starts comes to hold `v`, and all others keep
/// what they hold.
pub open spec fn turns(p: Work, q: Work, d: Dev, v: Val) -> bool {
    &&& value(q, d.addr) == v
    &&& forall|id: usize| d.addr.base != Base::Heap(id) ==> #[trigger] holds(q, id) == holds(p, id)
    &&& after_all(q).results == after_all(p).results
}

/// A buffer is a block from its start.
pub open spec fn at_start(d: Dev) -> bool {
    d.addr.base is Heap && d.addr.offset == 0
}

/// A normalisation with the ReLU, as a value.
pub open spec fn normed(p: Work, v: Val, bn: DBn, plane: int) -> Val {
    Val::Normed {
        x: Box::new(v),
        scale: Box::new(value(p, bn.scale.addr)),
        shift: Box::new(value(p, bn.shift.addr)),
        channels: int32(bn.channels as int),
        plane: int64(plane),
    }
}

/// A normalisation with the ReLU replaces a block by its normalised and rectified
/// values, with the scale and the shift of the normalisation.
pub proof fn normalisation_computes(p: Work, x: DActs, bn: DBn)
    requires
        bn_relu(p, x, bn).going(),
        at_start(x.buf),
    ensures
        turns(
            p,
            bn_relu(p, x, bn),
            x.buf,
            Val::Normed {
                x: Box::new(value(p, x.buf.addr)),
                scale: Box::new(value(p, bn.scale.addr)),
                shift: Box::new(value(p, bn.shift.addr)),
                channels: int32(bn.channels as int),
                plane: int64(x.h * x.w),
            },
        ),
{
    reveal(bn_relu);
}

/// A normalisation with a residual adds what is to be added to the normalised and
/// rectified values, and is the plain normalisation where there is nothing to add.
pub proof fn residual_add_computes(p: Work, x: DActs, bn: DBn, skip: Option<DActs>)
    requires
        bn_relu_add(p, x, bn, skip).going(),
        at_start(x.buf),
    ensures
        turns(
            p,
            bn_relu_add(p, x, bn, skip),
            x.buf,
            match skip {
                Some(s) => Val::Sum {
                    a: Box::new(normed(p, value(p, x.buf.addr), bn, x.h * x.w)),
                    b: Box::new(value(p, s.buf.addr)),
                    n: int32(bn.channels as int) * int64(x.h * x.w),
                },
                None => normed(p, value(p, x.buf.addr), bn, x.h * x.w),
            },
        ),
        skip is None ==> after_all(bn_relu_add(p, x, bn, skip)) == after_all(bn_relu(p, x, bn)),
{
    reveal(bn_relu);
    reveal(bn_relu_add);
}

/// Adding in place adds the second block to all of the first.
pub proof fn sum_computes(p: Work, a: DActs, b: DActs)
    requires
        sum(p, a, b).going(),
        at_start(a.buf),
    ensures
        turns(
            p,
            sum(p, a, b),
            a.buf,
            Val::Sum {
                a: Box::new(value(p, a.buf.addr)),
                b: Box::new(value(p, b.buf.addr)),
                n: int64(a.buf.len as int),
            },
        ),
{
    reveal(sum);
}

/// The sigmoid in place takes it of all of the block.
pub proof fn sigmoid_computes(p: Work, x: DActs)
    requires
        sigmoid(p, x).going(),
        at_start(x.buf),
    ensures
        turns(
            p,
            sigmoid(p, x),
            x.buf,
            Val::Sigmoid { x: Box::new(value(p, x.buf.addr)), n: int64(x.buf.len as int) },
        ),
{
}

// ---------------------------------------------------------------------------
// Padding, pooling, copying, stacking
// ---------------------------------------------------------------------------

/// Padding mirrors every plane and makes both extents larger on both sides.
pub proof fn padding_computes(p: Work, src: DActs, pad: usize)
    requires
        padded(p, src, pad).0.going(),
        padded(p, src, pad).0.cmds.len() <= usize::MAX,
        older(src.buf.addr, p.cmds.len()),
    ensures
        ({
            let (q, out) = padded(p, src, pad);
            makes(
                p,
                q,
                out,
                Acts {
                    v: Val::Mirrored {
                        x: Box::new(value(p, src.buf.addr)),
                        c: int32(src.c as int),
                        h: int32(src.h as int),
                        w: int32(src.w as int),
                        pad: int32(pad as int),
                    },
                    c: src.c,
                    h: (src.h + 2 * pad) as usize,
                    w: (src.w + 2 * pad) as usize,
                    len: (src.c * (src.h + 2 * pad) * (src.w + 2 * pad)) as usize,
                },
            )
        }),
{
    reveal(padded);
}

/// Pooling averages every plane and halves both extents.
pub proof fn pooling_computes(p: Work, src: DActs)
    requires
        pooled(p, src).0.going(),
        pooled(p, src).0.cmds.len() <= usize::MAX,
        older(src.buf.addr, p.cmds.len()),
    ensures
        ({
            let (q, out) = pooled(p, src);
            makes(
                p,
                q,
                out,
                Acts {
                    v: Val::Averaged {
                        x: Box::new(value(p, src.buf.addr)),
                        c: int32(src.c as int),
                        h: int32(src.h as int),
                        w: int32(src.w as int),
                    },
                    c: src.c,
                    h: src.h / 2,
                    w: src.w / 2,
                    len: (src.c * (src.h / 2) * (src.w / 2)) as usize,
                },
            )
        }),
{
    reveal(pooled);
}

/// Copying copies all floats and keeps the extents.
pub proof fn copying_computes(p: Work, src: DActs)
    requires
        copied(p, src).0.going(),
        copied(p, src).0.cmds.len() <= usize::MAX,
        older(src.buf.addr, p.cmds.len()),
    ensures
        ({
            let (q, out) = copied(p, src);
            makes(
                p,
                q,
                out,
                Acts {
                    v: Val::First {
                        x: Box::new(value(p, src.buf.addr)),
                        n: int64(src.buf.len as int),
                    },
                    ..seen(p, src)
                },
            )
        }),
{
    reveal(copied);
}

/// Stacking lays all of the second block right behind all of the first, and adds up
/// their channels. Without floats in the first, the second takes its place.
pub proof fn stacking_computes(p: Work, a: DActs, g: DActs)
    requires
        concatenated(p, a, g).0.going(),
        concatenated(p, a, g).0.cmds.len() <= usize::MAX,
        older(a.buf.addr, p.cmds.len()),
        older(g.buf.addr, p.cmds.len()),
    ensures
        ({
            let (q, out) = concatenated(p, a, g);
            let first = Val::First {
                x: Box::new(value(p, a.buf.addr)),
                n: int64(a.buf.len as int),
            };
            let second = Val::First {
                x: Box::new(value(p, g.buf.addr)),
                n: int64(g.buf.len as int),
            };
            makes(
                p,
                q,
                out,
                Acts {
                    v: if a.buf.len == 0 {
                        second
                    } else {
                        Val::Followed {
                            first: Box::new(first),
                            offset: (4 * a.buf.len) as usize,
                            by: Box::new(second),
                        }
                    },
                    c: (a.c + g.c) as usize,
                    h: a.h,
                    w: a.w,
                    len: (a.buf.len + g.buf.len) as usize,
                },
            )
        }),
{
    reveal(concatenated);
}

// ---------------------------------------------------------------------------
// The spectral branch
// ---------------------------------------------------------------------------

/// The weights of a spectral branch are older than what the commands from `n` on
/// allocate.
pub open spec fn spectral_older(sp: DSpectral, n: nat) -> bool {
    &&& conv_older(sp.conv1, n)
    &&& bn_older(sp.bn1, n)
    &&& conv_older(sp.fu_conv, n)
    &&& bn_older(sp.fu_bn, n)
    &&& conv_older(sp.conv2, n)
}

/// The scale and the shift of a normalisation are older than what the commands from
/// `n` on allocate.
pub open spec fn bn_older(bn: DBn, n: nat) -> bool {
    older(bn.scale.addr, n) && older(bn.shift.addr, n)
}

/// Normalised activations.
pub open spec fn normed_acts(p: Work, x: Acts, bn: DBn) -> Acts {
    Acts { v: normed(p, x.v, bn, x.h * x.w), ..x }
}

/// The sum of two blocks, with the extents of the first.
pub open spec fn sum_acts(a: Acts, b: Acts) -> Acts {
    Acts {
        v: Val::Sum { a: Box::new(a.v), b: Box::new(b.v), n: int64(a.len as int) },
        ..a
    }
}

/// The half spectrum of `half` planes: the forward transform, and on the device the
/// real parts stacked before the imaginary ones with the ortho scale.
pub open spec fn spectrum_acts(x: Acts, half: usize, host: bool) -> Acts {
    let key = PlanKey { h: x.h, w: x.w, batch: half, inverse: false };
    let hw = x.w / 2 + 1;
    Acts {
        v: if host {
            Val::HostTransformed { x: Box::new(x.v), key }
        } else {
            Val::Stacked {
                x: Box::new(Val::Transformed { x: Box::new(x.v), key }),
                half: int32(half as int),
                plane: int32(x.h * hw),
                area: x.h * x.w,
            }
        },
        c: (2 * half) as usize,
        h: x.h,
        w: hw as usize,
        len: (2 * half * x.h * hw) as usize,
    }
}

/// Back from the half spectrum `fu` to `half` planes of the extents of `like`.
pub open spec fn inverse_acts(like: Acts, fu: Acts, half: usize, host: bool) -> Acts {
    let key = PlanKey { h: like.h, w: like.w, batch: half, inverse: true };
    let hw = like.w / 2 + 1;
    Acts {
        v: if host {
            Val::HostTransformed { x: Box::new(fu.v), key }
        } else {
            Val::Divided {
                x: Box::new(
                    Val::Transformed {
                        x: Box::new(
                            Val::Paired {
                                x: Box::new(fu.v),
                                half: int32(half as int),
                                plane: int32(like.h * hw),
                            },
                        ),
                        key,
                    },
                ),
                n: int64(half * like.h * like.w),
                area: like.h * like.w,
            }
        },
        c: half,
        h: like.h,
        w: like.w,
        len: (half * like.h * like.w) as usize,
    }
}

/// What goes into the spectral branch: the averages where its stride is 2, and a copy
/// otherwise.
pub open spec fn pooled_acts(x: Acts, stride: usize) -> Acts {
    if stride == 2 {
        Acts {
            v: Val::Averaged {
                x: Box::new(x.v),
                c: int32(x.c as int),
                h: int32(x.h as int),
                w: int32(x.w as int),
            },
            c: x.c,
            h: x.h / 2,
            w: x.w / 2,
            len: (x.c * (x.h / 2) * (x.w / 2)) as usize,
        }
    } else {
        Acts { v: Val::First { x: Box::new(x.v), n: int64(x.len as int) }, ..x }
    }
}

/// The spectral branch: with `feat = relu(bn1(conv1(pooled)))` and
/// `fu = relu(bn(conv(transform(feat))))` it is `conv2(back(fu) + feat)`.
pub open spec fn spectral_acts(p: Work, sp: DSpectral, g: Acts, host: bool) -> Acts {
    let feat = normed_acts(
        p,
        convolved(p, pooled_acts(g, sp.stride), sp.conv1, 0, 1, false),
        sp.bn1,
    );
    let fu = normed_acts(
        p,
        convolved(p, spectrum_acts(feat, sp.half, host), sp.fu_conv, 0, 1, false),
        sp.fu_bn,
    );
    convolved(p, sum_acts(inverse_acts(feat, fu, sp.half, host), feat), sp.conv2, 0, 1, false)
}

/// The transform of a block: on the device or on the host, the half spectrum of that
/// block.
pub proof fn spectrum_computes(p: Work, feat: DActs, half: usize)
    requires
        spectrum(p, feat, half).0.going(),
        spectrum(p, feat, half).0.cmds.len() <= usize::MAX,
        older(feat.buf.addr, p.cmds.len()),
        feat.h * feat.w <= usize::MAX,
    ensures
        ({
            let (q, out) = spectrum(p, feat, half);
            makes(p, q, out, spectrum_acts(seen(p, feat), half, p.flags.fft_host))
        }),
{
    reveal(spectrum);
    assert(0 <= feat.h * feat.w) by (nonlinear_arith);
}

/// The transform back.
pub proof fn inverse_computes(p: Work, feat: DActs, fu: DActs, half: usize)
    requires
        inverted(p, feat, fu, half).0.going(),
        inverted(p, feat, fu, half).0.cmds.len() <= usize::MAX,
        older(feat.buf.addr, p.cmds.len()),
        older(fu.buf.addr, p.cmds.len()),
        feat.h * feat.w <= usize::MAX,
        half * feat.h * feat.w <= usize::MAX,
    ensures
        ({
            let (q, out) = inverted(p, feat, fu, half);
            makes(
                p,
                q,
                out,
                inverse_acts(seen(p, feat), seen(p, fu), half, p.flags.fft_host),
            )
        }),
{
    reveal(inverted);
    assert(0 <= feat.h * feat.w) by (nonlinear_arith);
    assert(0 <= half * feat.h * feat.w) by (nonlinear_arith);
}

/// Work in which the weights keep what they hold convolves alike.
pub(crate) proof fn lemma_same_weights(
    n: nat,
    p: Work,
    q: Work,
    x: Acts,
    cv: DConv,
    pad: usize,
    stride: usize,
    reflect: bool,
)
    requires
        untouched(n, p, q),
        conv_older(cv, n),
    ensures
        convolved(p, x, cv, pad, stride, reflect) == convolved(q, x, cv, pad, stride, reflect),
{
    lemma_same_value(n, p, q, cv.w.addr);
    if cv.bias is Some {
        lemma_same_value(n, p, q, (cv.bias->0).addr);
    }
    if cv.w_t is Some {
        lemma_same_value(n, p, q, (cv.w_t->0).addr);
    }
}

pub(crate) proof fn lemma_same_value(n: nat, p: Work, q: Work, a: Addr)
    requires
        untouched(n, p, q),
        older(a, n),
    ensures
        value(p, a) == value(q, a),
{
    if let Base::Heap(id) = a.base {
        assert(holds(q, id) == holds(p, id));
    }
}

/// What is untouched twice is untouched.
pub(crate) proof fn lemma_on(n: nat, m: nat, p: Work, q: Work, r: Work)
    requires
        untouched(n, p, q),
        untouched(m, q, r),
        n <= m,
    ensures
        untouched(n, p, r),
{
    assert forall|id: usize| id < n implies #[trigger] holds(r, id) == holds(p, id) by {
        assert(holds(q, id) == holds(p, id));
    }
}

/// Changing a newer block touches no older one.
pub(crate) proof fn lemma_turned(n: nat, p: Work, q: Work, r: Work, d: Dev, v: Val)
    requires
        untouched(n, p, q),
        turns(q, r, d, v),
        d.addr.base matches Base::Heap(id) ==> n <= id,
    ensures
        untouched(n, p, r),
{
    assert forall|id: usize| id < n implies #[trigger] holds(r, id) == holds(p, id) by {
        assert(holds(q, id) == holds(p, id));
    }
}

/// A block other than the one that is changed stays.
pub(crate) proof fn lemma_beside(p: Work, q: Work, d: Dev, v: Val, a: DActs)
    requires
        turns(p, q, d, v),
        a.buf.addr.base != d.addr.base,
    ensures
        seen(q, a) == seen(p, a),
{
    if let Base::Heap(id) = a.buf.addr.base {
        assert(holds(q, id) == holds(p, id));
    }
}

/// Giving up a block touches no other.
pub(crate) proof fn lemma_freed(p: Work, d: Dev)
    ensures
        forall|id: usize|
            d.addr.base != Base::Heap(id) ==> #[trigger] holds(p.free(d), id) == holds(p, id),
        after_all(p.free(d)).results == after_all(p).results,
        p.free(d).going() == p.going(),
        p.cmds.len() <= p.free(d).cmds.len(),
{
}

/// Giving up a newer block touches no older one, and no other one that is in use.
pub(crate) proof fn lemma_given_up(n: nat, p: Work, q: Work, d: Dev, out: DActs)
    requires
        untouched(n, p, q),
        d.addr.base matches Base::Heap(id) ==> n <= id,
        out.buf.addr.base != d.addr.base,
    ensures
        untouched(n, p, q.free(d)),
        seen(q.free(d), out) == seen(q, out),
        q.free(d).going() == q.going(),
        q.cmds.len() <= q.free(d).cmds.len(),
{
    lemma_freed(q, d);
    assert forall|id: usize| id < n implies #[trigger] holds(q.free(d), id) == holds(p, id) by {
        assert(holds(q, id) == holds(p, id));
    }
    if let Base::Heap(id) = out.buf.addr.base {
        assert(holds(q.free(d), id) == holds(q, id));
    }
}

/// Older blocks are seen as they were.
pub(crate) proof fn lemma_still(n: nat, p: Work, q: Work, a: DActs)
    requires
        untouched(n, p, q),
        older(a.buf.addr, n),
    ensures
        seen(q, a) == seen(p, a),
{
    lemma_same_value(n, p, q, a.buf.addr);
}

/// A command without effect.
pub(crate) proof fn lemma_quiet(p: Work, on: bool, cmd: Cmd)
    requires
        forall|m: Memory| #[trigger] performed(m, cmd) == m,
    ensures
        after_all(p.push_if(on, cmd)) == after_all(p),
        untouched(p.cmds.len(), p, p.push_if(on, cmd)),
        forall|a: DActs| #[trigger] seen(p.push_if(on, cmd), a) == seen(p, a),
        p.push_if(on, cmd).going() == p.going(),
        p.push_if(on, cmd).flags == p.flags,
        p.cmds.len() <= p.push_if(on, cmd).cmds.len(),
{
}

/// The spectral branch computes its formula of what it is given.
#[verifier::rlimit(40)]
pub proof fn spectral_computes(p: Work, sp: DSpectral, g: DActs)
    requires
        spectral(p, sp, g).0.going(),
        spectral(p, sp, g).0.cmds.len() <= usize::MAX,
        older(g.buf.addr, p.cmds.len()),
        spectral_older(sp, p.cmds.len()),
    ensures
        ({
            let (q, out) = spectral(p, sp, g);
            makes(p, q, out, spectral_acts(p, sp, seen(p, g), p.flags.fft_host))
        }),
{
    reveal(spectral);
    let n = p.cmds.len();
    let host = p.flags.fft_host;
    let (p1, pool) = if sp.stride == 2 {
        pooled(p, g)
    } else {
        copied(p, g)
    };
    lemma_small_grow(p, g, g, 0, sp.bn1);
    let (p2, feat) = conv(p1, sp.conv1, pool, 0, 1, false);
    lemma_conv_grows(p1, sp.conv1, pool, 0, 1, false);
    lemma_small_grow(p2, feat, feat, 0, sp.bn1);
    let p3 = bn_relu(p2, feat, sp.bn1);
    let b = p3.push(Cmd::FftBegin);
    let (p4, spec) = spectrum(b, feat, sp.half);
    lemma_spectrum_grows(b, feat, sp.half);
    let (p5, fu) = conv(p4, sp.fu_conv, spec, 0, 1, false);
    lemma_conv_grows(p4, sp.fu_conv, spec, 0, 1, false);
    let p6 = bn_relu(p5, fu, sp.fu_bn);
    lemma_small_grow(p5, fu, fu, 0, sp.fu_bn);
    let (p7, inv) = inverted(p6, feat, fu, sp.half);
    lemma_inverted_grows(p6, feat, fu, sp.half);
    let e = p7.push(Cmd::FftEnd);
    let p8 = sum(e, inv, feat);
    lemma_small_grow(e, inv, feat, 0, sp.bn1);
    let (p9, out) = conv(p8, sp.conv2, inv, 0, 1, false);
    lemma_conv_grows(p8, sp.conv2, inv, 0, 1, false);
    let f1 = p9.free(inv.buf);
    let f2 = f1.free(fu.buf);
    let f3 = f2.free(spec.buf);
    let f4 = f3.free(feat.buf);
    let q = f4.free(pool.buf);
    assert(spectral(p, sp, g) == (q, out));

    let x0 = seen(p, g);
    let x1 = pooled_acts(x0, sp.stride);
    if sp.stride == 2 {
        pooling_computes(p, g);
    } else {
        copying_computes(p, g);
    }
    assert(makes(p, p1, pool, x1));
    convolution_computes(p1, sp.conv1, pool, 0, 1, false);
    lemma_same_weights(n, p, p1, x1, sp.conv1, 0, 1, false);
    let x2 = convolved(p, x1, sp.conv1, 0, 1, false);
    assert(makes(p1, p2, feat, x2));
    lemma_on(n, p1.cmds.len(), p, p1, p2);
    normalisation_computes(p2, feat, sp.bn1);
    lemma_same_value(n, p, p2, sp.bn1.scale.addr);
    lemma_same_value(n, p, p2, sp.bn1.shift.addr);
    let x3 = normed_acts(p, x2, sp.bn1);
    assert(seen(p3, feat) == x3);
    lemma_turned(n, p, p2, p3, feat.buf, x3.v);
    lemma_quiet(p3, true, Cmd::FftBegin);
    lemma_on(n, p3.cmds.len(), p, p3, b);
    spectrum_computes(b, feat, sp.half);
    let x4 = spectrum_acts(x3, sp.half, host);
    assert(makes(b, p4, spec, x4));
    lemma_on(n, b.cmds.len(), p, b, p4);
    lemma_still(b.cmds.len(), b, p4, feat);
    convolution_computes(p4, sp.fu_conv, spec, 0, 1, false);
    lemma_same_weights(n, p, p4, x4, sp.fu_conv, 0, 1, false);
    let x5 = convolved(p, x4, sp.fu_conv, 0, 1, false);
    assert(makes(p4, p5, fu, x5));
    lemma_on(n, p4.cmds.len(), p, p4, p5);
    lemma_still(p4.cmds.len(), p4, p5, feat);
    normalisation_computes(p5, fu, sp.fu_bn);
    lemma_same_value(n, p, p5, sp.fu_bn.scale.addr);
    lemma_same_value(n, p, p5, sp.fu_bn.shift.addr);
    let x6 = normed_acts(p, x5, sp.fu_bn);
    assert(seen(p6, fu) == x6);
    lemma_turned(n, p, p5, p6, fu.buf, x6.v);
    lemma_beside(p5, p6, fu.buf, x6.v, feat);
    inverse_computes(p6, feat, fu, sp.half);
    let x7 = inverse_acts(x3, x6, sp.half, host);
    assert(makes(p6, p7, inv, x7));
    lemma_on(n, p6.cmds.len(), p, p6, p7);
    lemma_still(p6.cmds.len(), p6, p7, feat);
    lemma_quiet(p7, true, Cmd::FftEnd);
    lemma_on(n, p7.cmds.len(), p, p7, e);
    sum_computes(e, inv, feat);
    let x8 = sum_acts(x7, x3);
    assert(seen(p8, inv) == x8);
    lemma_turned(n, p, e, p8, inv.buf, x8.v);
    convolution_computes(p8, sp.conv2, inv, 0, 1, false);
    lemma_same_weights(n, p, p8, x8, sp.conv2, 0, 1, false);
    let x9 = convolved(p, x8, sp.conv2, 0, 1, false);
    assert(makes(p8, p9, out, x9));
    lemma_on(n, p8.cmds.len(), p, p8, p9);
    lemma_given_up(n, p, p9, inv.buf, out);
    lemma_given_up(n, p, f1, fu.buf, out);
    lemma_given_up(n, p, f2, spec.buf, out);
    lemma_given_up(n, p, f3, feat.buf, out);
    lemma_given_up(n, p, f4, pool.buf, out);
}

// ---------------------------------------------------------------------------
// Transposed convolutions
// ---------------------------------------------------------------------------

/// A new block touches no other.
pub(crate) proof fn lemma_block(p: Work, len: int)
    requires
        p.allocate(len).going(),
        p.allocate(len).cmds.len() <= usize::MAX,
    ensures
        untouched(p.cmds.len(), p, p.allocate(len)),
        value(p.allocate(len), p.fresh(len as usize).addr) == Val::Raw,
        starts(p.fresh(len as usize), p.cmds.len(), p.allocate(len).cmds.len()),
        p.going(),
        p.allocate(len).cmds.len() == p.cmds.len() + 1,
{
}

/// A kernel changes the block that it writes to, and no other.
pub(crate) proof fn lemma_launched(p: Work, call: Call, n: int)
    requires
        p.launch(call, n).going(),
        call_writes(call).base is Heap,
        call_writes(call).offset == 0,
    ensures
        ({
            let d = Dev { addr: call_writes(call), len: 0, owned: false };
            turns(p, p.launch(call, n), d, outcome(after_all(p), call))
        }),
        p.going(),
        p.launch(call, n).cmds.len() == p.cmds.len() + 1,
{
}

/// A matrix product changes the block that it writes to, and no other.
pub(crate) proof fn lemma_multiplied(p: Work, cmd: Cmd, c: Dev)
    requires
        p.push(cmd).going(),
        cmd matches Cmd::Gemm { m, k, lda, ldb, ldc, c: to, .. } && lda == m && ldb == k && ldc == m
            && to == c.addr,
        at_start(c),
    ensures
        turns(
            p,
            p.push(cmd),
            c,
            Val::Product {
                a: Box::new(value(p, cmd->a)),
                b: Box::new(value(p, cmd->b)),
                m: cmd->m as int,
                n: cmd->Gemm_n as int,
                k: cmd->k as int,
            },
        ),
        p.going(),
        p.push(cmd).cmds.len() == p.cmds.len() + 1,
{
}

/// The weights of a transposed convolution are older than what the commands from `n`
/// on allocate.
pub open spec fn convt_older(cv: DConvT, n: nat) -> bool {
    &&& older(cv.w.addr, n)
    &&& older(cv.bias.addr, n)
    &&& (cv.phases matches Some(w) ==> older(w.p00.addr, n) && older(w.p01.addr, n) && older(
        w.p10.addr,
        n,
    ) && older(w.p11.addr, n))
}

/// Upsampling with the gather kernel: one transposed convolution of a 3x3 kernel with
/// stride 2 and padding 1, to twice the extents.
pub proof fn gathering_computes(p: Work, cv: DConvT, src: DActs)
    requires
        up_gather(p, cv, src).0.going(),
        up_gather(p, cv, src).0.cmds.len() <= usize::MAX,
        older(src.buf.addr, p.cmds.len()),
        convt_older(cv, p.cmds.len()),
    ensures
        ({
            let (q, out) = up_gather(p, cv, src);
            makes(p, q, out, gathered_acts(p, seen(p, src), cv))
        }),
{
}

/// A transposed convolution with the gather kernel.
pub open spec fn gathered_acts(p: Work, x: Acts, cv: DConvT) -> Acts {
    Acts {
        v: Val::Upsampled {
            x: Box::new(x.v),
            weight: Box::new(value(p, cv.w.addr)),
            bias: Box::new(value(p, cv.bias.addr)),
            cin: int32(cv.cin as int),
            cout: int32(cv.cout as int),
            h: int32(x.h as int),
            w: int32(x.w as int),
            oh: int32(2 * x.h),
            ow: int32(2 * x.w),
            kh: 3,
            kw: 3,
            stride: 2,
            pad: 1,
        },
        c: cv.cout,
        h: (2 * x.h) as usize,
        w: (2 * x.w) as usize,
        len: (cv.cout * (2 * x.h) * (2 * x.w)) as usize,
    }
}

} // verus!
