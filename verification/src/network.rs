//! What evaluations, steps and whole programs compute.

use vstd::prelude::*;

use crate::cuda::{DActs, StopView, Work};
use crate::dataflow::{
    at_start, bn_older, conv_older, convolution_computes, convolved, int32, int64, lemma_given_up,
    lemma_on, lemma_same_value, lemma_same_weights, lemma_still, lemma_turned, normed,
    residual_add_computes, spectral_acts, spectral_computes, spectral_older, sum_acts, sum_computes,
};
use crate::meaning::{makes, older, seen, starts, untouched, value, Acts, Val};
use crate::ops::{
    conv, conv_or_empty, ffc, global_branch, global_half, local_branch, local_half, merged,
    normalised, spectral, sum, DBn, DConv, DFfc, DSpectral,
};
use crate::safety::{
    grows, lemma_conv_grows, lemma_global_grows, lemma_local_grows, lemma_parts_grow,
    lemma_small_grow, lemma_spectral_grows,
};

verus! {

broadcast use {crate::cuda::group_work, crate::meaning::group_meaning};

// ---------------------------------------------------------------------------
// Evaluations
// ---------------------------------------------------------------------------

/// The weights of an evaluation are older than what the commands from `n` on
/// allocate.
pub open spec fn ffc_older(w: DFfc, n: nat) -> bool {
    &&& (w.l2l matches Some(cv) ==> conv_older(cv, n))
    &&& (w.l2g matches Some(cv) ==> conv_older(cv, n))
    &&& (w.g2l matches Some(cv) ==> conv_older(cv, n))
    &&& (w.bn_l matches Some(bn) ==> bn_older(bn, n))
    &&& (w.bn_g matches Some(bn) ==> bn_older(bn, n))
    &&& (w.spectral matches Some(sp) ==> spectral_older(sp, n))
}

/// A block that may be absent is older than what the commands from `n` on allocate,
/// and starts at its beginning.
pub open spec fn maybe_older(a: Option<DActs>, n: nat) -> bool {
    a matches Some(a) ==> older(a.buf.addr, n) && at_start(a.buf)
}

/// Activations that may be absent, as the recorded work leaves them.
pub open spec fn seen_if(p: Work, a: Option<DActs>) -> Option<Acts> {
    match a {
        Some(a) => Some(seen(p, a)),
        None => None,
    }
}

/// The first planes.
pub open spec fn first_planes(x: Acts, channels: usize) -> Acts {
    Acts { c: channels, len: (channels * (x.h * x.w)) as usize, ..x }
}

/// The last planes.
pub open spec fn last_planes(x: Acts, channels: usize) -> Acts {
    let offset = 4 * ((x.c - channels) * (x.h * x.w));
    Acts {
        v: if offset == 0 {
            x.v
        } else {
            Val::Later { of: Box::new(x.v), offset: offset as usize }
        },
        ..first_planes(x, channels)
    }
}

/// What a convolution contributes: nothing, of the extents of `like`, where there is
/// none.
pub open spec fn contribution(p: Work, w: DFfc, cv: Option<DConv>, x: Acts, like: Acts) -> Acts {
    match cv {
        Some(cv) => convolved(p, x, cv, w.pad, w.stride, w.reflect),
        None => Acts { v: Val::Raw, c: 0, h: like.h, w: like.w, len: 0 },
    }
}

/// Two contributions to one output.
pub open spec fn both(a: Acts, b: Acts) -> Acts {
    if a.c == 0 {
        b
    } else {
        sum_acts(a, b)
    }
}

/// What closes an output: the normalisation, if there is one, and then the sum with
/// what is to be added, if there is anything.
pub open spec fn closed(p: Work, x: Acts, bn: Option<DBn>, skip: Option<Acts>) -> Acts {
    match bn {
        Some(bn) => {
            let v = normed(p, x.v, bn, x.h * x.w);
            Acts {
                v: match skip {
                    Some(s) => Val::Sum {
                        a: Box::new(v),
                        b: Box::new(s.v),
                        n: int32(bn.channels as int) * int64(x.h * x.w),
                    },
                    None => v,
                },
                ..x
            }
        },
        None => x,
    }
}

/// The local output: the local convolution of the local planes, and that of the
/// global block where there is one.
pub open spec fn local_acts(
    p: Work,
    w: DFfc,
    inp: Acts,
    local: Acts,
    glob: Option<Acts>,
    skip: Option<Acts>,
) -> Acts {
    let a = contribution(p, w, w.l2l, local, inp);
    let a = match w.g2l {
        Some(cv) => both(a, convolved(p, glob->0, cv, w.pad, w.stride, w.reflect)),
        None => a,
    };
    closed(p, a, w.bn_l, skip)
}

/// The global output: the convolution of the local planes, and the spectral branch
/// over the last planes of the global block where there is one.
pub open spec fn global_acts(
    p: Work,
    w: DFfc,
    inp: Acts,
    local: Acts,
    glob: Option<Acts>,
    skip: Option<Acts>,
    host: bool,
) -> Acts {
    let a = contribution(p, w, w.l2g, local, inp);
    let a = match w.spectral {
        Some(sp) => both(a, spectral_acts(p, sp, last_planes(glob->0, w.in_global), host)),
        None => a,
    };
    closed(p, a, w.bn_g, skip)
}

/// The planes that the local convolutions read.
pub open spec fn local_planes(w: DFfc, inp: Acts) -> Acts {
    if w.in_global == 0 {
        inp
    } else {
        first_planes(inp, w.in_local)
    }
}

proof fn lemma_first(p: Work, w: DFfc, cv: Option<DConv>, local: DActs, inp: DActs)
    requires
        conv_or_empty(p, w, cv, local, inp).0.going(),
        conv_or_empty(p, w, cv, local, inp).0.cmds.len() <= usize::MAX,
        older(local.buf.addr, p.cmds.len()),
        cv matches Some(cv) ==> conv_older(cv, p.cmds.len()),
    ensures
        ({
            let (q, out) = conv_or_empty(p, w, cv, local, inp);
            makes(p, q, out, contribution(p, w, cv, seen(p, local), seen(p, inp)))
        }),
{
    if let Some(cv) = cv {
        convolution_computes(p, cv, local, w.pad, w.stride, w.reflect);
    }
}

/// Adding a second contribution, newer than the first.
proof fn lemma_merged(n: nat, p: Work, q: Work, acc: DActs, o: DActs)
    requires
        merged(q, acc, o).0.going(),
        merged(q, acc, o).0.cmds.len() <= usize::MAX,
        untouched(n, p, q),
        n <= p.cmds.len() <= q.cmds.len(),
        starts(acc.buf, n, q.cmds.len()),
        starts(o.buf, n, q.cmds.len()),
        acc.buf.addr.base != o.buf.addr.base,
    ensures
        ({
            let (r, out) = merged(q, acc, o);
            &&& starts(out.buf, n, r.cmds.len())
            &&& seen(r, out) == both(seen(q, acc), seen(q, o))
            &&& untouched(n, p, r)
        }),
{
    if acc.c == 0 {
        lemma_given_up(n, p, q, acc.buf, o);
    } else {
        let m = sum(q, acc, o);
        lemma_small_grow(q, acc, o, 0, DBn { scale: acc.buf, shift: acc.buf, channels: 0 });
        sum_computes(q, acc, o);
        lemma_turned(n, p, q, m, acc.buf, value(m, acc.buf.addr));
        lemma_given_up(n, p, m, o.buf, acc);
    }
}

/// Closing an output.
proof fn lemma_closed(n: nat, p: Work, q: Work, x: DActs, bn: Option<DBn>, skip: Option<DActs>)
    requires
        normalised(q, x, bn, skip).going(),
        untouched(n, p, q),
        starts(x.buf, n, q.cmds.len()),
        bn matches Some(bn) ==> bn_older(bn, n),
        maybe_older(skip, n),
    ensures
        ({
            let r = normalised(q, x, bn, skip);
            &&& seen(r, x) == closed(p, seen(q, x), bn, seen_if(p, skip))
            &&& untouched(n, p, r)
            &&& q.cmds.len() <= r.cmds.len()
        }),
{
    let r = normalised(q, x, bn, skip);
    if let Some(bn) = bn {
        lemma_parts_grow_bn(q, x, bn, skip);
        residual_add_computes(q, x, bn, skip);
        lemma_same_value(n, p, q, bn.scale.addr);
        lemma_same_value(n, p, q, bn.shift.addr);
        if let Some(s) = skip {
            lemma_same_value(n, p, q, s.buf.addr);
        }
        lemma_turned(n, p, q, r, x.buf, value(r, x.buf.addr));
    }
}

proof fn lemma_parts_grow_bn(p: Work, x: DActs, bn: DBn, skip: Option<DActs>)
    ensures
        grows(p, normalised(p, x, Some(bn), skip)),
{
    reveal(crate::ops::bn_relu_add);
}

proof fn lemma_local(
    p: Work,
    w: DFfc,
    inp: DActs,
    local: DActs,
    glob: Option<DActs>,
    skip: Option<DActs>,
)
    requires
        local_branch(p, w, inp, local, glob, skip).0.going(),
        local_branch(p, w, inp, local, glob, skip).0.cmds.len() <= usize::MAX,
        older(local.buf.addr, p.cmds.len()),
        maybe_older(glob, p.cmds.len()),
        maybe_older(skip, p.cmds.len()),
        ffc_older(w, p.cmds.len()),
    ensures
        ({
            let (q, out) = local_branch(p, w, inp, local, glob, skip);
            makes(
                p,
                q,
                out,
                local_acts(
                    p,
                    w,
                    seen(p, inp),
                    seen(p, local),
                    seen_if(p, glob),
                    seen_if(p, skip),
                ),
            )
        }),
{
    let n = p.cmds.len();
    let (p1, acc) = conv_or_empty(p, w, w.l2l, local, inp);
    lemma_parts_grow(p, w, w.l2l, local, inp, w.bn_l, skip);
    match w.g2l {
        Some(cv) => {
            match glob {
                Some(g) => {
                    let (q, o) = conv(p1, cv, g, w.pad, w.stride, w.reflect);
                    lemma_conv_grows(p1, cv, g, w.pad, w.stride, w.reflect);
                    let (p2, r) = merged(q, acc, o);
                    lemma_parts_grow(q, w, None, acc, o, w.bn_l, skip);
                    lemma_parts_grow(p2, w, None, r, r, w.bn_l, skip);
                    lemma_first(p, w, w.l2l, local, inp);
                    convolution_computes(p1, cv, g, w.pad, w.stride, w.reflect);
                    lemma_still(n, p, p1, g);
                    lemma_same_weights(
                        n,
                        p,
                        p1,
                        seen(p, g),
                        cv,
                        w.pad,
                        w.stride,
                        w.reflect,
                    );
                    lemma_on(n, p1.cmds.len(), p, p1, q);
                    lemma_still(p1.cmds.len(), p1, q, acc);
                    lemma_merged(n, p, q, acc, o);
                    lemma_closed(n, p, p2, r, w.bn_l, skip);
                },
                None => {
                    let p2 = p1.halt(StopView::Fault("convg2l present without a global branch"@));
                    lemma_parts_grow(p2, w, None, acc, acc, w.bn_l, skip);
                },
            }
        },
        None => {
            lemma_parts_grow(p1, w, None, acc, acc, w.bn_l, skip);
            lemma_first(p, w, w.l2l, local, inp);
            lemma_closed(n, p, p1, acc, w.bn_l, skip);
        },
    }
}

proof fn lemma_global(
    p: Work,
    w: DFfc,
    inp: DActs,
    local: DActs,
    glob: Option<DActs>,
    skip: Option<DActs>,
)
    requires
        global_branch(p, w, inp, local, glob, skip).0.going(),
        global_branch(p, w, inp, local, glob, skip).0.cmds.len() <= usize::MAX,
        older(local.buf.addr, p.cmds.len()),
        maybe_older(glob, p.cmds.len()),
        maybe_older(skip, p.cmds.len()),
        ffc_older(w, p.cmds.len()),
    ensures
        ({
            let (q, out) = global_branch(p, w, inp, local, glob, skip);
            makes(
                p,
                q,
                out,
                global_acts(
                    p,
                    w,
                    seen(p, inp),
                    seen(p, local),
                    seen_if(p, glob),
                    seen_if(p, skip),
                    p.flags.fft_host,
                ),
            )
        }),
{
    let n = p.cmds.len();
    let (p1, acc) = conv_or_empty(p, w, w.l2g, local, inp);
    lemma_parts_grow(p, w, w.l2g, local, inp, w.bn_g, skip);
    match w.spectral {
        Some(sp) => {
            match glob {
                Some(g) => {
                    let (h, half) = global_half(p1, w, g);
                    let (q, o) = spectral(h, sp, half);
                    lemma_spectral_grows(h, sp, half);
                    let (p2, r) = merged(q, acc, o);
                    lemma_parts_grow(q, w, None, acc, o, w.bn_g, skip);
                    lemma_parts_grow(p2, w, None, r, r, w.bn_g, skip);
                    assert(h.going() && h == p1);
                    lemma_first(p, w, w.l2g, local, inp);
                    lemma_still(n, p, p1, g);
                    lemma_last_planes(p1, g, w.in_global);
                    spectral_computes(p1, sp, half);
                    lemma_same_spectral(n, p, p1, sp, seen(p1, half));
                    lemma_on(n, p1.cmds.len(), p, p1, q);
                    lemma_still(p1.cmds.len(), p1, q, acc);
                    lemma_merged(n, p, q, acc, o);
                    lemma_closed(n, p, p2, r, w.bn_g, skip);
                },
                None => {
                    let p2 = p1.halt(StopView::Fault("convg2g present without a global branch"@));
                    lemma_parts_grow(p2, w, None, acc, acc, w.bn_g, skip);
                },
            }
        },
        None => {
            lemma_parts_grow(p1, w, None, acc, acc, w.bn_g, skip);
            lemma_first(p, w, w.l2g, local, inp);
            lemma_closed(n, p, p1, acc, w.bn_g, skip);
        },
    }
}

/// Windows show the planes that they are made for.
proof fn lemma_last_planes(p: Work, g: DActs, channels: usize)
    requires
        at_start(g.buf),
        channels <= g.c,
        g.view_fits(g.c - channels, channels as int),
    ensures
        seen(p, g.window(g.c - channels, channels)) == last_planes(seen(p, g), channels),
{
    let first = g.c - channels;
    let plane = g.plane_len();
    assert(first * plane * 4 == 4 * (first * (g.h * g.w))) by (nonlinear_arith)
        requires
            plane == g.h * g.w,
    ;
    assert(0 <= first * plane) by (nonlinear_arith)
        requires
            plane == g.h * g.w,
            0 <= first,
    ;
}

proof fn lemma_same_spectral(n: nat, p: Work, q: Work, sp: DSpectral, x: Acts)
    requires
        untouched(n, p, q),
        spectral_older(sp, n),
    ensures
        forall|host: bool| spectral_acts(p, sp, x, host) == #[trigger] spectral_acts(q, sp, x, host),
{
    assert forall|host: bool| spectral_acts(p, sp, x, host) == #[trigger] spectral_acts(
        q,
        sp,
        x,
        host,
    ) by {
        lemma_same_value(n, p, q, sp.bn1.scale.addr);
        lemma_same_value(n, p, q, sp.bn1.shift.addr);
        lemma_same_value(n, p, q, sp.fu_bn.scale.addr);
        lemma_same_value(n, p, q, sp.fu_bn.shift.addr);
        let pool = crate::dataflow::pooled_acts(x, sp.stride);
        lemma_same_weights(n, p, q, pool, sp.conv1, 0, 1, false);
        let feat = crate::dataflow::normed_acts(
            p,
            convolved(p, pool, sp.conv1, 0, 1, false),
            sp.bn1,
        );
        let spec = crate::dataflow::spectrum_acts(feat, sp.half, host);
        lemma_same_weights(n, p, q, spec, sp.fu_conv, 0, 1, false);
        let fu = crate::dataflow::normed_acts(
            p,
            convolved(p, spec, sp.fu_conv, 0, 1, false),
            sp.fu_bn,
        );
        let both = sum_acts(crate::dataflow::inverse_acts(feat, fu, sp.half, host), feat);
        lemma_same_weights(n, p, q, both, sp.conv2, 0, 1, false);
    }
}

proof fn lemma_same_local(
    n: nat,
    p: Work,
    q: Work,
    w: DFfc,
    inp: Acts,
    local: Acts,
    glob: Option<Acts>,
    skip: Option<Acts>,
)
    requires
        untouched(n, p, q),
        ffc_older(w, n),
    ensures
        local_acts(p, w, inp, local, glob, skip) == local_acts(q, w, inp, local, glob, skip),
        forall|host: bool|
            global_acts(p, w, inp, local, glob, skip, host) == #[trigger] global_acts(
                q,
                w,
                inp,
                local,
                glob,
                skip,
                host,
            ),
{
    if let Some(cv) = w.l2l {
        lemma_same_weights(n, p, q, local, cv, w.pad, w.stride, w.reflect);
    }
    if let Some(cv) = w.l2g {
        lemma_same_weights(n, p, q, local, cv, w.pad, w.stride, w.reflect);
    }
    if let Some(cv) = w.g2l {
        lemma_same_weights(n, p, q, glob->0, cv, w.pad, w.stride, w.reflect);
    }
    if let Some(bn) = w.bn_l {
        lemma_same_value(n, p, q, bn.scale.addr);
        lemma_same_value(n, p, q, bn.shift.addr);
    }
    if let Some(bn) = w.bn_g {
        lemma_same_value(n, p, q, bn.scale.addr);
        lemma_same_value(n, p, q, bn.shift.addr);
    }
    if let Some(sp) = w.spectral {
        lemma_same_spectral(n, p, q, sp, last_planes(glob->0, w.in_global));
    }
}

/// The local output of an evaluation as a value: nothing, of the extents of the
/// input, where it has no local channels.
pub open spec fn local_output(
    p: Work,
    w: DFfc,
    inp: Acts,
    glob: Option<Acts>,
    skip: Option<Acts>,
) -> Acts {
    if w.out_local > 0 {
        local_acts(p, w, inp, local_planes(w, inp), glob, skip)
    } else {
        Acts { v: Val::Raw, c: 0, h: inp.h, w: inp.w, len: 0 }
    }
}

/// The global output of an evaluation as a value, where it has global channels.
pub open spec fn global_output(
    p: Work,
    w: DFfc,
    inp: Acts,
    glob: Option<Acts>,
    skip: Option<Acts>,
    host: bool,
) -> Option<Acts> {
    if w.out_global > 0 {
        Some(global_acts(p, w, inp, local_planes(w, inp), glob, skip, host))
    } else {
        None
    }
}

/// An evaluation leaves its two outputs in blocks of their own, and touches no other
/// block that was there.
pub proof fn evaluation_computes(
    p: Work,
    w: DFfc,
    inp: DActs,
    glob: Option<DActs>,
    skip_local: Option<DActs>,
    skip_global: Option<DActs>,
)
    requires
        ffc(p, w, inp, glob, skip_local, skip_global).work.going(),
        ffc(p, w, inp, glob, skip_local, skip_global).work.cmds.len() <= usize::MAX,
        older(inp.buf.addr, p.cmds.len()),
        maybe_older(glob, p.cmds.len()),
        maybe_older(skip_local, p.cmds.len()),
        maybe_older(skip_global, p.cmds.len()),
        ffc_older(w, p.cmds.len()),
    ensures
        ({
            let b = ffc(p, w, inp, glob, skip_local, skip_global);
            let n = p.cmds.len();
            &&& starts(b.local.buf, n, b.work.cmds.len())
            &&& seen(b.work, b.local) == local_output(
                p,
                w,
                seen(p, inp),
                seen_if(p, glob),
                seen_if(p, skip_local),
            )
            &&& (b.global matches Some(g) ==> starts(g.buf, n, b.work.cmds.len())
                && g.buf.addr.base != b.local.buf.addr.base)
            &&& seen_if(b.work, b.global) == global_output(
                p,
                w,
                seen(p, inp),
                seen_if(p, glob),
                seen_if(p, skip_global),
                p.flags.fft_host,
            )
            &&& untouched(n, p, b.work)
        }),
{
    reveal(ffc);
    let n = p.cmds.len();
    let b = ffc(p, w, inp, glob, skip_local, skip_global);
    let (p1, half) = local_half(p, w, inp);
    let (p2, l) = if w.out_local > 0 {
        local_branch(p1, w, inp, half, glob, skip_local)
    } else {
        (p1, crate::ops::nothing())
    };
    lemma_local_grows(p1, w, inp, half, glob, skip_local);
    lemma_global_grows(p2, w, inp, half, glob, skip_global);
    let (p3, g) = if w.out_global > 0 {
        let (q, g) = global_branch(p2, w, inp, half, glob, skip_global);
        (q, Some(g))
    } else {
        (p2, None)
    };
    assert(grows(p3, b.work));
    assert(p1 == p && p1.going());
    assert(seen(p, half) == local_planes(w, seen(p, inp))) by {
        assert(0 * inp.plane_len() == 0) by (nonlinear_arith);
    }
    if w.out_local > 0 {
        lemma_local(p, w, inp, half, glob, skip_local);
    }
    assert(untouched(n, p, p2));
    if w.out_global > 0 {
        lemma_global(p2, w, inp, half, glob, skip_global);
        lemma_on(n, p2.cmds.len(), p, p2, p3);
        lemma_still(n, p, p2, inp);
        lemma_still(n, p, p2, half);
        if let Some(x) = glob {
            lemma_still(n, p, p2, x);
        }
        if let Some(x) = skip_global {
            lemma_still(n, p, p2, x);
        }
        lemma_same_local(
            n,
            p,
            p2,
            w,
            seen(p, inp),
            seen(p, half),
            seen_if(p, glob),
            seen_if(p, skip_global),
        );
        if w.out_local > 0 {
            lemma_still(p2.cmds.len(), p2, p3, l);
        }
        lemma_flags(p1, w, inp, half, glob, skip_local);
    }
    if w.out_local == 0 {
        lemma_on(n, p3.cmds.len(), p, p3, b.work);
        if let Some(g) = g {
            lemma_still(p3.cmds.len(), p3, b.work, g);
        }
    }
}

proof fn lemma_flags(
    p: Work,
    w: DFfc,
    inp: DActs,
    local: DActs,
    glob: Option<DActs>,
    skip: Option<DActs>,
)
    ensures
        local_branch(p, w, inp, local, glob, skip).0.flags == p.flags,
{
    lemma_local_grows(p, w, inp, local, glob, skip);
}

/// Work in which the weights keep what they hold evaluates alike.
pub(crate) proof fn lemma_same_outputs(n: nat, p: Work, q: Work, w: DFfc)
    requires
        untouched(n, p, q),
        ffc_older(w, n),
    ensures
        forall|x: Acts, g: Option<Acts>, s: Option<Acts>|
            local_output(p, w, x, g, s) == #[trigger] local_output(q, w, x, g, s),
        forall|x: Acts, g: Option<Acts>, s: Option<Acts>, host: bool|
            global_output(p, w, x, g, s, host) == #[trigger] global_output(q, w, x, g, s, host),
{
    assert forall|x: Acts, g: Option<Acts>, s: Option<Acts>|
        local_output(p, w, x, g, s) == #[trigger] local_output(q, w, x, g, s) by {
        lemma_same_local(n, p, q, w, x, local_planes(w, x), g, s);
    }
    assert forall|x: Acts, g: Option<Acts>, s: Option<Acts>, host: bool|
        global_output(p, w, x, g, s, host) == #[trigger] global_output(q, w, x, g, s, host) by {
        lemma_same_local(n, p, q, w, x, local_planes(w, x), g, s);
    }
}

} // verus!
