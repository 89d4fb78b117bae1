//! What an evaluation writes: only blocks that it allocates itself. What it is given,
//! as input or as what is to be added, stays as it is.

use vstd::prelude::*;

use crate::cuda::{Addr, Base, Call, Cmd, DActs, Dev, StopView, Work};
use crate::ops::{
    bn_relu, bn_relu_add, conv, conv_or_empty, copied, direct, ffc, global_branch, global_half, inverted,
    local_branch, local_half, merged, normalised, patch_conv, pointwise, pooled, spectral,
    spectral_fits, spectrum, sum, DBn, DConv, DFfc, DSpectral,
};
use crate::safety::{
    grows, lemma_conv_grows, lemma_global_grows, lemma_inverted_grows, lemma_local_grows,
    lemma_small_grow, lemma_spectral_grows, lemma_spectrum_grows,
};

verus! {

broadcast use crate::cuda::group_work;

/// The place that a kernel writes to.
pub open spec fn call_writes(call: Call) -> Addr {
    match call {
        Call::Im2col { col, .. } => col,
        Call::ConvTranspose { out, .. } => out,
        Call::BnRelu { x, .. } => x,
        Call::Sigmoid { x, .. } => x,
        Call::AddInplace { a, .. } => a,
        Call::Scale { x, .. } => x,
        Call::ReflectPad { out, .. } => out,
        Call::Avgpool2x2 { out, .. } => out,
        Call::CopyPlane { out, .. } => out,
        Call::SpecPack { packed, .. } => packed,
        Call::SpecUnpack { complex, .. } => complex,
        Call::ConvtCol { col, .. } => col,
        Call::ConvtPut { out, .. } => out,
        Call::BiasPlane { out, .. } => out,
        Call::Conv7x7 { out, .. } => out,
        Call::BnReluAdd { x, .. } => x,
    }
}

/// Whether a command writes to what lies at `b`, or gives it up. An inverse transform
/// may use up what it reads.
pub open spec fn changes(cmd: Cmd, b: Base) -> bool {
    match cmd {
        Cmd::Free { id, .. } => b == Base::Heap(id),
        Cmd::BlobCopy { .. } => b == Base::Blob,
        Cmd::StageCopy { .. } => b == Base::Staging,
        Cmd::Upload { to, .. } => b == to.base,
        Cmd::Input { to, .. } => b == to.base,
        Cmd::Launch { call, .. } => b == call_writes(call).base,
        Cmd::Gemm { c, .. } => b == c.base,
        Cmd::Fft { key, src, dst } => b == dst.base || key.inverse && b == src.base,
        Cmd::HostFft { to, .. } => b == to.addr.base,
        _ => false,
    }
}

/// Whether what lies at `b` is a block that was allocated by the command at `n` or a
/// later one.
pub open spec fn since(n: nat, b: Base) -> bool {
    b matches Base::Heap(id) && n <= id
}

/// Whether a command changes only blocks allocated since `n`.
pub open spec fn spares(n: nat, cmd: Cmd) -> bool {
    forall|b: Base| #[trigger] changes(cmd, b) ==> since(n, b)
}

/// `q` follows `p`, and what it does beyond `p` changes only blocks that were
/// allocated after `p`.
pub open spec fn only_fresh(p: Work, q: Work) -> bool {
    &&& p.cmds.len() <= q.cmds.len()
    &&& q.cmds.take(p.cmds.len() as int) == p.cmds
    &&& forall|i: int|
        p.cmds.len() <= i < q.cmds.len() ==> spares(p.cmds.len(), #[trigger] q.cmds[i])
}

proof fn lemma_self(p: Work)
    ensures
        only_fresh(p, p),
{
    assert(p.cmds.take(p.cmds.len() as int) =~= p.cmds);
}

broadcast proof fn lemma_then(p0: Work, p: Work, cmd: Cmd)
    requires
        only_fresh(p0, p),
        p.going() ==> spares(p0.cmds.len(), cmd),
    ensures
        #[trigger] only_fresh(p0, p.push(cmd)),
{
    reveal(Work::push);
    let q = p.push(cmd);
    if p.going() {
        assert(q.cmds.take(p0.cmds.len() as int) =~= p.cmds.take(p0.cmds.len() as int));
        assert forall|i: int| p0.cmds.len() <= i < q.cmds.len() implies spares(
            p0.cmds.len(),
            #[trigger] q.cmds[i],
        ) by {
            if i < p.cmds.len() {
                assert(q.cmds[i] == p.cmds[i]);
            }
        }
    }
}

broadcast proof fn lemma_halted(p0: Work, p: Work, s: StopView)
    requires
        only_fresh(p0, p),
    ensures
        #[trigger] only_fresh(p0, p.halt(s)),
{
}

broadcast group group_fresh {
    lemma_then,
    lemma_halted,
}

/// Where work goes on, a block was allocated since `p0`.
spec fn made(p0: Work, q: Work, d: Dev) -> bool {
    q.going() ==> since(p0.cmds.len(), d.addr.base)
}

proof fn lemma_pointwise_fresh(p0: Work, p: Work, cv: DConv, src: DActs)
    requires
        only_fresh(p0, p),
        pointwise(p, cv, src).0.cmds.len() <= usize::MAX,
    ensures
        only_fresh(p0, pointwise(p, cv, src).0),
        made(p0, pointwise(p, cv, src).0, pointwise(p, cv, src).1.buf),
{
    broadcast use group_fresh;

}

proof fn lemma_direct_fresh(p0: Work, p: Work, cv: DConv, src: DActs, w_t: Dev)
    requires
        only_fresh(p0, p),
        direct(p, cv, src, w_t).0.cmds.len() <= usize::MAX,
    ensures
        only_fresh(p0, direct(p, cv, src, w_t).0),
        made(p0, direct(p, cv, src, w_t).0, direct(p, cv, src, w_t).1.buf),
{
    broadcast use group_fresh;

}

proof fn lemma_patch_fresh(
    p0: Work,
    p: Work,
    cv: DConv,
    src: DActs,
    pad: usize,
    stride: usize,
    reflect: bool,
)
    requires
        only_fresh(p0, p),
        patch_conv(p, cv, src, pad, stride, reflect).0.cmds.len() <= usize::MAX,
    ensures
        only_fresh(p0, patch_conv(p, cv, src, pad, stride, reflect).0),
        made(
            p0,
            patch_conv(p, cv, src, pad, stride, reflect).0,
            patch_conv(p, cv, src, pad, stride, reflect).1.buf,
        ),
{
    broadcast use group_fresh;

}

proof fn lemma_conv_fresh(
    p0: Work,
    p: Work,
    cv: DConv,
    src: DActs,
    pad: usize,
    stride: usize,
    reflect: bool,
)
    requires
        only_fresh(p0, p),
        conv(p, cv, src, pad, stride, reflect).0.cmds.len() <= usize::MAX,
    ensures
        only_fresh(p0, conv(p, cv, src, pad, stride, reflect).0),
        made(
            p0,
            conv(p, cv, src, pad, stride, reflect).0,
            conv(p, cv, src, pad, stride, reflect).1.buf,
        ),
{
    reveal(conv);
    if cv.kh == 1 && cv.kw == 1 && stride == 1 {
        lemma_pointwise_fresh(p0, p, cv, src);
    } else if cv.kh == 7 && cv.kw == 7 && stride == 1 && pad == 0 && cv.w_t is Some {
        lemma_direct_fresh(p0, p, cv, src, cv.w_t->0);
    } else {
        lemma_patch_fresh(p0, p, cv, src, pad, stride, reflect);
    }
}

proof fn lemma_pool_fresh(p0: Work, p: Work, g: DActs)
    requires
        only_fresh(p0, p),
    ensures
        pooled(p, g).0.cmds.len() <= usize::MAX ==> only_fresh(p0, pooled(p, g).0) && made(
            p0,
            pooled(p, g).0,
            pooled(p, g).1.buf,
        ),
        copied(p, g).0.cmds.len() <= usize::MAX ==> only_fresh(p0, copied(p, g).0) && made(
            p0,
            copied(p, g).0,
            copied(p, g).1.buf,
        ),
{
    broadcast use group_fresh;

    reveal(pooled);
    reveal(copied);
}

proof fn lemma_bn_fresh(p0: Work, p: Work, x: DActs, bn: DBn)
    requires
        only_fresh(p0, p),
        made(p0, p, x.buf),
    ensures
        only_fresh(p0, bn_relu(p, x, bn)),
{
    broadcast use group_fresh;

    reveal(bn_relu);
}

proof fn lemma_sum_fresh(p0: Work, p: Work, a: DActs, b: DActs)
    requires
        only_fresh(p0, p),
        made(p0, p, a.buf),
    ensures
        only_fresh(p0, sum(p, a, b)),
{
    broadcast use group_fresh;

    reveal(sum);
}

proof fn lemma_spectrum_fresh(p0: Work, p: Work, feat: DActs, half: usize)
    requires
        only_fresh(p0, p),
        spectrum(p, feat, half).0.cmds.len() <= usize::MAX,
    ensures
        only_fresh(p0, spectrum(p, feat, half).0),
        made(p0, spectrum(p, feat, half).0, spectrum(p, feat, half).1.buf),
{
    broadcast use group_fresh;

    reveal(spectrum);
}

proof fn lemma_inverted_fresh(p0: Work, p: Work, feat: DActs, fu: DActs, half: usize)
    requires
        only_fresh(p0, p),
        inverted(p, feat, fu, half).0.cmds.len() <= usize::MAX,
    ensures
        only_fresh(p0, inverted(p, feat, fu, half).0),
        made(p0, inverted(p, feat, fu, half).0, inverted(p, feat, fu, half).1.buf),
{
    broadcast use group_fresh;

    reveal(inverted);
}

proof fn lemma_free_fresh(p0: Work, p: Work, d: Dev)
    requires
        only_fresh(p0, p),
        made(p0, p, d),
    ensures
        only_fresh(p0, p.free(d)),
        p.free(d).going() == p.going(),
{
    broadcast use group_fresh;

}

proof fn lemma_spectral_fresh(p0: Work, p: Work, sp: DSpectral, g: DActs)
    requires
        only_fresh(p0, p),
        spectral(p, sp, g).0.cmds.len() <= usize::MAX,
    ensures
        only_fresh(p0, spectral(p, sp, g).0),
        made(p0, spectral(p, sp, g).0, spectral(p, sp, g).1.buf),
{
    broadcast use group_fresh;

    reveal(spectral);
    let (p1, pool) = if sp.stride == 2 {
        pooled(p, g)
    } else {
        copied(p, g)
    };
    lemma_small_grow(p, g, g, 0, sp.bn1);
    let (p2, feat) = conv(p1, sp.conv1, pool, 0, 1, false);
    lemma_conv_grows(p1, sp.conv1, pool, 0, 1, false);
    lemma_small_grow(p2, feat, feat, 0, sp.bn1);
    let p3 = bn_relu(p2, feat, sp.bn1);
    if spectral_fits(feat, sp.half, p.flags.fft_host) {
        let b = p3.push(Cmd::FftBegin);
        let (p4, spec) = spectrum(b, feat, sp.half);
        lemma_spectrum_grows(b, feat, sp.half);
        let (p5, fu) = conv(p4, sp.fu_conv, spec, 0, 1, false);
        lemma_conv_grows(p4, sp.fu_conv, spec, 0, 1, false);
        let p6 = bn_relu(p5, fu, sp.fu_bn);
        lemma_small_grow(p5, fu, fu, 0, sp.fu_bn);
        let (p7, inv) = inverted(p6, feat, fu, sp.half);
        lemma_inverted_grows(p6, feat, fu, sp.half);
        let e = p7.push(Cmd::FftEnd);
        let p8 = sum(e, inv, feat);
        lemma_small_grow(e, inv, feat, 0, sp.bn1);
        let (p9, out) = conv(p8, sp.conv2, inv, 0, 1, false);
        lemma_conv_grows(p8, sp.conv2, inv, 0, 1, false);
        let f1 = p9.free(inv.buf);
        let f2 = f1.free(fu.buf);
        let f3 = f2.free(spec.buf);
        let f4 = f3.free(feat.buf);
        assert(grows(p9, f1) && grows(f1, f2) && grows(f2, f3) && grows(f3, f4) && grows(
            f4,
            f4.free(pool.buf),
        ));
        lemma_pool_fresh(p0, p, g);
        lemma_conv_fresh(p0, p1, sp.conv1, pool, 0, 1, false);
        lemma_bn_fresh(p0, p2, feat, sp.bn1);
        assert(only_fresh(p0, b));
        lemma_spectrum_fresh(p0, b, feat, sp.half);
        lemma_conv_fresh(p0, p4, sp.fu_conv, spec, 0, 1, false);
        lemma_bn_fresh(p0, p5, fu, sp.fu_bn);
        lemma_inverted_fresh(p0, p6, feat, fu, sp.half);
        assert(only_fresh(p0, e));
        lemma_sum_fresh(p0, e, inv, feat);
        lemma_conv_fresh(p0, p8, sp.conv2, inv, 0, 1, false);
        lemma_free_fresh(p0, p9, inv.buf);
        lemma_free_fresh(p0, f1, fu.buf);
        lemma_free_fresh(p0, f2, spec.buf);
        lemma_free_fresh(p0, f3, feat.buf);
        lemma_free_fresh(p0, f4, pool.buf);
    } else {
        lemma_pool_fresh(p0, p, g);
        lemma_conv_fresh(p0, p1, sp.conv1, pool, 0, 1, false);
        lemma_bn_fresh(p0, p2, feat, sp.bn1);
    }
}

proof fn lemma_merged_fresh(p0: Work, p: Work, acc: DActs, o: DActs)
    requires
        only_fresh(p0, p),
        made(p0, p, acc.buf),
        made(p0, p, o.buf),
    ensures
        only_fresh(p0, merged(p, acc, o).0),
        made(p0, merged(p, acc, o).0, merged(p, acc, o).1.buf),
        grows(p, merged(p, acc, o).0),
{
    lemma_small_grow(
        p,
        acc,
        o,
        0,
        DBn { scale: acc.buf, shift: acc.buf, channels: 0 },
    );
    if acc.c == 0 {
        lemma_free_fresh(p0, p, acc.buf);
    } else {
        lemma_sum_fresh(p0, p, acc, o);
        lemma_free_fresh(p0, sum(p, acc, o), o.buf);
    }
}

proof fn lemma_first_fresh(p0: Work, p: Work, w: DFfc, cv: Option<DConv>, local: DActs, inp: DActs)
    requires
        only_fresh(p0, p),
    ensures
        grows(p, conv_or_empty(p, w, cv, local, inp).0),
        conv_or_empty(p, w, cv, local, inp).0.cmds.len() <= usize::MAX ==> only_fresh(
            p0,
            conv_or_empty(p, w, cv, local, inp).0,
        ) && made(
            p0,
            conv_or_empty(p, w, cv, local, inp).0,
            conv_or_empty(p, w, cv, local, inp).1.buf,
        ),
{
    broadcast use group_fresh;

    if let Some(cv) = cv {
        lemma_conv_grows(p, cv, local, w.pad, w.stride, w.reflect);
        if conv(p, cv, local, w.pad, w.stride, w.reflect).0.cmds.len() <= usize::MAX {
            lemma_conv_fresh(p0, p, cv, local, w.pad, w.stride, w.reflect);
        }
    }
}

proof fn lemma_normalised_fresh(p0: Work, p: Work, x: DActs, bn: Option<DBn>, skip: Option<DActs>)
    requires
        only_fresh(p0, p),
        made(p0, p, x.buf),
    ensures
        only_fresh(p0, normalised(p, x, bn, skip)),
        grows(p, normalised(p, x, bn, skip)),
{
    broadcast use group_fresh;

    reveal(bn_relu_add);
}

proof fn lemma_local_fresh(
    p0: Work,
    p: Work,
    w: DFfc,
    inp: DActs,
    local: DActs,
    glob: Option<DActs>,
    skip: Option<DActs>,
)
    requires
        only_fresh(p0, p),
        local_branch(p, w, inp, local, glob, skip).0.cmds.len() <= usize::MAX,
    ensures
        only_fresh(p0, local_branch(p, w, inp, local, glob, skip).0),
{
    broadcast use group_fresh;

    let (p1, acc) = conv_or_empty(p, w, w.l2l, local, inp);
    lemma_first_fresh(p0, p, w, w.l2l, local, inp);
    if w.g2l is Some && glob is Some {
        let (cv, g) = (w.g2l->0, glob->0);
        let (q, o) = conv(p1, cv, g, w.pad, w.stride, w.reflect);
        lemma_conv_grows(p1, cv, g, w.pad, w.stride, w.reflect);
        let (p2, sum) = merged(q, acc, o);
        assert(grows(q, p2)) by {
            lemma_small_grow(
                q,
                acc,
                o,
                0,
                DBn { scale: acc.buf, shift: acc.buf, channels: 0 },
            );
        }
        assert(grows(p2, normalised(p2, sum, w.bn_l, skip))) by {
            reveal(bn_relu_add);
        }
        lemma_conv_fresh(p0, p1, cv, g, w.pad, w.stride, w.reflect);
        lemma_merged_fresh(p0, q, acc, o);
        lemma_normalised_fresh(p0, p2, sum, w.bn_l, skip);
    } else {
        let p2 = if w.g2l is Some {
            p1.halt(StopView::Fault("convg2l present without a global branch"@))
        } else {
            p1
        };
        assert(grows(p2, normalised(p2, acc, w.bn_l, skip))) by {
            reveal(bn_relu_add);
        }
        lemma_normalised_fresh(p0, p2, acc, w.bn_l, skip);
    }
}

proof fn lemma_global_fresh(
    p0: Work,
    p: Work,
    w: DFfc,
    inp: DActs,
    local: DActs,
    glob: Option<DActs>,
    skip: Option<DActs>,
)
    requires
        only_fresh(p0, p),
        global_branch(p, w, inp, local, glob, skip).0.cmds.len() <= usize::MAX,
    ensures
        only_fresh(p0, global_branch(p, w, inp, local, glob, skip).0),
{
    broadcast use group_fresh;

    let (p1, acc) = conv_or_empty(p, w, w.l2g, local, inp);
    lemma_first_fresh(p0, p, w, w.l2g, local, inp);
    if w.spectral is Some && glob is Some {
        let (sp, g) = (w.spectral->0, glob->0);
        let (h, half) = global_half(p1, w, g);
        assert(grows(p1, h));
        let (q, o) = spectral(h, sp, half);
        lemma_spectral_grows(h, sp, half);
        let (p2, sum) = merged(q, acc, o);
        assert(grows(q, p2)) by {
            lemma_small_grow(
                q,
                acc,
                o,
                0,
                DBn { scale: acc.buf, shift: acc.buf, channels: 0 },
            );
        }
        assert(grows(p2, normalised(p2, sum, w.bn_g, skip))) by {
            reveal(bn_relu_add);
        }
        lemma_spectral_fresh(p0, h, sp, half);
        lemma_merged_fresh(p0, q, acc, o);
        lemma_normalised_fresh(p0, p2, sum, w.bn_g, skip);
    } else {
        let p2 = if w.spectral is Some {
            p1.halt(StopView::Fault("convg2g present without a global branch"@))
        } else {
            p1
        };
        assert(grows(p2, normalised(p2, acc, w.bn_g, skip))) by {
            reveal(bn_relu_add);
        }
        lemma_normalised_fresh(p0, p2, acc, w.bn_g, skip);
    }
}

// ---------------------------------------------------------------------------
// Evaluations
// ---------------------------------------------------------------------------

/// A convolution changes only blocks that it allocates, so not the block that it
/// reads nor its weights.
pub proof fn conv_spares_its_input(
    p: Work,
    cv: DConv,
    src: DActs,
    pad: usize,
    stride: usize,
    reflect: bool,
)
    requires
        conv(p, cv, src, pad, stride, reflect).0.cmds.len() <= usize::MAX,
    ensures
        only_fresh(p, conv(p, cv, src, pad, stride, reflect).0),
{
    lemma_self(p);
    lemma_conv_fresh(p, p, cv, src, pad, stride, reflect);
}

/// The spectral branch changes only blocks that it allocates, so not the block that
/// it reads, whether the transforms run on the device or on the host.
pub proof fn spectral_spares_its_input(p: Work, sp: DSpectral, g: DActs)
    requires
        spectral(p, sp, g).0.cmds.len() <= usize::MAX,
    ensures
        only_fresh(p, spectral(p, sp, g).0),
{
    lemma_self(p);
    lemma_spectral_fresh(p, p, sp, g);
}

/// Whether the convolutions of the spectral branch are 1x1, as they are made.
pub open spec fn pointwise_only(sp: DSpectral) -> bool {
    &&& sp.conv1.kh == 1
    &&& sp.conv1.kw == 1
    &&& sp.fu_conv.kh == 1
    &&& sp.fu_conv.kw == 1
    &&& sp.conv2.kh == 1
    &&& sp.conv2.kw == 1
}

/// A 1x1 convolution keeps the extents.
proof fn lemma_pointwise_extents(p: Work, cv: DConv, src: DActs)
    requires
        cv.kh == 1,
        cv.kw == 1,
    ensures
        ({
            let (q, out) = conv(p, cv, src, 0, 1, false);
            q.going() ==> out.c == cv.cout && out.h == src.h && out.w == src.w
        }),
{
    reveal(conv);
}

/// The output of the spectral branch has the channels of its closing convolution and
/// the extents of what it reads, halved where the stride is 2, whether the transforms
/// run on the device or on the host.
pub proof fn spectral_extents(p: Work, sp: DSpectral, g: DActs)
    requires
        pointwise_only(sp),
        spectral(p, sp, g).0.going(),
    ensures
        ({
            let out = spectral(p, sp, g).1;
            &&& out.c == sp.conv2.cout
            &&& out.h == if sp.stride == 2 {
                g.h / 2
            } else {
                g.h
            }
            &&& out.w == if sp.stride == 2 {
                g.w / 2
            } else {
                g.w
            }
        }),
{
    reveal(spectral);
    let (p1, pool) = if sp.stride == 2 {
        pooled(p, g)
    } else {
        copied(p, g)
    };
    let (p2, feat) = conv(p1, sp.conv1, pool, 0, 1, false);
    lemma_conv_grows(p1, sp.conv1, pool, 0, 1, false);
    lemma_pointwise_extents(p1, sp.conv1, pool);
    lemma_small_grow(p2, feat, feat, 0, sp.bn1);
    let b = bn_relu(p2, feat, sp.bn1).push(Cmd::FftBegin);
    let (p4, spec) = spectrum(b, feat, sp.half);
    lemma_spectrum_grows(b, feat, sp.half);
    let (p5, fu) = conv(p4, sp.fu_conv, spec, 0, 1, false);
    lemma_conv_grows(p4, sp.fu_conv, spec, 0, 1, false);
    let p6 = bn_relu(p5, fu, sp.fu_bn);
    lemma_small_grow(p5, fu, fu, 0, sp.fu_bn);
    let (p7, inv) = inverted(p6, feat, fu, sp.half);
    lemma_inverted_grows(p6, feat, fu, sp.half);
    assert(inv.h == feat.h && inv.w == feat.w) by {
        reveal(inverted);
    }
    let e = p7.push(Cmd::FftEnd);
    let p8 = sum(e, inv, feat);
    lemma_small_grow(e, inv, feat, 0, sp.bn1);
    lemma_conv_grows(p8, sp.conv2, inv, 0, 1, false);
    lemma_pointwise_extents(p8, sp.conv2, inv);
    assert(p1.going());
    assert(pool.h == if sp.stride == 2 {
        g.h / 2
    } else {
        g.h
    } && pool.w == if sp.stride == 2 {
        g.w / 2
    } else {
        g.w
    }) by {
        reveal(pooled);
        reveal(copied);
    }
}

/// An evaluation changes only blocks that it allocates, so neither its input nor what
/// is to be added to its outputs.
pub proof fn evaluation_spares_its_input(
    p: Work,
    w: DFfc,
    inp: DActs,
    glob: Option<DActs>,
    skip_local: Option<DActs>,
    skip_global: Option<DActs>,
)
    requires
        ffc(p, w, inp, glob, skip_local, skip_global).work.cmds.len() <= usize::MAX,
    ensures
        only_fresh(p, ffc(p, w, inp, glob, skip_local, skip_global).work),
{
    broadcast use group_fresh;

    reveal(ffc);
    lemma_self(p);
    let b = ffc(p, w, inp, glob, skip_local, skip_global);
    let (p1, half) = local_half(p, w, inp);
    let p2 = if w.out_local > 0 {
        local_branch(p1, w, inp, half, glob, skip_local).0
    } else {
        p1
    };
    lemma_local_grows(p1, w, inp, half, glob, skip_local);
    lemma_global_grows(p2, w, inp, half, glob, skip_global);
    let p3 = if w.out_global > 0 {
        global_branch(p2, w, inp, half, glob, skip_global).0
    } else {
        p2
    };
    assert(grows(p3, b.work));
    if w.out_local > 0 {
        lemma_local_fresh(p, p1, w, inp, half, glob, skip_local);
    }
    if w.out_global > 0 {
        lemma_global_fresh(p, p2, w, inp, half, glob, skip_global);
    }
}

/// What was there before, be it a block, the blob or the staged tensors, is changed by
/// none of the commands that follow.
pub proof fn what_was_there_stays(p: Work, q: Work, i: int, b: Base)
    requires
        only_fresh(p, q),
        p.cmds.len() <= i < q.cmds.len(),
        b matches Base::Heap(id) ==> id < p.cmds.len(),
    ensures
        !changes(q.cmds[i], b),
{
    assert(spares(p.cmds.len(), q.cmds[i]));
}

} // verus!
