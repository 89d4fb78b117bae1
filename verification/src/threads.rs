//! Every launch has a thread for each of the values that its kernel computes.

use vstd::prelude::*;

use crate::cuda::{grid_is_least, grid_len, Call, Cmd, DActs, Dev, StopView, Work, BLOCK};
use crate::ops::{
    bn_relu, bn_relu_add, concatenated, conv, conv_sizes, copied, direct, inverted, padded,
    patch_conv, phase, phase_len, pointwise, pooled, sigmoid, spectrum, sum, tap_count, up_gather,
    DBn, DConv, DConvT,
};

verus! {

broadcast use crate::cuda::group_work;

/// How many threads a kernel needs: one for each value that it computes; for the stacked
/// and the paired spectrum one for each complex value, and in the 7x7 kernel one for each
/// output pixel.
pub open spec fn needed(call: Call) -> int {
    match call {
        Call::Im2col { cin, kh, kw, oh, ow, .. } => cin * kh * kw * (oh * ow),
        Call::ConvTranspose { cout, oh, ow, .. } => cout * oh * ow,
        Call::BnRelu { plane, channels, .. } => plane * channels,
        Call::Sigmoid { n, .. } => n as int,
        Call::AddInplace { n, .. } => n as int,
        Call::Scale { n, .. } => n as int,
        Call::ReflectPad { c, h, w, pad, .. } => c * (h + 2 * pad) * (w + 2 * pad),
        Call::Avgpool2x2 { c, h, w, .. } => c * (h as int / 2) * (w as int / 2),
        Call::CopyPlane { n, .. } => n as int,
        Call::SpecPack { half, plane, .. } => half * plane,
        Call::SpecUnpack { half, plane, .. } => half * plane,
        Call::ConvtCol { cin, taps, n, .. } => cin * taps * n,
        Call::ConvtPut { cout, n, .. } => cout * n,
        Call::BiasPlane { cout, n, .. } => cout * n,
        Call::Conv7x7 { h_out, w_out, .. } => h_out * w_out,
        Call::BnReluAdd { plane, channels, .. } => plane * channels,
    }
}

/// Whether a launch has a thread for everything that its kernel computes.
pub open spec fn enough(cmd: Cmd) -> bool {
    cmd matches Cmd::Launch { call, grid } ==> needed(call) <= grid * BLOCK
}

/// Whether every launch from `p` to `q` has.
pub open spec fn manned(p: Work, q: Work) -> bool {
    &&& p.cmds.len() <= q.cmds.len()
    &&& forall|i: int| p.cmds.len() <= i < q.cmds.len() ==> enough(#[trigger] q.cmds[i])
}

proof fn lemma_self(p: Work)
    ensures
        manned(p, p),
{
}

broadcast proof fn lemma_then(p0: Work, p: Work, cmd: Cmd)
    requires
        manned(p0, p),
        p.going() ==> enough(cmd),
    ensures
        #[trigger] manned(p0, p.push(cmd)),
{
    reveal(Work::push);
    let q = p.push(cmd);
    assert forall|i: int| p0.cmds.len() <= i < q.cmds.len() implies enough(#[trigger] q.cmds[i]) by {
        if i < p.cmds.len() {
            assert(q.cmds[i] == p.cmds[i]);
        }
    }
}

broadcast proof fn lemma_halted(p0: Work, p: Work, s: StopView)
    requires
        manned(p0, p),
    ensures
        #[trigger] manned(p0, p.halt(s)),
{
}

broadcast group group_manned {
    lemma_then,
    lemma_halted,
}

/// Whether a number is one of the device's integers.
pub open spec fn small(n: int) -> bool {
    0 <= n <= i32::MAX
}

proof fn lemma_launched(p0: Work, p: Work, call: Call, n: int)
    requires
        manned(p0, p),
        needed(call) <= n,
        small(n),
    ensures
        manned(p0, p.launch(call, n)),
{
    grid_is_least(n, BLOCK as int);
    let g = grid_len(n, BLOCK as int);
    assert(0 <= g <= i32::MAX);
    lemma_then(p0, p, Cmd::Launch { call, grid: g as u32 });
}

// ---------------------------------------------------------------------------
// Elementwise operations
// ---------------------------------------------------------------------------

/// A normalisation has a thread for every value of its planes.
pub proof fn normalisation_is_manned(p: Work, x: DActs, bn: DBn, skip: Option<DActs>)
    requires
        small(bn.channels as int),
        small(x.h * x.w),
        small(x.h * x.w * bn.channels),
    ensures
        manned(p, bn_relu(p, x, bn)),
        manned(p, bn_relu_add(p, x, bn, skip)),
{
    broadcast use group_manned;

    reveal(bn_relu);
    reveal(bn_relu_add);
    lemma_self(p);
    let n = x.plane_len() * bn.channels;
    let plain = Call::BnRelu {
        x: x.buf.addr,
        scale: bn.scale.addr,
        shift: bn.shift.addr,
        plane: x.plane_len() as i64,
        channels: bn.channels as i32,
    };
    let adding = Call::BnReluAdd {
        x: x.buf.addr,
        skip: crate::ops::addr_of(skip),
        scale: bn.scale.addr,
        shift: bn.shift.addr,
        plane: x.plane_len() as i64,
        channels: bn.channels as i32,
    };
    lemma_launched(p, p, plain, n);
    lemma_launched(p, p, adding, n);
}

/// The sigmoid and the sum have a thread for every value of the block.
pub proof fn block_operations_are_manned(p: Work, a: DActs, b: DActs)
    requires
        small(a.buf.len as int),
    ensures
        manned(p, sigmoid(p, a)),
        manned(p, sum(p, a, b)),
{
    reveal(sum);
    lemma_self(p);
    let n = a.buf.len;
    lemma_launched(p, p, Call::Sigmoid { x: a.buf.addr, n: n as i64 }, n as int);
    lemma_launched(
        p,
        p,
        Call::AddInplace { a: a.buf.addr, b: b.buf.addr, n: n as i64 },
        n as int,
    );
}

// ---------------------------------------------------------------------------
// Padding, pooling, copying, stacking
// ---------------------------------------------------------------------------

/// Padding has a thread for every value of the padded block.
pub proof fn padding_is_manned(p: Work, src: DActs, pad: usize)
    requires
        small(src.c as int),
        small(src.h + 2 * pad),
        small(src.w + 2 * pad),
        small(src.c * (src.h + 2 * pad) * (src.w + 2 * pad)),
    ensures
        manned(p, padded(p, src, pad).0),
{
    broadcast use group_manned;

    reveal(padded);
    lemma_self(p);
    let n = src.c * (src.h + 2 * pad) * (src.w + 2 * pad);
    let out = p.fresh(n as usize);
    let call = Call::ReflectPad {
        src: src.buf.addr,
        out: out.addr,
        c: src.c as i32,
        h: src.h as i32,
        w: src.w as i32,
        pad: pad as i32,
    };
    assert(manned(p, p.allocate(n)));
    lemma_launched(p, p.allocate(n), call, n);
}

/// Pooling has a thread for every average.
pub proof fn pooling_is_manned(p: Work, src: DActs)
    requires
        small(src.c as int),
        small(src.h as int),
        small(src.w as int),
        small(src.c * (src.h / 2) * (src.w / 2)),
    ensures
        manned(p, pooled(p, src).0),
{
    broadcast use group_manned;

    reveal(pooled);
    lemma_self(p);
    let n = src.c * (src.h / 2) * (src.w / 2);
    let out = p.fresh(n as usize);
    let call = Call::Avgpool2x2 {
        src: src.buf.addr,
        out: out.addr,
        c: src.c as i32,
        h: src.h as i32,
        w: src.w as i32,
    };
    assert(manned(p, p.allocate(n)));
    lemma_launched(p, p.allocate(n), call, n);
}

/// Copying and stacking have a thread for every value that is copied.
pub proof fn copies_are_manned(p: Work, a: DActs, g: DActs)
    requires
        small(a.buf.len as int),
        small(g.buf.len as int),
    ensures
        manned(p, copied(p, a).0),
        manned(p, concatenated(p, a, g).0),
{
    broadcast use group_manned;

    reveal(copied);
    reveal(concatenated);
    lemma_self(p);
    let n = a.buf.len as int;
    let out = p.fresh(a.buf.len);
    let one = Call::CopyPlane { src: a.buf.addr, out: out.addr, n: a.buf.len as i64 };
    assert(manned(p, p.allocate(n)));
    lemma_launched(p, p.allocate(n), one, n);
    let both = a.buf.len + g.buf.len;
    let q = p.allocate(both as usize as int);
    assert(manned(p, q));
    lemma_launched(p, q, one, n);
    let second = crate::cuda::Addr { base: out.addr.base, offset: (a.buf.len * 4) as usize };
    let two = Call::CopyPlane { src: g.buf.addr, out: second, n: g.buf.len as i64 };
    lemma_launched(p, q.launch(one, n), two, g.buf.len as int);
}

// ---------------------------------------------------------------------------
// Convolutions
// ---------------------------------------------------------------------------

/// The sizes of a convolution are among the device's integers.
pub open spec fn conv_small(cv: DConv, src: DActs, pad: usize, stride: usize) -> bool {
    let z = conv_sizes(cv, src, pad, stride);
    &&& small(cv.cin as int)
    &&& small(cv.cout as int)
    &&& small(cv.kh as int)
    &&& small(cv.kw as int)
    &&& small(z.oh)
    &&& small(z.ow)
    &&& small(z.n)
    &&& small(z.k * z.n)
    &&& small(cv.cout * z.n)
    &&& small(src.h * src.w)
    &&& small(cv.cout * (src.h * src.w))
    &&& small(src.h as int)
    &&& small(src.w as int)
}

proof fn lemma_biased(p0: Work, p: Work, out: Dev, cv: DConv, n: usize)
    requires
        manned(p0, p),
        small(cv.cout as int),
        small(n as int),
        small(cv.cout * n),
    ensures
        manned(p0, crate::ops::biased(p, out, cv.bias, cv.cout, n)),
{
    if let Some(b) = cv.bias {
        lemma_launched(
            p0,
            p,
            Call::BiasPlane { out: out.addr, bias: b.addr, cout: cv.cout as i32, n: n as i64 },
            cv.cout * n,
        );
    }
}

/// A convolution has a thread for every value of its patch matrix and of its output, in
/// whichever way it is computed.
#[verifier::rlimit(30)]
pub proof fn convolution_is_manned(
    p: Work,
    cv: DConv,
    src: DActs,
    pad: usize,
    stride: usize,
    reflect: bool,
)
    requires
        conv_small(cv, src, pad, stride),
    ensures
        manned(p, conv(p, cv, src, pad, stride, reflect).0),
{
    reveal(conv);
    if cv.kh == 1 && cv.kw == 1 && stride == 1 {
        lemma_pointwise(p, cv, src);
    } else if cv.kh == 7 && cv.kw == 7 && stride == 1 && pad == 0 && cv.w_t is Some {
        lemma_direct(p, cv, src, cv.w_t->0);
    } else {
        lemma_patches(p, cv, src, pad, stride, reflect);
    }
}

proof fn lemma_pointwise(p: Work, cv: DConv, src: DActs)
    requires
        small(cv.cout as int),
        small(src.h * src.w),
        small(cv.cout * (src.h * src.w)),
    ensures
        manned(p, pointwise(p, cv, src).0),
{
    broadcast use group_manned;

    lemma_self(p);
    let n = src.plane_len();
    let out = p.fresh((cv.cout * n) as usize);
    if crate::ops::pointwise_fits(cv, src, p.flags.profile_sub) {
        let cmd = Cmd::Gemm {
            role: crate::cuda::Role::Conv1x1,
            m: n as i32,
            n: cv.cout as i32,
            k: cv.cin as i32,
            a: src.buf.addr,
            lda: n as i32,
            b: cv.w.addr,
            ldb: cv.cin as i32,
            c: out.addr,
            ldc: n as i32,
        };
        let q = crate::ops::timed(
            p.allocate(cv.cout * n),
            cmd,
            crate::cuda::Sub::Sgemm1x1,
            n * cv.cout,
            2 * n * cv.cout * cv.cin,
        );
        assert(manned(p, q));
        lemma_biased(p, q, out, cv, n as usize);
    }
}

proof fn lemma_direct(p: Work, cv: DConv, src: DActs, w_t: Dev)
    requires
        small(cv.cout as int),
        small(src.h as int),
        small(src.w as int),
        small(src.h * src.w),
    ensures
        manned(p, direct(p, cv, src, w_t).0),
{
    broadcast use group_manned;

    lemma_self(p);
    if crate::ops::direct_fits(cv, src) {
        let (oh, ow) = (src.h - 6, src.w - 6);
        let out = p.fresh((cv.cout * oh * ow) as usize);
        let call = Call::Conv7x7 {
            src: src.buf.addr,
            weight: w_t.addr,
            bias: match cv.bias {
                Some(b) => Some(b.addr),
                None => None,
            },
            out: out.addr,
            cin: cv.cin as i32,
            cout: cv.cout as i32,
            h_in: src.h as i32,
            w_in: src.w as i32,
            h_out: oh as i32,
            w_out: ow as i32,
        };
        assert(0 <= oh * ow <= src.h * src.w) by (nonlinear_arith)
            requires
                0 <= oh <= src.h,
                0 <= ow <= src.w,
        ;
        assert(manned(p, p.allocate(cv.cout * oh * ow)));
        lemma_launched(p, p.allocate(cv.cout * oh * ow), call, oh * ow);
    }
}

proof fn lemma_patches(
    p: Work,
    cv: DConv,
    src: DActs,
    pad: usize,
    stride: usize,
    reflect: bool,
)
    requires
        conv_small(cv, src, pad, stride),
    ensures
        manned(p, patch_conv(p, cv, src, pad, stride, reflect).0),
{
    broadcast use group_manned;

    lemma_self(p);
    let on = p.flags.profile_sub;
    let z = conv_sizes(cv, src, pad, stride);
    if crate::ops::conv_fits(cv, src, pad, stride, on) {
        let col = p.fresh((z.k * z.n) as usize);
        let p1 = p.allocate(z.k * z.n);
        let out = p1.fresh((cv.cout * z.n) as usize);
        let p2 = p1.allocate(cv.cout * z.n);
        let call = Call::Im2col {
            src: src.buf.addr,
            col: col.addr,
            cin: cv.cin as i32,
            h: src.h as i32,
            w: src.w as i32,
            kh: cv.kh as i32,
            kw: cv.kw as i32,
            ph: pad as i32,
            pw: pad as i32,
            stride: stride as i32,
            oh: z.oh as i32,
            ow: z.ow as i32,
            reflect: if reflect {
                1
            } else {
                0
            },
        };
        let a = p2.push_if(on, Cmd::SubBegin);
        assert(manned(p, a));
        assert(needed(call) == z.k * z.n);
        lemma_launched(p, a, call, z.k * z.n);
        let p3 = a.launch(call, z.k * z.n).sync_if(on).push_if(
            on,
            Cmd::SubEnd {
                sub: crate::cuda::Sub::Im2col,
                elems: (z.n * cv.cout) as usize,
                flops: (z.n * cv.cout * z.k) as usize,
            },
        );
        assert(manned(p, p3));
        let cmd = Cmd::Gemm {
            role: crate::cuda::Role::Conv,
            m: z.n as i32,
            n: cv.cout as i32,
            k: z.k as i32,
            a: col.addr,
            lda: z.n as i32,
            b: cv.w.addr,
            ldb: z.k as i32,
            c: out.addr,
            ldc: z.n as i32,
        };
        let p4 = crate::ops::timed(
            p3,
            cmd,
            crate::cuda::Sub::Sgemm,
            z.n * cv.cout,
            2 * z.n * cv.cout * z.k,
        );
        assert(manned(p, p4));
        lemma_biased(p, p4, out, cv, z.n as usize);
        let p5 = crate::ops::biased(p4, out, cv.bias, cv.cout, z.n as usize);
        assert(manned(p, p5.free(col)));
    }
}

// ---------------------------------------------------------------------------
// Transposed convolutions
// ---------------------------------------------------------------------------

/// A phase has a thread for every value of its patch matrix and for every pixel that it
/// puts in its place.
pub proof fn phase_is_manned(p: Work, cv: DConvT, src: DActs, w: Dev, out: Dev, ph: nat)
    requires
        ph < 4,
        small(cv.cin as int),
        small(cv.cout as int),
        small(phase_len(src)),
        small(cv.cin * tap_count(ph) * phase_len(src)),
        small(cv.cout * phase_len(src)),
    ensures
        manned(p, phase(p, cv, src, w, out, ph)),
{
    broadcast use group_manned;

    lemma_self(p);
    if crate::ops::phase_fits(cv, src, ph) {
        let (oh, ow) = (src.h * 2, src.w * 2);
        let (py, px) = (ph / 2, ph % 2);
        let k = cv.cin * tap_count(ph);
        let n = phase_len(src);
        let col = p.fresh((k * n) as usize);
        let p1 = p.allocate(k * n);
        let part = p1.fresh((cv.cout * n) as usize);
        let p2 = p1.allocate(cv.cout * n);
        let gather = Call::ConvtCol {
            src: src.buf.addr,
            col: col.addr,
            cin: cv.cin as i32,
            h: src.h as i32,
            w: src.w as i32,
            py: py as i32,
            px: px as i32,
            taps: tap_count(ph) as i32,
            n: n as i32,
            oh: oh as i32,
            ow: ow as i32,
        };
        assert(manned(p, p2));
        lemma_launched(p, p2, gather, k * n);
        let product = Cmd::Gemm {
            role: crate::cuda::Role::Phase(ph as usize),
            m: n as i32,
            n: cv.cout as i32,
            k: k as i32,
            a: col.addr,
            lda: n as i32,
            b: w.addr,
            ldb: k as i32,
            c: part.addr,
            ldc: n as i32,
        };
        let p4 = p2.launch(gather, k * n).push(product);
        assert(manned(p, p4));
        let put = Call::ConvtPut {
            phase: part.addr,
            out: out.addr,
            bias: cv.bias.addr,
            cout: cv.cout as i32,
            n: n as i32,
            py: py as i32,
            px: px as i32,
            oh: oh as i32,
            ow: ow as i32,
            mode: 1,
        };
        lemma_launched(p, p4, put, cv.cout * n);
        assert(manned(p, p4.launch(put, cv.cout * n).free(part).free(col)));
    }
}

/// The gather kernel has a thread for every value of the output.
pub proof fn gathering_is_manned(p: Work, cv: DConvT, src: DActs)
    requires
        small(cv.cout as int),
        small(2 * src.h),
        small(2 * src.w),
        small(cv.cout * (src.h * 2) * (src.w * 2)),
    ensures
        manned(p, up_gather(p, cv, src).0),
{
    broadcast use group_manned;

    lemma_self(p);
    if crate::ops::up_fits(cv, src) {
        let (oh, ow) = (src.h * 2, src.w * 2);
        let len = cv.cout * oh * ow;
        let out = p.fresh(len as usize);
        let call = Call::ConvTranspose {
            src: src.buf.addr,
            weight: cv.w.addr,
            bias: cv.bias.addr,
            out: out.addr,
            cin: cv.cin as i32,
            cout: cv.cout as i32,
            h: src.h as i32,
            w: src.w as i32,
            oh: oh as i32,
            ow: ow as i32,
            kh: 3,
            kw: 3,
            stride: 2,
            pad: 1,
        };
        assert(manned(p, p.allocate(len)));
        lemma_launched(p, p.allocate(len), call, len);
    }
}

// ---------------------------------------------------------------------------
// Transforms
// ---------------------------------------------------------------------------

/// Stacking and pairing a half spectrum have a thread for every complex value, and the
/// scaling one for every real one.
pub proof fn transforms_are_manned(p: Work, feat: DActs, fu: DActs, half: usize)
    requires
        small(half as int),
        small(feat.h * (feat.w as int / 2 + 1)),
        small(half * feat.h * (feat.w as int / 2 + 1)),
        small(half * feat.h * feat.w),
    ensures
        manned(p, spectrum(p, feat, half).0),
        manned(p, inverted(p, feat, fu, half).0),
{
    broadcast use group_manned;

    reveal(spectrum);
    reveal(inverted);
    lemma_self(p);
    let hw = feat.w as int / 2 + 1;
    let len = 2 * half * feat.h * hw;
    let area = half * feat.h * feat.w;
    let n = half * feat.h * hw;
    assert(half * (feat.h * hw) == n) by (nonlinear_arith)
        requires
            n == half * feat.h * hw,
    ;
    if !p.flags.fft_host {
        let complex = p.fresh(len as usize);
        let there = crate::ops::plan_key(feat, half, false);
        let back = crate::ops::plan_key(feat, half, true);
        let p1 = p.allocate(len).push(Cmd::Plan { key: there }).push(
            Cmd::Fft { key: there, src: feat.buf.addr, dst: complex.addr },
        );
        let packed = p1.fresh(len as usize);
        let pack = Call::SpecPack {
            complex: complex.addr,
            packed: packed.addr,
            half: half as i32,
            plane: (feat.h * hw) as i32,
            area: feat.plane_len() as usize,
        };
        assert(manned(p, p1.allocate(len)));
        lemma_launched(p, p1.allocate(len), pack, n);
        assert(manned(p, p1.allocate(len).launch(pack, n).free(complex)));
        let unpack = Call::SpecUnpack {
            packed: fu.buf.addr,
            complex: complex.addr,
            half: half as i32,
            plane: (feat.h * hw) as i32,
        };
        assert(manned(p, p.allocate(len)));
        lemma_launched(p, p.allocate(len), unpack, n);
        let q1 = p.allocate(len).launch(unpack, n).push(Cmd::Plan { key: back });
        let out = q1.fresh(area as usize);
        let q2 = q1.allocate(area).push(
            Cmd::Fft { key: back, src: complex.addr, dst: out.addr },
        );
        assert(manned(p, q2));
        let scale = Call::Scale {
            x: out.addr,
            n: area as usize as i64,
            area: feat.plane_len() as usize,
        };
        lemma_launched(p, q2, scale, area);
        assert(manned(p, q2.launch(scale, area).free(complex)));
    }
}

} // verus!
