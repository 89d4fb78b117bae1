//! Device operations: what each records and the block it leaves behind.

use vstd::prelude::*;

use crate::cuda::{Addr, Base, Call, Cmd, Cuda, DActs, Dev, Role, StopView, Sub, Work};
use crate::fft::PlanKey;
use crate::grid::{cell, lemma_cell, lemma_position};

verus! {

broadcast use crate::cuda::group_work;

/// A convolution weight `[cout][cin][kh][kw]` with an optional bias, on the device.
#[derive(Clone, Copy, PartialEq, Eq, Structural, Debug)]
pub struct DConv {
    pub w: Dev,
    pub bias: Option<Dev>,
    pub cin: usize,
    pub cout: usize,
    pub kh: usize,
    pub kw: usize,
    /// The same weights as `[cin][cout][kh][kw]`, for the direct 7x7 kernel, which
    /// walks one input channel at a time.
    pub w_t: Option<Dev>,
}

/// Folded BatchNorm on the device.
#[derive(Clone, Copy, PartialEq, Eq, Structural, Debug)]
pub struct DBn {
    pub scale: Dev,
    pub shift: Dev,
    pub channels: usize,
}

/// The spectral (global-to-global) branch:
///
///   pooled = avg_pool2x2(x) when stride == 2 else x
///   feat   = ReLU(bn1(conv1(pooled)))
///   fu     = irfft(bn_fu(fu_conv(stack(rfft(feat)))))
///   out    = conv2(feat + fu)
#[derive(Clone, Copy, PartialEq, Eq, Structural, Debug)]
pub struct DSpectral {
    pub conv1: DConv,
    pub bn1: DBn,
    pub fu_conv: DConv,
    pub fu_bn: DBn,
    pub conv2: DConv,
    pub half: usize,
    pub stride: usize,
}

/// One fast Fourier convolution with its normalisation.
#[derive(Clone, Copy, PartialEq, Eq, Structural, Debug)]
pub struct DFfc {
    pub kernel: usize,
    pub stride: usize,
    pub pad: usize,
    pub reflect: bool,
    pub in_local: usize,
    pub in_global: usize,
    pub out_local: usize,
    pub out_global: usize,
    pub l2l: Option<DConv>,
    pub l2g: Option<DConv>,
    pub g2l: Option<DConv>,
    pub bn_l: Option<DBn>,
    pub bn_g: Option<DBn>,
    pub spectral: Option<DSpectral>,
}

/// One matrix `[cout][cin*taps]` per output phase of a transposed convolution, in
/// phase order `py*2 + px`.
#[derive(Clone, Copy, PartialEq, Eq, Structural, Debug)]
pub struct Phases {
    pub p00: Dev,
    pub p01: Dev,
    pub p10: Dev,
    pub p11: Dev,
}

impl Phases {
    pub open spec fn of(self, ph: nat) -> Dev {
        if ph == 0 {
            self.p00
        } else if ph == 1 {
            self.p01
        } else if ph == 2 {
            self.p10
        } else {
            self.p11
        }
    }

    fn get(&self, ph: usize) -> (d: Dev)
        ensures
            d == self.of(ph as nat),
    {
        if ph == 0 {
            self.p00
        } else if ph == 1 {
            self.p01
        } else if ph == 2 {
            self.p10
        } else {
            self.p11
        }
    }
}

/// A transposed convolution of stride 2, padding 1 and kernel 3.
#[derive(Clone, Copy, PartialEq, Eq, Structural, Debug)]
pub struct DConvT {
    pub w: Dev,
    pub bias: Dev,
    pub cin: usize,
    pub cout: usize,
    /// Without these the gather kernel is used.
    pub phases: Option<Phases>,
}

// ---------------------------------------------------------------------------
// Sizes
// ---------------------------------------------------------------------------

/// Whether a product can be computed from the left.
pub open spec fn fits3(a: int, b: int, c: int) -> bool {
    &&& a * b <= usize::MAX
    &&& a * b * c <= usize::MAX
}

/// Whether a product can be computed from the left.
pub open spec fn fits4(a: int, b: int, c: int, d: int) -> bool {
    &&& a * b <= usize::MAX
    &&& a * b * c <= usize::MAX
    &&& a * b * c * d <= usize::MAX
}

fn product3(a: usize, b: usize, c: usize) -> (r: Option<usize>)
    ensures
        r.is_some() == fits3(a as int, b as int, c as int),
        r matches Some(n) ==> n == a * b * c,
{
    match a.checked_mul(b) {
        Some(ab) => ab.checked_mul(c),
        None => None,
    }
}

fn product4(a: usize, b: usize, c: usize, d: usize) -> (r: Option<usize>)
    ensures
        r.is_some() == fits4(a as int, b as int, c as int, d as int),
        r matches Some(n) ==> n == a * b * c * d,
{
    match product3(a, b, c) {
        Some(abc) => abc.checked_mul(d),
        None => None,
    }
}

/// A block of no channels that nothing was allocated for.
pub open spec fn nothing() -> DActs {
    DActs {
        buf: Dev { addr: Addr { base: Base::Blob, offset: 0 }, len: 0, owned: false },
        c: 0,
        h: 0,
        w: 0,
    }
}

fn no_acts() -> (r: DActs)
    ensures
        r == nothing(),
{
    DActs {
        buf: Dev { addr: Addr { base: Base::Blob, offset: 0 }, len: 0, owned: false },
        c: 0,
        h: 0,
        w: 0,
    }
}

// ---------------------------------------------------------------------------
// Elementwise operations
// ---------------------------------------------------------------------------

/// Whether the values that a normalisation of `channels` planes touches can be
/// counted.
pub open spec fn planes_fit(x: DActs, channels: usize) -> bool {
    &&& x.plane_len() <= usize::MAX
    &&& x.plane_len() * channels <= usize::MAX
}

/// BatchNorm and ReLU in place.
#[verifier::opaque]
pub open spec fn bn_relu(p: Work, x: DActs, bn: DBn) -> Work {
    if planes_fit(x, bn.channels) {
        p.launch(
            Call::BnRelu {
                x: x.buf.addr,
                scale: bn.scale.addr,
                shift: bn.shift.addr,
                plane: x.plane_len() as i64,
                channels: bn.channels as i32,
            },
            x.plane_len() * bn.channels,
        )
    } else {
        p.halt(StopView::Misfit)
    }
}

/// BatchNorm + ReLU in place, using the folded scale and shift.
pub fn bn_relu_inplace(c: &mut Cuda, x: &DActs, bn: &DBn)
    ensures
        final(c)@ == bn_relu(old(c)@, *x, *bn),
{
    reveal(bn_relu);
    match product3(x.h, x.w, bn.channels) {
        Some(n) => {
            let plane = x.plane();
            c.launch_kernel(
                Call::BnRelu {
                    x: x.buf.addr,
                    scale: bn.scale.addr,
                    shift: bn.shift.addr,
                    plane: plane as i64,
                    channels: bn.channels as i32,
                },
                n,
            );
        },
        None => {
            c.misfit();
        },
    }
}

/// The place of a block that may be absent.
pub open spec fn addr_of(a: Option<DActs>) -> Option<Addr> {
    match a {
        Some(a) => Some(a.buf.addr),
        None => None,
    }
}

/// BatchNorm, ReLU and the residual add in place.
#[verifier::opaque]
pub open spec fn bn_relu_add(p: Work, x: DActs, bn: DBn, skip: Option<DActs>) -> Work {
    if planes_fit(x, bn.channels) {
        p.launch(
            Call::BnReluAdd {
                x: x.buf.addr,
                skip: addr_of(skip),
                scale: bn.scale.addr,
                shift: bn.shift.addr,
                plane: x.plane_len() as i64,
                channels: bn.channels as i32,
            },
            x.plane_len() * bn.channels,
        )
    } else {
        p.halt(StopView::Misfit)
    }
}

/// BatchNorm + ReLU + residual add in one pass: `x = relu(scale*x + shift) + skip`.
pub fn bn_relu_add_inplace(c: &mut Cuda, x: &DActs, bn: &DBn, skip: &Option<DActs>)
    ensures
        final(c)@ == bn_relu_add(old(c)@, *x, *bn, *skip),
{
    reveal(bn_relu_add);
    match product3(x.h, x.w, bn.channels) {
        Some(n) => {
            let plane = x.plane();
            let skip = match skip {
                Some(s) => Some(s.buf.addr),
                None => None,
            };
            c.launch_kernel(
                Call::BnReluAdd {
                    x: x.buf.addr,
                    skip,
                    scale: bn.scale.addr,
                    shift: bn.shift.addr,
                    plane: plane as i64,
                    channels: bn.channels as i32,
                },
                n,
            );
        },
        None => {
            c.misfit();
        },
    }
}

/// The sigmoid in place.
pub open spec fn sigmoid(p: Work, x: DActs) -> Work {
    p.launch(Call::Sigmoid { x: x.buf.addr, n: x.buf.len as i64 }, x.buf.len as int)
}

pub fn sigmoid_inplace(c: &mut Cuda, x: &DActs)
    ensures
        final(c)@ == sigmoid(old(c)@, *x),
{
    c.launch_kernel(Call::Sigmoid { x: x.buf.addr, n: x.buf.len as i64 }, x.buf.len);
}

/// Adding `b` to `a` in place.
#[verifier::opaque]
pub open spec fn sum(p: Work, a: DActs, b: DActs) -> Work {
    p.launch(
        Call::AddInplace { a: a.buf.addr, b: b.buf.addr, n: a.buf.len as i64 },
        a.buf.len as int,
    )
}

pub fn add_inplace(c: &mut Cuda, a: &DActs, b: &DActs)
    ensures
        final(c)@ == sum(old(c)@, *a, *b),
{
    reveal(sum);
    c.launch_kernel(
        Call::AddInplace { a: a.buf.addr, b: b.buf.addr, n: a.buf.len as i64 },
        a.buf.len,
    );
}

/// Scaling `n` floats in place by the reciprocal of the square root of `area`.
pub open spec fn scaled(p: Work, x: Addr, n: usize, area: usize) -> Work {
    p.launch(Call::Scale { x, n: n as i64, area }, n as int)
}

/// In-place scaling of `n` device floats, for the unnormalised transforms, which
/// need the ortho factor.
pub fn scale_inplace(c: &mut Cuda, x: Addr, n: usize, area: usize)
    ensures
        final(c)@ == scaled(old(c)@, x, n, area),
{
    c.launch_kernel(Call::Scale { x, n: n as i64, area }, n);
}

// ---------------------------------------------------------------------------
// Padding, pooling, copying
// ---------------------------------------------------------------------------

/// Whether a block padded on all sides can be counted.
pub open spec fn pad_fits(src: DActs, pad: usize) -> bool {
    &&& src.h + 2 * pad <= usize::MAX
    &&& src.w + 2 * pad <= usize::MAX
    &&& fits3(src.c as int, src.h + 2 * pad, src.w + 2 * pad)
}

/// The work of padding and the padded block.
#[verifier::opaque]
pub open spec fn padded(p: Work, src: DActs, pad: usize) -> (Work, DActs) {
    if pad_fits(src, pad) {
        let (oh, ow) = (src.h + 2 * pad, src.w + 2 * pad);
        let n = src.c * oh * ow;
        let out = p.fresh(n as usize);
        (
            p.allocate(n).launch(
                Call::ReflectPad {
                    src: src.buf.addr,
                    out: out.addr,
                    c: src.c as i32,
                    h: src.h as i32,
                    w: src.w as i32,
                    pad: pad as i32,
                },
                n,
            ),
            DActs { buf: out, c: src.c, h: oh as usize, w: ow as usize },
        )
    } else {
        (p.halt(StopView::Misfit), nothing())
    }
}

/// Pad both extents on both sides by reflection.
pub fn reflect_pad(c: &mut Cuda, src: &DActs, pad: usize) -> (r: DActs)
    ensures
        (final(c)@, r) == padded(old(c)@, *src, pad),
{
    reveal(padded);
    let most: usize = usize::MAX;
    if pad > most / 2 || src.h > most - 2 * pad || src.w > most - 2 * pad {
        c.misfit();
        return no_acts();
    }
    let oh: usize = src.h + 2 * pad;
    let ow: usize = src.w + 2 * pad;
    match product3(src.c, oh, ow) {
        Some(n) => {
            let out = c.allocate(n);
            c.launch_kernel(
                Call::ReflectPad {
                    src: src.buf.addr,
                    out: out.addr,
                    c: src.c as i32,
                    h: src.h as i32,
                    w: src.w as i32,
                    pad: pad as i32,
                },
                n,
            );
            DActs { buf: out, c: src.c, h: oh, w: ow }
        },
        None => {
            c.misfit();
            no_acts()
        },
    }
}

/// The work of halving both extents and the block with the averages.
#[verifier::opaque]
pub open spec fn pooled(p: Work, src: DActs) -> (Work, DActs) {
    let (oh, ow) = (src.h / 2, src.w / 2);
    if fits3(src.c as int, oh as int, ow as int) {
        let n = src.c * oh * ow;
        let out = p.fresh(n as usize);
        (
            p.allocate(n).launch(
                Call::Avgpool2x2 {
                    src: src.buf.addr,
                    out: out.addr,
                    c: src.c as i32,
                    h: src.h as i32,
                    w: src.w as i32,
                },
                n,
            ),
            DActs { buf: out, c: src.c, h: oh, w: ow },
        )
    } else {
        (p.halt(StopView::Misfit), nothing())
    }
}

/// Average over squares of two by two.
pub fn avgpool2x2(c: &mut Cuda, src: &DActs) -> (r: DActs)
    ensures
        (final(c)@, r) == pooled(old(c)@, *src),
{
    reveal(pooled);
    let (oh, ow) = (src.h / 2, src.w / 2);
    match product3(src.c, oh, ow) {
        Some(n) => {
            let out = c.allocate(n);
            c.launch_kernel(
                Call::Avgpool2x2 {
                    src: src.buf.addr,
                    out: out.addr,
                    c: src.c as i32,
                    h: src.h as i32,
                    w: src.w as i32,
                },
                n,
            );
            DActs { buf: out, c: src.c, h: oh, w: ow }
        },
        None => {
            c.misfit();
            no_acts()
        },
    }
}

/// The work of copying a block and the copy.
#[verifier::opaque]
pub open spec fn copied(p: Work, src: DActs) -> (Work, DActs) {
    let out = p.fresh(src.buf.len);
    (
        p.allocate(src.buf.len as int).launch(
            Call::CopyPlane { src: src.buf.addr, out: out.addr, n: src.buf.len as i64 },
            src.buf.len as int,
        ),
        DActs { buf: out, c: src.c, h: src.h, w: src.w },
    )
}

pub fn copy_acts(c: &mut Cuda, src: &DActs) -> (r: DActs)
    ensures
        (final(c)@, r) == copied(old(c)@, *src),
{
    reveal(copied);
    let out = c.allocate(src.buf.len);
    c.launch_kernel(
        Call::CopyPlane { src: src.buf.addr, out: out.addr, n: src.buf.len as i64 },
        src.buf.len,
    );
    DActs { buf: out, c: src.c, h: src.h, w: src.w }
}

/// Whether two blocks can be laid one after the other.
pub open spec fn concat_fits(a: DActs, g: DActs) -> bool {
    &&& (a.buf.len + g.buf.len) * 4 <= usize::MAX
    &&& a.c + g.c <= usize::MAX
}

/// The work of stacking two blocks along their channels, and the stack.
#[verifier::opaque]
pub open spec fn concatenated(p: Work, a: DActs, g: DActs) -> (Work, DActs) {
    if concat_fits(a, g) {
        let len = (a.buf.len + g.buf.len) as usize;
        let out = p.fresh(len);
        let second = Addr { base: out.addr.base, offset: (a.buf.len * 4) as usize };
        (
            p.allocate(len as int).launch(
                Call::CopyPlane { src: a.buf.addr, out: out.addr, n: a.buf.len as i64 },
                a.buf.len as int,
            ).launch(
                Call::CopyPlane { src: g.buf.addr, out: second, n: g.buf.len as i64 },
                g.buf.len as int,
            ),
            DActs { buf: out, c: (a.c + g.c) as usize, h: a.h, w: a.w },
        )
    } else {
        (p.halt(StopView::Misfit), nothing())
    }
}

/// Concatenate two activation blocks along channels.
pub fn concat_acts(c: &mut Cuda, a: &DActs, g: &DActs) -> (r: DActs)
    ensures
        (final(c)@, r) == concatenated(old(c)@, *a, *g),
{
    reveal(concatenated);
    let most: usize = usize::MAX;
    if a.buf.len > most / 4 || g.buf.len > most / 4 - a.buf.len || a.c > most - g.c {
        c.misfit();
        return no_acts();
    }
    let out = c.allocate(a.buf.len + g.buf.len);
    c.launch_kernel(
        Call::CopyPlane { src: a.buf.addr, out: out.addr, n: a.buf.len as i64 },
        a.buf.len,
    );
    let second = Addr { base: out.addr.base, offset: a.buf.len * 4 };
    c.launch_kernel(
        Call::CopyPlane { src: g.buf.addr, out: second, n: g.buf.len as i64 },
        g.buf.len,
    );
    DActs { buf: out, c: a.c + g.c, h: a.h, w: a.w }
}

// ---------------------------------------------------------------------------
// Convolutions
// ---------------------------------------------------------------------------

/// Adding a per-channel bias to a `[cout][n]` plane, where there is one.
pub open spec fn biased(p: Work, out: Dev, bias: Option<Dev>, cout: usize, n: usize) -> Work {
    match bias {
        Some(b) => p.launch(
            Call::BiasPlane { out: out.addr, bias: b.addr, cout: cout as i32, n: n as i64 },
            cout * n,
        ),
        None => p,
    }
}

/// Add a per-channel bias to a `[cout][n]` plane in place.
pub fn bias_plane(c: &mut Cuda, out: &Dev, bias: &Dev, cout: usize, n: usize)
    requires
        cout * n <= usize::MAX,
    ensures
        final(c)@ == biased(old(c)@, *out, Some(*bias), cout, n),
{
    c.launch_kernel(
        Call::BiasPlane { out: out.addr, bias: bias.addr, cout: cout as i32, n: n as i64 },
        cout * n,
    );
}

/// The output extent of a convolution.
pub open spec fn conv_extent(len: int, pad: int, kernel: int, stride: int) -> int {
    (len + 2 * pad - kernel) / stride + 1
}

/// Whether the output extent of a convolution can be computed.
pub open spec fn extent_fits(len: int, pad: int, kernel: int, stride: int) -> bool {
    &&& len + 2 * pad <= usize::MAX
    &&& kernel <= len + 2 * pad
    &&& 0 < stride
    &&& conv_extent(len, pad, kernel, stride) <= usize::MAX
}

fn extent_of(len: usize, pad: usize, kernel: usize, stride: usize) -> (r: Option<usize>)
    ensures
        r.is_some() == extent_fits(len as int, pad as int, kernel as int, stride as int),
        r matches Some(n) ==> n == conv_extent(
            len as int,
            pad as int,
            kernel as int,
            stride as int,
        ),
{
    let most: usize = usize::MAX;
    if pad > most / 2 || len > most - 2 * pad || kernel > len + 2 * pad || stride == 0 {
        return None;
    }
    ((len + 2 * pad - kernel) / stride).checked_add(1)
}

/// Whether the work of a matrix product can be counted, where that is asked for.
pub open spec fn flops_fit(on: bool, n: int, cout: int, k: int) -> bool {
    on ==> {
        &&& n * cout * k <= usize::MAX
        &&& fits4(2, n, cout, k)
    }
}

fn count_flops(on: bool, n: usize, cout: usize, k: usize) -> (r: Option<(usize, usize)>)
    requires
        n * cout <= usize::MAX,
    ensures
        r.is_some() == flops_fit(on, n as int, cout as int, k as int),
        r matches Some(f) ==> on ==> f.0 == n * cout * k && f.1 == 2 * n * cout * k,
{
    if !on {
        return Some((0, 0));
    }
    match ((n * cout).checked_mul(k), product4(2, n, cout, k)) {
        (Some(a), Some(b)) => Some((a, b)),
        _ => None,
    }
}

/// The sizes of a convolution by way of a patch matrix: the output extents, the
/// patch length and the output plane.
pub ghost struct ConvSizes {
    pub oh: int,
    pub ow: int,
    pub k: int,
    pub n: int,
}

pub open spec fn conv_sizes(cv: DConv, src: DActs, pad: usize, stride: usize) -> ConvSizes {
    let oh = conv_extent(src.h as int, pad as int, cv.kh as int, stride as int);
    let ow = conv_extent(src.w as int, pad as int, cv.kw as int, stride as int);
    ConvSizes { oh, ow, k: cv.cin * cv.kh * cv.kw, n: oh * ow }
}

/// Whether the sizes of a convolution can be computed.
pub open spec fn conv_fits(cv: DConv, src: DActs, pad: usize, stride: usize, sub: bool) -> bool {
    let z = conv_sizes(cv, src, pad, stride);
    &&& extent_fits(src.h as int, pad as int, cv.kh as int, stride as int)
    &&& extent_fits(src.w as int, pad as int, cv.kw as int, stride as int)
    &&& fits3(cv.cin as int, cv.kh as int, cv.kw as int)
    &&& z.n <= usize::MAX
    &&& z.k * z.n <= usize::MAX
    &&& cv.cout * z.n <= usize::MAX
    &&& flops_fit(sub, z.n, cv.cout as int, z.k)
}

/// Recording a matrix product, with its time where that is asked for.
pub open spec fn timed(p: Work, cmd: Cmd, sub: Sub, elems: int, flops: int) -> Work {
    let on = p.flags.profile_sub;
    p.push_if(on, Cmd::SubBegin).push(cmd).sync_if(on).push_if(
        on,
        Cmd::SubEnd { sub, elems: elems as usize, flops: flops as usize },
    )
}

/// The patch matrix `[cin*kh*kw][oh*ow]` and then one matrix product: the row-major
/// patch matrix is read as an `(oh*ow) x (cin*kh*kw)` column-major one, and the
/// weights as `(cin*kh*kw) x cout`, so their product is the row-major output.
pub open spec fn patch_conv(
    p: Work,
    cv: DConv,
    src: DActs,
    pad: usize,
    stride: usize,
    reflect: bool,
) -> (Work, DActs) {
    let on = p.flags.profile_sub;
    let z = conv_sizes(cv, src, pad, stride);
    if conv_fits(cv, src, pad, stride, on) {
        let col = p.fresh((z.k * z.n) as usize);
        let p1 = p.allocate(z.k * z.n);
        let out = p1.fresh((cv.cout * z.n) as usize);
        let p2 = p1.allocate(cv.cout * z.n);
        let p3 = p2.push_if(on, Cmd::SubBegin).launch(
            Call::Im2col {
                src: src.buf.addr,
                col: col.addr,
                cin: cv.cin as i32,
                h: src.h as i32,
                w: src.w as i32,
                kh: cv.kh as i32,
                kw: cv.kw as i32,
                ph: pad as i32,
                pw: pad as i32,
                stride: stride as i32,
                oh: z.oh as i32,
                ow: z.ow as i32,
                reflect: if reflect {
                    1
                } else {
                    0
                },
            },
            z.k * z.n,
        ).sync_if(on).push_if(
            on,
            Cmd::SubEnd {
                sub: Sub::Im2col,
                elems: (z.n * cv.cout) as usize,
                flops: (z.n * cv.cout * z.k) as usize,
            },
        );
        let p4 = timed(
            p3,
            Cmd::Gemm {
                role: Role::Conv,
                m: z.n as i32,
                n: cv.cout as i32,
                k: z.k as i32,
                a: col.addr,
                lda: z.n as i32,
                b: cv.w.addr,
                ldb: z.k as i32,
                c: out.addr,
                ldc: z.n as i32,
            },
            Sub::Sgemm,
            z.n * cv.cout,
            2 * z.n * cv.cout * z.k,
        );
        let p5 = biased(p4, out, cv.bias, cv.cout, z.n as usize);
        (p5.free(col), DActs { buf: out, c: cv.cout, h: z.oh as usize, w: z.ow as usize })
    } else {
        (p.halt(StopView::Misfit), nothing())
    }
}

/// Whether the sizes of a 1x1 convolution can be computed.
pub open spec fn pointwise_fits(cv: DConv, src: DActs, sub: bool) -> bool {
    &&& src.plane_len() <= usize::MAX
    &&& cv.cout * src.plane_len() <= usize::MAX
    &&& flops_fit(sub, src.plane_len(), cv.cout as int, cv.cin as int)
}

/// A 1x1 convolution is a channel product over `[cin][n]` planes: one matrix
/// product and no patch matrix.
pub open spec fn pointwise(p: Work, cv: DConv, src: DActs) -> (Work, DActs) {
    let n = src.plane_len();
    if pointwise_fits(cv, src, p.flags.profile_sub) {
        let out = p.fresh((cv.cout * n) as usize);
        let p1 = timed(
            p.allocate(cv.cout * n),
            Cmd::Gemm {
                role: Role::Conv1x1,
                m: n as i32,
                n: cv.cout as i32,
                k: cv.cin as i32,
                a: src.buf.addr,
                lda: n as i32,
                b: cv.w.addr,
                ldb: cv.cin as i32,
                c: out.addr,
                ldc: n as i32,
            },
            Sub::Sgemm1x1,
            n * cv.cout,
            2 * n * cv.cout * cv.cin,
        );
        (
            biased(p1, out, cv.bias, cv.cout, n as usize),
            DActs { buf: out, c: cv.cout, h: src.h, w: src.w },
        )
    } else {
        (p.halt(StopView::Misfit), nothing())
    }
}

/// Whether the sizes of a direct 7x7 convolution can be computed.
pub open spec fn direct_fits(cv: DConv, src: DActs) -> bool {
    &&& 6 <= src.h
    &&& 6 <= src.w
    &&& fits3(cv.cout as int, src.h - 6, src.w - 6)
    &&& (src.h - 6) * (src.w - 6) <= usize::MAX
}

/// A 7x7 convolution without a patch matrix, with one thread per output pixel,
/// reading the weights `w_t`.
pub open spec fn direct(p: Work, cv: DConv, src: DActs, w_t: Dev) -> (Work, DActs) {
    if direct_fits(cv, src) {
        let (oh, ow) = (src.h - 6, src.w - 6);
        let out = p.fresh((cv.cout * oh * ow) as usize);
        (
            p.allocate(cv.cout * oh * ow).launch(
                Call::Conv7x7 {
                    src: src.buf.addr,
                    weight: w_t.addr,
                    bias: match cv.bias {
                        Some(b) => Some(b.addr),
                        None => None,
                    },
                    out: out.addr,
                    cin: cv.cin as i32,
                    cout: cv.cout as i32,
                    h_in: src.h as i32,
                    w_in: src.w as i32,
                    h_out: oh as i32,
                    w_out: ow as i32,
                },
                oh * ow,
            ),
            DActs { buf: out, c: cv.cout, h: oh as usize, w: ow as usize },
        )
    } else {
        (p.halt(StopView::Misfit), nothing())
    }
}

/// A direct 7x7 convolution with the reordered weights of `cv`, which must be there.
pub open spec fn direct_conv(p: Work, cv: DConv, src: DActs) -> (Work, DActs) {
    match cv.w_t {
        Some(w_t) => direct(p, cv, src, w_t),
        None => (
            p.halt(StopView::Fault("conv_7x7_direct without a transposed weight"@)),
            nothing(),
        ),
    }
}

/// The work of a convolution, and its output. A 1x1 convolution of stride 1 is a
/// matrix product, a 7x7 one of stride 1 without padding has a kernel of its own
/// where the reordered weights are there, and everything else goes by way of a
/// patch matrix.
#[verifier::opaque]
pub open spec fn conv(
    p: Work,
    cv: DConv,
    src: DActs,
    pad: usize,
    stride: usize,
    reflect: bool,
) -> (Work, DActs) {
    if cv.kh == 1 && cv.kw == 1 && stride == 1 {
        pointwise(p, cv, src)
    } else if cv.kh == 7 && cv.kw == 7 && stride == 1 && pad == 0 && cv.w_t is Some {
        direct_conv(p, cv, src)
    } else {
        patch_conv(p, cv, src, pad, stride, reflect)
    }
}

fn bias_if(c: &mut Cuda, out: &Dev, bias: &Option<Dev>, cout: usize, n: usize)
    requires
        cout * n <= usize::MAX,
    ensures
        final(c)@ == biased(old(c)@, *out, *bias, cout, n),
{
    match bias {
        Some(b) => {
            bias_plane(c, out, b, cout, n);
        },
        None => {},
    }
}

/// A convolution by way of a patch matrix and one matrix product.
fn conv_patches(
    c: &mut Cuda,
    cv: &DConv,
    src: &DActs,
    pad: usize,
    stride: usize,
    reflect: bool,
) -> (r: DActs)
    ensures
        (final(c)@, r) == patch_conv(old(c)@, *cv, *src, pad, stride, reflect),
{
    let on = c.flags.profile_sub;
    let (oh, ow, k) = match (
        extent_of(src.h, pad, cv.kh, stride),
        extent_of(src.w, pad, cv.kw, stride),
        product3(cv.cin, cv.kh, cv.kw),
    ) {
        (Some(oh), Some(ow), Some(k)) => (oh, ow, k),
        _ => {
            c.misfit();
            return no_acts();
        },
    };
    let n = match oh.checked_mul(ow) {
        Some(n) => n,
        None => {
            c.misfit();
            return no_acts();
        },
    };
    let (kn, on_len) = match (k.checked_mul(n), cv.cout.checked_mul(n)) {
        (Some(kn), Some(l)) => (kn, l),
        _ => {
            c.misfit();
            return no_acts();
        },
    };
    assert(n * cv.cout == cv.cout * n) by (nonlinear_arith);
    let (moved, flops) = match count_flops(on, n, cv.cout, k) {
        Some(f) => f,
        None => {
            c.misfit();
            return no_acts();
        },
    };
    let col = c.allocate(kn);
    let out = c.allocate(on_len);
    c.push_if(on, Cmd::SubBegin);
    c.launch_kernel(
        Call::Im2col {
            src: src.buf.addr,
            col: col.addr,
            cin: cv.cin as i32,
            h: src.h as i32,
            w: src.w as i32,
            kh: cv.kh as i32,
            kw: cv.kw as i32,
            ph: pad as i32,
            pw: pad as i32,
            stride: stride as i32,
            oh: oh as i32,
            ow: ow as i32,
            reflect: if reflect {
                1
            } else {
                0
            },
        },
        kn,
    );
    c.push_if(on, Cmd::Sync);
    c.push_if(on, Cmd::SubEnd { sub: Sub::Im2col, elems: on_len, flops: moved });
    c.push_if(on, Cmd::SubBegin);
    c.push(
        Cmd::Gemm {
            role: Role::Conv,
            m: n as i32,
            n: cv.cout as i32,
            k: k as i32,
            a: col.addr,
            lda: n as i32,
            b: cv.w.addr,
            ldb: k as i32,
            c: out.addr,
            ldc: n as i32,
        },
    );
    c.push_if(on, Cmd::Sync);
    c.push_if(on, Cmd::SubEnd { sub: Sub::Sgemm, elems: on_len, flops });
    bias_if(c, &out, &cv.bias, cv.cout, n);
    c.free(&col);
    DActs { buf: out, c: cv.cout, h: oh, w: ow }
}

/// A 1x1 convolution: a single matrix product.
pub fn conv_1x1(c: &mut Cuda, cv: &DConv, src: &DActs) -> (r: DActs)
    ensures
        (final(c)@, r) == pointwise(old(c)@, *cv, *src),
{
    let on = c.flags.profile_sub;
    let n = match src.h.checked_mul(src.w) {
        Some(n) => n,
        None => {
            c.misfit();
            return no_acts();
        },
    };
    let len = match cv.cout.checked_mul(n) {
        Some(l) => l,
        None => {
            c.misfit();
            return no_acts();
        },
    };
    assert(n * cv.cout == cv.cout * n) by (nonlinear_arith);
    let (_, flops) = match count_flops(on, n, cv.cout, cv.cin) {
        Some(f) => f,
        None => {
            c.misfit();
            return no_acts();
        },
    };
    let out = c.allocate(len);
    c.push_if(on, Cmd::SubBegin);
    c.push(
        Cmd::Gemm {
            role: Role::Conv1x1,
            m: n as i32,
            n: cv.cout as i32,
            k: cv.cin as i32,
            a: src.buf.addr,
            lda: n as i32,
            b: cv.w.addr,
            ldb: cv.cin as i32,
            c: out.addr,
            ldc: n as i32,
        },
    );
    c.push_if(on, Cmd::Sync);
    c.push_if(on, Cmd::SubEnd { sub: Sub::Sgemm1x1, elems: len, flops });
    bias_if(c, &out, &cv.bias, cv.cout, n);
    DActs { buf: out, c: cv.cout, h: src.h, w: src.w }
}

/// A direct 7x7 convolution, one thread per output pixel.
pub fn conv_7x7_direct(c: &mut Cuda, cv: &DConv, src: &DActs) -> (r: DActs)
    ensures
        (final(c)@, r) == direct_conv(old(c)@, *cv, *src),
{
    let w_t = match &cv.w_t {
        Some(w_t) => w_t,
        None => {
            c.fault("conv_7x7_direct without a transposed weight".to_owned());
            return no_acts();
        },
    };
    if src.h < 6 || src.w < 6 {
        c.misfit();
        return no_acts();
    }
    let (oh, ow) = (src.h - 6, src.w - 6);
    match (product3(cv.cout, oh, ow), oh.checked_mul(ow)) {
        (Some(len), Some(n)) => {
            let out = c.allocate(len);
            let bias = match &cv.bias {
                Some(b) => Some(b.addr),
                None => None,
            };
            c.launch_kernel(
                Call::Conv7x7 {
                    src: src.buf.addr,
                    weight: w_t.addr,
                    bias,
                    out: out.addr,
                    cin: cv.cin as i32,
                    cout: cv.cout as i32,
                    h_in: src.h as i32,
                    w_in: src.w as i32,
                    h_out: oh as i32,
                    w_out: ow as i32,
                },
                n,
            );
            DActs { buf: out, c: cv.cout, h: oh, w: ow }
        },
        _ => {
            c.misfit();
            no_acts()
        },
    }
}

/// A convolution, in the way that suits its shape.
pub fn conv_forward(
    c: &mut Cuda,
    cv: &DConv,
    src: &DActs,
    pad: usize,
    stride: usize,
    reflect: bool,
) -> (r: DActs)
    ensures
        (final(c)@, r) == conv(old(c)@, *cv, *src, pad, stride, reflect),
{
    reveal(conv);
    if cv.kh == 1 && cv.kw == 1 && stride == 1 {
        return conv_1x1(c, cv, src);
    }
    if cv.kh == 7 && cv.kw == 7 && stride == 1 && pad == 0 && cv.w_t.is_some() {
        return conv_7x7_direct(c, cv, src);
    }
    conv_patches(c, cv, src, pad, stride, reflect)
}

// ---------------------------------------------------------------------------
// Transposed convolutions
// ---------------------------------------------------------------------------

/// How many taps contribute to the outputs of a phase.
pub open spec fn tap_count(ph: nat) -> usize {
    if ph == 0 {
        1
    } else if ph < 3 {
        2
    } else {
        4
    }
}

/// The number of contributing taps of a phase.
pub fn taps_of(ph: usize) -> (r: usize)
    ensures
        r == tap_count(ph as nat),
{
    if ph == 0 {
        1
    } else if ph < 3 {
        2
    } else {
        4
    }
}

/// The output pixels of one phase, per channel.
pub open spec fn phase_len(src: DActs) -> int {
    ((src.h * 2 + 1) / 2) * ((src.w * 2 + 1) / 2)
}

/// Whether the output of a transposed convolution can be counted.
pub open spec fn up_fits(cv: DConvT, src: DActs) -> bool {
    &&& src.h * 2 <= usize::MAX
    &&& src.w * 2 <= usize::MAX
    &&& fits3(cv.cout as int, src.h * 2, src.w * 2)
}

/// Whether the sizes of one phase can be computed.
pub open spec fn phase_fits(cv: DConvT, src: DActs, ph: nat) -> bool {
    &&& src.h * 2 < usize::MAX
    &&& src.w * 2 < usize::MAX
    &&& phase_len(src) <= usize::MAX
    &&& cv.cin * tap_count(ph) <= usize::MAX
    &&& cv.cin * tap_count(ph) * phase_len(src) <= usize::MAX
    &&& cv.cout * phase_len(src) <= usize::MAX
}

/// One phase: gather the patch matrix, multiply by the phase's weights, and put
/// the outputs, with the bias, in their places.
pub open spec fn phase(p: Work, cv: DConvT, src: DActs, w: Dev, out: Dev, ph: nat) -> Work {
    if phase_fits(cv, src, ph) {
        let (oh, ow) = (src.h * 2, src.w * 2);
        let (py, px) = (ph / 2, ph % 2);
        let k = cv.cin * tap_count(ph);
        let n = phase_len(src);
        let col = p.fresh((k * n) as usize);
        let p1 = p.allocate(k * n);
        let part = p1.fresh((cv.cout * n) as usize);
        p1.allocate(cv.cout * n).launch(
            Call::ConvtCol {
                src: src.buf.addr,
                col: col.addr,
                cin: cv.cin as i32,
                h: src.h as i32,
                w: src.w as i32,
                py: py as i32,
                px: px as i32,
                taps: tap_count(ph) as i32,
                n: n as i32,
                oh: oh as i32,
                ow: ow as i32,
            },
            k * n,
        ).push(
            Cmd::Gemm {
                role: Role::Phase(ph as usize),
                m: n as i32,
                n: cv.cout as i32,
                k: k as i32,
                a: col.addr,
                lda: n as i32,
                b: w.addr,
                ldb: k as i32,
                c: part.addr,
                ldc: n as i32,
            },
        ).launch(
            Call::ConvtPut {
                phase: part.addr,
                out: out.addr,
                bias: cv.bias.addr,
                cout: cv.cout as i32,
                n: n as i32,
                py: py as i32,
                px: px as i32,
                oh: oh as i32,
                ow: ow as i32,
                mode: 1,
            },
            cv.cout * n,
        ).free(part).free(col)
    } else {
        p.halt(StopView::Misfit)
    }
}

/// The first `count` phases, one after the other.
pub open spec fn phases_done(
    p: Work,
    cv: DConvT,
    src: DActs,
    w: Phases,
    out: Dev,
    count: nat,
) -> Work
    decreases count,
{
    if count == 0 {
        p
    } else {
        let ph = (count - 1) as nat;
        phase(phases_done(p, cv, src, w, out, ph), cv, src, w.of(ph), out, ph)
    }
}

/// A transposed convolution phase by phase, and its output.
#[verifier::opaque]
pub open spec fn up_phases(p: Work, cv: DConvT, src: DActs, w: Phases) -> (Work, DActs) {
    if up_fits(cv, src) {
        let len = cv.cout * (src.h * 2) * (src.w * 2);
        let out = p.fresh(len as usize);
        (
            phases_done(p.allocate(len), cv, src, w, out, 4),
            DActs { buf: out, c: cv.cout, h: (src.h * 2) as usize, w: (src.w * 2) as usize },
        )
    } else {
        (p.halt(StopView::Misfit), nothing())
    }
}

/// A transposed convolution with the gather kernel, and its output.
pub open spec fn up_gather(p: Work, cv: DConvT, src: DActs) -> (Work, DActs) {
    if up_fits(cv, src) {
        let (oh, ow) = (src.h * 2, src.w * 2);
        let len = cv.cout * oh * ow;
        let out = p.fresh(len as usize);
        (
            p.allocate(len).launch(
                Call::ConvTranspose {
                    src: src.buf.addr,
                    weight: cv.w.addr,
                    bias: cv.bias.addr,
                    out: out.addr,
                    cin: cv.cin as i32,
                    cout: cv.cout as i32,
                    h: src.h as i32,
                    w: src.w as i32,
                    oh: oh as i32,
                    ow: ow as i32,
                    kh: 3,
                    kw: 3,
                    stride: 2,
                    pad: 1,
                },
                len,
            ),
            DActs { buf: out, c: cv.cout, h: oh as usize, w: ow as usize },
        )
    } else {
        (p.halt(StopView::Misfit), nothing())
    }
}

fn up_size(cv: &DConvT, src: &DActs) -> (r: Option<(usize, usize, usize)>)
    ensures
        r.is_some() == up_fits(*cv, *src),
        r matches Some(z) ==> z.0 == src.h * 2 && z.1 == src.w * 2 && z.2 == cv.cout * (src.h * 2)
            * (src.w * 2),
{
    match (src.h.checked_mul(2), src.w.checked_mul(2)) {
        (Some(oh), Some(ow)) => match product3(cv.cout, oh, ow) {
            Some(len) => Some((oh, ow, len)),
            None => None,
        },
        _ => None,
    }
}

fn run_phase(c: &mut Cuda, cv: &DConvT, src: &DActs, w: &Dev, out: &Dev, ph: usize)
    requires
        src.h * 2 <= usize::MAX,
        src.w * 2 <= usize::MAX,
    ensures
        final(c)@ == phase(old(c)@, *cv, *src, *w, *out, ph as nat),
{
    let oh: usize = src.h * 2;
    let ow: usize = src.w * 2;
    if oh == usize::MAX || ow == usize::MAX {
        c.misfit();
        return;
    }
    let taps = taps_of(ph);
    let (py, px) = (ph / 2, ph % 2);
    let (n, k) = match (((oh + 1) / 2).checked_mul((ow + 1) / 2), cv.cin.checked_mul(taps)) {
        (Some(n), Some(k)) => (n, k),
        _ => {
            c.misfit();
            return;
        },
    };
    let (kn, len) = match (k.checked_mul(n), cv.cout.checked_mul(n)) {
        (Some(kn), Some(len)) => (kn, len),
        _ => {
            c.misfit();
            return;
        },
    };
    let col = c.allocate(kn);
    let part = c.allocate(len);
    c.launch_kernel(
        Call::ConvtCol {
            src: src.buf.addr,
            col: col.addr,
            cin: cv.cin as i32,
            h: src.h as i32,
            w: src.w as i32,
            py: py as i32,
            px: px as i32,
            taps: taps as i32,
            n: n as i32,
            oh: oh as i32,
            ow: ow as i32,
        },
        kn,
    );
    c.push(
        Cmd::Gemm {
            role: Role::Phase(ph),
            m: n as i32,
            n: cv.cout as i32,
            k: k as i32,
            a: col.addr,
            lda: n as i32,
            b: w.addr,
            ldb: k as i32,
            c: part.addr,
            ldc: n as i32,
        },
    );
    c.launch_kernel(
        Call::ConvtPut {
            phase: part.addr,
            out: out.addr,
            bias: cv.bias.addr,
            cout: cv.cout as i32,
            n: n as i32,
            py: py as i32,
            px: px as i32,
            oh: oh as i32,
            ow: ow as i32,
            mode: 1,
        },
        len,
    );
    c.free(&part);
    c.free(&col);
}

/// Transposed convolution through the four phase products. Each phase writes the
/// output pixels whose coordinates have its parities, so the output needs no
/// clearing.
pub fn conv_transpose_phases(c: &mut Cuda, cv: &DConvT, src: &DActs, phases: &Phases) -> (r: DActs)
    ensures
        (final(c)@, r) == up_phases(old(c)@, *cv, *src, *phases),
{
    reveal(up_phases);
    let (oh, ow, len) = match up_size(cv, src) {
        Some(z) => z,
        None => {
            c.misfit();
            return no_acts();
        },
    };
    let out = c.allocate(len);
    let ghost start = c@;
    let mut ph: usize = 0;
    while ph < 4
        invariant
            ph <= 4,
            src.h * 2 <= usize::MAX,
            src.w * 2 <= usize::MAX,
            c@ == phases_done(start, *cv, *src, *phases, out, ph as nat),
        decreases 4 - ph,
    {
        let w = phases.get(ph);
        run_phase(c, cv, src, &w, &out, ph);
        ph += 1;
    }
    DActs { buf: out, c: cv.cout, h: oh, w: ow }
}

/// Transposed convolution with the gather kernel.
pub fn conv_transpose(c: &mut Cuda, cv: &DConvT, src: &DActs) -> (r: DActs)
    ensures
        (final(c)@, r) == up_gather(old(c)@, *cv, *src),
{
    let (oh, ow, len) = match up_size(cv, src) {
        Some(z) => z,
        None => {
            c.misfit();
            return no_acts();
        },
    };
    let out = c.allocate(len);
    c.launch_kernel(
        Call::ConvTranspose {
            src: src.buf.addr,
            weight: cv.w.addr,
            bias: cv.bias.addr,
            out: out.addr,
            cin: cv.cin as i32,
            cout: cv.cout as i32,
            h: src.h as i32,
            w: src.w as i32,
            oh: oh as i32,
            ow: ow as i32,
            kh: 3,
            kw: 3,
            stride: 2,
            pad: 1,
        },
        len,
    );
    DActs { buf: out, c: cv.cout, h: oh, w: ow }
}

/// Whether a phase owns the output pixel `(y, x)`: its parities are those of the
/// pixel's row and column.
pub open spec fn owns(ph: nat, y: int, x: int) -> bool {
    ph / 2 == y % 2 && ph % 2 == x % 2
}

/// The four phases partition the output: each of its pixels is owned by one phase
/// and by no other, and they have as many pixels in all as the output.
pub proof fn phases_partition(src: DActs, y: int, x: int)
    requires
        0 <= y < src.h * 2,
        0 <= x < src.w * 2,
    ensures
        exists|ph: nat| ph < 4 && #[trigger] owns(ph, y, x),
        forall|a: nat, b: nat|
            a < 4 && b < 4 && #[trigger] owns(a, y, x) && #[trigger] owns(b, y, x) ==> a == b,
        4 * phase_len(src) == (src.h * 2) * (src.w * 2),
{
    let (h, w) = (src.h as int, src.w as int);
    let ph = ((y % 2) * 2 + x % 2) as nat;
    assert(ph < 4 && owns(ph, y, x));
    assert((h * 2 + 1) / 2 == h && (w * 2 + 1) / 2 == w);
    assert(4 * (h * w) == (h * 2) * (w * 2)) by (nonlinear_arith);
}

/// The `i`-th, row by row, of the output pixels with the parities of a phase.
pub open spec fn phase_pixel(src: DActs, ph: nat, i: int) -> (int, int) {
    (2 * (i / src.w as int) + ph / 2, 2 * (i % src.w as int) + ph % 2)
}

/// A phase owns as many pixels of the output as it computes: the numbers below
/// `phase_len` and the pixels that it owns belong to each other one for one.
pub proof fn phase_covers_its_pixels(src: DActs, ph: nat)
    requires
        ph < 4,
    ensures
        forall|i: int|
            0 <= i < phase_len(src) ==> {
                let (y, x) = #[trigger] phase_pixel(src, ph, i);
                0 <= y < src.h * 2 && 0 <= x < src.w * 2 && owns(ph, y, x)
            },
        forall|y: int, x: int|
            0 <= y < src.h * 2 && 0 <= x < src.w * 2 && #[trigger] owns(ph, y, x) ==> {
                let i = cell(src.w as int, y / 2, x / 2);
                0 <= i < phase_len(src) && phase_pixel(src, ph, i) == (y, x)
            },
        forall|i: int, j: int|
            0 <= i < phase_len(src) && 0 <= j < phase_len(src) && #[trigger] phase_pixel(
                src,
                ph,
                i,
            ) == #[trigger] phase_pixel(src, ph, j) ==> i == j,
{
    let (h, w) = (src.h as int, src.w as int);
    assert((h * 2 + 1) / 2 == h && (w * 2 + 1) / 2 == w);
    assert forall|i: int| 0 <= i < phase_len(src) implies ({
        let (y, x) = #[trigger] phase_pixel(src, ph, i);
        0 <= y < src.h * 2 && 0 <= x < src.w * 2 && owns(ph, y, x)
    }) by {
        lemma_position(h, w, i);
    }
    assert forall|y: int, x: int|
        0 <= y < src.h * 2 && 0 <= x < src.w * 2 && #[trigger] owns(ph, y, x) implies ({
        let i = cell(src.w as int, y / 2, x / 2);
        0 <= i < phase_len(src) && phase_pixel(src, ph, i) == (y, x)
    }) by {
        lemma_cell(h, w, y / 2, x / 2);
    }
    assert forall|i: int, j: int|
        0 <= i < phase_len(src) && 0 <= j < phase_len(src) && #[trigger] phase_pixel(src, ph, i)
            == #[trigger] phase_pixel(src, ph, j) implies i == j by {
        lemma_position(h, w, i);
        lemma_position(h, w, j);
    }
}

// ---------------------------------------------------------------------------
// The spectral branch
// ---------------------------------------------------------------------------

/// The plan for a transform of `half` planes.
pub open spec fn plan_key(feat: DActs, half: usize, inverse: bool) -> PlanKey {
    PlanKey { h: feat.h, w: feat.w, batch: half, inverse }
}

/// Whether the sizes of a transform pair over `half` planes can be computed.
pub open spec fn spectral_fits(feat: DActs, half: usize, host: bool) -> bool {
    let hw = feat.w as int / 2 + 1;
    &&& feat.plane_len() <= usize::MAX
    &&& fits4(2, half as int, feat.h as int, hw)
    &&& fits3(half as int, feat.h as int, hw)
    &&& fits3(half as int, feat.h as int, feat.w as int)
    &&& feat.h * hw <= usize::MAX
    &&& !host ==> plan_key(feat, half, false).fits()
}

/// The half spectrum of `half` planes, real parts stacked before imaginary ones.
/// The forward half of the ortho scale goes into the packing.
#[verifier::opaque]
pub open spec fn spectrum(p: Work, feat: DActs, half: usize) -> (Work, DActs) {
    let hw = feat.w as int / 2 + 1;
    let len = 2 * half * feat.h * hw;
    let key = plan_key(feat, half, false);
    if p.flags.fft_host {
        let p1 = p.push(Cmd::Fetch { src: feat.buf });
        let out = p1.fresh(len as usize);
        (
            p1.allocate(len).push(Cmd::HostFft { key, to: out }),
            DActs { buf: out, c: (2 * half) as usize, h: feat.h, w: hw as usize },
        )
    } else {
        let complex = p.fresh(len as usize);
        let p1 = p.allocate(len).push(Cmd::Plan { key }).push(
            Cmd::Fft { key, src: feat.buf.addr, dst: complex.addr },
        );
        let packed = p1.fresh(len as usize);
        let p2 = p1.allocate(len).launch(
            Call::SpecPack {
                complex: complex.addr,
                packed: packed.addr,
                half: half as i32,
                plane: (feat.h * hw) as i32,
                area: feat.plane_len() as usize,
            },
            half * feat.h * hw,
        );
        (
            p2.free(complex),
            DActs { buf: packed, c: (2 * half) as usize, h: feat.h, w: hw as usize },
        )
    }
}

/// Back from the half spectrum `fu` to `half` planes like `feat`, with the other
/// half of the ortho scale.
#[verifier::opaque]
pub open spec fn inverted(p: Work, feat: DActs, fu: DActs, half: usize) -> (Work, DActs) {
    let hw = feat.w as int / 2 + 1;
    let len = 2 * half * feat.h * hw;
    let area = half * feat.h * feat.w;
    let key = plan_key(feat, half, true);
    if p.flags.fft_host {
        let p1 = p.push(Cmd::Fetch { src: fu.buf });
        let out = p1.fresh(area as usize);
        (
            p1.allocate(area).push(Cmd::HostFft { key, to: out }),
            DActs { buf: out, c: half, h: feat.h, w: feat.w },
        )
    } else {
        let complex = p.fresh(len as usize);
        let p1 = p.allocate(len).launch(
            Call::SpecUnpack {
                packed: fu.buf.addr,
                complex: complex.addr,
                half: half as i32,
                plane: (feat.h * hw) as i32,
            },
            half * feat.h * hw,
        ).push(Cmd::Plan { key });
        let out = p1.fresh(area as usize);
        let p2 = scaled(
            p1.allocate(area).push(Cmd::Fft { key, src: complex.addr, dst: out.addr }),
            out.addr,
            area as usize,
            feat.plane_len() as usize,
        );
        (p2.free(complex), DActs { buf: out, c: half, h: feat.h, w: feat.w })
    }
}

/// The spectral branch: pool or copy, convolve, transform, convolve, transform
/// back, add what went into the transform, and convolve once more.
#[verifier::opaque]
pub open spec fn spectral(p: Work, sp: DSpectral, g: DActs) -> (Work, DActs) {
    let (p1, pool) = if sp.stride == 2 {
        pooled(p, g)
    } else {
        copied(p, g)
    };
    let (p2, feat) = conv(p1, sp.conv1, pool, 0, 1, false);
    let p3 = bn_relu(p2, feat, sp.bn1);
    if spectral_fits(feat, sp.half, p.flags.fft_host) {
        let (p4, spec) = spectrum(p3.push(Cmd::FftBegin), feat, sp.half);
        let (p5, fu) = conv(p4, sp.fu_conv, spec, 0, 1, false);
        let p6 = bn_relu(p5, fu, sp.fu_bn);
        let (p7, inv) = inverted(p6, feat, fu, sp.half);
        let p8 = sum(p7.push(Cmd::FftEnd), inv, feat);
        let (p9, out) = conv(p8, sp.conv2, inv, 0, 1, false);
        (
            p9.free(inv.buf).free(fu.buf).free(spec.buf).free(feat.buf).free(pool.buf),
            out,
        )
    } else {
        (p3.halt(StopView::Misfit), nothing())
    }
}

fn spectral_sizes(feat: &DActs, half: usize, host: bool) -> (r: Option<(usize, usize, usize)>)
    ensures
        r.is_some() == spectral_fits(*feat, half, host),
        r matches Some(z) ==> {
            let hw = feat.w as int / 2 + 1;
            z.0 == 2 * half * feat.h * hw && z.1 == half * feat.h * hw && z.2 == half * feat.h
                * feat.w
        },
{
    let hw: usize = feat.w / 2 + 1;
    let key = PlanKey { h: feat.h, w: feat.w, batch: half, inverse: false };
    if feat.h.checked_mul(feat.w).is_none() || feat.h.checked_mul(hw).is_none() {
        return None;
    }
    if !host && !key.representable() {
        return None;
    }
    match (
        product4(2, half, feat.h, hw),
        product3(half, feat.h, hw),
        product3(half, feat.h, feat.w),
    ) {
        (Some(a), Some(b), Some(c)) => Some((a, b, c)),
        _ => None,
    }
}

fn to_spectrum(c: &mut Cuda, feat: &DActs, half: usize, len: usize, pixels: usize) -> (r: DActs)
    requires
        spectral_fits(*feat, half, old(c).flags.fft_host),
        len == 2 * half * feat.h * (feat.w as int / 2 + 1),
        pixels == half * feat.h * (feat.w as int / 2 + 1),
    ensures
        (final(c)@, r) == spectrum(old(c)@, *feat, half),
{
    reveal(spectrum);
    let hw: usize = feat.w / 2 + 1;
    let key = PlanKey { h: feat.h, w: feat.w, batch: half, inverse: false };
    if c.flags.fft_host {
        c.push(Cmd::Fetch { src: feat.buf });
        let out = c.allocate(len);
        c.push(Cmd::HostFft { key, to: out });
        DActs { buf: out, c: 2 * half, h: feat.h, w: hw }
    } else {
        let complex = c.allocate(len);
        c.push(Cmd::Plan { key });
        c.push(Cmd::Fft { key, src: feat.buf.addr, dst: complex.addr });
        let packed = c.allocate(len);
        c.launch_kernel(
            Call::SpecPack {
                complex: complex.addr,
                packed: packed.addr,
                half: half as i32,
                plane: (feat.h * hw) as i32,
                area: feat.plane(),
            },
            pixels,
        );
        c.free(&complex);
        DActs { buf: packed, c: 2 * half, h: feat.h, w: hw }
    }
}

fn from_spectrum(
    c: &mut Cuda,
    feat: &DActs,
    fu: &DActs,
    half: usize,
    len: usize,
    pixels: usize,
    area: usize,
) -> (r: DActs)
    requires
        spectral_fits(*feat, half, old(c).flags.fft_host),
        len == 2 * half * feat.h * (feat.w as int / 2 + 1),
        pixels == half * feat.h * (feat.w as int / 2 + 1),
        area == half * feat.h * feat.w,
    ensures
        (final(c)@, r) == inverted(old(c)@, *feat, *fu, half),
{
    reveal(inverted);
    let hw: usize = feat.w / 2 + 1;
    let key = PlanKey { h: feat.h, w: feat.w, batch: half, inverse: true };
    if c.flags.fft_host {
        c.push(Cmd::Fetch { src: fu.buf });
        let out = c.allocate(area);
        c.push(Cmd::HostFft { key, to: out });
        DActs { buf: out, c: half, h: feat.h, w: feat.w }
    } else {
        let complex = c.allocate(len);
        c.launch_kernel(
            Call::SpecUnpack {
                packed: fu.buf.addr,
                complex: complex.addr,
                half: half as i32,
                plane: (feat.h * hw) as i32,
            },
            pixels,
        );
        c.push(Cmd::Plan { key });
        let out = c.allocate(area);
        c.push(Cmd::Fft { key, src: complex.addr, dst: out.addr });
        scale_inplace(c, out.addr, area, feat.plane());
        c.free(&complex);
        DActs { buf: out, c: half, h: feat.h, w: feat.w }
    }
}

/// The spectral branch over the global half.
pub fn spectral_forward(c: &mut Cuda, sp: &DSpectral, g: &DActs) -> (r: DActs)
    ensures
        (final(c)@, r) == spectral(old(c)@, *sp, *g),
{
    reveal(spectral);
    reveal(pooled);
    reveal(copied);
    reveal(bn_relu);
    reveal(spectrum);
    let host = c.flags.fft_host;
    let pool = if sp.stride == 2 {
        avgpool2x2(c, g)
    } else {
        copy_acts(c, g)
    };
    let ghost before = c@;
    let feat = conv_forward(c, &sp.conv1, &pool, 0, 1, false);
    proof {
        lemma_conv_flags(before, sp.conv1, pool, 0, 1, false);
    }
    bn_relu_inplace(c, &feat, &sp.bn1);
    let half = sp.half;
    let (len, pixels, area) = match spectral_sizes(&feat, half, host) {
        Some(z) => z,
        None => {
            c.misfit();
            return no_acts();
        },
    };
    c.push(Cmd::FftBegin);
    let spec = to_spectrum(c, &feat, half, len, pixels);
    let ghost before = c@;
    let fu = conv_forward(c, &sp.fu_conv, &spec, 0, 1, false);
    proof {
        lemma_conv_flags(before, sp.fu_conv, spec, 0, 1, false);
    }
    bn_relu_inplace(c, &fu, &sp.fu_bn);
    let inv = from_spectrum(c, &feat, &fu, half, len, pixels, area);
    c.push(Cmd::FftEnd);
    add_inplace(c, &inv, &feat);
    let out = conv_forward(c, &sp.conv2, &inv, 0, 1, false);
    c.free(&inv.buf);
    c.free(&fu.buf);
    c.free(&spec.buf);
    c.free(&feat.buf);
    c.free(&pool.buf);
    out
}

proof fn lemma_conv_flags(
    p: Work,
    cv: DConv,
    src: DActs,
    pad: usize,
    stride: usize,
    reflect: bool,
)
    ensures
        conv(p, cv, src, pad, stride, reflect).0.flags == p.flags,
{
    reveal(conv);
}

// ---------------------------------------------------------------------------
// Fast Fourier convolutions
// ---------------------------------------------------------------------------

/// A block of no channels that carries the plane geometry.
pub open spec fn empty_block(p: Work, like: DActs) -> (Work, DActs) {
    (p.allocate(0), DActs { buf: p.fresh(0), c: 0, h: like.h, w: like.w })
}

fn new_empty(c: &mut Cuda, like: &DActs) -> (r: DActs)
    ensures
        (final(c)@, r) == empty_block(old(c)@, *like),
{
    let buf = c.allocate(0);
    DActs { buf, c: 0, h: like.h, w: like.w }
}

/// The first `channels` planes of a block that holds more than those.
pub open spec fn local_half(p: Work, w: DFfc, inp: DActs) -> (Work, DActs) {
    if w.in_global == 0 {
        (p, inp)
    } else if inp.view_fits(0, w.in_local as int) {
        (p, inp.window(0, w.in_local))
    } else {
        (p.halt(StopView::Misfit), nothing())
    }
}

/// The last planes of the global block.
pub open spec fn global_half(p: Work, w: DFfc, g: DActs) -> (Work, DActs) {
    if w.in_global <= g.c && g.view_fits(g.c - w.in_global, w.in_global as int) {
        (p, g.window(g.c - w.in_global, w.in_global))
    } else {
        (p.halt(StopView::Misfit), nothing())
    }
}

fn view_of(c: &mut Cuda, a: &DActs, first: usize, channels: usize) -> (r: DActs)
    ensures
        (final(c)@, r) == if a.view_fits(first as int, channels as int) {
            (old(c)@, a.window(first as int, channels))
        } else {
            (old(c)@.halt(StopView::Misfit), nothing())
        },
{
    let fits = match a.h.checked_mul(a.w) {
        Some(plane) => match (first.checked_mul(plane), channels.checked_mul(plane)) {
            (Some(skip), Some(_)) => match skip.checked_mul(4) {
                Some(bytes) => a.buf.addr.offset.checked_add(bytes).is_some(),
                None => false,
            },
            _ => false,
        },
        None => false,
    };
    proof {
        assert(first * a.plane_len() >= 0) by (nonlinear_arith)
            requires
                a.plane_len() == a.h * a.w,
        ;
    }
    if fits {
        a.view(first, channels)
    } else {
        c.misfit();
        no_acts()
    }
}

/// Two contributions to one output: their sum in the place of the first, or the
/// second alone where the first has no channels.
pub open spec fn merged(p: Work, acc: DActs, o: DActs) -> (Work, DActs) {
    if acc.c == 0 {
        (p.free(acc.buf), o)
    } else {
        (sum(p, acc, o).free(o.buf), acc)
    }
}

fn merge(c: &mut Cuda, acc: DActs, o: DActs) -> (r: DActs)
    ensures
        (final(c)@, r) == merged(old(c)@, acc, o),
{
    if acc.c == 0 {
        c.free(&acc.buf);
        o
    } else {
        add_inplace(c, &acc, &o);
        c.free(&o.buf);
        acc
    }
}

/// A convolution where there is one, and a block of no channels otherwise.
pub open spec fn conv_or_empty(
    p: Work,
    w: DFfc,
    cv: Option<DConv>,
    local: DActs,
    inp: DActs,
) -> (Work, DActs) {
    match cv {
        Some(cv) => conv(p, cv, local, w.pad, w.stride, w.reflect),
        None => empty_block(p, inp),
    }
}

/// Normalise where there is a normalisation.
pub open spec fn normalised(p: Work, x: DActs, bn: Option<DBn>, skip: Option<DActs>) -> Work {
    match bn {
        Some(bn) => bn_relu_add(p, x, bn, skip),
        None => p,
    }
}

fn normalise(c: &mut Cuda, x: &DActs, bn: &Option<DBn>, skip: &Option<DActs>)
    ensures
        final(c)@ == normalised(old(c)@, *x, *bn, *skip),
{
    match bn {
        Some(bn) => {
            bn_relu_add_inplace(c, x, bn, skip);
        },
        None => {},
    }
}

/// The local output: what the local half and the global block contribute to it.
pub open spec fn local_branch(
    p: Work,
    w: DFfc,
    inp: DActs,
    local: DActs,
    glob: Option<DActs>,
    skip: Option<DActs>,
) -> (Work, DActs) {
    let (p1, acc) = conv_or_empty(p, w, w.l2l, local, inp);
    let (p2, acc) = match w.g2l {
        Some(cv) => match glob {
            Some(g) => {
                let (q, o) = conv(p1, cv, g, w.pad, w.stride, w.reflect);
                merged(q, acc, o)
            },
            None => (
                p1.halt(StopView::Fault("convg2l present without a global branch"@)),
                acc,
            ),
        },
        None => (p1, acc),
    };
    (normalised(p2, acc, w.bn_l, skip), acc)
}

/// The global output: what the local half and the spectral branch contribute to
/// it. The spectral branch works on the global half only.
pub open spec fn global_branch(
    p: Work,
    w: DFfc,
    inp: DActs,
    local: DActs,
    glob: Option<DActs>,
    skip: Option<DActs>,
) -> (Work, DActs) {
    let (p1, acc) = conv_or_empty(p, w, w.l2g, local, inp);
    let (p2, acc) = match w.spectral {
        Some(sp) => match glob {
            Some(g) => {
                let (q, half) = global_half(p1, w, g);
                let (q, o) = spectral(q, sp, half);
                merged(q, acc, o)
            },
            None => (
                p1.halt(StopView::Fault("convg2g present without a global branch"@)),
                acc,
            ),
        },
        None => (p1, acc),
    };
    (normalised(p2, acc, w.bn_g, skip), acc)
}

/// What an evaluation leaves behind: the work, the local and the global output.
pub ghost struct Branches {
    pub work: Work,
    pub local: DActs,
    pub global: Option<DActs>,
}

/// One evaluation. The local half of the input feeds the local convolutions and
/// the global block the others; an absent local output still carries the plane
/// geometry.
#[verifier::opaque]
pub open spec fn ffc(
    p: Work,
    w: DFfc,
    inp: DActs,
    glob: Option<DActs>,
    skip_local: Option<DActs>,
    skip_global: Option<DActs>,
) -> Branches {
    let (p1, half) = local_half(p, w, inp);
    let (p2, l) = if w.out_local > 0 {
        local_branch(p1, w, inp, half, glob, skip_local)
    } else {
        (p1, nothing())
    };
    let (p3, g) = if w.out_global > 0 {
        let (q, g) = global_branch(p2, w, inp, half, glob, skip_global);
        (q, Some(g))
    } else {
        (p2, None)
    };
    let (p4, l) = if w.out_local > 0 {
        (p3, l)
    } else {
        empty_block(p3, inp)
    };
    Branches { work: p4, local: l, global: g }
}

fn conv_or_new(c: &mut Cuda, w: &DFfc, cv: &Option<DConv>, local: &DActs, inp: &DActs) -> (r: DActs)
    ensures
        (final(c)@, r) == conv_or_empty(old(c)@, *w, *cv, *local, *inp),
{
    match cv {
        Some(cv) => conv_forward(c, cv, local, w.pad, w.stride, w.reflect),
        None => new_empty(c, inp),
    }
}

fn run_local(
    c: &mut Cuda,
    w: &DFfc,
    inp: &DActs,
    local: &DActs,
    glob: &Option<DActs>,
    skip: &Option<DActs>,
) -> (r: DActs)
    ensures
        (final(c)@, r) == local_branch(old(c)@, *w, *inp, *local, *glob, *skip),
{
    let mut acc = conv_or_new(c, w, &w.l2l, local, inp);
    if let Some(cv) = &w.g2l {
        match glob {
            Some(g) => {
                let o = conv_forward(c, cv, g, w.pad, w.stride, w.reflect);
                acc = merge(c, acc, o);
            },
            None => {
                c.fault("convg2l present without a global branch".to_owned());
            },
        }
    }
    normalise(c, &acc, &w.bn_l, skip);
    acc
}

fn run_global(
    c: &mut Cuda,
    w: &DFfc,
    inp: &DActs,
    local: &DActs,
    glob: &Option<DActs>,
    skip: &Option<DActs>,
) -> (r: DActs)
    ensures
        (final(c)@, r) == global_branch(old(c)@, *w, *inp, *local, *glob, *skip),
{
    let mut acc = conv_or_new(c, w, &w.l2g, local, inp);
    if let Some(sp) = &w.spectral {
        match glob {
            Some(g) => {
                let half = if w.in_global <= g.c {
                    view_of(c, g, g.c - w.in_global, w.in_global)
                } else {
                    c.misfit();
                    no_acts()
                };
                let o = spectral_forward(c, sp, &half);
                acc = merge(c, acc, o);
            },
            None => {
                c.fault("convg2g present without a global branch".to_owned());
            },
        }
    }
    normalise(c, &acc, &w.bn_g, skip);
    acc
}

/// One evaluation, with what is to be added to its two outputs.
pub fn run_dffc(
    c: &mut Cuda,
    w: &DFfc,
    inp: &DActs,
    glob: &Option<DActs>,
    skip_local: &Option<DActs>,
    skip_global: &Option<DActs>,
) -> (r: (DActs, Option<DActs>))
    ensures
        ffc(old(c)@, *w, *inp, *glob, *skip_local, *skip_global) == (Branches {
            work: final(c)@,
            local: r.0,
            global: r.1,
        }),
{
    reveal(ffc);
    let half = if w.in_global == 0 {
        *inp
    } else {
        view_of(c, inp, 0, w.in_local)
    };
    let mut l = no_acts();
    if w.out_local > 0 {
        l = run_local(c, w, inp, &half, glob, skip_local);
    }
    let mut g: Option<DActs> = None;
    if w.out_global > 0 {
        g = Some(run_global(c, w, inp, &half, glob, skip_global));
    }
    if w.out_local == 0 {
        l = new_empty(c, inp);
    }
    (l, g)
}

} // verus!
