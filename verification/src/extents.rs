//! How far device work reaches: where the channel counts of a layer and its input
//! match, and the extents fit the arguments of the kernels, every command stays within
//! the blocks that it is handed.

use vstd::prelude::*;

use crate::aliasing::{pointwise_only, spectral_extents};
use crate::cuda::{window_lies_inside, Addr, Base, Call, Cmd, DActs, Dev, StopView, Work};
use crate::engine::upsampled;
use crate::ops::{
    bn_relu, bn_relu_add, concat_fits, concatenated, conv, conv_extent, conv_fits,
    conv_or_empty, conv_sizes, copied, direct, direct_fits, ffc, global_branch, global_half,
    inverted, local_branch, local_half, merged, normalised, padded, patch_conv, phase,
    phase_fits, phase_len, phases_done, pointwise, pooled, sigmoid, spectral, spectral_fits,
    spectrum, sum, tap_count, up_fits, up_phases, DBn, DConv, DConvT, DFfc, DSpectral,
    Phases,
};
use crate::safety::{
    grows, lemma_conv_grows, lemma_global_grows, lemma_inverted_grows, lemma_local_grows,
    lemma_phase_grows, lemma_phases_grow, lemma_small_grow, lemma_spectral_grows,
    lemma_spectrum_grows,
};

verus! {

broadcast use crate::cuda::group_work;

// ---------------------------------------------------------------------------
// Reach
// ---------------------------------------------------------------------------

/// How many bytes the blob and the staged tensors have on the device.
pub ghost struct Room {
    pub blob: int,
    pub staging: int,
}

/// Whether `floats` floats from `a` on lie in what was allocated for them. A block is
/// named by the command that allocates it.
pub open spec fn inside(room: Room, cmds: Seq<Cmd>, a: Addr, floats: int) -> bool {
    match a.base {
        Base::Heap(id) => {
            &&& id < cmds.len()
            &&& cmds[id as int] matches Cmd::Malloc { id: own, floats: len } && own == id
                && a.offset + floats * 4 <= len * 4
        },
        Base::Blob => a.offset + floats * 4 <= room.blob,
        Base::Staging => a.offset + floats * 4 <= room.staging,
    }
}

/// Whether a kernel stays within what it is handed. It reads and writes whole planes
/// of the extents in its arguments.
pub open spec fn call_within(room: Room, cmds: Seq<Cmd>, call: Call) -> bool {
    match call {
        Call::Im2col { src, col, cin, h, w, kh, kw, oh, ow, .. } => {
            &&& inside(room, cmds, src, cin * (h * w))
            &&& inside(room, cmds, col, cin * kh * kw * (oh * ow))
        },
        Call::ConvTranspose { src, weight, bias, out, cin, cout, h, w, oh, ow, kh, kw, .. } => {
            &&& inside(room, cmds, src, cin * (h * w))
            &&& inside(room, cmds, weight, cin * cout * (kh * kw))
            &&& inside(room, cmds, bias, cout as int)
            &&& inside(room, cmds, out, cout * (oh * ow))
        },
        Call::BnRelu { x, scale, shift, plane, channels } => {
            &&& inside(room, cmds, x, channels * plane)
            &&& inside(room, cmds, scale, channels as int)
            &&& inside(room, cmds, shift, channels as int)
        },
        Call::Sigmoid { x, n } => inside(room, cmds, x, n as int),
        Call::AddInplace { a, b, n } => {
            &&& inside(room, cmds, a, n as int)
            &&& inside(room, cmds, b, n as int)
        },
        Call::Scale { x, n, .. } => inside(room, cmds, x, n as int),
        Call::ReflectPad { src, out, c, h, w, pad } => {
            &&& inside(room, cmds, src, c * (h * w))
            &&& inside(room, cmds, out, c * ((h + 2 * pad) * (w + 2 * pad)))
        },
        Call::Avgpool2x2 { src, out, c, h, w } => {
            &&& inside(room, cmds, src, c * (h * w))
            &&& inside(room, cmds, out, c * ((h as int / 2) * (w as int / 2)))
        },
        Call::CopyPlane { src, out, n } => {
            &&& inside(room, cmds, src, n as int)
            &&& inside(room, cmds, out, n as int)
        },
        Call::SpecPack { complex, packed, half, plane, .. } => {
            &&& inside(room, cmds, complex, 2 * half * plane)
            &&& inside(room, cmds, packed, 2 * half * plane)
        },
        Call::SpecUnpack { packed, complex, half, plane } => {
            &&& inside(room, cmds, complex, 2 * half * plane)
            &&& inside(room, cmds, packed, 2 * half * plane)
        },
        Call::ConvtCol { src, col, cin, h, w, taps, n, .. } => {
            &&& inside(room, cmds, src, cin * (h * w))
            &&& inside(room, cmds, col, cin * taps * n)
        },
        Call::ConvtPut { phase, out, bias, cout, n, oh, ow, .. } => {
            &&& inside(room, cmds, phase, cout * n)
            &&& inside(room, cmds, bias, cout as int)
            &&& inside(room, cmds, out, cout * (oh * ow))
        },
        Call::BiasPlane { out, bias, cout, n } => {
            &&& inside(room, cmds, out, cout * n)
            &&& inside(room, cmds, bias, cout as int)
        },
        Call::Conv7x7 { src, weight, bias, out, cin, cout, h_in, w_in, h_out, w_out } => {
            &&& inside(room, cmds, src, cin * (h_in * w_in))
            &&& inside(room, cmds, weight, cin * cout * 49)
            &&& inside(room, cmds, out, cout * (h_out * w_out))
            &&& (bias matches Some(b) ==> inside(room, cmds, b, cout as int))
        },
        Call::BnReluAdd { x, skip, scale, shift, plane, channels } => {
            &&& inside(room, cmds, x, channels * plane)
            &&& inside(room, cmds, scale, channels as int)
            &&& inside(room, cmds, shift, channels as int)
            &&& (skip matches Some(s) ==> inside(room, cmds, s, channels * plane))
        },
    }
}

/// Whether a command stays within what it is handed. The matrices of a product are
/// stored by columns; a transform of `batch` planes has `h` by `w` reals on one side
/// and `h` by `w / 2 + 1` complex numbers on the other.
pub open spec fn within(room: Room, cmds: Seq<Cmd>, cmd: Cmd) -> bool {
    match cmd {
        Cmd::Upload { to, floats, .. } => inside(room, cmds, to, floats as int),
        Cmd::Input { to, floats } => inside(room, cmds, to, floats as int),
        Cmd::Launch { call, .. } => call_within(room, cmds, call),
        Cmd::Gemm { n, k, a, lda, b, ldb, c, ldc, .. } => {
            &&& inside(room, cmds, a, k * lda)
            &&& inside(room, cmds, b, n * ldb)
            &&& inside(room, cmds, c, n * ldc)
        },
        Cmd::Fft { key, src, dst } => {
            let reals = key.batch * (key.h * key.w);
            let complex = 2 * key.batch * (key.h * (key.w as int / 2 + 1));
            if key.inverse {
                inside(room, cmds, src, complex) && inside(room, cmds, dst, reals)
            } else {
                inside(room, cmds, src, reals) && inside(room, cmds, dst, complex)
            }
        },
        Cmd::Fetch { src } => inside(room, cmds, src.addr, src.len as int),
        Cmd::HostFft { to, .. } => inside(room, cmds, to.addr, to.len as int),
        Cmd::Download { src } => inside(room, cmds, src.addr, src.len as int),
        Cmd::Dump { local, global, .. } => {
            &&& inside(room, cmds, local.buf.addr, local.buf.len as int)
            &&& (global matches Some(g) ==> inside(room, cmds, g.buf.addr, g.buf.len as int))
        },
        _ => true,
    }
}

/// `q` follows `p`, and every command beyond `p` stays within what it is handed.
pub open spec fn stays_within(room: Room, p: Work, q: Work) -> bool {
    &&& p.cmds.len() <= q.cmds.len()
    &&& q.cmds.take(p.cmds.len() as int) == p.cmds
    &&& forall|i: int|
        p.cmds.len() <= i < q.cmds.len() ==> within(room, q.cmds, #[trigger] q.cmds[i])
}

/// What lies in a block goes on to do so.
pub(crate) proof fn lemma_inside_grows(room: Room, p: Seq<Cmd>, q: Seq<Cmd>)
    requires
        p.len() <= q.len(),
        q.take(p.len() as int) == p,
    ensures
        forall|a: Addr, n: int|
            inside(room, p, a, n) ==> #[trigger] inside(room, q, a, n),
{
    assert forall|a: Addr, n: int| inside(room, p, a, n) implies #[trigger] inside(
        room,
        q,
        a,
        n,
    ) by {
        if let Base::Heap(id) = a.base {
            assert(q.take(p.len() as int)[id as int] == q[id as int]);
        }
    }
}

proof fn lemma_within_grows(room: Room, p: Seq<Cmd>, q: Seq<Cmd>, cmd: Cmd)
    requires
        p.len() <= q.len(),
        q.take(p.len() as int) == p,
        within(room, p, cmd),
    ensures
        within(room, q, cmd),
{
    lemma_inside_grows(room, p, q);
}

pub(crate) proof fn lemma_self(room: Room, p: Work)
    ensures
        stays_within(room, p, p),
{
    assert(p.cmds.take(p.cmds.len() as int) =~= p.cmds);
}

/// One follows the other.
pub(crate) proof fn lemma_both(room: Room, p: Work, q: Work, r: Work)
    requires
        stays_within(room, p, q),
        stays_within(room, q, r),
    ensures
        stays_within(room, p, r),
{
    let n = p.cmds.len() as int;
    assert(r.cmds.take(n) =~= r.cmds.take(q.cmds.len() as int).take(n));
    assert forall|i: int| p.cmds.len() <= i < r.cmds.len() implies within(
        room,
        r.cmds,
        #[trigger] r.cmds[i],
    ) by {
        if i < q.cmds.len() {
            assert(r.cmds.take(q.cmds.len() as int)[i] == r.cmds[i]);
            lemma_within_grows(room, q.cmds, r.cmds, q.cmds[i]);
        }
    }
}

pub(crate) broadcast proof fn lemma_then(room: Room, p0: Work, p: Work, cmd: Cmd)
    requires
        stays_within(room, p0, p),
        p.going() ==> within(room, p.cmds, cmd),
    ensures
        #[trigger] stays_within(room, p0, p.push(cmd)),
{
    reveal(Work::push);
    let q = p.push(cmd);
    if p.going() {
        assert(q.cmds.take(p.cmds.len() as int) =~= p.cmds);
        assert(q.cmds.take(p0.cmds.len() as int) =~= p.cmds.take(p0.cmds.len() as int));
        assert forall|i: int| p0.cmds.len() <= i < q.cmds.len() implies within(
            room,
            q.cmds,
            #[trigger] q.cmds[i],
        ) by {
            if i < p.cmds.len() {
                assert(q.cmds[i] == p.cmds[i]);
            }
            lemma_within_grows(room, p.cmds, q.cmds, q.cmds[i]);
        }
    }
}

pub(crate) broadcast proof fn lemma_halted(room: Room, p0: Work, p: Work, s: StopView)
    requires
        stays_within(room, p0, p),
    ensures
        #[trigger] stays_within(room, p0, p.halt(s)),
{
}

pub(crate) broadcast proof fn lemma_still_inside(room: Room, p: Work, cmd: Cmd, a: Addr, n: int)
    requires
        inside(room, p.cmds, a, n),
    ensures
        #[trigger] inside(room, p.push(cmd).cmds, a, n),
{
    reveal(Work::push);
    assert(p.push(cmd).cmds.take(p.cmds.len() as int) =~= p.cmds);
    lemma_inside_grows(room, p.cmds, p.push(cmd).cmds);
}

/// An allocated block has the room that was asked for.
pub(crate) broadcast proof fn lemma_new_block(room: Room, p: Work, len: int, a: Addr, n: int)
    requires
        p.allocate(len).going(),
        p.allocate(len).cmds.len() <= usize::MAX,
        a == p.fresh(len as usize).addr,
        0 <= len,
        n <= len,
    ensures
        #[trigger] inside(room, p.allocate(len).cmds, a, n),
{
    reveal(Work::push);
}

pub(crate) broadcast group group_within {
    lemma_then,
    lemma_halted,
    lemma_still_inside,
    lemma_new_block,
}

// ---------------------------------------------------------------------------
// Blocks and layers
// ---------------------------------------------------------------------------

/// Whether a count fits the 32-bit arguments of a kernel.
pub open spec fn small(n: int) -> bool {
    0 <= n <= i32::MAX
}

/// Whether a block has the planes that it claims, and lies in its allocation.
pub open spec fn block(room: Room, cmds: Seq<Cmd>, x: DActs) -> bool {
    &&& x.buf.len == x.c * x.plane_len()
    &&& x.buf.addr.offset + x.buf.len * 4 <= usize::MAX
    &&& inside(room, cmds, x.buf.addr, x.buf.len as int)
}

/// Whether a buffer has `n` floats in its allocation.
pub open spec fn holds(room: Room, cmds: Seq<Cmd>, d: Dev, n: int) -> bool {
    d.len == n && inside(room, cmds, d.addr, n)
}

/// Whether the tensors of a convolution have the sizes that it claims.
pub open spec fn conv_ready(room: Room, cmds: Seq<Cmd>, cv: DConv) -> bool {
    &&& holds(room, cmds, cv.w, cv.cout * (cv.cin * cv.kh * cv.kw))
    &&& (cv.bias matches Some(b) ==> holds(room, cmds, b, cv.cout as int))
    &&& (cv.w_t matches Some(t) ==> holds(room, cmds, t, cv.cin * cv.cout * 49))
}

/// Whether the values of a normalisation are as many as it claims.
pub open spec fn bn_ready(room: Room, cmds: Seq<Cmd>, bn: DBn) -> bool {
    &&& holds(room, cmds, bn.scale, bn.channels as int)
    &&& holds(room, cmds, bn.shift, bn.channels as int)
}

/// Whether a convolution of stride 1 is one matrix product.
pub open spec fn is_pointwise(cv: DConv, stride: usize) -> bool {
    cv.kh == 1 && cv.kw == 1 && stride == 1
}

/// Whether the extents of a convolution fit the arguments of its kernels.
pub open spec fn conv_small(cv: DConv, src: DActs, pad: usize, stride: usize) -> bool {
    let z = conv_sizes(cv, src, pad, stride);
    &&& small(cv.cin as int)
    &&& small(cv.cout as int)
    &&& small(src.h as int)
    &&& small(src.w as int)
    &&& small(src.plane_len())
    &&& !is_pointwise(cv, stride) ==> {
        &&& small(cv.kh as int)
        &&& small(cv.kw as int)
        &&& small(z.oh)
        &&& small(z.ow)
        &&& small(z.k)
        &&& small(z.n)
    }
}

/// The extents of the output of a convolution.
pub open spec fn conv_rows(cv: DConv, src: DActs, pad: usize, stride: usize) -> int {
    if is_pointwise(cv, stride) {
        src.h as int
    } else {
        conv_extent(src.h as int, pad as int, cv.kh as int, stride as int)
    }
}

pub open spec fn conv_cols(cv: DConv, src: DActs, pad: usize, stride: usize) -> int {
    if is_pointwise(cv, stride) {
        src.w as int
    } else {
        conv_extent(src.w as int, pad as int, cv.kw as int, stride as int)
    }
}

proof fn lemma_assoc(a: int, b: int, c: int)
    ensures
        a * b * c == a * (b * c),
{
    assert(a * b * c == a * (b * c)) by (nonlinear_arith);
}

proof fn lemma_product(a: int, b: int)
    requires
        0 <= a,
        0 <= b,
    ensures
        0 <= a * b,
{
    assert(0 <= a * b) by (nonlinear_arith)
        requires
            0 <= a,
            0 <= b,
    ;
}

proof fn lemma_pointwise(room: Room, p: Work, cv: DConv, src: DActs)
    requires
        p.going() ==> block(room, p.cmds, src) && conv_ready(room, p.cmds, cv),
        src.c == cv.cin,
        cv.kh == 1,
        cv.kw == 1,
        conv_small(cv, src, 0, 1),
        pointwise(p, cv, src).0.cmds.len() <= usize::MAX,
    ensures
        stays_within(room, p, pointwise(p, cv, src).0),
        ({
            let (q, out) = pointwise(p, cv, src);
            q.going() ==> block(room, q.cmds, out) && out.c == cv.cout && out.h == src.h && out.w
                == src.w
        }),
{
    broadcast use group_within;

    lemma_self(room, p);
    lemma_product(cv.cout as int, src.plane_len());
    assert(cv.cin * 1 * 1 == cv.cin);
}

proof fn lemma_direct(room: Room, p: Work, cv: DConv, src: DActs, w_t: Dev)
    requires
        p.going() ==> block(room, p.cmds, src) && conv_ready(room, p.cmds, cv),
        src.c == cv.cin,
        cv.w_t == Some(w_t),
        cv.kh == 7,
        cv.kw == 7,
        conv_small(cv, src, 0, 1),
        direct(p, cv, src, w_t).0.cmds.len() <= usize::MAX,
    ensures
        stays_within(room, p, direct(p, cv, src, w_t).0),
        ({
            let (q, out) = direct(p, cv, src, w_t);
            q.going() ==> block(room, q.cmds, out) && out.c == cv.cout && out.h == conv_rows(
                cv,
                src,
                0,
                1,
            ) && out.w == conv_cols(cv, src, 0, 1)
        }),
{
    broadcast use group_within;

    lemma_self(room, p);
    if direct_fits(cv, src) {
        let (oh, ow) = (src.h - 6, src.w - 6);
        lemma_assoc(cv.cout as int, oh, ow);
        lemma_product(oh, ow);
        lemma_product(cv.cout as int, oh * ow);
        assert(conv_extent(src.h as int, 0, 7, 1) == oh);
        assert(conv_extent(src.w as int, 0, 7, 1) == ow);
    }
}

proof fn lemma_patch(
    room: Room,
    p: Work,
    cv: DConv,
    src: DActs,
    pad: usize,
    stride: usize,
    reflect: bool,
)
    requires
        p.going() ==> block(room, p.cmds, src) && conv_ready(room, p.cmds, cv),
        src.c == cv.cin,
        !is_pointwise(cv, stride),
        conv_small(cv, src, pad, stride),
        patch_conv(p, cv, src, pad, stride, reflect).0.cmds.len() <= usize::MAX,
    ensures
        stays_within(room, p, patch_conv(p, cv, src, pad, stride, reflect).0),
        ({
            let (q, out) = patch_conv(p, cv, src, pad, stride, reflect);
            q.going() ==> block(room, q.cmds, out) && out.c == cv.cout && out.h == conv_rows(
                cv,
                src,
                pad,
                stride,
            ) && out.w == conv_cols(cv, src, pad, stride)
        }),
{
    broadcast use group_within;

    lemma_self(room, p);
    let z = conv_sizes(cv, src, pad, stride);
    if conv_fits(cv, src, pad, stride, p.flags.profile_sub) {
        lemma_product(z.k, z.n);
        lemma_product(cv.cout as int, z.n);
    }
}

/// What a convolution does stays within its input, its weights and the blocks that it
/// allocates, and its output is a whole block.
pub proof fn conv_stays_within(
    room: Room,
    p: Work,
    cv: DConv,
    src: DActs,
    pad: usize,
    stride: usize,
    reflect: bool,
)
    requires
        p.going() ==> block(room, p.cmds, src) && conv_ready(room, p.cmds, cv),
        src.c == cv.cin,
        conv_small(cv, src, pad, stride),
        conv(p, cv, src, pad, stride, reflect).0.cmds.len() <= usize::MAX,
    ensures
        stays_within(room, p, conv(p, cv, src, pad, stride, reflect).0),
        ({
            let (q, out) = conv(p, cv, src, pad, stride, reflect);
            q.going() ==> block(room, q.cmds, out) && out.c == cv.cout && out.h == conv_rows(
                cv,
                src,
                pad,
                stride,
            ) && out.w == conv_cols(cv, src, pad, stride)
        }),
{
    reveal(conv);
    if is_pointwise(cv, stride) {
        lemma_pointwise(room, p, cv, src);
    } else if cv.kh == 7 && cv.kw == 7 && stride == 1 && pad == 0 && cv.w_t is Some {
        lemma_direct(room, p, cv, src, cv.w_t->0);
    } else {
        lemma_patch(room, p, cv, src, pad, stride, reflect);
    }
}

// ---------------------------------------------------------------------------
// Other operations
// ---------------------------------------------------------------------------

/// A normalisation of all planes of a block stays within it.
pub proof fn bn_relu_stays_within(room: Room, p: Work, x: DActs, bn: DBn)
    requires
        p.going() ==> block(room, p.cmds, x) && bn_ready(room, p.cmds, bn),
        bn.channels == x.c,
        small(bn.channels as int),
        x.plane_len() <= i64::MAX,
    ensures
        stays_within(room, p, bn_relu(p, x, bn)),
{
    broadcast use group_within;

    reveal(bn_relu);
    lemma_self(room, p);
    lemma_product(x.h as int, x.w as int);
}

/// So does one with a residual add, where what is added has as many floats.
pub proof fn bn_relu_add_stays_within(room: Room, p: Work, x: DActs, bn: DBn, skip: Option<DActs>)
    requires
        p.going() ==> block(room, p.cmds, x) && bn_ready(room, p.cmds, bn),
        p.going() ==> (skip matches Some(s) ==> block(room, p.cmds, s) && s.buf.len == x.buf.len),
        bn.channels == x.c,
        small(bn.channels as int),
        x.plane_len() <= i64::MAX,
    ensures
        stays_within(room, p, bn_relu_add(p, x, bn, skip)),
{
    broadcast use group_within;

    reveal(bn_relu_add);
    lemma_self(room, p);
    lemma_product(x.h as int, x.w as int);
}

/// The sigmoid of a block stays within it.
pub proof fn sigmoid_stays_within(room: Room, p: Work, x: DActs)
    requires
        p.going() ==> block(room, p.cmds, x),
    ensures
        stays_within(room, p, sigmoid(p, x)),
{
    broadcast use group_within;

    lemma_self(room, p);
}

/// Adding a block of as many floats stays within both.
pub proof fn sum_stays_within(room: Room, p: Work, a: DActs, b: DActs)
    requires
        p.going() ==> block(room, p.cmds, a) && block(room, p.cmds, b),
        a.buf.len == b.buf.len,
    ensures
        stays_within(room, p, sum(p, a, b)),
{
    broadcast use group_within;

    reveal(sum);
    lemma_self(room, p);
}

/// Padding stays within its input and the block that it allocates.
pub proof fn pad_stays_within(room: Room, p: Work, src: DActs, pad: usize)
    requires
        p.going() ==> block(room, p.cmds, src),
        small(src.c as int),
        small(src.h as int),
        small(src.w as int),
        small(pad as int),
        padded(p, src, pad).0.cmds.len() <= usize::MAX,
    ensures
        stays_within(room, p, padded(p, src, pad).0),
        ({
            let (q, out) = padded(p, src, pad);
            q.going() ==> block(room, q.cmds, out) && out.c == src.c && out.h == src.h + 2 * pad
                && out.w == src.w + 2 * pad
        }),
{
    broadcast use group_within;

    reveal(padded);
    lemma_self(room, p);
    let (oh, ow) = (src.h + 2 * pad, src.w + 2 * pad);
    lemma_assoc(src.c as int, oh, ow);
    lemma_product(oh, ow);
    lemma_product(src.c as int, oh * ow);
}

/// Pooling stays within its input and the block that it allocates.
pub proof fn pool_stays_within(room: Room, p: Work, src: DActs)
    requires
        p.going() ==> block(room, p.cmds, src),
        small(src.c as int),
        small(src.h as int),
        small(src.w as int),
        pooled(p, src).0.cmds.len() <= usize::MAX,
    ensures
        stays_within(room, p, pooled(p, src).0),
        ({
            let (q, out) = pooled(p, src);
            q.going() ==> block(room, q.cmds, out) && out.c == src.c && out.h == src.h / 2 && out.w
                == src.w / 2
        }),
{
    broadcast use group_within;

    reveal(pooled);
    lemma_self(room, p);
    let (oh, ow) = (src.h as int / 2, src.w as int / 2);
    lemma_assoc(src.c as int, oh, ow);
    lemma_product(oh, ow);
    lemma_product(src.c as int, oh * ow);
}

/// Copying stays within its input and the block that it allocates.
pub proof fn copy_stays_within(room: Room, p: Work, src: DActs)
    requires
        p.going() ==> block(room, p.cmds, src),
        copied(p, src).0.cmds.len() <= usize::MAX,
    ensures
        stays_within(room, p, copied(p, src).0),
        ({
            let (q, out) = copied(p, src);
            q.going() ==> block(room, q.cmds, out) && out.c == src.c && out.h == src.h && out.w
                == src.w
        }),
{
    broadcast use group_within;

    reveal(copied);
    lemma_self(room, p);
}

/// Stacking two blocks of the same extents stays within them and the block that it
/// allocates.
pub proof fn concat_stays_within(room: Room, p: Work, a: DActs, g: DActs)
    requires
        p.going() ==> block(room, p.cmds, a) && block(room, p.cmds, g),
        a.h == g.h,
        a.w == g.w,
        concatenated(p, a, g).0.cmds.len() <= usize::MAX,
    ensures
        stays_within(room, p, concatenated(p, a, g).0),
        ({
            let (q, out) = concatenated(p, a, g);
            q.going() ==> block(room, q.cmds, out) && out.c == a.c + g.c && out.h == a.h && out.w
                == a.w
        }),
{
    broadcast use group_within;

    reveal(concatenated);
    lemma_self(room, p);
    if concat_fits(a, g) {
        let len = (a.buf.len + g.buf.len) as usize;
        let out = p.fresh(len);
        let second = Addr { base: out.addr.base, offset: (a.buf.len * 4) as usize };
        let p1 = p.allocate(len as int);
        if p1.going() {
            assert(inside(room, p1.cmds, out.addr, len as int));
            assert(inside(room, p1.cmds, second, g.buf.len as int));
        }
        assert((a.c + g.c) * a.plane_len() == a.c * a.plane_len() + g.c * a.plane_len())
            by (nonlinear_arith);
    }
}

// ---------------------------------------------------------------------------
// Transposed convolutions
// ---------------------------------------------------------------------------

/// Whether the tensors of a transposed convolution have the sizes that it claims.
pub open spec fn convt_ready(room: Room, cmds: Seq<Cmd>, cv: DConvT) -> bool {
    &&& holds(room, cmds, cv.w, cv.cin * cv.cout * (3 * 3))
    &&& holds(room, cmds, cv.bias, cv.cout as int)
    &&& (cv.phases matches Some(w) ==> forall|ph: nat|
        ph < 4 ==> holds(room, cmds, #[trigger] w.of(ph), cv.cout * (cv.cin * tap_count(ph))))
}

/// Whether the extents of a transposed convolution fit the arguments of its kernels.
pub open spec fn convt_small(cv: DConvT, src: DActs) -> bool {
    &&& small(cv.cout as int)
    &&& small(cv.cin * 4)
    &&& small(src.h * 2)
    &&& small(src.w * 2)
    &&& small(src.plane_len())
}

proof fn lemma_phase(room: Room, p: Work, cv: DConvT, src: DActs, w: Dev, out: Dev, ph: nat)
    requires
        ph < 4,
        p.going() ==> {
            &&& block(room, p.cmds, src)
            &&& holds(room, p.cmds, w, cv.cout * (cv.cin * tap_count(ph)))
            &&& holds(room, p.cmds, cv.bias, cv.cout as int)
            &&& inside(room, p.cmds, out.addr, cv.cout * ((src.h * 2) * (src.w * 2)))
        },
        src.c == cv.cin,
        convt_small(cv, src),
        phase(p, cv, src, w, out, ph).cmds.len() <= usize::MAX,
    ensures
        stays_within(room, p, phase(p, cv, src, w, out, ph)),
{
    broadcast use group_within;

    lemma_self(room, p);
    if phase_fits(cv, src, ph) {
        let n = phase_len(src);
        assert((src.h * 2 + 1) / 2 == src.h && (src.w * 2 + 1) / 2 == src.w);
        assert(n == src.plane_len());
        let k = cv.cin * tap_count(ph);
        assert(0 <= k <= cv.cin * 4) by (nonlinear_arith)
            requires
                k == cv.cin * tap_count(ph),
                tap_count(ph) <= 4,
        ;
        lemma_product(k, n);
        lemma_product(cv.cout as int, n);
    }
}

proof fn lemma_phases(
    room: Room,
    p: Work,
    cv: DConvT,
    src: DActs,
    w: Phases,
    out: Dev,
    count: nat,
)
    requires
        count <= 4,
        cv.phases == Some(w),
        p.going() ==> {
            &&& block(room, p.cmds, src)
            &&& convt_ready(room, p.cmds, cv)
            &&& inside(room, p.cmds, out.addr, cv.cout * ((src.h * 2) * (src.w * 2)))
        },
        src.c == cv.cin,
        convt_small(cv, src),
        phases_done(p, cv, src, w, out, count).cmds.len() <= usize::MAX,
    ensures
        stays_within(room, p, phases_done(p, cv, src, w, out, count)),
    decreases count,
{
    if count == 0 {
        lemma_self(room, p);
    } else {
        let ph = (count - 1) as nat;
        let q = phases_done(p, cv, src, w, out, ph);
        let r = phase(q, cv, src, w.of(ph), out, ph);
        lemma_phase_grows(q, cv, src, w.of(ph), out, ph);
        lemma_phases_grow(p, cv, src, w, out, ph);
        lemma_phases(room, p, cv, src, w, out, ph);
        lemma_inside_grows(room, p.cmds, q.cmds);
        lemma_phase(room, q, cv, src, w.of(ph), out, ph);
        lemma_both(room, p, q, r);
    }
}

/// A transposed convolution stays within its input, its weights and the blocks that
/// it allocates, by phases or with the gather kernel, and its output is a whole block
/// of twice the extents.
pub proof fn upsampling_stays_within(room: Room, p: Work, cv: DConvT, src: DActs)
    requires
        p.going() ==> block(room, p.cmds, src) && convt_ready(room, p.cmds, cv),
        src.c == cv.cin,
        convt_small(cv, src),
        upsampled(p, cv, src).0.cmds.len() <= usize::MAX,
    ensures
        stays_within(room, p, upsampled(p, cv, src).0),
        ({
            let (q, out) = upsampled(p, cv, src);
            q.going() ==> block(room, q.cmds, out) && out.c == cv.cout && out.h == src.h * 2
                && out.w == src.w * 2
        }),
{
    broadcast use group_within;

    lemma_self(room, p);
    let (oh, ow) = (src.h * 2, src.w * 2);
    lemma_assoc(cv.cout as int, oh, ow);
    lemma_product(oh, ow);
    lemma_product(cv.cout as int, oh * ow);
    if up_fits(cv, src) && cv.phases is Some && !p.flags.convt_gather {
        reveal(up_phases);
        let w = cv.phases->0;
        let len = cv.cout * oh * ow;
        let out = p.fresh(len as usize);
        let a = p.allocate(len);
        let q = phases_done(a, cv, src, w, out, 4);
        lemma_phases_grow(a, cv, src, w, out, 4);
        assert(stays_within(room, p, a));
        lemma_inside_grows(room, p.cmds, a.cmds);
        if a.going() {
            assert(inside(room, a.cmds, out.addr, cv.cout * (oh * ow)));
        }
        lemma_phases(room, a, cv, src, w, out, 4);
        lemma_inside_grows(room, a.cmds, q.cmds);
        lemma_both(room, p, a, q);
    } else {
        reveal(up_phases);
    }
}

// ---------------------------------------------------------------------------
// The spectral branch
// ---------------------------------------------------------------------------

/// What is ready goes on to be so.
pub(crate) proof fn lemma_carry(room: Room, p: Work, q: Work)
    requires
        stays_within(room, p, q),
    ensures
        forall|x: DActs| block(room, p.cmds, x) ==> #[trigger] block(room, q.cmds, x),
        forall|cv: DConv| conv_ready(room, p.cmds, cv) ==> #[trigger] conv_ready(room, q.cmds, cv),
        forall|bn: DBn| bn_ready(room, p.cmds, bn) ==> #[trigger] bn_ready(room, q.cmds, bn),
{
    lemma_inside_grows(room, p.cmds, q.cmds);
}

proof fn lemma_spectrum(room: Room, p: Work, feat: DActs, half: usize)
    requires
        p.going() ==> block(room, p.cmds, feat),
        feat.c == half,
        spectral_fits(feat, half, p.flags.fft_host),
        small(half as int),
        small(feat.h * (feat.w as int / 2 + 1)),
        spectrum(p, feat, half).0.cmds.len() <= usize::MAX,
    ensures
        stays_within(room, p, spectrum(p, feat, half).0),
        ({
            let (q, out) = spectrum(p, feat, half);
            q.going() ==> block(room, q.cmds, out) && out.c == 2 * half && out.h == feat.h && out.w
                == feat.w as int / 2 + 1
        }),
{
    broadcast use group_within;

    reveal(spectrum);
    lemma_self(room, p);
    let hw = feat.w as int / 2 + 1;
    lemma_assoc(2 * half, feat.h as int, hw);
    lemma_product(2 * half, feat.h * hw);
}

proof fn lemma_inverted(room: Room, p: Work, feat: DActs, fu: DActs, half: usize)
    requires
        p.going() ==> block(room, p.cmds, fu),
        fu.c == 2 * half,
        fu.h == feat.h,
        fu.w == feat.w as int / 2 + 1,
        spectral_fits(feat, half, p.flags.fft_host),
        small(half as int),
        small(feat.h * (feat.w as int / 2 + 1)),
        inverted(p, feat, fu, half).0.cmds.len() <= usize::MAX,
    ensures
        stays_within(room, p, inverted(p, feat, fu, half).0),
        ({
            let (q, out) = inverted(p, feat, fu, half);
            q.going() ==> block(room, q.cmds, out) && out.c == half && out.h == feat.h && out.w
                == feat.w
        }),
{
    broadcast use group_within;

    reveal(inverted);
    lemma_self(room, p);
    let hw = feat.w as int / 2 + 1;
    lemma_assoc(2 * half, feat.h as int, hw);
    lemma_product(2 * half, feat.h * hw);
    lemma_assoc(half as int, feat.h as int, feat.w as int);
    lemma_product(feat.h as int, feat.w as int);
    lemma_product(half as int, feat.h * feat.w);
}

/// Whether the tensors of the spectral branch have the sizes that it claims.
pub open spec fn spectral_ready(room: Room, cmds: Seq<Cmd>, sp: DSpectral) -> bool {
    &&& conv_ready(room, cmds, sp.conv1)
    &&& bn_ready(room, cmds, sp.bn1)
    &&& conv_ready(room, cmds, sp.fu_conv)
    &&& bn_ready(room, cmds, sp.fu_bn)
    &&& conv_ready(room, cmds, sp.conv2)
}

/// Whether the layers of the spectral branch match each other and an input of
/// `channels` channels.
pub open spec fn spectral_matches(sp: DSpectral, channels: int) -> bool {
    &&& pointwise_only(sp)
    &&& sp.conv1.cin == channels
    &&& sp.conv1.cout == sp.half
    &&& sp.bn1.channels == sp.half
    &&& sp.fu_conv.cin == 2 * sp.half
    &&& sp.fu_conv.cout == 2 * sp.half
    &&& sp.fu_bn.channels == 2 * sp.half
    &&& sp.conv2.cin == sp.half
}

/// Whether the extents of the spectral branch fit the arguments of its kernels.
pub open spec fn spectral_small(sp: DSpectral, g: DActs) -> bool {
    &&& small(g.c as int)
    &&& small(g.h as int)
    &&& small(g.w as int)
    &&& small(g.plane_len())
    &&& small(2 * sp.half)
    &&& small(sp.conv2.cout as int)
    &&& small(g.h * (g.w as int / 2 + 1))
}

/// Half the extents are as small as the whole ones.
proof fn lemma_halves_small(h: int, w: int)
    requires
        small(h * w),
        small(h * (w / 2 + 1)),
        0 <= h,
        0 <= w,
    ensures
        small((h / 2) * (w / 2)),
        small((h / 2) * (w / 2 / 2 + 1)),
{
    let (a, b) = (h / 2, w / 2);
    assert(0 <= a * b <= h * w) by (nonlinear_arith)
        requires
            0 <= a <= h,
            0 <= b <= w,
    ;
    let (x, y) = (b / 2 + 1, w / 2 + 1);
    assert(0 <= a * x <= h * y) by (nonlinear_arith)
        requires
            0 <= a <= h,
            0 <= x <= y,
    ;
}

/// The first part of the spectral branch, up to what goes into the transform.
proof fn lemma_feature(room: Room, p: Work, sp: DSpectral, g: DActs)
    requires
        p.going() ==> block(room, p.cmds, g) && spectral_ready(room, p.cmds, sp),
        spectral_matches(sp, g.c as int),
        spectral_small(sp, g),
        ({
            let (p1, pool) = if sp.stride == 2 {
                pooled(p, g)
            } else {
                copied(p, g)
            };
            let (p2, feat) = conv(p1, sp.conv1, pool, 0, 1, false);
            bn_relu(p2, feat, sp.bn1).cmds.len() <= usize::MAX
        }),
    ensures
        ({
            let (p1, pool) = if sp.stride == 2 {
                pooled(p, g)
            } else {
                copied(p, g)
            };
            let (p2, feat) = conv(p1, sp.conv1, pool, 0, 1, false);
            let p3 = bn_relu(p2, feat, sp.bn1);
            &&& stays_within(room, p, p3)
            &&& p3.going() ==> {
                &&& block(room, p3.cmds, feat)
                &&& feat.c == sp.half
                &&& small(feat.plane_len())
                &&& small(feat.h * (feat.w as int / 2 + 1))
                &&& small(feat.h as int)
                &&& small(feat.w as int)
            }
        }),
{
    let (p1, pool) = if sp.stride == 2 {
        pooled(p, g)
    } else {
        copied(p, g)
    };
    let (p2, feat) = conv(p1, sp.conv1, pool, 0, 1, false);
    let p3 = bn_relu(p2, feat, sp.bn1);
    lemma_small_grow(p, g, g, 0, sp.bn1);
    lemma_conv_grows(p1, sp.conv1, pool, 0, 1, false);
    lemma_small_grow(p2, feat, feat, 0, sp.bn1);
    if sp.stride == 2 {
        pool_stays_within(room, p, g);
        lemma_halves_small(g.h as int, g.w as int);
    } else {
        copy_stays_within(room, p, g);
    }
    lemma_carry(room, p, p1);
    if p1.going() {
        conv_stays_within(room, p1, sp.conv1, pool, 0, 1, false);
        lemma_carry(room, p1, p2);
        lemma_both(room, p, p1, p2);
        if p2.going() {
            bn_relu_stays_within(room, p2, feat, sp.bn1);
            lemma_carry(room, p2, p3);
            lemma_both(room, p, p2, p3);
        } else {
            assert(p3 == p2) by {
                reveal(bn_relu);
            }
        }
    } else {
        assert(p2 == p1) by {
            reveal(conv);
        }
        assert(p3 == p2) by {
            reveal(bn_relu);
        }
    }
}

/// The second part: the transform, a convolution of the spectrum, and back.
proof fn lemma_transform(room: Room, p: Work, sp: DSpectral, feat: DActs, host: bool)
    requires
        p.going() ==> block(room, p.cmds, feat) && spectral_ready(room, p.cmds, sp),
        host == p.flags.fft_host,
        spectral_fits(feat, sp.half, host),
        pointwise_only(sp),
        spectral_matches(sp, sp.conv1.cin as int),
        feat.c == sp.half,
        small(2 * sp.half),
        small(feat.plane_len()),
        small(feat.h as int),
        small(feat.w as int),
        small(feat.h * (feat.w as int / 2 + 1)),
        ({
            let (p4, spec) = spectrum(p, feat, sp.half);
            let (p5, fu) = conv(p4, sp.fu_conv, spec, 0, 1, false);
            inverted(bn_relu(p5, fu, sp.fu_bn), feat, fu, sp.half).0.cmds.len() <= usize::MAX
        }),
    ensures
        ({
            let (p4, spec) = spectrum(p, feat, sp.half);
            let (p5, fu) = conv(p4, sp.fu_conv, spec, 0, 1, false);
            let (p7, inv) = inverted(bn_relu(p5, fu, sp.fu_bn), feat, fu, sp.half);
            &&& stays_within(room, p, p7)
            &&& p7.going() ==> block(room, p7.cmds, inv) && inv.c == sp.half && inv.h == feat.h
                && inv.w == feat.w
        }),
{
    let (p4, spec) = spectrum(p, feat, sp.half);
    let (p5, fu) = conv(p4, sp.fu_conv, spec, 0, 1, false);
    let p6 = bn_relu(p5, fu, sp.fu_bn);
    let (p7, inv) = inverted(p6, feat, fu, sp.half);
    lemma_spectrum_grows(p, feat, sp.half);
    lemma_conv_grows(p4, sp.fu_conv, spec, 0, 1, false);
    lemma_small_grow(p5, fu, fu, 0, sp.fu_bn);
    lemma_inverted_grows(p6, feat, fu, sp.half);
    lemma_spectrum(room, p, feat, sp.half);
    lemma_carry(room, p, p4);
    assert(spec.h == feat.h && spec.w == feat.w as int / 2 + 1 && spec.c == 2 * sp.half) by {
        reveal(spectrum);
    }
    if p4.going() {
        conv_stays_within(room, p4, sp.fu_conv, spec, 0, 1, false);
    } else {
        assert(p5 == p4) by {
            reveal(conv);
        }
        lemma_self(room, p4);
    }
    lemma_carry(room, p4, p5);
    lemma_both(room, p, p4, p5);
    if p5.going() {
        bn_relu_stays_within(room, p5, fu, sp.fu_bn);
    } else {
        assert(p6 == p5) by {
            reveal(bn_relu);
        }
        lemma_self(room, p5);
    }
    lemma_carry(room, p5, p6);
    lemma_both(room, p, p5, p6);
    if p6.going() {
        lemma_inverted(room, p6, feat, fu, sp.half);
    } else {
        assert(p7.cmds == p6.cmds && !p7.going()) by {
            reveal(inverted);
        }
        lemma_self(room, p6);
        assert(stays_within(room, p6, p7));
    }
    lemma_both(room, p, p6, p7);
}

/// The spectral branch stays within its input, its weights and the blocks that it
/// allocates, and its output is a whole block.
pub proof fn spectral_stays_within(room: Room, p: Work, sp: DSpectral, g: DActs)
    requires
        p.going() ==> block(room, p.cmds, g) && spectral_ready(room, p.cmds, sp),
        spectral_matches(sp, g.c as int),
        spectral_small(sp, g),
        spectral(p, sp, g).0.cmds.len() <= usize::MAX,
    ensures
        stays_within(room, p, spectral(p, sp, g).0),
        ({
            let (q, out) = spectral(p, sp, g);
            q.going() ==> block(room, q.cmds, out)
        }),
{
    reveal(spectral);
    let (p1, pool) = if sp.stride == 2 {
        pooled(p, g)
    } else {
        copied(p, g)
    };
    lemma_small_grow(p, g, g, 0, sp.bn1);
    let (p2, feat) = conv(p1, sp.conv1, pool, 0, 1, false);
    lemma_conv_grows(p1, sp.conv1, pool, 0, 1, false);
    lemma_small_grow(p2, feat, feat, 0, sp.bn1);
    let p3 = bn_relu(p2, feat, sp.bn1);
    if spectral_fits(feat, sp.half, p.flags.fft_host) {
        let b = p3.push(Cmd::FftBegin);
        let (p4, spec) = spectrum(b, feat, sp.half);
        lemma_spectrum_grows(b, feat, sp.half);
        let (p5, fu) = conv(p4, sp.fu_conv, spec, 0, 1, false);
        lemma_conv_grows(p4, sp.fu_conv, spec, 0, 1, false);
        let p6 = bn_relu(p5, fu, sp.fu_bn);
        lemma_small_grow(p5, fu, fu, 0, sp.fu_bn);
        let (p7, inv) = inverted(p6, feat, fu, sp.half);
        lemma_inverted_grows(p6, feat, fu, sp.half);
        let e = p7.push(Cmd::FftEnd);
        let p8 = sum(e, inv, feat);
        lemma_small_grow(e, inv, feat, 0, sp.bn1);
        let (p9, out) = conv(p8, sp.conv2, inv, 0, 1, false);
        lemma_conv_grows(p8, sp.conv2, inv, 0, 1, false);
        let q = p9.free(inv.buf).free(fu.buf).free(spec.buf).free(feat.buf).free(pool.buf);
        lemma_freed(room, p9, inv.buf, fu.buf, spec.buf, feat.buf, pool.buf);
        lemma_feature(room, p, sp, g);
        lemma_mark(room, p3, Cmd::FftBegin);
        lemma_both(room, p, p3, b);
        lemma_carry(room, p3, b);
        lemma_carry(room, p, b);
        if b.going() {
            lemma_transform(room, b, sp, feat, p.flags.fft_host);
            lemma_both(room, p, b, p7);
            lemma_mark(room, p7, Cmd::FftEnd);
            lemma_both(room, p, p7, e);
            lemma_carry(room, b, p7);
            lemma_carry(room, p7, e);
            if e.going() {
                sum_stays_within(room, e, inv, feat);
                lemma_both(room, p, e, p8);
                lemma_carry(room, e, p8);
                if p8.going() {
                    conv_stays_within(room, p8, sp.conv2, inv, 0, 1, false);
                } else {
                    assert(p9 == p8) by {
                        reveal(conv);
                    }
                    lemma_self(room, p8);
                }
                lemma_both(room, p, p8, p9);
                lemma_both(room, p, p9, q);
                lemma_carry(room, p9, q);
            } else {
                lemma_stuck(e, inv, feat, sp.conv2);
                lemma_both(room, p, p9, q);
            }
        } else {
            assert(p4.cmds == b.cmds && !p4.going()) by {
                reveal(spectrum);
            }
            assert(p5 == p4) by {
                reveal(conv);
            }
            assert(p6 == p5) by {
                reveal(bn_relu);
            }
            assert(p7.cmds == p6.cmds && !p7.going()) by {
                reveal(inverted);
            }
            lemma_stuck(e, inv, feat, sp.conv2);
            assert(stays_within(room, p, p9));
            lemma_both(room, p, p9, q);
        }
    } else {
        lemma_feature(room, p, sp, g);
    }
}

/// Work that has stopped goes no further.
proof fn lemma_stuck(e: Work, inv: DActs, feat: DActs, cv: DConv)
    requires
        !e.going(),
    ensures
        conv(sum(e, inv, feat), cv, inv, 0, 1, false).0 == e,
{
    reveal(sum);
    reveal(conv);
}

/// A command that touches nothing.
proof fn lemma_mark(room: Room, p: Work, cmd: Cmd)
    requires
        within(room, p.cmds, cmd),
    ensures
        stays_within(room, p, p.push(cmd)),
{
    broadcast use group_within;

    lemma_self(room, p);
}

proof fn lemma_freed(room: Room, p: Work, a: Dev, b: Dev, c: Dev, d: Dev, e: Dev)
    ensures
        stays_within(room, p, p.free(a).free(b).free(c).free(d).free(e)),
        p.free(a).free(b).free(c).free(d).free(e).going() == p.going(),
        p.cmds.len() <= p.free(a).free(b).free(c).free(d).free(e).cmds.len(),
{
    broadcast use group_within;

    lemma_self(room, p);
    let p1 = p.free(a);
    assert(stays_within(room, p, p1));
    let p2 = p1.free(b);
    assert(stays_within(room, p, p2));
    let p3 = p2.free(c);
    assert(stays_within(room, p, p3));
    let p4 = p3.free(d);
    assert(stays_within(room, p, p4));
}

// ---------------------------------------------------------------------------
// Fast Fourier convolutions
// ---------------------------------------------------------------------------

/// Whether the tensors of a layer have the sizes that they claim.
pub open spec fn ffc_ready(room: Room, cmds: Seq<Cmd>, w: DFfc) -> bool {
    &&& (w.l2l matches Some(cv) ==> conv_ready(room, cmds, cv))
    &&& (w.l2g matches Some(cv) ==> conv_ready(room, cmds, cv))
    &&& (w.g2l matches Some(cv) ==> conv_ready(room, cmds, cv))
    &&& (w.bn_l matches Some(bn) ==> bn_ready(room, cmds, bn))
    &&& (w.bn_g matches Some(bn) ==> bn_ready(room, cmds, bn))
    &&& (w.spectral matches Some(sp) ==> spectral_ready(room, cmds, sp))
}

/// Whether a block that may be absent is whole.
pub open spec fn block_if(room: Room, cmds: Seq<Cmd>, x: Option<DActs>) -> bool {
    x matches Some(x) ==> block(room, cmds, x)
}

/// The extents of the outputs of a layer.
pub open spec fn ffc_extent(w: DFfc, len: int) -> int {
    if w.kernel == 1 && w.stride == 1 {
        len
    } else {
        conv_extent(len, w.pad as int, w.kernel as int, w.stride as int)
    }
}

/// Whether a convolution of a layer takes `cin` channels to `cout`, with the layer's
/// kernel, and fits the arguments of its kernels.
pub open spec fn part_matches(w: DFfc, cv: DConv, src: DActs, cin: int, cout: int) -> bool {
    &&& cv.cin == cin
    &&& cv.cout == cout
    &&& cv.kh == w.kernel
    &&& cv.kw == w.kernel
    &&& conv_small(cv, src, w.pad, w.stride)
}

/// Whether the local output of a layer comes from something, and its parts match its
/// input and each other.
pub open spec fn local_matches(
    w: DFfc,
    inp: DActs,
    glob: Option<DActs>,
    skip: Option<DActs>,
) -> bool {
    &&& w.l2l is Some || w.g2l is Some
    &&& (w.l2l matches Some(cv) ==> part_matches(w, cv, inp, w.in_local as int, w.out_local as int))
    &&& (w.g2l matches Some(cv) ==> (glob matches Some(g) ==> {
        &&& part_matches(w, cv, g, g.c as int, w.out_local as int)
        &&& g.h == inp.h
        &&& g.w == inp.w
    }))
    &&& (w.bn_l matches Some(bn) ==> bn.channels == w.out_local)
    &&& small(w.out_local as int)
    &&& (skip matches Some(s) ==> s.buf.len == w.out_local * (ffc_extent(w, inp.h as int)
        * ffc_extent(w, inp.w as int)))
}

/// The same of the global output. The spectral branch halves the extents where the
/// stride is 2, and the convolution must agree with it.
pub open spec fn global_matches(
    w: DFfc,
    inp: DActs,
    glob: Option<DActs>,
    skip: Option<DActs>,
) -> bool {
    &&& w.l2g is Some || w.spectral is Some
    &&& (w.l2g matches Some(cv) ==> part_matches(w, cv, inp, w.in_local as int, w.out_global as int))
    &&& (w.spectral matches Some(sp) ==> (glob matches Some(g) ==> {
        &&& w.in_global <= g.c
        &&& spectral_matches(sp, w.in_global as int)
        &&& sp.conv2.cout == w.out_global
        &&& spectral_small(sp, DActs { c: w.in_global, ..g })
        &&& ffc_extent(w, inp.h as int) == if sp.stride == 2 {
            g.h as int / 2
        } else {
            g.h as int
        }
        &&& ffc_extent(w, inp.w as int) == if sp.stride == 2 {
            g.w as int / 2
        } else {
            g.w as int
        }
    }))
    &&& (w.bn_g matches Some(bn) ==> bn.channels == w.out_global)
    &&& small(w.out_global as int)
    &&& (skip matches Some(s) ==> s.buf.len == w.out_global * (ffc_extent(w, inp.h as int)
        * ffc_extent(w, inp.w as int)))
}

/// Whether a block has `c` channels and the extents of the outputs of a layer.
pub open spec fn output_of(w: DFfc, inp: DActs, c: int, x: DActs) -> bool {
    &&& x.c == c
    &&& x.h == ffc_extent(w, inp.h as int)
    &&& x.w == ffc_extent(w, inp.w as int)
}

/// The planes of a window lie in the allocation of their block.
proof fn lemma_window(room: Room, cmds: Seq<Cmd>, a: DActs, first: int, channels: usize)
    requires
        block(room, cmds, a),
        0 <= first,
        first + channels <= a.c,
        a.plane_len() <= usize::MAX,
    ensures
        a.view_fits(first, channels as int),
        block(room, cmds, a.window(first, channels)),
{
    window_lies_inside(a, first, channels);
    lemma_product(a.h as int, a.w as int);
    lemma_product(channels as int, a.plane_len());
}

/// One contribution to an output, or a block of no channels.
proof fn lemma_first(room: Room, p: Work, w: DFfc, cv: Option<DConv>, local: DActs, inp: DActs)
    requires
        p.going() ==> block(room, p.cmds, local),
        p.going() ==> (cv matches Some(cv) ==> conv_ready(room, p.cmds, cv)),
        cv matches Some(cv) ==> cv.cin == local.c && conv_small(cv, local, w.pad, w.stride) && cv.kh
            == w.kernel && cv.kw == w.kernel,
        local.h == inp.h,
        local.w == inp.w,
        conv_or_empty(p, w, cv, local, inp).0.cmds.len() <= usize::MAX,
    ensures
        stays_within(room, p, conv_or_empty(p, w, cv, local, inp).0),
        ({
            let (q, out) = conv_or_empty(p, w, cv, local, inp);
            q.going() ==> {
                &&& p.going()
                &&& block(room, q.cmds, out)
                &&& match cv {
                    Some(cv) => output_of(w, inp, cv.cout as int, out),
                    None => out.c == 0,
                }
            }
        }),
{
    broadcast use group_within;

    match cv {
        Some(cv) => {
            lemma_conv_grows(p, cv, local, w.pad, w.stride, w.reflect);
            conv_stays_within(room, p, cv, local, w.pad, w.stride, w.reflect);
        },
        None => {
            lemma_self(room, p);
            assert(0 * inp.plane_len() == 0) by (nonlinear_arith);
        },
    }
}

/// Two contributions become one.
proof fn lemma_merged(room: Room, p: Work, w: DFfc, inp: DActs, c: int, acc: DActs, o: DActs)
    requires
        p.going() ==> {
            &&& block(room, p.cmds, acc)
            &&& block(room, p.cmds, o)
            &&& output_of(w, inp, c, o)
            &&& acc.c == 0 || output_of(w, inp, c, acc)
        },
    ensures
        stays_within(room, p, merged(p, acc, o).0),
        grows(p, merged(p, acc, o).0),
        ({
            let (q, out) = merged(p, acc, o);
            q.going() ==> block(room, q.cmds, out) && output_of(w, inp, c, out)
        }),
{
    broadcast use group_within;

    lemma_self(room, p);
    reveal(sum);
}

/// Normalising an output, with what is to be added to it.
proof fn lemma_normalised(
    room: Room,
    p: Work,
    w: DFfc,
    inp: DActs,
    x: DActs,
    bn: Option<DBn>,
    skip: Option<DActs>,
)
    requires
        p.going() ==> {
            &&& block(room, p.cmds, x)
            &&& output_of(w, inp, x.c as int, x)
            &&& x.c > 0
            &&& small(x.c as int)
            &&& (bn matches Some(bn) ==> bn_ready(room, p.cmds, bn) && bn.channels == x.c)
            &&& block_if(room, p.cmds, skip)
            &&& (skip matches Some(s) ==> s.buf.len == x.c * (ffc_extent(w, inp.h as int)
                * ffc_extent(w, inp.w as int)))
        },
    ensures
        stays_within(room, p, normalised(p, x, bn, skip)),
        grows(p, normalised(p, x, bn, skip)),
{
    lemma_self(room, p);
    if let Some(bn) = bn {
        assert(grows(p, bn_relu_add(p, x, bn, skip))) by {
            reveal(bn_relu_add);
        }
        if p.going() {
            let plane = x.plane_len();
            lemma_product(x.h as int, x.w as int);
            assert(plane <= x.c * plane) by (nonlinear_arith)
                requires
                    x.c >= 1,
                    0 <= plane,
            ;
            bn_relu_add_stays_within(room, p, x, bn, skip);
        } else {
            assert(bn_relu_add(p, x, bn, skip) == p) by {
                reveal(bn_relu_add);
            }
        }
    }
}

proof fn lemma_local(
    room: Room,
    p: Work,
    w: DFfc,
    inp: DActs,
    local: DActs,
    glob: Option<DActs>,
    skip: Option<DActs>,
)
    requires
        p.going() ==> {
            &&& block(room, p.cmds, local)
            &&& block_if(room, p.cmds, glob)
            &&& block_if(room, p.cmds, skip)
            &&& ffc_ready(room, p.cmds, w)
            &&& local.c == w.in_local
            &&& local.h == inp.h
            &&& local.w == inp.w
        },
        w.out_local > 0,
        local_matches(w, inp, glob, skip),
        local_branch(p, w, inp, local, glob, skip).0.cmds.len() <= usize::MAX,
    ensures
        stays_within(room, p, local_branch(p, w, inp, local, glob, skip).0),
        ({
            let (q, out) = local_branch(p, w, inp, local, glob, skip);
            q.going() ==> block(room, q.cmds, out) && output_of(w, inp, w.out_local as int, out)
        }),
{
    if !p.going() {
        lemma_local_stuck(p, w, inp, local, glob, skip);
        lemma_self(room, p);
    } else {
        let (p1, acc) = conv_or_empty(p, w, w.l2l, local, inp);
        let q = local_branch(p, w, inp, local, glob, skip).0;
        if w.g2l is Some && glob is Some {
            let (cv, g) = (w.g2l->0, glob->0);
            let (a, o) = conv(p1, cv, g, w.pad, w.stride, w.reflect);
            let (p2, x) = merged(a, acc, o);
            lemma_conv_grows(p1, cv, g, w.pad, w.stride, w.reflect);
            lemma_tail_grows(a, acc, o, w.bn_l, skip);
            lemma_first(room, p, w, w.l2l, local, inp);
            lemma_carry(room, p, p1);
            conv_stays_within(room, p1, cv, g, w.pad, w.stride, w.reflect);
            lemma_carry(room, p1, a);
            lemma_both(room, p, p1, a);
            lemma_merged(room, a, w, inp, w.out_local as int, acc, o);
            lemma_carry(room, a, p2);
            lemma_both(room, p, a, p2);
            lemma_normalised(room, p2, w, inp, x, w.bn_l, skip);
            lemma_carry(room, p2, q);
            lemma_both(room, p, p2, q);
        } else {
            let p2 = if w.g2l is Some {
                p1.halt(StopView::Fault("convg2l present without a global branch"@))
            } else {
                p1
            };
            lemma_tail_grows(p2, acc, acc, w.bn_l, skip);
            lemma_first(room, p, w, w.l2l, local, inp);
            lemma_carry(room, p, p1);
            assert(stays_within(room, p, p2));
            lemma_normalised(room, p2, w, inp, acc, w.bn_l, skip);
            lemma_carry(room, p2, q);
            lemma_both(room, p, p2, q);
        }
    }
}

/// What closes a branch only adds commands.
proof fn lemma_tail_grows(p: Work, acc: DActs, o: DActs, bn: Option<DBn>, skip: Option<DActs>)
    ensures
        grows(p, merged(p, acc, o).0),
        grows(p, normalised(p, acc, bn, skip)),
        grows(
            merged(p, acc, o).0,
            normalised(merged(p, acc, o).0, merged(p, acc, o).1, bn, skip),
        ),
{
    reveal(sum);
    reveal(bn_relu_add);
}

proof fn lemma_conv_stuck(p: Work, cv: DConv, src: DActs, pad: usize, stride: usize, reflect: bool)
    requires
        !p.going(),
    ensures
        conv(p, cv, src, pad, stride, reflect).0 == p,
{
    reveal(conv);
}

proof fn lemma_bn_stuck(p: Work, x: DActs, bn: DBn, skip: Option<DActs>)
    requires
        !p.going(),
    ensures
        bn_relu(p, x, bn) == p,
        bn_relu_add(p, x, bn, skip) == p,
{
    reveal(bn_relu);
    reveal(bn_relu_add);
}

proof fn lemma_sum_stuck(p: Work, a: DActs, b: DActs)
    requires
        !p.going(),
    ensures
        sum(p, a, b) == p,
{
    reveal(sum);
}

proof fn lemma_pool_stuck(p: Work, g: DActs)
    requires
        !p.going(),
    ensures
        pooled(p, g).0 == p,
        copied(p, g).0 == p,
{
    reveal(pooled);
    reveal(copied);
}

proof fn lemma_transform_stuck(p: Work, feat: DActs, fu: DActs, half: usize)
    requires
        !p.going(),
    ensures
        spectrum(p, feat, half).0 == p,
        inverted(p, feat, fu, half).0 == p,
{
    reveal(spectrum);
    reveal(inverted);
}

/// Work that has stopped goes no further.
proof fn lemma_local_stuck(
    p: Work,
    w: DFfc,
    inp: DActs,
    local: DActs,
    glob: Option<DActs>,
    skip: Option<DActs>,
)
    requires
        !p.going(),
    ensures
        local_branch(p, w, inp, local, glob, skip).0 == p,
{
    if let Some(cv) = w.l2l {
        lemma_conv_stuck(p, cv, local, w.pad, w.stride, w.reflect);
    }
    let acc = conv_or_empty(p, w, w.l2l, local, inp).1;
    let mut x = acc;
    if w.g2l is Some && glob is Some {
        let (cv, g) = (w.g2l->0, glob->0);
        lemma_conv_stuck(p, cv, g, w.pad, w.stride, w.reflect);
        let o = conv(p, cv, g, w.pad, w.stride, w.reflect).1;
        lemma_sum_stuck(p, acc, o);
        x = merged(p, acc, o).1;
    }
    if let Some(bn) = w.bn_l {
        lemma_bn_stuck(p, x, bn, skip);
    }
}

proof fn lemma_global_stuck(
    p: Work,
    w: DFfc,
    inp: DActs,
    local: DActs,
    glob: Option<DActs>,
    skip: Option<DActs>,
)
    requires
        !p.going(),
    ensures
        global_branch(p, w, inp, local, glob, skip).0 == p,
{
    if let Some(cv) = w.l2g {
        lemma_conv_stuck(p, cv, local, w.pad, w.stride, w.reflect);
    }
    let acc = conv_or_empty(p, w, w.l2g, local, inp).1;
    let mut x = acc;
    if w.spectral is Some && glob is Some {
        let half = global_half(p, w, glob->0).1;
        lemma_spectral_stuck(p, w.spectral->0, half);
        let o = spectral(p, w.spectral->0, half).1;
        lemma_sum_stuck(p, acc, o);
        x = merged(p, acc, o).1;
    }
    if let Some(bn) = w.bn_g {
        lemma_bn_stuck(p, x, bn, skip);
    }
}

proof fn lemma_spectral_stuck(p: Work, sp: DSpectral, g: DActs)
    requires
        !p.going(),
    ensures
        spectral(p, sp, g).0 == p,
{
    reveal(spectral);
    lemma_pool_stuck(p, g);
    let pool = if sp.stride == 2 {
        pooled(p, g).1
    } else {
        copied(p, g).1
    };
    lemma_conv_stuck(p, sp.conv1, pool, 0, 1, false);
    let feat = conv(p, sp.conv1, pool, 0, 1, false).1;
    lemma_bn_stuck(p, feat, sp.bn1, None);
    lemma_transform_stuck(p, feat, feat, sp.half);
    let spec = spectrum(p, feat, sp.half).1;
    lemma_conv_stuck(p, sp.fu_conv, spec, 0, 1, false);
    let fu = conv(p, sp.fu_conv, spec, 0, 1, false).1;
    lemma_bn_stuck(p, fu, sp.fu_bn, None);
    lemma_transform_stuck(p, feat, fu, sp.half);
    let inv = inverted(p, feat, fu, sp.half).1;
    lemma_sum_stuck(p, inv, feat);
    lemma_conv_stuck(p, sp.conv2, inv, 0, 1, false);
}

proof fn lemma_global(
    room: Room,
    p: Work,
    w: DFfc,
    inp: DActs,
    local: DActs,
    glob: Option<DActs>,
    skip: Option<DActs>,
)
    requires
        p.going() ==> {
            &&& block(room, p.cmds, local)
            &&& block_if(room, p.cmds, glob)
            &&& block_if(room, p.cmds, skip)
            &&& ffc_ready(room, p.cmds, w)
            &&& local.c == w.in_local
            &&& local.h == inp.h
            &&& local.w == inp.w
        },
        w.out_global > 0,
        global_matches(w, inp, glob, skip),
        global_branch(p, w, inp, local, glob, skip).0.cmds.len() <= usize::MAX,
    ensures
        stays_within(room, p, global_branch(p, w, inp, local, glob, skip).0),
        ({
            let (q, out) = global_branch(p, w, inp, local, glob, skip);
            q.going() ==> block(room, q.cmds, out) && output_of(w, inp, w.out_global as int, out)
        }),
{
    if !p.going() {
        lemma_global_stuck(p, w, inp, local, glob, skip);
        lemma_self(room, p);
    } else {
        let (p1, acc) = conv_or_empty(p, w, w.l2g, local, inp);
        let q = global_branch(p, w, inp, local, glob, skip).0;
        if w.spectral is Some && glob is Some {
            let (sp, g) = (w.spectral->0, glob->0);
            let (h, half) = global_half(p1, w, g);
            let (a, o) = spectral(h, sp, half);
            let (p2, x) = merged(a, acc, o);
            lemma_spectral_grows(h, sp, half);
            lemma_tail_grows(a, acc, o, w.bn_g, skip);
            lemma_first(room, p, w, w.l2g, local, inp);
            lemma_carry(room, p, p1);
            assert(stays_within(room, p, h));
            lemma_window(room, p.cmds, g, g.c - w.in_global, w.in_global);
            assert(h == p1 && half == g.window(g.c - w.in_global, w.in_global));
            assert(half.plane_len() == g.plane_len());
            spectral_stays_within(room, h, sp, half);
            if a.going() {
                spectral_extents(h, sp, half);
            }
            lemma_carry(room, h, a);
            lemma_both(room, p, h, a);
            lemma_merged(room, a, w, inp, w.out_global as int, acc, o);
            lemma_carry(room, a, p2);
            lemma_both(room, p, a, p2);
            lemma_normalised(room, p2, w, inp, x, w.bn_g, skip);
            lemma_carry(room, p2, q);
            lemma_both(room, p, p2, q);
        } else {
            let p2 = if w.spectral is Some {
                p1.halt(StopView::Fault("convg2g present without a global branch"@))
            } else {
                p1
            };
            lemma_tail_grows(p2, acc, acc, w.bn_g, skip);
            lemma_first(room, p, w, w.l2g, local, inp);
            lemma_carry(room, p, p1);
            assert(stays_within(room, p, p2));
            lemma_normalised(room, p2, w, inp, acc, w.bn_g, skip);
            lemma_carry(room, p2, q);
            lemma_both(room, p, p2, q);
        }
    }
}

/// An evaluation of a layer whose parts match its input and each other stays within
/// its inputs, what is to be added, its weights and the blocks that it allocates, and
/// its outputs are whole blocks.
pub proof fn evaluation_stays_within(
    room: Room,
    p: Work,
    w: DFfc,
    inp: DActs,
    glob: Option<DActs>,
    skip_local: Option<DActs>,
    skip_global: Option<DActs>,
)
    requires
        p.going() ==> {
            &&& block(room, p.cmds, inp)
            &&& block_if(room, p.cmds, glob)
            &&& block_if(room, p.cmds, skip_local)
            &&& block_if(room, p.cmds, skip_global)
            &&& ffc_ready(room, p.cmds, w)
        },
        w.in_local <= inp.c,
        w.in_global == 0 ==> inp.c == w.in_local,
        inp.plane_len() <= usize::MAX,
        w.out_local > 0 ==> local_matches(w, inp, glob, skip_local),
        w.out_global > 0 ==> global_matches(w, inp, glob, skip_global),
        ffc(p, w, inp, glob, skip_local, skip_global).work.cmds.len() <= usize::MAX,
    ensures
        ({
            let b = ffc(p, w, inp, glob, skip_local, skip_global);
            &&& stays_within(room, p, b.work)
            &&& b.work.going() ==> block(room, b.work.cmds, b.local)
            &&& b.work.going() && w.out_local > 0 ==> output_of(
                w,
                inp,
                w.out_local as int,
                b.local,
            )
            &&& w.out_global == 0 ==> b.global is None
            &&& b.work.going() && w.out_global > 0 ==> b.global is Some && block(
                room,
                b.work.cmds,
                b.global->0,
            ) && output_of(w, inp, w.out_global as int, b.global->0)
        }),
{
    broadcast use group_within;

    reveal(ffc);
    lemma_self(room, p);
    let b = ffc(p, w, inp, glob, skip_local, skip_global);
    let (p1, half) = local_half(p, w, inp);
    if p.going() && w.in_global != 0 {
        lemma_window(room, p.cmds, inp, 0, w.in_local);
    }
    assert(stays_within(room, p, p1));
    let p2 = if w.out_local > 0 {
        local_branch(p1, w, inp, half, glob, skip_local).0
    } else {
        p1
    };
    lemma_local_grows(p1, w, inp, half, glob, skip_local);
    lemma_global_grows(p2, w, inp, half, glob, skip_global);
    let p3 = if w.out_global > 0 {
        global_branch(p2, w, inp, half, glob, skip_global).0
    } else {
        p2
    };
    assert(grows(p3, b.work));
    if w.out_local > 0 {
        lemma_local(room, p1, w, inp, half, glob, skip_local);
    } else {
        lemma_self(room, p1);
    }
    lemma_carry(room, p1, p2);
    lemma_both(room, p, p1, p2);
    if w.out_global > 0 {
        lemma_global(room, p2, w, inp, half, glob, skip_global);
    } else {
        lemma_self(room, p2);
    }
    lemma_carry(room, p2, p3);
    lemma_both(room, p, p2, p3);
    lemma_self(room, p3);
    assert(0 * inp.plane_len() == 0) by (nonlinear_arith);
    assert(stays_within(room, p3, b.work));
    lemma_carry(room, p3, b.work);
    lemma_both(room, p, p3, b.work);
}

} // verus!
