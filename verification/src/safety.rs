//! What every recorded program keeps: a buffer is used only while it is allocated,
//! weights only once they are on the device, where they are copied once, a transform
//! only after its plan; and a program that runs to its end gives everything back.

use vstd::prelude::*;

use crate::cuda::{Addr, Base, Call, Cmd, DActs, Dev, Role, StopView, Sub, Work};
use crate::engine::upsampled;
use crate::fft::PlanKey;
use crate::ops::{
    addr_of, biased, bn_relu, bn_relu_add, concat_fits, concatenated, conv, conv_fits,
    conv_or_empty, conv_sizes, copied, direct, direct_fits, ffc, fits3, global_branch, global_half,
    inverted, local_branch, local_half, merged, normalised, nothing, pad_fits, padded, patch_conv,
    phase, phase_fits, phase_len, phases_done, plan_key, planes_fit, pointwise, pointwise_fits, pooled,
    scaled, sigmoid, spectral, spectral_fits, spectrum, sum, tap_count, timed, up_fits, up_phases, DBn,
    DConv, DConvT, DFfc, DSpectral, Phases,
};

verus! {

broadcast use crate::cuda::group_work;

// ---------------------------------------------------------------------------
// Programs
// ---------------------------------------------------------------------------

/// What is on the device, and what was copied from it.
pub ghost struct Mem {
    /// The allocated blocks.
    pub heap: Set<usize>,
    /// Whether the weight blob is there.
    pub blob: bool,
    /// Whether there is room for the weight blob.
    pub blob_room: bool,
    /// Whether the staged tensors are there.
    pub staged: bool,
    /// Whether there is room for the staged tensors.
    pub stage_room: bool,
    /// The plans that were made.
    pub plans: Set<PlanKey>,
    /// How many results were copied to the host.
    pub results: nat,
}

/// Nothing on the device.
pub open spec fn bare() -> Mem {
    Mem {
        heap: Set::empty(),
        blob: false,
        blob_room: false,
        staged: false,
        stage_room: false,
        plans: Set::empty(),
        results: 0,
    }
}

/// What a command leaves on the device. Where nothing is staged, there is nothing to
/// copy.
pub open spec fn after(m: Mem, cmd: Cmd) -> Mem {
    match cmd {
        Cmd::Malloc { id, .. } => Mem { heap: m.heap.insert(id), ..m },
        Cmd::Free { id, .. } => Mem { heap: m.heap.remove(id), ..m },
        Cmd::BlobMalloc { .. } => Mem { blob_room: true, ..m },
        Cmd::BlobCopy { .. } => Mem { blob: true, ..m },
        Cmd::StageMalloc { floats } => Mem {
            stage_room: true,
            staged: m.staged || floats == 0,
            ..m
        },
        Cmd::StageCopy { .. } => Mem { staged: true, ..m },
        Cmd::Plan { key } => Mem { plans: m.plans.insert(key), ..m },
        Cmd::Download { .. } => Mem { results: m.results + 1, ..m },
        _ => m,
    }
}

/// What a program leaves on the device.
pub open spec fn mem(cmds: Seq<Cmd>) -> Mem
    decreases cmds.len(),
{
    if cmds.len() == 0 {
        bare()
    } else {
        after(mem(cmds.drop_last()), cmds.last())
    }
}

/// Whether a place can be used.
pub open spec fn there(m: Mem, a: Addr) -> bool {
    match a.base {
        Base::Heap(id) => m.heap.contains(id),
        Base::Blob => m.blob,
        Base::Staging => m.staged,
    }
}

/// Whether everything that a call is handed can be used.
pub open spec fn call_allowed(m: Mem, call: Call) -> bool {
    match call {
        Call::Im2col { src, col, .. } => there(m, src) && there(m, col),
        Call::ConvTranspose { src, weight, bias, out, .. } => there(m, src) && there(m, weight)
            && there(m, bias) && there(m, out),
        Call::BnRelu { x, scale, shift, .. } => there(m, x) && there(m, scale) && there(m, shift),
        Call::Sigmoid { x, .. } => there(m, x),
        Call::AddInplace { a, b, .. } => there(m, a) && there(m, b),
        Call::Scale { x, .. } => there(m, x),
        Call::ReflectPad { src, out, .. } => there(m, src) && there(m, out),
        Call::Avgpool2x2 { src, out, .. } => there(m, src) && there(m, out),
        Call::CopyPlane { src, out, .. } => there(m, src) && there(m, out),
        Call::SpecPack { complex, packed, .. } => there(m, complex) && there(m, packed),
        Call::SpecUnpack { packed, complex, .. } => there(m, packed) && there(m, complex),
        Call::ConvtCol { src, col, .. } => there(m, src) && there(m, col),
        Call::ConvtPut { phase, out, bias, .. } => there(m, phase) && there(m, out) && there(
            m,
            bias,
        ),
        Call::BiasPlane { out, bias, .. } => there(m, out) && there(m, bias),
        Call::Conv7x7 { src, weight, bias, out, .. } => {
            &&& there(m, src)
            &&& there(m, weight)
            &&& there(m, out)
            &&& (bias matches Some(b) ==> there(m, b))
        },
        Call::BnReluAdd { x, skip, scale, shift, .. } => {
            &&& there(m, x)
            &&& there(m, scale)
            &&& there(m, shift)
            &&& (skip matches Some(s) ==> there(m, s))
        },
    }
}

/// Whether a command uses only what is there. A block is allocated under a name
/// that no other has, and freed once; the room for the weight blob and for the
/// staged tensors is made once, and filled once.
pub open spec fn allowed(m: Mem, cmd: Cmd) -> bool {
    match cmd {
        Cmd::Malloc { id, .. } => !m.heap.contains(id),
        Cmd::Free { id, .. } => m.heap.contains(id),
        Cmd::BlobMalloc { .. } => !m.blob_room,
        Cmd::BlobCopy { .. } => m.blob_room && !m.blob,
        Cmd::StageMalloc { .. } => !m.stage_room,
        Cmd::StageCopy { .. } => m.stage_room && !m.staged,
        Cmd::Upload { to, .. } => there(m, to),
        Cmd::Input { to, .. } => there(m, to),
        Cmd::Launch { call, .. } => call_allowed(m, call),
        Cmd::Gemm { a, b, c, .. } => there(m, a) && there(m, b) && there(m, c),
        Cmd::Fft { key, src, dst } => m.plans.contains(key) && there(m, src) && there(m, dst),
        Cmd::Fetch { src } => there(m, src.addr),
        Cmd::HostFft { to, .. } => there(m, to.addr),
        Cmd::Download { src } => there(m, src.addr),
        Cmd::Dump { local, global, .. } => there(m, local.buf.addr) && (global matches Some(g)
            ==> there(m, g.buf.addr)),
        _ => true,
    }
}

/// Whether every command of a program uses only what is there.
pub open spec fn safe(cmds: Seq<Cmd>) -> bool
    decreases cmds.len(),
{
    cmds.len() > 0 ==> safe(cmds.drop_last()) && allowed(mem(cmds.drop_last()), cmds.last())
}

/// In a safe program each command, taken by its position, uses only what the
/// commands before it leave on the device.
pub proof fn safe_at_every_command(cmds: Seq<Cmd>, i: int)
    requires
        safe(cmds),
        0 <= i < cmds.len(),
    ensures
        allowed(mem(cmds.take(i)), cmds[i]),
    decreases cmds.len(),
{
    if i == cmds.len() - 1 {
        assert(cmds.take(i) =~= cmds.drop_last());
    } else {
        safe_at_every_command(cmds.drop_last(), i);
        assert(cmds.drop_last().take(i) =~= cmds.take(i));
    }
}

/// What was made room for or copied stays.
proof fn lemma_arenas_stay(cmds: Seq<Cmd>, i: int, j: int)
    requires
        0 <= i <= j <= cmds.len(),
    ensures
        mem(cmds.take(i)).blob_room ==> mem(cmds.take(j)).blob_room,
        mem(cmds.take(i)).blob ==> mem(cmds.take(j)).blob,
        mem(cmds.take(i)).stage_room ==> mem(cmds.take(j)).stage_room,
        mem(cmds.take(i)).staged ==> mem(cmds.take(j)).staged,
    decreases j - i,
{
    if i < j {
        lemma_arenas_stay(cmds, i, j - 1);
        assert(cmds.take(j).drop_last() =~= cmds.take(j - 1));
    }
}

/// A safe program makes room for the weight blob at most once and copies it at most
/// once, and so it does with the staged tensors: no two of its commands do the same
/// of these.
pub proof fn weights_go_up_once(cmds: Seq<Cmd>, i: int, j: int)
    requires
        safe(cmds),
        0 <= i < j < cmds.len(),
    ensures
        !(cmds[i] is BlobMalloc && cmds[j] is BlobMalloc),
        !(cmds[i] is BlobCopy && cmds[j] is BlobCopy),
        !(cmds[i] is StageMalloc && cmds[j] is StageMalloc),
        !(cmds[i] is StageCopy && cmds[j] is StageCopy),
{
    assert(cmds.take(i + 1).drop_last() =~= cmds.take(i));
    lemma_arenas_stay(cmds, i + 1, j);
    safe_at_every_command(cmds, j);
}

// ---------------------------------------------------------------------------
// Recording
// ---------------------------------------------------------------------------

/// What the recorded work leaves on the device.
pub open spec fn at(p: Work) -> Mem {
    mem(p.cmds)
}

/// The recorded work is safe so far, and its blocks are named by positions in it.
pub open spec fn sound(p: Work) -> bool {
    &&& safe(p.cmds)
    &&& forall|id: usize| #[trigger] at(p).heap.contains(id) ==> id < p.cmds.len()
}

/// `q` has what `p` has and perhaps more, and goes on only where `p` does.
pub open spec fn grows(p: Work, q: Work) -> bool {
    &&& p.cmds.len() <= q.cmds.len()
    &&& q.going() ==> p.going()
    &&& q.flags == p.flags
}

/// `n` is `m` with the blocks `heap`, and perhaps with more plans.
pub open spec fn same_but_plans(m: Mem, n: Mem, heap: Set<usize>) -> bool {
    &&& n.heap == heap
    &&& n.blob == m.blob
    &&& n.blob_room == m.blob_room
    &&& n.staged == m.staged
    &&& n.stage_room == m.stage_room
    &&& n.results == m.results
    &&& forall|k: PlanKey| m.plans.contains(k) ==> #[trigger] n.plans.contains(k)
}

/// `q` follows `p`, and where it goes on it leaves the same on the device, but for
/// more plans.
pub open spec fn keeps(p: Work, q: Work) -> bool {
    &&& sound(q)
    &&& grows(p, q)
    &&& q.going() ==> same_but_plans(at(p), at(q), at(p).heap)
}

/// `q` follows `p`, and where it goes on it leaves one block more, which `d` owns.
pub open spec fn adds(p: Work, q: Work, d: Dev) -> bool {
    &&& sound(q)
    &&& grows(p, q)
    &&& q.going() ==> {
        &&& owned_id(d) is Some
        &&& !at(p).heap.contains(owned_id(d)->0)
        &&& same_but_plans(at(p), at(q), at(p).heap.insert(owned_id(d)->0))
    }
}

/// The block that a buffer owns.
pub open spec fn owned_id(d: Dev) -> Option<usize> {
    match d.addr.base {
        Base::Heap(id) => if d.owned {
            Some(id)
        } else {
            None
        },
        _ => None,
    }
}

pub(crate) proof fn lemma_push(p: Work, cmd: Cmd)
    requires
        sound(p),
        p.going() ==> allowed(at(p), cmd),
        cmd matches Cmd::Malloc { id, .. } ==> id == p.cmds.len(),
    ensures
        sound(p.push(cmd)),
        grows(p, p.push(cmd)),
        p.going() ==> at(p.push(cmd)) == after(at(p), cmd),
{
    reveal(Work::push);
    let q = p.push(cmd);
    if p.going() {
        assert(q.cmds.drop_last() =~= p.cmds);
        assert(q.cmds.last() == cmd);
    }
}

pub(crate) proof fn lemma_push_if(p: Work, on: bool, cmd: Cmd)
    requires
        sound(p),
        on && p.going() ==> allowed(at(p), cmd),
        after(at(p), cmd) == at(p),
        !(cmd is Malloc),
    ensures
        keeps(p, p.push_if(on, cmd)),
{
    if on {
        lemma_push(p, cmd);
    }
}

pub(crate) proof fn lemma_allocate(p: Work, len: int)
    requires
        sound(p),
        0 <= len,
        p.allocate(len).cmds.len() <= usize::MAX,
    ensures
        adds(p, p.allocate(len), p.fresh(len as usize)),
{
    if len * 4 <= usize::MAX && p.going() {
        lemma_push(p, Cmd::Malloc { id: p.cmds.len() as usize, floats: len as usize });
    } else {
        assert(at(p.allocate(len)) == at(p));
    }
}

pub(crate) proof fn lemma_free(p: Work, d: Dev)
    requires
        sound(p),
        p.going() && owned_id(d) is Some ==> at(p).heap.contains(owned_id(d)->0),
    ensures
        sound(p.free(d)),
        grows(p, p.free(d)),
        p.going() ==> at(p.free(d)) == match owned_id(d) {
            Some(id) => Mem { heap: at(p).heap.remove(id), ..at(p) },
            None => at(p),
        },
{
    if let Some(id) = owned_id(d) {
        lemma_push(p, Cmd::Free { id, floats: d.len });
    }
}

pub(crate) proof fn lemma_launch(p: Work, call: Call, n: int)
    requires
        sound(p),
        p.going() ==> call_allowed(at(p), call),
    ensures
        keeps(p, p.launch(call, n)),
{
    lemma_push(p, Cmd::Launch { call, grid: crate::cuda::grid_len(n, crate::cuda::BLOCK as int) as u32 });
}

// ---------------------------------------------------------------------------
// Weights
// ---------------------------------------------------------------------------

/// Whether a convolution's weights can be used.
pub open spec fn conv_there(m: Mem, cv: DConv) -> bool {
    &&& there(m, cv.w.addr)
    &&& (cv.bias matches Some(b) ==> there(m, b.addr))
    &&& (cv.w_t matches Some(t) ==> there(m, t.addr))
}

/// Whether a normalisation's values can be used.
pub open spec fn bn_there(m: Mem, bn: DBn) -> bool {
    there(m, bn.scale.addr) && there(m, bn.shift.addr)
}

// ---------------------------------------------------------------------------
// Convolutions
// ---------------------------------------------------------------------------

pub(crate) proof fn lemma_biased(p: Work, out: Dev, bias: Option<Dev>, cout: usize, n: usize)
    requires
        sound(p),
        p.going() ==> there(at(p), out.addr),
        p.going() ==> (bias matches Some(b) ==> there(at(p), b.addr)),
    ensures
        keeps(p, biased(p, out, bias, cout, n)),
{
    if let Some(b) = bias {
        lemma_launch(
            p,
            Call::BiasPlane { out: out.addr, bias: b.addr, cout: cout as i32, n: n as i64 },
            cout * n,
        );
    }
}

pub(crate) proof fn lemma_timed(p: Work, cmd: Cmd, sub: Sub, elems: int, flops: int)
    requires
        sound(p),
        cmd is Gemm,
        p.going() ==> allowed(at(p), cmd),
    ensures
        keeps(p, timed(p, cmd, sub, elems, flops)),
{
    let on = p.flags.profile_sub;
    let p1 = p.push_if(on, Cmd::SubBegin);
    lemma_push_if(p, on, Cmd::SubBegin);
    let p2 = p1.push(cmd);
    lemma_push(p1, cmd);
    let p3 = p2.sync_if(on);
    lemma_push_if(p2, on, Cmd::Sync);
    lemma_push_if(
        p3,
        on,
        Cmd::SubEnd { sub, elems: elems as usize, flops: flops as usize },
    );
}

pub(crate) proof fn lemma_pointwise(p: Work, cv: DConv, src: DActs)
    requires
        sound(p),
        p.going() ==> there(at(p), src.buf.addr) && conv_there(at(p), cv),
        pointwise(p, cv, src).0.cmds.len() <= usize::MAX,
    ensures
        adds(p, pointwise(p, cv, src).0, pointwise(p, cv, src).1.buf),
{
    let n = src.plane_len();
    if pointwise_fits(cv, src, p.flags.profile_sub) {
        let out = p.fresh((cv.cout * n) as usize);
        let p0 = p.allocate(cv.cout * n);
        let cmd = Cmd::Gemm {
            role: Role::Conv1x1,
            m: n as i32,
            n: cv.cout as i32,
            k: cv.cin as i32,
            a: src.buf.addr,
            lda: n as i32,
            b: cv.w.addr,
            ldb: cv.cin as i32,
            c: out.addr,
            ldc: n as i32,
        };
        let p1 = timed(p0, cmd, Sub::Sgemm1x1, n * cv.cout, 2 * n * cv.cout * cv.cin);
        assert(0 <= cv.cout * n) by (nonlinear_arith)
            requires
                n == src.h * src.w,
        ;
        lemma_allocate(p, cv.cout * n);
        lemma_timed(p0, cmd, Sub::Sgemm1x1, n * cv.cout, 2 * n * cv.cout * cv.cin);
        lemma_biased(p1, out, cv.bias, cv.cout, n as usize);
    }
}

pub(crate) proof fn lemma_direct(p: Work, cv: DConv, src: DActs, w_t: Dev)
    requires
        sound(p),
        p.going() ==> there(at(p), src.buf.addr) && conv_there(at(p), cv) && there(
            at(p),
            w_t.addr,
        ),
        direct(p, cv, src, w_t).0.cmds.len() <= usize::MAX,
    ensures
        adds(p, direct(p, cv, src, w_t).0, direct(p, cv, src, w_t).1.buf),
{
    if direct_fits(cv, src) {
        let (oh, ow) = (src.h - 6, src.w - 6);
        let out = p.fresh((cv.cout * oh * ow) as usize);
        let p0 = p.allocate(cv.cout * oh * ow);
        let call = Call::Conv7x7 {
            src: src.buf.addr,
            weight: w_t.addr,
            bias: match cv.bias {
                Some(b) => Some(b.addr),
                None => None,
            },
            out: out.addr,
            cin: cv.cin as i32,
            cout: cv.cout as i32,
            h_in: src.h as i32,
            w_in: src.w as i32,
            h_out: oh as i32,
            w_out: ow as i32,
        };
        assert(0 <= cv.cout * oh * ow) by (nonlinear_arith)
            requires
                0 <= oh,
                0 <= ow,
        ;
        lemma_allocate(p, cv.cout * oh * ow);
        lemma_launch(p0, call, oh * ow);
    }
}

pub(crate) proof fn lemma_patch_conv(
    p: Work,
    cv: DConv,
    src: DActs,
    pad: usize,
    stride: usize,
    reflect: bool,
)
    requires
        sound(p),
        p.going() ==> there(at(p), src.buf.addr) && conv_there(at(p), cv),
        patch_conv(p, cv, src, pad, stride, reflect).0.cmds.len() <= usize::MAX,
    ensures
        adds(
            p,
            patch_conv(p, cv, src, pad, stride, reflect).0,
            patch_conv(p, cv, src, pad, stride, reflect).1.buf,
        ),
{
    let on = p.flags.profile_sub;
    let z = conv_sizes(cv, src, pad, stride);
    if conv_fits(cv, src, pad, stride, on) {
        lemma_conv_sizes(cv, src, pad, stride, on);
        let col = p.fresh((z.k * z.n) as usize);
        let p1 = p.allocate(z.k * z.n);
        let out = p1.fresh((cv.cout * z.n) as usize);
        let p2 = p1.allocate(cv.cout * z.n);
        let call = Call::Im2col {
            src: src.buf.addr,
            col: col.addr,
            cin: cv.cin as i32,
            h: src.h as i32,
            w: src.w as i32,
            kh: cv.kh as i32,
            kw: cv.kw as i32,
            ph: pad as i32,
            pw: pad as i32,
            stride: stride as i32,
            oh: z.oh as i32,
            ow: z.ow as i32,
            reflect: if reflect {
                1
            } else {
                0
            },
        };
        let end = Cmd::SubEnd {
            sub: Sub::Im2col,
            elems: (z.n * cv.cout) as usize,
            flops: (z.n * cv.cout * z.k) as usize,
        };
        let a1 = p2.push_if(on, Cmd::SubBegin);
        let a2 = a1.launch(call, z.k * z.n);
        let a3 = a2.sync_if(on);
        let p3 = a3.push_if(on, end);
        let gemm = Cmd::Gemm {
            role: Role::Conv,
            m: z.n as i32,
            n: cv.cout as i32,
            k: z.k as i32,
            a: col.addr,
            lda: z.n as i32,
            b: cv.w.addr,
            ldb: z.k as i32,
            c: out.addr,
            ldc: z.n as i32,
        };
        let p4 = timed(p3, gemm, Sub::Sgemm, z.n * cv.cout, 2 * z.n * cv.cout * z.k);
        let p5 = biased(p4, out, cv.bias, cv.cout, z.n as usize);
        assert(p5.cmds.len() <= p5.free(col).cmds.len());
        assert(p4.cmds.len() <= p5.cmds.len());
        assert(p3.cmds.len() <= p4.cmds.len());
        assert(p2.cmds.len() <= p3.cmds.len());
        lemma_allocate(p, z.k * z.n);
        lemma_allocate(p1, cv.cout * z.n);
        lemma_push_if(p2, on, Cmd::SubBegin);
        lemma_launch(a1, call, z.k * z.n);
        lemma_push_if(a2, on, Cmd::Sync);
        lemma_push_if(a3, on, end);
        lemma_timed(p3, gemm, Sub::Sgemm, z.n * cv.cout, 2 * z.n * cv.cout * z.k);
        lemma_biased(p4, out, cv.bias, cv.cout, z.n as usize);
        lemma_free(p5, col);
        let q = p5.free(col);
        if q.going() {
            assert(at(q).heap =~= at(p).heap.insert(owned_id(out)->0));
        }
    }
}

pub(crate) proof fn lemma_conv_sizes(cv: DConv, src: DActs, pad: usize, stride: usize, on: bool)
    requires
        conv_fits(cv, src, pad, stride, on),
    ensures
        ({
            let z = conv_sizes(cv, src, pad, stride);
            0 <= z.k * z.n && 0 <= cv.cout * z.n
        }),
{
    let z = conv_sizes(cv, src, pad, stride);
    assert(z.oh >= 1) by (nonlinear_arith)
        requires
            z.oh == (src.h + 2 * pad - cv.kh) / (stride as int) + 1,
            src.h + 2 * pad - cv.kh >= 0,
            stride > 0,
    ;
    assert(z.ow >= 1) by (nonlinear_arith)
        requires
            z.ow == (src.w + 2 * pad - cv.kw) / (stride as int) + 1,
            src.w + 2 * pad - cv.kw >= 0,
            stride > 0,
    ;
    assert(z.n >= 0) by (nonlinear_arith)
        requires
            z.n == z.oh * z.ow,
            z.oh >= 1,
            z.ow >= 1,
    ;
    assert(z.k >= 0) by (nonlinear_arith)
        requires
            z.k == cv.cin * cv.kh * cv.kw,
    ;
    assert(0 <= z.k * z.n && 0 <= cv.cout * z.n) by (nonlinear_arith)
        requires
            z.k >= 0,
            z.n >= 0,
    ;
}

pub(crate) proof fn lemma_conv(p: Work, cv: DConv, src: DActs, pad: usize, stride: usize, reflect: bool)
    requires
        sound(p),
        p.going() ==> there(at(p), src.buf.addr) && conv_there(at(p), cv),
        conv(p, cv, src, pad, stride, reflect).0.cmds.len() <= usize::MAX,
    ensures
        adds(
            p,
            conv(p, cv, src, pad, stride, reflect).0,
            conv(p, cv, src, pad, stride, reflect).1.buf,
        ),
{
    reveal(conv);
    if cv.kh == 1 && cv.kw == 1 && stride == 1 {
        lemma_pointwise(p, cv, src);
    } else if cv.kh == 7 && cv.kw == 7 && stride == 1 && pad == 0 && cv.w_t is Some {
        lemma_direct(p, cv, src, cv.w_t->0);
    } else {
        lemma_patch_conv(p, cv, src, pad, stride, reflect);
    }
}

pub(crate) proof fn lemma_conv_grows(
    p: Work,
    cv: DConv,
    src: DActs,
    pad: usize,
    stride: usize,
    reflect: bool,
)
    ensures
        grows(p, conv(p, cv, src, pad, stride, reflect).0),
{
    reveal(conv);
}

// ---------------------------------------------------------------------------
// Elementwise operations, padding, pooling, copying
// ---------------------------------------------------------------------------

pub(crate) proof fn lemma_bn_relu(p: Work, x: DActs, bn: DBn)
    requires
        sound(p),
        p.going() ==> there(at(p), x.buf.addr) && bn_there(at(p), bn),
    ensures
        keeps(p, bn_relu(p, x, bn)),
{
    reveal(bn_relu);
    if planes_fit(x, bn.channels) {
        lemma_launch(
            p,
            Call::BnRelu {
                x: x.buf.addr,
                scale: bn.scale.addr,
                shift: bn.shift.addr,
                plane: x.plane_len() as i64,
                channels: bn.channels as i32,
            },
            x.plane_len() * bn.channels,
        );
    } else {
        assert(at(bn_relu(p, x, bn)) == at(p));
    }
}

pub(crate) proof fn lemma_normalised(p: Work, x: DActs, bn: Option<DBn>, skip: Option<DActs>)
    requires
        sound(p),
        p.going() ==> there(at(p), x.buf.addr),
        p.going() ==> (bn matches Some(b) ==> bn_there(at(p), b)),
        p.going() ==> (skip matches Some(s) ==> there(at(p), s.buf.addr)),
    ensures
        keeps(p, normalised(p, x, bn, skip)),
{
    reveal(bn_relu_add);
    if let Some(bn) = bn {
        if planes_fit(x, bn.channels) {
            lemma_launch(
                p,
                Call::BnReluAdd {
                    x: x.buf.addr,
                    skip: addr_of(skip),
                    scale: bn.scale.addr,
                    shift: bn.shift.addr,
                    plane: x.plane_len() as i64,
                    channels: bn.channels as i32,
                },
                x.plane_len() * bn.channels,
            );
        } else {
            assert(at(bn_relu_add(p, x, bn, skip)) == at(p));
        }
    }
}

pub(crate) proof fn lemma_sum(p: Work, a: DActs, b: DActs)
    requires
        sound(p),
        p.going() ==> there(at(p), a.buf.addr) && there(at(p), b.buf.addr),
    ensures
        keeps(p, sum(p, a, b)),
{
    reveal(sum);
    lemma_launch(
        p,
        Call::AddInplace { a: a.buf.addr, b: b.buf.addr, n: a.buf.len as i64 },
        a.buf.len as int,
    );
}

pub(crate) proof fn lemma_sigmoid(p: Work, x: DActs)
    requires
        sound(p),
        p.going() ==> there(at(p), x.buf.addr),
    ensures
        keeps(p, sigmoid(p, x)),
{
    lemma_launch(
        p,
        Call::Sigmoid { x: x.buf.addr, n: x.buf.len as i64 },
        x.buf.len as int,
    );
}

pub(crate) proof fn lemma_padded(p: Work, src: DActs, pad: usize)
    requires
        sound(p),
        p.going() ==> there(at(p), src.buf.addr),
        padded(p, src, pad).0.cmds.len() <= usize::MAX,
    ensures
        adds(p, padded(p, src, pad).0, padded(p, src, pad).1.buf),
{
    reveal(padded);
    if pad_fits(src, pad) {
        let (oh, ow) = (src.h + 2 * pad, src.w + 2 * pad);
        let n = src.c * oh * ow;
        let out = p.fresh(n as usize);
        assert(0 <= n) by (nonlinear_arith)
            requires
                n == src.c * oh * ow,
                oh >= 0,
                ow >= 0,
        ;
        lemma_allocate(p, n);
        lemma_launch(
            p.allocate(n),
            Call::ReflectPad {
                src: src.buf.addr,
                out: out.addr,
                c: src.c as i32,
                h: src.h as i32,
                w: src.w as i32,
                pad: pad as i32,
            },
            n,
        );
    } else {
        assert(at(padded(p, src, pad).0) == at(p));
    }
}

pub(crate) proof fn lemma_pooled(p: Work, src: DActs)
    requires
        sound(p),
        p.going() ==> there(at(p), src.buf.addr),
        pooled(p, src).0.cmds.len() <= usize::MAX,
    ensures
        adds(p, pooled(p, src).0, pooled(p, src).1.buf),
{
    reveal(pooled);
    let (oh, ow) = (src.h / 2, src.w / 2);
    if fits3(src.c as int, oh as int, ow as int) {
        let n = src.c * oh * ow;
        let out = p.fresh(n as usize);
        assert(0 <= n) by (nonlinear_arith)
            requires
                n == src.c * oh * ow,
        ;
        lemma_allocate(p, n);
        lemma_launch(
            p.allocate(n),
            Call::Avgpool2x2 {
                src: src.buf.addr,
                out: out.addr,
                c: src.c as i32,
                h: src.h as i32,
                w: src.w as i32,
            },
            n,
        );
    } else {
        assert(at(pooled(p, src).0) == at(p));
    }
}

pub(crate) proof fn lemma_copied(p: Work, src: DActs)
    requires
        sound(p),
        p.going() ==> there(at(p), src.buf.addr),
        copied(p, src).0.cmds.len() <= usize::MAX,
    ensures
        adds(p, copied(p, src).0, copied(p, src).1.buf),
{
    reveal(copied);
    let out = p.fresh(src.buf.len);
    lemma_allocate(p, src.buf.len as int);
    lemma_launch(
        p.allocate(src.buf.len as int),
        Call::CopyPlane { src: src.buf.addr, out: out.addr, n: src.buf.len as i64 },
        src.buf.len as int,
    );
}

pub(crate) proof fn lemma_concatenated(p: Work, a: DActs, g: DActs)
    requires
        sound(p),
        p.going() ==> there(at(p), a.buf.addr) && there(at(p), g.buf.addr),
        concatenated(p, a, g).0.cmds.len() <= usize::MAX,
    ensures
        adds(p, concatenated(p, a, g).0, concatenated(p, a, g).1.buf),
{
    reveal(concatenated);
    if concat_fits(a, g) {
        let len = (a.buf.len + g.buf.len) as usize;
        let out = p.fresh(len);
        let second = Addr { base: out.addr.base, offset: (a.buf.len * 4) as usize };
        let first = Call::CopyPlane { src: a.buf.addr, out: out.addr, n: a.buf.len as i64 };
        let p1 = p.allocate(len as int);
        let p2 = p1.launch(first, a.buf.len as int);
        lemma_allocate(p, len as int);
        lemma_launch(p1, first, a.buf.len as int);
        lemma_launch(
            p2,
            Call::CopyPlane { src: g.buf.addr, out: second, n: g.buf.len as i64 },
            g.buf.len as int,
        );
    } else {
        assert(at(concatenated(p, a, g).0) == at(p));
    }
}

// ---------------------------------------------------------------------------
// Transposed convolutions
// ---------------------------------------------------------------------------

/// Whether the weights of a transposed convolution can be used.
pub open spec fn convt_there(m: Mem, cv: DConvT) -> bool {
    &&& there(m, cv.w.addr)
    &&& there(m, cv.bias.addr)
    &&& (cv.phases matches Some(w) ==> {
        &&& there(m, w.p00.addr)
        &&& there(m, w.p01.addr)
        &&& there(m, w.p10.addr)
        &&& there(m, w.p11.addr)
    })
}

pub(crate) proof fn lemma_phase(p: Work, cv: DConvT, src: DActs, w: Dev, out: Dev, ph: nat)
    requires
        sound(p),
        p.going() ==> there(at(p), src.buf.addr) && there(at(p), cv.bias.addr) && there(
            at(p),
            w.addr,
        ) && there(at(p), out.addr),
        phase(p, cv, src, w, out, ph).cmds.len() <= usize::MAX,
    ensures
        keeps(p, phase(p, cv, src, w, out, ph)),
{
    if phase_fits(cv, src, ph) {
        let (oh, ow) = (src.h * 2, src.w * 2);
        let (py, px) = (ph / 2, ph % 2);
        let k = cv.cin * tap_count(ph);
        let n = phase_len(src);
        let col = p.fresh((k * n) as usize);
        let p1 = p.allocate(k * n);
        let part = p1.fresh((cv.cout * n) as usize);
        let p2 = p1.allocate(cv.cout * n);
        let gather = Call::ConvtCol {
            src: src.buf.addr,
            col: col.addr,
            cin: cv.cin as i32,
            h: src.h as i32,
            w: src.w as i32,
            py: py as i32,
            px: px as i32,
            taps: tap_count(ph) as i32,
            n: n as i32,
            oh: oh as i32,
            ow: ow as i32,
        };
        let gemm = Cmd::Gemm {
            role: Role::Phase(ph as usize),
            m: n as i32,
            n: cv.cout as i32,
            k: k as i32,
            a: col.addr,
            lda: n as i32,
            b: w.addr,
            ldb: k as i32,
            c: part.addr,
            ldc: n as i32,
        };
        let put = Call::ConvtPut {
            phase: part.addr,
            out: out.addr,
            bias: cv.bias.addr,
            cout: cv.cout as i32,
            n: n as i32,
            py: py as i32,
            px: px as i32,
            oh: oh as i32,
            ow: ow as i32,
            mode: 1,
        };
        let p3 = p2.launch(gather, k * n);
        let p4 = p3.push(gemm);
        let p5 = p4.launch(put, cv.cout * n);
        let p6 = p5.free(part);
        let p7 = p6.free(col);
        assert(0 <= n) by (nonlinear_arith)
            requires
                n == ((src.h * 2 + 1) / 2) * ((src.w * 2 + 1) / 2),
        ;
        assert(0 <= k * n && 0 <= cv.cout * n) by (nonlinear_arith)
            requires
                k == cv.cin * tap_count(ph),
                0 <= n,
        ;
        assert(p2.cmds.len() <= p3.cmds.len() <= p4.cmds.len() <= p5.cmds.len()
            <= p6.cmds.len() <= p7.cmds.len());
        lemma_allocate(p, k * n);
        lemma_allocate(p1, cv.cout * n);
        lemma_launch(p2, gather, k * n);
        lemma_push(p3, gemm);
        lemma_launch(p4, put, cv.cout * n);
        lemma_free(p5, part);
        lemma_free(p6, col);
        if p7.going() {
            assert(at(p7).heap =~= at(p).heap);
        }
    } else {
        assert(at(phase(p, cv, src, w, out, ph)) == at(p));
    }
}

pub(crate) proof fn lemma_phase_grows(p: Work, cv: DConvT, src: DActs, w: Dev, out: Dev, ph: nat)
    ensures
        grows(p, phase(p, cv, src, w, out, ph)),
{
}

pub(crate) proof fn lemma_phases(p: Work, cv: DConvT, src: DActs, w: Phases, out: Dev, count: nat)
    requires
        sound(p),
        count <= 4,
        cv.phases == Some(w),
        p.going() ==> there(at(p), src.buf.addr) && convt_there(at(p), cv) && there(
            at(p),
            out.addr,
        ),
        phases_done(p, cv, src, w, out, count).cmds.len() <= usize::MAX,
    ensures
        keeps(p, phases_done(p, cv, src, w, out, count)),
    decreases count,
{
    if count > 0 {
        let ph = (count - 1) as nat;
        let q = phases_done(p, cv, src, w, out, ph);
        lemma_phase_grows(q, cv, src, w.of(ph), out, ph);
        lemma_phases(p, cv, src, w, out, ph);
        lemma_phase(q, cv, src, w.of(ph), out, ph);
    }
}

pub(crate) proof fn lemma_phases_grow(p: Work, cv: DConvT, src: DActs, w: Phases, out: Dev, count: nat)
    ensures
        grows(p, phases_done(p, cv, src, w, out, count)),
    decreases count,
{
    if count > 0 {
        let ph = (count - 1) as nat;
        lemma_phases_grow(p, cv, src, w, out, ph);
        lemma_phase_grows(phases_done(p, cv, src, w, out, ph), cv, src, w.of(ph), out, ph);
    }
}

pub(crate) proof fn lemma_upsampled(p: Work, cv: DConvT, src: DActs)
    requires
        sound(p),
        p.going() ==> there(at(p), src.buf.addr) && convt_there(at(p), cv),
        upsampled(p, cv, src).0.cmds.len() <= usize::MAX,
    ensures
        adds(p, upsampled(p, cv, src).0, upsampled(p, cv, src).1.buf),
{
    reveal(up_phases);
    if up_fits(cv, src) {
        let len = cv.cout * (src.h * 2) * (src.w * 2);
        assert(0 <= len) by (nonlinear_arith)
            requires
                len == cv.cout * (src.h * 2) * (src.w * 2),
        ;
        let out = p.fresh(len as usize);
        let p1 = p.allocate(len);
        if cv.phases is Some && !p.flags.convt_gather {
            lemma_phases_grow(p1, cv, src, cv.phases->0, out, 4);
            lemma_allocate(p, len);
            lemma_phases(p1, cv, src, cv.phases->0, out, 4);
        } else {
            lemma_allocate(p, len);
            lemma_launch(
                p1,
                Call::ConvTranspose {
                    src: src.buf.addr,
                    weight: cv.w.addr,
                    bias: cv.bias.addr,
                    out: out.addr,
                    cin: cv.cin as i32,
                    cout: cv.cout as i32,
                    h: src.h as i32,
                    w: src.w as i32,
                    oh: (src.h * 2) as i32,
                    ow: (src.w * 2) as i32,
                    kh: 3,
                    kw: 3,
                    stride: 2,
                    pad: 1,
                },
                len,
            );
        }
    } else {
        assert(at(upsampled(p, cv, src).0) == at(p));
    }
}

pub(crate) proof fn lemma_upsampled_grows(p: Work, cv: DConvT, src: DActs)
    ensures
        grows(p, upsampled(p, cv, src).0),
{
    reveal(up_phases);
    if up_fits(cv, src) && cv.phases is Some && !p.flags.convt_gather {
        let len = cv.cout * (src.h * 2) * (src.w * 2);
        lemma_phases_grow(p.allocate(len), cv, src, cv.phases->0, p.fresh(len as usize), 4);
    }
}

// ---------------------------------------------------------------------------
// The spectral branch
// ---------------------------------------------------------------------------

/// Whether the weights of a spectral branch can be used.
pub open spec fn spectral_there(m: Mem, sp: DSpectral) -> bool {
    &&& conv_there(m, sp.conv1)
    &&& bn_there(m, sp.bn1)
    &&& conv_there(m, sp.fu_conv)
    &&& bn_there(m, sp.fu_bn)
    &&& conv_there(m, sp.conv2)
}

pub(crate) proof fn lemma_spectral_sizes(feat: DActs, half: usize, host: bool)
    requires
        spectral_fits(feat, half, host),
    ensures
        0 <= 2 * half * feat.h * (feat.w as int / 2 + 1),
        0 <= half * feat.h * feat.w,
{
    let hw = feat.w as int / 2 + 1;
    assert(0 <= 2 * half * feat.h * hw) by (nonlinear_arith)
        requires
            hw >= 0,
    ;
    assert(0 <= half * feat.h * feat.w) by (nonlinear_arith);
}

pub(crate) proof fn lemma_spectrum(p: Work, feat: DActs, half: usize)
    requires
        sound(p),
        spectral_fits(feat, half, p.flags.fft_host),
        p.going() ==> there(at(p), feat.buf.addr),
        spectrum(p, feat, half).0.cmds.len() <= usize::MAX,
    ensures
        adds(p, spectrum(p, feat, half).0, spectrum(p, feat, half).1.buf),
{
    reveal(spectrum);
    let hw = feat.w as int / 2 + 1;
    let len = 2 * half * feat.h * hw;
    let key = plan_key(feat, half, false);
    lemma_spectral_sizes(feat, half, p.flags.fft_host);
    if p.flags.fft_host {
        let p1 = p.push(Cmd::Fetch { src: feat.buf });
        let out = p1.fresh(len as usize);
        lemma_push(p, Cmd::Fetch { src: feat.buf });
        lemma_allocate(p1, len);
        lemma_push(p1.allocate(len), Cmd::HostFft { key, to: out });
    } else {
        let complex = p.fresh(len as usize);
        let a1 = p.allocate(len);
        let a2 = a1.push(Cmd::Plan { key });
        let p1 = a2.push(Cmd::Fft { key, src: feat.buf.addr, dst: complex.addr });
        let packed = p1.fresh(len as usize);
        let a3 = p1.allocate(len);
        let call = Call::SpecPack {
            complex: complex.addr,
            packed: packed.addr,
            half: half as i32,
            plane: (feat.h * hw) as i32,
            area: feat.plane_len() as usize,
        };
        let p2 = a3.launch(call, half * feat.h * hw);
        lemma_allocate(p, len);
        lemma_push(a1, Cmd::Plan { key });
        lemma_push(a2, Cmd::Fft { key, src: feat.buf.addr, dst: complex.addr });
        lemma_allocate(p1, len);
        lemma_launch(a3, call, half * feat.h * hw);
        lemma_free(p2, complex);
        if p2.free(complex).going() {
            assert(at(p2.free(complex)).heap =~= at(p).heap.insert(owned_id(packed)->0));
        }
    }
}

pub(crate) proof fn lemma_spectrum_grows(p: Work, feat: DActs, half: usize)
    ensures
        grows(p, spectrum(p, feat, half).0),
{
    reveal(spectrum);
}

pub(crate) proof fn lemma_inverted(p: Work, feat: DActs, fu: DActs, half: usize)
    requires
        sound(p),
        spectral_fits(feat, half, p.flags.fft_host),
        p.going() ==> there(at(p), fu.buf.addr),
        inverted(p, feat, fu, half).0.cmds.len() <= usize::MAX,
    ensures
        adds(p, inverted(p, feat, fu, half).0, inverted(p, feat, fu, half).1.buf),
{
    reveal(inverted);
    let hw = feat.w as int / 2 + 1;
    let len = 2 * half * feat.h * hw;
    let area = half * feat.h * feat.w;
    let key = plan_key(feat, half, true);
    lemma_spectral_sizes(feat, half, p.flags.fft_host);
    if p.flags.fft_host {
        let p1 = p.push(Cmd::Fetch { src: fu.buf });
        let out = p1.fresh(area as usize);
        lemma_push(p, Cmd::Fetch { src: fu.buf });
        lemma_allocate(p1, area);
        lemma_push(p1.allocate(area), Cmd::HostFft { key, to: out });
    } else {
        let complex = p.fresh(len as usize);
        let a1 = p.allocate(len);
        let call = Call::SpecUnpack {
            packed: fu.buf.addr,
            complex: complex.addr,
            half: half as i32,
            plane: (feat.h * hw) as i32,
        };
        let a2 = a1.launch(call, half * feat.h * hw);
        let p1 = a2.push(Cmd::Plan { key });
        let out = p1.fresh(area as usize);
        let a3 = p1.allocate(area);
        let a4 = a3.push(Cmd::Fft { key, src: complex.addr, dst: out.addr });
        let scale = Call::Scale {
            x: out.addr,
            n: (area as usize) as i64,
            area: feat.plane_len() as usize,
        };
        let p2 = a4.launch(scale, (area as usize) as int);
        assert(p2 == scaled(a4, out.addr, area as usize, feat.plane_len() as usize));
        lemma_allocate(p, len);
        lemma_launch(a1, call, half * feat.h * hw);
        lemma_push(a2, Cmd::Plan { key });
        lemma_allocate(p1, area);
        lemma_push(a3, Cmd::Fft { key, src: complex.addr, dst: out.addr });
        lemma_launch(a4, scale, (area as usize) as int);
        lemma_free(p2, complex);
        if p2.free(complex).going() {
            assert(at(p2.free(complex)).heap =~= at(p).heap.insert(owned_id(out)->0));
        }
    }
}

pub(crate) proof fn lemma_inverted_grows(p: Work, feat: DActs, fu: DActs, half: usize)
    ensures
        grows(p, inverted(p, feat, fu, half).0),
{
    reveal(inverted);
}

pub(crate) proof fn lemma_small_grow(p: Work, a: DActs, b: DActs, n: usize, bn: DBn)
    ensures
        grows(p, pooled(p, a).0),
        grows(p, copied(p, a).0),
        grows(p, padded(p, a, n).0),
        grows(p, concatenated(p, a, b).0),
        grows(p, bn_relu(p, a, bn)),
        grows(p, sum(p, a, b)),
{
    reveal(pooled);
    reveal(copied);
    reveal(padded);
    reveal(concatenated);
    reveal(bn_relu);
    reveal(sum);
}

pub(crate) proof fn lemma_spectral_grows(p: Work, sp: DSpectral, g: DActs)
    ensures
        grows(p, spectral(p, sp, g).0),
{
    reveal(spectral);
    let (p1, pool) = if sp.stride == 2 {
        pooled(p, g)
    } else {
        copied(p, g)
    };
    lemma_small_grow(p, g, g, 0, sp.bn1);
    let (p2, feat) = conv(p1, sp.conv1, pool, 0, 1, false);
    lemma_small_grow(p2, feat, feat, 0, sp.bn1);
    lemma_conv_grows(p1, sp.conv1, pool, 0, 1, false);
    let p3 = bn_relu(p2, feat, sp.bn1);
    if spectral_fits(feat, sp.half, p.flags.fft_host) {
        let b = p3.push(Cmd::FftBegin);
        let (p4, spec) = spectrum(b, feat, sp.half);
        lemma_spectrum_grows(b, feat, sp.half);
        let (p5, fu) = conv(p4, sp.fu_conv, spec, 0, 1, false);
        lemma_conv_grows(p4, sp.fu_conv, spec, 0, 1, false);
        let p6 = bn_relu(p5, fu, sp.fu_bn);
        lemma_small_grow(p5, fu, fu, 0, sp.fu_bn);
        let (p7, inv) = inverted(p6, feat, fu, sp.half);
        lemma_inverted_grows(p6, feat, fu, sp.half);
        let p8 = sum(p7.push(Cmd::FftEnd), inv, feat);
        lemma_small_grow(p7.push(Cmd::FftEnd), inv, feat, 0, sp.bn1);
        let (p9, out) = conv(p8, sp.conv2, inv, 0, 1, false);
        lemma_conv_grows(p8, sp.conv2, inv, 0, 1, false);
    }
}

#[verifier::rlimit(40)]
pub(crate) proof fn lemma_spectral(p: Work, sp: DSpectral, g: DActs)
    requires
        sound(p),
        p.going() ==> there(at(p), g.buf.addr) && spectral_there(at(p), sp),
        spectral(p, sp, g).0.cmds.len() <= usize::MAX,
    ensures
        adds(p, spectral(p, sp, g).0, spectral(p, sp, g).1.buf),
{
    reveal(spectral);
    let (p1, pool) = if sp.stride == 2 {
        pooled(p, g)
    } else {
        copied(p, g)
    };
    lemma_small_grow(p, g, g, 0, sp.bn1);
    let (p2, feat) = conv(p1, sp.conv1, pool, 0, 1, false);
    lemma_small_grow(p2, feat, feat, 0, sp.bn1);
    lemma_conv_grows(p1, sp.conv1, pool, 0, 1, false);
    let p3 = bn_relu(p2, feat, sp.bn1);
    if spectral_fits(feat, sp.half, p.flags.fft_host) {
        let b = p3.push(Cmd::FftBegin);
        let (p4, spec) = spectrum(b, feat, sp.half);
        lemma_spectrum_grows(b, feat, sp.half);
        let (p5, fu) = conv(p4, sp.fu_conv, spec, 0, 1, false);
        lemma_conv_grows(p4, sp.fu_conv, spec, 0, 1, false);
        let p6 = bn_relu(p5, fu, sp.fu_bn);
        lemma_small_grow(p5, fu, fu, 0, sp.fu_bn);
        let (p7, inv) = inverted(p6, feat, fu, sp.half);
        lemma_inverted_grows(p6, feat, fu, sp.half);
        let e = p7.push(Cmd::FftEnd);
        let p8 = sum(e, inv, feat);
        lemma_small_grow(e, inv, feat, 0, sp.bn1);
        let (p9, out) = conv(p8, sp.conv2, inv, 0, 1, false);
        lemma_conv_grows(p8, sp.conv2, inv, 0, 1, false);
        let f1 = p9.free(inv.buf);
        let f2 = f1.free(fu.buf);
        let f3 = f2.free(spec.buf);
        let f4 = f3.free(feat.buf);
        let f5 = f4.free(pool.buf);
        assert(grows(p9, f1) && grows(f1, f2) && grows(f2, f3) && grows(f3, f4) && grows(f4, f5));
        assert(grows(p1, p2) && grows(p2, p3) && grows(p3, b) && grows(b, p4) && grows(p4, p5)
            && grows(p5, p6) && grows(p6, p7) && grows(p7, e) && grows(e, p8) && grows(p8, p9));
        if sp.stride == 2 {
            lemma_pooled(p, g);
        } else {
            lemma_copied(p, g);
        }
        lemma_conv(p1, sp.conv1, pool, 0, 1, false);
        lemma_bn_relu(p2, feat, sp.bn1);
        lemma_push(p3, Cmd::FftBegin);
        lemma_spectrum(b, feat, sp.half);
        lemma_conv(p4, sp.fu_conv, spec, 0, 1, false);
        lemma_bn_relu(p5, fu, sp.fu_bn);
        lemma_inverted(p6, feat, fu, sp.half);
        lemma_push(p7, Cmd::FftEnd);
        lemma_sum(e, inv, feat);
        lemma_conv(p8, sp.conv2, inv, 0, 1, false);
        lemma_free(p9, inv.buf);
        lemma_free(f1, fu.buf);
        lemma_free(f2, spec.buf);
        lemma_free(f3, feat.buf);
        lemma_free(f4, pool.buf);
        if f5.going() {
            assert(at(f5).heap =~= at(p).heap.insert(owned_id(out.buf)->0));
        }
    } else {
        let q = p3.halt(StopView::Misfit);
        if sp.stride == 2 {
            lemma_pooled(p, g);
        } else {
            lemma_copied(p, g);
        }
        lemma_conv(p1, sp.conv1, pool, 0, 1, false);
        lemma_bn_relu(p2, feat, sp.bn1);
        assert(at(q) == at(p3));
    }
}

// ---------------------------------------------------------------------------
// Fast Fourier convolutions
// ---------------------------------------------------------------------------

/// Whether the weights of a block can be used.
pub open spec fn ffc_there(m: Mem, w: DFfc) -> bool {
    &&& (w.l2l matches Some(cv) ==> conv_there(m, cv))
    &&& (w.l2g matches Some(cv) ==> conv_there(m, cv))
    &&& (w.g2l matches Some(cv) ==> conv_there(m, cv))
    &&& (w.bn_l matches Some(bn) ==> bn_there(m, bn))
    &&& (w.bn_g matches Some(bn) ==> bn_there(m, bn))
    &&& (w.spectral matches Some(sp) ==> spectral_there(m, sp))
}

/// Whether a block of activations that may be absent can be used.
pub open spec fn acts_there(m: Mem, a: Option<DActs>) -> bool {
    a matches Some(a) ==> there(m, a.buf.addr)
}

pub(crate) proof fn lemma_merged(base: Work, p: Work, acc: DActs, o: DActs)
    requires
        sound(p),
        p.going() ==> {
            &&& owned_id(acc.buf) is Some
            &&& owned_id(o.buf) is Some
            &&& !at(base).heap.contains(owned_id(acc.buf)->0)
            &&& !at(base).heap.contains(owned_id(o.buf)->0)
            &&& owned_id(acc.buf) != owned_id(o.buf)
            &&& same_but_plans(
                at(base),
                at(p),
                at(base).heap.insert(owned_id(acc.buf)->0).insert(owned_id(o.buf)->0),
            )
        },
        grows(base, p),
    ensures
        adds(base, merged(p, acc, o).0, merged(p, acc, o).1.buf),
        grows(p, merged(p, acc, o).0),
{
    let (q, r) = merged(p, acc, o);
    if acc.c == 0 {
        lemma_free(p, acc.buf);
    } else {
        lemma_sum(p, acc, o);
        lemma_free(sum(p, acc, o), o.buf);
    }
    if q.going() {
        assert(at(q).heap =~= at(base).heap.insert(owned_id(r.buf)->0));
    }
}

pub(crate) proof fn lemma_conv_or_empty(p: Work, w: DFfc, cv: Option<DConv>, local: DActs, inp: DActs)
    requires
        sound(p),
        p.going() ==> there(at(p), local.buf.addr),
        p.going() ==> (cv matches Some(cv) ==> conv_there(at(p), cv)),
        conv_or_empty(p, w, cv, local, inp).0.cmds.len() <= usize::MAX,
    ensures
        adds(
            p,
            conv_or_empty(p, w, cv, local, inp).0,
            conv_or_empty(p, w, cv, local, inp).1.buf,
        ),
{
    match cv {
        Some(cv) => lemma_conv(p, cv, local, w.pad, w.stride, w.reflect),
        None => lemma_allocate(p, 0),
    }
}

pub(crate) proof fn lemma_parts_grow(
    p: Work,
    w: DFfc,
    cv: Option<DConv>,
    a: DActs,
    b: DActs,
    bn: Option<DBn>,
    skip: Option<DActs>,
)
    ensures
        grows(p, conv_or_empty(p, w, cv, a, b).0),
        grows(p, merged(p, a, b).0),
        grows(p, normalised(p, a, bn, skip)),
{
    if let Some(cv) = cv {
        lemma_conv_grows(p, cv, a, w.pad, w.stride, w.reflect);
    }
    reveal(sum);
    reveal(bn_relu_add);
}

pub(crate) proof fn lemma_local_grows(
    p: Work,
    w: DFfc,
    inp: DActs,
    local: DActs,
    glob: Option<DActs>,
    skip: Option<DActs>,
)
    ensures
        grows(p, local_branch(p, w, inp, local, glob, skip).0),
        w.g2l is Some && glob is None ==> !local_branch(p, w, inp, local, glob, skip).0.going(),
{
    let (p1, acc) = conv_or_empty(p, w, w.l2l, local, inp);
    lemma_parts_grow(p, w, w.l2l, local, inp, w.bn_l, skip);
    match w.g2l {
        Some(cv) => match glob {
            Some(g) => {
                let (q, o) = conv(p1, cv, g, w.pad, w.stride, w.reflect);
                lemma_conv_grows(p1, cv, g, w.pad, w.stride, w.reflect);
                let (p2, r) = merged(q, acc, o);
                lemma_parts_grow(q, w, None, acc, o, w.bn_l, skip);
                lemma_parts_grow(p2, w, None, r, r, w.bn_l, skip);
            },
            None => {
                let p2 = p1.halt(StopView::Fault("convg2l present without a global branch"@));
                lemma_parts_grow(p2, w, None, acc, acc, w.bn_l, skip);
            },
        },
        None => lemma_parts_grow(p1, w, None, acc, acc, w.bn_l, skip),
    }
}

pub(crate) proof fn lemma_local(
    p: Work,
    w: DFfc,
    inp: DActs,
    local: DActs,
    glob: Option<DActs>,
    skip: Option<DActs>,
)
    requires
        sound(p),
        p.going() ==> {
            &&& ffc_there(at(p), w)
            &&& there(at(p), local.buf.addr)
            &&& acts_there(at(p), glob)
            &&& acts_there(at(p), skip)
        },
        local_branch(p, w, inp, local, glob, skip).0.cmds.len() <= usize::MAX,
    ensures
        adds(
            p,
            local_branch(p, w, inp, local, glob, skip).0,
            local_branch(p, w, inp, local, glob, skip).1.buf,
        ),
{
    let (p1, acc) = conv_or_empty(p, w, w.l2l, local, inp);
    lemma_parts_grow(p, w, w.l2l, local, inp, w.bn_l, skip);
    match w.g2l {
        Some(cv) => match glob {
            Some(g) => {
                let (q, o) = conv(p1, cv, g, w.pad, w.stride, w.reflect);
                lemma_conv_grows(p1, cv, g, w.pad, w.stride, w.reflect);
                let (p2, r) = merged(q, acc, o);
                lemma_parts_grow(q, w, None, acc, o, w.bn_l, skip);
                lemma_parts_grow(p2, w, None, r, r, w.bn_l, skip);
                lemma_conv_or_empty(p, w, w.l2l, local, inp);
                lemma_conv(p1, cv, g, w.pad, w.stride, w.reflect);
                lemma_merged(p, q, acc, o);
                lemma_normalised(p2, r, w.bn_l, skip);
            },
            None => {
                let p2 = p1.halt(StopView::Fault("convg2l present without a global branch"@));
                lemma_parts_grow(p2, w, None, acc, acc, w.bn_l, skip);
                lemma_conv_or_empty(p, w, w.l2l, local, inp);
                assert(at(p2) == at(p1));
                lemma_normalised(p2, acc, w.bn_l, skip);
            },
        },
        None => {
            lemma_parts_grow(p1, w, None, acc, acc, w.bn_l, skip);
            lemma_conv_or_empty(p, w, w.l2l, local, inp);
            lemma_normalised(p1, acc, w.bn_l, skip);
        },
    }
}

pub(crate) proof fn lemma_global_half(p: Work, w: DFfc, g: DActs)
    ensures
        grows(p, global_half(p, w, g).0),
        at(global_half(p, w, g).0) == at(p),
        sound(p) ==> sound(global_half(p, w, g).0),
        global_half(p, w, g).0.going() ==> global_half(p, w, g).1.buf.addr.base
            == g.buf.addr.base,
{
    assert(at(global_half(p, w, g).0) == at(p));
}

pub(crate) proof fn lemma_global_grows(
    p: Work,
    w: DFfc,
    inp: DActs,
    local: DActs,
    glob: Option<DActs>,
    skip: Option<DActs>,
)
    ensures
        grows(p, global_branch(p, w, inp, local, glob, skip).0),
        w.spectral is Some && glob is None ==> !global_branch(
            p,
            w,
            inp,
            local,
            glob,
            skip,
        ).0.going(),
{
    let (p1, acc) = conv_or_empty(p, w, w.l2g, local, inp);
    lemma_parts_grow(p, w, w.l2g, local, inp, w.bn_g, skip);
    match w.spectral {
        Some(sp) => match glob {
            Some(g) => {
                let (h, half) = global_half(p1, w, g);
                lemma_global_half(p1, w, g);
                let (q, o) = spectral(h, sp, half);
                lemma_spectral_grows(h, sp, half);
                let (p2, r) = merged(q, acc, o);
                lemma_parts_grow(q, w, None, acc, o, w.bn_g, skip);
                lemma_parts_grow(p2, w, None, r, r, w.bn_g, skip);
            },
            None => {
                let p2 = p1.halt(StopView::Fault("convg2g present without a global branch"@));
                lemma_parts_grow(p2, w, None, acc, acc, w.bn_g, skip);
            },
        },
        None => lemma_parts_grow(p1, w, None, acc, acc, w.bn_g, skip),
    }
}

pub(crate) proof fn lemma_global(
    p: Work,
    w: DFfc,
    inp: DActs,
    local: DActs,
    glob: Option<DActs>,
    skip: Option<DActs>,
)
    requires
        sound(p),
        p.going() ==> {
            &&& ffc_there(at(p), w)
            &&& there(at(p), local.buf.addr)
            &&& acts_there(at(p), glob)
            &&& acts_there(at(p), skip)
        },
        global_branch(p, w, inp, local, glob, skip).0.cmds.len() <= usize::MAX,
    ensures
        adds(
            p,
            global_branch(p, w, inp, local, glob, skip).0,
            global_branch(p, w, inp, local, glob, skip).1.buf,
        ),
{
    let (p1, acc) = conv_or_empty(p, w, w.l2g, local, inp);
    lemma_parts_grow(p, w, w.l2g, local, inp, w.bn_g, skip);
    match w.spectral {
        Some(sp) => match glob {
            Some(g) => {
                let (h, half) = global_half(p1, w, g);
                lemma_global_half(p1, w, g);
                let (q, o) = spectral(h, sp, half);
                lemma_spectral_grows(h, sp, half);
                let (p2, r) = merged(q, acc, o);
                lemma_parts_grow(q, w, None, acc, o, w.bn_g, skip);
                lemma_parts_grow(p2, w, None, r, r, w.bn_g, skip);
                lemma_conv_or_empty(p, w, w.l2g, local, inp);
                lemma_spectral(h, sp, half);
                lemma_merged(p, q, acc, o);
                lemma_normalised(p2, r, w.bn_g, skip);
            },
            None => {
                let p2 = p1.halt(StopView::Fault("convg2g present without a global branch"@));
                lemma_parts_grow(p2, w, None, acc, acc, w.bn_g, skip);
                lemma_conv_or_empty(p, w, w.l2g, local, inp);
                assert(at(p2) == at(p1));
                lemma_normalised(p2, acc, w.bn_g, skip);
            },
        },
        None => {
            lemma_parts_grow(p1, w, None, acc, acc, w.bn_g, skip);
            lemma_conv_or_empty(p, w, w.l2g, local, inp);
            lemma_normalised(p1, acc, w.bn_g, skip);
        },
    }
}

/// The buffers of two outputs, the second of which may be absent.
pub open spec fn two_more(heap: Set<usize>, l: DActs, g: Option<DActs>) -> Set<usize> {
    match g {
        Some(g) => heap.insert(owned_id(l.buf)->0).insert(owned_id(g.buf)->0),
        None => heap.insert(owned_id(l.buf)->0),
    }
}

/// Two outputs own blocks of their own that `heap` does not hold.
pub open spec fn apart(heap: Set<usize>, l: DActs, g: Option<DActs>) -> bool {
    &&& owned_id(l.buf) is Some
    &&& !heap.contains(owned_id(l.buf)->0)
    &&& (g matches Some(g) ==> {
        &&& owned_id(g.buf) is Some
        &&& !heap.contains(owned_id(g.buf)->0)
        &&& owned_id(g.buf) != owned_id(l.buf)
    })
}

pub(crate) proof fn lemma_ffc_grows(
    p: Work,
    w: DFfc,
    inp: DActs,
    glob: Option<DActs>,
    skip_l: Option<DActs>,
    skip_g: Option<DActs>,
)
    ensures
        grows(p, ffc(p, w, inp, glob, skip_l, skip_g).work),
{
    reveal(ffc);
    let (p1, half) = local_half(p, w, inp);
    lemma_local_grows(p1, w, inp, half, glob, skip_l);
    let p2 = if w.out_local > 0 {
        local_branch(p1, w, inp, half, glob, skip_l).0
    } else {
        p1
    };
    lemma_global_grows(p2, w, inp, half, glob, skip_g);
}

/// An evaluation has a global output exactly where it has global channels. Without
/// local channels its local output has none either, and carries the plane geometry.
/// Where a layer that is to be run takes the global block and there is none, it does
/// not go on.
pub proof fn evaluation_outputs(
    p: Work,
    w: DFfc,
    inp: DActs,
    glob: Option<DActs>,
    skip_l: Option<DActs>,
    skip_g: Option<DActs>,
)
    ensures
        ({
            let b = ffc(p, w, inp, glob, skip_l, skip_g);
            &&& b.global is Some <==> w.out_global > 0
            &&& w.out_local == 0 ==> b.local.c == 0 && b.local.h == inp.h && b.local.w == inp.w
            &&& glob is None && w.out_local > 0 && w.g2l is Some ==> !b.work.going()
            &&& glob is None && w.out_global > 0 && w.spectral is Some ==> !b.work.going()
        }),
{
    reveal(ffc);
    let (p1, half) = local_half(p, w, inp);
    lemma_local_grows(p1, w, inp, half, glob, skip_l);
    let p2 = if w.out_local > 0 {
        local_branch(p1, w, inp, half, glob, skip_l).0
    } else {
        p1
    };
    lemma_global_grows(p2, w, inp, half, glob, skip_g);
}

pub(crate) proof fn lemma_ffc(
    p: Work,
    w: DFfc,
    inp: DActs,
    glob: Option<DActs>,
    skip_l: Option<DActs>,
    skip_g: Option<DActs>,
)
    requires
        sound(p),
        p.going() ==> {
            &&& ffc_there(at(p), w)
            &&& there(at(p), inp.buf.addr)
            &&& acts_there(at(p), glob)
            &&& acts_there(at(p), skip_l)
            &&& acts_there(at(p), skip_g)
        },
        ffc(p, w, inp, glob, skip_l, skip_g).work.cmds.len() <= usize::MAX,
    ensures
        ({
            let b = ffc(p, w, inp, glob, skip_l, skip_g);
            &&& sound(b.work)
            &&& grows(p, b.work)
            &&& b.work.going() ==> {
                &&& apart(at(p).heap, b.local, b.global)
                &&& same_but_plans(
                    at(p),
                    at(b.work),
                    two_more(at(p).heap, b.local, b.global),
                )
            }
        }),
{
    reveal(ffc);
    let b = ffc(p, w, inp, glob, skip_l, skip_g);
    let (p1, half) = local_half(p, w, inp);
    assert(at(p1) == at(p));
    let (p2, l) = if w.out_local > 0 {
        local_branch(p1, w, inp, half, glob, skip_l)
    } else {
        (p1, nothing())
    };
    lemma_local_grows(p1, w, inp, half, glob, skip_l);
    lemma_global_grows(p2, w, inp, half, glob, skip_g);
    let (p3, g) = if w.out_global > 0 {
        let (q, g) = global_branch(p2, w, inp, half, glob, skip_g);
        (q, Some(g))
    } else {
        (p2, None)
    };
    assert(grows(p1, p2) && grows(p2, p3) && grows(p3, b.work));
    if w.out_local > 0 {
        lemma_local(p1, w, inp, half, glob, skip_l);
    }
    if w.out_global > 0 {
        lemma_global(p2, w, inp, half, glob, skip_g);
    }
    if w.out_local == 0 {
        lemma_allocate(p3, 0);
    }
    if b.work.going() {
        assert(at(b.work).heap =~= two_more(at(p).heap, b.local, b.global));
    }
}

} // verus!
