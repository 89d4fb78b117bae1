//! What recorded work computes: each command changes what the blocks of the device
//! hold, and a block holds the outcome of an expression over the network's input and
//! the weights.

use vstd::prelude::*;

use crate::aliasing::call_writes;
use crate::cuda::{Addr, Base, Call, Cmd, DActs, Dev, StopView, Work};
use crate::fft::PlanKey;

verus! {

broadcast use crate::cuda::group_work;

// ---------------------------------------------------------------------------
// Expressions
// ---------------------------------------------------------------------------

/// What a block holds.
pub ghost enum Val {
    /// There is no such block.
    Gone,
    /// Nothing that is known.
    Raw,
    /// The network's input.
    Input { floats: usize },
    /// The weights from a place of the blob or of the staged tensors on.
    Weights { at: Addr },
    /// Recorded floats.
    Sent { from: usize, floats: usize },
    /// What comes after the first bytes of a block.
    Later { of: Box<Val>, offset: usize },
    /// A block with something else from an offset on.
    Followed { first: Box<Val>, offset: usize, by: Box<Val> },
    /// The first floats of a block.
    First { x: Box<Val>, n: int },
    /// The patch matrix of a convolution.
    Patches {
        x: Box<Val>,
        cin: int,
        h: int,
        w: int,
        kh: int,
        kw: int,
        ph: int,
        pw: int,
        stride: int,
        oh: int,
        ow: int,
        reflect: bool,
    },
    /// The patch matrix of the output pixels with the parities `py` and `px` of a
    /// transposed convolution of stride 2 and padding 1.
    PhasePatches {
        x: Box<Val>,
        cin: int,
        h: int,
        w: int,
        py: int,
        px: int,
        taps: int,
        n: int,
        oh: int,
        ow: int,
    },
    /// The product of an `m` by `k` and a `k` by `n` matrix, all column-major.
    Product { a: Box<Val>, b: Box<Val>, m: int, n: int, k: int },
    /// With one value added to each of `channels` planes of `plane` floats.
    Biased { x: Box<Val>, bias: Box<Val>, channels: int, plane: int },
    /// With a scale and a shift for each of `channels` planes of `plane` floats, and
    /// without what is then negative.
    Normed { x: Box<Val>, scale: Box<Val>, shift: Box<Val>, channels: int, plane: int },
    /// The sum of the first `n` floats of two blocks.
    Sum { a: Box<Val>, b: Box<Val>, n: int },
    /// The sigmoid of the first `n` floats.
    Sigmoid { x: Box<Val>, n: int },
    /// The first `n` floats, divided by the square root of `area`.
    Divided { x: Box<Val>, n: int, area: int },
    /// Planes padded on all sides by reflection.
    Mirrored { x: Box<Val>, c: int, h: int, w: int, pad: int },
    /// The averages over squares of two by two.
    Averaged { x: Box<Val>, c: int, h: int, w: int },
    /// A transform on the device.
    Transformed { x: Box<Val>, key: PlanKey },
    /// A transform on the host.
    HostTransformed { x: Box<Val>, key: PlanKey },
    /// Real parts before imaginary ones, divided by the square root of `area`.
    Stacked { x: Box<Val>, half: int, plane: int, area: int },
    /// Real and imaginary parts side by side.
    Paired { x: Box<Val>, half: int, plane: int },
    /// An output in which the pixels with the parities `py` and `px` are those of `x`
    /// with the bias added, and the others are those of `under`.
    Put {
        under: Box<Val>,
        x: Box<Val>,
        bias: Box<Val>,
        cout: int,
        n: int,
        py: int,
        px: int,
        oh: int,
        ow: int,
    },
    /// A 7x7 convolution of stride 1 without padding.
    Wide {
        x: Box<Val>,
        weight: Box<Val>,
        cin: int,
        cout: int,
        h: int,
        w: int,
        oh: int,
        ow: int,
    },
    /// A transposed convolution.
    Upsampled {
        x: Box<Val>,
        weight: Box<Val>,
        bias: Box<Val>,
        cin: int,
        cout: int,
        h: int,
        w: int,
        oh: int,
        ow: int,
        kh: int,
        kw: int,
        stride: int,
        pad: int,
    },
}

// ---------------------------------------------------------------------------
// Commands
// ---------------------------------------------------------------------------

/// What the blocks hold, what was fetched last for a transform on the host, and what
/// was copied to the host as the result.
pub ghost struct Memory {
    pub blocks: Map<usize, Val>,
    pub fetched: Val,
    pub results: Seq<Val>,
}

impl Memory {
    /// What a block holds.
    pub open spec fn block(self, id: usize) -> Val {
        if self.blocks.contains_key(id) {
            self.blocks[id]
        } else {
            Val::Gone
        }
    }

    /// What stands from a place on.
    pub open spec fn read(self, a: Addr) -> Val {
        match a.base {
            Base::Heap(id) => if a.offset == 0 {
                self.block(id)
            } else {
                Val::Later { of: Box::new(self.block(id)), offset: a.offset }
            },
            _ => Val::Weights { at: a },
        }
    }

    /// After writing to a place.
    pub open spec fn write(self, a: Addr, v: Val) -> Memory {
        match a.base {
            Base::Heap(id) => Memory {
                blocks: self.blocks.insert(
                    id,
                    if a.offset == 0 {
                        v
                    } else {
                        Val::Followed {
                            first: Box::new(self.block(id)),
                            offset: a.offset,
                            by: Box::new(v),
                        }
                    },
                ),
                ..self
            },
            _ => self,
        }
    }
}

/// What a kernel leaves in the place that it writes to.
pub open spec fn outcome(m: Memory, call: Call) -> Val {
    match call {
        Call::Im2col { src, col, cin, h, w, kh, kw, ph, pw, stride, oh, ow, reflect } => Val::Patches {
            x: Box::new(m.read(src)),
            cin: cin as int,
            h: h as int,
            w: w as int,
            kh: kh as int,
            kw: kw as int,
            ph: ph as int,
            pw: pw as int,
            stride: stride as int,
            oh: oh as int,
            ow: ow as int,
            reflect: reflect != 0,
        },
        Call::ConvTranspose {
            src,
            weight,
            bias,
            out,
            cin,
            cout,
            h,
            w,
            oh,
            ow,
            kh,
            kw,
            stride,
            pad,
        } => Val::Upsampled {
            x: Box::new(m.read(src)),
            weight: Box::new(m.read(weight)),
            bias: Box::new(m.read(bias)),
            cin: cin as int,
            cout: cout as int,
            h: h as int,
            w: w as int,
            oh: oh as int,
            ow: ow as int,
            kh: kh as int,
            kw: kw as int,
            stride: stride as int,
            pad: pad as int,
        },
        Call::BnRelu { x, scale, shift, plane, channels } => Val::Normed {
            x: Box::new(m.read(x)),
            scale: Box::new(m.read(scale)),
            shift: Box::new(m.read(shift)),
            channels: channels as int,
            plane: plane as int,
        },
        Call::Sigmoid { x, n } => Val::Sigmoid { x: Box::new(m.read(x)), n: n as int },
        Call::AddInplace { a, b, n } => Val::Sum {
            a: Box::new(m.read(a)),
            b: Box::new(m.read(b)),
            n: n as int,
        },
        Call::Scale { x, n, area } => Val::Divided {
            x: Box::new(m.read(x)),
            n: n as int,
            area: area as int,
        },
        Call::ReflectPad { src, out, c, h, w, pad } => Val::Mirrored {
            x: Box::new(m.read(src)),
            c: c as int,
            h: h as int,
            w: w as int,
            pad: pad as int,
        },
        Call::Avgpool2x2 { src, out, c, h, w } => Val::Averaged {
            x: Box::new(m.read(src)),
            c: c as int,
            h: h as int,
            w: w as int,
        },
        Call::CopyPlane { src, out, n } => Val::First { x: Box::new(m.read(src)), n: n as int },
        Call::SpecPack { complex, packed, half, plane, area } => Val::Stacked {
            x: Box::new(m.read(complex)),
            half: half as int,
            plane: plane as int,
            area: area as int,
        },
        Call::SpecUnpack { packed, complex, half, plane } => Val::Paired {
            x: Box::new(m.read(packed)),
            half: half as int,
            plane: plane as int,
        },
        Call::ConvtCol { src, col, cin, h, w, py, px, taps, n, oh, ow } => Val::PhasePatches {
            x: Box::new(m.read(src)),
            cin: cin as int,
            h: h as int,
            w: w as int,
            py: py as int,
            px: px as int,
            taps: taps as int,
            n: n as int,
            oh: oh as int,
            ow: ow as int,
        },
        Call::ConvtPut { phase, out, bias, cout, n, py, px, oh, ow, mode } => if mode == 0 {
            Val::Raw
        } else {
            Val::Put {
                under: Box::new(m.read(out)),
                x: Box::new(m.read(phase)),
                bias: Box::new(m.read(bias)),
                cout: cout as int,
                n: n as int,
                py: py as int,
                px: px as int,
                oh: oh as int,
                ow: ow as int,
            }
        },
        Call::BiasPlane { out, bias, cout, n } => Val::Biased {
            x: Box::new(m.read(out)),
            bias: Box::new(m.read(bias)),
            channels: cout as int,
            plane: n as int,
        },
        Call::Conv7x7 { src, weight, bias, out, cin, cout, h_in, w_in, h_out, w_out } => {
            let wide = Val::Wide {
                x: Box::new(m.read(src)),
                weight: Box::new(m.read(weight)),
                cin: cin as int,
                cout: cout as int,
                h: h_in as int,
                w: w_in as int,
                oh: h_out as int,
                ow: w_out as int,
            };
            match bias {
                Some(b) => Val::Biased {
                    x: Box::new(wide),
                    bias: Box::new(m.read(b)),
                    channels: cout as int,
                    plane: h_out * w_out,
                },
                None => wide,
            }
        },
        Call::BnReluAdd { x, skip, scale, shift, plane, channels } => {
            let normed = Val::Normed {
                x: Box::new(m.read(x)),
                scale: Box::new(m.read(scale)),
                shift: Box::new(m.read(shift)),
                channels: channels as int,
                plane: plane as int,
            };
            match skip {
                Some(s) => Val::Sum {
                    a: Box::new(normed),
                    b: Box::new(m.read(s)),
                    n: channels * plane,
                },
                None => normed,
            }
        },
    }
}

/// What a command leaves. An inverse transform may use up what it reads.
pub open spec fn performed(m: Memory, cmd: Cmd) -> Memory {
    match cmd {
        Cmd::Malloc { id, .. } => Memory { blocks: m.blocks.insert(id, Val::Raw), ..m },
        Cmd::Free { id, .. } => Memory { blocks: m.blocks.remove(id), ..m },
        Cmd::Upload { to, from, floats } => m.write(to, Val::Sent { from, floats }),
        Cmd::Input { to, floats } => m.write(to, Val::Input { floats }),
        Cmd::Launch { call, .. } => m.write(call_writes(call), outcome(m, call)),
        Cmd::Gemm { m: rows, n, k, a, lda, b, ldb, c, ldc, .. } => m.write(
            c,
            if lda == rows && ldb == k && ldc == rows {
                Val::Product {
                    a: Box::new(m.read(a)),
                    b: Box::new(m.read(b)),
                    m: rows as int,
                    n: n as int,
                    k: k as int,
                }
            } else {
                Val::Raw
            },
        ),
        Cmd::Fft { key, src, dst } => {
            let v = Val::Transformed { x: Box::new(m.read(src)), key };
            if key.inverse {
                m.write(src, Val::Raw).write(dst, v)
            } else {
                m.write(dst, v)
            }
        },
        Cmd::Fetch { src } => Memory { fetched: m.read(src.addr), ..m },
        Cmd::HostFft { key, to } => m.write(
            to.addr,
            Val::HostTransformed { x: Box::new(m.fetched), key },
        ),
        Cmd::Download { src } => Memory { results: m.results.push(m.read(src.addr)), ..m },
        _ => m,
    }
}

/// What a program leaves.
pub open spec fn left_by(cmds: Seq<Cmd>) -> Memory
    decreases cmds.len(),
{
    if cmds.len() == 0 {
        Memory { blocks: Map::empty(), fetched: Val::Raw, results: Seq::empty() }
    } else {
        performed(left_by(cmds.drop_last()), cmds.last())
    }
}

// ---------------------------------------------------------------------------
// Recording
// ---------------------------------------------------------------------------

/// What the recorded work leaves.
pub open spec fn after_all(p: Work) -> Memory {
    left_by(p.cmds)
}

/// What a block holds after the recorded work.
pub open spec fn holds(p: Work, id: usize) -> Val {
    after_all(p).block(id)
}

/// What stands from a place on after the recorded work.
pub open spec fn value(p: Work, a: Addr) -> Val {
    after_all(p).read(a)
}

/// Recording a command has its effect.
pub broadcast proof fn lemma_performed(p: Work, cmd: Cmd)
    ensures
        #[trigger] after_all(p.push(cmd)) == if p.going() {
            performed(after_all(p), cmd)
        } else {
            after_all(p)
        },
{
    reveal(Work::push);
    if p.going() {
        assert(p.push(cmd).cmds.drop_last() =~= p.cmds);
    }
}

/// Stopping has none.
pub broadcast proof fn lemma_stopped(p: Work, s: StopView)
    ensures
        #[trigger] after_all(p.halt(s)) == after_all(p),
{
}

pub broadcast group group_meaning {
    lemma_performed,
    lemma_stopped,
}

/// From `p` to `q` the blocks that were allocated by the first `n` commands keep what
/// they hold, and no result is copied to the host.
pub open spec fn untouched(n: nat, p: Work, q: Work) -> bool {
    &&& forall|id: usize| id < n ==> #[trigger] holds(q, id) == holds(p, id)
    &&& after_all(q).results == after_all(p).results
}

/// The block that a buffer starts, if it is one of those that the commands from `n`
/// to `m` allocate.
pub open spec fn starts(d: Dev, n: nat, m: nat) -> bool {
    &&& d.addr.offset == 0
    &&& d.owned
    &&& d.addr.base matches Base::Heap(id) && n <= id < m
}

/// A place is that of a weight, or of a block that one of the first `n` commands
/// allocated.
pub open spec fn older(a: Addr, n: nat) -> bool {
    a.base matches Base::Heap(id) ==> id < n
}

/// Activations as values: what they are, their extents, and how many floats they take.
pub ghost struct Acts {
    pub v: Val,
    pub c: usize,
    pub h: usize,
    pub w: usize,
    pub len: usize,
}

/// Activations as the recorded work leaves them.
pub open spec fn seen(p: Work, a: DActs) -> Acts {
    Acts { v: value(p, a.buf.addr), c: a.c, h: a.h, w: a.w, len: a.buf.len }
}

/// Where work goes on from `p` to `q`, `out` is a block of its own that holds `x`, and
/// all older blocks keep what they hold.
pub open spec fn makes(p: Work, q: Work, out: DActs, x: Acts) -> bool {
    &&& starts(out.buf, p.cmds.len(), q.cmds.len())
    &&& seen(q, out) == x
    &&& untouched(p.cmds.len(), p, q)
}

} // verus!
