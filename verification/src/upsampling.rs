//! What a transposed convolution by phases computes.

use vstd::prelude::*;

use crate::cuda::{Base, Call, Cmd, DActs, Dev, Role, Work};
use crate::dataflow::{
    at_start, convt_older, int32, lemma_block, lemma_freed, lemma_launched, lemma_multiplied,
    lemma_on, lemma_same_value, lemma_still, lemma_turned,
};
use crate::meaning::{after_all, holds, makes, older, seen, starts, untouched, value, Acts, Val};
use crate::ops::{phase, phase_len, phases_done, tap_count, up_phases, DConvT, Phases};
use crate::safety::lemma_phase_grows;

verus! {

broadcast use crate::cuda::group_work;

/// The output pixels with the parities of a phase: the product of the patch matrix
/// that is gathered for these pixels and the weights `w`, whose rows have as many
/// taps for each input channel as the 3x3 kernel has weights that meet such a pixel.
pub open spec fn phase_value(x: Acts, cv: DConvT, w: Val, ph: nat) -> Val {
    let (py, px) = ((ph / 2) as int, (ph % 2) as int);
    let taps = (1 + py) * (1 + px);
    let n = x.h * x.w;
    Val::Product {
        a: Box::new(
            Val::PhasePatches {
                x: Box::new(x.v),
                cin: int32(cv.cin as int),
                h: int32(x.h as int),
                w: int32(x.w as int),
                py,
                px,
                taps,
                n: int32(n),
                oh: int32(2 * x.h),
                ow: int32(2 * x.w),
            },
        ),
        b: Box::new(w),
        m: int32(n),
        n: int32(cv.cout as int),
        k: int32(cv.cin * taps),
    }
}

/// An output in which the pixels with the parities of a phase are `v` with the bias.
pub open spec fn put_phase(under: Val, v: Val, bias: Val, x: Acts, cv: DConvT, ph: nat) -> Val {
    Val::Put {
        under: Box::new(under),
        x: Box::new(v),
        bias: Box::new(bias),
        cout: int32(cv.cout as int),
        n: int32(x.h * x.w),
        py: (ph / 2) as int,
        px: (ph % 2) as int,
        oh: int32(2 * x.h),
        ow: int32(2 * x.w),
    }
}

/// A phase has as many taps as the 3x3 kernel has weights that meet its pixels: one
/// row or two, and one column or two.
pub(crate) proof fn lemma_taps(ph: nat)
    requires
        ph < 4,
    ensures
        tap_count(ph) == (1 + ph / 2) * (1 + ph % 2),
{
    if ph == 0 {
        assert((1 + ph / 2) * (1 + ph % 2) == 1) by (nonlinear_arith)
            requires
                ph == 0,
        ;
    } else if ph == 1 {
        assert((1 + ph / 2) * (1 + ph % 2) == 2) by (nonlinear_arith)
            requires
                ph == 1,
        ;
    } else if ph == 2 {
        assert((1 + ph / 2) * (1 + ph % 2) == 2) by (nonlinear_arith)
            requires
                ph == 2,
        ;
    } else {
        assert((1 + ph / 2) * (1 + ph % 2) == 4) by (nonlinear_arith)
            requires
                ph == 3,
        ;
    }
}

/// A phase computes the output pixels of its parities, from the patches that are
/// gathered for these same parities, and puts them there and nowhere else.
pub proof fn phase_computes(p: Work, cv: DConvT, src: DActs, w: Dev, out: Dev, ph: nat)
    requires
        ph < 4,
        phase(p, cv, src, w, out, ph).going(),
        phase(p, cv, src, w, out, ph).cmds.len() <= usize::MAX,
        older(src.buf.addr, p.cmds.len()),
        older(w.addr, p.cmds.len()),
        older(cv.bias.addr, p.cmds.len()),
        older(out.addr, p.cmds.len()),
        at_start(out),
    ensures
        ({
            let q = phase(p, cv, src, w, out, ph);
            &&& value(q, out.addr) == put_phase(
                value(p, out.addr),
                phase_value(seen(p, src), cv, value(p, w.addr), ph),
                value(p, cv.bias.addr),
                seen(p, src),
                cv,
                ph,
            )
            &&& forall|id: usize|
                id < p.cmds.len() && out.addr.base != Base::Heap(id) ==> #[trigger] holds(q, id)
                    == holds(p, id)
            &&& after_all(q).results == after_all(p).results
            &&& p.cmds.len() <= q.cmds.len()
        }),
{
    let (h, v) = (src.h as int, src.w as int);
    let (py, px) = ((ph / 2) as int, (ph % 2) as int);
    assert((h * 2 + 1) / 2 == h && (v * 2 + 1) / 2 == v);
    let n = h * v;
    assert(phase_len(src) == n);
    let taps = (1 + py) * (1 + px);
    lemma_taps(ph);
    let k = cv.cin * taps;
    assert(cv.cin * tap_count(ph) == k);
    let q = phase(p, cv, src, w, out, ph);
    let col = p.fresh((k * n) as usize);
    let p1 = p.allocate(k * n);
    let part = p1.fresh((cv.cout * n) as usize);
    let p2 = p1.allocate(cv.cout * n);
    let gather = Call::ConvtCol {
        src: src.buf.addr,
        col: col.addr,
        cin: cv.cin as i32,
        h: src.h as i32,
        w: src.w as i32,
        py: py as i32,
        px: px as i32,
        taps: taps as i32,
        n: n as i32,
        oh: (h * 2) as i32,
        ow: (v * 2) as i32,
    };
    let p3 = p2.launch(gather, k * n);
    let product = Cmd::Gemm {
        role: Role::Phase(ph as usize),
        m: n as i32,
        n: cv.cout as i32,
        k: k as i32,
        a: col.addr,
        lda: n as i32,
        b: w.addr,
        ldb: k as i32,
        c: part.addr,
        ldc: n as i32,
    };
    let p4 = p3.push(product);
    let put = Call::ConvtPut {
        phase: part.addr,
        out: out.addr,
        bias: cv.bias.addr,
        cout: cv.cout as i32,
        n: n as i32,
        py: py as i32,
        px: px as i32,
        oh: (h * 2) as i32,
        ow: (v * 2) as i32,
        mode: 1,
    };
    let p5 = p4.launch(put, cv.cout * n);
    let p6 = p5.free(part);
    assert(q == p6.free(col));
    let len = p.cmds.len();
    lemma_block(p, k * n);
    lemma_block(p1, cv.cout * n);
    lemma_on(len, p1.cmds.len(), p, p1, p2);
    lemma_launched(p2, gather, k * n);
    let patches = value(p3, col.addr);
    lemma_turned(len, p, p2, p3, col, patches);
    lemma_still(len, p, p2, src);
    lemma_multiplied(p3, product, part);
    lemma_turned(len, p, p3, p4, part, value(p4, part.addr));
    lemma_same_value(len, p, p3, w.addr);
    assert(value(p4, part.addr) == phase_value(seen(p, src), cv, value(p, w.addr), ph));
    lemma_launched(p4, put, cv.cout * n);
    lemma_same_value(len, p, p4, out.addr);
    lemma_same_value(len, p, p4, cv.bias.addr);
    let made = value(p5, out.addr);
    lemma_freed(p5, part);
    lemma_freed(p6, col);
    let id = out.addr.base->Heap_0;
    assert(holds(p6, id) == holds(p5, id));
    assert(holds(q, id) == holds(p6, id));
    assert forall|id: usize| id < len && out.addr.base != Base::Heap(id) implies #[trigger] holds(
        q,
        id,
    ) == holds(p, id) by {
        assert(holds(p6, id) == holds(p5, id));
        assert(holds(p5, id) == holds(p4, id));
        assert(holds(p4, id) == holds(p, id));
    }
}

/// A transposed convolution by phases: each of the four phases, with its own weights,
/// is in its place.
pub open spec fn upsampled_acts(p: Work, x: Acts, cv: DConvT, w: Phases) -> Acts {
    let bias = value(p, cv.bias.addr);
    let v0 = phase_value(x, cv, value(p, w.p00.addr), 0);
    let v1 = phase_value(x, cv, value(p, w.p01.addr), 1);
    let v2 = phase_value(x, cv, value(p, w.p10.addr), 2);
    let v3 = phase_value(x, cv, value(p, w.p11.addr), 3);
    let o0 = put_phase(Val::Raw, v0, bias, x, cv, 0);
    let o1 = put_phase(o0, v1, bias, x, cv, 1);
    let o2 = put_phase(o1, v2, bias, x, cv, 2);
    Acts {
        v: put_phase(o2, v3, bias, x, cv, 3),
        c: cv.cout,
        h: (2 * x.h) as usize,
        w: (2 * x.w) as usize,
        len: (cv.cout * (2 * x.h) * (2 * x.w)) as usize,
    }
}

proof fn lemma_phase_on(
    n: nat,
    p: Work,
    q: Work,
    cv: DConvT,
    src: DActs,
    w: Dev,
    out: Dev,
    ph: nat,
)
    requires
        ph < 4,
        untouched(n, p, q),
        n <= q.cmds.len(),
        phase(q, cv, src, w, out, ph).going(),
        phase(q, cv, src, w, out, ph).cmds.len() <= usize::MAX,
        older(src.buf.addr, n),
        older(w.addr, n),
        older(cv.bias.addr, n),
        starts(out, n, q.cmds.len()),
    ensures
        ({
            let r = phase(q, cv, src, w, out, ph);
            &&& value(r, out.addr) == put_phase(
                value(q, out.addr),
                phase_value(seen(p, src), cv, value(p, w.addr), ph),
                value(p, cv.bias.addr),
                seen(p, src),
                cv,
                ph,
            )
            &&& untouched(n, p, r)
            &&& q.cmds.len() <= r.cmds.len()
        }),
{
    let r = phase(q, cv, src, w, out, ph);
    phase_computes(q, cv, src, w, out, ph);
    lemma_still(n, p, q, src);
    lemma_same_value(n, p, q, w.addr);
    lemma_same_value(n, p, q, cv.bias.addr);
    assert forall|id: usize| id < n implies #[trigger] holds(r, id) == holds(p, id) by {
        assert(holds(q, id) == holds(p, id));
    }
}

/// Upsampling by phases leaves an output of twice the extents in which every phase is
/// in its place.
pub proof fn upsampling_computes(p: Work, cv: DConvT, src: DActs, w: Phases)
    requires
        cv.phases == Some(w),
        up_phases(p, cv, src, w).0.going(),
        up_phases(p, cv, src, w).0.cmds.len() <= usize::MAX,
        older(src.buf.addr, p.cmds.len()),
        convt_older(cv, p.cmds.len()),
    ensures
        ({
            let (q, out) = up_phases(p, cv, src, w);
            makes(p, q, out, upsampled_acts(p, seen(p, src), cv, w))
        }),
{
    reveal(up_phases);
    reveal_with_fuel(phases_done, 5);
    let n = p.cmds.len();
    let len = cv.cout * (src.h * 2) * (src.w * 2);
    let d = p.fresh(len as usize);
    let a = p.allocate(len);
    let q0 = phase(a, cv, src, w.p00, d, 0);
    let q1 = phase(q0, cv, src, w.p01, d, 1);
    let q2 = phase(q1, cv, src, w.p10, d, 2);
    let q3 = phase(q2, cv, src, w.p11, d, 3);
    assert(phases_done(a, cv, src, w, d, 4) == q3);
    lemma_phase_grows(a, cv, src, w.p00, d, 0);
    lemma_phase_grows(q0, cv, src, w.p01, d, 1);
    lemma_phase_grows(q1, cv, src, w.p10, d, 2);
    lemma_phase_grows(q2, cv, src, w.p11, d, 3);
    lemma_block(p, len);
    lemma_phase_on(n, p, a, cv, src, w.p00, d, 0);
    lemma_phase_on(n, p, q0, cv, src, w.p01, d, 1);
    lemma_phase_on(n, p, q1, cv, src, w.p10, d, 2);
    lemma_phase_on(n, p, q2, cv, src, w.p11, d, 3);
}

} // verus!
