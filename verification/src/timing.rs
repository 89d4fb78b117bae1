//! What is measured of the parts of a convolution is measured of work that was done.

use vstd::prelude::*;

use crate::cuda::{Call, Cmd, DActs, Dev, Role, StopView, Sub, Work};
use crate::ops::{
    biased, conv, conv_fits, conv_sizes, patch_conv, pointwise, pointwise_fits, timed, DConv,
};
use crate::threads::{conv_small, small};

verus! {

broadcast use crate::cuda::group_work;

/// Where the command at `i` ends a measurement, it was begun three commands before, one
/// thing was done and the device was waited for. A matrix product is measured with as
/// many values as it has, and two operations for every term of each.
pub open spec fn measures(cmds: Seq<Cmd>, i: int) -> bool {
    cmds[i] matches Cmd::SubEnd { sub, elems, flops } ==> {
        &&& i >= 3
        &&& cmds[i - 1] is Sync
        &&& cmds[i - 3] is SubBegin
        &&& match sub {
            Sub::Im2col => cmds[i - 2] matches Cmd::Launch { call, .. } && call is Im2col,
            _ => cmds[i - 2] matches Cmd::Gemm { m, n, k, .. } && elems == m * n && flops == 2 * m
                * n * k,
        }
    }
}

/// Whether that holds of every command from `p` to `q`.
pub open spec fn measured(p: Work, q: Work) -> bool {
    &&& p.cmds.len() <= q.cmds.len()
    &&& forall|i: int| p.cmds.len() <= i < q.cmds.len() ==> #[trigger] measures(q.cmds, i)
}

proof fn lemma_self(p: Work)
    ensures
        measured(p, p),
{
}

/// A command that ends no measurement.
broadcast proof fn lemma_then(p0: Work, p: Work, cmd: Cmd)
    requires
        measured(p0, p),
        !(cmd is SubEnd),
    ensures
        #[trigger] measured(p0, p.push(cmd)),
{
    reveal(Work::push);
    let q = p.push(cmd);
    assert forall|i: int| p0.cmds.len() <= i < q.cmds.len() implies #[trigger] measures(
        q.cmds,
        i,
    ) by {
        if i < p.cmds.len() {
            assert(measures(p.cmds, i));
        }
    }
}

broadcast proof fn lemma_halted(p0: Work, p: Work, s: StopView)
    requires
        measured(p0, p),
    ensures
        #[trigger] measured(p0, p.halt(s)),
{
}

broadcast group group_measured {
    lemma_then,
    lemma_halted,
}

/// One thing, measured.
proof fn lemma_once(p0: Work, p: Work, cmd: Cmd, sub: Sub, elems: usize, flops: usize)
    requires
        measured(p0, p),
        match sub {
            Sub::Im2col => cmd matches Cmd::Launch { call, .. } && call is Im2col,
            _ => cmd matches Cmd::Gemm { m, n, k, .. } && elems == m * n && flops == 2 * m * n * k,
        },
    ensures
        measured(
            p0,
            p.push(Cmd::SubBegin).push(cmd).push(Cmd::Sync).push(
                Cmd::SubEnd { sub, elems, flops },
            ),
        ),
{
    broadcast use group_measured;

    let a = p.push(Cmd::SubBegin);
    let b = a.push(cmd);
    let c = b.push(Cmd::Sync);
    assert(measured(p0, a));
    assert(measured(p0, b));
    assert(measured(p0, c));
    let q = c.push(Cmd::SubEnd { sub, elems, flops });
    reveal(Work::push);
    if p.going() {
        assert forall|i: int| p0.cmds.len() <= i < q.cmds.len() implies #[trigger] measures(
            q.cmds,
            i,
        ) by {
            if i < c.cmds.len() {
                assert(measures(c.cmds, i));
            }
        }
    }
}

proof fn lemma_biased(p0: Work, p: Work, out: Dev, cv: DConv, n: usize)
    requires
        measured(p0, p),
    ensures
        measured(p0, biased(p, out, cv.bias, cv.cout, n)),
{
    broadcast use group_measured;

}

proof fn lemma_timed(p0: Work, p: Work, cmd: Cmd, sub: Sub, elems: int, flops: int)
    requires
        measured(p0, p),
        p.flags.profile_sub ==> 0 <= elems <= usize::MAX && 0 <= flops <= usize::MAX,
        p.flags.profile_sub ==> !(sub is Im2col),
        cmd matches Cmd::Gemm { m, n, k, .. } && elems == m * n && flops == 2 * m * n * k,
    ensures
        measured(p0, timed(p, cmd, sub, elems, flops)),
{
    broadcast use group_measured;

    if p.flags.profile_sub {
        lemma_once(p0, p, cmd, sub, elems as usize, flops as usize);
    }
}

/// What is measured of a convolution is measured around the work itself, and counts it
/// in full.
pub proof fn convolution_is_measured(
    p: Work,
    cv: DConv,
    src: DActs,
    pad: usize,
    stride: usize,
    reflect: bool,
)
    requires
        conv_small(cv, src, pad, stride),
        small(cv.cin * cv.kh * cv.kw),
    ensures
        measured(p, conv(p, cv, src, pad, stride, reflect).0),
{
    reveal(conv);
    if cv.kh == 1 && cv.kw == 1 && stride == 1 {
        lemma_pointwise(p, cv, src);
    } else if cv.kh == 7 && cv.kw == 7 && stride == 1 && pad == 0 && cv.w_t is Some {
        broadcast use group_measured;

        lemma_self(p);
    } else {
        lemma_patches(p, cv, src, pad, stride, reflect);
    }
}

proof fn lemma_pointwise(p: Work, cv: DConv, src: DActs)
    requires
        small(cv.cin as int),
        small(cv.cout as int),
        small(src.h * src.w),
    ensures
        measured(p, pointwise(p, cv, src).0),
{
    broadcast use group_measured;

    lemma_self(p);
    let n = src.plane_len();
    let out = p.fresh((cv.cout * n) as usize);
    if pointwise_fits(cv, src, p.flags.profile_sub) {
        let cmd = Cmd::Gemm {
            role: Role::Conv1x1,
            m: n as i32,
            n: cv.cout as i32,
            k: cv.cin as i32,
            a: src.buf.addr,
            lda: n as i32,
            b: cv.w.addr,
            ldb: cv.cin as i32,
            c: out.addr,
            ldc: n as i32,
        };
        let p1 = p.allocate(cv.cout * n);
        lemma_count(n, cv.cout as int, cv.cin as int);
        lemma_timed(
            p,
            p1,
            cmd,
            Sub::Sgemm1x1,
            n * cv.cout,
            2 * n * cv.cout * cv.cin,
        );
        let q = timed(p1, cmd, Sub::Sgemm1x1, n * cv.cout, 2 * n * cv.cout * cv.cin);
        lemma_biased(p, q, out, cv, n as usize);
    }
}

proof fn lemma_count(n: int, cout: int, k: int)
    requires
        0 <= n,
        0 <= cout,
        0 <= k,
    ensures
        0 <= n * cout,
        0 <= 2 * n * cout * k,
        n * cout == cout * n,
{
    assert(0 <= n * cout && n * cout == cout * n) by (nonlinear_arith)
        requires
            0 <= n,
            0 <= cout,
    ;
    assert(0 <= 2 * n * cout * k) by (nonlinear_arith)
        requires
            0 <= n * cout,
            0 <= k,
    ;
}

proof fn lemma_patches(
    p: Work,
    cv: DConv,
    src: DActs,
    pad: usize,
    stride: usize,
    reflect: bool,
)
    requires
        conv_small(cv, src, pad, stride),
        small(cv.cin * cv.kh * cv.kw),
    ensures
        measured(p, patch_conv(p, cv, src, pad, stride, reflect).0),
{
    broadcast use group_measured;

    lemma_self(p);
    let on = p.flags.profile_sub;
    let z = conv_sizes(cv, src, pad, stride);
    if conv_fits(cv, src, pad, stride, on) {
        let col = p.fresh((z.k * z.n) as usize);
        let p1 = p.allocate(z.k * z.n);
        let out = p1.fresh((cv.cout * z.n) as usize);
        let p2 = p1.allocate(cv.cout * z.n);
        let call = Call::Im2col {
            src: src.buf.addr,
            col: col.addr,
            cin: cv.cin as i32,
            h: src.h as i32,
            w: src.w as i32,
            kh: cv.kh as i32,
            kw: cv.kw as i32,
            ph: pad as i32,
            pw: pad as i32,
            stride: stride as i32,
            oh: z.oh as i32,
            ow: z.ow as i32,
            reflect: if reflect {
                1
            } else {
                0
            },
        };
        let end = Cmd::SubEnd {
            sub: Sub::Im2col,
            elems: (z.n * cv.cout) as usize,
            flops: (z.n * cv.cout * z.k) as usize,
        };
        let p3 = p2.push_if(on, Cmd::SubBegin).launch(call, z.k * z.n).sync_if(on).push_if(on, end);
        assert(measured(p, p2));
        assert(measured(p, p3)) by {
            let launch = Cmd::Launch {
                call,
                grid: crate::cuda::grid_len(z.k * z.n, crate::cuda::BLOCK as int) as u32,
            };
            lemma_once(
                p,
                p2,
                launch,
                Sub::Im2col,
                (z.n * cv.cout) as usize,
                (z.n * cv.cout * z.k) as usize,
            );
        }
        let cmd = Cmd::Gemm {
            role: Role::Conv,
            m: z.n as i32,
            n: cv.cout as i32,
            k: z.k as i32,
            a: col.addr,
            lda: z.n as i32,
            b: cv.w.addr,
            ldb: z.k as i32,
            c: out.addr,
            ldc: z.n as i32,
        };
        lemma_count(z.n, cv.cout as int, z.k);
        lemma_timed(p, p3, cmd, Sub::Sgemm, z.n * cv.cout, 2 * z.n * cv.cout * z.k);
        let p4 = timed(p3, cmd, Sub::Sgemm, z.n * cv.cout, 2 * z.n * cv.cout * z.k);
        lemma_biased(p, p4, out, cv, z.n as usize);
        let p5 = biased(p4, out, cv.bias, cv.cout, z.n as usize);
        assert(measured(p, p5.free(col)));
    }
}

} // verus!
