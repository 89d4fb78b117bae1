//! What the steps of a forward pass compute from the activations that enter them.

use vstd::prelude::*;

use crate::cuda::{Base, Cmd, DActs, Op, Work};
use crate::dataflow::{
    bn_older, conv_older, convolution_computes, convolved, convt_older, gathered_acts,
    gathering_computes, int32, int64, lemma_freed, lemma_given_up, lemma_on, lemma_quiet,
    lemma_same_value, lemma_same_weights, lemma_still, lemma_turned, normalisation_computes,
    normed_acts, padding_computes, sigmoid_computes, stacking_computes,
};
use crate::engine::{
    after_step, concat_step, ffc_step, op_begun, op_ended, out_step, pad_step, repadded, res_step,
    upsample_step, upsampled, Pass,
};
use crate::meaning::{after_all, holds, older, seen, starts, untouched, value, Acts, Val};
use crate::network::{
    evaluation_computes, ffc_older, global_output, lemma_same_outputs, local_output, seen_if,
};
use crate::ops::{bn_relu, concatenated, conv, ffc, padded, sigmoid, DBn, DConv, DConvT, DFfc};
use crate::safety::{
    grows, lemma_conv_grows, lemma_ffc_grows, lemma_small_grow, lemma_upsampled_grows,
};
use crate::upsampling::{upsampled_acts, upsampling_computes};

verus! {

broadcast use crate::cuda::group_work;

/// The activations of a pass are whole blocks of their own, newer than the weights,
/// which the first `n` commands put in place.
pub open spec fn standing(n: nat, s: Pass) -> bool {
    &&& n <= s.work.cmds.len()
    &&& starts(s.acts.buf, n, s.work.cmds.len())
    &&& (s.global matches Some(g) ==> starts(g.buf, n, s.work.cmds.len()) && g.buf.addr.base
        != s.acts.buf.addr.base)
}

/// A pass goes on, and what was recorded can be numbered.
pub open spec fn runs(s: Pass) -> bool {
    s.work.going() && s.work.cmds.len() <= usize::MAX
}

/// From `p` to `q` nothing that is seen changes.
pub(crate) open spec fn alike(p: Work, q: Work) -> bool {
    &&& after_all(q) == after_all(p)
    &&& q.going() == p.going()
    &&& q.flags == p.flags
    &&& p.cmds.len() <= q.cmds.len()
}

proof fn lemma_begun(p: Work)
    ensures
        alike(p, op_begun(p)),
{
    let on = p.flags.profile_ops;
    lemma_quiet(p, on, Cmd::Sync);
    lemma_quiet(p.sync_if(on), on, Cmd::OpBegin);
}

proof fn lemma_ended(p: Work, op: Op)
    ensures
        alike(p, op_ended(p, op)),
{
    let on = p.flags.profile_ops;
    lemma_quiet(p, on, Cmd::Sync);
    lemma_quiet(p.sync_if(on), on, Cmd::OpEnd { op });
}

pub(crate) proof fn lemma_after(s: Pass, no: usize)
    ensures
        alike(s.work, after_step(s, no).work),
{
    let f = s.work.flags;
    let dump = f.dump_after == Some(no);
    let d = Cmd::Dump { step: no, local: s.acts, global: s.global };
    let p1 = s.work.sync_if(dump);
    let p2 = p1.push_if(dump, d);
    let p3 = p2.sync_if(f.profile_sync);
    lemma_quiet(s.work, dump, Cmd::Sync);
    lemma_quiet(p1, dump, d);
    lemma_quiet(p2, f.profile_sync, Cmd::Sync);
    lemma_quiet(
        p3,
        f.profile,
        Cmd::NoteStep {
            step: no,
            local: crate::engine::shape_of(s.acts),
            global: crate::engine::shape_in(s.global),
        },
    );
}

/// What is alike keeps what is untouched.
pub(crate) proof fn lemma_alike(n: nat, p: Work, q: Work, r: Work)
    requires
        untouched(n, p, q),
        alike(q, r),
    ensures
        untouched(n, p, r),
        forall|a: DActs| #[trigger] seen(r, a) == seen(q, a),
{
    assert forall|id: usize| id < n implies #[trigger] holds(r, id) == holds(p, id) by {
        assert(holds(q, id) == holds(p, id));
    }
}

pub(crate) proof fn lemma_same(n: nat, p: Work)
    ensures
        untouched(n, p, p),
{
}

/// Giving up a block that may be absent, beside two that are kept.
proof fn lemma_release(n: nat, p: Work, q: Work, d: Option<DActs>, a: DActs, g: Option<DActs>)
    requires
        untouched(n, p, q),
        d matches Some(d) ==> {
            &&& (d.buf.addr.base matches Base::Heap(id) ==> n <= id)
            &&& d.buf.addr.base != a.buf.addr.base
            &&& (g matches Some(g) ==> d.buf.addr.base != g.buf.addr.base)
        },
    ensures
        untouched(n, p, q.free_acts(d)),
        seen(q.free_acts(d), a) == seen(q, a),
        seen_if(q.free_acts(d), g) == seen_if(q, g),
        q.free_acts(d).going() == q.going(),
        q.cmds.len() <= q.free_acts(d).cmds.len(),
        q.free_acts(d).flags == q.flags,
{
    if let Some(d) = d {
        lemma_given_up(n, p, q, d.buf, a);
        if let Some(g) = g {
            lemma_given_up(n, p, q, d.buf, g);
        }
    }
}

// ---------------------------------------------------------------------------
// Padding
// ---------------------------------------------------------------------------

/// Planes padded on all sides by reflection.
pub open spec fn mirrored(x: Acts, pad: usize) -> Acts {
    Acts {
        v: Val::Mirrored {
            x: Box::new(x.v),
            c: int32(x.c as int),
            h: int32(x.h as int),
            w: int32(x.w as int),
            pad: int32(pad as int),
        },
        c: x.c,
        h: (x.h + 2 * pad) as usize,
        w: (x.w + 2 * pad) as usize,
        len: (x.c * (x.h + 2 * pad) * (x.w + 2 * pad)) as usize,
    }
}

proof fn lemma_repadded(n: nat, p: Work, a: DActs, pad: usize, other: DActs)
    requires
        repadded(p, a, pad).0.going(),
        repadded(p, a, pad).0.cmds.len() <= usize::MAX,
        starts(a.buf, n, p.cmds.len()),
        older(other.buf.addr, p.cmds.len()),
        other.buf.addr.base != a.buf.addr.base,
        n <= p.cmds.len(),
    ensures
        ({
            let (q, b) = repadded(p, a, pad);
            &&& starts(b.buf, p.cmds.len(), q.cmds.len())
            &&& seen(q, b) == mirrored(seen(p, a), pad)
            &&& seen(q, other) == seen(p, other)
            &&& untouched(n, p, q)
            &&& p.going()
            &&& p.cmds.len() <= q.cmds.len()
            &&& q.flags == p.flags
        }),
{
    let b = op_begun(p);
    let (c, out) = padded(b, a, pad);
    let e = op_ended(c, Op::Pad);
    let bn = DBn { scale: a.buf, shift: a.buf, channels: 0 };
    lemma_begun(p);
    lemma_small_grow(b, a, a, pad, bn);
    lemma_ended(c, Op::Pad);
    lemma_freed(e, a.buf);
    lemma_same(n, p);
    lemma_alike(n, p, p, b);
    padding_computes(b, a, pad);
    lemma_on(n, b.cmds.len(), p, b, c);
    lemma_still(b.cmds.len(), b, c, other);
    lemma_alike(n, p, c, e);
    lemma_given_up(n, p, e, a.buf, out);
    lemma_given_up(n, p, e, a.buf, other);
}

/// Padding a pass pads both branches by reflection.
pub proof fn padding_step_computes(n: nat, s: Pass, pad: usize)
    requires
        runs(pad_step(s, pad)),
        standing(n, s),
    ensures
        ({
            let q = pad_step(s, pad);
            &&& standing(n, q)
            &&& seen(q.work, q.acts) == mirrored(seen(s.work, s.acts), pad)
            &&& seen_if(q.work, q.global) == match s.global {
                Some(g) => Some(mirrored(seen(s.work, g), pad)),
                None => None,
            }
            &&& untouched(n, s.work, q.work)
        }),
{
    let (p1, a) = repadded(s.work, s.acts, pad);
    match s.global {
        Some(g) => {
            let (p2, b) = repadded(p1, g, pad);
            lemma_repadded_grows(p1, g, pad);
            lemma_repadded(n, s.work, s.acts, pad, g);
            lemma_repadded(n, p1, g, pad, a);
            lemma_on(n, n, s.work, p1, p2);
        },
        None => {
            let other = crate::ops::nothing();
            lemma_repadded(n, s.work, s.acts, pad, other);
        },
    }
}

proof fn lemma_repadded_grows(p: Work, a: DActs, pad: usize)
    ensures
        grows(p, repadded(p, a, pad).0),
{
    let b = op_begun(p);
    let bn = DBn { scale: a.buf, shift: a.buf, channels: 0 };
    lemma_begun(p);
    lemma_small_grow(b, a, a, pad, bn);
    lemma_ended(padded(b, a, pad).0, Op::Pad);
}

// ---------------------------------------------------------------------------
// Evaluations
// ---------------------------------------------------------------------------

/// A step of one evaluation: its outputs take the place of the activations.
pub proof fn evaluation_step_computes(n: nat, s: Pass, f: DFfc)
    requires
        runs(ffc_step(s, f)),
        standing(n, s),
        ffc_older(f, n),
    ensures
        ({
            let q = ffc_step(s, f);
            let (x, g) = (seen(s.work, s.acts), seen_if(s.work, s.global));
            &&& standing(n, q)
            &&& seen(q.work, q.acts) == local_output(s.work, f, x, g, None)
            &&& seen_if(q.work, q.global) == global_output(
                s.work,
                f,
                x,
                g,
                None,
                s.work.flags.fft_host,
            )
            &&& untouched(n, s.work, q.work)
        }),
{
    let p = s.work;
    let b = op_begun(p);
    let r = ffc(b, f, s.acts, s.global, None, None);
    let e = op_ended(r.work, Op::Ffc);
    let e1 = e.free(s.acts.buf);
    let q = ffc_step(s, f);
    lemma_begun(p);
    lemma_ffc_grows(b, f, s.acts, s.global, None, None);
    lemma_ended(r.work, Op::Ffc);
    lemma_freed(e, s.acts.buf);
    assert(e1 == e.free_acts(Some(s.acts)));
    assert(r.work.going() && r.work.cmds.len() <= usize::MAX) by {
        lemma_acts_freed(e1, s.global);
    }
    evaluation_computes(b, f, s.acts, s.global, None, None);
    lemma_same(n, p);
    lemma_alike(n, p, p, b);
    lemma_same_outputs(n, p, b, f);
    lemma_on(n, b.cmds.len(), p, b, r.work);
    lemma_alike(n, p, r.work, e);
    lemma_release(n, p, e, Some(s.acts), r.local, r.global);
    lemma_release(n, p, e1, s.global, r.local, r.global);
}

pub(crate) proof fn lemma_acts_freed(p: Work, a: Option<DActs>)
    ensures
        p.free_acts(a).going() == p.going(),
        p.cmds.len() <= p.free_acts(a).cmds.len(),
{
}

/// A residual step: the second evaluation is that of the outputs of the first, and
/// what entered the step is added to both of its outputs.
pub proof fn residual_step_computes(n: nat, s: Pass, f1: DFfc, f2: DFfc)
    requires
        runs(res_step(s, f1, f2)),
        standing(n, s),
        ffc_older(f1, n),
        ffc_older(f2, n),
    ensures
        ({
            let q = res_step(s, f1, f2);
            let host = s.work.flags.fft_host;
            let (x, g) = (seen(s.work, s.acts), seen_if(s.work, s.global));
            let l1 = local_output(s.work, f1, x, g, None);
            let g1 = global_output(s.work, f1, x, g, None, host);
            &&& standing(n, q)
            &&& seen(q.work, q.acts) == local_output(s.work, f2, l1, g1, Some(x))
            &&& seen_if(q.work, q.global) == global_output(s.work, f2, l1, g1, g, host)
            &&& untouched(n, s.work, q.work)
        }),
{
    let p = s.work;
    let b1 = op_begun(p);
    let r1 = ffc(b1, f1, s.acts, s.global, None, None);
    let e1 = op_ended(r1.work, Op::ResA);
    let b2 = op_begun(e1);
    let r2 = ffc(b2, f2, r1.local, r1.global, Some(s.acts), s.global);
    let e2 = op_ended(r2.work, Op::ResB);
    let d1 = e2.free(s.acts.buf);
    let d2 = d1.free_acts(s.global);
    let d3 = d2.free_acts(r1.global);
    let q = res_step(s, f1, f2);
    lemma_begun(p);
    lemma_ffc_grows(b1, f1, s.acts, s.global, None, None);
    lemma_ended(r1.work, Op::ResA);
    lemma_begun(e1);
    lemma_ffc_grows(b2, f2, r1.local, r1.global, Some(s.acts), s.global);
    lemma_ended(r2.work, Op::ResB);
    lemma_freed(e2, s.acts.buf);
    lemma_acts_freed(d1, s.global);
    lemma_acts_freed(d2, r1.global);
    lemma_freed(d3, r1.local.buf);
    assert(d1 == e2.free_acts(Some(s.acts)));
    assert(q.work == d3.free_acts(Some(r1.local)));
    evaluation_computes(b1, f1, s.acts, s.global, None, None);
    lemma_same(n, p);
    lemma_alike(n, p, p, b1);
    lemma_same_outputs(n, p, b1, f1);
    lemma_on(n, b1.cmds.len(), p, b1, r1.work);
    let m = b1.cmds.len();
    lemma_alike(n, p, r1.work, e1);
    lemma_alike(n, p, e1, b2);
    lemma_alike(m, b1, r1.work, e1);
    lemma_alike(m, b1, e1, b2);
    lemma_still(m, b1, b2, s.acts);
    if let Some(g) = s.global {
        lemma_still(m, b1, b2, g);
    }
    assert(seen(b2, s.acts) == seen(p, s.acts));
    assert(seen_if(b2, s.global) == seen_if(p, s.global));
    assert(seen(b2, r1.local) == seen(r1.work, r1.local));
    assert(seen_if(b2, r1.global) == seen_if(r1.work, r1.global));
    evaluation_computes(b2, f2, r1.local, r1.global, Some(s.acts), s.global);
    lemma_same_outputs(n, p, b2, f2);
    lemma_on(n, b2.cmds.len(), p, b2, r2.work);
    lemma_alike(n, p, r2.work, e2);
    lemma_release(n, p, e2, Some(s.acts), r2.local, r2.global);
    lemma_release(n, p, d1, s.global, r2.local, r2.global);
    lemma_release(n, p, d2, r1.global, r2.local, r2.global);
    lemma_release(n, p, d3, Some(r1.local), r2.local, r2.global);
}

/// What leaves a residual step is a sum, and what entered the step is its second
/// part, on the local branch and on the global one, wherever the second evaluation
/// closes the branch with a normalisation. Its first part is normalised with the scale
/// and the shift of that normalisation.
pub proof fn residual_step_adds_its_input(n: nat, s: Pass, f1: DFfc, f2: DFfc)
    requires
        runs(res_step(s, f1, f2)),
        standing(n, s),
        ffc_older(f1, n),
        ffc_older(f2, n),
    ensures
        ({
            let q = res_step(s, f1, f2);
            &&& f2.out_local > 0 && f2.bn_l is Some ==> {
                let v = value(q.work, q.acts.buf.addr);
                &&& v is Sum
                &&& *v->Sum_b == value(s.work, s.acts.buf.addr)
                &&& *v->Sum_a is Normed
                &&& *(*v->Sum_a)->scale == value(s.work, (f2.bn_l->0).scale.addr)
                &&& *(*v->Sum_a)->shift == value(s.work, (f2.bn_l->0).shift.addr)
            }
            &&& f2.out_global > 0 && f2.bn_g is Some ==> {
                let v = value(q.work, (q.global->0).buf.addr);
                &&& q.global is Some
                &&& s.global is Some ==> {
                    &&& v is Sum
                    &&& *v->Sum_b == value(s.work, (s.global->0).buf.addr)
                    &&& *v->Sum_a is Normed
                    &&& *(*v->Sum_a)->scale == value(s.work, (f2.bn_g->0).scale.addr)
                    &&& *(*v->Sum_a)->shift == value(s.work, (f2.bn_g->0).shift.addr)
                }
                &&& s.global is None ==> v is Normed
            }
        }),
{
    residual_step_computes(n, s, f1, f2);
    let q = res_step(s, f1, f2);
    if f2.out_global > 0 {
        assert(seen_if(q.work, q.global) is Some);
    }
}

// ---------------------------------------------------------------------------
// Stacking, upsampling, the result
// ---------------------------------------------------------------------------

/// Two blocks stacked along their channels: all of the second right behind all of the
/// first.
pub open spec fn stacked(a: Acts, g: Acts) -> Acts {
    let first = Val::First { x: Box::new(a.v), n: int64(a.len as int) };
    let second = Val::First { x: Box::new(g.v), n: int64(g.len as int) };
    Acts {
        v: if a.len == 0 {
            second
        } else {
            Val::Followed {
                first: Box::new(first),
                offset: (4 * a.len) as usize,
                by: Box::new(second),
            }
        },
        c: (a.c + g.c) as usize,
        h: a.h,
        w: a.w,
        len: (a.len + g.len) as usize,
    }
}

/// Stacking collapses the branches into one: the local planes, and behind them the
/// global ones.
pub proof fn stacking_step_computes(n: nat, s: Pass)
    requires
        runs(concat_step(s)),
        standing(n, s),
    ensures
        ({
            let q = concat_step(s);
            &&& s.global is Some
            &&& standing(n, q)
            &&& q.global is None
            &&& seen(q.work, q.acts) == stacked(
                seen(s.work, s.acts),
                seen(s.work, s.global->0),
            )
            &&& untouched(n, s.work, q.work)
        }),
{
    let p = s.work;
    let g = s.global->0;
    let (c, out) = concatenated(p, s.acts, g);
    let e = c.free(s.acts.buf);
    let bn = DBn { scale: g.buf, shift: g.buf, channels: 0 };
    lemma_small_grow(p, s.acts, g, 0, bn);
    lemma_freed(c, s.acts.buf);
    lemma_freed(e, g.buf);
    stacking_computes(p, s.acts, g);
    lemma_same(n, p);
    lemma_on(n, p.cmds.len(), p, p, c);
    lemma_given_up(n, p, c, s.acts.buf, out);
    lemma_given_up(n, p, e, g.buf, out);
}

/// A transposed convolution: by phases unless the gather kernel is asked for, or there
/// are no weights for the phases.
pub open spec fn upsampling(p: Work, cv: DConvT, x: Acts, gather: bool) -> Acts {
    match cv.phases {
        Some(w) => if gather {
            gathered_acts(p, x, cv)
        } else {
            upsampled_acts(p, x, cv, w)
        },
        None => gathered_acts(p, x, cv),
    }
}

/// An upsampling step: the transposed convolution of the local branch, normalised. The
/// global branch ends.
pub proof fn upsampling_step_computes(n: nat, s: Pass, cv: DConvT, bn: DBn)
    requires
        runs(upsample_step(s, cv, bn)),
        standing(n, s),
        convt_older(cv, n),
        bn_older(bn, n),
    ensures
        ({
            let q = upsample_step(s, cv, bn);
            let gather = s.work.flags.convt_gather;
            &&& standing(n, q)
            &&& q.global is None
            &&& seen(q.work, q.acts) == normed_acts(
                s.work,
                upsampling(s.work, cv, seen(s.work, s.acts), gather),
                bn,
            )
            &&& untouched(n, s.work, q.work)
        }),
{
    let p = s.work;
    let b = op_begun(p);
    let (c, up) = upsampled(b, cv, s.acts);
    let e = op_ended(c, Op::Upsample);
    let r = bn_relu(e, up, bn);
    let d = r.free(s.acts.buf);
    let q = upsample_step(s, cv, bn);
    lemma_begun(p);
    lemma_upsampled_grows(b, cv, s.acts);
    lemma_ended(c, Op::Upsample);
    lemma_small_grow(e, up, up, 0, bn);
    lemma_freed(r, s.acts.buf);
    lemma_acts_freed(d, s.global);
    lemma_same(n, p);
    lemma_alike(n, p, p, b);
    if cv.phases is Some && !b.flags.convt_gather {
        upsampling_computes(b, cv, s.acts, cv.phases->0);
    } else {
        gathering_computes(b, cv, s.acts);
    }
    lemma_same_up(n, p, b, cv, seen(p, s.acts));
    lemma_on(n, b.cmds.len(), p, b, c);
    lemma_alike(n, p, c, e);
    normalisation_computes(e, up, bn);
    lemma_same_value(n, p, e, bn.scale.addr);
    lemma_same_value(n, p, e, bn.shift.addr);
    lemma_turned(n, p, e, r, up.buf, value(r, up.buf.addr));
    lemma_given_up(n, p, r, s.acts.buf, up);
    lemma_release(n, p, d, s.global, up, None);
}

pub(crate) proof fn lemma_same_up(n: nat, p: Work, q: Work, cv: DConvT, x: Acts)
    requires
        untouched(n, p, q),
        convt_older(cv, n),
    ensures
        forall|gather: bool| upsampling(p, cv, x, gather) == #[trigger] upsampling(q, cv, x, gather),
{
    lemma_same_value(n, p, q, cv.w.addr);
    lemma_same_value(n, p, q, cv.bias.addr);
    if let Some(w) = cv.phases {
        lemma_same_value(n, p, q, w.p00.addr);
        lemma_same_value(n, p, q, w.p01.addr);
        lemma_same_value(n, p, q, w.p10.addr);
        lemma_same_value(n, p, q, w.p11.addr);
    }
}

/// The result: the sigmoid of all of the closing convolution, without padding.
pub open spec fn closing(p: Work, cv: DConv, x: Acts) -> Val {
    let y = convolved(p, x, cv, 0, 1, false);
    Val::Sigmoid { x: Box::new(y.v), n: int64(y.len as int) }
}

/// The closing step copies to the host the sigmoid of the closing convolution of the
/// local branch, and nothing else.
pub proof fn closing_step_computes(n: nat, s: Pass, cv: DConv)
    requires
        runs(out_step(s, cv)),
        standing(n, s),
        conv_older(cv, n),
    ensures
        ({
            let q = out_step(s, cv);
            &&& standing(n, q)
            &&& q.done
            &&& after_all(q.work).results == after_all(s.work).results.push(
                closing(s.work, cv, seen(s.work, s.acts)),
            )
        }),
{
    let p = s.work;
    let on = p.flags.profile;
    let b = op_begun(p);
    let (c, out) = conv(b, cv, s.acts, 0, 1, false);
    let e = op_ended(c, Op::OutConv);
    let r = sigmoid(e, out);
    let r1 = r.push(Cmd::Sync);
    let r2 = r1.push_if(on, Cmd::NoteLoop);
    let r3 = r2.push(Cmd::Download { src: out.buf });
    let note = Cmd::NoteResult { floats: out.buf.len };
    let r4 = r3.push_if(on, note);
    let q = out_step(s, cv);
    assert(q.work == r4.free(out.buf));
    lemma_begun(p);
    lemma_conv_grows(b, cv, s.acts, 0, 1, false);
    lemma_ended(c, Op::OutConv);
    assert(r.going() && r.cmds.len() <= usize::MAX);
    assert(grows(e, r));
    lemma_same(n, p);
    lemma_alike(n, p, p, b);
    convolution_computes(b, cv, s.acts, 0, 1, false);
    lemma_same_weights(n, p, b, seen(p, s.acts), cv, 0, 1, false);
    lemma_on(n, b.cmds.len(), p, b, c);
    lemma_alike(n, p, c, e);
    sigmoid_computes(e, out);
    lemma_quiet(r, true, Cmd::Sync);
    lemma_quiet(r1, on, Cmd::NoteLoop);
    crate::meaning::lemma_performed(r2, Cmd::Download { src: out.buf });
    lemma_quiet(r3, on, note);
    lemma_freed(r4, out.buf);
    assert(value(r2, out.buf.addr) == value(r, out.buf.addr));
}

} // verus!
