//! How far a forward pass reaches: where every layer matches what reaches it, all of
//! its commands stay within the blocks that they are handed.

use vstd::prelude::*;

use crate::cuda::{Cmd, DActs, Op, Work};
use crate::engine::{
    after_step, concat_step, ffc_step, input_there, op_begun, op_ended, out_step, pad_step, pass,
    repadded, res_step, step_taken, steps_taken, upsample_step, upsampled, Pass,
};
use crate::extents::{
    block, block_if, bn_ready, bn_relu_stays_within, concat_stays_within, conv_ready, conv_small,
    conv_stays_within, convt_ready, convt_small, evaluation_stays_within, ffc_ready,
    global_matches, inside, lemma_both, lemma_carry, lemma_inside_grows, lemma_self,
    local_matches, pad_stays_within, sigmoid_stays_within, small, stays_within,
    upsampling_stays_within, Room,
};
use crate::lifetime::{lemma_freed_stays, lemma_step_taken};
use crate::loader::{conv_freed, ffc_freed, step_freed, steps_freed, DStep};
use crate::ops::{bn_relu, concatenated, conv, ffc, padded, sigmoid, DBn, DConv, DConvT, DFfc};
use crate::safety::{
    at, grows, lemma_conv_grows, lemma_ffc_grows, lemma_small_grow, lemma_upsampled_grows,
};

verus! {

broadcast use crate::cuda::group_work;

/// Whether the tensors of a step have the sizes that they claim.
pub open spec fn step_ready(room: Room, cmds: Seq<Cmd>, step: DStep) -> bool {
    match step {
        DStep::ReflectPad(_) => true,
        DStep::Ffc(f) => ffc_ready(room, cmds, f),
        DStep::Res(f, g) => ffc_ready(room, cmds, f) && ffc_ready(room, cmds, g),
        DStep::Concat => true,
        DStep::Upsample(cv, bn) => convt_ready(room, cmds, cv) && bn_ready(room, cmds, bn),
        DStep::OutConv(cv) => conv_ready(room, cmds, cv),
    }
}

/// Whether a layer matches what it is evaluated on.
pub open spec fn layer_fits(
    w: DFfc,
    inp: DActs,
    glob: Option<DActs>,
    skip_local: Option<DActs>,
    skip_global: Option<DActs>,
) -> bool {
    &&& w.in_local <= inp.c
    &&& w.in_global == 0 ==> inp.c == w.in_local
    &&& inp.plane_len() <= usize::MAX
    &&& w.out_local > 0 ==> local_matches(w, inp, glob, skip_local)
    &&& w.out_global > 0 ==> global_matches(w, inp, glob, skip_global)
}

/// Whether a block has extents that can be padded.
pub open spec fn pad_small(a: DActs) -> bool {
    small(a.c as int) && small(a.h as int) && small(a.w as int)
}

/// Whether a step matches the activations that reach it.
pub open spec fn step_fits(s: Pass, step: DStep) -> bool {
    match step {
        DStep::ReflectPad(n) => {
            &&& small(n as int)
            &&& pad_small(s.acts)
            &&& (s.global matches Some(g) ==> pad_small(g))
        },
        DStep::Ffc(f) => layer_fits(f, s.acts, s.global, None, None),
        DStep::Res(f, g) => {
            let a = ffc(op_begun(s.work), f, s.acts, s.global, None, None);
            &&& layer_fits(f, s.acts, s.global, None, None)
            &&& layer_fits(g, a.local, a.global, Some(s.acts), s.global)
        },
        DStep::Concat => s.global matches Some(g) ==> g.h == s.acts.h && g.w == s.acts.w,
        DStep::Upsample(cv, bn) => {
            &&& s.acts.c == cv.cin
            &&& convt_small(cv, s.acts)
            &&& bn.channels == cv.cout
        },
        DStep::OutConv(cv) => s.acts.c == cv.cin && conv_small(cv, s.acts, 0, 1),
    }
}

/// Whether the activations of a pass are whole blocks, where it goes on.
pub open spec fn pass_whole(room: Room, s: Pass) -> bool {
    s.work.going() ==> block(room, s.work.cmds, s.acts) && block_if(room, s.work.cmds, s.global)
}

/// From one state of a pass to the next, everything stays within its blocks.
spec fn goes_well(room: Room, s: Pass, q: Pass) -> bool {
    stays_within(room, s.work, q.work) && pass_whole(room, q)
}

proof fn lemma_op(room: Room, p: Work, op: Op)
    ensures
        stays_within(room, p, op_begun(p)),
        stays_within(room, p, op_ended(p, op)),
        grows(p, op_begun(p)),
        grows(p, op_ended(p, op)),
{
    broadcast use crate::extents::group_within;

    lemma_self(room, p);
}

proof fn lemma_free_acts(room: Room, p: Work, a: Option<DActs>, b: DActs)
    ensures
        stays_within(room, p, p.free_acts(a)),
        stays_within(room, p, p.free(b.buf)),
        grows(p, p.free_acts(a)),
        grows(p, p.free(b.buf)),
        p.free_acts(a).going() == p.going(),
        p.free(b.buf).going() == p.going(),
{
    broadcast use crate::extents::group_within;

    lemma_self(room, p);
}

proof fn lemma_repadded(room: Room, p: Work, a: DActs, n: usize)
    requires
        p.going() ==> block(room, p.cmds, a),
        pad_small(a),
        small(n as int),
        repadded(p, a, n).0.cmds.len() <= usize::MAX,
    ensures
        stays_within(room, p, repadded(p, a, n).0),
        repadded(p, a, n).0.going() ==> block(room, repadded(p, a, n).0.cmds, repadded(p, a, n).1),
{
    let b = op_begun(p);
    let (c, x) = padded(b, a, n);
    let e = op_ended(c, Op::Pad);
    let q = e.free(a.buf);
    lemma_op(room, p, Op::Pad);
    lemma_op(room, c, Op::Pad);
    lemma_free_acts(room, e, None, a);
    lemma_small_grow(b, a, a, n, DBn { scale: a.buf, shift: a.buf, channels: 0 });
    lemma_carry(room, p, b);
    pad_stays_within(room, b, a, n);
    lemma_carry(room, c, e);
    lemma_carry(room, e, q);
    lemma_both(room, p, b, c);
    lemma_both(room, p, c, e);
    lemma_both(room, p, e, q);
}

proof fn lemma_repadded_grows(p: Work, a: DActs, n: usize)
    ensures
        grows(p, repadded(p, a, n).0),
{
    lemma_small_grow(op_begun(p), a, a, n, DBn { scale: a.buf, shift: a.buf, channels: 0 });
}

proof fn lemma_pad_step(room: Room, s: Pass, n: usize)
    requires
        pass_whole(room, s),
        step_fits(s, DStep::ReflectPad(n)),
        pad_step(s, n).work.cmds.len() <= usize::MAX,
    ensures
        goes_well(room, s, pad_step(s, n)),
{
    let (p1, acts) = repadded(s.work, s.acts, n);
    if let Some(g) = s.global {
        let (p2, h) = repadded(p1, g, n);
        lemma_repadded_grows(p1, g, n);
        lemma_repadded_grows(s.work, s.acts, n);
        lemma_repadded(room, s.work, s.acts, n);
        lemma_carry(room, s.work, p1);
        lemma_repadded(room, p1, g, n);
        lemma_carry(room, p1, p2);
        lemma_both(room, s.work, p1, p2);
    } else {
        lemma_repadded(room, s.work, s.acts, n);
    }
}

proof fn lemma_ffc_step(room: Room, s: Pass, f: DFfc)
    requires
        pass_whole(room, s),
        s.work.going() ==> ffc_ready(room, s.work.cmds, f),
        step_fits(s, DStep::Ffc(f)),
        ffc_step(s, f).work.cmds.len() <= usize::MAX,
    ensures
        goes_well(room, s, ffc_step(s, f)),
{
    let p = s.work;
    let b = op_begun(p);
    let r = ffc(b, f, s.acts, s.global, None, None);
    let e = op_ended(r.work, Op::Ffc);
    let g1 = e.free(s.acts.buf);
    let q = g1.free_acts(s.global);
    lemma_op(room, p, Op::Ffc);
    lemma_ffc_grows(b, f, s.acts, s.global, None, None);
    lemma_op(room, r.work, Op::Ffc);
    lemma_free_acts(room, e, None, s.acts);
    lemma_free_acts(room, g1, s.global, s.acts);
    lemma_carry(room, p, b);
    evaluation_stays_within(room, b, f, s.acts, s.global, None, None);
    lemma_carry(room, r.work, e);
    lemma_carry(room, e, g1);
    lemma_carry(room, g1, q);
    lemma_both(room, p, b, r.work);
    lemma_both(room, p, r.work, e);
    lemma_both(room, p, e, g1);
    lemma_both(room, p, g1, q);
}

proof fn lemma_res_step(room: Room, s: Pass, f1: DFfc, f2: DFfc)
    requires
        pass_whole(room, s),
        s.work.going() ==> ffc_ready(room, s.work.cmds, f1) && ffc_ready(room, s.work.cmds, f2),
        step_fits(s, DStep::Res(f1, f2)),
        res_step(s, f1, f2).work.cmds.len() <= usize::MAX,
    ensures
        goes_well(room, s, res_step(s, f1, f2)),
{
    let p = s.work;
    let b1 = op_begun(p);
    let r1 = ffc(b1, f1, s.acts, s.global, None, None);
    let e1 = op_ended(r1.work, Op::ResA);
    let b2 = op_begun(e1);
    let r2 = ffc(b2, f2, r1.local, r1.global, Some(s.acts), s.global);
    let e2 = op_ended(r2.work, Op::ResB);
    let g1 = e2.free(s.acts.buf);
    let g2 = g1.free_acts(s.global);
    let g3 = g2.free_acts(r1.global);
    let q = g3.free(r1.local.buf);
    lemma_op(room, p, Op::ResA);
    lemma_ffc_grows(b1, f1, s.acts, s.global, None, None);
    lemma_op(room, r1.work, Op::ResA);
    lemma_op(room, e1, Op::ResB);
    lemma_ffc_grows(b2, f2, r1.local, r1.global, Some(s.acts), s.global);
    lemma_op(room, r2.work, Op::ResB);
    lemma_free_acts(room, e2, None, s.acts);
    lemma_free_acts(room, g1, s.global, s.acts);
    lemma_free_acts(room, g2, r1.global, s.acts);
    lemma_free_acts(room, g3, None, r1.local);
    lemma_carry(room, p, b1);
    evaluation_stays_within(room, b1, f1, s.acts, s.global, None, None);
    lemma_both(room, p, b1, r1.work);
    lemma_both(room, p, r1.work, e1);
    lemma_both(room, p, e1, b2);
    lemma_carry(room, p, b2);
    lemma_carry(room, r1.work, e1);
    lemma_carry(room, e1, b2);
    evaluation_stays_within(room, b2, f2, r1.local, r1.global, Some(s.acts), s.global);
    lemma_both(room, p, b2, r2.work);
    lemma_both(room, p, r2.work, e2);
    lemma_both(room, p, e2, g1);
    lemma_both(room, p, g1, g2);
    lemma_both(room, p, g2, g3);
    lemma_both(room, p, g3, q);
    lemma_carry(room, r2.work, e2);
    lemma_carry(room, e2, g1);
    lemma_carry(room, g1, g2);
    lemma_carry(room, g2, g3);
    lemma_carry(room, g3, q);
}

proof fn lemma_concat_step(room: Room, s: Pass)
    requires
        pass_whole(room, s),
        step_fits(s, DStep::Concat),
        concat_step(s).work.cmds.len() <= usize::MAX,
    ensures
        goes_well(room, s, concat_step(s)),
{
    broadcast use crate::extents::group_within;

    let p = s.work;
    lemma_self(room, p);
    if let Some(g) = s.global {
        let (c, x) = concatenated(p, s.acts, g);
        let f = c.free(s.acts.buf);
        let q = f.free(g.buf);
        lemma_small_grow(
            p,
            s.acts,
            g,
            0,
            DBn { scale: g.buf, shift: g.buf, channels: 0 },
        );
        lemma_free_acts(room, c, None, s.acts);
        lemma_free_acts(room, f, None, g);
        concat_stays_within(room, p, s.acts, g);
        lemma_carry(room, c, f);
        lemma_carry(room, f, q);
        lemma_both(room, p, c, f);
        lemma_both(room, p, f, q);
    }
}

proof fn lemma_upsample_step(room: Room, s: Pass, cv: DConvT, bn: DBn)
    requires
        pass_whole(room, s),
        s.work.going() ==> convt_ready(room, s.work.cmds, cv) && bn_ready(room, s.work.cmds, bn),
        step_fits(s, DStep::Upsample(cv, bn)),
        upsample_step(s, cv, bn).work.cmds.len() <= usize::MAX,
    ensures
        goes_well(room, s, upsample_step(s, cv, bn)),
{
    let p = s.work;
    let b = op_begun(p);
    let (u, up) = upsampled(b, cv, s.acts);
    let e = op_ended(u, Op::Upsample);
    let n = bn_relu(e, up, bn);
    let f = n.free(s.acts.buf);
    let q = f.free_acts(s.global);
    lemma_op(room, p, Op::Upsample);
    lemma_upsampled_grows(b, cv, s.acts);
    lemma_op(room, u, Op::Upsample);
    lemma_small_grow(e, up, up, 0, bn);
    lemma_free_acts(room, n, None, s.acts);
    lemma_free_acts(room, f, s.global, s.acts);
    lemma_carry(room, p, b);
    lemma_inside_grows(room, p.cmds, b.cmds);
    upsampling_stays_within(room, b, cv, s.acts);
    lemma_both(room, p, b, u);
    lemma_both(room, p, u, e);
    lemma_carry(room, u, e);
    lemma_carry(room, p, e);
    if e.going() {
        assert(up.plane_len() <= i64::MAX) by {
            let (h, w) = (s.acts.h as int, s.acts.w as int);
            assert((h * 2) * (w * 2) == 4 * (h * w)) by (nonlinear_arith);
        }
        bn_relu_stays_within(room, e, up, bn);
    } else {
        assert(n == e) by {
            reveal(bn_relu);
        }
        lemma_self(room, e);
    }
    lemma_both(room, p, e, n);
    lemma_both(room, p, n, f);
    lemma_both(room, p, f, q);
    lemma_carry(room, e, n);
    lemma_carry(room, n, f);
    lemma_carry(room, f, q);
}

proof fn lemma_out_step(room: Room, s: Pass, cv: DConv)
    requires
        pass_whole(room, s),
        s.work.going() ==> conv_ready(room, s.work.cmds, cv),
        step_fits(s, DStep::OutConv(cv)),
        out_step(s, cv).work.cmds.len() <= usize::MAX,
    ensures
        goes_well(room, s, out_step(s, cv)),
{
    broadcast use crate::extents::group_within;

    let p = s.work;
    let on = p.flags.profile;
    let b = op_begun(p);
    let (c, out) = conv(b, cv, s.acts, 0, 1, false);
    let e = op_ended(c, Op::OutConv);
    let g = sigmoid(e, out);
    let g1 = g.push(Cmd::Sync).push_if(on, Cmd::NoteLoop);
    let g2 = g1.push(Cmd::Download { src: out.buf });
    let g3 = g2.push_if(on, Cmd::NoteResult { floats: out.buf.len });
    let q = g3.free(out.buf);
    lemma_op(room, p, Op::OutConv);
    lemma_conv_grows(b, cv, s.acts, 0, 1, false);
    lemma_op(room, c, Op::OutConv);
    lemma_free_acts(room, g3, None, out);
    lemma_carry(room, p, b);
    conv_stays_within(room, b, cv, s.acts, 0, 1, false);
    lemma_carry(room, c, e);
    lemma_both(room, p, b, c);
    lemma_both(room, p, c, e);
    sigmoid_stays_within(room, e, out);
    lemma_both(room, p, e, g);
    lemma_carry(room, e, g);
    assert(g.going() ==> e.going());
    lemma_self(room, g);
    assert(stays_within(room, g, g1));
    lemma_carry(room, g, g1);
    assert(stays_within(room, g, g2));
    assert(stays_within(room, g, g3));
    lemma_both(room, p, g, g3);
    lemma_both(room, p, g3, q);
    lemma_carry(room, p, q);
}

proof fn lemma_after(room: Room, s: Pass, no: usize)
    requires
        pass_whole(room, s),
    ensures
        goes_well(room, s, after_step(s, no)),
{
    broadcast use crate::extents::group_within;

    lemma_self(room, s.work);
    let q = after_step(s, no);
    assert(stays_within(room, s.work, q.work));
    lemma_carry(room, s.work, q.work);
}

proof fn lemma_then_after(room: Room, s: Pass, m: Pass, no: usize)
    requires
        goes_well(room, s, m),
    ensures
        goes_well(room, s, after_step(m, no)),
{
    lemma_after(room, m, no);
    lemma_both(room, s.work, m.work, after_step(m, no).work);
}

proof fn lemma_step(room: Room, s: Pass, step: DStep, no: usize)
    requires
        pass_whole(room, s),
        s.work.going() ==> step_ready(room, s.work.cmds, step),
        step_fits(s, step),
        step_taken(s, step, no).work.cmds.len() <= usize::MAX,
    ensures
        goes_well(room, s, step_taken(s, step, no)),
{
    reveal(step_taken);
    match step {
        DStep::ReflectPad(n) => {
            let m = pad_step(s, n);
            assert(grows(m.work, after_step(m, no).work));
            lemma_pad_step(room, s, n);
            lemma_then_after(room, s, m, no);
        },
        DStep::Ffc(f) => {
            let m = ffc_step(s, f);
            assert(grows(m.work, after_step(m, no).work));
            lemma_ffc_step(room, s, f);
            lemma_then_after(room, s, m, no);
        },
        DStep::Res(f1, f2) => {
            let m = res_step(s, f1, f2);
            assert(grows(m.work, after_step(m, no).work));
            lemma_res_step(room, s, f1, f2);
            lemma_then_after(room, s, m, no);
        },
        DStep::Concat => {
            let m = concat_step(s);
            assert(grows(m.work, after_step(m, no).work));
            lemma_concat_step(room, s);
            lemma_then_after(room, s, m, no);
        },
        DStep::Upsample(cv, bn) => {
            let m = upsample_step(s, cv, bn);
            assert(grows(m.work, after_step(m, no).work));
            lemma_upsample_step(room, s, cv, bn);
            lemma_then_after(room, s, m, no);
        },
        DStep::OutConv(cv) => {
            lemma_out_step(room, s, cv);
        },
    }
}

// ---------------------------------------------------------------------------
// Passes
// ---------------------------------------------------------------------------

/// Whether every step that a pass comes to matches the activations that reach it.
pub open spec fn steps_fit(s: Pass, steps: Seq<DStep>) -> bool {
    forall|i: int|
        0 <= i < steps.len() ==> {
            let q = #[trigger] steps_taken(s, steps.take(i));
            !q.done && q.work.going() ==> step_fits(q, steps[i])
        }
}

/// Whether all steps have their tensors.
pub open spec fn steps_ready(room: Room, cmds: Seq<Cmd>, steps: Seq<DStep>) -> bool {
    forall|i: int| 0 <= i < steps.len() ==> step_ready(room, cmds, #[trigger] steps[i])
}

proof fn lemma_ready_carry(room: Room, p: Work, q: Work, steps: Seq<DStep>)
    requires
        stays_within(room, p, q),
        steps_ready(room, p.cmds, steps),
    ensures
        steps_ready(room, q.cmds, steps),
{
    lemma_carry(room, p, q);
    lemma_inside_grows(room, p.cmds, q.cmds);
    assert forall|i: int| 0 <= i < steps.len() implies step_ready(
        room,
        q.cmds,
        #[trigger] steps[i],
    ) by {
        assert(step_ready(room, p.cmds, steps[i]));
    }
}

proof fn lemma_steps(room: Room, s: Pass, steps: Seq<DStep>)
    requires
        pass_whole(room, s),
        s.work.going() ==> steps_ready(room, s.work.cmds, steps),
        steps_fit(s, steps),
        steps_taken(s, steps).work.cmds.len() <= usize::MAX,
    ensures
        goes_well(room, s, steps_taken(s, steps)),
        grows(s.work, steps_taken(s, steps).work),
    decreases steps.len(),
{
    if steps.len() == 0 {
        lemma_self(room, s.work);
    } else {
        let n = steps.len() - 1;
        let before = steps.drop_last();
        let q = steps_taken(s, before);
        let no = n as usize;
        assert(before =~= steps.take(n));
        assert(!q.done && q.work.going() ==> step_fits(q, steps[n]));
        lemma_step_taken(at(q.work), q, steps.last(), no);
        assert(steps_fit(s, before)) by {
            assert forall|i: int| 0 <= i < before.len() implies {
                let r = #[trigger] steps_taken(s, before.take(i));
                !r.done && r.work.going() ==> step_fits(r, before[i])
            } by {
                assert(before.take(i) =~= steps.take(i));
                let r = steps_taken(s, steps.take(i));
            }
        }
        assert(s.work.going() ==> steps_ready(room, s.work.cmds, before)) by {
            if s.work.going() {
                assert forall|i: int| 0 <= i < before.len() implies step_ready(
                    room,
                    s.work.cmds,
                    #[trigger] before[i],
                ) by {
                    assert(step_ready(room, s.work.cmds, steps[i]));
                }
            }
        }
        lemma_steps(room, s, before);
        if !q.done && q.work.going() {
            lemma_ready_carry(room, s.work, q.work, steps);
            assert(step_ready(room, q.work.cmds, steps[n]));
            lemma_step(room, q, steps.last(), no);
            lemma_both(room, s.work, q.work, step_taken(q, steps.last(), no).work);
        }
    }
}

proof fn lemma_conv_freed(room: Room, p: Work, cv: Option<DConv>)
    ensures
        stays_within(room, p, conv_freed(p, cv)),
{
    broadcast use crate::extents::group_within;

    lemma_self(room, p);
}

proof fn lemma_ffc_freed(room: Room, p: Work, f: DFfc)
    ensures
        stays_within(room, p, ffc_freed(p, f)),
{
    reveal(ffc_freed);
    let a = conv_freed(p, f.l2l);
    let b = conv_freed(a, f.l2g);
    let c = conv_freed(b, f.g2l);
    lemma_conv_freed(room, p, f.l2l);
    lemma_conv_freed(room, a, f.l2g);
    lemma_conv_freed(room, b, f.g2l);
    lemma_both(room, p, a, b);
    lemma_both(room, p, b, c);
    if let Some(sp) = f.spectral {
        let d = conv_freed(c, Some(sp.conv1));
        let e = conv_freed(d, Some(sp.fu_conv));
        lemma_conv_freed(room, c, Some(sp.conv1));
        lemma_conv_freed(room, d, Some(sp.fu_conv));
        lemma_conv_freed(room, e, Some(sp.conv2));
        lemma_both(room, p, c, d);
        lemma_both(room, p, d, e);
        lemma_both(room, p, e, conv_freed(e, Some(sp.conv2)));
    }
}

proof fn lemma_steps_freed(room: Room, p: Work, steps: Seq<DStep>)
    ensures
        stays_within(room, p, steps_freed(p, steps)),
    decreases steps.len(),
{
    if steps.len() == 0 {
        lemma_self(room, p);
    } else {
        let q = steps_freed(p, steps.drop_last());
        let r = step_freed(q, steps.last());
        lemma_steps_freed(room, p, steps.drop_last());
        lemma_step_freed(room, q, steps.last());
        lemma_both(room, p, q, r);
    }
}

proof fn lemma_step_freed(room: Room, p: Work, s: DStep)
    ensures
        stays_within(room, p, step_freed(p, s)),
{
    lemma_self(room, p);
    match s {
        DStep::Ffc(f) => {
            lemma_ffc_freed(room, p, f);
        },
        DStep::Res(f, g) => {
            lemma_ffc_freed(room, p, f);
            lemma_ffc_freed(room, ffc_freed(p, f), g);
            lemma_both(room, p, ffc_freed(p, f), ffc_freed(ffc_freed(p, f), g));
        },
        DStep::Upsample(cv, _) => {
            if let Some(w) = cv.phases {
                assert(stays_within(room, p, p.free(w.p00).free(w.p01).free(w.p10).free(w.p11)))
                    by {
                    broadcast use crate::extents::group_within;

                    let p1 = p.free(w.p00);
                    assert(stays_within(room, p, p1));
                    let p2 = p1.free(w.p01);
                    assert(stays_within(room, p, p2));
                    let p3 = p2.free(w.p10);
                    assert(stays_within(room, p, p3));
                }
            }
        },
        DStep::OutConv(cv) => {
            lemma_conv_freed(room, p, Some(cv));
        },
        _ => {},
    }
}

/// Where a pass begins: with the input of `len` floats, as four channels.
pub open spec fn pass_start(p: Work, len: usize, h: usize, w: usize) -> Pass {
    let (q, acts) = input_there(p.push_if(p.flags.profile, Cmd::NoteLoaded), len, h, w);
    Pass { work: q, acts, global: None, done: false }
}

/// A forward pass over steps that have their tensors, each of which matches the
/// activations that reach it, stays within its blocks from the first command to the
/// last.
pub proof fn pass_stays_within(
    room: Room,
    p: Work,
    steps: Seq<DStep>,
    len: usize,
    h: usize,
    w: usize,
)
    requires
        p.going() ==> steps_ready(room, p.cmds, steps),
        len == 4 * (h * w),
        steps_fit(pass_start(p, len, h, w), steps),
        pass(p, steps, len, h, w).cmds.len() <= usize::MAX,
    ensures
        stays_within(room, p, pass(p, steps, len, h, w)),
{
    broadcast use crate::extents::group_within;

    lemma_self(room, p);
    let s = pass_start(p, len, h, w);
    let t = steps_taken(s, steps);
    let d = if t.done {
        t.work
    } else {
        t.work.push(Cmd::Sync).push(Cmd::Download { src: t.acts.buf })
    };
    let f1 = d.free_acts(t.global);
    let f2 = f1.free(t.acts.buf);
    let q = steps_freed(f2, steps);
    lemma_freed_stays(f2, steps);
    lemma_free_acts(room, d, t.global, t.acts);
    lemma_free_acts(room, f1, None, t.acts);
    lemma_steps_grow(s, steps);
    assert(grows(t.work, d));
    let a = p.push_if(p.flags.profile, Cmd::NoteLoaded);
    assert(stays_within(room, p, a));
    let b = a.allocate(len as int);
    assert(stays_within(room, p, b));
    if b.going() {
        assert(inside(room, b.cmds, s.acts.buf.addr, len as int));
    }
    assert(stays_within(room, p, s.work));
    assert(pass_whole(room, s));
    if p.going() {
        lemma_ready_carry(room, p, s.work, steps);
    }
    lemma_steps(room, s, steps);
    lemma_both(room, p, s.work, t.work);
    assert(stays_within(room, p, d));
    lemma_both(room, p, d, f1);
    lemma_both(room, p, f1, f2);
    lemma_steps_freed(room, f2, steps);
    lemma_both(room, p, f2, q);
}

proof fn lemma_steps_grow(s: Pass, steps: Seq<DStep>)
    ensures
        grows(s.work, steps_taken(s, steps).work),
    decreases steps.len(),
{
    if steps.len() > 0 {
        let q = steps_taken(s, steps.drop_last());
        lemma_steps_grow(s, steps.drop_last());
        lemma_step_taken(at(q.work), q, steps.last(), (steps.len() - 1) as usize);
    }
}

} // verus!
