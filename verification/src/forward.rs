//! What a whole forward pass computes: the result that is copied to the host is the
//! network's, step by step, of the input.

use vstd::prelude::*;

use crate::cuda::{Cmd, Work};
use crate::dataflow::{
    bn_older, conv_older, convt_older, lemma_block, lemma_freed, lemma_on, lemma_quiet,
    lemma_same_value, lemma_same_weights, normed_acts,
};
use crate::engine::{
    after_step, concat_step, ffc_step, input_there, out_step, pad_step, pass, res_step, step_taken,
    steps_taken, upsample_step, Pass,
};
use crate::lifetime::{lemma_freed_stays, lemma_step_taken, lemma_steps_taken};
use crate::loader::{conv_freed, ffc_freed, steps_freed, DStep};
use crate::meaning::{after_all, holds, lemma_performed, seen, untouched, value, Acts, Val};
use crate::network::{
    ffc_older, global_output, lemma_same_outputs, local_output, seen_if,
};
use crate::ops::{DBn, DConv, DConvT, DFfc};
use crate::safety::at;
use crate::steps::{
    closing, closing_step_computes, evaluation_step_computes, lemma_acts_freed, lemma_after,
    lemma_alike, lemma_same, lemma_same_up, mirrored, padding_step_computes, residual_step_computes,
    runs, stacked, stacking_step_computes, standing, upsampling, upsampling_step_computes,
};

verus! {

broadcast use crate::cuda::group_work;

/// The activations of a pass as values, and the result where it has been given.
pub ghost struct Flow {
    pub local: Acts,
    pub global: Option<Acts>,
    pub result: Option<Val>,
}

/// The weights of a step are older than what the commands from `n` on allocate.
pub open spec fn step_older(step: DStep, n: nat) -> bool {
    match step {
        DStep::Ffc(f) => ffc_older(f, n),
        DStep::Res(f, g) => ffc_older(f, n) && ffc_older(g, n),
        DStep::Upsample(cv, bn) => convt_older(cv, n) && bn_older(bn, n),
        DStep::OutConv(cv) => conv_older(cv, n),
        _ => true,
    }
}

/// One step, with the weights that `p` has put in place.
pub open spec fn flow_step(p: Work, f: Flow, step: DStep) -> Flow {
    let host = p.flags.fft_host;
    let (l, g) = (f.local, f.global);
    match step {
        DStep::ReflectPad(n) => Flow {
            local: mirrored(l, n),
            global: match g {
                Some(g) => Some(mirrored(g, n)),
                None => None,
            },
            ..f
        },
        DStep::Ffc(a) => Flow {
            local: local_output(p, a, l, g, None),
            global: global_output(p, a, l, g, None, host),
            ..f
        },
        DStep::Res(a, b) => {
            let l1 = local_output(p, a, l, g, None);
            let g1 = global_output(p, a, l, g, None, host);
            Flow {
                local: local_output(p, b, l1, g1, Some(l)),
                global: global_output(p, b, l1, g1, g, host),
                ..f
            }
        },
        DStep::Concat => Flow { local: stacked(l, g->0), global: None, ..f },
        DStep::Upsample(cv, bn) => Flow {
            local: normed_acts(p, upsampling(p, cv, l, p.flags.convt_gather), bn),
            global: None,
            ..f
        },
        DStep::OutConv(cv) => Flow { result: Some(closing(p, cv, l)), ..f },
    }
}

/// The steps in turn, until the result is there.
pub open spec fn flow(p: Work, f: Flow, steps: Seq<DStep>) -> Flow
    decreases steps.len(),
{
    if steps.len() == 0 {
        f
    } else {
        let q = flow(p, f, steps.drop_last());
        if q.result is Some {
            q
        } else {
            flow_step(p, q, steps.last())
        }
    }
}

/// What a pass has come to is what a flow says.
pub open spec fn follows(n: nat, p: Work, s: Pass, f: Flow) -> bool {
    &&& standing(n, s)
    &&& s.done == f.result is Some
    &&& s.work.flags == p.flags
    &&& match f.result {
        Some(v) => after_all(s.work).results == after_all(p).results.push(v),
        None => {
            &&& seen(s.work, s.acts) == f.local
            &&& seen_if(s.work, s.global) == f.global
            &&& untouched(n, p, s.work)
        },
    }
}

proof fn lemma_reported(n: nat, p: Work, s: Pass, no: usize, f: Flow)
    requires
        follows(n, p, s, f),
        f.result is None,
    ensures
        follows(n, p, after_step(s, no), f),
{
    let q = after_step(s, no);
    lemma_after(s, no);
    lemma_alike(n, p, s.work, q.work);
}

proof fn lemma_pad(n: nat, p: Work, s: Pass, f: Flow, k: usize)
    requires
        runs(pad_step(s, k)),
        follows(n, p, s, f),
        f.result is None,
        step_older(DStep::ReflectPad(k), n),
        pad_step(s, k).work.flags == s.work.flags,
    ensures
        follows(n, p, pad_step(s, k), flow_step(p, f, DStep::ReflectPad(k))),
{
    let r = pad_step(s, k);
    padding_step_computes(n, s, k);
    lemma_on(n, n, p, s.work, r.work);
}

proof fn lemma_ffc(n: nat, p: Work, s: Pass, f: Flow, a: DFfc)
    requires
        runs(ffc_step(s, a)),
        follows(n, p, s, f),
        f.result is None,
        step_older(DStep::Ffc(a), n),
        ffc_step(s, a).work.flags == s.work.flags,
    ensures
        follows(n, p, ffc_step(s, a), flow_step(p, f, DStep::Ffc(a))),
{
    let r = ffc_step(s, a);
    evaluation_step_computes(n, s, a);
    lemma_same_outputs(n, p, s.work, a);
    lemma_on(n, n, p, s.work, r.work);
}

proof fn lemma_res(n: nat, p: Work, s: Pass, f: Flow, a: DFfc, b: DFfc)
    requires
        runs(res_step(s, a, b)),
        follows(n, p, s, f),
        f.result is None,
        step_older(DStep::Res(a, b), n),
        res_step(s, a, b).work.flags == s.work.flags,
    ensures
        follows(n, p, res_step(s, a, b), flow_step(p, f, DStep::Res(a, b))),
{
    let r = res_step(s, a, b);
    residual_step_computes(n, s, a, b);
    lemma_same_outputs(n, p, s.work, a);
    lemma_same_outputs(n, p, s.work, b);
    lemma_on(n, n, p, s.work, r.work);
}

proof fn lemma_concat(n: nat, p: Work, s: Pass, f: Flow)
    requires
        runs(concat_step(s)),
        follows(n, p, s, f),
        f.result is None,
        step_older(DStep::Concat, n),
        concat_step(s).work.flags == s.work.flags,
    ensures
        follows(n, p, concat_step(s), flow_step(p, f, DStep::Concat)),
{
    let r = concat_step(s);
    stacking_step_computes(n, s);
    lemma_on(n, n, p, s.work, r.work);
}

proof fn lemma_upsample(n: nat, p: Work, s: Pass, f: Flow, cv: DConvT, bn: DBn)
    requires
        runs(upsample_step(s, cv, bn)),
        follows(n, p, s, f),
        f.result is None,
        step_older(DStep::Upsample(cv, bn), n),
        upsample_step(s, cv, bn).work.flags == s.work.flags,
    ensures
        follows(n, p, upsample_step(s, cv, bn), flow_step(p, f, DStep::Upsample(cv, bn))),
{
    let r = upsample_step(s, cv, bn);
    upsampling_step_computes(n, s, cv, bn);
    lemma_same_up(n, p, s.work, cv, f.local);
    lemma_same_value(n, p, s.work, bn.scale.addr);
    lemma_same_value(n, p, s.work, bn.shift.addr);
    lemma_on(n, n, p, s.work, r.work);
}

/// A step brings a pass to what it computes.
pub proof fn step_computes(n: nat, p: Work, s: Pass, f: Flow, step: DStep, no: usize)
    requires
        runs(step_taken(s, step, no)),
        follows(n, p, s, f),
        f.result is None,
        step_older(step, n),
    ensures
        follows(n, p, step_taken(s, step, no), flow_step(p, f, step)),
{
    lemma_flags_kept(s, step, no);
    lemma_step_runs(s, step, no);
    match step {
        DStep::ReflectPad(k) => {
            lemma_pad(n, p, s, f, k);
            lemma_reported(n, p, pad_step(s, k), no, flow_step(p, f, step));
        },
        DStep::Ffc(a) => {
            lemma_ffc(n, p, s, f, a);
            lemma_reported(n, p, ffc_step(s, a), no, flow_step(p, f, step));
        },
        DStep::Res(a, b) => {
            lemma_res(n, p, s, f, a, b);
            lemma_reported(n, p, res_step(s, a, b), no, flow_step(p, f, step));
        },
        DStep::Concat => {
            lemma_concat(n, p, s, f);
            lemma_reported(n, p, concat_step(s), no, flow_step(p, f, step));
        },
        DStep::Upsample(cv, bn) => {
            lemma_upsample(n, p, s, f, cv, bn);
            lemma_reported(n, p, upsample_step(s, cv, bn), no, flow_step(p, f, step));
        },
        DStep::OutConv(cv) => {
            closing_step_computes(n, s, cv);
            lemma_same_weights(n, p, s.work, f.local, cv, 0, 1, false);
        },
    }
}

/// What a step does before it is reported.
spec fn bare_step(s: Pass, step: DStep) -> Pass {
    match step {
        DStep::ReflectPad(k) => pad_step(s, k),
        DStep::Ffc(a) => ffc_step(s, a),
        DStep::Res(a, b) => res_step(s, a, b),
        DStep::Concat => concat_step(s),
        DStep::Upsample(cv, bn) => upsample_step(s, cv, bn),
        DStep::OutConv(cv) => out_step(s, cv),
    }
}

proof fn lemma_step_runs(s: Pass, step: DStep, no: usize)
    requires
        runs(step_taken(s, step, no)),
    ensures
        runs(bare_step(s, step)),
        step_taken(s, step, no) == if step is OutConv {
            bare_step(s, step)
        } else {
            after_step(bare_step(s, step), no)
        },
{
    reveal(step_taken);
    lemma_after(bare_step(s, step), no);
}

/// A step changes no switch.
proof fn lemma_flags_kept(s: Pass, step: DStep, no: usize)
    ensures
        step_taken(s, step, no).work.flags == s.work.flags,
        bare_step(s, step).work.flags == s.work.flags,
{
    reveal(step_taken);
    lemma_step_taken(at(s.work), s, step, no);
    lemma_after(bare_step(s, step), no);
}

/// The steps bring a pass to what they compute in turn.
pub proof fn steps_compute(n: nat, p: Work, s: Pass, f: Flow, steps: Seq<DStep>)
    requires
        runs(steps_taken(s, steps)),
        follows(n, p, s, f),
        f.result is None,
        forall|i: int| 0 <= i < steps.len() ==> step_older(#[trigger] steps[i], n),
    ensures
        follows(n, p, steps_taken(s, steps), flow(p, f, steps)),
    decreases steps.len(),
{
    if steps.len() > 0 {
        let before = steps.drop_last();
        let q = steps_taken(s, before);
        lemma_steps_taken(at(s.work), s, before);
        if q.done || !q.work.going() {
            steps_compute(n, p, s, f, before);
        } else {
            lemma_step_taken(at(q.work), q, steps.last(), (steps.len() - 1) as usize);
            assert forall|i: int| 0 <= i < before.len() implies step_older(
                #[trigger] before[i],
                n,
            ) by {
                assert(before[i] == steps[i]);
            }
            steps_compute(n, p, s, f, before);
            assert(step_older(steps[steps.len() - 1], n));
            step_computes(
                n,
                p,
                q,
                flow(p, f, before),
                steps.last(),
                (steps.len() - 1) as usize,
            );
        }
    }
}

// ---------------------------------------------------------------------------
// The pass
// ---------------------------------------------------------------------------

/// The network's input as activations: four channels of the padded extents.
pub open spec fn input_acts(len: usize, h: usize, w: usize) -> Acts {
    Acts {
        v: if len > 0 {
            Val::Input { floats: len }
        } else {
            Val::Raw
        },
        c: 4,
        h,
        w,
        len,
    }
}

/// What the steps make of an input: the result that a step gives, or what is left
/// after the last one.
pub open spec fn network(p: Work, steps: Seq<DStep>, len: usize, h: usize, w: usize) -> Val {
    let f = flow(
        p,
        Flow { local: input_acts(len, h, w), global: None, result: None },
        steps,
    );
    match f.result {
        Some(v) => v,
        None => f.local.v,
    }
}

proof fn lemma_freed_results(p: Work, steps: Seq<DStep>)
    ensures
        after_all(steps_freed(p, steps)).results == after_all(p).results,
    decreases steps.len(),
{
    if steps.len() > 0 {
        let q = steps_freed(p, steps.drop_last());
        lemma_freed_results(p, steps.drop_last());
        match steps.last() {
            DStep::Ffc(f) => lemma_ffc_results(q, f),
            DStep::Res(f, g) => {
                lemma_ffc_results(q, f);
                lemma_ffc_results(ffc_freed(q, f), g);
            },
            DStep::Upsample(cv, _) => {
                if let Some(w) = cv.phases {
                    lemma_freed(q, w.p00);
                    lemma_freed(q.free(w.p00), w.p01);
                    lemma_freed(q.free(w.p00).free(w.p01), w.p10);
                    lemma_freed(q.free(w.p00).free(w.p01).free(w.p10), w.p11);
                }
            },
            DStep::OutConv(cv) => lemma_conv_results(q, Some(cv)),
            _ => {},
        }
    }
}

proof fn lemma_conv_results(p: Work, cv: Option<DConv>)
    ensures
        after_all(conv_freed(p, cv)).results == after_all(p).results,
{
    if cv is Some && (cv->0).w_t is Some {
        lemma_freed(p, (cv->0).w_t->0);
    }
}

proof fn lemma_ffc_results(p: Work, f: DFfc)
    ensures
        after_all(ffc_freed(p, f)).results == after_all(p).results,
{
    reveal(ffc_freed);
    let a = conv_freed(p, f.l2l);
    let b = conv_freed(a, f.l2g);
    let c = conv_freed(b, f.g2l);
    lemma_conv_results(p, f.l2l);
    lemma_conv_results(a, f.l2g);
    lemma_conv_results(b, f.g2l);
    if let Some(sp) = f.spectral {
        let d = conv_freed(c, Some(sp.conv1));
        let e = conv_freed(d, Some(sp.fu_conv));
        lemma_conv_results(c, Some(sp.conv1));
        lemma_conv_results(d, Some(sp.fu_conv));
        lemma_conv_results(e, Some(sp.conv2));
    }
}

/// A pass that is recorded to its end copies one result to the host: what its steps
/// make of the input.
pub proof fn pass_computes(p: Work, steps: Seq<DStep>, len: usize, h: usize, w: usize)
    requires
        pass(p, steps, len, h, w).going(),
        pass(p, steps, len, h, w).cmds.len() <= usize::MAX,
        forall|i: int|
            0 <= i < steps.len() ==> step_older(#[trigger] steps[i], p.cmds.len()),
    ensures
        after_all(pass(p, steps, len, h, w)).results == after_all(p).results.push(
            network(p, steps, len, h, w),
        ),
{
    let n = p.cmds.len();
    let on = p.flags.profile;
    let a = p.push_if(on, Cmd::NoteLoaded);
    let (b, acts) = input_there(a, len, h, w);
    let start = Pass { work: b, acts, global: None, done: false };
    let s = steps_taken(start, steps);
    let q = if s.done {
        s.work
    } else {
        s.work.push(Cmd::Sync).push(Cmd::Download { src: s.acts.buf })
    };
    let q1 = q.free_acts(s.global);
    let q2 = q1.free(s.acts.buf);
    let r = pass(p, steps, len, h, w);
    assert(r == steps_freed(q2, steps));
    lemma_freed_stays(q2, steps);
    lemma_freed(q1, s.acts.buf);
    lemma_acts_freed(q, s.global);
    lemma_steps_taken(at(p), start, steps);
    assert(s.work.going() && s.work.cmds.len() <= usize::MAX);
    lemma_quiet(p, on, Cmd::NoteLoaded);
    let b1 = a.allocate(len as int);
    let put = Cmd::Input { to: acts.buf.addr, floats: len };
    let b2 = b1.push_if(len > 0, put);
    let b3 = b2.sync_if(on);
    assert(a.flags.profile == on);
    lemma_quiet(b2, on, Cmd::Sync);
    lemma_quiet(b3, on, Cmd::NoteUploaded);
    assert(b == b3.push_if(on, Cmd::NoteUploaded));
    lemma_block(a, len as int);
    if len > 0 {
        lemma_performed(b1, put);
    }
    lemma_same(n, p);
    lemma_alike(n, p, p, a);
    lemma_on(n, a.cmds.len(), p, a, b1);
    assert(untouched(n, p, b2)) by {
        assert forall|id: usize| id < n implies #[trigger] holds(b2, id) == holds(p, id) by {
            assert(holds(b1, id) == holds(p, id));
        }
    }
    lemma_alike(n, p, b2, b3);
    lemma_alike(n, p, b3, b);
    let f = Flow { local: input_acts(len, h, w), global: None, result: None };
    assert(value(b2, acts.buf.addr) == f.local.v);
    assert(follows(n, p, start, f));
    steps_compute(n, p, start, f, steps);
    if !s.done {
        lemma_quiet(s.work, true, Cmd::Sync);
        lemma_performed(s.work.push(Cmd::Sync), Cmd::Download { src: s.acts.buf });
    }
    assert(after_all(q).results == after_all(p).results.push(network(p, steps, len, h, w)));
    if let Some(g) = s.global {
        lemma_freed(q, g.buf);
    }
    lemma_freed_results(q2, steps);
}

} // verus!
