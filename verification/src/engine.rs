//! The forward pass over a loaded model.

use vstd::prelude::*;

use crate::cuda::{Cmd, Cuda, DActs, Flags, Op, Shape, StopView, Work};
use crate::loader::{
    bn_table, bn_table_complete, free_steps, load_steps, stage_bns, steps_freed, steps_loaded,
    DStep, Fold,
};
use crate::lifetime::program_is_safe;
use crate::model::{Model, Step};
use crate::ops::{
    bn_relu, bn_relu_inplace, concat_acts, concatenated, conv, conv_forward, conv_transpose,
    conv_transpose_phases, ffc, padded, reflect_pad, run_dffc, sigmoid, sigmoid_inplace, up_gather,
    up_phases, DBn, DConv, DConvT, DFfc,
};
use crate::safety::{mem, safe};
use crate::weights::{StoreView, WeightStore};

verus! {

broadcast use crate::cuda::group_work;

// ---------------------------------------------------------------------------
// Steps
// ---------------------------------------------------------------------------

/// How far a pass has come: what is recorded, the activations, and whether the
/// result has been copied to the host.
pub ghost struct Pass {
    pub work: Work,
    pub acts: DActs,
    pub global: Option<DActs>,
    pub done: bool,
}

/// Before a step that is timed under `LAMA_PROFILE_OPS`.
pub open spec fn op_begun(p: Work) -> Work {
    p.sync_if(p.flags.profile_ops).push_if(p.flags.profile_ops, Cmd::OpBegin)
}

/// After a step that is timed.
pub open spec fn op_ended(p: Work, op: Op) -> Work {
    p.sync_if(p.flags.profile_ops).push_if(p.flags.profile_ops, Cmd::OpEnd { op })
}

fn op_begin(c: &mut Cuda)
    ensures
        final(c)@ == op_begun(old(c)@),
{
    let on = c.flags.profile_ops;
    c.push_if(on, Cmd::Sync);
    c.push_if(on, Cmd::OpBegin);
}

fn op_end(c: &mut Cuda, op: Op)
    ensures
        final(c)@ == op_ended(old(c)@, op),
{
    let on = c.flags.profile_ops;
    c.push_if(on, Cmd::Sync);
    c.push_if(on, Cmd::OpEnd { op });
}

/// Padding one block in the place of another.
pub open spec fn repadded(p: Work, a: DActs, n: usize) -> (Work, DActs) {
    let (q, b) = padded(op_begun(p), a, n);
    (op_ended(q, Op::Pad).free(a.buf), b)
}

/// Both branches carry spatial padding.
pub open spec fn pad_step(s: Pass, n: usize) -> Pass {
    let (p1, acts) = repadded(s.work, s.acts, n);
    match s.global {
        Some(g) => {
            let (p2, g) = repadded(p1, g, n);
            Pass { work: p2, acts, global: Some(g), done: false }
        },
        None => Pass { work: p1, acts, global: None, done: false },
    }
}

/// One block.
pub open spec fn ffc_step(s: Pass, f: DFfc) -> Pass {
    let b = ffc(op_begun(s.work), f, s.acts, s.global, None, None);
    Pass {
        work: op_ended(b.work, Op::Ffc).free(s.acts.buf).free_acts(s.global),
        acts: b.local,
        global: b.global,
        done: false,
    }
}

/// A residual block: neither evaluation writes through its input, so what went
/// into the first is added in the second.
pub open spec fn res_step(s: Pass, f1: DFfc, f2: DFfc) -> Pass {
    let a = ffc(op_begun(s.work), f1, s.acts, s.global, None, None);
    let b = ffc(
        op_begun(op_ended(a.work, Op::ResA)),
        f2,
        a.local,
        a.global,
        Some(s.acts),
        s.global,
    );
    Pass {
        work: op_ended(b.work, Op::ResB).free(s.acts.buf).free_acts(s.global).free_acts(
            a.global,
        ).free(a.local.buf),
        acts: b.local,
        global: b.global,
        done: false,
    }
}

/// The two branches stacked along their channels.
pub open spec fn concat_step(s: Pass) -> Pass {
    match s.global {
        Some(g) => {
            let (p, acts) = concatenated(s.work, s.acts, g);
            Pass { work: p.free(s.acts.buf).free(g.buf), acts, global: None, done: false }
        },
        None => Pass {
            work: s.work.halt(StopView::Fault("Concat without a global branch"@)),
            ..s
        },
    }
}

/// A transposed convolution, by phases unless the gather kernel is asked for.
pub open spec fn upsampled(p: Work, cv: DConvT, a: DActs) -> (Work, DActs) {
    match cv.phases {
        Some(w) => if p.flags.convt_gather {
            up_gather(p, cv, a)
        } else {
            up_phases(p, cv, a, w)
        },
        None => up_gather(p, cv, a),
    }
}

/// An upsampling, which collapses the two branches into one.
pub open spec fn upsample_step(s: Pass, cv: DConvT, bn: DBn) -> Pass {
    let (p, up) = upsampled(op_begun(s.work), cv, s.acts);
    Pass {
        work: bn_relu(op_ended(p, Op::Upsample), up, bn).free(s.acts.buf).free_acts(s.global),
        acts: up,
        global: None,
        done: false,
    }
}

/// The closing convolution, whose output is the result.
pub open spec fn out_step(s: Pass, cv: DConv) -> Pass {
    let (p, out) = conv(op_begun(s.work), cv, s.acts, 0, 1, false);
    let on = s.work.flags.profile;
    Pass {
        work: sigmoid(op_ended(p, Op::OutConv), out).push(Cmd::Sync).push_if(
            on,
            Cmd::NoteLoop,
        ).push(Cmd::Download { src: out.buf }).push_if(
            on,
            Cmd::NoteResult { floats: out.buf.len },
        ).free(out.buf),
        done: true,
        ..s
    }
}

/// The extents of a block.
pub open spec fn shape_of(a: DActs) -> Shape {
    Shape { c: a.c, h: a.h, w: a.w }
}

/// The extents of a block that may be absent.
pub open spec fn shape_in(a: Option<DActs>) -> Option<Shape> {
    match a {
        Some(a) => Some(shape_of(a)),
        None => None,
    }
}

/// What follows every step but the last: the activations are written down where
/// that is asked for, and progress is reported.
pub open spec fn after_step(s: Pass, no: usize) -> Pass {
    let f = s.work.flags;
    let dump = f.dump_after == Some(no);
    Pass {
        work: s.work.sync_if(dump).push_if(
            dump,
            Cmd::Dump { step: no, local: s.acts, global: s.global },
        ).sync_if(f.profile_sync).push_if(
            f.profile,
            Cmd::NoteStep { step: no, local: shape_of(s.acts), global: shape_in(s.global) },
        ),
        ..s
    }
}

/// One step.
#[verifier::opaque]
pub open spec fn step_taken(s: Pass, step: DStep, no: usize) -> Pass {
    match step {
        DStep::ReflectPad(n) => after_step(pad_step(s, n), no),
        DStep::Ffc(f) => after_step(ffc_step(s, f), no),
        DStep::Res(f1, f2) => after_step(res_step(s, f1, f2), no),
        DStep::Concat => after_step(concat_step(s), no),
        DStep::Upsample(cv, bn) => after_step(upsample_step(s, cv, bn), no),
        DStep::OutConv(cv) => out_step(s, cv),
    }
}

/// The steps in turn, until the result is there or recording stops.
pub open spec fn steps_taken(s: Pass, steps: Seq<DStep>) -> Pass
    decreases steps.len(),
{
    if steps.len() == 0 {
        s
    } else {
        let q = steps_taken(s, steps.drop_last());
        if q.done || !q.work.going() {
            q
        } else {
            step_taken(q, steps.last(), (steps.len() - 1) as usize)
        }
    }
}

proof fn lemma_pass_stops(s: Pass, steps: Seq<DStep>, n: int)
    requires
        0 <= n <= steps.len(),
        steps_taken(s, steps.take(n)).done || !steps_taken(s, steps.take(n)).work.going(),
    ensures
        steps_taken(s, steps) == steps_taken(s, steps.take(n)),
    decreases steps.len() - n,
{
    if n == steps.len() {
        assert(steps.take(n) =~= steps);
    } else {
        assert(steps.take(n + 1).drop_last() =~= steps.take(n));
        lemma_pass_stops(s, steps, n + 1);
    }
}

fn repad(c: &mut Cuda, a: &DActs, n: usize) -> (r: DActs)
    ensures
        (final(c)@, r) == repadded(old(c)@, *a, n),
{
    op_begin(c);
    let b = reflect_pad(c, a, n);
    op_end(c, Op::Pad);
    c.free(&a.buf);
    b
}

fn run_pad(c: &mut Cuda, acts: &DActs, global: &Option<DActs>, n: usize) -> (r: (
    DActs,
    Option<DActs>,
))
    ensures
        pad_step(
            Pass { work: old(c)@, acts: *acts, global: *global, done: false },
            n,
        ) == (Pass { work: final(c)@, acts: r.0, global: r.1, done: false }),
{
    let a = repad(c, acts, n);
    match global {
        Some(g) => {
            let g = repad(c, g, n);
            (a, Some(g))
        },
        None => (a, None),
    }
}

fn run_ffc(c: &mut Cuda, acts: &DActs, global: &Option<DActs>, f: &DFfc) -> (r: (
    DActs,
    Option<DActs>,
))
    ensures
        ffc_step(
            Pass { work: old(c)@, acts: *acts, global: *global, done: false },
            *f,
        ) == (Pass { work: final(c)@, acts: r.0, global: r.1, done: false }),
{
    op_begin(c);
    let r = run_dffc(c, f, acts, global, &None, &None);
    op_end(c, Op::Ffc);
    c.free(&acts.buf);
    c.free_acts(global);
    r
}

fn run_res(c: &mut Cuda, acts: &DActs, global: &Option<DActs>, f1: &DFfc, f2: &DFfc) -> (r: (
    DActs,
    Option<DActs>,
))
    ensures
        res_step(
            Pass { work: old(c)@, acts: *acts, global: *global, done: false },
            *f1,
            *f2,
        ) == (Pass { work: final(c)@, acts: r.0, global: r.1, done: false }),
{
    op_begin(c);
    let (l1, g1) = run_dffc(c, f1, acts, global, &None, &None);
    op_end(c, Op::ResA);
    op_begin(c);
    let r = run_dffc(c, f2, &l1, &g1, &Some(*acts), global);
    op_end(c, Op::ResB);
    c.free(&acts.buf);
    c.free_acts(global);
    c.free_acts(&g1);
    c.free(&l1.buf);
    r
}

fn run_concat(c: &mut Cuda, acts: &DActs, global: &Option<DActs>) -> (r: (DActs, Option<DActs>))
    ensures
        concat_step(Pass { work: old(c)@, acts: *acts, global: *global, done: false }) == (Pass {
            work: final(c)@,
            acts: r.0,
            global: r.1,
            done: false,
        }),
{
    match global {
        Some(g) => {
            let a = concat_acts(c, acts, g);
            c.free(&acts.buf);
            c.free(&g.buf);
            (a, None)
        },
        None => {
            c.fault("Concat without a global branch".to_owned());
            (*acts, *global)
        },
    }
}

fn run_upsample(c: &mut Cuda, acts: &DActs, global: &Option<DActs>, cv: &DConvT, bn: &DBn) -> (r: (
    DActs,
    Option<DActs>,
))
    ensures
        upsample_step(
            Pass { work: old(c)@, acts: *acts, global: *global, done: false },
            *cv,
            *bn,
        ) == (Pass { work: final(c)@, acts: r.0, global: r.1, done: false }),
{
    op_begin(c);
    let up = match &cv.phases {
        Some(w) => if c.flags.convt_gather {
            conv_transpose(c, cv, acts)
        } else {
            conv_transpose_phases(c, cv, acts, w)
        },
        None => conv_transpose(c, cv, acts),
    };
    op_end(c, Op::Upsample);
    bn_relu_inplace(c, &up, bn);
    c.free(&acts.buf);
    c.free_acts(global);
    (up, None)
}

fn run_out(c: &mut Cuda, acts: &DActs, global: &Option<DActs>, cv: &DConv)
    ensures
        out_step(Pass { work: old(c)@, acts: *acts, global: *global, done: false }, *cv) == (Pass {
            work: final(c)@,
            acts: *acts,
            global: *global,
            done: true,
        }),
{
    let on = c.flags.profile;
    op_begin(c);
    let out = conv_forward(c, cv, acts, 0, 1, false);
    op_end(c, Op::OutConv);
    sigmoid_inplace(c, &out);
    c.sync();
    c.push_if(on, Cmd::NoteLoop);
    c.download(&out.buf);
    c.push_if(on, Cmd::NoteResult { floats: out.buf.len });
    c.free(&out.buf);
}

fn shape_out(a: &DActs) -> (r: Shape)
    ensures
        r == shape_of(*a),
{
    Shape { c: a.c, h: a.h, w: a.w }
}

fn report(c: &mut Cuda, acts: &DActs, global: &Option<DActs>, no: usize)
    ensures
        after_step(Pass { work: old(c)@, acts: *acts, global: *global, done: false }, no) == (Pass {
            work: final(c)@,
            acts: *acts,
            global: *global,
            done: false,
        }),
{
    let f = c.flags;
    let dump = match f.dump_after {
        Some(n) => n == no,
        None => false,
    };
    c.push_if(dump, Cmd::Sync);
    c.push_if(dump, Cmd::Dump { step: no, local: *acts, global: *global });
    c.push_if(f.profile_sync, Cmd::Sync);
    let g = match global {
        Some(g) => Some(shape_out(g)),
        None => None,
    };
    c.push_if(f.profile, Cmd::NoteStep { step: no, local: shape_out(acts), global: g });
}

fn run_step(c: &mut Cuda, acts: &DActs, global: &Option<DActs>, step: &DStep, no: usize) -> (r: (
    DActs,
    Option<DActs>,
    bool,
))
    ensures
        step_taken(
            Pass { work: old(c)@, acts: *acts, global: *global, done: false },
            *step,
            no,
        ) == (Pass { work: final(c)@, acts: r.0, global: r.1, done: r.2 }),
{
    reveal(step_taken);
    let (a, g) = match step {
        DStep::ReflectPad(n) => run_pad(c, acts, global, *n),
        DStep::Ffc(f) => run_ffc(c, acts, global, f),
        DStep::Res(f1, f2) => run_res(c, acts, global, f1, f2),
        DStep::Concat => run_concat(c, acts, global),
        DStep::Upsample(cv, bn) => run_upsample(c, acts, global, cv, bn),
        DStep::OutConv(cv) => {
            run_out(c, acts, global, cv);
            return (*acts, *global, true);
        },
    };
    report(c, &a, &g, no);
    (a, g, false)
}

// ---------------------------------------------------------------------------
// The pass
// ---------------------------------------------------------------------------

/// The network's input of `len` floats, as a block of four channels.
pub open spec fn input_there(p: Work, len: usize, h: usize, w: usize) -> (Work, DActs) {
    let buf = p.fresh(len);
    (
        p.allocate(len as int).push_if(len > 0, Cmd::Input { to: buf.addr, floats: len }).sync_if(
            p.flags.profile,
        ).push_if(p.flags.profile, Cmd::NoteUploaded),
        DActs { buf, c: 4, h, w },
    )
}

/// The result, where no step has given it, and the end of everything that is held.
pub open spec fn finished(s: Pass, steps: Seq<DStep>) -> Work {
    let p = if s.done {
        s.work
    } else {
        s.work.push(Cmd::Sync).push(Cmd::Download { src: s.acts.buf })
    };
    steps_freed(p.free_acts(s.global).free(s.acts.buf), steps)
}

/// The forward pass over loaded steps.
pub open spec fn pass(p: Work, steps: Seq<DStep>, len: usize, h: usize, w: usize) -> Work {
    let (q, acts) = input_there(p.push_if(p.flags.profile, Cmd::NoteLoaded), len, h, w);
    finished(steps_taken(Pass { work: q, acts, global: None, done: false }, steps), steps)
}

/// Everything from nothing on the device to the result on the host: loading the
/// model and the forward pass over `len` floats of input.
pub open spec fn program(
    store: StoreView,
    steps: Seq<Step>,
    folds: Seq<Fold>,
    flags: Flags,
    len: usize,
    h: usize,
    w: usize,
) -> Work {
    let start = Work {
        cmds: Seq::empty(),
        data: Seq::empty(),
        blob: false,
        staged: false,
        stop: None,
        flags,
    };
    let (p, loaded) = steps_loaded(start, store, bn_table(store, folds), steps);
    pass(p, loaded, len, h, w)
}

fn put_input(c: &mut Cuda, len: usize, h: usize, w: usize) -> (r: DActs)
    ensures
        (final(c)@, r) == input_there(old(c)@, len, h, w),
{
    let on = c.flags.profile;
    let buf = c.allocate(len);
    c.push_if(len > 0, Cmd::Input { to: buf.addr, floats: len });
    c.push_if(on, Cmd::Sync);
    c.push_if(on, Cmd::NoteUploaded);
    DActs { buf, c: 4, h, w }
}

/// Record the forward pass over loaded steps.
fn run_steps(c: &mut Cuda, steps: &Vec<DStep>, len: usize, h: usize, w: usize)
    ensures
        final(c)@ == pass(old(c)@, steps@, len, h, w),
{
    let on = c.flags.profile;
    c.push_if(on, Cmd::NoteLoaded);
    let mut acts = put_input(c, len, h, w);
    let mut global: Option<DActs> = None;
    let mut done = false;
    let ghost start = Pass { work: c@, acts, global: None, done: false };
    let mut i: usize = 0;
    assert(steps@.take(0) =~= Seq::empty());
    while i < steps.len() && !done && c.stop.is_none()
        invariant
            i <= steps@.len(),
            steps_taken(start, steps@.take(i as int)) == (Pass { work: c@, acts, global, done }),
        decreases steps@.len() - i,
    {
        assert(steps@.take(i + 1).drop_last() =~= steps@.take(i as int));
        let (a, g, d) = run_step(c, &acts, &global, &steps[i], i);
        acts = a;
        global = g;
        done = d;
        i += 1;
    }
    proof {
        if i < steps@.len() {
            lemma_pass_stops(start, steps@, i as int);
        } else {
            assert(steps@.take(i as int) =~= steps@);
        }
    }
    if !done {
        c.sync();
        c.download(&acts.buf);
    }
    c.free_acts(&global);
    c.free(&acts.buf);
    free_steps(c, steps);
}

/// Record the full forward pass: load `model` from `store`, with its BatchNorms
/// already folded, and run it over an input of `len` floats, `[4][h][w]`. Where
/// recording stops, the commands before that still stand.
pub fn run(
    store: &WeightStore,
    model: &Model,
    folds: &Vec<Fold>,
    flags: Flags,
    len: usize,
    h: usize,
    w: usize,
) -> (c: Cuda)
    requires
        store.valid(),
    ensures
        c@ == program(store@, model.steps@, folds@, flags, len, h, w),
        safe(c@.cmds),
        c@.going() ==> mem(c@.cmds).heap == Set::<usize>::empty() && mem(c@.cmds).results == 1,
{
    let mut c = Cuda::new(flags);
    let table = stage_bns(store, folds);
    proof {
        bn_table_complete(store@, folds@);
    }
    let steps = load_steps(&mut c, store, &table, model);
    run_steps(&mut c, &steps, len, h, w);
    proof {
        assert(c.cmds.len() == c@.cmds.len());
        program_is_safe(store@, model.steps@, folds@, flags, len, h, w);
    }
    c
}

// ---------------------------------------------------------------------------
// Waiting
// ---------------------------------------------------------------------------

/// Whether a command starts work on the device that runs on its own.
pub open spec fn starts_work(cmd: Cmd) -> bool {
    cmd is Launch || cmd is Gemm || cmd is Fft
}

/// The command at `i` copies a result to the host after the device was waited for, and
/// no work was started in between.
pub open spec fn waits(cmds: Seq<Cmd>, i: int) -> bool {
    exists|j: int|
        {
            &&& 0 <= j < i < cmds.len()
            &&& #[trigger] cmds[j] is Sync
            &&& forall|k: int| j < k < i ==> !starts_work(#[trigger] cmds[k])
        }
}

/// The closing step waits for the device before it copies the result to the host.
pub proof fn result_waits_for_the_device(s: Pass, cv: DConv)
    requires
        out_step(s, cv).work.going(),
    ensures
        ({
            let cmds = out_step(s, cv).work.cmds;
            exists|i: int| s.work.cmds.len() <= i && #[trigger] is_result(cmds, i) && waits(cmds, i)
        }),
{
    reveal(Work::push);
    let on = s.work.flags.profile;
    let b = op_begun(s.work);
    let (p, out) = conv(b, cv, s.acts, 0, 1, false);
    crate::safety::lemma_conv_grows(b, cv, s.acts, 0, 1, false);
    let r = sigmoid(op_ended(p, Op::OutConv), out);
    let r1 = r.push(Cmd::Sync);
    let r2 = r1.push_if(on, Cmd::NoteLoop);
    let r3 = r2.push(Cmd::Download { src: out.buf });
    let r4 = r3.push_if(on, Cmd::NoteResult { floats: out.buf.len });
    let cmds = out_step(s, cv).work.cmds;
    assert(cmds == r4.free(out.buf).cmds);
    let (j, i) = (r.cmds.len() as int, r2.cmds.len() as int);
    assert(cmds[j] == Cmd::Sync);
    assert(cmds[i] == Cmd::Download { src: out.buf });
    assert forall|k: int| j < k < i implies !starts_work(#[trigger] cmds[k]) by {
        assert(cmds[k] == Cmd::NoteLoop);
    }
    assert(waits(cmds, i) && is_result(cmds, i));
}

/// The command at `i` copies a result to the host.
pub open spec fn is_result(cmds: Seq<Cmd>, i: int) -> bool {
    0 <= i < cmds.len() && cmds[i] is Download
}

/// Where no step gives the result, the device is waited for all the same before what is
/// left is copied.
pub proof fn leftover_waits_for_the_device(s: Pass, steps: Seq<DStep>)
    requires
        !s.done,
        s.work.going(),
    ensures
        ({
            let cmds = s.work.push(Cmd::Sync).push(Cmd::Download { src: s.acts.buf }).cmds;
            let i = s.work.cmds.len() as int + 1;
            &&& is_result(cmds, i)
            &&& waits(cmds, i)
            &&& finished(s, steps) == steps_freed(
                s.work.push(Cmd::Sync).push(Cmd::Download { src: s.acts.buf }).free_acts(
                    s.global,
                ).free(s.acts.buf),
                steps,
            )
        }),
{
    reveal(Work::push);
    let cmds = s.work.push(Cmd::Sync).push(Cmd::Download { src: s.acts.buf }).cmds;
    let j = s.work.cmds.len() as int;
    assert(cmds[j] is Sync);
}

/// The activations are written down after the step that was asked for and after no
/// other, when the device is done with them, and as that step left them.
pub proof fn dump_follows_its_step(s: Pass, no: usize, i: int)
    requires
        s.work.going(),
        s.work.cmds.len() <= i < after_step(s, no).work.cmds.len(),
    ensures
        ({
            let q = after_step(s, no).work;
            &&& q.cmds[i] is Dump ==> {
                &&& s.work.flags.dump_after == Some(no)
                &&& q.cmds[i] == Cmd::Dump { step: no, local: s.acts, global: s.global }
                &&& waits(q.cmds, i)
            }
            &&& !starts_work(q.cmds[i])
        }),
        s.work.flags.dump_after == Some(no) ==> exists|j: int|
            s.work.cmds.len() <= j && #[trigger] is_dump(after_step(s, no).work.cmds, j),
{
    reveal(Work::push);
    let q = after_step(s, no).work;
    let n = s.work.cmds.len() as int;
    if s.work.flags.dump_after == Some(no) {
        assert(q.cmds[n] is Sync);
        assert(q.cmds[n + 1] is Dump);
        assert(is_dump(q.cmds, n + 1));
    }
}

/// The command at `i` writes activations down.
pub open spec fn is_dump(cmds: Seq<Cmd>, i: int) -> bool {
    0 <= i < cmds.len() && cmds[i] is Dump
}

/// Where steps are timed, the clock is read only when the device is done with all work
/// before; where they are not, nothing is recorded.
pub proof fn clocks_wait_for_the_device(p: Work, op: Op)
    requires
        p.going(),
    ensures
        ({
            let (a, b, n) = (op_begun(p).cmds, op_ended(p, op).cmds, p.cmds.len() as int);
            if p.flags.profile_ops {
                &&& a.len() == n + 2
                &&& a.last() is OpBegin
                &&& waits(a, n + 1)
                &&& b.len() == n + 2
                &&& b.last() == Cmd::OpEnd { op }
                &&& waits(b, n + 1)
            } else {
                a == p.cmds && b == p.cmds
            }
        }),
{
    reveal(Work::push);
    let (a, b, n) = (op_begun(p).cmds, op_ended(p, op).cmds, p.cmds.len() as int);
    if p.flags.profile_ops {
        assert(a[n] is Sync);
        assert(b[n] is Sync);
    }
}

/// Steps are counted from zero: what is written down as step `n` is what the first
/// `n + 1` steps came to.
pub proof fn dump_shows_its_step(s: Pass, steps: Seq<DStep>)
    requires
        0 < steps.len() <= usize::MAX,
        !(steps.last() is OutConv),
        !steps_taken(s, steps.drop_last()).done,
        steps_taken(s, steps).work.going(),
        steps_taken(s, steps).work.flags.dump_after == Some((steps.len() - 1) as usize),
    ensures
        ({
            let q = steps_taken(s, steps);
            let n = (steps.len() - 1) as usize;
            q.work.cmds.contains(Cmd::Dump { step: n, local: q.acts, global: q.global })
        }),
{
    reveal(step_taken);
    reveal(Work::push);
    let q = steps_taken(s, steps);
    let p = steps_taken(s, steps.drop_last());
    let n = (steps.len() - 1) as usize;
    let b = match steps.last() {
        DStep::ReflectPad(k) => pad_step(p, k),
        DStep::Ffc(f) => ffc_step(p, f),
        DStep::Res(f1, f2) => res_step(p, f1, f2),
        DStep::Concat => concat_step(p),
        DStep::Upsample(cv, bn) => upsample_step(p, cv, bn),
        DStep::OutConv(cv) => p,
    };
    assert(q == after_step(b, n));
    let i = b.work.cmds.len() as int + 1;
    assert(q.work.cmds[i] == Cmd::Dump { step: n, local: q.acts, global: q.global });
}

} // verus!
