//! What a whole program computes: the network over the input, with the weights that
//! the model names.

use vstd::prelude::*;

use crate::cuda::{Cmd, Flags, Work};
use crate::dataflow::{bn_older, conv_older, convt_older, spectral_older};
use crate::engine::{pass, program};
use crate::forward::{network, pass_computes, step_older};
use crate::lifetime::{
    lemma_blob_tensor, lemma_bn_if_loaded, lemma_bn_loaded, lemma_conv_loaded,
    lemma_conv_ref_loaded, lemma_convt_loaded, lemma_ffc_loaded, lemma_pass_grows,
    lemma_phase_loaded, lemma_step_loaded, program_is_safe,
};
use crate::loader::{
    blob_tensor, block_name, bn_if_loaded, bn_loaded, bn_table, conv_loaded, conv_ref_loaded,
    convt_loaded, ffc_loaded, module_name, phase_loaded, spectral_loaded, step_loaded, steps_loaded,
    DStep, Fold, Table,
};
use crate::meaning::{after_all, left_by, older};
use crate::model::{ConvRef, FfcBlock, Step};
use crate::naming::{
    block_is_the_modules, convolution_is_the_modules, is_block, is_conv, is_convt, is_norm,
    normalisation_is_the_modules, transposed_is_the_modules,
};
use crate::network::ffc_older;
use crate::ops::DFfc;
use crate::safety::{grows, mem};
use crate::text::dec;
use crate::weights::StoreView;

verus! {

broadcast use crate::cuda::group_work;

// ---------------------------------------------------------------------------
// The steps of a model
// ---------------------------------------------------------------------------

/// A block on the device is that of its own module: `model.i`, or in a residual block
/// `model.i.conv1` or `model.i.conv2`.
pub open spec fn is_own_block(store: StoreView, folds: Seq<Fold>, b: FfcBlock, f: DFfc) -> bool {
    let numbered = "model."@ + dec(b.index as nat);
    &&& b.sub == 0 ==> is_block(store, folds, numbered, b, f)
    &&& b.sub == 1 ==> is_block(store, folds, numbered + ".conv1"@, b, f)
    &&& b.sub == 2 ==> is_block(store, folds, numbered + ".conv2"@, b, f)
}

/// A step on the device is that of the model, with the weights of its modules.
pub open spec fn is_step(store: StoreView, folds: Seq<Fold>, s: Step, d: DStep) -> bool {
    match s {
        Step::ReflectPad(n) => d == DStep::ReflectPad(n),
        Step::Ffc(b) => d matches DStep::Ffc(f) && is_own_block(store, folds, b, f),
        Step::ResBlock(r) => d matches DStep::Res(f, g) && is_own_block(store, folds, r.conv1, f)
            && is_own_block(store, folds, r.conv2, g),
        Step::Concat => d == DStep::Concat,
        Step::Upsample(u) => d matches DStep::Upsample(cv, bn) && is_convt(
            store,
            "model."@ + dec(u.index as nat),
            cv,
        ) && is_norm(store, folds, "model."@ + dec(u.bn_index as nat), u.cout, bn),
        Step::OutConv(o) => d matches DStep::OutConv(cv) && is_conv(
            store,
            "model."@ + dec(o.index as nat),
            cv,
        ),
    }
}

/// A loaded step is that of the model.
pub proof fn step_is_the_models(p: Work, store: StoreView, folds: Seq<Fold>, s: Step)
    requires
        step_loaded(p, store, bn_table(store, folds), s).0.going(),
        step_loaded(p, store, bn_table(store, folds), s).0.cmds.len() <= usize::MAX,
        step_loaded(p, store, bn_table(store, folds), s).0.data.len() <= usize::MAX,
    ensures
        is_step(store, folds, s, step_loaded(p, store, bn_table(store, folds), s).1),
{
    reveal(step_loaded);
    let t = bn_table(store, folds);
    match s {
        Step::Ffc(b) => block_is_the_modules(p, store, folds, b),
        Step::ResBlock(r) => {
            let p1 = ffc_loaded(p, store, t, r.conv1).0;
            block_is_the_modules(p1, store, folds, r.conv2);
            block_is_the_modules(p, store, folds, r.conv1);
        },
        Step::Upsample(u) => {
            let p1 = convt_loaded(p, store, module_name(u.index)).0;
            normalisation_is_the_modules(p1, store, folds, module_name(u.bn_index), u.cout);
            lemma_bn_loaded(p1, t, module_name(u.bn_index), u.cout);
            lemma_bn_data(p1, t, module_name(u.bn_index), u.cout);
            transposed_is_the_modules(p, store, module_name(u.index));
        },
        Step::OutConv(o) => convolution_is_the_modules(p, store, module_name(o.index)),
        _ => {},
    }
}

/// Recorded floats are only ever added to.
proof fn lemma_bn_data(p: Work, t: Table, prefix: Seq<char>, channels: usize)
    ensures
        p.data.len() <= bn_loaded(p, t, prefix, channels).0.data.len(),
{
    reveal(bn_loaded);
}

proof fn lemma_conv_data(p: Work, store: StoreView, prefix: Seq<char>)
    ensures
        p.data.len() <= conv_loaded(p, store, prefix).0.data.len(),
{
    reveal(conv_loaded);
}

proof fn lemma_spectral_data(
    p: Work,
    store: StoreView,
    t: Table,
    prefix: Seq<char>,
    out: usize,
    stride: usize,
)
    ensures
        p.data.len() <= spectral_loaded(p, store, t, prefix, out, stride).0.data.len(),
{
    reveal(spectral_loaded);
    let half = out / 2;
    let p1 = conv_loaded(p, store, prefix + ".conv1.0"@).0;
    let p2 = bn_loaded(p1, t, prefix + ".conv1.1"@, half).0;
    let p3 = conv_loaded(p2, store, prefix + ".fu.conv_layer"@).0;
    let p4 = bn_loaded(p3, t, prefix + ".fu.bn"@, (2 * half) as usize).0;
    lemma_conv_data(p, store, prefix + ".conv1.0"@);
    lemma_bn_data(p1, t, prefix + ".conv1.1"@, half);
    lemma_conv_data(p2, store, prefix + ".fu.conv_layer"@);
    lemma_bn_data(p3, t, prefix + ".fu.bn"@, (2 * half) as usize);
    lemma_conv_data(p4, store, prefix + ".conv2"@);
}

proof fn lemma_ref_data(p: Work, store: StoreView, ffc: Seq<char>, r: ConvRef)
    ensures
        p.data.len() <= conv_ref_loaded(p, store, ffc, r).0.data.len(),
{
    if let ConvRef::Present { name } = r {
        lemma_conv_data(p, store, ffc + "."@ + name@);
    }
}

proof fn lemma_ffc_data(p: Work, store: StoreView, t: Table, b: FfcBlock)
    ensures
        p.data.len() <= ffc_loaded(p, store, t, b).0.data.len(),
{
    reveal(ffc_loaded);
    let own = block_name(b);
    let ffc = own + ".ffc"@;
    let p1 = if b.g2g {
        lemma_spectral_data(p, store, t, ffc + ".convg2g"@, b.out_global, b.stride);
        spectral_loaded(p, store, t, ffc + ".convg2g"@, b.out_global, b.stride).0
    } else {
        p
    };
    let p2 = conv_ref_loaded(p1, store, ffc, b.l2l).0;
    let p3 = conv_ref_loaded(p2, store, ffc, b.l2g).0;
    let p4 = conv_ref_loaded(p3, store, ffc, b.g2l).0;
    let p5 = bn_if_loaded(p4, t, b.bn_local, own + ".bn_l"@, b.out_local).0;
    lemma_ref_data(p1, store, ffc, b.l2l);
    lemma_ref_data(p2, store, ffc, b.l2g);
    lemma_ref_data(p3, store, ffc, b.g2l);
    lemma_bn_data(p4, t, own + ".bn_l"@, b.out_local);
    lemma_bn_data(p5, t, own + ".bn_g"@, b.out_global);
}

proof fn lemma_step_data(p: Work, store: StoreView, t: Table, s: Step)
    ensures
        p.data.len() <= step_loaded(p, store, t, s).0.data.len(),
{
    reveal(step_loaded);
    match s {
        Step::Ffc(b) => lemma_ffc_data(p, store, t, b),
        Step::ResBlock(r) => {
            lemma_ffc_data(p, store, t, r.conv1);
            lemma_ffc_data(ffc_loaded(p, store, t, r.conv1).0, store, t, r.conv2);
        },
        Step::Upsample(u) => {
            reveal(convt_loaded);
            let q = convt_loaded(p, store, module_name(u.index)).0;
            lemma_bn_data(q, t, module_name(u.bn_index), u.cout);
        },
        Step::OutConv(o) => lemma_conv_data(p, store, module_name(o.index)),
        _ => {},
    }
}

/// Loading that comes to its end gives a step on the device for every step of the
/// model, in their order, each with the weights of its own modules.
pub proof fn steps_are_the_models(p: Work, store: StoreView, folds: Seq<Fold>, steps: Seq<Step>)
    requires
        steps_loaded(p, store, bn_table(store, folds), steps).0.going(),
        steps_loaded(p, store, bn_table(store, folds), steps).0.cmds.len() <= usize::MAX,
        steps_loaded(p, store, bn_table(store, folds), steps).0.data.len() <= usize::MAX,
    ensures
        ({
            let ds = steps_loaded(p, store, bn_table(store, folds), steps).1;
            &&& ds.len() == steps.len()
            &&& forall|i: int| 0 <= i < steps.len() ==> is_step(store, folds, steps[i], #[trigger] ds[i])
        }),
    decreases steps.len(),
{
    if steps.len() > 0 {
        let t = bn_table(store, folds);
        let before = steps.drop_last();
        let (q, done) = steps_loaded(p, store, t, before);
        let (r, ds) = steps_loaded(p, store, t, steps);
        lemma_step_loaded(q, store, t, steps.last());
        lemma_step_data(q, store, t, steps.last());
        steps_are_the_models(p, store, folds, before);
        step_is_the_models(q, store, folds, steps.last());
        assert forall|i: int| 0 <= i < steps.len() implies is_step(
            store,
            folds,
            steps[i],
            #[trigger] ds[i],
        ) by {
            if i < before.len() {
                assert(ds[i] == done[i]);
                assert(before[i] == steps[i]);
            } else {
                assert(ds[i] == step_loaded(q, store, t, steps.last()).1);
            }
        }
    }
}

// ---------------------------------------------------------------------------
// Where the weights lie
// ---------------------------------------------------------------------------

proof fn lemma_conv_placed(p: Work, store: StoreView, prefix: Seq<char>)
    requires
        conv_loaded(p, store, prefix).0.going(),
        conv_loaded(p, store, prefix).0.cmds.len() <= usize::MAX,
    ensures
        conv_older(
            conv_loaded(p, store, prefix).1,
            conv_loaded(p, store, prefix).0.cmds.len(),
        ),
        p.going(),
        p.cmds.len() <= conv_loaded(p, store, prefix).0.cmds.len(),
{
    reveal(conv_loaded);
    lemma_conv_loaded(p, store, prefix);
}

proof fn lemma_bn_placed(p: Work, t: Table, prefix: Seq<char>, channels: usize, n: nat)
    ensures
        bn_older(bn_loaded(p, t, prefix, channels).1, n),
        grows(p, bn_loaded(p, t, prefix, channels).0),
{
    reveal(bn_loaded);
    lemma_bn_loaded(p, t, prefix, channels);
}

proof fn lemma_ref_placed(p: Work, store: StoreView, ffc: Seq<char>, r: ConvRef)
    requires
        conv_ref_loaded(p, store, ffc, r).0.going(),
        conv_ref_loaded(p, store, ffc, r).0.cmds.len() <= usize::MAX,
    ensures
        conv_ref_loaded(p, store, ffc, r).1 matches Some(cv) ==> conv_older(
            cv,
            conv_ref_loaded(p, store, ffc, r).0.cmds.len(),
        ),
{
    if let ConvRef::Present { name } = r {
        lemma_conv_placed(p, store, ffc + "."@ + name@);
    }
}

proof fn lemma_spectral_placed(
    p: Work,
    store: StoreView,
    t: Table,
    prefix: Seq<char>,
    out: usize,
    stride: usize,
)
    requires
        spectral_loaded(p, store, t, prefix, out, stride).0.going(),
        spectral_loaded(p, store, t, prefix, out, stride).0.cmds.len() <= usize::MAX,
    ensures
        spectral_older(
            spectral_loaded(p, store, t, prefix, out, stride).1,
            spectral_loaded(p, store, t, prefix, out, stride).0.cmds.len(),
        ),
{
    reveal(spectral_loaded);
    let half = out / 2;
    let p1 = conv_loaded(p, store, prefix + ".conv1.0"@).0;
    let p2 = bn_loaded(p1, t, prefix + ".conv1.1"@, half).0;
    let p3 = conv_loaded(p2, store, prefix + ".fu.conv_layer"@).0;
    let p4 = bn_loaded(p3, t, prefix + ".fu.bn"@, (2 * half) as usize).0;
    let n = conv_loaded(p4, store, prefix + ".conv2"@).0.cmds.len();
    lemma_conv_placed(p4, store, prefix + ".conv2"@);
    lemma_bn_placed(p3, t, prefix + ".fu.bn"@, (2 * half) as usize, n);
    lemma_conv_placed(p2, store, prefix + ".fu.conv_layer"@);
    lemma_bn_placed(p1, t, prefix + ".conv1.1"@, half, n);
    lemma_conv_placed(p, store, prefix + ".conv1.0"@);
}

proof fn lemma_ffc_placed(p: Work, store: StoreView, t: Table, b: FfcBlock)
    requires
        ffc_loaded(p, store, t, b).0.going(),
        ffc_loaded(p, store, t, b).0.cmds.len() <= usize::MAX,
    ensures
        ffc_older(ffc_loaded(p, store, t, b).1, ffc_loaded(p, store, t, b).0.cmds.len()),
{
    reveal(ffc_loaded);
    let own = block_name(b);
    let ffc = own + ".ffc"@;
    let p1 = if b.g2g {
        spectral_loaded(p, store, t, ffc + ".convg2g"@, b.out_global, b.stride).0
    } else {
        p
    };
    let p2 = conv_ref_loaded(p1, store, ffc, b.l2l).0;
    let p3 = conv_ref_loaded(p2, store, ffc, b.l2g).0;
    let p4 = conv_ref_loaded(p3, store, ffc, b.g2l).0;
    let p5 = bn_if_loaded(p4, t, b.bn_local, own + ".bn_l"@, b.out_local).0;
    let n = ffc_loaded(p, store, t, b).0.cmds.len();
    lemma_bn_if_loaded(p5, t, b.bn_global, own + ".bn_g"@, b.out_global);
    lemma_bn_if_loaded(p4, t, b.bn_local, own + ".bn_l"@, b.out_local);
    lemma_conv_ref_loaded(p3, store, ffc, b.g2l);
    lemma_conv_ref_loaded(p2, store, ffc, b.l2g);
    lemma_conv_ref_loaded(p1, store, ffc, b.l2l);
    lemma_bn_placed(p5, t, own + ".bn_g"@, b.out_global, n);
    lemma_bn_placed(p4, t, own + ".bn_l"@, b.out_local, n);
    lemma_ref_placed(p3, store, ffc, b.g2l);
    lemma_ref_placed(p2, store, ffc, b.l2g);
    lemma_ref_placed(p1, store, ffc, b.l2l);
    if b.g2g {
        lemma_spectral_placed(p, store, t, ffc + ".convg2g"@, b.out_global, b.stride);
    }
}

proof fn lemma_phase_placed(p: Work, w: Seq<u32>, cin: usize, cout: usize, ph: nat)
    requires
        phase_loaded(p, w, cin, cout, ph).0.going(),
        phase_loaded(p, w, cin, cout, ph).0.cmds.len() <= usize::MAX,
    ensures
        older(
            phase_loaded(p, w, cin, cout, ph).1.addr,
            phase_loaded(p, w, cin, cout, ph).0.cmds.len(),
        ),
{
    lemma_phase_loaded(p, w, cin, cout, ph);
}

proof fn lemma_convt_placed(p: Work, store: StoreView, module: Seq<char>)
    requires
        convt_loaded(p, store, module).0.going(),
        convt_loaded(p, store, module).0.cmds.len() <= usize::MAX,
    ensures
        convt_older(
            convt_loaded(p, store, module).1,
            convt_loaded(p, store, module).0.cmds.len(),
        ),
{
    reveal(convt_loaded);
    lemma_convt_loaded(p, store, module);
    let name = module + ".weight"@;
    let cv = convt_loaded(p, store, module).1;
    let w = store.bits(name);
    let (cin, cout) = (cv.cin, cv.cout);
    let p1 = phase_loaded(p, w, cin, cout, 0).0;
    let p2 = phase_loaded(p1, w, cin, cout, 1).0;
    let p3 = phase_loaded(p2, w, cin, cout, 2).0;
    let p4 = phase_loaded(p3, w, cin, cout, 3).0;
    let p5 = blob_tensor(p4, store, name).0;
    lemma_phase_loaded(p, w, cin, cout, 0);
    lemma_phase_loaded(p1, w, cin, cout, 1);
    lemma_phase_loaded(p2, w, cin, cout, 2);
    lemma_phase_loaded(p3, w, cin, cout, 3);
    lemma_blob_tensor(p4, store, name);
    lemma_blob_tensor(p5, store, module + ".bias"@);
    lemma_phase_placed(p3, w, cin, cout, 3);
    lemma_phase_placed(p2, w, cin, cout, 2);
    lemma_phase_placed(p1, w, cin, cout, 1);
    lemma_phase_placed(p, w, cin, cout, 0);
}

proof fn lemma_step_placed(p: Work, store: StoreView, t: Table, s: Step)
    requires
        step_loaded(p, store, t, s).0.going(),
        step_loaded(p, store, t, s).0.cmds.len() <= usize::MAX,
    ensures
        step_older(step_loaded(p, store, t, s).1, step_loaded(p, store, t, s).0.cmds.len()),
{
    reveal(step_loaded);
    match s {
        Step::Ffc(b) => lemma_ffc_placed(p, store, t, b),
        Step::ResBlock(r) => {
            let p1 = ffc_loaded(p, store, t, r.conv1).0;
            lemma_ffc_loaded(p1, store, t, r.conv2);
            lemma_ffc_placed(p1, store, t, r.conv2);
            lemma_ffc_placed(p, store, t, r.conv1);
        },
        Step::Upsample(u) => {
            let p1 = convt_loaded(p, store, module_name(u.index)).0;
            let n = step_loaded(p, store, t, s).0.cmds.len();
            lemma_bn_placed(p1, t, module_name(u.bn_index), u.cout, n);
            lemma_convt_placed(p, store, module_name(u.index));
        },
        Step::OutConv(o) => lemma_conv_placed(p, store, module_name(o.index)),
        _ => {},
    }
}

proof fn lemma_steps_placed(p: Work, store: StoreView, t: Table, steps: Seq<Step>)
    requires
        steps_loaded(p, store, t, steps).0.going(),
        steps_loaded(p, store, t, steps).0.cmds.len() <= usize::MAX,
    ensures
        ({
            let (q, ds) = steps_loaded(p, store, t, steps);
            forall|i: int| 0 <= i < ds.len() ==> step_older(#[trigger] ds[i], q.cmds.len())
        }),
    decreases steps.len(),
{
    if steps.len() > 0 {
        let before = steps.drop_last();
        let (q, done) = steps_loaded(p, store, t, before);
        let (r, ds) = steps_loaded(p, store, t, steps);
        lemma_step_loaded(q, store, t, steps.last());
        lemma_steps_placed(p, store, t, before);
        lemma_step_placed(q, store, t, steps.last());
        assert forall|i: int| 0 <= i < ds.len() implies step_older(
            #[trigger] ds[i],
            r.cmds.len(),
        ) by {
            if i < done.len() {
                assert(ds[i] == done[i]);
            } else {
                assert(ds[i] == step_loaded(q, store, t, steps.last()).1);
            }
        }
    }
}

// ---------------------------------------------------------------------------
// Programs
// ---------------------------------------------------------------------------

/// The model on the device, before the input.
pub open spec fn loaded(store: StoreView, steps: Seq<Step>, folds: Seq<Fold>, flags: Flags) -> (
    Work,
    Seq<DStep>,
) {
    steps_loaded(
        Work {
            cmds: Seq::empty(),
            data: Seq::empty(),
            blob: false,
            staged: false,
            stop: None,
            flags,
        },
        store,
        bn_table(store, folds),
        steps,
    )
}

/// As many results as commands that copy one.
proof fn lemma_results(cmds: Seq<Cmd>)
    ensures
        left_by(cmds).results.len() == mem(cmds).results,
    decreases cmds.len(),
{
    if cmds.len() > 0 {
        lemma_results(cmds.drop_last());
    }
}

/// A program that is recorded to its end copies one result to the host, and that is
/// the network of the model over the input: every step of the model, in its order, with
/// the weights that the store holds under the names of its modules.
pub proof fn program_computes(
    store: StoreView,
    steps: Seq<Step>,
    folds: Seq<Fold>,
    flags: Flags,
    len: usize,
    h: usize,
    w: usize,
)
    requires
        program(store, steps, folds, flags, len, h, w).going(),
        program(store, steps, folds, flags, len, h, w).cmds.len() <= usize::MAX,
        loaded(store, steps, folds, flags).0.data.len() <= usize::MAX,
    ensures
        ({
            let (p, ds) = loaded(store, steps, folds, flags);
            &&& left_by(program(store, steps, folds, flags, len, h, w).cmds).results == seq![
                network(p, ds, len, h, w),
            ]
            &&& ds.len() == steps.len()
            &&& forall|i: int|
                0 <= i < steps.len() ==> is_step(store, folds, steps[i], #[trigger] ds[i])
        }),
{
    let t = bn_table(store, folds);
    let start = Work {
        cmds: Seq::empty(),
        data: Seq::empty(),
        blob: false,
        staged: false,
        stop: None,
        flags,
    };
    let (p, ds) = loaded(store, steps, folds, flags);
    let q = pass(p, ds, len, h, w);
    assert(q == program(store, steps, folds, flags, len, h, w));
    lemma_pass_grows(p, ds, len, h, w);
    steps_are_the_models(start, store, folds, steps);
    lemma_steps_placed(start, store, t, steps);
    pass_computes(p, ds, len, h, w);
    program_is_safe(store, steps, folds, flags, len, h, w);
    lemma_results(q.cmds);
    assert(after_all(q).results == after_all(p).results.push(network(p, ds, len, h, w)));
    assert(after_all(p).results.len() == 0);
    assert(after_all(q).results =~= seq![network(p, ds, len, h, w)]);
}

} // verus!
