//! Programs from their first command to their last: the weights are on the device
//! before they are used, and at the end nothing is left allocated.

use vstd::prelude::*;

use crate::cuda::{Cmd, DActs, Dev, Flags, Op, Work};
use crate::engine::{
    after_step, concat_step, ffc_step, finished, input_there, op_begun, op_ended, out_step,
    pad_step, pass, program, res_step, step_taken, steps_taken, upsample_step, upsampled,
    Pass,
};
use crate::loader::{
    blob_tensor, blob_there, bn_if_loaded, bn_loaded, bn_table, committed, conv_bias, conv_freed,
    conv_loaded, conv_ref_loaded, conv_swapped, convt_loaded, ffc_freed, ffc_loaded, phase_gathers,
    phase_loaded, spectral_loaded, step_freed, step_loaded, steps_freed, steps_loaded, DStep, Fold,
    Table,
};
use crate::layout::{phase_matrix, swapped};
use crate::model::{ConvRef, FfcBlock, Step};
use crate::ops::{
    bn_relu, concatenated, conv, ffc, padded, sigmoid, DBn, DConv, DConvT, DFfc, DSpectral,
};
use crate::safety::{
    apart, at, bn_there, conv_there, convt_there, ffc_there, grows, keeps,
    lemma_allocate, lemma_bn_relu, lemma_concatenated, lemma_conv, lemma_conv_grows, lemma_ffc,
    lemma_ffc_grows, lemma_free, lemma_padded, lemma_push, lemma_push_if, lemma_sigmoid,
    lemma_small_grow, lemma_upsampled, lemma_upsampled_grows, mem, owned_id, safe, same_but_plans,
    sound, spectral_there, there, two_more, Mem,
};
use crate::weights::StoreView;

verus! {

broadcast use crate::cuda::group_work;

// ---------------------------------------------------------------------------
// Loading
// ---------------------------------------------------------------------------

/// `n` has everything that `m` has.
pub open spec fn more(m: Mem, n: Mem) -> bool {
    &&& forall|id: usize| m.heap.contains(id) ==> #[trigger] n.heap.contains(id)
    &&& m.blob ==> n.blob
    &&& m.staged ==> n.staged
}

/// What the work says of the arenas is true of the device: each is there, with its
/// contents, where the work says so, and has no room yet where it does not.
pub open spec fn linked(p: Work) -> bool {
    p.going() ==> {
        &&& at(p).blob_room == p.blob
        &&& at(p).blob == p.blob
        &&& at(p).stage_room == p.staged
        &&& at(p).staged == p.staged
    }
}

/// Ready to record more.
pub open spec fn ready(p: Work) -> bool {
    sound(p) && linked(p)
}

/// From `p` to `q` exactly the blocks `s` are allocated.
pub open spec fn loads(p: Work, q: Work, s: Set<usize>) -> bool {
    &&& grows(p, q)
    &&& ready(p) && q.cmds.len() <= usize::MAX ==> {
        &&& ready(q)
        &&& q.going() ==> {
            &&& more(at(p), at(q))
            &&& at(q).heap == at(p).heap.union(s)
            &&& at(p).heap.disjoint(s)
            &&& at(q).results == at(p).results
        }
    }
}

/// Where loading goes on, `q` holds on what is on the device.
pub open spec fn then_there(p: Work, q: Work, there: bool) -> bool {
    ready(p) && q.cmds.len() <= usize::MAX && q.going() ==> there
}

/// The block that a buffer owns, as a set.
pub open spec fn dev_set(d: Dev) -> Set<usize> {
    match owned_id(d) {
        Some(id) => set![id],
        None => Set::empty(),
    }
}

/// The block that a convolution owns.
pub open spec fn conv_set(cv: Option<DConv>) -> Set<usize> {
    match cv {
        Some(cv) => match cv.w_t {
            Some(d) => dev_set(d),
            None => Set::empty(),
        },
        None => Set::empty(),
    }
}

pub(crate) proof fn lemma_upload(p: Work, bits: Seq<u32>)
    ensures
        loads(p, p.upload(bits), dev_set(p.fresh(bits.len() as usize))),
{
    let n = bits.len() as int;
    let d = p.fresh(n as usize);
    let a = p.allocate(n);
    let q = p.upload(bits);
    let cmd = Cmd::Upload {
        to: d.addr,
        from: a.data.len() as usize,
        floats: bits.len() as usize,
    };
    if ready(p) && q.cmds.len() <= usize::MAX {
        lemma_allocate(p, n);
        if a.going() && n > 0 {
            lemma_push(a, cmd);
            assert(q.cmds == a.push(cmd).cmds);
            assert(at(q) == at(a.push(cmd)));
        }
        if q.going() {
            assert(at(q).heap =~= at(p).heap.union(dev_set(d)));
        }
    }
}

pub(crate) proof fn lemma_blob_there(p: Work, len: nat)
    ensures
        loads(p, blob_there(p, len), Set::empty()),
        then_there(p, blob_there(p, len), at(blob_there(p, len)).blob),
{
    let q = blob_there(p, len);
    let malloc = Cmd::BlobMalloc { floats: ((len + 3) / 4) as usize };
    let copy = Cmd::BlobCopy { bytes: len as usize };
    if ready(p) {
        if !p.blob && p.going() && len + 3 <= usize::MAX {
            lemma_push(p, malloc);
            lemma_push(p.push(malloc), copy);
            assert(at(q) == at(p.push(malloc).push(copy)));
        } else {
            assert(at(q) == at(p));
        }
        assert(at(q).heap =~= at(p).heap.union(Set::empty()));
    }
}

pub(crate) proof fn lemma_blob_tensor(p: Work, store: StoreView, name: Seq<char>)
    ensures
        loads(p, blob_tensor(p, store, name).0, Set::empty()),
        then_there(
            p,
            blob_tensor(p, store, name).0,
            there(at(blob_tensor(p, store, name).0), blob_tensor(p, store, name).1.addr),
        ),
{
    lemma_blob_there(p, store.bytes.len());
    let q = blob_tensor(p, store, name).0;
    if !store.has(name) {
        assert(at(q) == at(p));
        assert(at(q).heap =~= at(p).heap.union(Set::empty()));
    }
}

pub(crate) proof fn lemma_committed(p: Work, t: Table)
    ensures
        loads(p, committed(p, t), Set::empty()),
        then_there(p, committed(p, t), at(committed(p, t)).staged),
{
    let q = committed(p, t);
    let n = t.packed.host.len() as usize;
    let malloc = Cmd::StageMalloc { floats: n };
    if ready(p) {
        if t.stop is None && !p.staged && p.going() {
            let a = p.push(malloc);
            let copy = Cmd::StageCopy { from: a.data.len() as usize, floats: n };
            lemma_push(p, malloc);
            if n > 0 {
                lemma_push(a, copy);
            }
            assert(at(q) == at(a.push_if(n > 0, copy)));
        } else {
            assert(at(q) == at(p));
        }
        assert(at(q).heap =~= at(p).heap.union(Set::empty()));
    }
}

pub(crate) proof fn lemma_bn_loaded(p: Work, t: Table, prefix: Seq<char>, channels: usize)
    ensures
        loads(p, bn_loaded(p, t, prefix, channels).0, Set::empty()),
        then_there(
            p,
            bn_loaded(p, t, prefix, channels).0,
            bn_there(
                at(bn_loaded(p, t, prefix, channels).0),
                bn_loaded(p, t, prefix, channels).1,
            ),
        ),
{
    reveal(bn_loaded);
    let a = committed(p, t);
    lemma_committed(p, t);
    let q = bn_loaded(p, t, prefix, channels).0;
    assert(at(q) == at(a));
}

pub(crate) proof fn lemma_conv_loaded(p: Work, store: StoreView, prefix: Seq<char>)
    ensures
        loads(
            p,
            conv_loaded(p, store, prefix).0,
            conv_set(Some(conv_loaded(p, store, prefix).1)),
        ),
        then_there(
            p,
            conv_loaded(p, store, prefix).0,
            conv_there(at(conv_loaded(p, store, prefix).0), conv_loaded(p, store, prefix).1),
        ),
{
    reveal(conv_loaded);
    let name = prefix + ".weight"@;
    let q = conv_loaded(p, store, prefix).0;
    let cv = conv_loaded(p, store, prefix).1;
    if store.has(name) && store.tensor(name).shape.len() >= 4 {
        let shape = store.tensor(name).shape;
        let (p1, w) = blob_tensor(p, store, name);
        lemma_blob_tensor(p, store, name);
        let (p2, bias) = conv_bias(p1, store, prefix, shape[0]);
        lemma_blob_tensor(p1, store, prefix + ".bias"@);
        lemma_blob_there(p1, store.bytes.len());
        assert(loads(p1, p2, Set::empty())) by {
            assert(at(p1).heap.union(Set::empty()) =~= at(p1).heap);
        }
        let bits = store.bits(name);
        lemma_upload(p2, swapped(bits, shape[0] as int, shape[1] as int, 49));
        let (p3, w_t) = conv_swapped(
            p2,
            store,
            name,
            shape[0],
            shape[1],
            shape[2],
            shape[3],
        );
        assert(q == p3);
        assert(at(p2).heap.union(Set::empty()) =~= at(p2).heap);
        if ready(p) && q.cmds.len() <= usize::MAX && q.going() {
            assert(at(q).heap =~= at(p).heap.union(conv_set(Some(cv))));
        }
    } else {
        assert(at(q) == at(p));
    }
}

/// The blocks that a spectral branch owns.
pub open spec fn spectral_set(sp: Option<DSpectral>) -> Set<usize> {
    match sp {
        Some(sp) => conv_set(Some(sp.conv1)).union(conv_set(Some(sp.fu_conv))).union(
            conv_set(Some(sp.conv2)),
        ),
        None => Set::empty(),
    }
}

/// The convolutions of a spectral branch own blocks of their own.
pub open spec fn spectral_apart(sp: Option<DSpectral>) -> bool {
    sp matches Some(sp) ==> {
        let (a, b, c) = (
            conv_set(Some(sp.conv1)),
            conv_set(Some(sp.fu_conv)),
            conv_set(Some(sp.conv2)),
        );
        a.disjoint(b) && a.disjoint(c) && b.disjoint(c)
    }
}

pub(crate) proof fn lemma_spectral_loaded(
    p: Work,
    store: StoreView,
    t: Table,
    prefix: Seq<char>,
    out_global: usize,
    stride: usize,
)
    ensures
        ({
            let (q, sp) = spectral_loaded(p, store, t, prefix, out_global, stride);
            &&& loads(p, q, spectral_set(Some(sp)))
            &&& then_there(p, q, spectral_there(at(q), sp) && spectral_apart(Some(sp)))
        }),
{
    reveal(spectral_loaded);
    let half = out_global / 2;
    let (q, sp) = spectral_loaded(p, store, t, prefix, out_global, stride);
    let (p1, conv1) = conv_loaded(p, store, prefix + ".conv1.0"@);
    let (p2, bn1) = bn_loaded(p1, t, prefix + ".conv1.1"@, half);
    let (p3, fu_conv) = conv_loaded(p2, store, prefix + ".fu.conv_layer"@);
    let (p4, fu_bn) = bn_loaded(p3, t, prefix + ".fu.bn"@, (2 * half) as usize);
    let (p5, conv2) = conv_loaded(p4, store, prefix + ".conv2"@);
    lemma_conv_loaded(p, store, prefix + ".conv1.0"@);
    lemma_bn_loaded(p1, t, prefix + ".conv1.1"@, half);
    lemma_conv_loaded(p2, store, prefix + ".fu.conv_layer"@);
    lemma_bn_loaded(p3, t, prefix + ".fu.bn"@, (2 * half) as usize);
    lemma_conv_loaded(p4, store, prefix + ".conv2"@);
    if ready(p) && q.cmds.len() <= usize::MAX && q.going() {
        assert(at(q).heap =~= at(p).heap.union(spectral_set(Some(sp))));
        assert(at(p).heap.disjoint(spectral_set(Some(sp))));
    }
}

/// The blocks that a block of the model owns.
pub open spec fn ffc_set(f: DFfc) -> Set<usize> {
    spectral_set(f.spectral).union(conv_set(f.l2l)).union(conv_set(f.l2g)).union(conv_set(f.g2l))
}

/// The parts of a block of the model own blocks of their own.
pub open spec fn ffc_apart(f: DFfc) -> bool {
    let (s, a, b, c) = (
        spectral_set(f.spectral),
        conv_set(f.l2l),
        conv_set(f.l2g),
        conv_set(f.g2l),
    );
    &&& spectral_apart(f.spectral)
    &&& s.disjoint(a) && s.disjoint(b) && s.disjoint(c)
    &&& a.disjoint(b) && a.disjoint(c) && b.disjoint(c)
}

pub(crate) proof fn lemma_conv_ref_loaded(p: Work, store: StoreView, ffc: Seq<char>, r: ConvRef)
    ensures
        ({
            let (q, cv) = conv_ref_loaded(p, store, ffc, r);
            &&& loads(p, q, conv_set(cv))
            &&& then_there(p, q, cv matches Some(cv) ==> conv_there(at(q), cv))
        }),
{
    match r {
        ConvRef::Absent => {
            assert(at(p).heap.union(Set::empty()) =~= at(p).heap);
        },
        ConvRef::Present { name } => lemma_conv_loaded(p, store, ffc + "."@ + name@),
    }
}

pub(crate) proof fn lemma_bn_if_loaded(p: Work, t: Table, on: bool, prefix: Seq<char>, channels: usize)
    ensures
        ({
            let (q, bn) = bn_if_loaded(p, t, on, prefix, channels);
            &&& loads(p, q, Set::empty())
            &&& then_there(p, q, bn matches Some(bn) ==> bn_there(at(q), bn))
        }),
{
    if on {
        lemma_bn_loaded(p, t, prefix, channels);
    } else {
        assert(at(p).heap.union(Set::empty()) =~= at(p).heap);
    }
}

#[verifier::rlimit(60)]
pub(crate) proof fn lemma_ffc_loaded(p: Work, store: StoreView, t: Table, b: FfcBlock)
    ensures
        ({
            let (q, f) = ffc_loaded(p, store, t, b);
            &&& loads(p, q, ffc_set(f))
            &&& then_there(p, q, ffc_there(at(q), f) && ffc_apart(f))
        }),
{
    reveal(ffc_loaded);
    let (q, f) = ffc_loaded(p, store, t, b);
    let own = crate::loader::block_name(b);
    let ffc = own + ".ffc"@;
    let (p1, spectral) = if b.g2g {
        let (q, sp) = spectral_loaded(p, store, t, ffc + ".convg2g"@, b.out_global, b.stride);
        (q, Some(sp))
    } else {
        (p, None)
    };
    if b.g2g {
        lemma_spectral_loaded(p, store, t, ffc + ".convg2g"@, b.out_global, b.stride);
    } else {
        assert(at(p).heap.union(Set::empty()) =~= at(p).heap);
    }
    assert(loads(p, p1, spectral_set(spectral)));
    let (p2, l2l) = conv_ref_loaded(p1, store, ffc, b.l2l);
    let (p3, l2g) = conv_ref_loaded(p2, store, ffc, b.l2g);
    let (p4, g2l) = conv_ref_loaded(p3, store, ffc, b.g2l);
    let (p5, bn_l) = bn_if_loaded(p4, t, b.bn_local, own + ".bn_l"@, b.out_local);
    lemma_conv_ref_loaded(p1, store, ffc, b.l2l);
    lemma_conv_ref_loaded(p2, store, ffc, b.l2g);
    lemma_conv_ref_loaded(p3, store, ffc, b.g2l);
    lemma_bn_if_loaded(p4, t, b.bn_local, own + ".bn_l"@, b.out_local);
    lemma_bn_if_loaded(p5, t, b.bn_global, own + ".bn_g"@, b.out_global);
    if ready(p) && q.cmds.len() <= usize::MAX && q.going() {
        assert(at(q).heap =~= at(p).heap.union(ffc_set(f)));
        assert(at(p).heap.disjoint(ffc_set(f)));
    }
}

/// The blocks that a transposed convolution owns.
pub open spec fn convt_set(cv: DConvT) -> Set<usize> {
    match cv.phases {
        Some(w) => dev_set(w.p00).union(dev_set(w.p01)).union(dev_set(w.p10)).union(
            dev_set(w.p11),
        ),
        None => Set::empty(),
    }
}

/// The phases of a transposed convolution own blocks of their own.
pub open spec fn convt_apart(cv: DConvT) -> bool {
    cv.phases matches Some(w) ==> {
        let (a, b, c, d) = (dev_set(w.p00), dev_set(w.p01), dev_set(w.p10), dev_set(w.p11));
        &&& a.disjoint(b) && a.disjoint(c) && a.disjoint(d)
        &&& b.disjoint(c) && b.disjoint(d) && c.disjoint(d)
    }
}

pub(crate) proof fn lemma_phase_loaded(p: Work, w: Seq<u32>, cin: usize, cout: usize, ph: nat)
    ensures
        ({
            let (q, d) = phase_loaded(p, w, cin, cout, ph);
            &&& loads(p, q, dev_set(d))
            &&& then_there(p, q, there(at(q), d.addr))
        }),
{
    let (q, d) = phase_loaded(p, w, cin, cout, ph);
    if phase_gathers(w, cin, cout, ph) {
        let m = phase_matrix(w, cin as int, cout as int, ph);
        lemma_upload(p, m);
        if ready(p) && q.cmds.len() <= usize::MAX && q.going() {
            assert(dev_set(d).contains(owned_id(d)->0));
        }
    } else {
        assert(at(q) == at(p));
    }
}

pub(crate) proof fn lemma_convt_loaded(p: Work, store: StoreView, prefix: Seq<char>)
    ensures
        ({
            let (q, cv) = convt_loaded(p, store, prefix);
            &&& loads(p, q, convt_set(cv))
            &&& then_there(p, q, convt_there(at(q), cv) && convt_apart(cv))
        }),
{
    reveal(convt_loaded);
    let (q, cv) = convt_loaded(p, store, prefix);
    let name = prefix + ".weight"@;
    if store.has(name) && store.tensor(name).shape.len() >= 2 {
        let shape = store.tensor(name).shape;
        let w = store.bits(name);
        let (cin, cout) = (shape[0], shape[1]);
        let (p1, p00) = phase_loaded(p, w, cin, cout, 0);
        let (p2, p01) = phase_loaded(p1, w, cin, cout, 1);
        let (p3, p10) = phase_loaded(p2, w, cin, cout, 2);
        let (p4, p11) = phase_loaded(p3, w, cin, cout, 3);
        let (p5, weight) = blob_tensor(p4, store, name);
        lemma_phase_loaded(p, w, cin, cout, 0);
        lemma_phase_loaded(p1, w, cin, cout, 1);
        lemma_phase_loaded(p2, w, cin, cout, 2);
        lemma_phase_loaded(p3, w, cin, cout, 3);
        lemma_blob_tensor(p4, store, name);
        lemma_blob_tensor(p5, store, prefix + ".bias"@);
        if ready(p) && q.cmds.len() <= usize::MAX && q.going() {
            assert(at(q).heap =~= at(p).heap.union(convt_set(cv)));
            assert(at(p).heap.disjoint(convt_set(cv)));
        }
    } else {
        assert(at(q) == at(p));
    }
}

/// The blocks that a step owns.
pub open spec fn step_set(s: DStep) -> Set<usize> {
    match s {
        DStep::Ffc(f) => ffc_set(f),
        DStep::Res(f, g) => ffc_set(f).union(ffc_set(g)),
        DStep::Upsample(cv, _) => convt_set(cv),
        DStep::OutConv(cv) => conv_set(Some(cv)),
        _ => Set::empty(),
    }
}

/// The parts of a step own blocks of their own.
pub open spec fn step_apart(s: DStep) -> bool {
    match s {
        DStep::Ffc(f) => ffc_apart(f),
        DStep::Res(f, g) => ffc_apart(f) && ffc_apart(g) && ffc_set(f).disjoint(ffc_set(g)),
        DStep::Upsample(cv, _) => convt_apart(cv),
        _ => true,
    }
}

/// Whether the weights of a step can be used.
pub open spec fn step_there(m: Mem, s: DStep) -> bool {
    match s {
        DStep::Ffc(f) => ffc_there(m, f),
        DStep::Res(f, g) => ffc_there(m, f) && ffc_there(m, g),
        DStep::Upsample(cv, bn) => convt_there(m, cv) && bn_there(m, bn),
        DStep::OutConv(cv) => conv_there(m, cv),
        _ => true,
    }
}

pub(crate) proof fn lemma_step_loaded(p: Work, store: StoreView, t: Table, s: Step)
    ensures
        ({
            let (q, d) = step_loaded(p, store, t, s);
            &&& loads(p, q, step_set(d))
            &&& then_there(p, q, step_there(at(q), d) && step_apart(d))
        }),
{
    reveal(step_loaded);
    let (q, d) = step_loaded(p, store, t, s);
    match s {
        Step::ReflectPad(_) | Step::Concat => {
            assert(at(p).heap.union(Set::empty()) =~= at(p).heap);
        },
        Step::Ffc(b) => lemma_ffc_loaded(p, store, t, b),
        Step::ResBlock(rb) => {
            let (p1, f1) = ffc_loaded(p, store, t, rb.conv1);
            let (p2, f2) = ffc_loaded(p1, store, t, rb.conv2);
            lemma_ffc_loaded(p, store, t, rb.conv1);
            lemma_ffc_loaded(p1, store, t, rb.conv2);
            if ready(p) && q.cmds.len() <= usize::MAX && q.going() {
                assert(at(q).heap =~= at(p).heap.union(step_set(d)));
                assert(at(p).heap.disjoint(step_set(d)));
                lemma_ffc_there(at(p1), at(p2), f1);
            }
        },
        Step::Upsample(u) => {
            let prefix = crate::loader::module_name(u.index);
            let (p1, cv) = convt_loaded(p, store, prefix);
            lemma_convt_loaded(p, store, prefix);
            lemma_bn_loaded(p1, t, crate::loader::module_name(u.bn_index), u.cout);
            if ready(p) && q.cmds.len() <= usize::MAX && q.going() {
                assert(at(q).heap =~= at(p).heap.union(step_set(d)));
            }
        },
        Step::OutConv(o) => lemma_conv_loaded(p, store, crate::loader::module_name(o.index)),
    }
}

proof fn lemma_ffc_there(m: Mem, n: Mem, f: DFfc)
    requires
        more(m, n),
        ffc_there(m, f),
    ensures
        ffc_there(n, f),
{
}

proof fn lemma_step_there(m: Mem, n: Mem, s: DStep)
    requires
        more(m, n),
        step_there(m, s),
    ensures
        step_there(n, s),
{
}

/// The blocks that steps own.
pub open spec fn steps_set(steps: Seq<DStep>) -> Set<usize>
    decreases steps.len(),
{
    if steps.len() == 0 {
        Set::empty()
    } else {
        steps_set(steps.drop_last()).union(step_set(steps.last()))
    }
}

/// The steps own blocks of their own.
pub open spec fn steps_apart(steps: Seq<DStep>) -> bool
    decreases steps.len(),
{
    steps.len() > 0 ==> {
        &&& steps_apart(steps.drop_last())
        &&& step_apart(steps.last())
        &&& steps_set(steps.drop_last()).disjoint(step_set(steps.last()))
    }
}

/// Whether the weights of all steps can be used.
pub open spec fn steps_there(m: Mem, steps: Seq<DStep>) -> bool {
    forall|i: int| 0 <= i < steps.len() ==> step_there(m, #[trigger] steps[i])
}

pub(crate) proof fn lemma_steps_loaded(p: Work, store: StoreView, t: Table, steps: Seq<Step>)
    ensures
        ({
            let (q, ds) = steps_loaded(p, store, t, steps);
            &&& loads(p, q, steps_set(ds)) || !q.going()
            &&& grows(p, q)
            &&& ready(p) && q.cmds.len() <= usize::MAX ==> ready(q)
            &&& then_there(p, q, steps_there(at(q), ds) && steps_apart(ds))
        }),
    decreases steps.len(),
{
    let (q, ds) = steps_loaded(p, store, t, steps);
    if steps.len() == 0 {
        assert(at(p).heap.union(Set::empty()) =~= at(p).heap);
    } else {
        let (a, done) = steps_loaded(p, store, t, steps.drop_last());
        lemma_steps_loaded(p, store, t, steps.drop_last());
        if a.going() {
            let (r, d) = step_loaded(a, store, t, steps.last());
            lemma_step_loaded(a, store, t, steps.last());
            assert(ds.drop_last() =~= done);
            assert(ds.last() == d);
            if ready(p) && q.cmds.len() <= usize::MAX && q.going() {
                assert(at(q).heap =~= at(p).heap.union(steps_set(ds)));
                assert(at(p).heap.disjoint(steps_set(ds)));
                assert forall|i: int| 0 <= i < ds.len() implies step_there(
                    at(q),
                    #[trigger] ds[i],
                ) by {
                    if i < done.len() {
                        assert(ds[i] == done[i]);
                        lemma_step_there(at(a), at(q), ds[i]);
                    }
                }
            }
        }
    }
}

// ---------------------------------------------------------------------------
// Steps
// ---------------------------------------------------------------------------

/// Where a pass goes on, the device holds `m`, which the weights take up, and the
/// activations, in blocks of their own; and the result has been copied to the host
/// where the pass says so.
pub open spec fn pass_ok(m: Mem, s: Pass) -> bool {
    let results = if s.done {
        m.results + 1
    } else {
        m.results
    };
    &&& sound(s.work)
    &&& s.work.going() ==> {
        &&& apart(m.heap, s.acts, s.global)
        &&& same_but_plans(
            Mem { results, ..m },
            at(s.work),
            two_more(m.heap, s.acts, s.global),
        )
    }
}

/// A step whose weights are there keeps a pass in order.
pub open spec fn step_ok(m: Mem, s: Pass, q: Pass, there: bool) -> bool {
    &&& grows(s.work, q.work)
    &&& there && !s.done && pass_ok(m, s) && q.work.cmds.len() <= usize::MAX ==> pass_ok(m, q)
}

proof fn lemma_op(p: Work, op: Op)
    ensures
        grows(p, op_begun(p)),
        grows(p, op_ended(p, op)),
        sound(p) ==> keeps(p, op_begun(p)) && keeps(p, op_ended(p, op)),
{
    let on = p.flags.profile_ops;
    if sound(p) {
        lemma_push_if(p, on, Cmd::Sync);
        lemma_push_if(p.sync_if(on), on, Cmd::OpBegin);
        lemma_push_if(p.sync_if(on), on, Cmd::OpEnd { op });
    }
}

proof fn lemma_pad_step(m: Mem, s: Pass, n: usize)
    ensures
        step_ok(m, s, pad_step(s, n), true),
{
    let b1 = op_begun(s.work);
    let (c1, acts) = padded(b1, s.acts, n);
    let e1 = op_ended(c1, Op::Pad);
    let p1 = e1.free(s.acts.buf);
    let bn = DBn { scale: s.acts.buf, shift: s.acts.buf, channels: 0 };
    lemma_op(s.work, Op::Pad);
    lemma_small_grow(b1, s.acts, s.acts, n, bn);
    lemma_op(c1, Op::Pad);
    let q = pad_step(s, n);
    match s.global {
        Some(g) => {
            let b2 = op_begun(p1);
            let (c2, g2) = padded(b2, g, n);
            let e2 = op_ended(c2, Op::Pad);
            lemma_op(p1, Op::Pad);
            lemma_small_grow(b2, g, g, n, bn);
            lemma_op(c2, Op::Pad);
            if !s.done && pass_ok(m, s) && q.work.cmds.len() <= usize::MAX {
                lemma_padded(b1, s.acts, n);
                lemma_free(e1, s.acts.buf);
                lemma_padded(b2, g, n);
                lemma_free(e2, g.buf);
                if q.work.going() {
                    assert(at(q.work).heap =~= two_more(m.heap, q.acts, q.global));
                }
            }
        },
        None => {
            if !s.done && pass_ok(m, s) && q.work.cmds.len() <= usize::MAX {
                lemma_padded(b1, s.acts, n);
                lemma_free(e1, s.acts.buf);
                if q.work.going() {
                    assert(at(q.work).heap =~= two_more(m.heap, q.acts, q.global));
                }
            }
        },
    }
}

proof fn lemma_free_acts(p: Work, a: Option<DActs>)
    ensures
        grows(p, p.free_acts(a)),
        sound(p) && (p.going() && a is Some && owned_id((a->0).buf) is Some ==> at(
            p,
        ).heap.contains(owned_id((a->0).buf)->0)) ==> {
            &&& sound(p.free_acts(a))
            &&& p.going() ==> same_but_plans(
                at(p),
                at(p.free_acts(a)),
                match a {
                    Some(a) => match owned_id(a.buf) {
                        Some(id) => at(p).heap.remove(id),
                        None => at(p).heap,
                    },
                    None => at(p).heap,
                },
            )
        },
{
    if let Some(a) = a {
        if sound(p) && (p.going() && owned_id(a.buf) is Some ==> at(p).heap.contains(
            owned_id(a.buf)->0,
        )) {
            lemma_free(p, a.buf);
        }
    }
}

proof fn lemma_ffc_step(m: Mem, s: Pass, f: DFfc)
    ensures
        step_ok(m, s, ffc_step(s, f), ffc_there(m, f)),
{
    let q = ffc_step(s, f);
    let b = op_begun(s.work);
    let r = ffc(b, f, s.acts, s.global, None, None);
    let e = op_ended(r.work, Op::Ffc);
    let f1 = e.free(s.acts.buf);
    lemma_op(s.work, Op::Ffc);
    lemma_ffc_grows(b, f, s.acts, s.global, None, None);
    lemma_op(r.work, Op::Ffc);
    lemma_free_acts(f1, s.global);
    if ffc_there(m, f) && !s.done && pass_ok(m, s) && q.work.cmds.len()
        <= usize::MAX {
        if b.going() {
            lemma_ffc_there(m, at(b), f);
        }
        lemma_ffc(b, f, s.acts, s.global, None, None);
        lemma_free(e, s.acts.buf);
        if q.work.going() {
            assert(at(q.work).heap =~= two_more(m.heap, q.acts, q.global));
        }
    }
}

proof fn lemma_res_step(m: Mem, s: Pass, f1: DFfc, f2: DFfc)
    ensures
        step_ok(m, s, res_step(s, f1, f2), (ffc_there(m, f1) && ffc_there(m, f2))),
{
    let q = res_step(s, f1, f2);
    let b1 = op_begun(s.work);
    let r1 = ffc(b1, f1, s.acts, s.global, None, None);
    let e1 = op_ended(r1.work, Op::ResA);
    let b2 = op_begun(e1);
    let r2 = ffc(b2, f2, r1.local, r1.global, Some(s.acts), s.global);
    let e2 = op_ended(r2.work, Op::ResB);
    let g1 = e2.free(s.acts.buf);
    let g2 = g1.free_acts(s.global);
    let g3 = g2.free_acts(r1.global);
    lemma_op(s.work, Op::ResA);
    lemma_ffc_grows(b1, f1, s.acts, s.global, None, None);
    lemma_op(r1.work, Op::ResA);
    lemma_op(e1, Op::ResB);
    lemma_ffc_grows(b2, f2, r1.local, r1.global, Some(s.acts), s.global);
    lemma_op(r2.work, Op::ResB);
    lemma_free_acts(g1, s.global);
    lemma_free_acts(g2, r1.global);
    if (ffc_there(m, f1) && ffc_there(m, f2)) && !s.done && pass_ok(m, s) && q.work.cmds.len()
        <= usize::MAX {
        if b1.going() {
            lemma_ffc_there(m, at(b1), f1);
        }
        lemma_ffc(b1, f1, s.acts, s.global, None, None);
        if b2.going() {
            lemma_ffc_there(m, at(b2), f2);
        }
        lemma_ffc(b2, f2, r1.local, r1.global, Some(s.acts), s.global);
        lemma_free(e2, s.acts.buf);
        lemma_free(g3, r1.local.buf);
        if q.work.going() {
            assert(at(q.work).heap =~= two_more(m.heap, q.acts, q.global));
        }
    }
}

proof fn lemma_concat_step(m: Mem, s: Pass)
    ensures
        step_ok(m, s, concat_step(s), true),
{
    let q = concat_step(s);
    match s.global {
        Some(g) => {
            let (p, acts) = concatenated(s.work, s.acts, g);
            let f1 = p.free(s.acts.buf);
            let bn = DBn { scale: s.acts.buf, shift: s.acts.buf, channels: 0 };
            lemma_small_grow(s.work, s.acts, g, 0, bn);
            if !s.done && pass_ok(m, s) && q.work.cmds.len() <= usize::MAX {
                lemma_concatenated(s.work, s.acts, g);
                lemma_free(p, s.acts.buf);
                lemma_free(f1, g.buf);
                if q.work.going() {
                    assert(at(q.work).heap =~= two_more(m.heap, q.acts, q.global));
                }
            }
        },
        None => {
            assert(at(q.work) == at(s.work));
        },
    }
}

proof fn lemma_upsample_step(m: Mem, s: Pass, cv: DConvT, bn: DBn)
    ensures
        step_ok(m, s, upsample_step(s, cv, bn), (convt_there(m, cv) && bn_there(m, bn))),
{
    let q = upsample_step(s, cv, bn);
    let b = op_begun(s.work);
    let (p, up) = upsampled(b, cv, s.acts);
    let e = op_ended(p, Op::Upsample);
    let n = bn_relu(e, up, bn);
    let f1 = n.free(s.acts.buf);
    lemma_op(s.work, Op::Upsample);
    lemma_upsampled_grows(b, cv, s.acts);
    lemma_op(p, Op::Upsample);
    lemma_small_grow(e, up, up, 0, bn);
    lemma_free_acts(f1, s.global);
    if (convt_there(m, cv) && bn_there(m, bn)) && !s.done && pass_ok(m, s) && q.work.cmds.len()
        <= usize::MAX {
        lemma_upsampled(b, cv, s.acts);
        lemma_bn_relu(e, up, bn);
        lemma_free(n, s.acts.buf);
        if q.work.going() {
            assert(at(q.work).heap =~= two_more(m.heap, q.acts, q.global));
        }
    }
}

proof fn lemma_out_step(m: Mem, s: Pass, cv: DConv)
    ensures
        step_ok(m, s, out_step(s, cv), conv_there(m, cv)),
{
    let q = out_step(s, cv);
    let on = s.work.flags.profile;
    let b = op_begun(s.work);
    let (p, out) = conv(b, cv, s.acts, 0, 1, false);
    let e = op_ended(p, Op::OutConv);
    let g = sigmoid(e, out);
    let a1 = g.push(Cmd::Sync);
    let a2 = a1.push_if(on, Cmd::NoteLoop);
    let a3 = a2.push(Cmd::Download { src: out.buf });
    let a4 = a3.push_if(on, Cmd::NoteResult { floats: out.buf.len });
    lemma_op(s.work, Op::OutConv);
    lemma_conv_grows(b, cv, s.acts, 0, 1, false);
    lemma_op(p, Op::OutConv);
    if conv_there(m, cv) && !s.done && pass_ok(m, s) && q.work.cmds.len()
        <= usize::MAX {
        lemma_conv(b, cv, s.acts, 0, 1, false);
        lemma_sigmoid(e, out);
        lemma_push(g, Cmd::Sync);
        lemma_push_if(a1, on, Cmd::NoteLoop);
        lemma_push(a2, Cmd::Download { src: out.buf });
        lemma_push_if(a3, on, Cmd::NoteResult { floats: out.buf.len });
        lemma_free(a4, out.buf);
        if q.work.going() {
            assert(at(q.work).heap =~= two_more(m.heap, q.acts, q.global));
        }
    }
}

proof fn lemma_after_step(m: Mem, s: Pass, no: usize)
    ensures
        step_ok(m, s, after_step(s, no), true),
{
    let f = s.work.flags;
    let dump = f.dump_after == Some(no);
    let cmd = Cmd::Dump { step: no, local: s.acts, global: s.global };
    let note = Cmd::NoteStep {
        step: no,
        local: crate::engine::shape_of(s.acts),
        global: crate::engine::shape_in(s.global),
    };
    let a1 = s.work.sync_if(dump);
    let a2 = a1.push_if(dump, cmd);
    let a3 = a2.sync_if(f.profile_sync);
    if pass_ok(m, s) {
        lemma_push_if(s.work, dump, Cmd::Sync);
        lemma_push_if(a1, dump, cmd);
        lemma_push_if(a2, f.profile_sync, Cmd::Sync);
        lemma_push_if(a3, f.profile, note);
    }
}

pub(crate) proof fn lemma_step_taken(m: Mem, s: Pass, step: DStep, no: usize)
    ensures
        step_ok(m, s, step_taken(s, step, no), step_there(m, step)),
{
    reveal(step_taken);
    match step {
        DStep::ReflectPad(n) => {
            lemma_pad_step(m, s, n);
            lemma_after_step(m, pad_step(s, n), no);
        },
        DStep::Ffc(f) => {
            lemma_ffc_step(m, s, f);
            lemma_after_step(m, ffc_step(s, f), no);
        },
        DStep::Res(f1, f2) => {
            lemma_res_step(m, s, f1, f2);
            lemma_after_step(m, res_step(s, f1, f2), no);
        },
        DStep::Concat => {
            lemma_concat_step(m, s);
            lemma_after_step(m, concat_step(s), no);
        },
        DStep::Upsample(cv, bn) => {
            lemma_upsample_step(m, s, cv, bn);
            lemma_after_step(m, upsample_step(s, cv, bn), no);
        },
        DStep::OutConv(cv) => lemma_out_step(m, s, cv),
    }
}

pub(crate) proof fn lemma_steps_taken(m: Mem, s: Pass, steps: Seq<DStep>)
    ensures
        step_ok(m, s, steps_taken(s, steps), steps_there(m, steps)),
    decreases steps.len(),
{
    if steps.len() > 0 {
        let before = steps.drop_last();
        lemma_steps_taken(m, s, before);
        let q = steps_taken(s, before);
        if steps_there(m, steps) {
            assert forall|i: int| 0 <= i < before.len() implies step_there(
                m,
                #[trigger] before[i],
            ) by {
                assert(before[i] == steps[i]);
            }
            assert(step_there(m, steps[steps.len() - 1]));
        }
        if !q.done && q.work.going() {
            lemma_step_taken(m, q, steps.last(), (steps.len() - 1) as usize);
        }
    }
}

// ---------------------------------------------------------------------------
// The end
// ---------------------------------------------------------------------------

/// From `p` to `q` exactly the blocks `s` are given up.
pub open spec fn frees(p: Work, q: Work, s: Set<usize>) -> bool {
    &&& grows(p, q)
    &&& q.going() == p.going()
    &&& !p.going() ==> q == p
    &&& sound(p) && (p.going() ==> s.subset_of(at(p).heap)) ==> {
        &&& sound(q)
        &&& p.going() ==> at(q).heap == at(p).heap.difference(s)
        &&& p.going() ==> at(q).results == at(p).results
    }
}

proof fn lemma_dev_freed(p: Work, d: Dev)
    ensures
        frees(p, p.free(d), dev_set(d)),
{
    if sound(p) && (p.going() ==> dev_set(d).subset_of(at(p).heap)) {
        if owned_id(d) is Some {
            assert(dev_set(d).contains(owned_id(d)->0));
        }
        lemma_free(p, d);
        if p.going() {
            assert(at(p.free(d)).heap =~= at(p).heap.difference(dev_set(d)));
        }
    }
}

proof fn lemma_conv_freed(p: Work, cv: Option<DConv>)
    ensures
        frees(p, conv_freed(p, cv), conv_set(cv)),
{
    if cv is Some && (cv->0).w_t is Some {
        lemma_dev_freed(p, (cv->0).w_t->0);
    } else {
        assert(at(p).heap.difference(Set::empty()) =~= at(p).heap);
    }
}

proof fn lemma_frees_both(p: Work, q: Work, r: Work, s: Set<usize>, t: Set<usize>)
    requires
        frees(p, q, s),
        frees(q, r, t),
        s.disjoint(t),
    ensures
        frees(p, r, s.union(t)),
{
    if sound(p) && (p.going() ==> s.union(t).subset_of(at(p).heap)) {
        if p.going() {
            assert(s.subset_of(at(p).heap));
            if q.going() {
                assert(t.subset_of(at(q).heap));
                assert(at(r).heap =~= at(p).heap.difference(s.union(t)));
            }
        }
    }
}

proof fn lemma_ffc_freed(p: Work, f: DFfc)
    requires
        ffc_apart(f),
    ensures
        frees(p, ffc_freed(p, f), ffc_set(f)),
{
    reveal(ffc_freed);
    let p1 = conv_freed(p, f.l2l);
    let p2 = conv_freed(p1, f.l2g);
    let p3 = conv_freed(p2, f.g2l);
    lemma_conv_freed(p, f.l2l);
    lemma_conv_freed(p1, f.l2g);
    lemma_conv_freed(p2, f.g2l);
    let (a, b, c) = (conv_set(f.l2l), conv_set(f.l2g), conv_set(f.g2l));
    lemma_frees_both(p, p1, p2, a, b);
    lemma_frees_both(p, p2, p3, a.union(b), c);
    let abc = a.union(b).union(c);
    match f.spectral {
        Some(sp) => {
            let (x, y, z) = (
                conv_set(Some(sp.conv1)),
                conv_set(Some(sp.fu_conv)),
                conv_set(Some(sp.conv2)),
            );
            let p4 = conv_freed(p3, Some(sp.conv1));
            let p5 = conv_freed(p4, Some(sp.fu_conv));
            let p6 = conv_freed(p5, Some(sp.conv2));
            lemma_conv_freed(p3, Some(sp.conv1));
            lemma_conv_freed(p4, Some(sp.fu_conv));
            lemma_conv_freed(p5, Some(sp.conv2));
            lemma_frees_both(p3, p4, p5, x, y);
            lemma_frees_both(p3, p5, p6, x.union(y), z);
            lemma_frees_both(p, p3, p6, abc, x.union(y).union(z));
            assert(abc.union(x.union(y).union(z)) =~= ffc_set(f));
        },
        None => {
            assert(abc =~= ffc_set(f));
        },
    }
}

proof fn lemma_step_freed(p: Work, s: DStep)
    requires
        step_apart(s),
    ensures
        frees(p, step_freed(p, s), step_set(s)),
{
    match s {
        DStep::Ffc(f) => lemma_ffc_freed(p, f),
        DStep::Res(f, g) => {
            lemma_ffc_freed(p, f);
            lemma_ffc_freed(ffc_freed(p, f), g);
            lemma_frees_both(
                p,
                ffc_freed(p, f),
                ffc_freed(ffc_freed(p, f), g),
                ffc_set(f),
                ffc_set(g),
            );
        },
        DStep::Upsample(cv, _) => match cv.phases {
            Some(w) => {
                let (a, b, c, d) = (
                    dev_set(w.p00),
                    dev_set(w.p01),
                    dev_set(w.p10),
                    dev_set(w.p11),
                );
                let p1 = p.free(w.p00);
                let p2 = p1.free(w.p01);
                let p3 = p2.free(w.p10);
                let p4 = p3.free(w.p11);
                lemma_dev_freed(p, w.p00);
                lemma_dev_freed(p1, w.p01);
                lemma_dev_freed(p2, w.p10);
                lemma_dev_freed(p3, w.p11);
                lemma_frees_both(p, p1, p2, a, b);
                lemma_frees_both(p, p2, p3, a.union(b), c);
                lemma_frees_both(p, p3, p4, a.union(b).union(c), d);
            },
            None => {
                assert(at(p).heap.difference(Set::empty()) =~= at(p).heap);
            },
        },
        DStep::OutConv(cv) => lemma_conv_freed(p, Some(cv)),
        _ => {
            assert(at(p).heap.difference(Set::empty()) =~= at(p).heap);
        },
    }
}

proof fn lemma_steps_freed(p: Work, steps: Seq<DStep>)
    requires
        steps_apart(steps),
    ensures
        frees(p, steps_freed(p, steps), steps_set(steps)),
    decreases steps.len(),
{
    if steps.len() > 0 {
        let q = steps_freed(p, steps.drop_last());
        lemma_steps_freed(p, steps.drop_last());
        lemma_step_freed(q, steps.last());
        lemma_frees_both(
            p,
            q,
            steps_freed(p, steps),
            steps_set(steps.drop_last()),
            step_set(steps.last()),
        );
    } else {
        assert(at(p).heap.difference(Set::empty()) =~= at(p).heap);
    }
}

proof fn lemma_finished(m: Mem, s: Pass, steps: Seq<DStep>)
    requires
        steps_apart(steps),
        m.heap == steps_set(steps),
    ensures
        grows(s.work, finished(s, steps)),
        pass_ok(m, s) && finished(s, steps).cmds.len() <= usize::MAX ==> {
            &&& sound(finished(s, steps))
            &&& finished(s, steps).going() ==> {
                &&& at(finished(s, steps)).heap == Set::<usize>::empty()
                &&& at(finished(s, steps)).results == m.results + 1
            }
        },
{
    let q = finished(s, steps);
    let p = if s.done {
        s.work
    } else {
        s.work.push(Cmd::Sync).push(Cmd::Download { src: s.acts.buf })
    };
    let f1 = p.free_acts(s.global);
    let f2 = f1.free(s.acts.buf);
    lemma_free_acts(p, s.global);
    lemma_steps_freed(f2, steps);
    if pass_ok(m, s) && q.cmds.len() <= usize::MAX {
        if !s.done {
            lemma_push(s.work, Cmd::Sync);
            lemma_push(s.work.push(Cmd::Sync), Cmd::Download { src: s.acts.buf });
        }
        lemma_free(f1, s.acts.buf);
        if p.going() {
            assert(at(f2).heap =~= steps_set(steps));
        }
        if q.going() {
            assert(at(q).heap =~= Set::<usize>::empty());
        }
    }
}

proof fn lemma_pass(p: Work, steps: Seq<DStep>, len: usize, h: usize, w: usize)
    requires
        sound(p),
        p.going() ==> {
            &&& steps_there(at(p), steps)
            &&& steps_apart(steps)
            &&& at(p).heap == steps_set(steps)
        },
        pass(p, steps, len, h, w).cmds.len() <= usize::MAX,
    ensures
        safe(pass(p, steps, len, h, w).cmds),
        pass(p, steps, len, h, w).going() ==> {
            &&& at(pass(p, steps, len, h, w)).heap == Set::<usize>::empty()
            &&& at(pass(p, steps, len, h, w)).results == at(p).results + 1
        },
{
    let q = pass(p, steps, len, h, w);
    let a = p.push_if(p.flags.profile, Cmd::NoteLoaded);
    let (b, acts) = input_there(a, len, h, w);
    let start = Pass { work: b, acts, global: None, done: false };
    if !p.going() {
        assert(a == p);
        assert(b == p);
        lemma_stays(start, steps);
        lemma_freed_stays(p, steps);
        assert(q == p);
    } else {
        let buf = a.fresh(len);
        let b1 = a.allocate(len as int);
        let input = Cmd::Input { to: buf.addr, floats: len };
        let b2 = b1.push_if(len > 0, input);
        let b3 = b2.sync_if(a.flags.profile);
        let taken = steps_taken(start, steps);
        lemma_steps_taken(at(p), start, steps);
        lemma_finished(at(p), taken, steps);
        assert(grows(b, q));
        lemma_push_if(p, p.flags.profile, Cmd::NoteLoaded);
        lemma_allocate(a, len as int);
        lemma_push_if(b1, len > 0, input);
        lemma_push_if(b2, a.flags.profile, Cmd::Sync);
        lemma_push_if(b3, a.flags.profile, Cmd::NoteUploaded);
        if b.going() {
            assert(at(b).heap =~= two_more(at(p).heap, acts, None));
        }
        assert(pass_ok(at(p), start));
    }
}

proof fn lemma_stays(s: Pass, steps: Seq<DStep>)
    requires
        !s.work.going(),
    ensures
        steps_taken(s, steps) == s,
    decreases steps.len(),
{
    if steps.len() > 0 {
        lemma_stays(s, steps.drop_last());
    }
}

/// A program uses a buffer only while it is allocated, the weights only once they
/// are on the device, where it copies them once at most, and a transform only after
/// its plan, whatever the model, the weights and the switches; and where it was
/// recorded to its end, it copies one result to the host and gives back every block
/// that it takes.
pub proof fn program_is_safe(
    store: StoreView,
    steps: Seq<Step>,
    folds: Seq<Fold>,
    flags: Flags,
    len: usize,
    h: usize,
    w: usize,
)
    requires
        program(store, steps, folds, flags, len, h, w).cmds.len() <= usize::MAX,
    ensures
        safe(program(store, steps, folds, flags, len, h, w).cmds),
        program(store, steps, folds, flags, len, h, w).going() ==> {
            let m = mem(program(store, steps, folds, flags, len, h, w).cmds);
            m.heap == Set::<usize>::empty() && m.results == 1
        },
{
    let start = Work {
        cmds: Seq::empty(),
        data: Seq::empty(),
        blob: false,
        staged: false,
        stop: None,
        flags,
    };
    let t = bn_table(store, folds);
    let (p, loaded) = steps_loaded(start, store, t, steps);
    lemma_steps_loaded(start, store, t, steps);
    lemma_pass_grows(p, loaded, len, h, w);
    assert(ready(start));
    if p.going() {
        assert(at(p).heap =~= steps_set(loaded));
    }
    lemma_pass(p, loaded, len, h, w);
}

pub(crate) proof fn lemma_pass_grows(p: Work, steps: Seq<DStep>, len: usize, h: usize, w: usize)
    ensures
        grows(p, pass(p, steps, len, h, w)),
{
    let a = p.push_if(p.flags.profile, Cmd::NoteLoaded);
    let (b, acts) = input_there(a, len, h, w);
    let start = Pass { work: b, acts, global: None, done: false };
    let s = steps_taken(start, steps);
    lemma_steps_taken(at(p), start, steps);
    let q = if s.done {
        s.work
    } else {
        s.work.push(Cmd::Sync).push(Cmd::Download { src: s.acts.buf })
    };
    lemma_free_acts(q, s.global);
    lemma_freed_stays(q.free_acts(s.global).free(s.acts.buf), steps);
}

proof fn lemma_ffc_freed_stays(p: Work, f: DFfc)
    ensures
        grows(p, ffc_freed(p, f)),
        !p.going() ==> ffc_freed(p, f) == p,
{
    reveal(ffc_freed);
}

pub(crate) proof fn lemma_freed_stays(p: Work, steps: Seq<DStep>)
    ensures
        grows(p, steps_freed(p, steps)),
        !p.going() ==> steps_freed(p, steps) == p,
    decreases steps.len(),
{
    if steps.len() > 0 {
        let q = steps_freed(p, steps.drop_last());
        lemma_freed_stays(p, steps.drop_last());
        match steps.last() {
            DStep::Ffc(f) => lemma_ffc_freed_stays(q, f),
            DStep::Res(f, g) => {
                lemma_ffc_freed_stays(q, f);
                lemma_ffc_freed_stays(ffc_freed(q, f), g);
            },
            _ => {},
        }
    }
}

} // verus!
