//! Where loaded weights lie: inside the copy of the blob, among the staged tensors, or
//! in blocks of their own; and what follows for a whole program.

use vstd::prelude::*;

use crate::bounds::{pass_start, pass_stays_within, step_ready, steps_fit, steps_ready};
use crate::cuda::{Cmd, Flags, Work};
use crate::engine::{pass, program};
use crate::extents::{
    bn_ready, conv_ready, convt_ready, ffc_ready, holds, inside, lemma_both, lemma_carry,
    lemma_inside_grows, lemma_self, spectral_ready, stays_within, Room,
};
use crate::layout::{phase_matrix, swapped};
use crate::lifetime::{
    lemma_bn_if_loaded, lemma_bn_loaded, lemma_conv_loaded, lemma_conv_ref_loaded,
    lemma_ffc_loaded, lemma_pass_grows, lemma_phase_loaded, lemma_step_loaded,
};
use crate::loader::{
    blob_tensor, blob_there, block_name, bn_if_loaded, bn_loaded, bn_table, committed, conv_bias,
    conv_loaded, conv_ref_loaded, conv_swapped, convt_loaded, ffc_loaded, folds_read_back, last_index,
    module_name, phase_loaded, spectral_loaded, step_loaded, steps_loaded, DStep, Fold,
    Table,
};
use crate::model::{ConvRef, FfcBlock, Step};
use crate::ops::{tap_count, DConv, DFfc};
use crate::safety::grows;
use crate::weights::{shape_product, StoreView, WeightStore};

verus! {

broadcast use crate::cuda::group_work;

/// Whether every tensor of a store lies in its bytes, at four bytes a value.
pub open spec fn store_whole(store: StoreView) -> bool {
    forall|name: Seq<char>| #[trigger]
        store.has(name) ==> {
            let t = store.tensor(name);
            t.offset + t.nbytes <= store.bytes.len() && t.nbytes == shape_product(t.shape) * 4
        }
}

/// A valid store is whole.
pub proof fn valid_store_is_whole(store: &WeightStore)
    requires
        store.valid(),
    ensures
        store_whole(store@),
{
    assert forall|name: Seq<char>| #[trigger] store@.has(name) implies {
        let t = store@.tensor(name);
        t.offset + t.nbytes <= store@.bytes.len() && t.nbytes == shape_product(t.shape) * 4
    } by {
        store.tensor_inside(name);
    }
}

/// The room that the weights of a store take on the device.
pub open spec fn room_of(store: StoreView, t: Table) -> Room {
    Room { blob: store.bytes.len() as int, staging: 4 * t.packed.host.len() as int }
}

/// Whether a table has two records a module, each inside the packed floats.
pub open spec fn table_sound(t: Table) -> bool {
    t.stop is None ==> t.packed.sound() && t.packed.records.len() == 2 * t.names.len()
}

/// Whether a convolution has as many weights as its extents say.
pub open spec fn conv_sized(cv: DConv) -> bool {
    &&& cv.w.len == cv.cout * (cv.cin * cv.kh * cv.kw)
    &&& (cv.w_t matches Some(t) ==> t.len == cv.cin * cv.cout * 49)
}

pub open spec fn conv_sized_if(cv: Option<DConv>) -> bool {
    cv matches Some(cv) ==> conv_sized(cv)
}

/// Whether the convolutions of a layer have as many weights as their extents say.
pub open spec fn ffc_sized(f: DFfc) -> bool {
    &&& conv_sized_if(f.l2l)
    &&& conv_sized_if(f.l2g)
    &&& conv_sized_if(f.g2l)
    &&& (f.spectral matches Some(sp) ==> conv_sized(sp.conv1) && conv_sized(sp.fu_conv)
        && conv_sized(sp.conv2))
}

/// Whether the convolutions of a step have as many weights as their extents say.
pub open spec fn step_sized(s: DStep) -> bool {
    match s {
        DStep::Ffc(f) => ffc_sized(f),
        DStep::Res(f, g) => ffc_sized(f) && ffc_sized(g),
        DStep::Upsample(cv, _) => cv.w.len == cv.cin * cv.cout * (3 * 3) && cv.bias.len == cv.cout,
        DStep::OutConv(cv) => conv_sized(cv),
        _ => true,
    }
}

/// From `p` to `q` everything stays within its blocks, and where loading goes on, what
/// was loaded is `there`.
spec fn puts(room: Room, p: Work, q: Work, there: bool) -> bool {
    stays_within(room, p, q) && (q.going() ==> there)
}

proof fn lemma_upload(room: Room, p: Work, bits: Seq<u32>)
    requires
        p.upload(bits).cmds.len() <= usize::MAX,
    ensures
        stays_within(room, p, p.upload(bits)),
        p.upload(bits).going() ==> bits.len() <= usize::MAX && inside(
            room,
            p.upload(bits).cmds,
            p.fresh(bits.len() as usize).addr,
            bits.len() as int,
        ),
{
    broadcast use crate::extents::group_within;

    lemma_self(room, p);
    let n = bits.len() as int;
    let a = p.allocate(n);
    let d = p.fresh(n as usize);
    assert(stays_within(room, p, a));
    if a.going() && n > 0 {
        let cmd = Cmd::Upload { to: d.addr, from: a.data.len() as usize, floats: n as usize };
        let b = a.push(cmd);
        assert(inside(room, a.cmds, d.addr, n));
        assert(stays_within(room, p, b));
        assert(inside(room, b.cmds, d.addr, n));
        assert(p.upload(bits).cmds == b.cmds);
    }
}

proof fn lemma_blob_there(room: Room, p: Work, len: nat)
    ensures
        stays_within(room, p, blob_there(p, len)),
{
    broadcast use crate::extents::group_within;

    lemma_self(room, p);
    let a = Cmd::BlobMalloc { floats: ((len + 3) / 4) as usize };
    let b = Cmd::BlobCopy { bytes: len as usize };
    assert(stays_within(room, p, p.push(a).push(b)));
    let q = blob_there(p, len);
    if !p.blob && p.going() && len + 3 <= usize::MAX {
        assert(q.cmds == p.push(a).push(b).cmds);
    }
}

proof fn lemma_blob_tensor(store: StoreView, t: Table, p: Work, name: Seq<char>)
    requires
        store_whole(store),
    ensures
        ({
            let room = room_of(store, t);
            let (q, d) = blob_tensor(p, store, name);
            puts(
                room,
                p,
                q,
                inside(room, q.cmds, d.addr, d.len as int) && d.len == shape_product(
                    store.tensor(name).shape,
                ),
            )
        }),
{
    broadcast use crate::extents::group_within;

    let room = room_of(store, t);
    lemma_self(room, p);
    lemma_blob_there(room, p, store.bytes.len());
}

proof fn lemma_conv(store: StoreView, t: Table, p: Work, prefix: Seq<char>)
    requires
        store_whole(store),
        conv_loaded(p, store, prefix).0.cmds.len() <= usize::MAX,
    ensures
        ({
            let room = room_of(store, t);
            let (q, cv) = conv_loaded(p, store, prefix);
            puts(room, p, q, conv_sized(cv) ==> conv_ready(room, q.cmds, cv))
        }),
{
    reveal(conv_loaded);
    let room = room_of(store, t);
    let name = prefix + ".weight"@;
    let (q, cv) = conv_loaded(p, store, prefix);
    lemma_self(room, p);
    if store.has(name) && store.tensor(name).shape.len() >= 4 {
        let shape = store.tensor(name).shape;
        let (p1, w) = blob_tensor(p, store, name);
        let (p2, bias) = conv_bias(p1, store, prefix, shape[0]);
        lemma_blob_tensor(store, t, p, name);
        lemma_blob_tensor(store, t, p1, prefix + ".bias"@);
        lemma_self(room, p1);
        assert(stays_within(room, p1, p2));
        lemma_both(room, p, p1, p2);
        let (p3, w_t) = conv_swapped(p2, store, name, shape[0], shape[1], shape[2], shape[3]);
        let bits = swapped(store.bits(name), shape[0] as int, shape[1] as int, 49);
        lemma_self(room, p2);
        if shape[2] == 7 && shape[3] == 7 && shape[0] <= 8 && shape[1] * shape[0] * 49
            <= store.bits(name).len() {
            lemma_upload(room, p2, bits);
            assert(p3 == p2.upload(bits));
        }
        assert(stays_within(room, p2, p3)) by {
            broadcast use crate::extents::group_within;

        }
        lemma_both(room, p, p2, p3);
        lemma_inside_grows(room, p1.cmds, p2.cmds);
        lemma_inside_grows(room, p2.cmds, p3.cmds);
    } else {
        assert(q.cmds == p.cmds && !q.going());
        assert(stays_within(room, p, q));
    }
}

proof fn lemma_last_index(names: Seq<Seq<char>>, x: Seq<char>)
    ensures
        last_index(names, x) matches Some(i) ==> 0 <= i < names.len(),
    decreases names.len(),
{
    if names.len() > 0 {
        lemma_last_index(names.drop_last(), x);
    }
}

proof fn lemma_committed(room: Room, p: Work, t: Table)
    ensures
        stays_within(room, p, committed(p, t)),
{
    broadcast use crate::extents::group_within;

    lemma_self(room, p);
    let n = t.packed.host.len() as usize;
    let a = p.push(Cmd::StageMalloc { floats: n });
    let copy = Cmd::StageCopy { from: a.data.len() as usize, floats: n };
    assert(stays_within(room, p, a));
    assert(stays_within(room, p, a.push_if(n > 0, copy)));
    if t.stop is None && !p.staged && p.going() {
        assert(committed(p, t).cmds == a.push_if(n > 0, copy).cmds);
    }
}

proof fn lemma_bn(store: StoreView, t: Table, p: Work, prefix: Seq<char>, channels: usize)
    requires
        table_sound(t),
    ensures
        ({
            let room = room_of(store, t);
            let (q, bn) = bn_loaded(p, t, prefix, channels);
            puts(room, p, q, bn_ready(room, q.cmds, bn))
        }),
{
    reveal(bn_loaded);
    let room = room_of(store, t);
    lemma_committed(room, p, t);
    lemma_last_index(t.names, prefix);
    let a = committed(p, t);
    let (q, bn) = bn_loaded(p, t, prefix, channels);
    assert(q.cmds == a.cmds);
    if q.going() {
        let i = last_index(t.names, prefix)->0;
        assert(t.stop is None);
        assert(t.packed.records[2 * i].offset % 16 == 0);
        assert(t.packed.records[2 * i + 1].offset % 16 == 0);
    }
}

proof fn lemma_spectral(
    store: StoreView,
    t: Table,
    p: Work,
    prefix: Seq<char>,
    out_global: usize,
    stride: usize,
)
    requires
        store_whole(store),
        table_sound(t),
        spectral_loaded(p, store, t, prefix, out_global, stride).0.cmds.len() <= usize::MAX,
    ensures
        ({
            let room = room_of(store, t);
            let (q, sp) = spectral_loaded(p, store, t, prefix, out_global, stride);
            puts(
                room,
                p,
                q,
                conv_sized(sp.conv1) && conv_sized(sp.fu_conv) && conv_sized(sp.conv2)
                    ==> spectral_ready(room, q.cmds, sp),
            )
        }),
{
    reveal(spectral_loaded);
    let room = room_of(store, t);
    let half = out_global / 2;
    let (p1, conv1) = conv_loaded(p, store, prefix + ".conv1.0"@);
    let (p2, bn1) = bn_loaded(p1, t, prefix + ".conv1.1"@, half);
    let (p3, fu_conv) = conv_loaded(p2, store, prefix + ".fu.conv_layer"@);
    let (p4, fu_bn) = bn_loaded(p3, t, prefix + ".fu.bn"@, (2 * half) as usize);
    let (p5, conv2) = conv_loaded(p4, store, prefix + ".conv2"@);
    lemma_conv_loaded(p, store, prefix + ".conv1.0"@);
    lemma_bn_loaded(p1, t, prefix + ".conv1.1"@, half);
    lemma_conv_loaded(p2, store, prefix + ".fu.conv_layer"@);
    lemma_bn_loaded(p3, t, prefix + ".fu.bn"@, (2 * half) as usize);
    lemma_conv_loaded(p4, store, prefix + ".conv2"@);
    lemma_conv(store, t, p, prefix + ".conv1.0"@);
    lemma_bn(store, t, p1, prefix + ".conv1.1"@, half);
    lemma_conv(store, t, p2, prefix + ".fu.conv_layer"@);
    lemma_bn(store, t, p3, prefix + ".fu.bn"@, (2 * half) as usize);
    lemma_conv(store, t, p4, prefix + ".conv2"@);
    lemma_both(room, p, p1, p2);
    lemma_both(room, p, p2, p3);
    lemma_both(room, p, p3, p4);
    lemma_both(room, p, p4, p5);
    lemma_carry(room, p1, p2);
    lemma_carry(room, p2, p3);
    lemma_carry(room, p3, p4);
    lemma_carry(room, p4, p5);
}

proof fn lemma_conv_ref(store: StoreView, t: Table, p: Work, ffc: Seq<char>, r: ConvRef)
    requires
        store_whole(store),
        conv_ref_loaded(p, store, ffc, r).0.cmds.len() <= usize::MAX,
    ensures
        ({
            let room = room_of(store, t);
            let (q, cv) = conv_ref_loaded(p, store, ffc, r);
            puts(
                room,
                p,
                q,
                cv matches Some(cv) ==> conv_sized(cv) ==> conv_ready(room, q.cmds, cv),
            )
        }),
{
    lemma_self(room_of(store, t), p);
    if let ConvRef::Present { name } = r {
        lemma_conv(store, t, p, ffc + "."@ + name@);
    }
}

proof fn lemma_bn_if(
    store: StoreView,
    t: Table,
    p: Work,
    on: bool,
    prefix: Seq<char>,
    channels: usize,
)
    requires
        table_sound(t),
    ensures
        ({
            let room = room_of(store, t);
            let (q, bn) = bn_if_loaded(p, t, on, prefix, channels);
            puts(room, p, q, bn matches Some(bn) ==> bn_ready(room, q.cmds, bn))
        }),
{
    lemma_self(room_of(store, t), p);
    if on {
        lemma_bn(store, t, p, prefix, channels);
    }
}

#[verifier::rlimit(40)]
proof fn lemma_ffc(store: StoreView, t: Table, p: Work, b: FfcBlock)
    requires
        store_whole(store),
        table_sound(t),
        ffc_loaded(p, store, t, b).0.cmds.len() <= usize::MAX,
    ensures
        ({
            let room = room_of(store, t);
            let (q, f) = ffc_loaded(p, store, t, b);
            puts(room, p, q, ffc_sized(f) ==> ffc_ready(room, q.cmds, f))
        }),
{
    reveal(ffc_loaded);
    let room = room_of(store, t);
    let own = block_name(b);
    let ffc = own + ".ffc"@;
    let (p1, spectral) = if b.g2g {
        let (q, sp) = spectral_loaded(p, store, t, ffc + ".convg2g"@, b.out_global, b.stride);
        (q, Some(sp))
    } else {
        (p, None)
    };
    let (p2, l2l) = conv_ref_loaded(p1, store, ffc, b.l2l);
    let (p3, l2g) = conv_ref_loaded(p2, store, ffc, b.l2g);
    let (p4, g2l) = conv_ref_loaded(p3, store, ffc, b.g2l);
    let (p5, bn_l) = bn_if_loaded(p4, t, b.bn_local, own + ".bn_l"@, b.out_local);
    let (p6, bn_g) = bn_if_loaded(p5, t, b.bn_global, own + ".bn_g"@, b.out_global);
    lemma_conv_ref_loaded(p1, store, ffc, b.l2l);
    lemma_conv_ref_loaded(p2, store, ffc, b.l2g);
    lemma_conv_ref_loaded(p3, store, ffc, b.g2l);
    lemma_bn_if_loaded(p4, t, b.bn_local, own + ".bn_l"@, b.out_local);
    lemma_bn_if_loaded(p5, t, b.bn_global, own + ".bn_g"@, b.out_global);
    assert(grows(p1, p2) && grows(p2, p3) && grows(p3, p4) && grows(p4, p5) && grows(p5, p6));
    lemma_self(room, p);
    if b.g2g {
        lemma_spectral(store, t, p, ffc + ".convg2g"@, b.out_global, b.stride);
    }
    lemma_conv_ref(store, t, p1, ffc, b.l2l);
    lemma_conv_ref(store, t, p2, ffc, b.l2g);
    lemma_conv_ref(store, t, p3, ffc, b.g2l);
    lemma_bn_if(store, t, p4, b.bn_local, own + ".bn_l"@, b.out_local);
    lemma_bn_if(store, t, p5, b.bn_global, own + ".bn_g"@, b.out_global);
    lemma_both(room, p, p1, p2);
    lemma_both(room, p, p2, p3);
    lemma_both(room, p, p3, p4);
    lemma_both(room, p, p4, p5);
    lemma_both(room, p, p5, p6);
    lemma_carry(room, p1, p2);
    lemma_carry(room, p2, p3);
    lemma_carry(room, p3, p4);
    lemma_carry(room, p4, p5);
    lemma_carry(room, p5, p6);
}

proof fn lemma_phase(room: Room, p: Work, w: Seq<u32>, cin: usize, cout: usize, ph: nat)
    requires
        phase_loaded(p, w, cin, cout, ph).0.cmds.len() <= usize::MAX,
    ensures
        ({
            let (q, d) = phase_loaded(p, w, cin, cout, ph);
            puts(room, p, q, holds(room, q.cmds, d, cout * (cin * tap_count(ph))))
        }),
{
    broadcast use crate::extents::group_within;

    lemma_self(room, p);
    let m = phase_matrix(w, cin as int, cout as int, ph);
    assert(0 <= cout * (cin * tap_count(ph))) by (nonlinear_arith);
    if phase_loaded(p, w, cin, cout, ph).0 == p.upload(m) {
        if p.upload(m).cmds.len() <= usize::MAX {
            lemma_upload(room, p, m);
        }
    }
}

proof fn lemma_convt(store: StoreView, t: Table, p: Work, prefix: Seq<char>)
    requires
        store_whole(store),
        convt_loaded(p, store, prefix).0.cmds.len() <= usize::MAX,
    ensures
        ({
            let room = room_of(store, t);
            let (q, cv) = convt_loaded(p, store, prefix);
            puts(
                room,
                p,
                q,
                cv.w.len == cv.cin * cv.cout * (3 * 3) && cv.bias.len == cv.cout ==> convt_ready(
                    room,
                    q.cmds,
                    cv,
                ),
            )
        }),
{
    reveal(convt_loaded);
    let room = room_of(store, t);
    let name = prefix + ".weight"@;
    let (q, cv) = convt_loaded(p, store, prefix);
    lemma_self(room, p);
    if store.has(name) && store.tensor(name).shape.len() >= 2 {
        let shape = store.tensor(name).shape;
        let w = store.bits(name);
        let (cin, cout) = (shape[0], shape[1]);
        let (p1, p00) = phase_loaded(p, w, cin, cout, 0);
        let (p2, p01) = phase_loaded(p1, w, cin, cout, 1);
        let (p3, p10) = phase_loaded(p2, w, cin, cout, 2);
        let (p4, p11) = phase_loaded(p3, w, cin, cout, 3);
        let (p5, weight) = blob_tensor(p4, store, name);
        let (p6, bias) = blob_tensor(p5, store, prefix + ".bias"@);
        lemma_phase_loaded(p, w, cin, cout, 0);
        lemma_phase_loaded(p1, w, cin, cout, 1);
        lemma_phase_loaded(p2, w, cin, cout, 2);
        lemma_phase_loaded(p3, w, cin, cout, 3);
        lemma_blob_tensor(store, t, p4, name);
        lemma_blob_tensor(store, t, p5, prefix + ".bias"@);
        lemma_phase(room, p, w, cin, cout, 0);
        lemma_phase(room, p1, w, cin, cout, 1);
        lemma_phase(room, p2, w, cin, cout, 2);
        lemma_phase(room, p3, w, cin, cout, 3);
        lemma_both(room, p, p1, p2);
        lemma_both(room, p, p2, p3);
        lemma_both(room, p, p3, p4);
        lemma_both(room, p, p4, p5);
        lemma_both(room, p, p5, p6);
        lemma_inside_grows(room, p1.cmds, p2.cmds);
        lemma_inside_grows(room, p2.cmds, p3.cmds);
        lemma_inside_grows(room, p3.cmds, p4.cmds);
        lemma_inside_grows(room, p4.cmds, p5.cmds);
        lemma_inside_grows(room, p5.cmds, p6.cmds);
        if q.going() {
            let phases = cv.phases->0;
            assert forall|ph: nat| ph < 4 implies holds(
                room,
                q.cmds,
                #[trigger] phases.of(ph),
                cv.cout * (cv.cin * tap_count(ph)),
            ) by {
                assert(ph == 0 || ph == 1 || ph == 2 || ph == 3);
            }
        }
    } else {
        assert(q.cmds == p.cmds && !q.going());
    }
}

proof fn lemma_step(store: StoreView, t: Table, p: Work, s: Step)
    requires
        store_whole(store),
        table_sound(t),
        step_loaded(p, store, t, s).0.cmds.len() <= usize::MAX,
    ensures
        ({
            let room = room_of(store, t);
            let (q, d) = step_loaded(p, store, t, s);
            puts(room, p, q, step_sized(d) ==> step_ready(room, q.cmds, d))
        }),
{
    reveal(step_loaded);
    let room = room_of(store, t);
    lemma_self(room, p);
    match s {
        Step::Ffc(b) => {
            lemma_ffc(store, t, p, b);
        },
        Step::ResBlock(rb) => {
            let p1 = ffc_loaded(p, store, t, rb.conv1).0;
            let p2 = ffc_loaded(p1, store, t, rb.conv2).0;
            lemma_ffc_loaded(p1, store, t, rb.conv2);
            lemma_ffc(store, t, p, rb.conv1);
            lemma_ffc(store, t, p1, rb.conv2);
            lemma_both(room, p, p1, p2);
            lemma_carry(room, p1, p2);
        },
        Step::Upsample(u) => {
            let p1 = convt_loaded(p, store, module_name(u.index)).0;
            let p2 = bn_loaded(p1, t, module_name(u.bn_index), u.cout).0;
            lemma_bn_loaded(p1, t, module_name(u.bn_index), u.cout);
            lemma_convt(store, t, p, module_name(u.index));
            lemma_bn(store, t, p1, module_name(u.bn_index), u.cout);
            lemma_both(room, p, p1, p2);
            lemma_inside_grows(room, p1.cmds, p2.cmds);
        },
        Step::OutConv(o) => {
            lemma_conv(store, t, p, module_name(o.index));
        },
        _ => {},
    }
}

/// Whether the convolutions of all steps have as many weights as their extents say.
pub open spec fn steps_sized(steps: Seq<DStep>) -> bool {
    forall|i: int| 0 <= i < steps.len() ==> step_sized(#[trigger] steps[i])
}

/// Loaded steps have their tensors: the weights inside the copy of the blob, the
/// normalisations among the staged tensors, the rest in blocks of their own; and
/// loading stays within all of them.
pub proof fn loaded_steps_are_ready(p: Work, store: StoreView, t: Table, steps: Seq<Step>)
    requires
        store_whole(store),
        table_sound(t),
        steps_loaded(p, store, t, steps).0.cmds.len() <= usize::MAX,
    ensures
        ({
            let room = room_of(store, t);
            let (q, ds) = steps_loaded(p, store, t, steps);
            &&& stays_within(room, p, q)
            &&& q.going() && steps_sized(ds) ==> steps_ready(room, q.cmds, ds)
        }),
    decreases steps.len(),
{
    let room = room_of(store, t);
    let (q, ds) = steps_loaded(p, store, t, steps);
    if steps.len() == 0 {
        lemma_self(room, p);
    } else {
        let (a, done) = steps_loaded(p, store, t, steps.drop_last());
        if a.going() {
            let (r, d) = step_loaded(a, store, t, steps.last());
            lemma_step_loaded(a, store, t, steps.last());
            loaded_steps_are_ready(p, store, t, steps.drop_last());
            lemma_step(store, t, a, steps.last());
            lemma_both(room, p, a, r);
            if q.going() && steps_sized(ds) {
                assert(steps_sized(done)) by {
                    assert forall|i: int| 0 <= i < done.len() implies step_sized(
                        #[trigger] done[i],
                    ) by {
                        assert(step_sized(ds[i]));
                    }
                }
                lemma_carry(room, a, r);
                lemma_inside_grows(room, a.cmds, r.cmds);
                assert forall|i: int| 0 <= i < ds.len() implies step_ready(
                    room,
                    q.cmds,
                    #[trigger] ds[i],
                ) by {
                    if i < done.len() {
                        assert(ds[i] == done[i]);
                        assert(step_ready(room, a.cmds, done[i]));
                    } else {
                        assert(step_sized(ds[i]));
                    }
                }
            }
        } else {
            loaded_steps_are_ready(p, store, t, steps.drop_last());
        }
    }
}

/// Nothing recorded.
pub open spec fn nothing_recorded(flags: Flags) -> Work {
    Work {
        cmds: Seq::empty(),
        data: Seq::empty(),
        blob: false,
        staged: false,
        stop: None,
        flags,
    }
}

/// Every command of a program stays within the blocks, the blob and the staged tensors
/// that it is handed, where the convolutions have as many weights as their extents say,
/// every layer matches the activations that reach it, and the input has four planes.
pub proof fn program_stays_within(
    store: StoreView,
    steps: Seq<Step>,
    folds: Seq<Fold>,
    flags: Flags,
    len: usize,
    h: usize,
    w: usize,
)
    requires
        store_whole(store),
        len == 4 * (h * w),
        ({
            let (p, loaded) = steps_loaded(
                nothing_recorded(flags),
                store,
                bn_table(store, folds),
                steps,
            );
            &&& steps_sized(loaded)
            &&& steps_fit(pass_start(p, len, h, w), loaded)
        }),
        program(store, steps, folds, flags, len, h, w).cmds.len() <= usize::MAX,
    ensures
        stays_within(
            room_of(store, bn_table(store, folds)),
            nothing_recorded(flags),
            program(store, steps, folds, flags, len, h, w),
        ),
{
    let start = nothing_recorded(flags);
    let t = bn_table(store, folds);
    let room = room_of(store, t);
    let (p, loaded) = steps_loaded(start, store, t, steps);
    if t.stop is None {
        folds_read_back(folds, t.names.len());
    }
    lemma_pass_grows(p, loaded, len, h, w);
    loaded_steps_are_ready(start, store, t, steps);
    pass_stays_within(room, p, loaded, len, h, w);
    lemma_both(room, start, p, pass(p, loaded, len, h, w));
}

} // verus!
