//! Which tensors a loaded model uses: those that the weight index holds under the
//! names of its modules.

use vstd::prelude::*;

use crate::cuda::{Base, Cmd, Dev, Work};
use crate::grid::{cell, lemma_cell};
use crate::layout::{kernel_at, phase_matrix, swapped, swapped_from, tap_col, tap_row};
use crate::lifetime::{
    lemma_blob_tensor, lemma_bn_if_loaded, lemma_bn_loaded, lemma_committed, lemma_conv_loaded,
    lemma_conv_ref_loaded, lemma_convt_loaded, lemma_phase_loaded,
};
use crate::loader::{
    blob_tensor, blob_there, block_name, bn_if_loaded, bn_loaded, bn_table, committed, conv_bias,
    conv_loaded, conv_ref_loaded, convt_loaded, ffc_loaded, folds_read_back, last_index,
    module_name, phase_loaded, spectral_loaded, Fold, Table,
};
use crate::meaning::{after_all, holds, older, untouched, value};
use crate::model::{ConvRef, FfcBlock};
use crate::ops::{tap_count, DBn, DConv, DConvT, DFfc, DSpectral};
use crate::staging::{modules, sorted};
use crate::text::{dec, digit_char};
use crate::weights::{shape_product, StoreView};

verus! {

broadcast use crate::cuda::group_work;

// ---------------------------------------------------------------------------
// Names
// ---------------------------------------------------------------------------

proof fn lemma_digits(n: nat)
    ensures
        dec(n).len() >= 1,
        forall|i: int| 0 <= i < dec(n).len() ==> #[trigger] dec(n)[i] != '.',
    decreases n,
{
    if n >= 10 {
        lemma_digits(n / 10);
    }
}

proof fn lemma_digit_distinct(a: int, b: int)
    requires
        0 <= a < 10,
        0 <= b < 10,
        digit_char(a) == digit_char(b),
    ensures
        a == b,
{
}

/// Different numbers have different digits.
proof fn lemma_dec_distinct(a: nat, b: nat)
    requires
        dec(a) == dec(b),
    ensures
        a == b,
    decreases a,
{
    lemma_digits(a / 10);
    lemma_digits(b / 10);
    assert(dec(a).last() == dec(b).last());
    assert(dec(a).len() == dec(b).len());
    assert(dec(a).last() == digit_char((a % 10) as int));
    assert(dec(b).last() == digit_char((b % 10) as int));
    lemma_digit_distinct((a % 10) as int, (b % 10) as int);
    if a >= 10 && b >= 10 {
        assert(dec(a).drop_last() =~= dec(a / 10));
        assert(dec(b).drop_last() =~= dec(b / 10));
        lemma_dec_distinct(a / 10, b / 10);
    }
}

proof fn lemma_numbered_apart(a: nat, b: nat, s: Seq<char>, t: Seq<char>)
    requires
        "model."@ + dec(a) + s == "model."@ + dec(b) + t,
        s.len() == 0 || s[0] == '.',
        t.len() == 0 || t[0] == '.',
    ensures
        a == b,
        s == t,
{
    let x = "model."@ + dec(a) + s;
    let y = "model."@ + dec(b) + t;
    let k = "model."@.len() as int;
    let (m, n) = (dec(a).len() as int, dec(b).len() as int);
    lemma_digits(a);
    lemma_digits(b);
    if m < n {
        assert(y[k + m] == dec(b)[m]);
        assert(s.len() > 0);
        assert(x[k + m] == s[0]);
    }
    if n < m {
        assert(x[k + n] == dec(a)[n]);
        assert(t.len() > 0);
        assert(y[k + n] == t[0]);
    }
    assert(dec(a) =~= dec(b)) by {
        assert(dec(a) =~= x.subrange(k, k + m));
        assert(dec(b) =~= y.subrange(k, k + n));
    }
    assert(s =~= x.subrange(k + m, x.len() as int));
    assert(t =~= y.subrange(k + n, y.len() as int));
    lemma_dec_distinct(a, b);
}

/// Modules of different numbers have different names.
pub proof fn modules_are_told_apart(a: usize, b: usize)
    ensures
        module_name(a) == module_name(b) ==> a == b,
{
    if module_name(a) == module_name(b) {
        assert("model."@ + dec(a as nat) + Seq::empty() =~= "model."@ + dec(a as nat));
        assert("model."@ + dec(b as nat) + Seq::empty() =~= "model."@ + dec(b as nat));
        lemma_numbered_apart(a as nat, b as nat, Seq::empty(), Seq::empty());
    }
}

/// Two blocks at different places, by the number of their module or by their place in
/// it, have different names, so that neither uses the weights of the other.
pub proof fn blocks_are_told_apart(a: FfcBlock, b: FfcBlock)
    requires
        a.sub <= 2,
        b.sub <= 2,
    ensures
        block_name(a) == block_name(b) ==> a.index == b.index && a.sub == b.sub,
{
    if block_name(a) == block_name(b) {
        reveal_strlit(".conv1");
        reveal_strlit(".conv2");
        let s = if a.sub == 0 {
            Seq::empty()
        } else if a.sub == 1 {
            ".conv1"@
        } else {
            ".conv2"@
        };
        let t = if b.sub == 0 {
            Seq::empty()
        } else if b.sub == 1 {
            ".conv1"@
        } else {
            ".conv2"@
        };
        assert("model."@ + dec(a.index as nat) + s =~= block_name(a));
        assert("model."@ + dec(b.index as nat) + t =~= block_name(b));
        lemma_numbered_apart(a.index as nat, b.index as nat, s, t);
        assert(".conv1"@[5] != ".conv2"@[5]);
    }
}

// ---------------------------------------------------------------------------
// Convolutions
// ---------------------------------------------------------------------------

/// A buffer is the whole of a tensor where it lies in the blob.
pub open spec fn is_tensor(store: StoreView, name: Seq<char>, d: Dev) -> bool {
    &&& store.has(name)
    &&& d.addr.base == Base::Blob
    &&& d.addr.offset == store.tensor(name).offset
    &&& d.len == store.tensor(name).nbytes / 4
    &&& !d.owned
}

/// A convolution is that of a module: its weight and its extents are those of the
/// module's weight, and it has the module's bias exactly where that has one value per
/// output.
pub open spec fn is_conv(store: StoreView, module: Seq<char>, cv: DConv) -> bool {
    let shape = store.tensor(module + ".weight"@).shape;
    let bias = module + ".bias"@;
    &&& is_tensor(store, module + ".weight"@, cv.w)
    &&& shape.len() >= 4
    &&& cv.cout == shape[0]
    &&& cv.cin == shape[1]
    &&& cv.kh == shape[2]
    &&& cv.kw == shape[3]
    &&& cv.bias is Some <==> store.has(bias) && shape_product(store.tensor(bias).shape) == cv.cout
    &&& (cv.bias matches Some(b) ==> is_tensor(store, bias, b))
    &&& cv.w_t is Some <==> cv.kh == 7 && cv.kw == 7 && cv.cout <= 8
}

/// A loaded convolution is that of the module it was asked for.
pub proof fn convolution_is_the_modules(p: Work, store: StoreView, module: Seq<char>)
    requires
        conv_loaded(p, store, module).0.going(),
    ensures
        is_conv(store, module, conv_loaded(p, store, module).1),
        p.going(),
{
    reveal(conv_loaded);
    lemma_conv_loaded(p, store, module);
}

/// Recorded floats: where they are on the device, and what they are.
pub open spec fn is_sent(q: Work, d: Dev, bits: Seq<u32>) -> bool {
    let v = value(q, d.addr);
    &&& v is Sent
    &&& v->Sent_floats == bits.len()
    &&& v->from + bits.len() <= q.data.len()
    &&& q.data.subrange(v->from as int, v->from + bits.len()) == bits
}

/// Floats that are copied to the device are there as they are.
pub proof fn upload_sends_its_floats(p: Work, bits: Seq<u32>)
    requires
        p.upload(bits).going(),
        p.upload(bits).cmds.len() <= usize::MAX,
        p.upload(bits).data.len() <= usize::MAX,
        bits.len() > 0,
    ensures
        is_sent(p.upload(bits), p.fresh(bits.len() as usize), bits),
        p.going(),
{
    let n = bits.len() as int;
    let a = p.allocate(n);
    let d = p.fresh(n as usize);
    let cmd = Cmd::Upload { to: d.addr, from: a.data.len() as usize, floats: n as usize };
    let q = p.upload(bits);
    assert(q.cmds == a.push(cmd).cmds);
    crate::dataflow::lemma_block(p, n);
    crate::meaning::lemma_performed(a, cmd);
    assert(value(q, d.addr) == value(a.push(cmd), d.addr));
    assert(q.data.subrange(a.data.len() as int, a.data.len() + n) =~= bits);
}

/// The weights that the 7x7 kernel reads are those of the module's weight with the
/// input channels first: output `co`, input `ci` and tap `r` stand at `[ci][co][r]`.
pub proof fn wide_weights_are_reordered(
    p: Work,
    store: StoreView,
    module: Seq<char>,
    co: int,
    ci: int,
    r: int,
)
    requires
        conv_loaded(p, store, module).0.going(),
        conv_loaded(p, store, module).0.cmds.len() <= usize::MAX,
        conv_loaded(p, store, module).0.data.len() <= usize::MAX,
        conv_loaded(p, store, module).1.w_t is Some,
        0 <= co < conv_loaded(p, store, module).1.cout,
        0 <= ci < conv_loaded(p, store, module).1.cin,
        0 <= r < 49,
    ensures
        ({
            let (q, cv) = conv_loaded(p, store, module);
            let v = value(q, (cv.w_t->0).addr);
            let w = store.bits(module + ".weight"@);
            &&& v is Sent
            &&& v->from + cell(49, cell(cv.cout as int, ci, co), r) < q.data.len()
            &&& q.data[v->from + cell(49, cell(cv.cout as int, ci, co), r)] == w[cell(
                49,
                cell(cv.cin as int, co, ci),
                r,
            )]
        }),
{
    reveal(conv_loaded);
    lemma_conv_loaded(p, store, module);
    let name = module + ".weight"@;
    let (q, cv) = conv_loaded(p, store, module);
    let w = store.bits(name);
    let (p1, _w) = blob_tensor(p, store, name);
    let (p2, _b) = conv_bias(p1, store, module, cv.cout);
    let (cout, cin) = (cv.cout as int, cv.cin as int);
    let bits = swapped(w, cout, cin, 49);
    assert(q == p2.upload(bits));
    lemma_cell(cin, cout, ci, co);
    lemma_cell(cin * cout, 49, cell(cout, ci, co), r);
    let i = cell(49, cell(cout, ci, co), r);
    assert(cin * cout * 49 == cin * cout * 49);
    upload_sends_its_floats(p2, bits);
    let from = value(q, (cv.w_t->0).addr)->from as int;
    assert(bits[i] == q.data.subrange(from, from + bits.len())[i]);
    assert(swapped_from(i, cout, cin, 49) == cell(49, cell(cin, co, ci), r));
}

// ---------------------------------------------------------------------------
// Normalisations
// ---------------------------------------------------------------------------

/// A buffer is a window of staged tensors that shows `bits`.
pub open spec fn is_staged(t: Table, d: Dev, bits: Seq<u32>) -> bool {
    let first = d.addr.offset as int / 4;
    &&& d.addr.base == Base::Staging
    &&& d.addr.offset % 16 == 0
    &&& d.len == bits.len()
    &&& !d.owned
    &&& first + bits.len() <= t.packed.host.len()
    &&& t.packed.host.subrange(first, first + bits.len()) == bits
}

/// A normalisation is that of a module: its scale and its shift are those that the
/// module was folded to. Where several have the name, it is the last of them.
pub open spec fn is_norm(
    store: StoreView,
    folds: Seq<Fold>,
    module: Seq<char>,
    channels: usize,
    bn: DBn,
) -> bool {
    let t = bn_table(store, folds);
    let names = sorted(modules(store.index.order));
    exists|i: int|
        {
            &&& 0 <= i < names.len() <= folds.len()
            &&& #[trigger] names[i] == module
            &&& forall|j: int| i < j < names.len() ==> names[j] != module
            &&& bn.channels == channels
            &&& folds[i].scale@.len() == channels
            &&& folds[i].shift@.len() == channels
            &&& is_staged(t, bn.scale, folds[i].scale@)
            &&& is_staged(t, bn.shift, folds[i].shift@)
        }
}

proof fn lemma_last_named(names: Seq<Seq<char>>, x: Seq<char>)
    ensures
        match last_index(names, x) {
            Some(i) => 0 <= i < names.len() && names[i] == x && forall|j: int|
                i < j < names.len() ==> #[trigger] names[j] != x,
            None => forall|j: int| 0 <= j < names.len() ==> #[trigger] names[j] != x,
        },
    decreases names.len(),
{
    if names.len() > 0 && names.last() != x {
        let before = names.drop_last();
        lemma_last_named(before, x);
        assert forall|j: int|
            0 <= j < names.len() && (last_index(before, x) matches Some(i) ==> i < j) implies #[trigger] names[j]
            != x by {
            if j < before.len() {
                assert(before[j] == names[j]);
            }
        }
    }
}

/// A loaded normalisation is that of the module it was asked for.
pub proof fn normalisation_is_the_modules(
    p: Work,
    store: StoreView,
    folds: Seq<Fold>,
    module: Seq<char>,
    channels: usize,
)
    requires
        bn_loaded(p, bn_table(store, folds), module, channels).0.going(),
    ensures
        is_norm(
            store,
            folds,
            module,
            channels,
            bn_loaded(p, bn_table(store, folds), module, channels).1,
        ),
        p.going(),
{
    reveal(bn_loaded);
    let t = bn_table(store, folds);
    let names = sorted(modules(store.index.order));
    let (q, bn) = bn_loaded(p, t, module, channels);
    lemma_bn_loaded(p, t, module, channels);
    lemma_committed(p, t);
    assert(t.stop is None);
    lemma_last_named(names, module);
    folds_read_back(folds, names.len());
    let i = last_index(names, module)->0;
    let f = folds[i];
    let packed = t.packed;
    assert(packed.tensor(2 * i) == f.scale@ && packed.tensor(2 * i + 1) == f.shift@);
    let (a, b) = (packed.records[2 * i], packed.records[2 * i + 1]);
    assert(packed.tensor(2 * i).len() == a.len);
    assert(packed.tensor(2 * i + 1).len() == b.len);
    assert(is_staged(t, bn.scale, f.scale@));
    assert(is_staged(t, bn.shift, f.shift@));
    assert(names[i] == module);
}

/// The first normalisation that is loaded has all staged tensors copied, as they are,
/// to a block of their size.
pub proof fn staged_tensors_are_copied(p: Work, t: Table)
    requires
        t.stop is None,
        p.going(),
        !p.staged,
        p.data.len() <= usize::MAX,
        0 < t.packed.host.len() <= usize::MAX,
    ensures
        ({
            let q = committed(p, t);
            let n = p.cmds.len() as int;
            &&& q.staged
            &&& q.cmds.len() == n + 2
            &&& q.cmds.take(n) == p.cmds
            &&& q.cmds[n] matches Cmd::StageMalloc { floats } && floats == t.packed.host.len()
            &&& q.cmds[n + 1] matches Cmd::StageCopy { from, floats } && q.data.subrange(
                from as int,
                from + floats,
            ) == t.packed.host
        }),
{
    reveal(Work::push);
    let q = committed(p, t);
    let n = p.cmds.len() as int;
    assert(q.cmds.take(n) =~= p.cmds);
    let (from, len) = (p.data.len() as int, t.packed.host.len() as int);
    assert(q.data.subrange(from, from + len) =~= t.packed.host);
}

/// The staged tensors are copied once.
pub proof fn staged_tensors_are_copied_once(p: Work, t: Table)
    requires
        t.stop is None,
    ensures
        committed(committed(p, t), t) == committed(p, t),
{
}

// ---------------------------------------------------------------------------
// Blocks
// ---------------------------------------------------------------------------

/// A spectral branch is that of a module.
pub open spec fn is_spectral(
    store: StoreView,
    folds: Seq<Fold>,
    module: Seq<char>,
    out_global: usize,
    stride: usize,
    sp: DSpectral,
) -> bool {
    let half = out_global / 2;
    &&& is_conv(store, module + ".conv1.0"@, sp.conv1)
    &&& is_norm(store, folds, module + ".conv1.1"@, half, sp.bn1)
    &&& is_conv(store, module + ".fu.conv_layer"@, sp.fu_conv)
    &&& is_norm(store, folds, module + ".fu.bn"@, (2 * half) as usize, sp.fu_bn)
    &&& is_conv(store, module + ".conv2"@, sp.conv2)
    &&& sp.half == half
    &&& sp.stride == stride
}

/// A loaded spectral branch is that of the module it was asked for.
pub proof fn spectral_is_the_modules(
    p: Work,
    store: StoreView,
    folds: Seq<Fold>,
    module: Seq<char>,
    out_global: usize,
    stride: usize,
)
    requires
        spectral_loaded(p, store, bn_table(store, folds), module, out_global, stride).0.going(),
    ensures
        is_spectral(
            store,
            folds,
            module,
            out_global,
            stride,
            spectral_loaded(p, store, bn_table(store, folds), module, out_global, stride).1,
        ),
        p.going(),
{
    reveal(spectral_loaded);
    let t = bn_table(store, folds);
    let half = out_global / 2;
    let (p1, _a) = conv_loaded(p, store, module + ".conv1.0"@);
    let (p2, _b) = bn_loaded(p1, t, module + ".conv1.1"@, half);
    let (p3, _c) = conv_loaded(p2, store, module + ".fu.conv_layer"@);
    let (p4, _d) = bn_loaded(p3, t, module + ".fu.bn"@, (2 * half) as usize);
    convolution_is_the_modules(p4, store, module + ".conv2"@);
    normalisation_is_the_modules(p3, store, folds, module + ".fu.bn"@, (2 * half) as usize);
    convolution_is_the_modules(p2, store, module + ".fu.conv_layer"@);
    normalisation_is_the_modules(p1, store, folds, module + ".conv1.1"@, half);
    convolution_is_the_modules(p, store, module + ".conv1.0"@);
}

/// A convolution that may be absent is that of the module `name` below `module`.
pub open spec fn is_conv_ref(
    store: StoreView,
    module: Seq<char>,
    r: ConvRef,
    cv: Option<DConv>,
) -> bool {
    match r {
        ConvRef::Absent => cv is None,
        ConvRef::Present { name } => cv is Some && is_conv(
            store,
            module + ".ffc"@ + "."@ + name@,
            cv->0,
        ),
    }
}

/// A block on the device is that of a module.
pub open spec fn is_block(
    store: StoreView,
    folds: Seq<Fold>,
    module: Seq<char>,
    b: FfcBlock,
    f: DFfc,
) -> bool {
    &&& is_conv_ref(store, module, b.l2l, f.l2l)
    &&& is_conv_ref(store, module, b.l2g, f.l2g)
    &&& is_conv_ref(store, module, b.g2l, f.g2l)
    &&& f.spectral is Some <==> b.g2g
    &&& (f.spectral matches Some(sp) ==> is_spectral(
        store,
        folds,
        module + ".ffc"@ + ".convg2g"@,
        b.out_global,
        b.stride,
        sp,
    ))
    &&& f.bn_l is Some <==> b.bn_local
    &&& (f.bn_l matches Some(bn) ==> is_norm(store, folds, module + ".bn_l"@, b.out_local, bn))
    &&& f.bn_g is Some <==> b.bn_global
    &&& (f.bn_g matches Some(bn) ==> is_norm(store, folds, module + ".bn_g"@, b.out_global, bn))
    &&& f.kernel == b.kernel
    &&& f.stride == b.stride
    &&& f.pad == b.pad
    &&& f.reflect == b.reflection
    &&& f.in_local == b.in_local
    &&& f.in_global == b.in_global
    &&& f.out_local == b.out_local
    &&& f.out_global == b.out_global
}

/// A loaded block is that of its own module: `model.i` where it stands alone,
/// `model.i.conv1` and `model.i.conv2` where it is the first or the second convolution
/// of a residual block.
pub proof fn block_is_the_modules(p: Work, store: StoreView, folds: Seq<Fold>, b: FfcBlock)
    requires
        ffc_loaded(p, store, bn_table(store, folds), b).0.going(),
    ensures
        ({
            let f = ffc_loaded(p, store, bn_table(store, folds), b).1;
            let numbered = "model."@ + dec(b.index as nat);
            &&& b.sub == 0 ==> is_block(store, folds, numbered, b, f)
            &&& b.sub == 1 ==> is_block(store, folds, numbered + ".conv1"@, b, f)
            &&& b.sub == 2 ==> is_block(store, folds, numbered + ".conv2"@, b, f)
        }),
        p.going(),
{
    reveal(ffc_loaded);
    let t = bn_table(store, folds);
    let (q, f) = ffc_loaded(p, store, t, b);
    let own = block_name(b);
    let ffc = own + ".ffc"@;
    let p1 = if b.g2g {
        spectral_loaded(p, store, t, ffc + ".convg2g"@, b.out_global, b.stride).0
    } else {
        p
    };
    let (p2, _a) = conv_ref_loaded(p1, store, ffc, b.l2l);
    let (p3, _b) = conv_ref_loaded(p2, store, ffc, b.l2g);
    let (p4, _c) = conv_ref_loaded(p3, store, ffc, b.g2l);
    let (p5, _d) = bn_if_loaded(p4, t, b.bn_local, own + ".bn_l"@, b.out_local);
    lemma_bn_if_loaded(p5, t, b.bn_global, own + ".bn_g"@, b.out_global);
    lemma_bn_if_loaded(p4, t, b.bn_local, own + ".bn_l"@, b.out_local);
    lemma_conv_ref_loaded(p3, store, ffc, b.g2l);
    lemma_conv_ref_loaded(p2, store, ffc, b.l2g);
    lemma_conv_ref_loaded(p1, store, ffc, b.l2l);
    if b.bn_global {
        normalisation_is_the_modules(p5, store, folds, own + ".bn_g"@, b.out_global);
    }
    if b.bn_local {
        normalisation_is_the_modules(p4, store, folds, own + ".bn_l"@, b.out_local);
    }
    if let ConvRef::Present { name } = b.g2l {
        convolution_is_the_modules(p3, store, ffc + "."@ + name@);
    }
    if let ConvRef::Present { name } = b.l2g {
        convolution_is_the_modules(p2, store, ffc + "."@ + name@);
    }
    if let ConvRef::Present { name } = b.l2l {
        convolution_is_the_modules(p1, store, ffc + "."@ + name@);
    }
    if b.g2g {
        spectral_is_the_modules(
            p,
            store,
            folds,
            ffc + ".convg2g"@,
            b.out_global,
            b.stride,
        );
    }
    assert(is_block(store, folds, own, b, f));
}

// ---------------------------------------------------------------------------
// Transposed convolutions
// ---------------------------------------------------------------------------

/// What is copied to the device stays there, and so do the recorded floats.
spec fn sent_on(p: Work, q: Work) -> bool {
    &&& untouched(p.cmds.len(), p, q)
    &&& p.cmds.len() <= q.cmds.len()
    &&& p.data.len() <= q.data.len()
    &&& q.data.take(p.data.len() as int) == p.data
}

proof fn lemma_upload_on(p: Work, bits: Seq<u32>)
    requires
        p.upload(bits).going(),
        p.upload(bits).cmds.len() <= usize::MAX,
    ensures
        sent_on(p, p.upload(bits)),
        p.going(),
{
    let n = bits.len() as int;
    let a = p.allocate(n);
    let d = p.fresh(n as usize);
    let cmd = Cmd::Upload { to: d.addr, from: a.data.len() as usize, floats: n as usize };
    let q = p.upload(bits);
    crate::dataflow::lemma_block(p, n);
    if n > 0 {
        assert(q.cmds == a.push(cmd).cmds);
        crate::meaning::lemma_performed(a, cmd);
        assert forall|id: usize| id < p.cmds.len() implies #[trigger] holds(q, id) == holds(
            p,
            id,
        ) by {
            assert(holds(a, id) == holds(p, id));
            assert(holds(q, id) == holds(a.push(cmd), id));
        }
    }
    assert(q.data.take(p.data.len() as int) =~= p.data);
}

proof fn lemma_blob_on(p: Work, store: StoreView, name: Seq<char>)
    requires
        blob_tensor(p, store, name).0.going(),
    ensures
        sent_on(p, blob_tensor(p, store, name).0),
        is_tensor(store, name, blob_tensor(p, store, name).1),
        p.going(),
{
    let len = store.bytes.len();
    let q = blob_there(p, len);
    let a = Cmd::BlobMalloc { floats: ((len + 3) / 4) as usize };
    let b = Cmd::BlobCopy { bytes: len as usize };
    crate::meaning::lemma_performed(p, a);
    crate::meaning::lemma_performed(p.push(a), b);
    assert(after_all(q) == after_all(p));
    assert forall|id: usize| id < p.cmds.len() implies #[trigger] holds(q, id) == holds(
        p,
        id,
    ) by {}
    assert(q.data.take(p.data.len() as int) =~= p.data);
}

proof fn lemma_sent_both(p: Work, q: Work, r: Work)
    requires
        sent_on(p, q),
        sent_on(q, r),
    ensures
        sent_on(p, r),
{
    crate::dataflow::lemma_on(p.cmds.len(), q.cmds.len(), p, q, r);
    assert(r.data.take(p.data.len() as int) =~= q.data.take(p.data.len() as int)) by {
        assert forall|i: int| 0 <= i < p.data.len() implies r.data[i] == q.data[i] by {
            assert(r.data.take(q.data.len() as int)[i] == q.data[i]);
        }
    }
}

proof fn lemma_still_sent(p: Work, q: Work, d: Dev, bits: Seq<u32>)
    requires
        sent_on(p, q),
        is_sent(p, d, bits),
        older(d.addr, p.cmds.len()),
    ensures
        is_sent(q, d, bits),
{
    crate::dataflow::lemma_same_value(p.cmds.len(), p, q, d.addr);
    let from = value(p, d.addr)->from as int;
    assert(q.data.subrange(from, from + bits.len()) =~= p.data.subrange(from, from + bits.len()))
        by {
        assert forall|i: int| 0 <= i < p.data.len() implies q.data[i] == p.data[i] by {
            assert(q.data.take(p.data.len() as int)[i] == p.data[i]);
        }
    }
}

proof fn lemma_phase_sent(p: Work, w: Seq<u32>, cin: usize, cout: usize, ph: nat)
    requires
        phase_loaded(p, w, cin, cout, ph).0.going(),
        phase_loaded(p, w, cin, cout, ph).0.cmds.len() <= usize::MAX,
    ensures
        ({
            let (q, d) = phase_loaded(p, w, cin, cout, ph);
            let m = phase_matrix(w, cin as int, cout as int, ph);
            &&& sent_on(p, q)
            &&& m.len() > 0 && q.data.len() <= usize::MAX ==> is_sent(q, d, m)
            &&& older(d.addr, q.cmds.len())
            &&& p.going()
        }),
{
    let m = phase_matrix(w, cin as int, cout as int, ph);
    lemma_phase_loaded(p, w, cin, cout, ph);
    lemma_upload_on(p, m);
    crate::dataflow::lemma_block(p, m.len() as int);
    if m.len() > 0 && p.upload(m).data.len() <= usize::MAX {
        upload_sends_its_floats(p, m);
    }
}

/// A transposed convolution is that of a module.
pub open spec fn is_convt(store: StoreView, module: Seq<char>, cv: DConvT) -> bool {
    let shape = store.tensor(module + ".weight"@).shape;
    &&& is_tensor(store, module + ".weight"@, cv.w)
    &&& is_tensor(store, module + ".bias"@, cv.bias)
    &&& shape.len() >= 2
    &&& cv.cin == shape[0]
    &&& cv.cout == shape[1]
    &&& cv.phases is Some
}

/// A loaded transposed convolution is that of the module it was asked for, and the
/// weights of its phases are the four matrices of the module's weight.
pub proof fn transposed_is_the_modules(p: Work, store: StoreView, module: Seq<char>)
    requires
        convt_loaded(p, store, module).0.going(),
        convt_loaded(p, store, module).0.cmds.len() <= usize::MAX,
        convt_loaded(p, store, module).0.data.len() <= usize::MAX,
    ensures
        ({
            let (q, cv) = convt_loaded(p, store, module);
            let w = store.bits(module + ".weight"@);
            let (cin, cout) = (cv.cin as int, cv.cout as int);
            &&& is_convt(store, module, cv)
            &&& cin > 0 && cout > 0 ==> {
                &&& is_sent(q, (cv.phases->0).p00, phase_matrix(w, cin, cout, 0))
                &&& is_sent(q, (cv.phases->0).p01, phase_matrix(w, cin, cout, 1))
                &&& is_sent(q, (cv.phases->0).p10, phase_matrix(w, cin, cout, 2))
                &&& is_sent(q, (cv.phases->0).p11, phase_matrix(w, cin, cout, 3))
            }
        }),
        p.going(),
{
    reveal(convt_loaded);
    lemma_convt_loaded(p, store, module);
    let name = module + ".weight"@;
    let (q, cv) = convt_loaded(p, store, module);
    let w = store.bits(name);
    let (cin, cout) = (cv.cin, cv.cout);
    let (p1, p00) = phase_loaded(p, w, cin, cout, 0);
    let (p2, p01) = phase_loaded(p1, w, cin, cout, 1);
    let (p3, p10) = phase_loaded(p2, w, cin, cout, 2);
    let (p4, p11) = phase_loaded(p3, w, cin, cout, 3);
    let (p5, _w) = blob_tensor(p4, store, name);
    lemma_phase_loaded(p, w, cin, cout, 0);
    lemma_phase_loaded(p1, w, cin, cout, 1);
    lemma_phase_loaded(p2, w, cin, cout, 2);
    lemma_phase_loaded(p3, w, cin, cout, 3);
    lemma_blob_tensor(p4, store, name);
    lemma_blob_tensor(p5, store, module + ".bias"@);
    lemma_blob_on(p5, store, module + ".bias"@);
    lemma_blob_on(p4, store, name);
    lemma_phase_sent(p3, w, cin, cout, 3);
    lemma_phase_sent(p2, w, cin, cout, 2);
    lemma_phase_sent(p1, w, cin, cout, 1);
    lemma_phase_sent(p, w, cin, cout, 0);
    lemma_sent_both(p4, p5, q);
    lemma_sent_both(p3, p4, q);
    lemma_sent_both(p2, p3, q);
    lemma_sent_both(p1, p2, q);
    if cin > 0 && cout > 0 {
        lemma_matrix_len(w, cin as int, cout as int, 0);
        lemma_matrix_len(w, cin as int, cout as int, 1);
        lemma_matrix_len(w, cin as int, cout as int, 2);
        lemma_matrix_len(w, cin as int, cout as int, 3);
        lemma_still_sent(p1, q, p00, phase_matrix(w, cin as int, cout as int, 0));
        lemma_still_sent(p2, q, p01, phase_matrix(w, cin as int, cout as int, 1));
        lemma_still_sent(p3, q, p10, phase_matrix(w, cin as int, cout as int, 2));
        lemma_still_sent(p4, q, p11, phase_matrix(w, cin as int, cout as int, 3));
    }
}

proof fn lemma_matrix_len(w: Seq<u32>, cin: int, cout: int, ph: nat)
    requires
        cin > 0,
        cout > 0,
    ensures
        phase_matrix(w, cin, cout, ph).len() > 0,
{
    let k = cin * tap_count(ph);
    assert(cout * k > 0) by (nonlinear_arith)
        requires
            cin > 0,
            cout > 0,
            k == cin * tap_count(ph),
            tap_count(ph) > 0,
    ;
}

/// The matrix of a phase holds, for output `co` and input `ci`, the weights of the 3x3
/// kernel that meet the phase's pixels, row by row: the middle row for even output
/// rows and the outer two for odd ones, and so with the columns.
pub proof fn phase_matrix_holds_its_taps(
    w: Seq<u32>,
    cin: int,
    cout: int,
    ph: nat,
    co: int,
    ci: int,
    t: int,
)
    requires
        ph < 4,
        0 <= co < cout,
        0 <= ci < cin,
        0 <= t < (1 + ph / 2) * (1 + ph % 2),
    ensures
        ({
            let taps = (1 + ph / 2) * (1 + ph % 2);
            let row = if ph / 2 == 0 {
                1
            } else {
                2 * (t / (1 + ph % 2) as int)
            };
            let col = if ph % 2 == 0 {
                1
            } else {
                2 * (t % (1 + ph % 2) as int)
            };
            &&& phase_matrix(w, cin, cout, ph).len() == cout * (cin * taps)
            &&& phase_matrix(w, cin, cout, ph)[cell(cin * taps, co, cell(taps as int, ci, t))]
                == w[9 * cell(cout, ci, co) + 3 * row + col]
        }),
{
    crate::upsampling::lemma_taps(ph);
    let taps = tap_count(ph) as int;
    let k = cin * taps;
    lemma_cell(cin, taps, ci, t);
    let j = cell(taps, ci, t);
    lemma_cell(cout, k, co, j);
    let row = if ph / 2 == 0 {
        1
    } else {
        2 * (t / (1 + ph % 2) as int)
    };
    let col = if ph % 2 == 0 {
        1
    } else {
        2 * (t % (1 + ph % 2) as int)
    };
    assert(tap_row(ph, t) == row && tap_col(ph, t) == col) by {
        assert(ph == 0 || ph == 1 || ph == 2 || ph == 3);
        if ph == 2 {
            assert(t / 1 == t);
        }
        if ph == 1 || ph == 3 {
            assert(t == 0 || t == 1 || t == 2 || t == 3);
        }
    }
    assert(kernel_at(cout, ci, co, row, col) == 9 * cell(cout, ci, co) + 3 * row + col);
    let i = cell(k, co, j);
    assert(phase_matrix(w, cin, cout, ph)[i] == w[kernel_at(cout, ci, co, row, col)]);
}

} // verus!
